//! The two candidate-key strategies: dictionary-derived keys (every
//! dictionary word read as a shift vector) and combinatorial keys (every
//! shift vector of each length in a caller-bounded range, enumerated in
//! lexicographic order as base-26 counting).

use vstd::arithmetic::div_mod::lemma_fundamental_div_mod_converse;
use vstd::prelude::*;

use crate::dict::DictIndex;
use crate::letters::is_upper;
use crate::shift::{wf_shifts, Key};

verus! {

/// The shift vector a word of uppercase letters stands for: each letter its
/// zero-based alphabet offset (A -> 0, Z -> 25).
pub open spec fn key_of_word(w: Seq<char>) -> Seq<u8> {
    w.map_values(|c: char| ((c as u32) - 65) as u8)
}

/// Dictionary-derived candidates: exactly one key per dictionary entry, in
/// the index's sorted order. Every entry is non-empty and alphabetic, so
/// every derived key is well-formed.
pub fn derive_keys(dict: &DictIndex) -> (r: Vec<Key>)
    requires
        dict.wf(),
    ensures
        r@.len() == dict.words@.len(),
        forall|i: int|
            0 <= i < r@.len() ==> (#[trigger] r@[i]).shifts@ == key_of_word(dict.words@[i]@)
                && r@[i].wf(),
{
    let mut out: Vec<Key> = Vec::new();
    let mut i: usize = 0;
    while i < dict.words.len()
        invariant
            dict.wf(),
            i <= dict.words@.len(),
            out@.len() == i,
            forall|k: int|
                0 <= k < i ==> (#[trigger] out@[k]).shifts@ == key_of_word(dict.words@[k]@)
                    && out@[k].wf(),
        decreases dict.words@.len() - i,
    {
        let w = &dict.words[i];
        let ghost wv = w@;
        let mut shifts: Vec<u8> = Vec::new();
        let mut j: usize = 0;
        proof {
            assert(shifts@ =~= key_of_word(wv.take(0)));
        }
        while j < w.len()
            invariant
                j <= wv.len(),
                wv == w@,
                forall|p: int| 0 <= p < wv.len() ==> is_upper(wv[p]),
                shifts@ == key_of_word(wv.take(j as int)),
                forall|p: int| 0 <= p < shifts@.len() ==> shifts@[p] <= 25,
            decreases wv.len() - j,
        {
            let c = w[j];
            shifts.push(((c as u32) - 65) as u8);
            proof {
                wv.lemma_take_succ_push(j as int);
                wv.take(j as int).lemma_push_map_commute(
                    |c: char| ((c as u32) - 65) as u8,
                    wv[j as int],
                );
            }
            j = j + 1;
        }
        proof {
            wv.lemma_take_len();
            assert(wf_shifts(shifts@));
        }
        out.push(Key { shifts });
        i = i + 1;
    }
    out
}

/// 26 to the `l`-th power: how many shift vectors of length `l` exist.
pub open spec fn pow26(l: nat) -> nat
    decreases l,
{
    if l == 0 {
        1
    } else {
        26 * pow26((l - 1) as nat)
    }
}

/// The `l` base-26 digits of `n`, most significant first.
pub open spec fn digits26(n: int, l: nat) -> Seq<u8>
    decreases l,
{
    if l == 0 {
        Seq::empty()
    } else {
        digits26(n / 26, (l - 1) as nat).push((n % 26) as u8)
    }
}

/// How many keys the combinatorial strategy yields for lengths in
/// `[min, max]`.
pub open spec fn count_keys(min: nat, max: nat) -> nat
    decreases max + 1 - min,
{
    if min > max {
        0
    } else {
        pow26(min) + count_keys(min + 1, max)
    }
}

/// Powers of 26 are positive.
pub proof fn lemma_pow26_pos(l: nat)
    ensures
        pow26(l) >= 1,
    decreases l,
{
    if l > 0 {
        lemma_pow26_pos((l - 1) as nat);
    }
}

/// Powers of 26 grow with the exponent.
pub proof fn lemma_pow26_mono(a: nat, b: nat)
    requires
        a <= b,
    ensures
        pow26(a) <= pow26(b),
    decreases b,
{
    if a < b {
        lemma_pow26_mono(a, (b - 1) as nat);
        lemma_pow26_pos((b - 1) as nat);
    }
}

/// The block of length-`b` keys closes the count for `[a, b]`.
pub proof fn lemma_count_split(a: nat, b: nat)
    requires
        1 <= a <= b,
    ensures
        count_keys(a, b) == count_keys(a, (b - 1) as nat) + pow26(b),
    decreases b + 1 - a,
{
    if a < b {
        lemma_count_split(a + 1, b);
    } else {
        assert(count_keys(a + 1, b) == 0);
        assert(count_keys(a, (b - 1) as nat) == 0);
    }
}

/// Each block's size is bounded by the whole count.
pub proof fn lemma_count_bounds(min: nat, l: nat, max: nat)
    requires
        1 <= min <= l <= max,
    ensures
        count_keys(min, (l - 1) as nat) + pow26(l) <= count_keys(min, max),
    decreases max - l,
{
    if l == max {
        lemma_count_split(min, max);
    } else {
        lemma_count_bounds(min, l, (max - 1) as nat);
        lemma_count_split(min, max);
        lemma_pow26_pos(max);
    }
}

/// Powers of 26 exceed their exponent.
pub proof fn lemma_pow26_ge(l: nat)
    ensures
        pow26(l) >= l + 1,
    decreases l,
{
    if l > 0 {
        lemma_pow26_ge((l - 1) as nat);
    }
}

/// Computes 26^l.
fn pow26_exec(l: usize) -> (r: usize)
    requires
        pow26(l as nat) <= usize::MAX,
    ensures
        r == pow26(l as nat),
{
    let mut r: usize = 1;
    let mut i: usize = 0;
    while i < l
        invariant
            i <= l,
            r == pow26(i as nat),
            pow26(l as nat) <= usize::MAX,
        decreases l - i,
    {
        proof {
            lemma_pow26_mono((i + 1) as nat, l as nat);
        }
        r = r * 26;
        i = i + 1;
    }
    r
}

/// The `l` base-26 digits of `n`, most significant first, as a vector.
fn digits_of(n: usize, l: usize) -> (r: Vec<u8>)
    ensures
        r@ == digits26(n as int, l as nat),
        r@.len() == l,
        forall|p: int| 0 <= p < r@.len() ==> r@[p] <= 25,
    decreases l,
{
    if l == 0 {
        let r: Vec<u8> = Vec::new();
        proof {
            assert(r@ =~= digits26(n as int, 0));
        }
        r
    } else {
        let mut r = digits_of(n / 26, l - 1);
        r.push((n % 26) as u8);
        r
    }
}

/// Combinatorial candidates: every shift vector of every length from
/// `min_len` through `max_len`, in lexicographic order — shorter vectors
/// first, then counting in base 26. The space is combinatorially explosive;
/// the caller bounds it by choosing `max_len`.
pub fn combinatorial_keys(min_len: usize, max_len: usize) -> (r: Vec<Key>)
    requires
        1 <= min_len <= max_len,
        count_keys(min_len as nat, max_len as nat) <= usize::MAX,
    ensures
        r@.len() == count_keys(min_len as nat, max_len as nat),
        forall|i: int| 0 <= i < r@.len() ==> (#[trigger] r@[i]).wf(),
        forall|l: int, j: int|
            min_len <= l <= max_len && 0 <= j < pow26(l as nat) ==> (#[trigger] r@[count_keys(
                min_len as nat,
                (l - 1) as nat,
            ) + j]).shifts@ == digits26(j, l as nat),
{
    let ghost minn = min_len as nat;
    proof {
        lemma_count_bounds(minn, max_len as nat, max_len as nat);
        lemma_pow26_ge(max_len as nat);
        assert(max_len < usize::MAX);
    }
    let mut out: Vec<Key> = Vec::new();
    let mut l: usize = min_len;
    while l <= max_len
        invariant
            1 <= min_len <= max_len < usize::MAX,
            min_len <= l <= max_len + 1,
            count_keys(minn, max_len as nat) <= usize::MAX,
            minn == min_len as nat,
            out@.len() == count_keys(minn, (l - 1) as nat),
            forall|i: int| 0 <= i < out@.len() ==> (#[trigger] out@[i]).wf(),
            forall|l2: int, j: int|
                min_len <= l2 < l && 0 <= j < pow26(l2 as nat) ==> (#[trigger] out@[count_keys(
                    minn,
                    (l2 - 1) as nat,
                ) + j]).shifts@ == digits26(j, l2 as nat),
        decreases max_len + 1 - l,
    {
        proof {
            lemma_count_bounds(minn, l as nat, max_len as nat);
            lemma_pow26_pos(l as nat);
        }
        let p = pow26_exec(l);
        let ghost base = count_keys(minn, (l - 1) as nat);
        let mut j: usize = 0;
        while j < p
            invariant
                1 <= min_len <= l,
                p == pow26(l as nat),
                j <= p,
                minn == min_len as nat,
                base == count_keys(minn, (l - 1) as nat),
                base + p <= usize::MAX,
                out@.len() == base + j,
                forall|i: int| 0 <= i < out@.len() ==> (#[trigger] out@[i]).wf(),
                forall|l2: int, jj: int|
                    min_len <= l2 < l && 0 <= jj < pow26(l2 as nat) ==> (#[trigger] out@[count_keys(
                        minn,
                        (l2 - 1) as nat,
                    ) + jj]).shifts@ == digits26(jj, l2 as nat),
                forall|jj: int|
                    0 <= jj < j ==> (#[trigger] out@[base + jj]).shifts@ == digits26(jj, l as nat),
            decreases p - j,
        {
            let dg = digits_of(j, l);
            proof {
                assert(wf_shifts(dg@));
            }
            let ghost old_out = out@;
            out.push(Key { shifts: dg });
            proof {
                assert forall|i: int| 0 <= i < out@.len() implies (#[trigger] out@[i]).wf() by {
                    if i < old_out.len() {
                        assert(out@[i] == old_out[i]);
                    } else {
                        assert(out@[i] == out@.last());
                    }
                }
                assert forall|l2: int, jj: int|
                    min_len <= l2 < l && 0 <= jj < pow26(l2 as nat) implies (#[trigger] out@[count_keys(
                        minn,
                        (l2 - 1) as nat,
                    ) + jj]).shifts@ == digits26(jj, l2 as nat) by {
                    lemma_count_bounds(minn, l2 as nat, (l - 1) as nat);
                    let idx = count_keys(minn, (l2 - 1) as nat) + jj;
                    assert(0 <= idx < old_out.len());
                    assert(out@[idx] == old_out[idx]);
                    assert(old_out[idx].shifts@ == digits26(jj, l2 as nat));
                }
                assert forall|jj: int| 0 <= jj < j + 1 implies (#[trigger] out@[base + jj]).shifts@
                    == digits26(jj, l as nat) by {
                    if jj < j {
                        assert(out@[base + jj] == old_out[base + jj]);
                    } else {
                        assert(out@[base + jj] == out@.last());
                    }
                }
            }
            j = j + 1;
        }
        proof {
            lemma_count_split(minn, l as nat);
            assert forall|jj: int| 0 <= jj < pow26(l as nat) implies (#[trigger] out@[count_keys(
                minn,
                ((l as int) - 1) as nat,
            ) + jj]).shifts@ == digits26(jj, l as nat) by {
                assert(out@[base + jj].shifts@ == digits26(jj, l as nat));
            }
        }
        l = l + 1;
    }
    out
}


/// Strict lexicographic order on equal-length digit vectors.
pub open spec fn digits_lt(a: Seq<u8>, b: Seq<u8>) -> bool
    decreases a.len(),
{
    if a.len() == 0 || b.len() == 0 {
        false
    } else if a[0] < b[0] {
        true
    } else if a[0] > b[0] {
        false
    } else {
        digits_lt(a.skip(1), b.skip(1))
    }
}

/// The order in which the combinatorial generator emits keys: shorter shift
/// vectors first, equal lengths by digit vector.
pub open spec fn key_lt(a: Seq<u8>, b: Seq<u8>) -> bool {
    a.len() < b.len() || (a.len() == b.len() && digits_lt(a, b))
}

/// A digit vector has as many digits as asked for.
pub proof fn lemma_digits_len(n: int, l: nat)
    ensures
        digits26(n, l).len() == l,
    decreases l,
{
    if l > 0 {
        lemma_digits_len(n / 26, (l - 1) as nat);
    }
}

/// No digit vector is below itself.
proof fn lemma_digits_lt_irrefl(a: Seq<u8>)
    ensures
        !digits_lt(a, a),
    decreases a.len(),
{
    if a.len() > 0 {
        lemma_digits_lt_irrefl(a.skip(1));
    }
}

/// Appending one digit each keeps an already-decided order.
proof fn lemma_digits_lt_push(u: Seq<u8>, v: Seq<u8>, c: u8, d: u8)
    requires
        u.len() == v.len(),
        digits_lt(u, v),
    ensures
        digits_lt(u.push(c), v.push(d)),
    decreases u.len(),
{
    assert(u.push(c)[0] == u[0]);
    assert(v.push(d)[0] == v[0]);
    if u[0] == v[0] {
        assert(u.push(c).skip(1) =~= u.skip(1).push(c));
        assert(v.push(d).skip(1) =~= v.skip(1).push(d));
        lemma_digits_lt_push(u.skip(1), v.skip(1), c, d);
    }
}

/// On a common front, the appended digits decide the order.
proof fn lemma_digits_lt_push_eq(u: Seq<u8>, c: u8, d: u8)
    requires
        c < d,
    ensures
        digits_lt(u.push(c), u.push(d)),
    decreases u.len(),
{
    if u.len() == 0 {
        assert(u.push(c)[0] == c);
        assert(u.push(d)[0] == d);
    } else {
        assert(u.push(c)[0] == u[0]);
        assert(u.push(d)[0] == u[0]);
        assert(u.push(c).skip(1) =~= u.skip(1).push(c));
        assert(u.push(d).skip(1) =~= u.skip(1).push(d));
        lemma_digits_lt_push_eq(u.skip(1), c, d);
    }
}

/// Base-26 counting is lexicographic: a smaller value has the smaller digit
/// vector of the same length.
pub proof fn lemma_digits_ordered(x: int, y: int, l: nat)
    requires
        0 <= x < y < pow26(l),
    ensures
        digits_lt(digits26(x, l), digits26(y, l)),
    decreases l,
{
    vstd::arithmetic::div_mod::lemma_fundamental_div_mod(x, 26);
    vstd::arithmetic::div_mod::lemma_fundamental_div_mod(y, 26);
    vstd::arithmetic::div_mod::lemma_div_is_ordered(x, y, 26);
    let p = pow26((l - 1) as nat);
    assert(y == 26 * (y / 26) + y % 26);
    assert(26 * (y / 26) < 26 * p);
    assert(y / 26 < p);
    if x / 26 < y / 26 {
        lemma_digits_ordered(x / 26, y / 26, (l - 1) as nat);
        lemma_digits_len(x / 26, (l - 1) as nat);
        lemma_digits_len(y / 26, (l - 1) as nat);
        lemma_digits_lt_push(
            digits26(x / 26, (l - 1) as nat),
            digits26(y / 26, (l - 1) as nat),
            (x % 26) as u8,
            (y % 26) as u8,
        );
    } else {
        assert(x % 26 < y % 26);
        lemma_digits_lt_push_eq(digits26(x / 26, (l - 1) as nat), (x % 26) as u8, (y % 26) as u8);
    }
}

/// Every position in the enumeration lies in exactly one length block:
/// the block's length and the offset within it.
proof fn lemma_index_decompose(min: nat, max: nat, i: int) -> (r: (int, int))
    requires
        1 <= min <= max,
        0 <= i < count_keys(min, max),
    ensures
        min <= r.0 <= max,
        0 <= r.1 < pow26(r.0 as nat),
        i == count_keys(min, (r.0 - 1) as nat) + r.1,
    decreases max,
{
    lemma_count_split(min, max);
    if i >= count_keys(min, (max - 1) as nat) {
        (max as int, i - count_keys(min, (max - 1) as nat))
    } else {
        lemma_index_decompose(min, (max - 1) as nat, i)
    }
}

/// Order of the combinatorial enumeration: it is strictly increasing —
/// shorter keys first, one length's block ascending lexicographically by
/// digit vector — so in particular every emitted key is distinct.
pub proof fn lemma_enumeration_ordered(ks: Seq<Seq<u8>>, min: nat, max: nat, i1: int, i2: int)
    requires
        1 <= min <= max,
        ks.len() == count_keys(min, max),
        forall|l: int, j: int|
            min <= l <= max && 0 <= j < pow26(l as nat) ==> #[trigger] ks[count_keys(
                min,
                (l - 1) as nat,
            ) + j] == digits26(j, l as nat),
        0 <= i1 < i2 < ks.len(),
    ensures
        key_lt(ks[i1], ks[i2]),
        ks[i1] != ks[i2],
{
    let (l1, j1) = lemma_index_decompose(min, max, i1);
    let (l2, j2) = lemma_index_decompose(min, max, i2);
    assert(ks[count_keys(min, (l1 - 1) as nat) + j1] == digits26(j1, l1 as nat));
    assert(ks[count_keys(min, (l2 - 1) as nat) + j2] == digits26(j2, l2 as nat));
    assert(ks[i1] == digits26(j1, l1 as nat));
    assert(ks[i2] == digits26(j2, l2 as nat));
    lemma_digits_len(j1, l1 as nat);
    lemma_digits_len(j2, l2 as nat);
    if l1 > l2 {
        lemma_count_bounds(min, l2 as nat, (l1 - 1) as nat);
        assert(false);
    }
    if l1 == l2 {
        if j1 >= j2 {
            assert(false);
        }
        lemma_digits_ordered(j1, j2, l1 as nat);
        lemma_digits_lt_irrefl(ks[i1]);
    }
}

/// The base-26 value of a digit vector, most significant digit first.
pub open spec fn rank26(s: Seq<u8>) -> int
    decreases s.len(),
{
    if s.len() == 0 {
        0
    } else {
        rank26(s.drop_last()) * 26 + s.last()
    }
}

/// A digit vector's rank is within its length's block.
pub proof fn lemma_rank_bound(s: Seq<u8>)
    requires
        forall|p: int| 0 <= p < s.len() ==> s[p] <= 25,
    ensures
        0 <= rank26(s) < pow26(s.len()),
    decreases s.len(),
{
    if s.len() > 0 {
        lemma_rank_bound(s.drop_last());
        let r = rank26(s.drop_last());
        let p = pow26((s.len() - 1) as nat);
        assert(r <= p - 1);
        vstd::arithmetic::mul::lemma_mul_inequality(r, p - 1, 26);
        assert(r * 26 <= (p - 1) * 26) by (nonlinear_arith)
            requires r <= p - 1
        ;
    }
}

/// Every well-formed digit vector is the digit expansion of its rank.
pub proof fn lemma_digits_of_rank(s: Seq<u8>)
    requires
        forall|p: int| 0 <= p < s.len() ==> s[p] <= 25,
    ensures
        digits26(rank26(s), s.len()) == s,
    decreases s.len(),
{
    if s.len() > 0 {
        let front = s.drop_last();
        lemma_digits_of_rank(front);
        let r = rank26(front);
        let n = rank26(s);
        assert(n == r * 26 + s.last());
        lemma_fundamental_div_mod_converse(n, 26, r, s.last() as int);
        assert(n / 26 == r && n % 26 == s.last());
        assert(digits26(n, s.len()) == digits26(r, front.len()).push(s.last()));
        assert(front.push(s.last()) =~= s);
    }
}

/// Completeness of the combinatorial enumeration: every well-formed shift
/// vector with a length in range appears in the generator's output.
pub proof fn lemma_enumeration_complete(ks: Seq<Seq<u8>>, min: nat, max: nat, s: Seq<u8>)
    requires
        1 <= min <= max,
        ks.len() == count_keys(min, max),
        forall|l: int, j: int|
            min <= l <= max && 0 <= j < pow26(l as nat) ==> #[trigger] ks[count_keys(
                min,
                (l - 1) as nat,
            ) + j] == digits26(j, l as nat),
        min <= s.len() <= max,
        forall|p: int| 0 <= p < s.len() ==> s[p] <= 25,
    ensures
        exists|i: int| 0 <= i < ks.len() && ks[i] == s,
{
    lemma_rank_bound(s);
    lemma_digits_of_rank(s);
    let l = s.len() as int;
    let j = rank26(s);
    lemma_count_bounds(min, s.len(), max);
    let i = count_keys(min, (l - 1) as nat) + j;
    assert(ks[i] == digits26(j, s.len()));
    assert(0 <= i < ks.len() && ks[i] == s);
}

} // verus!
