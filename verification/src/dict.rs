//! The dictionary index: the whitespace-delimited tokens of raw dictionary
//! text, with every token holding a non-letter dropped and the rest
//! uppercased, kept sorted ascending by codepoint and deduplicated, so that
//! membership is a binary search. An empty index is a valid state: every
//! lookup simply fails.

use vstd::prelude::*;

use crate::letters::{char_is_letter, char_to_upper, is_letter, is_upper, to_upper};
use crate::words::{lemma_runs_acc, runs_acc};

verus! {

/// `c` is ASCII whitespace: space or one of the ASCII control separators
/// (tab, line feed, vertical tab, form feed, carriage return).
pub open spec fn is_space(c: char) -> bool {
    (c as u32) == 32 || (9 <= (c as u32) && (c as u32) <= 13)
}

/// Characters that belong to a raw token: everything but whitespace.
pub open spec fn token_pred() -> spec_fn(char) -> bool {
    |c: char| !is_space(c)
}

/// Decides `is_space`.
pub fn char_is_space(c: char) -> (r: bool)
    ensures
        r == is_space(c),
{
    let u = c as u32;
    u == 32 || (9 <= u && u <= 13)
}

/// The whitespace-delimited tokens of a raw text, in order.
pub open spec fn raw_tokens(s: Seq<char>) -> Seq<Seq<char>> {
    runs_acc(s, Seq::empty(), token_pred())
}

/// Every character of `w` is a letter.
pub open spec fn all_letters(w: Seq<char>) -> bool {
    forall|i: int| 0 <= i < w.len() ==> is_letter(w[i])
}

/// Every character of `w` is an uppercase letter.
pub open spec fn all_upper(w: Seq<char>) -> bool {
    forall|i: int| 0 <= i < w.len() ==> is_upper(w[i])
}

/// `w` folded to uppercase, character by character.
pub open spec fn upper_word(w: Seq<char>) -> Seq<char> {
    w.map_values(|c: char| to_upper(c))
}

/// `w` is a normalized token of the source text `s`: some whitespace-built
/// token of `s` is alphabetic-only and uppercases to `w`.
pub open spec fn norm_token_of(s: Seq<char>, w: Seq<char>) -> bool {
    exists|j: int|
        0 <= j < raw_tokens(s).len() && all_letters(#[trigger] raw_tokens(s)[j]) && w
            == upper_word(raw_tokens(s)[j])
}

/// Strict lexicographic order on character sequences, by codepoint, with a
/// proper prefix ordered before its extensions.
pub open spec fn lex_lt(a: Seq<char>, b: Seq<char>) -> bool
    decreases a.len(),
{
    if b.len() == 0 {
        false
    } else if a.len() == 0 {
        true
    } else if a[0] == b[0] {
        lex_lt(a.skip(1), b.skip(1))
    } else {
        (a[0] as u32) < (b[0] as u32)
    }
}

/// No sequence is lexicographically below itself.
pub proof fn lemma_lex_irrefl(a: Seq<char>)
    ensures
        !lex_lt(a, a),
    decreases a.len(),
{
    if a.len() > 0 {
        lemma_lex_irrefl(a.skip(1));
    }
}

/// Of two sequences, either one is lexicographically below the other, or
/// they are equal.
pub proof fn lemma_lex_total(a: Seq<char>, b: Seq<char>)
    ensures
        lex_lt(a, b) || lex_lt(b, a) || a == b,
    decreases a.len(),
{
    if a.len() == 0 && b.len() == 0 {
        assert(a =~= b);
    } else if a.len() == 0 {
        assert(lex_lt(a, b));
    } else if b.len() == 0 {
        assert(lex_lt(b, a));
    } else if a[0] == b[0] {
        lemma_lex_total(a.skip(1), b.skip(1));
        lemma_lex_step(a, b);
    } else {
        if (a[0] as u32) == (b[0] as u32) {
            crate::letters::lemma_char_code_inj(a[0], b[0]);
        }
        assert(lex_lt(a, b) || lex_lt(b, a));
    }
}

/// Lexicographic order is transitive.
pub proof fn lemma_lex_trans(a: Seq<char>, b: Seq<char>, c: Seq<char>)
    requires
        lex_lt(a, b),
        lex_lt(b, c),
    ensures
        lex_lt(a, c),
    decreases a.len() + b.len() + c.len(),
{
    if a.len() == 0 {
    } else {
        if a[0] == b[0] && b[0] == c[0] {
            lemma_lex_trans(a.skip(1), b.skip(1), c.skip(1));
        }
    }
}

/// Two sequences with equal heads compare, and equal, exactly as their
/// tails do.
pub proof fn lemma_lex_step(x: Seq<char>, y: Seq<char>)
    requires
        x.len() > 0,
        y.len() > 0,
        x[0] == y[0],
    ensures
        lex_lt(x, y) == lex_lt(x.skip(1), y.skip(1)),
        lex_lt(y, x) == lex_lt(y.skip(1), x.skip(1)),
        (x == y) <==> (x.skip(1) == y.skip(1) && x.len() == y.len()),
{
    if x.skip(1) == y.skip(1) && x.len() == y.len() {
        assert forall|i: int| 0 <= i < x.len() implies x[i] == y[i] by {
            if i >= 1 {
                assert(x.skip(1)[i - 1] == x[i]);
                assert(y.skip(1)[i - 1] == y[i]);
            }
        }
        assert(x =~= y);
    }
    if x == y {
        assert(x.skip(1) =~= y.skip(1));
    }
}

/// Compares two character vectors lexicographically: -1 for below, 0 for
/// equal, 1 for above.
pub fn lex_cmp(a: &Vec<char>, b: &Vec<char>) -> (r: i8)
    ensures
        r == -1 <==> lex_lt(a@, b@),
        r == 0 <==> a@ == b@,
        r == 1 <==> lex_lt(b@, a@),
        r == -1 || r == 0 || r == 1,
{
    let mut i: usize = 0;
    proof {
        assert(a@.skip(0) =~= a@);
        assert(b@.skip(0) =~= b@);
    }
    while i < a.len() && i < b.len()
        invariant
            i <= a@.len(),
            i <= b@.len(),
            lex_lt(a@, b@) == lex_lt(a@.skip(i as int), b@.skip(i as int)),
            lex_lt(b@, a@) == lex_lt(b@.skip(i as int), a@.skip(i as int)),
            (a@ == b@) <==> (a@.skip(i as int) == b@.skip(i as int) && a@.len() == b@.len()),
        decreases a@.len() - i,
    {
        let ghost ra = a@.skip(i as int);
        let ghost rb = b@.skip(i as int);
        proof {
            assert(ra[0] == a@[i as int]);
            assert(rb[0] == b@[i as int]);
        }
        let ca = a[i];
        let cb = b[i];
        if (ca as u32) < (cb as u32) {
            proof {
                assert(ca != cb);
                assert(lex_lt(ra, rb));
                assert(a@ != b@);
            }
            return -1;
        }
        if (cb as u32) < (ca as u32) {
            proof {
                assert(ca != cb);
                assert(lex_lt(rb, ra));
                assert(a@ != b@);
            }
            return 1;
        }
        proof {
            assert(ca as u32 == cb as u32);
            crate::letters::lemma_char_code_inj(ca, cb);
            assert(ca == cb);
            lemma_lex_step(ra, rb);
            assert(ra.skip(1) =~= a@.skip(i as int + 1));
            assert(rb.skip(1) =~= b@.skip(i as int + 1));
        }
        i = i + 1;
    }
    proof {
        assert(a@.skip(a@.len() as int) =~= Seq::<char>::empty());
        assert(b@.skip(b@.len() as int) =~= Seq::<char>::empty());
    }
    if a.len() < b.len() {
        proof {
            lemma_lex_irrefl(a@);
            lemma_lex_total(a@, b@);
        }
        -1
    } else if b.len() < a.len() {
        proof {
            lemma_lex_irrefl(b@);
            lemma_lex_total(a@, b@);
        }
        1
    } else {
        proof {
            assert(a@.skip(a@.len() as int) == b@.skip(b@.len() as int));
            lemma_lex_irrefl(a@);
            lemma_lex_irrefl(b@);
        }
        0
    }
}

/// `w` folded to uppercase, character by character.
pub fn to_upper_vec(w: &Vec<char>) -> (r: Vec<char>)
    ensures
        r@ == upper_word(w@),
{
    let mut out: Vec<char> = Vec::new();
    let mut i: usize = 0;
    proof {
        assert(out@ =~= upper_word(w@.take(0)));
    }
    while i < w.len()
        invariant
            i <= w@.len(),
            out@ == upper_word(w@.take(i as int)),
        decreases w@.len() - i,
    {
        out.push(char_to_upper(w[i]));
        proof {
            w@.lemma_take_succ_push(i as int);
            w@.take(i as int).lemma_push_map_commute(|c: char| to_upper(c), w@[i as int]);
        }
        i = i + 1;
    }
    proof {
        w@.lemma_take_len();
    }
    out
}

/// Decides `all_letters`.
pub fn word_is_alphabetic(w: &Vec<char>) -> (r: bool)
    ensures
        r == all_letters(w@),
{
    let mut i: usize = 0;
    while i < w.len()
        invariant
            i <= w@.len(),
            forall|j: int| 0 <= j < i ==> is_letter(w@[j]),
        decreases w@.len() - i,
    {
        if !char_is_letter(w[i]) {
            return false;
        }
        i = i + 1;
    }
    true
}

/// Splits raw text into its whitespace-delimited tokens, in order.
pub fn split_tokens(text: &Vec<char>) -> (r: Vec<Vec<char>>)
    ensures
        crate::words::views_of(r@) == raw_tokens(text@),
{
    let mut out: Vec<Vec<char>> = Vec::new();
    let mut buf: Vec<char> = Vec::new();
    let mut i: usize = 0;
    proof {
        assert(text@.skip(0) =~= text@);
        assert(crate::words::views_of(out@) =~= Seq::<Seq<char>>::empty());
        assert(crate::words::views_of(out@) + runs_acc(text@, buf@, token_pred()) =~= raw_tokens(
            text@,
        ));
    }
    while i < text.len()
        invariant
            i <= text@.len(),
            raw_tokens(text@) == crate::words::views_of(out@) + runs_acc(
                text@.skip(i as int),
                buf@,
                token_pred(),
            ),
        decreases text@.len() - i,
    {
        let ghost rest = text@.skip(i as int);
        proof {
            assert(rest[0] == text@[i as int]);
            assert(rest.skip(1) =~= text@.skip(i as int + 1));
        }
        let c = text[i];
        if !char_is_space(c) {
            buf.push(c);
        } else {
            if buf.len() > 0 {
                let ghost w = buf@;
                let ghost old_out = out@;
                out.push(buf);
                buf = Vec::new();
                proof {
                    let keep = token_pred();
                    old_out.lemma_push_map_commute(|v: Vec<char>| v@, out@.last());
                    assert(crate::words::views_of(out@) =~= crate::words::views_of(old_out).push(
                        w,
                    ));
                    assert(buf@ =~= Seq::<char>::empty());
                    assert(crate::words::views_of(old_out) + (seq![w] + runs_acc(
                        rest.skip(1),
                        buf@,
                        keep,
                    )) =~= crate::words::views_of(out@) + runs_acc(rest.skip(1), buf@, keep));
                }
            } else {
                proof {
                    assert(buf@ =~= Seq::<char>::empty());
                }
            }
        }
        i = i + 1;
    }
    proof {
        assert(text@.skip(text@.len() as int) =~= Seq::<char>::empty());
    }
    if buf.len() > 0 {
        let ghost w = buf@;
        let ghost old_out = out@;
        out.push(buf);
        proof {
            old_out.lemma_push_map_commute(|v: Vec<char>| v@, out@.last());
            assert(crate::words::views_of(out@) =~= crate::words::views_of(old_out).push(w));
            assert(crate::words::views_of(old_out) + seq![w] =~= crate::words::views_of(out@));
        }
    } else {
        proof {
            assert(crate::words::views_of(out@) + Seq::<Seq<char>>::empty()
                =~= crate::words::views_of(out@));
        }
    }
    out
}

/// The dictionary index: an immutable, sorted, deduplicated set of
/// uppercase alphabetic words, shared read-only by all workers.
pub struct DictIndex {
    pub words: Vec<Vec<char>>,
}

/// The entries are strictly ascending by codepoint (hence deduplicated).
pub open spec fn sorted_strict(ws: Seq<Vec<char>>) -> bool {
    forall|i: int, j: int| 0 <= i < j < ws.len() ==> lex_lt(#[trigger] ws[i]@, #[trigger] ws[j]@)
}

impl DictIndex {
    /// Entries strictly sorted, each non-empty and uppercase alphabetic.
    pub open spec fn wf(&self) -> bool {
        &&& sorted_strict(self.words@)
        &&& forall|i: int|
            0 <= i < self.words@.len() ==> all_upper(#[trigger] self.words@[i]@)
                && self.words@[i]@.len() > 0
    }

    /// `w` is one of the entries.
    pub open spec fn spec_contains(&self, w: Seq<char>) -> bool {
        has_entry(self.words@, w)
    }

    /// How many distinct words the index holds.
    pub fn len(&self) -> (r: usize)
        ensures
            r == self.words@.len(),
    {
        self.words.len()
    }

    /// Builds the index from raw dictionary text: the whitespace-delimited
    /// tokens, with every token holding a non-letter dropped and the rest
    /// uppercased, sorted and deduplicated. An empty result is not an error.
    #[verifier::rlimit(100)]
    pub fn build(text: &Vec<char>) -> (d: DictIndex)
        ensures
            d.wf(),
            forall|w: Seq<char>| #[trigger] d.spec_contains(w) <==> norm_token_of(text@, w),
    {
        let toks = split_tokens(text);
        let ghost tv = crate::words::views_of(toks@);
        proof {
            lemma_runs_acc(text@, Seq::empty(), token_pred());
        }
        let mut words: Vec<Vec<char>> = Vec::new();
        let mut t: usize = 0;
        while t < toks.len()
            invariant
                t <= toks@.len(),
                tv == crate::words::views_of(toks@),
                tv == raw_tokens(text@),
                forall|j: int| 0 <= j < tv.len() ==> (#[trigger] tv[j]).len() > 0,
                sorted_strict(words@),
                entries_wf(words@),
                covers(words@, tv, t as int),
                complete(words@, tv, t as int),
            decreases toks@.len() - t,
        {
            let ghost tj = tv[t as int];
            proof {
                assert(toks@[t as int]@ == tv[t as int]);
            }
            if word_is_alphabetic(&toks[t]) {
                let u = to_upper_vec(&toks[t]);
                proof {
                    lemma_upper_word_shape(tj);
                }
                let slot = find_slot(&words, &u);
                if !slot.0 {
                    let ghost old_words = words@;
                    let ghost pos = slot.1 as int;
                    words.insert(slot.1, u);
                    proof {
                        old_words.insert_ensures(pos, words@[pos]);
                        lemma_insert_keeps_sorted(old_words, words@, pos, tj);
                        lemma_entries_insert(old_words, words@, pos);
                        lemma_covers_insert(old_words, words@, tv, t as int, pos);
                        lemma_complete_insert(old_words, words@, tv, t as int, pos);
                    }
                } else {
                    proof {
                        lemma_covers_extend(words@, tv, t as int);
                        lemma_complete_found(words@, tv, t as int, slot.1 as int);
                    }
                }
            } else {
                proof {
                    lemma_covers_extend(words@, tv, t as int);
                    lemma_complete_skip(words@, tv, t as int);
                }
            }
            t = t + 1;
        }
        let d = DictIndex { words };
        proof {
            lemma_build_done(d, tv, text@);
        }
        d
    }

    /// Whether the uppercased query word is in the index: a binary search,
    /// O(log n) comparisons and no allocation beyond the folded query.
    pub fn contains(&self, w: &Vec<char>) -> (r: bool)
        requires
            self.wf(),
        ensures
            r == self.spec_contains(upper_word(w@)),
    {
        let u = to_upper_vec(w);
        let slot = find_slot(&self.words, &u);
        proof {
            let ws = self.words@;
            if !slot.0 {
                if has_entry(ws, u@) {
                    let i = choose|i: int| #![trigger ws[i]] 0 <= i < ws.len() && ws[i]@ == u@;
                    lemma_lex_irrefl(u@);
                    if i < slot.1 {
                        assert(lex_lt(ws[i]@, u@));
                    } else {
                        assert(lex_lt(u@, ws[i]@));
                    }
                    assert(false);
                }
            } else {
                assert(0 <= slot.1 < ws.len() && ws[slot.1 as int]@ == u@);
                assert(has_entry(ws, u@));
            }
        }
        slot.0
    }
}

/// An uppercased alphabetic word is non-empty and uppercase throughout.
proof fn lemma_upper_word_shape(w: Seq<char>)
    requires
        all_letters(w),
    ensures
        all_upper(upper_word(w)),
        upper_word(w).len() == w.len(),
{
    assert forall|i: int| 0 <= i < upper_word(w).len() implies is_upper(upper_word(w)[i]) by {
        assert(upper_word(w)[i] == to_upper(w[i]));
    }
}

/// Inserting at the slot the binary search reported keeps the entries
/// strictly sorted and uppercase.
proof fn lemma_insert_keeps_sorted(
    old_words: Seq<Vec<char>>,
    new_words: Seq<Vec<char>>,
    pos: int,
    tok: Seq<char>,
)
    requires
        sorted_strict(old_words),
        0 <= pos <= old_words.len(),
        new_words == old_words.insert(pos, new_words[pos]),
        new_words.len() == old_words.len() + 1,
        forall|i: int| 0 <= i < pos ==> lex_lt(#[trigger] old_words[i]@, new_words[pos]@),
        forall|i: int|
            pos <= i < old_words.len() ==> lex_lt(new_words[pos]@, #[trigger] old_words[i]@),
    ensures
        sorted_strict(new_words),
{
    old_words.insert_ensures(pos, new_words[pos]);
    assert forall|i: int, j: int|
        0 <= i < j < new_words.len() implies lex_lt(#[trigger] new_words[i]@, #[trigger] new_words[j]@) by {
        if i < pos && j < pos {
        } else if i < pos && j == pos {
        } else if i < pos && j > pos {
            assert(new_words[j] == old_words[j - 1]);
        } else if i == pos {
            assert(new_words[j] == old_words[j - 1]);
        } else {
            assert(new_words[i] == old_words[i - 1]);
            assert(new_words[j] == old_words[j - 1]);
        }
    }
}

/// `w` is the view of one of the entries.
pub open spec fn has_entry(words: Seq<Vec<char>>, w: Seq<char>) -> bool {
    exists|i: int| #![trigger words[i]] 0 <= i < words.len() && words[i]@ == w
}

/// Entries are non-empty uppercase words.
pub open spec fn entries_wf(words: Seq<Vec<char>>) -> bool {
    forall|i: int|
        0 <= i < words.len() ==> all_upper(#[trigger] words[i]@) && words[i]@.len() > 0
}

/// `wv` is the normalization of one of the first `t` tokens.
pub open spec fn covered_by(wv: Seq<char>, tv: Seq<Seq<char>>, t: int) -> bool {
    exists|j: int|
        #![trigger tv[j]]
        0 <= j < t && all_letters(tv[j]) && wv == upper_word(tv[j])
}

/// Every entry is the normalization of some alphabetic token seen so far.
pub open spec fn covers(words: Seq<Vec<char>>, tv: Seq<Seq<char>>, t: int) -> bool {
    forall|i: int| 0 <= i < words.len() ==> covered_by(#[trigger] words[i]@, tv, t)
}

/// Every alphabetic token seen so far has its normalization among the entries.
pub open spec fn complete(words: Seq<Vec<char>>, tv: Seq<Seq<char>>, t: int) -> bool {
    forall|j: int|
        #![trigger tv[j]]
        0 <= j < t && all_letters(tv[j]) ==> has_entry(words, upper_word(tv[j]))
}

/// A normalization drawn from the first `t` tokens is drawn from the first
/// `t + 1` as well.
proof fn lemma_covered_by_extend(wv: Seq<char>, tv: Seq<Seq<char>>, t: int)
    requires
        covered_by(wv, tv, t),
    ensures
        covered_by(wv, tv, t + 1),
{
    let j = choose|j: int|
        #![trigger tv[j]]
        0 <= j < t && all_letters(tv[j]) && wv == upper_word(tv[j]);
    assert(0 <= j < t + 1 && all_letters(tv[j]) && wv == upper_word(tv[j]));
}

/// A word among the old entries is among them after an insertion too.
proof fn lemma_has_entry_after_insert(
    old_words: Seq<Vec<char>>,
    new_words: Seq<Vec<char>>,
    pos: int,
    w: Seq<char>,
)
    requires
        0 <= pos <= old_words.len(),
        new_words.len() == old_words.len() + 1,
        new_words == old_words.insert(pos, new_words[pos]),
        has_entry(old_words, w),
    ensures
        has_entry(new_words, w),
{
    old_words.insert_ensures(pos, new_words[pos]);
    let i = choose|i: int| #![trigger old_words[i]] 0 <= i < old_words.len() && old_words[i]@ == w;
    if i < pos {
        assert(new_words[i] == old_words[i]);
        assert(0 <= i < new_words.len() && new_words[i]@ == w);
    } else {
        assert(new_words[i + 1] == old_words[i]);
        assert(0 <= i + 1 < new_words.len() && new_words[i + 1]@ == w);
    }
}

/// What covers the first `t` tokens covers the first `t + 1`.
proof fn lemma_covers_extend(words: Seq<Vec<char>>, tv: Seq<Seq<char>>, t: int)
    requires
        covers(words, tv, t),
    ensures
        covers(words, tv, t + 1),
{
    assert forall|i: int| 0 <= i < words.len() implies covered_by(
        #[trigger] words[i]@,
        tv,
        t + 1,
    ) by {
        assert(covered_by(words[i]@, tv, t));
        lemma_covered_by_extend(words[i]@, tv, t);
    }
}

/// A non-alphabetic token needs no entry.
proof fn lemma_complete_skip(words: Seq<Vec<char>>, tv: Seq<Seq<char>>, t: int)
    requires
        0 <= t < tv.len(),
        !all_letters(tv[t]),
        complete(words, tv, t),
    ensures
        complete(words, tv, t + 1),
{
    assert forall|j: int| #![trigger tv[j]] 0 <= j < t + 1 && all_letters(tv[j]) implies has_entry(
        words,
        upper_word(tv[j]),
    ) by {
        assert(j != t);
    }
}

/// A token whose normalization stands at `pos` is already accounted for.
proof fn lemma_complete_found(words: Seq<Vec<char>>, tv: Seq<Seq<char>>, t: int, pos: int)
    requires
        0 <= t < tv.len(),
        0 <= pos < words.len(),
        words[pos]@ == upper_word(tv[t]),
        complete(words, tv, t),
    ensures
        complete(words, tv, t + 1),
{
    assert forall|j: int| #![trigger tv[j]] 0 <= j < t + 1 && all_letters(tv[j]) implies has_entry(
        words,
        upper_word(tv[j]),
    ) by {
        if j == t {
            assert(0 <= pos < words.len() && words[pos]@ == upper_word(tv[j]));
        }
    }
}

/// After the insertion every entry still normalizes some seen token.
proof fn lemma_covers_insert(
    old_words: Seq<Vec<char>>,
    new_words: Seq<Vec<char>>,
    tv: Seq<Seq<char>>,
    t: int,
    pos: int,
)
    requires
        0 <= t < tv.len(),
        all_letters(tv[t]),
        0 <= pos <= old_words.len(),
        new_words.len() == old_words.len() + 1,
        new_words == old_words.insert(pos, new_words[pos]),
        new_words[pos]@ == upper_word(tv[t]),
        covers(old_words, tv, t),
    ensures
        covers(new_words, tv, t + 1),
{
    old_words.insert_ensures(pos, new_words[pos]);
    assert forall|i: int| 0 <= i < new_words.len() implies covered_by(
        #[trigger] new_words[i]@,
        tv,
        t + 1,
    ) by {
        if i < pos {
            assert(new_words[i] == old_words[i]);
            assert(covered_by(old_words[i]@, tv, t));
            lemma_covered_by_extend(old_words[i]@, tv, t);
        } else if i == pos {
            assert(0 <= t < t + 1 && all_letters(tv[t]) && new_words[i]@ == upper_word(tv[t]));
        } else {
            assert(new_words[i] == old_words[i - 1]);
            assert(covered_by(old_words[i - 1]@, tv, t));
            lemma_covered_by_extend(old_words[i - 1]@, tv, t);
        }
    }
}

/// After the insertion every seen alphabetic token still has its entry.
proof fn lemma_complete_insert(
    old_words: Seq<Vec<char>>,
    new_words: Seq<Vec<char>>,
    tv: Seq<Seq<char>>,
    t: int,
    pos: int,
)
    requires
        0 <= t < tv.len(),
        all_letters(tv[t]),
        0 <= pos <= old_words.len(),
        new_words.len() == old_words.len() + 1,
        new_words == old_words.insert(pos, new_words[pos]),
        new_words[pos]@ == upper_word(tv[t]),
        complete(old_words, tv, t),
    ensures
        complete(new_words, tv, t + 1),
{
    old_words.insert_ensures(pos, new_words[pos]);
    assert forall|j: int| #![trigger tv[j]] 0 <= j < t + 1 && all_letters(tv[j]) implies has_entry(
        new_words,
        upper_word(tv[j]),
    ) by {
        if j < t {
            assert(has_entry(old_words, upper_word(tv[j])));
            lemma_has_entry_after_insert(old_words, new_words, pos, upper_word(tv[j]));
        } else {
            assert(0 <= pos < new_words.len() && new_words[pos]@ == upper_word(tv[j]));
        }
    }
}

/// The inserted word keeps the entries non-empty and uppercase.
proof fn lemma_entries_insert(old_words: Seq<Vec<char>>, new_words: Seq<Vec<char>>, pos: int)
    requires
        0 <= pos <= old_words.len(),
        new_words.len() == old_words.len() + 1,
        new_words == old_words.insert(pos, new_words[pos]),
        all_upper(new_words[pos]@),
        new_words[pos]@.len() > 0,
        entries_wf(old_words),
    ensures
        entries_wf(new_words),
{
    old_words.insert_ensures(pos, new_words[pos]);
    assert forall|i: int| 0 <= i < new_words.len() implies all_upper(#[trigger] new_words[i]@)
        && new_words[i]@.len() > 0 by {
        if i < pos {
            assert(new_words[i] == old_words[i]);
        } else if i > pos {
            assert(new_words[i] == old_words[i - 1]);
        }
    }
}

/// A word covered by all the tokens is a normalized token of the source.
proof fn lemma_covered_to_norm(wv: Seq<char>, tv: Seq<Seq<char>>, text: Seq<char>)
    requires
        tv == raw_tokens(text),
        covered_by(wv, tv, tv.len() as int),
    ensures
        norm_token_of(text, wv),
{
    let j = choose|j: int|
        #![trigger tv[j]]
        0 <= j < tv.len() && all_letters(tv[j]) && wv == upper_word(tv[j]);
    assert(0 <= j < raw_tokens(text).len() && all_letters(raw_tokens(text)[j]) && wv
        == upper_word(raw_tokens(text)[j]));
}

/// A normalized token of the source has its entry once the pass is complete.
proof fn lemma_norm_to_entry(
    words: Seq<Vec<char>>,
    tv: Seq<Seq<char>>,
    text: Seq<char>,
    w: Seq<char>,
)
    requires
        tv == raw_tokens(text),
        complete(words, tv, tv.len() as int),
        norm_token_of(text, w),
    ensures
        has_entry(words, w),
{
    let j = choose|j: int|
        0 <= j < raw_tokens(text).len() && all_letters(#[trigger] raw_tokens(text)[j]) && w
            == upper_word(raw_tokens(text)[j]);
    assert(0 <= j < tv.len() && all_letters(tv[j]));
    assert(has_entry(words, upper_word(tv[j])));
}

/// When every token has been processed, the entries are exactly the
/// normalized alphabetic tokens of the source.
proof fn lemma_build_done(d: DictIndex, tv: Seq<Seq<char>>, text: Seq<char>)
    requires
        tv == raw_tokens(text),
        covers(d.words@, tv, tv.len() as int),
        complete(d.words@, tv, tv.len() as int),
    ensures
        forall|w: Seq<char>| #[trigger] d.spec_contains(w) <==> norm_token_of(text, w),
{
    let words = d.words@;
    assert forall|w: Seq<char>| #[trigger] d.spec_contains(w) <==> norm_token_of(text, w) by {
        if d.spec_contains(w) {
            let i = choose|i: int| #![trigger words[i]] 0 <= i < words.len() && words[i]@ == w;
            assert(covered_by(words[i]@, tv, tv.len() as int));
            lemma_covered_to_norm(words[i]@, tv, text);
        }
        if norm_token_of(text, w) {
            lemma_norm_to_entry(words, tv, text, w);
        }
    }
}

/// Binary search for `w` in a strictly sorted vector of words: whether it
/// is present, and the index where it is or where it would be inserted.
fn find_slot(words: &Vec<Vec<char>>, w: &Vec<char>) -> (r: (bool, usize))
    requires
        sorted_strict(words@),
    ensures
        r.1 <= words@.len(),
        r.0 ==> r.1 < words@.len() && words@[r.1 as int]@ == w@,
        !r.0 ==> forall|i: int| 0 <= i < r.1 ==> lex_lt(#[trigger] words@[i]@, w@),
        !r.0 ==> forall|i: int| r.1 <= i < words@.len() ==> lex_lt(w@, #[trigger] words@[i]@),
{
    let mut lo: usize = 0;
    let mut hi: usize = words.len();
    while lo < hi
        invariant
            lo <= hi <= words@.len(),
            sorted_strict(words@),
            forall|i: int| 0 <= i < lo ==> lex_lt(#[trigger] words@[i]@, w@),
            forall|i: int| hi <= i < words@.len() ==> lex_lt(w@, #[trigger] words@[i]@),
        decreases hi - lo,
    {
        let mid = lo + (hi - lo) / 2;
        let c = lex_cmp(&words[mid], w);
        if c == 0 {
            return (true, mid);
        } else if c == -1 {
            proof {
                assert forall|i: int| 0 <= i < mid + 1 implies lex_lt(
                    #[trigger] words@[i]@,
                    w@,
                ) by {
                    if i < mid {
                        lemma_lex_trans(words@[i]@, words@[mid as int]@, w@);
                    }
                }
            }
            lo = mid + 1;
        } else {
            proof {
                assert forall|i: int| mid <= i < words@.len() implies lex_lt(
                    w@,
                    #[trigger] words@[i]@,
                ) by {
                    if i > mid {
                        lemma_lex_trans(w@, words@[mid as int]@, words@[i]@);
                    }
                }
            }
            hi = mid;
        }
    }
    (false, lo)
}

} // verus!
