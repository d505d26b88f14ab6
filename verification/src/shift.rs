//! The shift transform: a repeating key of shift amounts is applied to a
//! character sequence, one key digit per letter. Non-letters pass through
//! unchanged and do not advance the key cursor. Decryption subtracts the
//! shift with a true mathematical modulo; encryption adds it.

use vstd::arithmetic::div_mod::{lemma_mod_multiples_vanish, lemma_small_mod};
use vstd::prelude::*;

use crate::letters::{
    char_is_letter, char_offset, count_letters, is_letter, is_upper, letter_char, letter_pred,
    letter_val, offset_char,
};

verus! {

/// A repeating key: a non-empty sequence of shift amounts, each in [0, 25].
pub struct Key {
    pub shifts: Vec<u8>,
}

/// Well-formed shift vectors: non-empty, every digit in [0, 25].
pub open spec fn wf_shifts(key: Seq<u8>) -> bool {
    &&& key.len() >= 1
    &&& forall|i: int| 0 <= i < key.len() ==> key[i] <= 25
}

impl Key {
    pub open spec fn wf(&self) -> bool {
        wf_shifts(self.shifts@)
    }

    /// Builds a key, rejecting degenerate shift vectors: an empty vector or
    /// one with a digit outside [0, 25] yields no key.
    pub fn new(shifts: Vec<u8>) -> (r: Option<Key>)
        ensures
            match r {
                Some(k) => k.shifts@ == shifts@ && k.wf(),
                None => !wf_shifts(shifts@),
            },
    {
        if shifts.len() == 0 {
            return None;
        }
        let mut i: usize = 0;
        while i < shifts.len()
            invariant
                i <= shifts@.len(),
                forall|j: int| 0 <= j < i ==> shifts@[j] <= 25,
            decreases shifts@.len() - i,
        {
            if shifts[i] > 25 {
                return None;
            }
            i = i + 1;
        }
        Some(Key { shifts })
    }

    /// The key's period.
    pub fn period(&self) -> (r: usize)
        ensures
            r == self.shifts@.len(),
    {
        self.shifts.len()
    }

    /// The key rendered as its uppercase-letter token (0 -> 'A', 25 -> 'Z').
    pub fn token(&self) -> (r: Vec<char>)
        requires
            self.wf(),
        ensures
            r@.len() == self.shifts@.len(),
            forall|i: int| 0 <= i < r@.len() ==> r@[i] == letter_char(self.shifts@[i] as int),
    {
        let mut out: Vec<char> = Vec::new();
        let mut i: usize = 0;
        while i < self.shifts.len()
            invariant
                self.wf(),
                i <= self.shifts@.len(),
                out@.len() == i,
                forall|j: int| 0 <= j < i ==> out@[j] == letter_char(self.shifts@[j] as int),
            decreases self.shifts@.len() - i,
        {
            out.push(offset_char(self.shifts[i]));
            i = i + 1;
        }
        out
    }
}

impl Clone for Key {
    fn clone(&self) -> (r: Self)
        ensures
            r.shifts@ == self.shifts@,
    {
        let mut shifts: Vec<u8> = Vec::new();
        let mut i: usize = 0;
        while i < self.shifts.len()
            invariant
                i <= self.shifts@.len(),
                shifts@ == self.shifts@.take(i as int),
            decreases self.shifts@.len() - i,
        {
            shifts.push(self.shifts[i]);
            proof {
                self.shifts@.lemma_take_succ_push(i as int);
            }
            i = i + 1;
        }
        proof {
            self.shifts@.lemma_take_len();
        }
        Key { shifts }
    }
}

/// One character decrypted under shift amount `s`: letters move `s` places
/// back around the uppercase alphabet, everything else is unchanged.
pub open spec fn decrypt_char(c: char, s: int) -> char {
    if is_letter(c) {
        letter_char((letter_val(c) - s) % 26)
    } else {
        c
    }
}

/// One character encrypted under shift amount `s`.
pub open spec fn encrypt_char(c: char, s: int) -> char {
    if is_letter(c) {
        letter_char((letter_val(c) + s) % 26)
    } else {
        c
    }
}

/// The shift amount the cursor selects at position `i`: the key digit
/// indexed by how many letters precede position `i`, modulo the period.
pub open spec fn shift_at(text: Seq<char>, key: Seq<u8>, i: int) -> int {
    key[count_letters(text.take(i)) as int % key.len() as int] as int
}

/// The whole text decrypted under `key`, character by character.
pub open spec fn spec_decrypt(text: Seq<char>, key: Seq<u8>) -> Seq<char> {
    Seq::new(text.len(), |i: int| decrypt_char(text[i], shift_at(text, key, i)))
}

/// The whole text encrypted under `key`, character by character.
pub open spec fn spec_encrypt(text: Seq<char>, key: Seq<u8>) -> Seq<char> {
    Seq::new(text.len(), |i: int| encrypt_char(text[i], shift_at(text, key, i)))
}

/// `s.take(k)`, but total in `k`: the whole of `s` when `k` exceeds it.
pub open spec fn take_upto<A>(s: Seq<A>, k: int) -> Seq<A> {
    if k < 0 {
        Seq::empty()
    } else if k <= s.len() {
        s.take(k)
    } else {
        s
    }
}

/// A prefix holds no letters at all when empty.
pub proof fn lemma_count_letters_zero(s: Seq<char>)
    ensures
        count_letters(s.take(0)) == 0,
{
    assert(s.take(0) =~= Seq::<char>::empty());
    Seq::<char>::empty().lemma_filter_len(letter_pred());
}

/// Extending a prefix by one character raises the letter count by one
/// exactly when that character is a letter.
pub proof fn lemma_count_letters_step(s: Seq<char>, i: int)
    requires
        0 <= i < s.len(),
    ensures
        count_letters(s.take(i + 1)) == count_letters(s.take(i)) + if is_letter(s[i]) {
            1int
        } else {
            0int
        },
{
    s.lemma_take_succ_push(i);
    s.take(i).lemma_filter_push(s[i], letter_pred());
}

/// The lazy decrypting stream: one cursor per evaluation, owned by it. The
/// cursor position always equals the number of letters consumed so far,
/// modulo the key's period; a non-letter never advances it.
pub struct ShiftStream {
    pub pos: usize,
    pub cursor: usize,
}

impl ShiftStream {
    /// The stream is in step with `text` and `key`.
    pub open spec fn wf(&self, text: Seq<char>, key: Seq<u8>) -> bool {
        &&& wf_shifts(key)
        &&& self.pos <= text.len()
        &&& self.cursor < key.len()
        &&& self.cursor as int == count_letters(text.take(self.pos as int)) as int % key.len() as int
    }

    /// A fresh stream, positioned at the start of any text.
    pub fn new(text: &Vec<char>, key: &Key) -> (r: Self)
        requires
            key.wf(),
        ensures
            r.wf(text@, key.shifts@),
            r.pos == 0,
            r.cursor == 0,
    {
        proof {
            lemma_count_letters_zero(text@);
        }
        ShiftStream { pos: 0, cursor: 0 }
    }

    /// Decrypts and yields the next character, or yields `None` at the end.
    /// The cursor advances exactly when the consumed character is a letter.
    pub fn next(&mut self, text: &Vec<char>, key: &Key) -> (r: Option<char>)
        requires
            old(self).wf(text@, key.shifts@),
        ensures
            final(self).wf(text@, key.shifts@),
            old(self).pos < text@.len() ==> {
                &&& r == Some(spec_decrypt(text@, key.shifts@)[old(self).pos as int])
                &&& final(self).pos == old(self).pos + 1
                &&& (is_letter(text@[old(self).pos as int]) ==> final(self).cursor as int == (
                old(self).cursor + 1) as int % key.shifts@.len() as int)
                &&& (!is_letter(text@[old(self).pos as int]) ==> final(self).cursor == old(
                self,
                ).cursor)
            },
            old(self).pos >= text@.len() ==> r is None && *final(self) == *old(self),
    {
        if self.pos >= text.len() {
            return None;
        }
        let c = text[self.pos];
        let ghost i = self.pos as int;
        let ghost ks = key.shifts@;
        let ghost cnt = count_letters(text@.take(i)) as int;
        proof {
            lemma_count_letters_step(text@, i);
        }
        if char_is_letter(c) {
            let klen = key.shifts.len();
            let s = key.shifts[self.cursor];
            let off = char_offset(c);
            let v = ((off as u16 + 26 - s as u16) % 26) as u8;
            let out = offset_char(v);
            proof {
                lemma_mod_multiples_vanish(1, off as int - s as int, 26);
                assert(v as int == (letter_val(c) - s as int) % 26);
                assert(out == decrypt_char(c, shift_at(text@, ks, i)));
            }
            if self.cursor + 1 == klen {
                self.cursor = 0;
            } else {
                self.cursor = self.cursor + 1;
            }
            self.pos = self.pos + 1;
            proof {
                let n = ks.len() as int;
                vstd::arithmetic::div_mod::lemma_add_mod_noop(cnt, 1, n);
                lemma_small_mod((old(self).cursor + 1) as nat % ks.len(), ks.len());
                if old(self).cursor + 1 == n {
                    vstd::arithmetic::div_mod::lemma_mod_self_0(n);
                    assert((old(self).cursor + 1) as int % n == 0);
                } else {
                    lemma_small_mod((old(self).cursor + 1) as nat, ks.len());
                }
                assert(1int % n == if n == 1 { 0int } else { 1int }) by {
                    if n == 1 {
                        assert(1int % 1 == 0);
                    } else {
                        lemma_small_mod(1, ks.len());
                    }
                }
                assert(self.cursor as int == count_letters(text@.take(i + 1)) as int % n);
            }
            Some(out)
        } else {
            self.pos = self.pos + 1;
            Some(c)
        }
    }
}

/// The first `n` characters of the decryption of `text` under `key`,
/// produced lazily: characters past `n` are never transformed.
pub fn decrypt_prefix(text: &Vec<char>, key: &Key, n: usize) -> (r: Vec<char>)
    requires
        key.wf(),
    ensures
        r@ == take_upto(spec_decrypt(text@, key.shifts@), n as int),
{
    let ghost d = spec_decrypt(text@, key.shifts@);
    let mut st = ShiftStream::new(text, key);
    let mut out: Vec<char> = Vec::new();
    while st.pos < text.len() && out.len() < n
        invariant
            st.wf(text@, key.shifts@),
            out@.len() == st.pos,
            out@.len() <= n,
            d == spec_decrypt(text@, key.shifts@),
            out@ == d.take(st.pos as int),
        decreases text@.len() - st.pos,
    {
        let ghost p = st.pos as int;
        let c = st.next(text, key);
        match c {
            Some(ch) => {
                out.push(ch);
                proof {
                    d.lemma_take_succ_push(p);
                }
            },
            None => {},
        }
    }
    proof {
        if st.pos as int == text@.len() as int && out@.len() < n {
            d.lemma_take_len();
        }
    }
    out
}

/// The full decryption of `text` under `key`.
pub fn decrypt(text: &Vec<char>, key: &Key) -> (r: Vec<char>)
    requires
        key.wf(),
    ensures
        r@ == spec_decrypt(text@, key.shifts@),
{
    let r = decrypt_prefix(text, key, text.len());
    proof {
        spec_decrypt(text@, key.shifts@).lemma_take_len();
    }
    r
}

/// The full encryption of `text` under `key`: the same cursor discipline as
/// decryption, with the shifts added instead of subtracted.
pub fn encrypt(text: &Vec<char>, key: &Key) -> (r: Vec<char>)
    requires
        key.wf(),
    ensures
        r@ == spec_encrypt(text@, key.shifts@),
{
    let ghost e = spec_encrypt(text@, key.shifts@);
    let ghost ks = key.shifts@;
    let mut out: Vec<char> = Vec::new();
    let mut cursor: usize = 0;
    let mut i: usize = 0;
    proof {
        lemma_count_letters_zero(text@);
    }
    while i < text.len()
        invariant
            key.wf(),
            i <= text@.len(),
            cursor < ks.len(),
            cursor as int == count_letters(text@.take(i as int)) as int % ks.len() as int,
            out@.len() == i,
            out@ == e.take(i as int),
            e == spec_encrypt(text@, ks),
            ks == key.shifts@,
        decreases text@.len() - i,
    {
        let c = text[i];
        let klen = key.shifts.len();
        let ghost cnt = count_letters(text@.take(i as int)) as int;
        proof {
            lemma_count_letters_step(text@, i as int);
        }
        if char_is_letter(c) {
            let s = key.shifts[cursor];
            let off = char_offset(c);
            let v = ((off as u16 + s as u16) % 26) as u8;
            let out_c = offset_char(v);
            proof {
                assert(v as int == (letter_val(c) + s as int) % 26);
                assert(out_c == encrypt_char(c, shift_at(text@, ks, i as int)));
            }
            out.push(out_c);
            let ghost n = ks.len() as int;
            if cursor + 1 == klen {
                cursor = 0;
            } else {
                cursor = cursor + 1;
            }
            proof {
                vstd::arithmetic::div_mod::lemma_add_mod_noop(cnt, 1, n);
                if cnt % n + 1 == n {
                    vstd::arithmetic::div_mod::lemma_mod_self_0(n);
                    assert((cnt % n + 1) as int % n == 0);
                } else {
                    lemma_small_mod((cnt % n + 1) as nat, ks.len());
                }
                assert(1int % n == if n == 1 { 0int } else { 1int }) by {
                    if n == 1 {
                        assert(1int % 1 == 0);
                    } else {
                        lemma_small_mod(1, ks.len());
                    }
                }
            }
        } else {
            out.push(c);
        }
        proof {
            e.lemma_take_succ_push(i as int);
        }
        i = i + 1;
    }
    proof {
        e.lemma_take_len();
    }
    out
}

/// Decrypting a single letter and encrypting the result with the same shift
/// gives the letter back, for uppercase letters and shifts in range.
pub proof fn lemma_char_round_trip(c: char, s: int)
    requires
        is_upper(c),
        0 <= s < 26,
    ensures
        encrypt_char(decrypt_char(c, s), s) == c,
{
    let a = letter_val(c);
    let d = decrypt_char(c, s);
    assert(0 <= (a - s) % 26 < 26);
    let x = (a - s) % 26;
    assert(d == letter_char(x));
    assert(is_upper(d));
    assert(letter_val(d) == x);
    if a - s >= 0 {
        lemma_small_mod((a - s) as nat, 26);
        assert(x == a - s);
        lemma_small_mod(a as nat, 26);
        assert((x + s) % 26 == a);
    } else {
        lemma_mod_multiples_vanish(1, a - s, 26);
        lemma_small_mod((a - s + 26) as nat, 26);
        assert(x == a - s + 26);
        lemma_mod_multiples_vanish(1, a, 26);
        lemma_small_mod(a as nat, 26);
        assert((x + s) % 26 == a);
    }
    assert(encrypt_char(d, s) == letter_char(a));
    assert(letter_char(a) == c);
}

/// Two texts with letters at exactly the same positions have the same
/// letter count over every prefix.
pub proof fn lemma_counts_equal_upto(a: Seq<char>, b: Seq<char>, j: int)
    requires
        a.len() == b.len(),
        forall|i: int| 0 <= i < a.len() ==> is_letter(a[i]) == is_letter(b[i]),
        0 <= j <= a.len(),
    ensures
        count_letters(a.take(j)) == count_letters(b.take(j)),
    decreases j,
{
    if j == 0 {
        lemma_count_letters_zero(a);
        lemma_count_letters_zero(b);
    } else {
        lemma_counts_equal_upto(a, b, j - 1);
        lemma_count_letters_step(a, j - 1);
        lemma_count_letters_step(b, j - 1);
    }
}

/// The round-trip law: for a text whose letters are uppercase, decrypting
/// under a key and then encrypting the result under the same key reproduces
/// the text exactly; non-letters are preserved unchanged at their positions.
pub proof fn lemma_round_trip(text: Seq<char>, key: Seq<u8>)
    requires
        wf_shifts(key),
        forall|i: int| 0 <= i < text.len() && is_letter(text[i]) ==> is_upper(text[i]),
    ensures
        spec_encrypt(spec_decrypt(text, key), key) == text,
        spec_decrypt(text, key).len() == text.len(),
        forall|i: int| 0 <= i < text.len() && !is_letter(text[i]) ==> spec_decrypt(text, key)[i]
            == text[i],
{
    let d = spec_decrypt(text, key);
    assert forall|i: int| 0 <= i < text.len() implies is_letter(d[i]) == is_letter(text[i]) by {
        if is_letter(text[i]) {
            assert(0 <= (letter_val(text[i]) - shift_at(text, key, i)) % 26 < 26);
            assert(is_upper(d[i]));
        }
    }
    assert forall|i: int| 0 <= i <= text.len() implies count_letters(d.take(i)) == count_letters(
        text.take(i),
    ) by {
        lemma_counts_equal_upto(d, text, i);
    }
    assert forall|i: int| 0 <= i < text.len() implies spec_encrypt(d, key)[i] == text[i] by {
        assert(shift_at(d, key, i) == shift_at(text, key, i));
        if is_letter(text[i]) {
            lemma_char_round_trip(text[i], shift_at(text, key, i));
        }
    }
    assert(spec_encrypt(d, key) =~= text);
}

} // verus!
