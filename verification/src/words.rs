//! The tokenizer: a character sequence is split into words, each a maximal
//! run of letters; every non-letter acts as a separator and is dropped. The
//! last word is flushed even when no separator follows it. Apostrophes are
//! not word characters here, so a contracted word splits in two; that is the
//! documented behaviour, not a defect.

use vstd::prelude::*;

use crate::letters::{char_is_letter, is_letter, letter_pred, strip_non_letters};

verus! {

/// The views of a sequence of character vectors.
pub open spec fn views_of(s: Seq<Vec<char>>) -> Seq<Seq<char>> {
    s.map_values(|v: Vec<char>| v@)
}

/// The maximal runs of characters satisfying `keep`, scanned left to right,
/// with `cur` the run already collected when the scan begins.
pub open spec fn runs_acc(s: Seq<char>, cur: Seq<char>, keep: spec_fn(char) -> bool) -> Seq<
    Seq<char>,
>
    decreases s.len(),
{
    if s.len() == 0 {
        if cur.len() > 0 {
            seq![cur]
        } else {
            Seq::empty()
        }
    } else if keep(s[0]) {
        runs_acc(s.skip(1), cur.push(s[0]), keep)
    } else if cur.len() > 0 {
        seq![cur] + runs_acc(s.skip(1), Seq::empty(), keep)
    } else {
        runs_acc(s.skip(1), Seq::empty(), keep)
    }
}

/// The words of a character sequence: its maximal runs of letters, in order.
pub open spec fn spec_words(s: Seq<char>) -> Seq<Seq<char>> {
    runs_acc(s, Seq::empty(), letter_pred())
}

/// Scanning yields runs whose concatenation is the kept characters, each run
/// non-empty and made only of kept characters.
pub proof fn lemma_runs_acc(s: Seq<char>, cur: Seq<char>, keep: spec_fn(char) -> bool)
    requires
        forall|i: int| 0 <= i < cur.len() ==> keep(cur[i]),
    ensures
        runs_acc(s, cur, keep).flatten() == cur + s.filter(keep),
        forall|i: int|
            0 <= i < runs_acc(s, cur, keep).len() ==> (cur.len() > 0 || i > 0 || runs_acc(
                s,
                cur,
                keep,
            )[i].len() > 0) && runs_acc(s, cur, keep)[i].len() > 0,
        forall|i: int, j: int|
            0 <= i < runs_acc(s, cur, keep).len() && 0 <= j < runs_acc(s, cur, keep)[i].len()
                ==> keep(runs_acc(s, cur, keep)[i][j]),
    decreases s.len(),
{
    let r = runs_acc(s, cur, keep);
    if s.len() == 0 {
        s.lemma_filter_len(keep);
        if cur.len() > 0 {
            seq![cur].lemma_flatten_one_element();
            assert(r.flatten() =~= cur + s.filter(keep));
        } else {
            assert(r.flatten() =~= cur + s.filter(keep));
        }
    } else {
        let tail = s.skip(1);
        assert(s =~= seq![s[0]] + tail);
        tail.lemma_filter_prepend(s[0], keep);
        if keep(s[0]) {
            lemma_runs_acc(tail, cur.push(s[0]), keep);
            assert(cur.push(s[0]) + tail.filter(keep) =~= cur + s.filter(keep));
        } else if cur.len() > 0 {
            lemma_runs_acc(tail, Seq::empty(), keep);
            let rest = runs_acc(tail, Seq::empty(), keep);
            assert(r == seq![cur] + rest);
            assert(r.first() == cur);
            assert(r.drop_first() =~= rest);
            assert(r.flatten() == cur + rest.flatten());
            assert(Seq::<char>::empty() + tail.filter(keep) =~= tail.filter(keep));
            assert(r.flatten() =~= cur + s.filter(keep));
        } else {
            lemma_runs_acc(tail, Seq::empty(), keep);
            assert(cur + s.filter(keep) =~= s.filter(keep));
        }
    }
}

/// The tokenizer law: concatenating the yielded words gives exactly the
/// letters of the input in order — so re-joining the words with any
/// non-letter separators and stripping non-letters reproduces the stripped
/// input — and no yielded word is empty.
pub proof fn lemma_words_law(s: Seq<char>)
    ensures
        spec_words(s).flatten() == strip_non_letters(s),
        forall|i: int| 0 <= i < spec_words(s).len() ==> spec_words(s)[i].len() > 0,
        forall|i: int, j: int|
            0 <= i < spec_words(s).len() && 0 <= j < spec_words(s)[i].len() ==> is_letter(
                spec_words(s)[i][j],
            ),
{
    lemma_runs_acc(s, Seq::empty(), letter_pred());
    assert(Seq::<char>::empty() + s.filter(letter_pred()) =~= s.filter(letter_pred()));
    assert forall|i: int, j: int|
        0 <= i < spec_words(s).len() && 0 <= j < spec_words(s)[i].len() implies is_letter(
        spec_words(s)[i][j],
    ) by {
        assert(letter_pred()(spec_words(s)[i][j]));
    }
}

/// Splits `text` into its words: the maximal runs of letters, in order,
/// with all non-letters dropped.
pub fn tokenize(text: &Vec<char>) -> (r: Vec<Vec<char>>)
    ensures
        views_of(r@) == spec_words(text@),
{
    let mut out: Vec<Vec<char>> = Vec::new();
    let mut buf: Vec<char> = Vec::new();
    let mut i: usize = 0;
    proof {
        assert(text@.skip(0) =~= text@);
        assert(views_of(out@) =~= Seq::<Seq<char>>::empty());
        assert(views_of(out@) + runs_acc(text@, buf@, letter_pred()) =~= spec_words(text@));
    }
    while i < text.len()
        invariant
            i <= text@.len(),
            spec_words(text@) == views_of(out@) + runs_acc(
                text@.skip(i as int),
                buf@,
                letter_pred(),
            ),
        decreases text@.len() - i,
    {
        let ghost rest = text@.skip(i as int);
        proof {
            assert(rest[0] == text@[i as int]);
            assert(rest.skip(1) =~= text@.skip(i as int + 1));
        }
        let c = text[i];
        if char_is_letter(c) {
            buf.push(c);
        } else {
            if buf.len() > 0 {
                let ghost w = buf@;
                let ghost old_out = out@;
                out.push(buf);
                buf = Vec::new();
                proof {
                    let keep = letter_pred();
                    old_out.lemma_push_map_commute(|v: Vec<char>| v@, out@.last());
                    assert(views_of(out@) =~= views_of(old_out).push(w));
                    assert(buf@ =~= Seq::<char>::empty());
                    assert(views_of(old_out) + (seq![w] + runs_acc(rest.skip(1), buf@, keep))
                        =~= views_of(out@) + runs_acc(rest.skip(1), buf@, keep));
                }
            } else {
                proof {
                    assert(buf@ =~= Seq::<char>::empty());
                }
            }
        }
        i = i + 1;
    }
    proof {
        assert(text@.skip(text@.len() as int) =~= Seq::<char>::empty());
    }
    if buf.len() > 0 {
        let ghost w = buf@;
        let ghost old_out = out@;
        out.push(buf);
        proof {
            old_out.lemma_push_map_commute(|v: Vec<char>| v@, out@.last());
            assert(views_of(out@) =~= views_of(old_out).push(w));
            assert(views_of(old_out) + seq![w] =~= views_of(out@));
        }
    } else {
        proof {
            assert(views_of(out@) + Seq::<Seq<char>>::empty() =~= views_of(out@));
        }
    }
    out
}

/// A stream of characters that can be morphed into its stream of words.
pub trait Words {
    /// The characters the value stands for.
    spec fn chars(&self) -> Seq<char>;

    /// The words of those characters: each a maximal run of letters, in
    /// input order, with every non-letter separator dropped.
    fn words(&self) -> (r: Vec<Vec<char>>)
        ensures
            views_of(r@) == spec_words(self.chars()),
    ;
}

impl Words for Vec<char> {
    open spec fn chars(&self) -> Seq<char> {
        self@
    }

    fn words(&self) -> (r: Vec<Vec<char>>) {
        tokenize(self)
    }
}

} // verus!
