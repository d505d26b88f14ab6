//! The match scorer: only the first `max_words` words of a candidate's
//! decryption are ever produced, words below a minimum length are left out,
//! the rest are tested against the dictionary, and a swappable acceptance
//! policy (all considered words, or a count threshold) decides the verdict.

use vstd::prelude::*;

use crate::dict::{upper_word, DictIndex};
use crate::letters::{char_is_letter, letter_pred};
use crate::shift::{spec_decrypt, take_upto, Key, ShiftStream};
use crate::words::{runs_acc, spec_words, views_of};

verus! {

/// The acceptance policy: every considered word must match, or at least a
/// threshold count must.
#[derive(Clone, Copy, Debug)]
pub enum AcceptPolicy {
    All,
    AtLeast(usize),
}

/// Whether a policy accepts the given counts of considered and matched
/// words. A pure function of the two counts.
pub open spec fn policy_accepts(p: AcceptPolicy, considered: nat, matched: nat) -> bool {
    match p {
        AcceptPolicy::All => matched == considered,
        AcceptPolicy::AtLeast(m) => matched >= m,
    }
}

/// Raising a threshold never accepts more: a candidate accepted at the
/// higher threshold is accepted at every lower one, all else fixed.
pub proof fn lemma_threshold_monotone(m1: usize, m2: usize, considered: nat, matched: nat)
    requires
        m1 <= m2,
        policy_accepts(AcceptPolicy::AtLeast(m2), considered, matched),
    ensures
        policy_accepts(AcceptPolicy::AtLeast(m1), considered, matched),
{
}

/// The scorer's configuration: how many words to look at, the shortest word
/// worth testing, and the acceptance policy.
#[derive(Clone, Copy, Debug)]
pub struct ScoreConfig {
    pub max_words: usize,
    pub min_word_len: usize,
    pub policy: AcceptPolicy,
}

/// The scorer's verdict with its confidence counts.
#[derive(Clone, Copy, Debug)]
pub struct ScoreOutcome {
    pub considered: usize,
    pub matched: usize,
    pub accepted: bool,
}

/// Words long enough to be worth testing.
pub open spec fn min_len_pred(min_len: nat) -> spec_fn(Seq<char>) -> bool {
    |w: Seq<char>| w.len() >= min_len
}

/// Words the dictionary holds (queries are case-folded as `contains` does).
pub open spec fn in_dict_pred(dict: DictIndex) -> spec_fn(Seq<char>) -> bool {
    |w: Seq<char>| dict.spec_contains(upper_word(w))
}

/// The words the scorer considers for a candidate: the first `max_words`
/// words of the decryption, those of at least the minimum length.
pub open spec fn spec_considered(text: Seq<char>, key: Seq<u8>, cfg: ScoreConfig) -> Seq<
    Seq<char>,
> {
    take_upto(spec_words(spec_decrypt(text, key)), cfg.max_words as int).filter(
        min_len_pred(cfg.min_word_len as nat),
    )
}

/// The considered words the dictionary holds.
pub open spec fn spec_matched(
    text: Seq<char>,
    key: Seq<u8>,
    dict: DictIndex,
    cfg: ScoreConfig,
) -> Seq<Seq<char>> {
    spec_considered(text, key, cfg).filter(in_dict_pred(dict))
}

/// Whether the candidate is accepted.
pub open spec fn spec_accepts(
    text: Seq<char>,
    key: Seq<u8>,
    dict: DictIndex,
    cfg: ScoreConfig,
) -> bool {
    policy_accepts(
        cfg.policy,
        spec_considered(text, key, cfg).len(),
        spec_matched(text, key, dict, cfg).len(),
    )
}

/// The first `k` words of the decryption of `text` under `key`, produced
/// lazily: decryption and tokenization stop as soon as `k` words are
/// complete, so the cost is bounded by `k`, not by the text length.
pub fn decrypted_words_prefix(text: &Vec<char>, key: &Key, k: usize) -> (r: Vec<Vec<char>>)
    requires
        key.wf(),
    ensures
        views_of(r@) == take_upto(spec_words(spec_decrypt(text@, key.shifts@)), k as int),
{
    let ghost dseq = spec_decrypt(text@, key.shifts@);
    let ghost keep = letter_pred();
    let mut st = ShiftStream::new(text, key);
    let mut out: Vec<Vec<char>> = Vec::new();
    let mut buf: Vec<char> = Vec::new();
    proof {
        assert(dseq.skip(0) =~= dseq);
        assert(views_of(out@) =~= Seq::<Seq<char>>::empty());
        assert(views_of(out@) + runs_acc(dseq, buf@, keep) =~= spec_words(dseq));
    }
    while st.pos < text.len() && out.len() < k
        invariant
            key.wf(),
            st.wf(text@, key.shifts@),
            dseq == spec_decrypt(text@, key.shifts@),
            keep == letter_pred(),
            out@.len() <= k,
            spec_words(dseq) == views_of(out@) + runs_acc(dseq.skip(st.pos as int), buf@, keep),
        decreases text@.len() - st.pos,
    {
        let ghost p = st.pos as int;
        let ghost rest = dseq.skip(p);
        proof {
            assert(rest[0] == dseq[p]);
            assert(rest.skip(1) =~= dseq.skip(p + 1));
        }
        let copt = st.next(text, key);
        match copt {
            Some(c) => {
                if char_is_letter(c) {
                    buf.push(c);
                } else {
                    if buf.len() > 0 {
                        let ghost w = buf@;
                        let ghost old_out = out@;
                        out.push(buf);
                        buf = Vec::new();
                        proof {
                            old_out.lemma_push_map_commute(|v: Vec<char>| v@, out@.last());
                            assert(views_of(out@) =~= views_of(old_out).push(w));
                            assert(buf@ =~= Seq::<char>::empty());
                            assert(views_of(old_out) + (seq![w] + runs_acc(rest.skip(1), buf@, keep))
                                =~= views_of(out@) + runs_acc(rest.skip(1), buf@, keep));
                        }
                    } else {
                        proof {
                            assert(buf@ =~= Seq::<char>::empty());
                        }
                    }
                }
            },
            None => {
                proof {
                    assert(false);
                }
            },
        }
    }
    let ghost ws = spec_words(dseq);
    if out.len() < k {
        proof {
            assert(dseq.skip(dseq.len() as int) =~= Seq::<char>::empty());
        }
        if buf.len() > 0 {
            let ghost w = buf@;
            let ghost old_out = out@;
            out.push(buf);
            proof {
                old_out.lemma_push_map_commute(|v: Vec<char>| v@, out@.last());
                assert(views_of(out@) =~= views_of(old_out).push(w));
                assert(views_of(old_out) + seq![w] =~= views_of(out@));
            }
        } else {
            proof {
                assert(views_of(out@) + Seq::<Seq<char>>::empty() =~= views_of(out@));
            }
        }
        proof {
            assert(views_of(out@) == ws);
            assert(take_upto(ws, k as int) == ws);
        }
    } else {
        proof {
            let tail = runs_acc(dseq.skip(st.pos as int), buf@, keep);
            assert((views_of(out@) + tail).take(k as int) =~= views_of(out@));
            assert(take_upto(ws, k as int) == views_of(out@));
        }
    }
    out
}

/// Scores one candidate: decrypts lazily, takes the first `max_words`
/// words, leaves out those under the minimum length, counts how many of the
/// rest the dictionary holds, and applies the acceptance policy.
pub fn score_key(text: &Vec<char>, key: &Key, dict: &DictIndex, cfg: &ScoreConfig) -> (r:
    ScoreOutcome)
    requires
        key.wf(),
        dict.wf(),
    ensures
        r.considered == spec_considered(text@, key.shifts@, *cfg).len(),
        r.matched == spec_matched(text@, key.shifts@, *dict, *cfg).len(),
        r.accepted == spec_accepts(text@, key.shifts@, *dict, *cfg),
        r.accepted == policy_accepts(cfg.policy, r.considered as nat, r.matched as nat),
{
    let ws = decrypted_words_prefix(text, key, cfg.max_words);
    let ghost wsv = views_of(ws@);
    let ghost pmin = min_len_pred(cfg.min_word_len as nat);
    let ghost pdict = in_dict_pred(*dict);
    let mut considered: usize = 0;
    let mut matched: usize = 0;
    let mut i: usize = 0;
    proof {
        assert(wsv.take(0) =~= Seq::<Seq<char>>::empty());
        Seq::<Seq<char>>::empty().lemma_filter_len(pmin);
        Seq::<Seq<char>>::empty().lemma_filter_len(pdict);
        assert(wsv.take(0).filter(pmin) =~= Seq::<Seq<char>>::empty());
    }
    while i < ws.len()
        invariant
            dict.wf(),
            i <= ws@.len(),
            wsv == views_of(ws@),
            pmin == min_len_pred(cfg.min_word_len as nat),
            pdict == in_dict_pred(*dict),
            considered as int == wsv.take(i as int).filter(pmin).len(),
            matched as int == wsv.take(i as int).filter(pmin).filter(pdict).len(),
            matched <= considered <= i,
        decreases ws@.len() - i,
    {
        let ghost pre = wsv.take(i as int);
        proof {
            wsv.lemma_take_succ_push(i as int);
            assert(wsv[i as int] == ws@[i as int]@);
            pre.lemma_filter_push(wsv[i as int], pmin);
            if pmin(wsv[i as int]) {
                pre.filter(pmin).lemma_filter_push(wsv[i as int], pdict);
            }
            wsv.take(i as int + 1).lemma_filter_len(pmin);
            wsv.take(i as int + 1).filter(pmin).lemma_filter_len(pdict);
        }
        let w = &ws[i];
        if w.len() >= cfg.min_word_len {
            considered = considered + 1;
            if dict.contains(w) {
                matched = matched + 1;
            }
            proof {
                assert(pre.filter(pmin).filter(pdict).len() <= pre.filter(pmin).len());
            }
        }
        i = i + 1;
    }
    proof {
        wsv.lemma_take_len();
    }
    let accepted = match cfg.policy {
        AcceptPolicy::All => matched == considered,
        AcceptPolicy::AtLeast(m) => matched >= m,
    };
    ScoreOutcome { considered, matched, accepted }
}

} // verus!
