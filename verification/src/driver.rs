//! The search driver: each candidate key is evaluated independently — a
//! short scoring pass, and on acceptance a longer excerpt decryption for
//! reporting. All candidates are always evaluated; nothing short-circuits on
//! the first match. The parallel front end fans candidates out across
//! rayon's worker pool over the shared read-only dictionary and yields the
//! same matches as the sequential search, in candidate order.

use rayon::iter::{IndexedParallelIterator, IntoParallelRefIterator, ParallelIterator};
use vstd::prelude::*;

use crate::dict::DictIndex;
use crate::scorer::{score_key, spec_accepts, spec_matched, ScoreConfig};
use crate::shift::{decrypt_prefix, spec_decrypt, take_upto, Key};

verus! {

/// The search configuration: the scorer's settings and how long a decrypted
/// excerpt each match carries for reporting.
#[derive(Clone, Copy, Debug)]
pub struct SearchConfig {
    pub score: ScoreConfig,
    pub excerpt_len: usize,
}

/// One accepted candidate: the key, a decrypted excerpt of the configured
/// length, and the scorer's confidence count.
pub struct MatchResult {
    pub key: Key,
    pub excerpt: Vec<char>,
    pub confidence: usize,
}

/// The mathematical content of a match: shift values, excerpt characters,
/// confidence count.
pub struct MatchView {
    pub key: Seq<u8>,
    pub excerpt: Seq<char>,
    pub confidence: nat,
}

impl View for MatchResult {
    type V = MatchView;

    open spec fn view(&self) -> MatchView {
        MatchView { key: self.key.shifts@, excerpt: self.excerpt@, confidence: self.confidence as nat }
    }
}

/// What evaluating one candidate yields: a match exactly when the scorer
/// accepts, carrying the decrypted excerpt and the matched-word count.
pub open spec fn eval_spec(
    text: Seq<char>,
    key: Seq<u8>,
    dict: DictIndex,
    cfg: SearchConfig,
) -> Option<MatchView> {
    if spec_accepts(text, key, dict, cfg.score) {
        Some(
            MatchView {
                key: key,
                excerpt: take_upto(spec_decrypt(text, key), cfg.excerpt_len as int),
                confidence: spec_matched(text, key, dict, cfg.score).len(),
            },
        )
    } else {
        None
    }
}

/// The view of an optional match.
pub open spec fn opt_view(o: Option<MatchResult>) -> Option<MatchView> {
    match o {
        Some(m) => Some(m@),
        None => None,
    }
}

/// The shift vectors of a candidate list.
pub open spec fn key_views(keys: Seq<Key>) -> Seq<Seq<u8>> {
    keys.map_values(|k: Key| k.shifts@)
}

/// The views of a result list.
pub open spec fn result_views(rs: Seq<MatchResult>) -> Seq<MatchView> {
    rs.map_values(|m: MatchResult| m@)
}

/// The matches of the candidates, in candidate order.
pub open spec fn search_spec(
    text: Seq<char>,
    keys: Seq<Seq<u8>>,
    dict: DictIndex,
    cfg: SearchConfig,
) -> Seq<MatchView>
    decreases keys.len(),
{
    if keys.len() == 0 {
        Seq::empty()
    } else {
        let prev = search_spec(text, keys.drop_last(), dict, cfg);
        match eval_spec(text, keys.last(), dict, cfg) {
            Some(v) => prev.push(v),
            None => prev,
        }
    }
}

/// One more candidate extends the matches by its own evaluation.
proof fn lemma_search_step(
    text: Seq<char>,
    kv: Seq<Seq<u8>>,
    dict: DictIndex,
    cfg: SearchConfig,
    i: int,
)
    requires
        0 <= i < kv.len(),
    ensures
        search_spec(text, kv.take(i + 1), dict, cfg) == (match eval_spec(text, kv[i], dict, cfg) {
            Some(v) => search_spec(text, kv.take(i), dict, cfg).push(v),
            None => search_spec(text, kv.take(i), dict, cfg),
        }),
{
    assert(kv.take(i + 1).drop_last() =~= kv.take(i));
    assert(kv.take(i + 1).last() == kv[i]);
}

/// Evaluates one candidate independently, with a cursor of its own: a short
/// scoring pass over the first words, and on acceptance a decryption of the
/// configured excerpt. A non-match is a normal outcome, not a failure.
pub fn evaluate_candidate(text: &Vec<char>, key: &Key, dict: &DictIndex, cfg: &SearchConfig) -> (r:
    Option<MatchResult>)
    requires
        key.wf(),
        dict.wf(),
    ensures
        opt_view(r) == eval_spec(text@, key.shifts@, *dict, *cfg),
{
    let sc = score_key(text, key, dict, &cfg.score);
    if sc.accepted {
        let excerpt = decrypt_prefix(text, key, cfg.excerpt_len);
        Some(MatchResult { key: key.clone(), excerpt, confidence: sc.matched })
    } else {
        None
    }
}

/// Evaluates every candidate in order, each to completion — the search
/// never stops at the first match — and yields the matches in candidate
/// order.
pub fn search(text: &Vec<char>, keys: &Vec<Key>, dict: &DictIndex, cfg: &SearchConfig) -> (r: Vec<
    MatchResult,
>)
    requires
        dict.wf(),
        forall|i: int| 0 <= i < keys@.len() ==> (#[trigger] keys@[i]).wf(),
    ensures
        result_views(r@) == search_spec(text@, key_views(keys@), *dict, *cfg),
{
    let ghost kv = key_views(keys@);
    let mut out: Vec<MatchResult> = Vec::new();
    let mut i: usize = 0;
    proof {
        assert(kv.take(0) =~= Seq::<Seq<u8>>::empty());
        assert(result_views(out@) =~= search_spec(text@, kv.take(0), *dict, *cfg));
    }
    while i < keys.len()
        invariant
            dict.wf(),
            forall|k: int| 0 <= k < keys@.len() ==> (#[trigger] keys@[k]).wf(),
            i <= keys@.len(),
            kv == key_views(keys@),
            result_views(out@) == search_spec(text@, kv.take(i as int), *dict, *cfg),
        decreases keys@.len() - i,
    {
        proof {
            assert(kv[i as int] == keys@[i as int].shifts@);
            lemma_search_step(text@, kv, *dict, *cfg, i as int);
        }
        let m = evaluate_candidate(text, &keys[i], dict, cfg);
        match m {
            Some(mr) => {
                let ghost old_out = out@;
                out.push(mr);
                proof {
                    old_out.lemma_push_map_commute(|m: MatchResult| m@, out@.last());
                    assert(result_views(out@) =~= result_views(old_out).push(out@.last()@));
                }
            },
            None => {},
        }
        i = i + 1;
    }
    proof {
        kv.lemma_take_len();
    }
    out
}

/// Relies on rayon: `par_iter().map(f).collect_into_vec(&out)` evaluates
/// `f` over a worker pool and writes each result at its input's index, so
/// the collected vector equals the sequential map, in input order.
#[verifier::external_body]
fn par_evaluate(text: &Vec<char>, keys: &Vec<Key>, dict: &DictIndex, cfg: &SearchConfig) -> (r:
    Vec<Option<MatchResult>>)
    requires
        dict.wf(),
        forall|i: int| 0 <= i < keys@.len() ==> (#[trigger] keys@[i]).wf(),
    ensures
        r@.len() == keys@.len(),
        forall|i: int|
            0 <= i < r@.len() ==> opt_view(#[trigger] r@[i]) == eval_spec(
                text@,
                keys@[i].shifts@,
                *dict,
                *cfg,
            ),
{
    let mut results: Vec<Option<MatchResult>> = Vec::new();
    keys.par_iter().map(|k| evaluate_candidate(text, k, dict, cfg)).collect_into_vec(&mut results);
    results
}

/// Clones a character vector.
fn clone_chars(v: &Vec<char>) -> (r: Vec<char>)
    ensures
        r@ == v@,
{
    let mut out: Vec<char> = Vec::new();
    let mut i: usize = 0;
    while i < v.len()
        invariant
            i <= v@.len(),
            out@ == v@.take(i as int),
        decreases v@.len() - i,
    {
        out.push(v[i]);
        proof {
            v@.lemma_take_succ_push(i as int);
        }
        i = i + 1;
    }
    proof {
        v@.lemma_take_len();
    }
    out
}

impl Clone for MatchResult {
    fn clone(&self) -> (r: Self)
        ensures
            r@ == self@,
    {
        MatchResult {
            key: self.key.clone(),
            excerpt: clone_chars(&self.excerpt),
            confidence: self.confidence,
        }
    }
}

/// Fans the candidates out across a worker pool — each evaluation owns its
/// cursor and buffers, the dictionary is shared read-only — and yields
/// exactly the matches of the sequential search, in candidate order.
pub fn par_search(text: &Vec<char>, keys: &Vec<Key>, dict: &DictIndex, cfg: &SearchConfig) -> (r:
    Vec<MatchResult>)
    requires
        dict.wf(),
        forall|i: int| 0 <= i < keys@.len() ==> (#[trigger] keys@[i]).wf(),
    ensures
        result_views(r@) == search_spec(text@, key_views(keys@), *dict, *cfg),
{
    let ghost kv = key_views(keys@);
    let evals = par_evaluate(text, keys, dict, cfg);
    let mut out: Vec<MatchResult> = Vec::new();
    let mut i: usize = 0;
    proof {
        assert(kv.take(0) =~= Seq::<Seq<u8>>::empty());
        assert(result_views(out@) =~= search_spec(text@, kv.take(0), *dict, *cfg));
    }
    while i < evals.len()
        invariant
            i <= evals@.len(),
            evals@.len() == keys@.len(),
            kv == key_views(keys@),
            forall|k: int|
                0 <= k < evals@.len() ==> opt_view(#[trigger] evals@[k]) == eval_spec(
                    text@,
                    keys@[k].shifts@,
                    *dict,
                    *cfg,
                ),
            result_views(out@) == search_spec(text@, kv.take(i as int), *dict, *cfg),
        decreases evals@.len() - i,
    {
        proof {
            assert(kv[i as int] == keys@[i as int].shifts@);
            lemma_search_step(text@, kv, *dict, *cfg, i as int);
        }
        match &evals[i] {
            Some(m) => {
                let mr = m.clone();
                let ghost old_out = out@;
                out.push(mr);
                proof {
                    old_out.lemma_push_map_commute(|m: MatchResult| m@, out@.last());
                    assert(result_views(out@) =~= result_views(old_out).push(out@.last()@));
                }
            },
            None => {},
        }
        i = i + 1;
    }
    proof {
        kv.lemma_take_len();
    }
    out
}

} // verus!
