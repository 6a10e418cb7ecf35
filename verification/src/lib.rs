//! Streaming data-loss-prevention text analysis.
//!
//! The library ingests text in bounded-size chunks and produces a single
//! allow/block verdict backed by four signals: character-level entropy,
//! banned-phrase occurrence, PII pattern occurrence, and token-frequency
//! ranking.  All fractional quantities (entropy, confidence, risk) are
//! fixed-point integers in thousandths, so that every computation is exact
//! and verifiable.

use vstd::prelude::*;

pub mod entropy;
pub mod laws;
pub mod frequency;
pub mod phrases;
pub mod pii;
pub mod risk;
pub mod streaming;
pub mod stream_buf;
pub mod textnorm;

use crate::risk::AnalysisRequest;
use crate::risk::AnalysisResult;
use crate::risk::calculate_risk_score;
use crate::risk::decide;
use crate::risk::generate_reason;
use crate::risk::risk_score_spec;
use crate::risk::reason_spec;
use crate::streaming::result_view;
use crate::frequency::analyze_word_frequency;
use crate::frequency::word_frequency_spec;
use crate::phrases::detect_banned_phrases;
use crate::phrases::phrase_commits;
use crate::pii::detect_pii_patterns;
use crate::pii::pii_commits;
use crate::entropy::calculate_shannon_entropy;
use crate::entropy::entropy_millibits_of;
use crate::entropy::cc_fold;
use crate::textnorm::normalize_seq;

verus! {

/// Analyzes one complete text in a single pass, with the stock
/// settings: the ten most frequent words, the default banned phrases,
/// an entropy threshold of 4.8 bits and a risk threshold of 0.6.
pub fn perform_analysis(request: &AnalysisRequest) -> (r: AnalysisResult)
    ensures
        result_view(r).top_words == word_frequency_spec(request.content@, 10),
        result_view(r).phrases == phrase_commits(
            request.content@,
            seq!["confidential"@, "do not share"@],
            0,
            request.content@.len() as int,
            0,
        ),
        result_view(r).piis == pii_commits(request.content@, 0, request.content@.len() as int, 0),
        result_view(r).entropy == entropy_millibits_of(cc_fold(normalize_seq(request.content@))),
        result_view(r).is_obfuscated == (result_view(r).entropy > 4800),
        result_view(r).risk == risk_score_spec(
            result_view(r).phrases.len() > 0,
            result_view(r).piis.len() > 0,
            result_view(r).entropy,
            4800,
        ),
        result_view(r).block == (result_view(r).risk >= 600),
        result_view(r).reason == reason_spec(
            result_view(r).phrases.len() as int,
            result_view(r).piis.len() as int,
            result_view(r).is_obfuscated,
        ),
{
    let content = request.content.as_str();
    let ranked = analyze_word_frequency(content, 10);
    let mut top_words: Vec<(String, u64)> = Vec::new();
    let mut i: usize = 0;
    proof {
        assert(top_words@.map_values(|e: (String, u64)| (e.0@, e.1 as int)) =~= Seq::<
            (Seq<char>, int),
        >::empty());
        assert(crate::frequency::result_view(ranked@).subrange(0, 0) =~= Seq::<
            (Seq<char>, int),
        >::empty());
    }
    while i < ranked.len()
        invariant
            i <= ranked@.len(),
            top_words@.map_values(|e: (String, u64)| (e.0@, e.1 as int))
                == crate::frequency::result_view(ranked@).subrange(0, i as int),
        decreases ranked@.len() - i,
    {
        let w = ranked[i].0.clone();
        let c = ranked[i].1;
        let ghost pre = top_words@.map_values(|e: (String, u64)| (e.0@, e.1 as int));
        top_words.push((w, c as u64));
        proof {
            let rv = crate::frequency::result_view(ranked@);
            assert(top_words@.map_values(|e: (String, u64)| (e.0@, e.1 as int)) =~= pre.push(
                rv[i as int],
            ));
            assert(rv.subrange(0, i + 1) =~= rv.subrange(0, i as int).push(rv[i as int]));
        }
        i += 1;
    }
    proof {
        let rv = crate::frequency::result_view(ranked@);
        assert(rv.subrange(0, rv.len() as int) == rv);
    }
    let banned = detect_banned_phrases(content);
    let piis = detect_pii_patterns(content);
    let ent = calculate_shannon_entropy(content);
    let high = ent > 4800;
    let risk = calculate_risk_score(banned.len() > 0, piis.len() > 0, ent, 4800);
    let decision = decide(risk, 600);
    let reason = generate_reason(banned.len() as u64, piis.len() as u64, high);
    AnalysisResult {
        top_words,
        banned_phrases: banned,
        pii_patterns: piis,
        entropy_millibits: ent,
        is_obfuscated: high,
        decision,
        reason,
        risk_score_milli: risk,
    }
}

} // verus!
