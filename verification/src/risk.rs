//! Risk scoring and the analysis report.
//!
//! The verdict combines three signals with fixed weights: 0.4 for
//! banned-phrase presence, 0.3 for PII presence and 0.2 for scaled
//! entropy (the weights deliberately sum to 0.9, leaving a 0.1
//! placeholder for a content-size signal that has no implementation).
//! All quantities are integers in thousandths.

use vstd::prelude::*;
use vstd::string::StringExecFns;
use crate::phrases::BannedPhraseMatch;
use crate::pii::PIIPattern;

verus! {

/// The verdict on a stream.
#[derive(Clone, Copy, PartialEq, Eq, Structural, Debug)]
pub enum Decision {
    Allow,
    Block,
}

impl Decision {
    /// The conventional lower-case name of the verdict.
    pub fn label(&self) -> (r: String)
        ensures
            *self == Decision::Allow ==> r@ == "allow"@,
            *self == Decision::Block ==> r@ == "block"@,
    {
        match self {
            Decision::Allow => "allow".to_owned(),
            Decision::Block => "block".to_owned(),
        }
    }
}

/// The entropy signal scaled against the threshold: full weight above
/// the threshold, else the ratio of entropy to threshold, in
/// thousandths.
pub open spec fn entropy_score_spec(entropy_milli: int, threshold_milli: int) -> int {
    if entropy_milli > threshold_milli {
        1000
    } else if threshold_milli <= 0 {
        0
    } else {
        entropy_milli * 1000 / threshold_milli
    }
}

/// The risk score in thousandths: 400 for banned phrases present, 300
/// for PII present, and a fifth of the entropy score (the 0.2 weight).
pub open spec fn risk_score_spec(
    has_banned: bool,
    has_pii: bool,
    entropy_milli: int,
    threshold_milli: int,
) -> int {
    (if has_banned {
        400int
    } else {
        0int
    }) + (if has_pii {
        300int
    } else {
        0int
    }) + entropy_score_spec(entropy_milli, threshold_milli) * 200 / 1000
}

/// Computes the weighted risk score in thousandths.
pub fn calculate_risk_score(
    has_banned: bool,
    has_pii: bool,
    entropy_milli: u64,
    threshold_milli: u64,
) -> (r: u64)
    ensures
        r as int == risk_score_spec(has_banned, has_pii, entropy_milli as int, threshold_milli as int),
        r <= 900,
{
    let escore: u64;
    if entropy_milli > threshold_milli {
        escore = 1000;
    } else if threshold_milli == 0 {
        // Entropy is zero too here, and the scaled score is zero.
        escore = 0;
    } else {
        let tmp: u128 = (entropy_milli as u128) * 1000 / (threshold_milli as u128);
        proof {
            vstd::arithmetic::div_mod::lemma_div_is_ordered(
                (entropy_milli as int) * 1000,
                (threshold_milli as int) * 1000,
                threshold_milli as int,
            );
            vstd::arithmetic::div_mod::lemma_div_multiples_vanish(1000, threshold_milli as int);
            assert((entropy_milli as int) * 1000 <= (threshold_milli as int) * 1000)
                by (nonlinear_arith)
                requires
                    entropy_milli <= threshold_milli,
            ;
            assert((threshold_milli as int) * 1000 == 1000 * (threshold_milli as int));
            assert((entropy_milli as u128) * 1000 == (entropy_milli as int) * 1000);
            assert(tmp as int == (entropy_milli as int) * 1000 / (threshold_milli as int));
            assert(((threshold_milli as int) * 1000) / (threshold_milli as int) == 1000);
            assert(tmp <= 1000);
        }
        escore = tmp as u64;
    }
    proof {
        assert(escore as int == entropy_score_spec(entropy_milli as int, threshold_milli as int));
    }
    let banned: u64 = if has_banned {
        400
    } else {
        0
    };
    let pii: u64 = if has_pii {
        300
    } else {
        0
    };
    banned + pii + escore * 200 / 1000
}

/// The verdict for a risk score: block exactly when the score reaches
/// the threshold.
pub fn decide(risk_milli: u64, threshold_milli: u64) -> (d: Decision)
    ensures
        d == (if risk_milli >= threshold_milli {
            Decision::Block
        } else {
            Decision::Allow
        }),
{
    if risk_milli >= threshold_milli {
        Decision::Block
    } else {
        Decision::Allow
    }
}

/// The decimal digits of a nonnegative number.
pub open spec fn dec_str(n: int) -> Seq<char>
    decreases n,
{
    if n < 10 {
        seq![((48 + if n >= 0 {
            n
        } else {
            0
        }) as u32) as char]
    } else {
        dec_str(n / 10).push(((48 + n % 10) as u32) as char)
    }
}

/// Writes a number in decimal.
pub fn u64_to_string(n: u64) -> (s: String)
    ensures
        s@ == dec_str(n as int),
    decreases n,
{
    if n < 10 {
        let c = ((48 + n) as u8) as char;
        let mut s = String::new();
        crate::textnorm::push_char(&mut s, c);
        proof {
            assert(s@ =~= dec_str(n as int));
        }
        s
    } else {
        let mut s = u64_to_string(n / 10);
        let c = ((48 + (n % 10)) as u8) as char;
        crate::textnorm::push_char(&mut s, c);
        s
    }
}

/// The reason string: the applicable clauses in fixed order, joined by
/// "; ", or a fixed all-clear sentence.
pub open spec fn reason_spec(banned_count: int, pii_count: int, high_entropy: bool) -> Seq<char> {
    if banned_count == 0 && pii_count == 0 && !high_entropy {
        "No security concerns detected"@
    } else {
        let c1 = if banned_count > 0 {
            "Found "@ + dec_str(banned_count) + " banned phrase(s)"@
        } else {
            Seq::<char>::empty()
        };
        let c2 = if pii_count > 0 {
            (if banned_count > 0 {
                "; "@
            } else {
                Seq::<char>::empty()
            }) + "Detected "@ + dec_str(pii_count) + " PII pattern(s)"@
        } else {
            Seq::<char>::empty()
        };
        let c3 = if high_entropy {
            (if banned_count > 0 || pii_count > 0 {
                "; "@
            } else {
                Seq::<char>::empty()
            }) + "High entropy content detected (possible obfuscation)"@
        } else {
            Seq::<char>::empty()
        };
        c1 + c2 + c3
    }
}

/// Builds the human-readable reason for a verdict.
pub fn generate_reason(banned_count: u64, pii_count: u64, high_entropy: bool) -> (s: String)
    ensures
        s@ == reason_spec(banned_count as int, pii_count as int, high_entropy),
{
    if banned_count == 0 && pii_count == 0 && !high_entropy {
        return "No security concerns detected".to_owned();
    }
    let mut s = String::new();
    if banned_count > 0 {
        s.append("Found ");
        let d = u64_to_string(banned_count);
        s.append(d.as_str());
        s.append(" banned phrase(s)");
    }
    if pii_count > 0 {
        if banned_count > 0 {
            s.append("; ");
        }
        s.append("Detected ");
        let d = u64_to_string(pii_count);
        s.append(d.as_str());
        s.append(" PII pattern(s)");
    }
    if high_entropy {
        if banned_count > 0 || pii_count > 0 {
            s.append("; ");
        }
        s.append("High entropy content detected (possible obfuscation)");
    }
    proof {
        assert(s@ =~= reason_spec(banned_count as int, pii_count as int, high_entropy));
    }
    s
}

/// A request to analyse one complete text.
pub struct AnalysisRequest {
    pub content: String,
}

/// The report of one finished analysis.
#[derive(Debug)]
pub struct AnalysisResult {
    /// Tokens ranked by count descending, ties by ascending token,
    /// truncated to the configured number of entries.
    pub top_words: Vec<(String, u64)>,
    /// Every banned-phrase match, with global positions.
    pub banned_phrases: Vec<BannedPhraseMatch>,
    /// Every PII finding, with global positions.
    pub pii_patterns: Vec<PIIPattern>,
    /// Shannon entropy of the normalized stream, in millibits.
    pub entropy_millibits: u64,
    /// Whether the entropy exceeds the configured threshold.
    pub is_obfuscated: bool,
    /// The verdict.
    pub decision: Decision,
    /// Why the verdict came out as it did.
    pub reason: String,
    /// The weighted risk score in thousandths.
    pub risk_score_milli: u64,
}

} // verus!
