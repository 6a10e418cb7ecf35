//! The incremental streaming analyzer.
//!
//! Chunks arrive one at a time; the analyzer keeps running character
//! and token counts, the committed matches, and a bounded carry-over
//! window so that phrases and PII patterns that straddle a chunk
//! boundary are still found exactly once.  `finalize` is a pure read:
//! it scans the carried tail for matches that end exactly at the
//! stream end, ranks the tokens, computes the entropy and produces the
//! verdict.
//!
//! Every mutation is pinned to the step function [`spec_step`], and
//! the report to [`spec_finalize`]: the whole behaviour of the
//! analyzer is a fold of `spec_step` over the chunks.

use vstd::prelude::*;
use crate::textnorm::normalize_seq;
use crate::textnorm::str_to_chars;
use crate::textnorm::lemma_normalize_len_le;
use crate::entropy::cc_view;
use crate::entropy::cc_wf;
use crate::entropy::cc_total;
use crate::entropy::cc_fold_from;
use crate::entropy::cc_accumulate;
use crate::entropy::entropy_millibits;
use crate::entropy::entropy_millibits_of;
use crate::entropy::lemma_cc_fold_from_total;
use crate::frequency::wc_view;
use crate::frequency::wc_wf;
use crate::frequency::wc_total;
use crate::frequency::tok_fold_from;
use crate::frequency::tok_close;
use crate::frequency::pend_bit;
use crate::frequency::wc_accumulate;
use crate::frequency::wc_bump;
use crate::frequency::sort_ranked;
use crate::frequency::sort_ranked_exec;
use crate::frequency::chars_to_string;
use crate::frequency::chars_eq;
use crate::frequency::lemma_tok_fold_from_bounds;
use crate::phrases::BannedPhraseMatch;
use crate::phrases::Severity;
use crate::phrases::pm_views;
use crate::phrases::str_views;
use crate::phrases::phrase_commits;
use crate::phrases::scan_phrases;
use crate::pii::PIIPattern;
use crate::pii::pii_views;
use crate::pii::pii_commits;
use crate::pii::scan_pii;
use crate::risk::AnalysisResult;
use crate::risk::Decision;
use crate::risk::risk_score_spec;
use crate::risk::reason_spec;
use crate::risk::calculate_risk_score;
use crate::risk::decide;
use crate::risk::generate_reason;

verus! {

/// Configuration of one analyzer.
pub struct StreamingConfig {
    /// Normalized tokens excluded from the frequency ranking, at read
    /// time.
    pub stopwords: Vec<String>,
    /// Entropy strictly above this, in millibits, marks the content
    /// obfuscated.
    pub entropy_threshold_millibits: u64,
    /// Risk score at or above this, in thousandths, blocks the
    /// content.
    pub risk_threshold_milli: u64,
    /// How many ranked words the report carries at most.
    pub max_words: usize,
    /// The phrases to detect.
    pub banned_phrases: Vec<String>,
}

/// Ghost image of a configuration.
#[verifier::ext_equal]
pub struct CfgV {
    pub stopwords: Seq<Seq<char>>,
    pub entropy_threshold: int,
    pub risk_threshold: int,
    pub max_words: int,
    pub phrases: Seq<Seq<char>>,
}

pub open spec fn cfg_view(c: &StreamingConfig) -> CfgV {
    CfgV {
        stopwords: str_views(c.stopwords@),
        entropy_threshold: c.entropy_threshold_millibits as int,
        risk_threshold: c.risk_threshold_milli as int,
        max_words: c.max_words as int,
        phrases: str_views(c.banned_phrases@),
    }
}

/// The default stopword list.
pub open spec fn default_stopwords() -> Seq<Seq<char>> {
    seq![
        "the"@,
        "a"@,
        "an"@,
        "and"@,
        "or"@,
        "but"@,
        "in"@,
        "on"@,
        "at"@,
        "to"@,
        "for"@,
        "of"@,
        "with"@,
        "by"@,
        "is"@,
        "are"@,
        "was"@,
        "were"@,
        "be"@,
        "been"@,
        "have"@,
        "has"@,
        "had"@,
        "do"@,
        "does"@,
        "did"@,
        "will"@,
        "would"@,
        "could"@,
        "should"@,
        "may"@,
        "might"@,
        "can"@,
        "this"@,
        "that"@,
        "these"@,
        "those"@,
        "i"@,
        "you"@,
        "he"@,
        "she"@,
        "it"@,
        "we"@,
        "they"@,
        "me"@,
        "him"@,
        "her"@,
        "us"@,
        "them"@,
        "my"@,
        "your"@,
        "his"@,
        "her"@,
        "its"@,
        "our"@,
        "their"@,
        "mine"@,
        "yours"@,
        "hers"@,
        "ours"@,
        "theirs"@,
    ]
}

/// The default configuration: the standard stopword list, an entropy
/// threshold of 4.8 bits, a risk threshold of 0.6, ten ranked words,
/// and the two stock banned phrases.
pub open spec fn default_cfg() -> CfgV {
    CfgV {
        stopwords: default_stopwords(),
        entropy_threshold: 4800,
        risk_threshold: 600,
        max_words: 10,
        phrases: seq!["confidential"@, "do not share"@],
    }
}

impl Default for StreamingConfig {
    /// Builds the default configuration.
    fn default() -> (r: StreamingConfig)
        ensures
            cfg_view(&r) == default_cfg(),
    {
        let mut sw: Vec<String> = Vec::new();
        sw.push("the".to_owned());
    sw.push("a".to_owned());
    sw.push("an".to_owned());
    sw.push("and".to_owned());
    sw.push("or".to_owned());
    sw.push("but".to_owned());
    sw.push("in".to_owned());
    sw.push("on".to_owned());
    sw.push("at".to_owned());
    sw.push("to".to_owned());
    sw.push("for".to_owned());
    sw.push("of".to_owned());
    sw.push("with".to_owned());
    sw.push("by".to_owned());
    sw.push("is".to_owned());
    sw.push("are".to_owned());
    sw.push("was".to_owned());
    sw.push("were".to_owned());
    sw.push("be".to_owned());
    sw.push("been".to_owned());
    sw.push("have".to_owned());
    sw.push("has".to_owned());
    sw.push("had".to_owned());
    sw.push("do".to_owned());
    sw.push("does".to_owned());
    sw.push("did".to_owned());
    sw.push("will".to_owned());
    sw.push("would".to_owned());
    sw.push("could".to_owned());
    sw.push("should".to_owned());
    sw.push("may".to_owned());
    sw.push("might".to_owned());
    sw.push("can".to_owned());
    sw.push("this".to_owned());
    sw.push("that".to_owned());
    sw.push("these".to_owned());
    sw.push("those".to_owned());
    sw.push("i".to_owned());
    sw.push("you".to_owned());
    sw.push("he".to_owned());
    sw.push("she".to_owned());
    sw.push("it".to_owned());
    sw.push("we".to_owned());
    sw.push("they".to_owned());
    sw.push("me".to_owned());
    sw.push("him".to_owned());
    sw.push("her".to_owned());
    sw.push("us".to_owned());
    sw.push("them".to_owned());
    sw.push("my".to_owned());
    sw.push("your".to_owned());
    sw.push("his".to_owned());
    sw.push("her".to_owned());
    sw.push("its".to_owned());
    sw.push("our".to_owned());
    sw.push("their".to_owned());
    sw.push("mine".to_owned());
    sw.push("yours".to_owned());
    sw.push("hers".to_owned());
    sw.push("ours".to_owned());
    sw.push("theirs".to_owned());
        let r = StreamingConfig {
            stopwords: sw,
            entropy_threshold_millibits: 4800,
            risk_threshold_milli: 600,
            max_words: 10,
            banned_phrases: crate::phrases::default_banned_phrases(),
        };
        proof {
            assert(str_views(r.stopwords@) =~= default_stopwords());
            assert(cfg_view(&r) =~= default_cfg());
        }
        r
    }
}

/// Why a chunk was rejected.  Reserved: the current detectors accept
/// every byte sequence, so no function of this crate produces it.
#[derive(Clone, Copy, PartialEq, Eq, Structural, Debug)]
pub enum ProcessingError {
    Rejected,
}

/// Why no report could be produced.
#[derive(Clone, Copy, PartialEq, Eq, Structural, Debug)]
pub enum AnalysisError {
    /// `finalize` was called before any content was processed.
    EmptyStream,
}

impl AnalysisError {
    /// The conventional message for the error.
    pub fn message(&self) -> (r: String)
        ensures
            r@ == "No content processed"@,
    {
        "No content processed".to_owned()
    }
}

/// Ghost state of an analyzer: the whole stream seen so far and every
/// accumulated table and match list.
#[verifier::ext_equal]
pub struct AStateG {
    /// Every character fed so far.
    pub stream: Seq<char>,
    /// The trailing window kept for boundary-straddling matches.
    pub carry: Seq<char>,
    /// Character-frequency table of the normalized stream.
    pub chars: Seq<(char, int)>,
    /// Token-count table of the closed tokens.
    pub words: Seq<(Seq<char>, int)>,
    /// The unfinished trailing token, normalized.
    pub pending: Seq<char>,
    /// Committed phrase matches: (phrase, global position, context).
    pub phrases: Seq<(Seq<char>, int, Seq<char>)>,
    /// Committed PII findings: (kind, text, global position,
    /// confidence).
    pub piis: Seq<(crate::pii::PIIKind, Seq<char>, int, int)>,
    /// Chunks processed.
    pub chunks: int,
    /// Bytes processed.
    pub bytes: int,
}

/// The state of a fresh analyzer.
pub open spec fn init_state() -> AStateG {
    AStateG {
        stream: Seq::<char>::empty(),
        carry: Seq::<char>::empty(),
        chars: Seq::<(char, int)>::empty(),
        words: Seq::<(Seq<char>, int)>::empty(),
        pending: Seq::<char>::empty(),
        phrases: Seq::<(Seq<char>, int, Seq<char>)>::empty(),
        piis: Seq::<(crate::pii::PIIKind, Seq<char>, int, int)>::empty(),
        chunks: 0,
        bytes: 0,
    }
}

/// The longest phrase in a list.
pub open spec fn max_phrase_len(phs: Seq<Seq<char>>) -> int
    decreases phs.len(),
{
    if phs.len() == 0 {
        0
    } else {
        let rest = max_phrase_len(phs.drop_first());
        if phs[0].len() > rest {
            phs[0].len() as int
        } else {
            rest
        }
    }
}

/// The span cap of the PII detectors: an email address is recognised
/// up to a 64-character local part, the separator, and a
/// 255-character domain; every other pattern is shorter.
pub const PII_SPAN_CAP: usize = 320;

/// How many trailing characters are carried between chunks: enough
/// for the longest phrase or PII pattern to straddle the boundary,
/// plus one character of word-boundary context before it and twenty
/// characters of context snippet.
pub open spec fn carry_cap(phs: Seq<Seq<char>>) -> int {
    (if max_phrase_len(phs) > PII_SPAN_CAP as int {
        max_phrase_len(phs)
    } else {
        PII_SPAN_CAP as int
    }) + 21
}

/// One step of the analyzer: the carry and the chunk form the window;
/// matches whose span ends strictly inside the stream seen so far are
/// committed at their global positions; counts and the carry advance.
pub open spec fn spec_step(cfg: CfgV, st: AStateG, chunk: Seq<char>, nbytes: int) -> AStateG {
    let win = st.carry + chunk;
    let lo = st.carry.len() as int;
    let hi = if win.len() == 0 {
        0int
    } else {
        win.len() - 1
    };
    let offset = st.stream.len() - st.carry.len();
    let cap = carry_cap(cfg.phrases);
    let k = if cap <= win.len() {
        cap
    } else {
        win.len() as int
    };
    let tf = tok_fold_from((st.words, st.pending), chunk);
    AStateG {
        stream: st.stream + chunk,
        carry: win.subrange(win.len() - k, win.len() as int),
        chars: cc_fold_from(st.chars, normalize_seq(chunk)),
        words: tf.0,
        pending: tf.1,
        phrases: st.phrases + phrase_commits(win, cfg.phrases, lo, hi, offset),
        piis: st.piis + pii_commits(win, lo, hi, offset),
        chunks: st.chunks + 1,
        bytes: st.bytes + nbytes,
    }
}

/// Ghost image of a finished report.
#[verifier::ext_equal]
pub struct ResultV {
    pub top_words: Seq<(Seq<char>, int)>,
    pub phrases: Seq<(Seq<char>, int, Seq<char>)>,
    pub piis: Seq<(crate::pii::PIIKind, Seq<char>, int, int)>,
    pub entropy: int,
    pub is_obfuscated: bool,
    pub block: bool,
    pub reason: Seq<char>,
    pub risk: int,
}

pub open spec fn result_view(r: AnalysisResult) -> ResultV {
    ResultV {
        top_words: r.top_words@.map_values(|e: (String, u64)| (e.0@, e.1 as int)),
        phrases: pm_views(r.banned_phrases@),
        piis: pii_views(r.pii_patterns@),
        entropy: r.entropy_millibits as int,
        is_obfuscated: r.is_obfuscated,
        block: r.decision == Decision::Block,
        reason: r.reason@,
        risk: r.risk_score_milli as int,
    }
}

/// Keeps the table entries whose token is not a stopword.
pub open spec fn keep_nonstop(es: Seq<(Seq<char>, int)>, sws: Seq<Seq<char>>) -> Seq<
    (Seq<char>, int),
>
    decreases es.len(),
{
    if es.len() == 0 {
        Seq::<(Seq<char>, int)>::empty()
    } else {
        (if exists|i: int| 0 <= i < sws.len() && sws[i] == es[0].0 {
            Seq::<(Seq<char>, int)>::empty()
        } else {
            seq![es[0]]
        }) + keep_nonstop(es.drop_first(), sws)
    }
}

/// The report of an analyzer state: matches ending exactly at the
/// stream end join the committed ones, the tokens are ranked with the
/// stopwords dropped, and entropy, risk score, verdict and reason are
/// computed over the whole accumulated state.
pub open spec fn spec_finalize(cfg: CfgV, st: AStateG) -> ResultV {
    let off = st.stream.len() - st.carry.len();
    let tlo = st.carry.len() as int;
    let phrases_all = st.phrases + phrase_commits(st.carry, cfg.phrases, tlo, tlo, off);
    let piis_all = st.piis + pii_commits(st.carry, tlo, tlo, off);
    let closed = tok_close((st.words, st.pending));
    let sorted = sort_ranked(keep_nonstop(closed, cfg.stopwords));
    let top = if sorted.len() <= cfg.max_words {
        sorted
    } else {
        sorted.subrange(0, cfg.max_words)
    };
    let ent = entropy_millibits_of(st.chars);
    let high = ent > cfg.entropy_threshold;
    let risk = risk_score_spec(phrases_all.len() > 0, piis_all.len() > 0, ent, cfg.entropy_threshold);
    ResultV {
        top_words: top,
        phrases: phrases_all,
        piis: piis_all,
        entropy: ent,
        is_obfuscated: high,
        block: risk >= cfg.risk_threshold,
        reason: reason_spec(phrases_all.len() as int, piis_all.len() as int, high),
        risk: risk,
    }
}

/// The incremental analysis engine: owns the configuration and all
/// running state; chunks go in through `process_chunk`, the verdict
/// comes out of `finalize`.
pub struct StreamingAnalyzer {
    config: StreamingConfig,
    char_counts: Vec<(char, u64)>,
    word_counts: Vec<(Vec<char>, u64)>,
    pending: Vec<char>,
    carry: Vec<char>,
    phrase_matches: Vec<BannedPhraseMatch>,
    pii_matches: Vec<PIIPattern>,
    total_chunks: u64,
    total_bytes: u64,
    total_chars: u64,
    streamed: Ghost<Seq<char>>,
}

impl StreamingAnalyzer {
    /// Ghost image of the analyzer.
    pub closed spec fn view(&self) -> AStateG {
        AStateG {
            stream: self.streamed@,
            carry: self.carry@,
            chars: cc_view(self.char_counts@),
            words: wc_view(self.word_counts@),
            pending: self.pending@,
            phrases: pm_views(self.phrase_matches@),
            piis: pii_views(self.pii_matches@),
            chunks: self.total_chunks as int,
            bytes: self.total_bytes as int,
        }
    }

    /// The configuration currently in force.
    pub closed spec fn cfg(&self) -> CfgV {
        cfg_view(&self.config)
    }

    /// Well-formedness: the tables are well formed and bounded by the
    /// stream length, the counters agree with the ghost stream, and
    /// every recorded phrase match rates `High`.
    pub closed spec fn wf(&self) -> bool {
        &&& cc_wf(cc_view(self.char_counts@))
        &&& cc_total(cc_view(self.char_counts@)) <= self.streamed@.len()
        &&& wc_wf(wc_view(self.word_counts@))
        &&& wc_total(wc_view(self.word_counts@)) + pend_bit(self.pending@) <= self.streamed@.len()
        &&& self.total_chars as int == self.streamed@.len()
        &&& self.carry@.len() <= self.total_chars
        &&& forall|i: int|
            0 <= i < self.phrase_matches@.len() ==> #[trigger] self.phrase_matches@[i].severity
                == Severity::High
    }

    /// A fresh analyzer with the given configuration.
    pub fn new(config: StreamingConfig) -> (r: StreamingAnalyzer)
        ensures
            r@ == init_state(),
            r.cfg() == cfg_view(&config),
            r.wf(),
    {
        let r = StreamingAnalyzer {
            config,
            char_counts: Vec::new(),
            word_counts: Vec::new(),
            pending: Vec::new(),
            carry: Vec::new(),
            phrase_matches: Vec::new(),
            pii_matches: Vec::new(),
            total_chunks: 0,
            total_bytes: 0,
            total_chars: 0,
            streamed: Ghost(Seq::<char>::empty()),
        };
        proof {
            assert(cc_view(r.char_counts@) =~= Seq::<(char, int)>::empty());
            assert(wc_view(r.word_counts@) =~= Seq::<(Seq<char>, int)>::empty());
            assert(pm_views(r.phrase_matches@) =~= Seq::<(Seq<char>, int, Seq<char>)>::empty());
            assert(pii_views(r.pii_matches@) =~= Seq::<
                (crate::pii::PIIKind, Seq<char>, int, int),
            >::empty());
            assert(r@ =~= init_state());
        }
        r
    }

    /// A fresh analyzer with the default configuration.
    pub fn init() -> (r: StreamingAnalyzer)
        ensures
            r@ == init_state(),
            r.cfg() == default_cfg(),
            r.wf(),
    {
        StreamingAnalyzer::new(StreamingConfig::default())
    }

    /// Replaces the configuration; the accumulated state is untouched.
    /// Already-counted words and recorded matches are not
    /// reinterpreted; only future chunks and the read-time stopword
    /// filter see the new configuration.
    pub fn update_config(&mut self, config: StreamingConfig)
        requires
            old(self).wf(),
        ensures
            final(self)@ == old(self)@,
            final(self).cfg() == cfg_view(&config),
            final(self).wf(),
    {
        self.config = config;
    }

    /// The carry cap for the current configuration, clipped to the
    /// window length.
    fn carry_keep(&self, win_len: usize) -> (k: usize)
        ensures
            k as int == if carry_cap(self.cfg().phrases) <= win_len {
                carry_cap(self.cfg().phrases)
            } else {
                win_len as int
            },
    {
        // Longest configured phrase.
        let mut mpl: usize = 0;
        let n = self.config.banned_phrases.len();
        let mut i: usize = 0;
        proof {
            assert(str_views(self.config.banned_phrases@).subrange(0, 0)
                =~= Seq::<Seq<char>>::empty());
        }
        while i < n
            invariant
                i <= n,
                n == self.config.banned_phrases@.len(),
                mpl as int == max_phrase_len(
                    str_views(self.config.banned_phrases@).subrange(0, i as int),
                ),
            decreases n - i,
        {
            let l = self.config.banned_phrases[i].as_str().unicode_len();
            proof {
                let pv = str_views(self.config.banned_phrases@);
                lemma_max_phrase_len_snoc(pv, i as int);
            }
            if l > mpl {
                mpl = l;
            }
            i += 1;
        }
        proof {
            assert(str_views(self.config.banned_phrases@).subrange(
                0,
                self.config.banned_phrases@.len() as int,
            ) == str_views(self.config.banned_phrases@));
        }
        let base: usize = if mpl > PII_SPAN_CAP {
            mpl
        } else {
            PII_SPAN_CAP
        };
        if base >= win_len {
            win_len
        } else if win_len - base >= 21 {
            base + 21
        } else {
            win_len
        }
    }

    /// Feeds one chunk: counters, frequency tables and committed
    /// matches advance exactly as `spec_step` says.  Any text is
    /// accepted.
    pub fn process_chunk(&mut self, chunk: &str) -> (r: Result<(), ProcessingError>)
        requires
            old(self).wf(),
            old(self)@.bytes + chunk.len() <= u64::MAX,
            old(self)@.stream.len() + chunk@.len() <= u64::MAX,
            old(self)@.chunks < u64::MAX,
        ensures
            final(self).wf(),
            final(self)@ == spec_step(
                old(self).cfg(),
                old(self)@,
                chunk@,
                chunk.len() as int,
            ),
            final(self).cfg() == old(self).cfg(),
            r is Ok,
    {
        let ghost st0 = self@;
        let ghost cfg0 = cfg_view(&self.config);
        let chars = str_to_chars(chunk);
        let nbytes = chunk.len();
        let clen = chars.len();
        // Window and offset, before any state moves.
        let offset: u64 = self.total_chars - (self.carry.len() as u64);
        let mut win = clone_chars(&self.carry);
        append_chars(&mut win, &chars);
        let lo = self.carry.len();
        let hi = if win.len() == 0 {
            0
        } else {
            win.len() - 1
        };
        // Counters.
        self.total_chunks = self.total_chunks + 1;
        self.total_bytes = self.total_bytes + (nbytes as u64);
        self.total_chars = self.total_chars + (clen as u64);
        proof {
            lemma_normalize_len_le(chars@);
            lemma_cc_fold_from_total(cc_view(self.char_counts@), normalize_seq(chars@));
        }
        // Character frequencies.
        cc_accumulate(&mut self.char_counts, &chars);
        // Token frequencies.
        proof {
            lemma_tok_fold_from_bounds(
                (wc_view(self.word_counts@), self.pending@),
                chars@,
            );
        }
        wc_accumulate(&mut self.word_counts, &mut self.pending, &chars);
        // Matches whose span now ends strictly inside the stream.
        scan_phrases(
            &mut self.phrase_matches,
            &win,
            &self.config.banned_phrases,
            lo,
            hi,
            offset,
        );
        scan_pii(&mut self.pii_matches, &win, lo, hi, offset);
        // New carry: the last characters of the window, up to the cap.
        let k = self.carry_keep(win.len());
        let start = win.len() - k;
        let mut nc: Vec<char> = Vec::new();
        let mut t: usize = start;
        while t < win.len()
            invariant
                start <= t <= win@.len(),
                nc@ == win@.subrange(start as int, t as int),
            decreases win@.len() - t,
        {
            nc.push(win[t]);
            proof {
                assert(win@.subrange(start as int, t as int).push(win@[t as int])
                    =~= win@.subrange(start as int, t + 1));
            }
            t += 1;
        }
        self.carry = nc;
        proof {
            self.streamed@ = st0.stream + chars@;
        }
        proof {
            let stepd = spec_step(cfg0, st0, chunk@, chunk.len() as int);
            assert(self@.stream =~= stepd.stream);
            assert(self@.carry =~= stepd.carry);
            assert(self@.chars =~= stepd.chars);
            assert(self@.words =~= stepd.words);
            assert(self@.pending =~= stepd.pending);
            assert(self@.phrases =~= stepd.phrases);
            assert(self@.piis =~= stepd.piis);
            assert(self@.chunks == stepd.chunks);
            assert(self@.bytes == stepd.bytes);
            assert(self@ =~= stepd);
        }
        Ok(())
    }

    /// Current statistics, as of the last `process_chunk` call.
    pub fn get_stats(&self) -> (r: ProcessingStats)
        ensures
            r.total_chunks as int == self@.chunks,
            r.total_content_length as int == self@.bytes,
            r.unique_words as int == self@.words.len(),
            r.banned_phrase_count as int == self@.phrases.len(),
            r.pii_pattern_count as int == self@.piis.len(),
    {
        ProcessingStats {
            total_chunks: self.total_chunks,
            total_content_length: self.total_bytes,
            unique_words: self.word_counts.len(),
            banned_phrase_count: self.phrase_matches.len(),
            pii_pattern_count: self.pii_matches.len(),
        }
    }

    /// Produces the report over everything accumulated so far, without
    /// changing any state; fails exactly when nothing was processed.
    pub fn finalize(&self) -> (r: Result<AnalysisResult, AnalysisError>)
        requires
            self.wf(),
        ensures
            r is Ok <==> (self@.chunks > 0 && self@.bytes > 0),
            r matches Ok(res) ==> result_view(res) == spec_finalize(self.cfg(), self@),
            r matches Ok(res) ==> forall|i: int|
                0 <= i < res.banned_phrases@.len() ==> #[trigger] res.banned_phrases@[i].severity
                    == Severity::High,
            r matches Err(e) ==> e == AnalysisError::EmptyStream,
    {
        if self.total_chunks == 0 || self.total_bytes == 0 {
            return Err(AnalysisError::EmptyStream);
        }
        let off: u64 = self.total_chars - (self.carry.len() as u64);
        let tlo = self.carry.len();
        // Matches that end exactly at the stream end.
        let mut phrases_all = clone_phrase_matches(&self.phrase_matches);
        scan_phrases(&mut phrases_all, &self.carry, &self.config.banned_phrases, tlo, tlo, off);
        let mut piis_all = clone_pii_matches(&self.pii_matches);
        scan_pii(&mut piis_all, &self.carry, tlo, tlo, off);
        // Ranked words: closed tokens plus the pending token, minus
        // stopwords.
        let mut table = clone_word_table(&self.word_counts);
        if self.pending.len() > 0 {
            proof {
                assert(wc_total(wc_view(table@)) < u64::MAX);
            }
            wc_bump(&mut table, &self.pending);
        }
        let kept = filter_stopwords(&table, &self.config.stopwords);
        let sorted = sort_ranked_exec(&kept);
        let kw = if sorted.len() <= self.config.max_words {
            sorted.len()
        } else {
            self.config.max_words
        };
        let mut top_words: Vec<(String, u64)> = Vec::new();
        let mut i: usize = 0;
        proof {
            assert(top_words@.map_values(|e: (String, u64)| (e.0@, e.1 as int)) =~= Seq::<
                (Seq<char>, int),
            >::empty());
            assert(wc_view(sorted@).subrange(0, 0) =~= Seq::<(Seq<char>, int)>::empty());
        }
        while i < kw
            invariant
                i <= kw,
                kw <= sorted@.len(),
                top_words@.map_values(|e: (String, u64)| (e.0@, e.1 as int)) == wc_view(
                    sorted@,
                ).subrange(0, i as int),
            decreases kw - i,
        {
            let word = chars_to_string(&sorted[i].0);
            let cnt = sorted[i].1;
            let ghost pre = top_words@.map_values(|e: (String, u64)| (e.0@, e.1 as int));
            top_words.push((word, cnt));
            proof {
                assert(top_words@.map_values(|e: (String, u64)| (e.0@, e.1 as int)) =~= pre.push(
                    (wc_view(sorted@)[i as int].0, wc_view(sorted@)[i as int].1),
                ));
                assert(wc_view(sorted@).subrange(0, i + 1) =~= wc_view(sorted@).subrange(
                    0,
                    i as int,
                ).push(wc_view(sorted@)[i as int]));
            }
            i += 1;
        }
        proof {
            if wc_view(sorted@).len() <= self.config.max_words {
                assert(wc_view(sorted@).subrange(0, kw as int) =~= wc_view(sorted@));
            }
        }
        // Entropy and verdict.
        let ent = entropy_millibits(&self.char_counts);
        let high = ent > self.config.entropy_threshold_millibits;
        let risk = calculate_risk_score(
            phrases_all.len() > 0,
            piis_all.len() > 0,
            ent,
            self.config.entropy_threshold_millibits,
        );
        let decision = decide(risk, self.config.risk_threshold_milli);
        let reason = generate_reason(
            phrases_all.len() as u64,
            piis_all.len() as u64,
            high,
        );
        let res = AnalysisResult {
            top_words,
            banned_phrases: phrases_all,
            pii_patterns: piis_all,
            entropy_millibits: ent,
            is_obfuscated: high,
            decision,
            reason,
            risk_score_milli: risk,
        };
        proof {
            assert(result_view(res) =~= spec_finalize(self.cfg(), self@));
        }
        Ok(res)
    }
}

/// Processing statistics.
pub struct ProcessingStats {
    /// Chunks processed so far.
    pub total_chunks: u64,
    /// Bytes processed so far.
    pub total_content_length: u64,
    /// Distinct closed tokens counted so far (stopwords included; the
    /// stopword filter applies at read time).
    pub unique_words: usize,
    /// Committed banned-phrase matches.
    pub banned_phrase_count: usize,
    /// Committed PII findings.
    pub pii_pattern_count: usize,
}

/// The longest phrase of a one-longer prefix.
proof fn lemma_max_phrase_len_snoc(phs: Seq<Seq<char>>, i: int)
    requires
        0 <= i < phs.len(),
    ensures
        max_phrase_len(phs.subrange(0, i + 1)) == if phs[i].len() as int > max_phrase_len(
            phs.subrange(0, i),
        ) {
            phs[i].len() as int
        } else {
            max_phrase_len(phs.subrange(0, i))
        },
    decreases i,
{
    if i == 0 {
        let one = phs.subrange(0, 1);
        assert(one[0] == phs[0]);
        assert(one.drop_first() =~= Seq::<Seq<char>>::empty());
        assert(phs.subrange(0, 0) =~= Seq::<Seq<char>>::empty());
    } else {
        lemma_max_phrase_len_snoc(phs.drop_first(), i - 1);
        let pre1 = phs.subrange(0, i + 1);
        let pre = phs.subrange(0, i);
        assert(pre1[0] == phs[0] && pre[0] == phs[0]);
        assert(pre1.drop_first() =~= phs.drop_first().subrange(0, i));
        assert(pre.drop_first() =~= phs.drop_first().subrange(0, i - 1));
        assert(phs.drop_first()[i - 1] == phs[i]);
    }
}

/// Copies a character vector.
pub fn clone_chars(v: &Vec<char>) -> (r: Vec<char>)
    ensures
        r@ == v@,
{
    let mut r: Vec<char> = Vec::new();
    let mut i: usize = 0;
    while i < v.len()
        invariant
            i <= v@.len(),
            r@ == v@.subrange(0, i as int),
        decreases v@.len() - i,
    {
        r.push(v[i]);
        proof {
            assert(v@.subrange(0, i as int).push(v@[i as int]) =~= v@.subrange(0, i + 1));
        }
        i += 1;
    }
    proof {
        assert(v@.subrange(0, v@.len() as int) == v@);
    }
    r
}

/// Appends a character vector to another.
pub fn append_chars(dst: &mut Vec<char>, src: &Vec<char>)
    ensures
        final(dst)@ == old(dst)@ + src@,
{
    let ghost base = dst@;
    let mut i: usize = 0;
    while i < src.len()
        invariant
            i <= src@.len(),
            dst@ == base + src@.subrange(0, i as int),
        decreases src@.len() - i,
    {
        dst.push(src[i]);
        proof {
            assert(base + src@.subrange(0, i as int).push(src@[i as int]) =~= base + src@.subrange(
                0,
                i + 1,
            ));
            assert((base + src@.subrange(0, i as int)).push(src@[i as int]) =~= base
                + src@.subrange(0, i as int).push(src@[i as int]));
        }
        i += 1;
    }
    proof {
        assert(src@.subrange(0, src@.len() as int) == src@);
    }
}

/// Copies a phrase-match list field by field.
fn clone_phrase_matches(v: &Vec<BannedPhraseMatch>) -> (r: Vec<BannedPhraseMatch>)
    ensures
        pm_views(r@) == pm_views(v@),
        r@.len() == v@.len(),
        forall|i: int| 0 <= i < r@.len() ==> #[trigger] r@[i].severity == v@[i].severity,
{
    let mut r: Vec<BannedPhraseMatch> = Vec::new();
    let mut i: usize = 0;
    proof {
        assert(pm_views(r@) =~= pm_views(v@).subrange(0, 0));
    }
    while i < v.len()
        invariant
            i <= v@.len(),
            r@.len() == i,
            pm_views(r@) == pm_views(v@).subrange(0, i as int),
            forall|j: int| 0 <= j < i ==> #[trigger] r@[j].severity == v@[j].severity,
        decreases v@.len() - i,
    {
        let m = BannedPhraseMatch {
            phrase: v[i].phrase.clone(),
            position: v[i].position,
            context: v[i].context.clone(),
            severity: v[i].severity,
        };
        let ghost pre = pm_views(r@);
        r.push(m);
        proof {
            assert(pm_views(r@) =~= pre.push(pm_views(v@)[i as int]));
            assert(pm_views(v@).subrange(0, i + 1) =~= pm_views(v@).subrange(0, i as int).push(
                pm_views(v@)[i as int],
            ));
        }
        i += 1;
    }
    proof {
        assert(pm_views(v@).subrange(0, v@.len() as int) == pm_views(v@));
    }
    r
}

/// Copies a PII-finding list field by field.
fn clone_pii_matches(v: &Vec<PIIPattern>) -> (r: Vec<PIIPattern>)
    ensures
        pii_views(r@) == pii_views(v@),
{
    let mut r: Vec<PIIPattern> = Vec::new();
    let mut i: usize = 0;
    proof {
        assert(pii_views(r@) =~= pii_views(v@).subrange(0, 0));
    }
    while i < v.len()
        invariant
            i <= v@.len(),
            pii_views(r@) == pii_views(v@).subrange(0, i as int),
        decreases v@.len() - i,
    {
        let m = PIIPattern {
            kind: v[i].kind,
            pattern: v[i].pattern.clone(),
            position: v[i].position,
            confidence: v[i].confidence,
        };
        let ghost pre = pii_views(r@);
        r.push(m);
        proof {
            assert(pii_views(r@) =~= pre.push(pii_views(v@)[i as int]));
            assert(pii_views(v@).subrange(0, i + 1) =~= pii_views(v@).subrange(0, i as int).push(
                pii_views(v@)[i as int],
            ));
        }
        i += 1;
    }
    proof {
        assert(pii_views(v@).subrange(0, v@.len() as int) == pii_views(v@));
    }
    r
}

/// Copies a word table entry by entry.
fn clone_word_table(v: &Vec<(Vec<char>, u64)>) -> (r: Vec<(Vec<char>, u64)>)
    ensures
        wc_view(r@) == wc_view(v@),
{
    let mut r: Vec<(Vec<char>, u64)> = Vec::new();
    let mut i: usize = 0;
    proof {
        assert(wc_view(r@) =~= wc_view(v@).subrange(0, 0));
    }
    while i < v.len()
        invariant
            i <= v@.len(),
            wc_view(r@) == wc_view(v@).subrange(0, i as int),
        decreases v@.len() - i,
    {
        let w = clone_chars(&v[i].0);
        let c = v[i].1;
        let ghost pre = wc_view(r@);
        r.push((w, c));
        proof {
            assert(wc_view(r@) =~= pre.push(wc_view(v@)[i as int]));
            assert(wc_view(v@).subrange(0, i + 1) =~= wc_view(v@).subrange(0, i as int).push(
                wc_view(v@)[i as int],
            ));
        }
        i += 1;
    }
    proof {
        assert(wc_view(v@).subrange(0, v@.len() as int) == wc_view(v@));
    }
    r
}

/// Whether the token equals some stopword.
fn is_stopword(w: &Vec<char>, sws: &Vec<String>) -> (r: bool)
    ensures
        r == exists|i: int| 0 <= i < str_views(sws@).len() && str_views(sws@)[i] == w@,
{
    let mut i: usize = 0;
    while i < sws.len()
        invariant
            i <= sws@.len(),
            forall|j: int| 0 <= j < i ==> str_views(sws@)[j] != w@,
        decreases sws@.len() - i,
    {
        let sc = str_to_chars(sws[i].as_str());
        let eq = chars_eq(&sc, w);
        if eq {
            proof {
                assert(str_views(sws@)[i as int] == w@);
            }
            return true;
        }
        i += 1;
    }
    false
}

/// Keeps the table entries whose token is not a stopword.
fn filter_stopwords(tab: &Vec<(Vec<char>, u64)>, sws: &Vec<String>) -> (r: Vec<(Vec<char>, u64)>)
    ensures
        wc_view(r@) == keep_nonstop(wc_view(tab@), str_views(sws@)),
{
    let mut r: Vec<(Vec<char>, u64)> = Vec::new();
    let mut i: usize = 0;
    let ghost es = wc_view(tab@);
    let ghost sv = str_views(sws@);
    proof {
        assert(wc_view(r@) =~= Seq::<(Seq<char>, int)>::empty());
        assert(es.subrange(0, es.len() as int) == es);
    }
    while i < tab.len()
        invariant
            i <= tab@.len(),
            es == wc_view(tab@),
            sv == str_views(sws@),
            wc_view(r@) + keep_nonstop(es.subrange(i as int, es.len() as int), sv) == keep_nonstop(
                es,
                sv,
            ),
        decreases tab@.len() - i,
    {
        let ghost rest = es.subrange(i as int, es.len() as int);
        proof {
            assert(rest[0] == es[i as int]);
            assert(rest.drop_first() =~= es.subrange(i + 1, es.len() as int));
        }
        let stop = is_stopword(&tab[i].0, sws);
        if !stop {
            let w = clone_chars(&tab[i].0);
            let c = tab[i].1;
            let ghost pre = wc_view(r@);
            r.push((w, c));
            proof {
                assert(wc_view(r@) =~= pre.push(es[i as int]));
                assert(keep_nonstop(rest, sv) == seq![es[i as int]] + keep_nonstop(
                    rest.drop_first(),
                    sv,
                ));
                assert(pre.push(es[i as int]) + keep_nonstop(rest.drop_first(), sv) =~= pre + (seq![
                    es[i as int],
                ] + keep_nonstop(rest.drop_first(), sv)));
            }
        } else {
            proof {
                assert(keep_nonstop(rest, sv) == keep_nonstop(rest.drop_first(), sv));
            }
        }
        i += 1;
    }
    proof {
        assert(es.subrange(es.len() as int, es.len() as int) =~= Seq::<(Seq<char>, int)>::empty());
        assert(wc_view(r@) + Seq::<(Seq<char>, int)>::empty() =~= wc_view(r@));
    }
    r
}

} // verus!
