use streamscan::entropy::calculate_shannon_entropy;
use streamscan::frequency::analyze_word_frequency;
use streamscan::phrases::detect_banned_phrases;
use streamscan::pii::{detect_pii_patterns, is_valid_ip_address, luhn_check, PIIKind};
use streamscan::risk::{calculate_risk_score, decide, generate_reason, AnalysisRequest, Decision};
use streamscan::streaming::{AnalysisError, StreamingAnalyzer, StreamingConfig};
use streamscan::stream_buf::FileStream;
use streamscan::textnorm::{clean_text, normalize_text};
use streamscan::perform_analysis;

#[test]
fn test_entropy_calculation() {
    let normal_text = "This is a normal text with regular words.";
    let entropy = calculate_shannon_entropy(normal_text);
    assert!(entropy > 3000 && entropy < 4500);
}

#[test]
fn test_banned_phrases() {
    let text = "This document is confidential and should not be shared.";
    let matches = detect_banned_phrases(text);
    assert!(!matches.is_empty());
    assert_eq!(matches[0].phrase, "confidential");
}

#[test]
fn test_word_frequency() {
    let text = "hello world hello test world";
    let words = analyze_word_frequency(text, 3);
    assert_eq!(words[0].0, "hello");
    assert_eq!(words[0].1, 2);
}

// Scenario: entropy of a punctuated text equals the entropy of its
// plain form.
#[test]
fn test_entropy_normalization_insensitive() {
    assert_eq!(
        calculate_shannon_entropy("Hello, World!"),
        calculate_shannon_entropy("hello world"),
    );
}

// Scenario: the phrase must stand on word boundaries, and its position
// is counted from the start of the stream.
#[test]
fn test_phrase_boundary_scenarios() {
    assert_eq!(detect_banned_phrases("confidentialword").len(), 0);
    let matches = detect_banned_phrases("This is confidential.");
    assert_eq!(matches.len(), 1);
    assert_eq!(matches[0].position, 8);
}

// Scenario: a phrase cut in two by a chunk boundary is found exactly
// once, at the same global position as in the unsplit stream.
#[test]
fn test_cross_chunk_phrase_detection() {
    let mut split = StreamingAnalyzer::init();
    split.process_chunk("this is confi").unwrap();
    split.process_chunk("dential").unwrap();
    let split_result = split.finalize().unwrap();

    let mut whole = StreamingAnalyzer::init();
    whole.process_chunk("this is confidential").unwrap();
    let whole_result = whole.finalize().unwrap();

    assert_eq!(split_result.banned_phrases.len(), 1);
    assert_eq!(whole_result.banned_phrases.len(), 1);
    assert_eq!(split_result.banned_phrases[0].position, 8);
    assert_eq!(
        split_result.banned_phrases[0].position,
        whole_result.banned_phrases[0].position,
    );
    assert_eq!(split_result.banned_phrases[0].phrase, "confidential");
}

// Scenario: re-chunking leaves entropy, ranked words and the match
// sets unchanged.
#[test]
fn test_chunk_invariance_scenario() {
    let text = "My card 4532015112830366 is confidential data confidential data";
    let mut a = StreamingAnalyzer::init();
    a.process_chunk(text).unwrap();
    let ra = a.finalize().unwrap();

    let mut b = StreamingAnalyzer::init();
    b.process_chunk(&text[..7]).unwrap();
    b.process_chunk(&text[7..19]).unwrap();
    b.process_chunk(&text[19..20]).unwrap();
    b.process_chunk(&text[20..]).unwrap();
    let rb = b.finalize().unwrap();

    assert_eq!(ra.entropy_millibits, rb.entropy_millibits);
    assert_eq!(ra.top_words, rb.top_words);
    let pa: Vec<(String, u64)> =
        ra.banned_phrases.iter().map(|m| (m.phrase.clone(), m.position)).collect();
    let pb: Vec<(String, u64)> =
        rb.banned_phrases.iter().map(|m| (m.phrase.clone(), m.position)).collect();
    assert_eq!(pa, pb);
    let ia: Vec<(String, u64)> =
        ra.pii_patterns.iter().map(|m| (m.pattern.clone(), m.position)).collect();
    let ib: Vec<(String, u64)> =
        rb.pii_patterns.iter().map(|m| (m.pattern.clone(), m.position)).collect();
    assert_eq!(ia, ib);
}

// Scenario: Luhn validation drives the credit-card confidence.
#[test]
fn test_luhn_confidence_scenarios() {
    let valid = detect_pii_patterns("4532015112830366");
    assert_eq!(valid.len(), 1);
    assert_eq!(valid[0].confidence, 950);

    // Same shape, last digit off: the checksum fails.
    let invalid = detect_pii_patterns("4532015112830367");
    assert_eq!(invalid.len(), 1);
    assert_eq!(invalid[0].confidence, 700);

    assert!(luhn_check("4532015112830366"));
    assert!(!luhn_check("4532015112830367"));
}

// Scenario: the risk weights and the decision threshold.
#[test]
fn test_risk_threshold_scenarios() {
    // A banned phrase alone scores 0.4: allowed under the 0.6 default.
    assert_eq!(calculate_risk_score(true, false, 0, 4800), 400);
    assert_eq!(decide(400, 600), Decision::Allow);

    // A banned phrase plus PII scores 0.7: blocked.
    assert_eq!(calculate_risk_score(true, true, 0, 4800), 700);
    assert_eq!(decide(700, 600), Decision::Block);

    // Entropy above the threshold contributes its full 0.2 weight.
    assert_eq!(calculate_risk_score(false, false, 5000, 4800), 200);
}

// Scenario: both banned phrase and PII in the stream block it.
#[test]
fn test_block_decision_end_to_end() {
    let mut analyzer = StreamingAnalyzer::init();
    analyzer.process_chunk("this is confidential and my ssn is 123-45-6789").unwrap();
    let result = analyzer.finalize().unwrap();
    assert!(!result.banned_phrases.is_empty());
    assert!(!result.pii_patterns.is_empty());
    assert!(result.risk_score_milli >= 700);
    assert_eq!(result.decision.label(), "block");
}

// Scenario: a fresh analyzer cannot be finalized.
#[test]
fn test_finalize_empty_stream_error() {
    let analyzer = StreamingAnalyzer::init();
    match analyzer.finalize() {
        Err(AnalysisError::EmptyStream) => {},
        _ => panic!("expected the empty-stream error"),
    }
    // Chunks that carry no bytes leave the stream empty as well.
    let mut empty_chunks = StreamingAnalyzer::init();
    empty_chunks.process_chunk("").unwrap();
    assert!(empty_chunks.finalize().is_err());
}

// A token cut by a chunk boundary is counted once.
#[test]
fn test_cross_chunk_token_counting() {
    let mut analyzer = StreamingAnalyzer::init();
    analyzer.process_chunk("streaming ana").unwrap();
    analyzer.process_chunk("lysis streaming").unwrap();
    let result = analyzer.finalize().unwrap();
    assert!(result.top_words.contains(&("streaming".to_string(), 2)));
    assert!(result.top_words.contains(&("analysis".to_string(), 1)));
}

// Reason strings, clause by clause.
#[test]
fn test_reason_strings() {
    assert_eq!(generate_reason(0, 0, false), "No security concerns detected");
    assert_eq!(generate_reason(2, 0, false), "Found 2 banned phrase(s)");
    assert_eq!(generate_reason(0, 3, false), "Detected 3 PII pattern(s)");
    assert_eq!(
        generate_reason(1, 1, false),
        "Found 1 banned phrase(s); Detected 1 PII pattern(s)",
    );
    assert_eq!(
        generate_reason(1, 1, true),
        "Found 1 banned phrase(s); Detected 1 PII pattern(s); High entropy content detected (possible obfuscation)",
    );
    assert_eq!(
        generate_reason(0, 0, true),
        "High entropy content detected (possible obfuscation)",
    );
}

// update_config changes the read-time stopword filter without
// touching the accumulated counts.
#[test]
fn test_update_config_read_time_stopwords() {
    let permissive = StreamingConfig {
        stopwords: vec![],
        entropy_threshold_millibits: 4800,
        risk_threshold_milli: 600,
        max_words: 10,
        banned_phrases: vec!["confidential".to_string()],
    };
    let mut analyzer = StreamingAnalyzer::new(permissive);
    analyzer.process_chunk("alpha beta alpha").unwrap();
    let before = analyzer.finalize().unwrap();
    assert!(before.top_words.contains(&("alpha".to_string(), 2)));

    let restrictive = StreamingConfig {
        stopwords: vec!["alpha".to_string()],
        entropy_threshold_millibits: 4800,
        risk_threshold_milli: 600,
        max_words: 10,
        banned_phrases: vec!["confidential".to_string()],
    };
    analyzer.update_config(restrictive);
    let after = analyzer.finalize().unwrap();
    assert!(!after.top_words.iter().any(|(w, _)| w == "alpha"));
    assert!(after.top_words.contains(&("beta".to_string(), 1)));
}

// The normalization utilities.
#[test]
fn test_normalize_and_clean_text() {
    assert_eq!(normalize_text("AbC, d-1!"), "abc d1");
    assert_eq!(clean_text("AbC, d-1!"), "AbCd1");
    assert_eq!(normalize_text(""), "");
    assert_eq!(clean_text("!!!"), "");
}

// The standalone IP validator.
#[test]
fn test_is_valid_ip_address() {
    assert!(is_valid_ip_address("192.168.1.1"));
    assert!(is_valid_ip_address("0.0.0.0"));
    assert!(!is_valid_ip_address("256.1.2.3"));
    assert!(!is_valid_ip_address("1.2.3.x"));
    assert!(!is_valid_ip_address(""));
    assert!(!is_valid_ip_address("1..2"));
}

// The byte re-chunker.
#[test]
fn test_file_stream_rechunking() {
    let mut fs = FileStream::new(4);
    assert_eq!(fs.process_chunk(&[1, 2]), Vec::<u8>::new());
    assert_eq!(fs.process_chunk(&[3, 4, 5]), vec![1, 2, 3, 4]);
    assert_eq!(fs.buffer, vec![5]);
    assert_eq!(fs.process_chunk(&[6, 7, 8]), vec![5, 6, 7, 8]);
    assert_eq!(fs.buffer, Vec::<u8>::new());
}

// The one-shot analysis over a whole text.
#[test]
fn test_perform_analysis_one_shot() {
    let request = AnalysisRequest {
        content: "confidential report, call 123-456-7890 today".to_string(),
    };
    let result = perform_analysis(&request);
    assert_eq!(result.banned_phrases.len(), 1);
    assert_eq!(result.pii_patterns.len(), 1);
    assert!(matches!(result.pii_patterns[0].kind, PIIKind::Phone));
    assert_eq!(result.pii_patterns[0].confidence, 900);
    assert!(result.risk_score_milli >= 700);
    assert_eq!(result.decision.label(), "block");
}

// An empty text is analysable in one shot: no signals, allow.
#[test]
fn test_perform_analysis_empty() {
    let request = AnalysisRequest { content: String::new() };
    let result = perform_analysis(&request);
    assert_eq!(result.entropy_millibits, 0);
    assert!(result.banned_phrases.is_empty());
    assert!(result.pii_patterns.is_empty());
    assert_eq!(result.decision.label(), "allow");
    assert_eq!(result.reason, "No security concerns detected");
}

// The email detector caps the local part at 64 characters.
#[test]
fn test_email_local_part_cap() {
    let local64: String = "a".repeat(64);
    let local65: String = "a".repeat(65);
    assert_eq!(detect_pii_patterns(&format!("{}@example.com", local64)).len(), 1);
    assert_eq!(detect_pii_patterns(&format!("{}@example.com", local65)).len(), 0);
}

// A context snippet reaches back across the chunk boundary through
// the carried window.
#[test]
fn test_cross_chunk_context() {
    let mut analyzer = StreamingAnalyzer::init();
    analyzer.process_chunk("aaaaa ").unwrap();
    analyzer.process_chunk("confidential x").unwrap();
    let result = analyzer.finalize().unwrap();
    assert_eq!(result.banned_phrases.len(), 1);
    assert_eq!(result.banned_phrases[0].position, 6);
    assert_eq!(result.banned_phrases[0].context, "aaaaa confidential x");
}

// A PII pattern cut by a chunk boundary is still found.
#[test]
fn test_cross_chunk_pii_detection() {
    let mut analyzer = StreamingAnalyzer::init();
    analyzer.process_chunk("my ssn is 123-4").unwrap();
    analyzer.process_chunk("5-6789 ok").unwrap();
    let result = analyzer.finalize().unwrap();
    assert_eq!(result.pii_patterns.len(), 1);
    assert_eq!(result.pii_patterns[0].pattern, "123-45-6789");
    assert_eq!(result.pii_patterns[0].position, 10);
}
