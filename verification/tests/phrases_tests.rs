use streamscan::phrases::detect_banned_phrases;

#[test]
fn test_basic_phrase_detection() {
    let text = "This document is confidential and should not be shared.";
    let matches = detect_banned_phrases(text);

    assert_eq!(matches.len(), 1);
    assert_eq!(matches[0].phrase, "confidential");
    // "do not share" is not detected because it's not a complete phrase match
}

#[test]
fn test_case_insensitive_detection() {
    let text = "This is CONFIDENTIAL information and DO NOT SHARE it.";
    let matches = detect_banned_phrases(text);

    assert_eq!(matches.len(), 2);
    assert_eq!(matches[0].phrase, "confidential");
    assert_eq!(matches[1].phrase, "do not share");
}

#[test]
fn test_mixed_case_detection() {
    let text = "This is ConfIdEnTiAl and Do NoT sHaRe.";
    let matches = detect_banned_phrases(text);

    assert_eq!(matches.len(), 2);
    assert_eq!(matches[0].phrase, "confidential");
    assert_eq!(matches[1].phrase, "do not share");
}

#[test]
fn test_multiple_occurrences() {
    let text = "confidential document is confidential and do not share this confidential info.";
    let matches = detect_banned_phrases(text);

    assert_eq!(matches.len(), 4); // 3 confidential + 1 do not share
    assert_eq!(matches.iter().filter(|m| m.phrase == "confidential").count(), 3);
    assert_eq!(matches.iter().filter(|m| m.phrase == "do not share").count(), 1);
}

#[test]
fn test_partial_phrase_matches() {
    let text = "This is not confidentiality or sharing.";
    let matches = detect_banned_phrases(text);

    // Should not match partial phrases
    assert_eq!(matches.len(), 0);
}

#[test]
fn test_phrase_boundaries() {
    let text = "confidentialword and wordconfidential";
    let matches = detect_banned_phrases(text);

    // Should not match when phrase is part of another word
    assert_eq!(matches.len(), 0);
}

#[test]
fn test_context_extraction() {
    let text = "This is a long document with confidential information that should be protected.";
    let matches = detect_banned_phrases(text);

    assert_eq!(matches.len(), 1);
    assert!(matches[0].context.contains("confidential"));
    assert!(matches[0].context.len() <= 60); // Allow for longer context
}

#[test]
fn test_context_at_text_boundaries() {
    let text = "confidential";
    let matches = detect_banned_phrases(text);

    assert_eq!(matches.len(), 1);
    assert_eq!(matches[0].context, "confidential");
}

#[test]
fn test_context_at_start() {
    let text = "confidential document";
    let matches = detect_banned_phrases(text);

    assert_eq!(matches.len(), 1);
    assert!(matches[0].context.starts_with("confidential"));
}

#[test]
fn test_context_at_end() {
    let text = "document confidential";
    let matches = detect_banned_phrases(text);

    assert_eq!(matches.len(), 1);
    assert!(matches[0].context.ends_with("confidential"));
}

#[test]
fn phrases_test_position_calculation() {
    let text = "start confidential middle do not share end";
    let matches = detect_banned_phrases(text);

    assert_eq!(matches.len(), 2);
    // Check that we have both phrases
    let phrases: Vec<String> = matches.iter().map(|m| m.phrase.clone()).collect();
    assert!(phrases.contains(&"confidential".to_string()));
    assert!(phrases.contains(&"do not share".to_string()));

    // Check positions
    let confidential_match = matches.iter().find(|m| m.phrase == "confidential").unwrap();
    let do_not_share_match = matches.iter().find(|m| m.phrase == "do not share").unwrap();
    assert_eq!(confidential_match.position, 6);
    assert_eq!(do_not_share_match.position, 26);
}

#[test]
fn test_severity_assignment() {
    let text = "CONFIDENTIAL and confidential";
    let matches = detect_banned_phrases(text);

    assert_eq!(matches.len(), 2);
    // Both should be high severity since they match exactly (case-insensitive)
    assert_eq!(matches[0].severity.label(), "high");
    assert_eq!(matches[1].severity.label(), "high");
}

#[test]
fn phrases_test_empty_text() {
    let text = "";
    let matches = detect_banned_phrases(text);
    assert_eq!(matches.len(), 0);
}

#[test]
fn test_no_matches() {
    let text = "This is a normal document without any banned phrases.";
    let matches = detect_banned_phrases(text);
    assert_eq!(matches.len(), 0);
}

#[test]
fn test_whitespace_handling() {
    let text = "  confidential  \n  do not share  \t";
    let matches = detect_banned_phrases(text);

    assert_eq!(matches.len(), 2);
    assert_eq!(matches[0].phrase, "confidential");
    assert_eq!(matches[1].phrase, "do not share");
}

#[test]
fn phrases_test_punctuation_handling() {
    let text = "confidential, do not share!";
    let matches = detect_banned_phrases(text);

    assert_eq!(matches.len(), 2);
    assert_eq!(matches[0].phrase, "confidential");
    assert_eq!(matches[1].phrase, "do not share");
}

#[test]
fn phrases_test_performance_large_text() {
    // Create a large text with many banned phrases
    let mut text = String::new();
    for i in 0..1000 {
        if i % 10 == 0 {
            text.push_str("confidential ");
        } else if i % 15 == 0 {
            text.push_str("do not share ");
        } else {
            text.push_str("normal text ");
        }
    }

    let start = std::time::Instant::now();
    let matches = detect_banned_phrases(&text);
    let duration = start.elapsed();

    // Should complete within 100ms
    assert!(duration.as_millis() < 100);

    // Should find expected number of matches
    let confidential_count = matches.iter().filter(|m| m.phrase == "confidential").count();
    let do_not_share_count = matches.iter().filter(|m| m.phrase == "do not share").count();

    assert_eq!(confidential_count, 100); // Every 10th word
    assert_eq!(do_not_share_count, 33); // "do not share" should be detected
}

#[test]
fn test_overlapping_phrases() {
    let text = "confidential do not share confidential";
    let matches = detect_banned_phrases(text);

    assert_eq!(matches.len(), 3);
    // Check that we have the expected phrases in any order
    let phrases: Vec<String> = matches.iter().map(|m| m.phrase.clone()).collect();
    assert!(phrases.contains(&"confidential".to_string()));
    assert!(phrases.contains(&"do not share".to_string()));
    assert_eq!(phrases.iter().filter(|p| *p == "confidential").count(), 2);
    assert_eq!(phrases.iter().filter(|p| *p == "do not share").count(), 1);
}

#[test]
fn test_phrase_with_numbers() {
    let text = "confidential123 and 123do not share";
    let matches = detect_banned_phrases(text);

    // Should not match when numbers are attached
    assert_eq!(matches.len(), 0);
}

#[test]
fn test_phrase_with_special_characters() {
    let text = "confidential@#$ and @#$do not share";
    let matches = detect_banned_phrases(text);

    // Special characters do not count as word characters
    assert_eq!(matches.len(), 2);
}

#[test]
fn test_case_variations() {
    let variations = vec![
        "CONFIDENTIAL",
        "Confidential",
        "confidential",
        "cOnFiDeNtIaL",
        "DO NOT SHARE",
        "Do Not Share",
        "do not share",
        "dO nOt ShArE",
    ];

    for text in variations {
        let matches = detect_banned_phrases(text);
        assert!(!matches.is_empty(), "Failed to detect: {}", text);
    }
}
