use streamscan::streaming::{StreamingAnalyzer, StreamingConfig};

#[test]
fn test_streaming_analyzer_init() {
    let analyzer = StreamingAnalyzer::init();
    let stats = analyzer.get_stats();
    assert_eq!(stats.total_chunks, 0);
    assert_eq!(stats.total_content_length, 0);
}

#[test]
fn test_process_chunk() {
    let mut analyzer = StreamingAnalyzer::init();
    let chunk = "This is a test document with confidential information.";

    let result = analyzer.process_chunk(chunk);
    assert!(result.is_ok());
    let stats = analyzer.get_stats();
    assert_eq!(stats.total_chunks, 1);
    assert!(stats.total_content_length > 0);
}

#[test]
fn test_finalize_with_content() {
    let mut analyzer = StreamingAnalyzer::init();
    analyzer.process_chunk("This is a test document.").unwrap();

    let result = analyzer.finalize();
    assert!(result.is_ok());

    let analysis = result.unwrap();
    assert_eq!(analysis.decision.label(), "allow");
    assert!(!analysis.top_words.is_empty());
}

#[test]
fn test_finalize_without_content() {
    let analyzer = StreamingAnalyzer::init();
    let result = analyzer.finalize();
    assert!(result.is_err());
    assert_eq!(result.unwrap_err().message(), "No content processed");
}

#[test]
fn test_banned_phrase_detection() {
    let mut analyzer = StreamingAnalyzer::init();
    analyzer.process_chunk("This document is confidential and should not be shared.").unwrap();

    let result = analyzer.finalize().unwrap();
    assert!(!result.banned_phrases.is_empty());
    // The decision might be "allow" if the risk score is below threshold
    // We just check that banned phrases were detected
    assert!(result.banned_phrases.iter().any(|p| p.phrase == "confidential"));
}

#[test]
fn streaming_test_pii_detection() {
    let mut analyzer = StreamingAnalyzer::init();
    analyzer.process_chunk("My phone number is 1234567890.").unwrap();

    let result = analyzer.finalize().unwrap();
    assert!(!result.pii_patterns.is_empty());
}

#[test]
fn test_custom_config() {
    let config = StreamingConfig {
        stopwords: vec!["custom".to_string()],
        entropy_threshold_millibits: 3000,
        risk_threshold_milli: 300,
        max_words: 5,
        banned_phrases: vec!["secret".to_string()],
    };

    let mut analyzer = StreamingAnalyzer::new(config);
    analyzer.process_chunk("This is a secret document with custom content.").unwrap();

    let result = analyzer.finalize().unwrap();
    assert!(!result.banned_phrases.is_empty());
    assert_eq!(result.decision.label(), "block");
}

#[test]
fn test_get_stats() {
    let mut analyzer = StreamingAnalyzer::init();
    analyzer.process_chunk("Test content").unwrap();
    analyzer.process_chunk("More content").unwrap();

    let stats = analyzer.get_stats();
    assert_eq!(stats.total_chunks, 2);
    assert!(stats.total_content_length > 0);
    assert!(stats.unique_words > 0);
}

// Large File Processing Tests
#[test]
fn test_large_file_streaming_analysis() {
    // Test streaming analysis with a large file (simulated)
    let mut analyzer = StreamingAnalyzer::init();

    // Simulate processing a large file in chunks
    let chunk_size = 1024 * 1024; // 1MB chunks
    let num_chunks = 5; // 5MB total (reduced for testing)

    // Create test data with known patterns
    let test_chunk = create_test_chunk(chunk_size);

    for _ in 0..num_chunks {
        let result = analyzer.process_chunk(&test_chunk);
        assert!(result.is_ok());
    }

    let result = analyzer.finalize();

    // Verify results
    assert!(result.is_ok());
    let analysis = result.unwrap();

    // Should detect patterns across the entire file
    assert!(analysis.banned_phrases.len() > 0);
    assert!(analysis.pii_patterns.len() > 0);
    assert!(analysis.top_words.len() > 0);
}

#[test]
fn test_memory_management_large_files() {
    // Test memory usage during large file processing
    let mut analyzer = StreamingAnalyzer::init();

    // Process multiple large chunks to test memory management
    let chunk_size = 1024 * 1024; // 1MB chunks
    let num_chunks = 10; // 10MB total

    for i in 0..num_chunks {
        let chunk = create_varied_chunk(chunk_size, i);
        let result = analyzer.process_chunk(&chunk);
        assert!(result.is_ok());

        // Check that memory usage remains reasonable
        let stats = analyzer.get_stats();
        assert_eq!(stats.total_chunks, i + 1);
    }

    let result = analyzer.finalize();
    assert!(result.is_ok());
}

#[test]
fn test_error_recovery_during_streaming() {
    // Test error recovery when processing fails mid-stream
    let mut analyzer = StreamingAnalyzer::init();

    // Process some valid chunks
    for _ in 0..5 {
        let chunk = create_test_chunk(1024 * 1024);
        let result = analyzer.process_chunk(&chunk);
        assert!(result.is_ok());
    }

    // Process an empty chunk (should handle gracefully)
    let result = analyzer.process_chunk("");
    assert!(result.is_ok());

    // Continue processing after error
    for _ in 0..5 {
        let chunk = create_test_chunk(1024 * 1024);
        let result = analyzer.process_chunk(&chunk);
        assert!(result.is_ok());
    }

    // Should still be able to finalize
    let result = analyzer.finalize();
    assert!(result.is_ok());
}

#[test]
fn test_streaming_with_custom_config() {
    // Test streaming with custom configuration
    let config = StreamingConfig {
        stopwords: vec!["the".to_string(), "and".to_string(), "or".to_string()],
        entropy_threshold_millibits: 4500,
        risk_threshold_milli: 700,
        max_words: 50,
        banned_phrases: vec!["confidential".to_string(), "secret".to_string()],
    };

    let mut analyzer = StreamingAnalyzer::new(config);

    // Process large file with custom config
    let chunk_size = 1024 * 1024;
    let num_chunks = 5; // 5MB

    for _ in 0..num_chunks {
        let chunk = create_custom_config_test_chunk(chunk_size);
        let result = analyzer.process_chunk(&chunk);
        assert!(result.is_ok());
    }

    let result = analyzer.finalize();
    assert!(result.is_ok());

    let analysis = result.unwrap();

    // Verify custom config was applied
    assert!(analysis.top_words.len() <= 50);

    // Check that stopwords were filtered
    let words: Vec<String> = analysis.top_words.iter().map(|(w, _)| w.clone()).collect();
    assert!(!words.contains(&"the".to_string()));
    assert!(!words.contains(&"and".to_string()));
}

#[test]
fn test_streaming_statistics_tracking() {
    // Test comprehensive statistics tracking during streaming
    let mut analyzer = StreamingAnalyzer::init();

    let chunk_size = 1024 * 1024;
    let num_chunks = 5;

    for i in 0..num_chunks {
        let chunk = create_stats_test_chunk(chunk_size, i);
        let result = analyzer.process_chunk(&chunk);
        assert!(result.is_ok());

        let stats = analyzer.get_stats();

        // Verify statistics are accurate
        assert_eq!(stats.total_chunks, i + 1);
        assert!(stats.total_content_length > 0);
    }

    let final_stats = analyzer.get_stats();
    assert_eq!(final_stats.total_chunks, num_chunks);
}

// Helper functions to create test data
fn create_test_chunk(size: usize) -> String {
    let mut chunk = String::new();
    let words = vec![
        "confidential", "document", "secret", "information",
        "phone", "1234567890", "email", "test@example.com",
        "normal", "text", "content", "data",
    ];

    while chunk.len() < size {
        for word in &words {
            chunk.push_str(word);
            chunk.push(' ');
            if chunk.len() >= size {
                break;
            }
        }
    }

    chunk.truncate(size);
    chunk
}

fn create_varied_chunk(size: usize, chunk_index: u64) -> String {
    let mut chunk = String::new();
    let base_words = vec!["word", "text", "content", "data"];

    // Vary content based on chunk index
    let special_words = if chunk_index % 10 == 0 {
        vec!["confidential", "secret", "private"]
    } else if chunk_index % 5 == 0 {
        vec!["phone", "1234567890", "email", "test@example.com"]
    } else {
        vec![]
    };

    let all_words = [base_words, special_words].concat();

    while chunk.len() < size {
        for word in &all_words {
            chunk.push_str(word);
            chunk.push(' ');
            if chunk.len() >= size {
                break;
            }
        }
    }

    chunk.truncate(size);
    chunk
}

fn create_custom_config_test_chunk(size: usize) -> String {
    let mut chunk = String::new();
    let words = vec![
        "the", "and", "or", "confidential", "secret",
        "important", "document", "information", "data",
    ];

    while chunk.len() < size {
        for word in &words {
            chunk.push_str(word);
            chunk.push(' ');
            if chunk.len() >= size {
                break;
            }
        }
    }

    chunk.truncate(size);
    chunk
}

fn create_stats_test_chunk(size: usize, chunk_index: u64) -> String {
    let mut chunk = String::new();
    let chunk_index_str = chunk_index.to_string();
    let words = vec![
        "stats", "tracking", "chunk", chunk_index_str.as_str(),
        "confidential", "information", "processing",
    ];

    while chunk.len() < size {
        for word in &words {
            chunk.push_str(word);
            chunk.push(' ');
            if chunk.len() >= size {
                break;
            }
        }
    }

    chunk.truncate(size);
    chunk
}
