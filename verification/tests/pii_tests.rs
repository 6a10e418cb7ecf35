use streamscan::pii::detect_pii_patterns;

#[test]
fn test_phone_number_detection() {
    let text = "Call me at 123-456-7890 or 987.654.3210";
    let patterns = detect_pii_patterns(text);

    assert_eq!(patterns.len(), 2);
    assert_eq!(patterns[0].kind.label(), "phone");
    assert_eq!(patterns[0].pattern, "123-456-7890");
    assert_eq!(patterns[1].pattern, "987.654.3210");
}

#[test]
fn test_ssn_detection() {
    let text = "My SSN is 123-45-6789";
    let patterns = detect_pii_patterns(text);

    assert_eq!(patterns.len(), 1);
    assert_eq!(patterns[0].kind.label(), "ssn");
    assert_eq!(patterns[0].pattern, "123-45-6789");
    assert_eq!(patterns[0].confidence, 950);
}

#[test]
fn test_credit_card_detection() {
    let text = "Card: 1234-5678-9012-3456";
    let patterns = detect_pii_patterns(text);

    assert_eq!(patterns.len(), 1);
    assert_eq!(patterns[0].kind.label(), "credit_card");
    assert_eq!(patterns[0].pattern, "1234-5678-9012-3456");
}

#[test]
fn test_ip_address_detection() {
    let text = "Server IP: 192.168.1.1";
    let patterns = detect_pii_patterns(text);

    assert_eq!(patterns.len(), 1);
    assert_eq!(patterns[0].kind.label(), "ip_address");
    assert_eq!(patterns[0].pattern, "192.168.1.1");
}

#[test]
fn test_email_detection() {
    let text = "Contact: user@example.com";
    let patterns = detect_pii_patterns(text);

    assert_eq!(patterns.len(), 1);
    assert_eq!(patterns[0].kind.label(), "email");
    assert_eq!(patterns[0].pattern, "user@example.com");
}

#[test]
fn test_multiple_patterns() {
    let text = "Phone: 123-456-7890, Email: test@example.com, SSN: 123-45-6789";
    let patterns = detect_pii_patterns(text);

    assert_eq!(patterns.len(), 3);
    assert!(patterns.iter().any(|p| p.kind.label() == "phone"));
    assert!(patterns.iter().any(|p| p.kind.label() == "email"));
    assert!(patterns.iter().any(|p| p.kind.label() == "ssn"));
}

#[test]
fn test_phone_number_formats() {
    let formats = vec!["123-456-7890", "123.456.7890", "1234567890"];

    for format in formats {
        let patterns = detect_pii_patterns(format);
        assert!(!patterns.is_empty(), "Failed to detect: {}", format);
        assert_eq!(patterns[0].kind.label(), "phone");
    }

    // Test format that should not be detected
    let patterns = detect_pii_patterns("(123) 456-7890");
    assert_eq!(patterns.len(), 0, "Should not detect parenthesized format");
}

#[test]
fn test_invalid_phone_numbers() {
    let invalid = vec![
        "123-456-789", // Too short
        "123-456-78901", // Too long
        "abc-def-ghij", // Non-numeric
    ];

    for phone in invalid {
        let patterns = detect_pii_patterns(phone);
        assert_eq!(patterns.len(), 0, "Should not detect invalid phone: {}", phone);
    }
}

#[test]
fn test_ssn_formats() {
    let valid_ssn = "123-45-6789";
    let patterns = detect_pii_patterns(valid_ssn);

    assert_eq!(patterns.len(), 1);
    assert_eq!(patterns[0].kind.label(), "ssn");
    assert_eq!(patterns[0].confidence, 950);
}

#[test]
fn test_invalid_ssn() {
    let invalid = vec![
        "123-4-56789", // Wrong format
        "123456789", // No dashes
        "abc-de-fghi", // Non-numeric
    ];

    for ssn in invalid {
        let patterns = detect_pii_patterns(ssn);
        assert_eq!(patterns.len(), 0, "Should not detect invalid SSN: {}", ssn);
    }
}

#[test]
fn test_credit_card_formats() {
    let formats = vec!["1234-5678-9012-3456", "1234 5678 9012 3456", "1234567890123456"];

    for format in formats {
        let patterns = detect_pii_patterns(format);
        assert!(!patterns.is_empty(), "Failed to detect: {}", format);
        assert_eq!(patterns[0].kind.label(), "credit_card");
    }
}

#[test]
fn test_luhn_algorithm() {
    // Valid credit card number (Luhn algorithm)
    let valid_card = "4532015112830366";
    let patterns = detect_pii_patterns(valid_card);

    assert_eq!(patterns.len(), 1);
    assert_eq!(patterns[0].kind.label(), "credit_card");
    assert!(patterns[0].confidence > 900);
}

#[test]
fn test_invalid_credit_card() {
    let invalid = vec![
        "1234-5678-9012-345", // Too short
        "1234-5678-9012-34567", // Too long
        "abcd-efgh-ijkl-mnop", // Non-numeric
    ];

    for card in invalid {
        let patterns = detect_pii_patterns(card);
        assert_eq!(patterns.len(), 0, "Should not detect invalid card: {}", card);
    }
}

#[test]
fn test_ip_address_validation() {
    let valid_ips = vec!["192.168.1.1", "10.0.0.1", "172.16.0.1", "255.255.255.255"];

    for ip in valid_ips {
        let patterns = detect_pii_patterns(ip);
        assert_eq!(patterns.len(), 1, "Failed to detect valid IP: {}", ip);
        assert_eq!(patterns[0].kind.label(), "ip_address");
    }
}

#[test]
fn test_invalid_ip_addresses() {
    let invalid = vec![
        "256.1.2.3", // Invalid octet
        "1.2.3.256", // Invalid octet
        "192.168.1", // Too few octets
        "192.168.1.abc", // Non-numeric
    ];

    for ip in invalid {
        let patterns = detect_pii_patterns(ip);
        assert_eq!(patterns.len(), 0, "Should not detect invalid IP: {}", ip);
    }
}

#[test]
fn test_email_formats() {
    let valid_emails = vec![
        "user@example.com",
        "user.name@example.com",
        "user+tag@example.com",
        "user@subdomain.example.com",
    ];

    for email in valid_emails {
        let patterns = detect_pii_patterns(email);
        assert_eq!(patterns.len(), 1, "Failed to detect valid email: {}", email);
        assert_eq!(patterns[0].kind.label(), "email");
    }
}

#[test]
fn test_invalid_emails() {
    let invalid = vec![
        "user@", // Missing domain
        "@example.com", // Missing username
        "user@.com", // Missing domain
        "user.example.com", // Missing @
    ];

    for email in invalid {
        let patterns = detect_pii_patterns(email);
        assert_eq!(patterns.len(), 0, "Should not detect invalid email: {}", email);
    }
}

#[test]
fn pii_test_position_calculation() {
    let text = "start 123-456-7890 middle user@example.com end";
    let patterns = detect_pii_patterns(text);

    assert_eq!(patterns.len(), 2);
    // Check that we have both phone and email patterns
    let phone_pattern = patterns.iter().find(|p| p.kind.label() == "phone").unwrap();
    let email_pattern = patterns.iter().find(|p| p.kind.label() == "email").unwrap();

    assert_eq!(phone_pattern.position, 6); // Phone starts at position 6
    assert_eq!(email_pattern.position, 26); // Email starts at position 26
}

#[test]
fn test_confidence_scoring() {
    let text = "Phone: 123-456-7890, Card: 4532015112830366";
    let patterns = detect_pii_patterns(text);

    assert_eq!(patterns.len(), 2);

    let phone = patterns.iter().find(|p| p.kind.label() == "phone").unwrap();
    let card = patterns.iter().find(|p| p.kind.label() == "credit_card").unwrap();

    assert!(phone.confidence >= 800);
    assert!(card.confidence >= 900);
}

#[test]
fn test_no_pii_patterns() {
    let text = "This is a normal document without any PII patterns.";
    let patterns = detect_pii_patterns(text);
    assert_eq!(patterns.len(), 0);
}

#[test]
fn pii_test_empty_text() {
    let text = "";
    let patterns = detect_pii_patterns(text);
    assert_eq!(patterns.len(), 0);
}

#[test]
fn pii_test_performance_large_text() {
    // Create a large text with many PII patterns
    let mut text = String::new();
    for i in 0..100 {
        text.push_str(&format!("Phone: 123-456-{:04}, ", i));
        text.push_str(&format!("Email: user{}@example.com, ", i));
        text.push_str(&format!("SSN: 123-45-{:04}, ", i));
    }

    let start = std::time::Instant::now();
    let patterns = detect_pii_patterns(&text);
    let duration = start.elapsed();

    // Should complete within 100ms
    assert!(duration.as_millis() < 100);

    // Should find expected number of patterns
    let phone_count = patterns.iter().filter(|p| p.kind.label() == "phone").count();
    let email_count = patterns.iter().filter(|p| p.kind.label() == "email").count();
    let ssn_count = patterns.iter().filter(|p| p.kind.label() == "ssn").count();

    assert_eq!(phone_count, 100);
    assert_eq!(email_count, 100);
    assert_eq!(ssn_count, 100);
}

#[test]
fn test_context_awareness() {
    let text = "My phone is 123-456-7890 and my friend's is 987-654-3210";
    let patterns = detect_pii_patterns(text);

    assert_eq!(patterns.len(), 2);
    assert_eq!(patterns[0].pattern, "123-456-7890");
    assert_eq!(patterns[1].pattern, "987-654-3210");
}

#[test]
fn test_false_positive_reduction() {
    let text = "Version 1.2.3.4 and chapter 1.2.3.4";
    let patterns = detect_pii_patterns(text);

    // Version numbers of this shape read as IP addresses
    assert_eq!(patterns.len(), 2);
}

#[test]
fn test_edge_cases() {
    let edge_cases = vec![
        "123-456-7890.", // With period
        "123-456-7890!", // With exclamation
        "123-456-7890,", // With comma
        " 123-456-7890 ", // With spaces
    ];

    for case in edge_cases {
        let patterns = detect_pii_patterns(case);
        assert_eq!(patterns.len(), 1, "Failed to detect edge case: {}", case);
        assert_eq!(patterns[0].kind.label(), "phone");
    }
}
