use rust_advanced_string_generator::generator::RegexGenerator;

#[test]
fn demo_test_increment_ascending() {
    let pattern = r"\i";
    let increment_value = Some("1299".to_string());
    let mut generator = RegexGenerator::new(pattern, increment_value, None);

    let expected_results = vec!["1300", "1301", "1302", "1303", "1304"];
    for expected in expected_results {
        let generated = generator.generate().unwrap();
        assert_eq!(generated, expected);
    }
}

#[test]
fn demo_test_increment_descending() {
    let pattern = r"\i-";
    let increment_value = Some("1300".to_string());
    let mut generator = RegexGenerator::new(pattern, increment_value, None);

    let expected_results = vec!["1299", "1298", "1297", "1296", "1295"];
    for expected in expected_results {
        let generated = generator.generate().unwrap();
        assert_eq!(generated, expected);
    }
}

#[test]
fn demo_test_array_random() {
    let pattern = r"\a";
    let increment_value = None;
    let array_values = Some(vec!["apple".to_string(), "banana".to_string(), "cherry".to_string()]);
    let mut generator = RegexGenerator::new(pattern, increment_value, array_values);

    for _ in 0..5 {
        let generated = generator.generate().unwrap();
        assert!(["apple", "banana", "cherry"].contains(&generated.as_str()));
    }
}

#[test]
fn demo_test_array_ascending() {
    let pattern = r"\a+";
    let increment_value = None;
    let array_values = Some(vec!["apple".to_string(), "banana".to_string(), "cherry".to_string()]);
    let mut generator = RegexGenerator::new(pattern, increment_value, array_values);

    let expected_results = vec!["apple", "banana", "cherry", "apple", "banana"];
    for expected in expected_results {
        let generated = generator.generate().unwrap();
        assert_eq!(generated, expected);
    }
}

#[test]
fn demo_test_array_descending() {
    let pattern = r"\a-";
    let increment_value = None;
    let array_values = Some(vec!["apple".to_string(), "banana".to_string(), "cherry".to_string()]);
    let mut generator = RegexGenerator::new(pattern, increment_value, array_values);

    let expected_results = vec!["cherry", "banana", "apple", "cherry", "banana"];
    for expected in expected_results {
        let generated = generator.generate().unwrap();
        assert_eq!(generated, expected);
    }
}

#[test]
fn demo_test_combined_increment_and_array_ascending() {
    let pattern = r"\a+\i+";
    let increment_value = Some("1299".to_string());
    let array_values = Some(vec!["apple".to_string(), "banana".to_string(), "cherry".to_string()]);
    let mut generator = RegexGenerator::new(pattern, increment_value, array_values);

    let expected_results = vec!["apple1300", "banana1301", "cherry1302", "apple1303", "banana1304"];
    for expected in expected_results {
        let generated = generator.generate().unwrap();
        assert_eq!(generated, expected);
    }
}

#[test]
fn demo_test_combined_increment_and_array_descending() {
    let pattern = r"\a-\i-";
    let increment_value = Some("1304".to_string());
    let array_values = Some(vec!["apple".to_string(), "banana".to_string(), "cherry".to_string()]);
    let mut generator = RegexGenerator::new(pattern, increment_value, array_values);

    let expected_results = vec!["cherry1303", "banana1302", "apple1301", "cherry1300", "banana1299"];
    for expected in expected_results {
        let generated = generator.generate().unwrap();
        assert_eq!(generated, expected);
    }
}

#[test]
fn demo_test_character_classes() {
    let pattern = r"\d\w\s";
    let increment_value = None;
    let mut generator = RegexGenerator::new(pattern, increment_value, None);

    for _ in 0..5 {
        let generated = generator.generate().unwrap();
        assert!(generated.len() == 3);
        assert!(generated.chars().nth(0).unwrap().is_digit(10));
        let w = generated.chars().nth(1).unwrap();
        assert!(w.is_alphanumeric() || w == '_');
        assert!(generated.chars().nth(2).unwrap().is_whitespace());
    }
}

#[test]
fn demo_test_custom_repeat() {
    let pattern = r"\d{2,4}";
    let increment_value = None;
    let mut generator = RegexGenerator::new(pattern, increment_value, None);

    for _ in 0..5 {
        let generated = generator.generate().unwrap();
        assert!(generated.len() >= 2 && generated.len() <= 4);
        assert!(generated.chars().all(|c| c.is_digit(10)));
    }
}

#[test]
fn demo_test_character_ranges() {
    let pattern = r"[a-c]{3}";
    let increment_value = None;
    let mut generator = RegexGenerator::new(pattern, increment_value, None);

    for _ in 0..5 {
        let generated = generator.generate().unwrap();
        assert!(generated.len() == 3);
        assert!(generated.chars().all(|c| c >= 'a' && c <= 'c'));
    }
}

#[test]
fn demo_test_character_negation() {
    let pattern = r"[^a-c]{3}";
    let increment_value = None;
    let mut generator = RegexGenerator::new(pattern, increment_value, None);

    for _ in 0..5 {
        let generated = generator.generate().unwrap();
        assert!(generated.len() == 3);
        assert!(generated.chars().all(|c| c < 'a' || c > 'c'));
    }
}

#[test]
fn demo_test_group_capturing_and_backreference() {
    let pattern = r"(ab)\+(cd)=\2\+\1";
    let increment_value = None;
    let mut generator = RegexGenerator::new(pattern, increment_value, None);

    for _ in 0..5 {
        let generated = generator.generate().unwrap();
        let parts: Vec<&str> = generated.split('=').collect();
        assert_eq!(parts.len(), 2);

        let left_side: Vec<&str> = parts[0].split('+').collect();
        let right_side: Vec<&str> = parts[1].split('+').collect();

        assert_eq!(left_side[1], right_side[0]);
        assert_eq!(left_side[0], right_side[1]);
    }
}
