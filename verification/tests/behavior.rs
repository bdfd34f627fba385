use rust_advanced_string_generator::generator::RegexGenerator;
use rust_advanced_string_generator::model::GenError;

#[test]
fn empty_pattern_emits_nothing() {
    let mut g = RegexGenerator::new("", None, None);
    assert_eq!(g.generate().unwrap(), "");
}

#[test]
fn plain_text_is_copied() {
    let mut g = RegexGenerator::new("hello world", None, None);
    assert_eq!(g.generate().unwrap(), "hello world");
}

#[test]
fn fixed_escapes_are_literal() {
    let mut g = RegexGenerator::new(r"\t\n", None, None);
    assert_eq!(g.generate().unwrap(), "\t\n");
}

#[test]
fn escaped_literal_takes_quantifier() {
    let mut g = RegexGenerator::new(r"\+{3}", None, None);
    assert_eq!(g.generate().unwrap(), "+++");
}

#[test]
fn top_level_pipe_is_literal() {
    let mut g = RegexGenerator::new("a|b", None, None);
    assert_eq!(g.generate().unwrap(), "a|b");
}

#[test]
fn group_alternation_keeps_first_branch() {
    let mut g = RegexGenerator::new("(x|y)z", None, None);
    assert_eq!(g.generate().unwrap(), "xz");
}

#[test]
fn unmatched_close_is_skipped() {
    let mut g = RegexGenerator::new("a)b", None, None);
    assert_eq!(g.generate().unwrap(), "ab");
}

#[test]
fn non_capturing_marker_is_skipped() {
    let mut g = RegexGenerator::new("(?ab)", None, None);
    assert_eq!(g.generate().unwrap(), "ab");
}

#[test]
fn absent_backreference_emits_nothing() {
    let mut g = RegexGenerator::new(r"\5x", None, None);
    assert_eq!(g.generate().unwrap(), "x");
}

#[test]
fn counter_without_seed_is_placeholder() {
    let mut g = RegexGenerator::new(r"\i", None, None);
    assert_eq!(g.generate().unwrap(), "0");
    assert_eq!(g.generate().unwrap(), "0");
}

#[test]
fn counter_keeps_nondigit_prefix() {
    let mut g = RegexGenerator::new(r"\i", Some("v1".to_string()), None);
    assert_eq!(g.generate().unwrap(), "v2");
    assert_eq!(g.generate().unwrap(), "v3");
}

#[test]
fn counter_descends_below_zero() {
    let mut g = RegexGenerator::new(r"\i-", Some("0".to_string()), None);
    assert_eq!(g.generate().unwrap(), "-1");
}

#[test]
fn counter_width_persists_within_a_call() {
    let mut g = RegexGenerator::new(r"\i{:5}\i", Some("7".to_string()), None);
    assert_eq!(g.generate().unwrap(), "0000800009");
}

#[test]
fn counter_direction_persists_when_sign_is_omitted() {
    let mut g = RegexGenerator::new(r"\i-\i", Some("10".to_string()), None);
    assert_eq!(g.generate().unwrap(), "0908");
}

#[test]
fn pool_directive_without_pool_emits_nothing() {
    let mut g = RegexGenerator::new(r"x\a+y", None, None);
    assert_eq!(g.generate().unwrap(), "xy");
}

#[test]
fn empty_pool_emits_nothing() {
    let mut g = RegexGenerator::new(r"x\a+y", None, Some(vec![]));
    assert_eq!(g.generate().unwrap(), "xy");
}

#[test]
fn malformed_quantifier_is_an_error() {
    let mut g = RegexGenerator::new(r"\d{a}", None, None);
    assert_eq!(g.generate(), Err(GenError::MalformedQuantifier));
}

#[test]
fn unterminated_quantifier_is_an_error() {
    let mut g = RegexGenerator::new(r"\d{2", None, None);
    assert_eq!(g.generate(), Err(GenError::MalformedQuantifier));
}

#[test]
fn reversed_quantifier_bounds_are_an_error() {
    let mut g = RegexGenerator::new(r"\d{4,2}", None, None);
    assert_eq!(g.generate(), Err(GenError::MalformedQuantifier));
}

#[test]
fn empty_class_is_an_error() {
    let mut g = RegexGenerator::new("[]", None, None);
    assert_eq!(g.generate(), Err(GenError::EmptyAlphabet));
}

#[test]
fn failing_call_leaves_counter_untouched() {
    let mut g = RegexGenerator::new(r"\i{x", Some("41".to_string()), None);
    assert_eq!(g.generate().unwrap(), "42");
    let mut bad = RegexGenerator::new(r"\i\d{", Some("41".to_string()), None);
    assert_eq!(bad.generate(), Err(GenError::MalformedQuantifier));
    assert_eq!(bad.generate(), Err(GenError::MalformedQuantifier));
}

#[test]
fn seeded_class_draws_are_exact() {
    let mut g = RegexGenerator::new("[a-c]{3}", None, None);
    let draws = vec![0, 1, 2];
    assert_eq!(g.generate_with_draws(&draws).unwrap(), "abc");
}

#[test]
fn seeded_range_count_is_exact() {
    let mut g = RegexGenerator::new(r"\d{2,4}", None, None);
    let draws = vec![1, 3, 7, 9];
    assert_eq!(g.generate_with_draws(&draws).unwrap(), "379");
}

#[test]
fn seeded_numeric_width_is_exact() {
    let mut g = RegexGenerator::new("[0-9]{3:10}", None, None);
    let draws = vec![23];
    assert_eq!(g.generate_with_draws(&draws).unwrap(), "0000000123");
}

#[test]
fn identical_generators_replay_identically() {
    let pool = vec!["ananas".to_string(), "mango".to_string(), "papaya".to_string()];
    let mut g1 = RegexGenerator::new(r"[a-z]{2,6}-\a-\i", Some("99".to_string()), Some(pool.clone()));
    let mut g2 = RegexGenerator::new(r"[a-z]{2,6}-\a-\i", Some("99".to_string()), Some(pool));
    let draws = vec![4, 19, 7, 0, 25, 13, 2, 11, 6];
    for _ in 0..4 {
        let a = g1.generate_with_draws(&draws).unwrap();
        let b = g2.generate_with_draws(&draws).unwrap();
        assert_eq!(a, b);
    }
}

#[test]
fn pool_random_stays_in_pool() {
    let pool = vec!["red".to_string(), "green".to_string(), "blue".to_string()];
    let mut g = RegexGenerator::new(r"\a", None, Some(pool));
    for _ in 0..20 {
        let out = g.generate().unwrap();
        assert!(["red", "green", "blue"].contains(&out.as_str()));
    }
}

#[test]
fn class_range_end_consumes_the_bracket() {
    let mut g = RegexGenerator::new("[a-]x", None, None);
    let out = g.generate().unwrap();
    assert!(out == "a" || out == "x");
}

#[test]
fn counter_sign_and_width_combine() {
    let mut g = RegexGenerator::new(r"\i-{:5}", Some("998".to_string()), None);
    assert_eq!(g.generate().unwrap(), "00997");
    assert_eq!(g.generate().unwrap(), "00996");
}
