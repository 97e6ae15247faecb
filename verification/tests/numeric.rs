use grounded_guardrails::numeric::{lexeme_from_match, lowercase_multiplier_factor};
use grounded_guardrails::{
    multiplier_factor, normalize_digits, scan_numerics, split_numeric_lexeme,
};

/// Reads each scanned number as a value the way callers do: digits parsed as a decimal,
/// sign applied, multiplied by the multiplier word's factor.
fn values(text: &str) -> Vec<f64> {
    scan_numerics(text)
        .into_iter()
        .filter_map(|n| {
            let v: f64 = n.digits.parse().ok()?;
            let v = if n.negative { -v } else { v };
            Some(v * n.multiplier as f64)
        })
        .collect()
}

#[test]
fn scan_grouped_and_percent() {
    assert_eq!(values("Выручка составила 14,000,000 рублей"), vec![14_000_000.0]);
    assert_eq!(values("Ставка НДС 20%"), vec![20.0]);
    assert_eq!(values("Курс 92.5 ₽/$"), vec![92.5]);
    assert_eq!(values("±0.01"), vec![0.01]);
}

#[test]
fn scan_russian_million_shorthand() {
    assert_eq!(values("Выручка 14 млн"), vec![14_000_000.0]);
    let n = scan_numerics("Выручка 14 млн");
    assert_eq!(n.len(), 1);
    assert_eq!(n[0].raw, "14 млн");
    assert_eq!(n[0].digits, "14");
    assert_eq!(n[0].multiplier, 1_000_000);
    assert_eq!(n[0].start, "Выручка ".len());
    assert_eq!(n[0].end, "Выручка 14 млн".len());
}

#[test]
fn scan_simple_floats() {
    assert_eq!(values("Growth 748.5 cm and 31.8%"), vec![748.5, 31.8]);
}

#[test]
fn scan_no_numbers() {
    assert!(scan_numerics("No digits here").is_empty());
    assert!(scan_numerics("").is_empty());
}

#[test]
fn scan_spans_and_raw() {
    let n = scan_numerics("Margin 72%");
    assert_eq!(n.len(), 1);
    assert_eq!((n[0].start, n[0].end), (7, 10));
    assert_eq!(n[0].raw, "72%");
    assert_eq!(n[0].digits, "72");
    assert!(!n[0].negative);
    assert_eq!(n[0].multiplier, 1);
}

#[test]
fn scan_negative_and_thousand() {
    let n = scan_numerics("loss -3 thousand");
    assert_eq!(n.len(), 1);
    assert!(n[0].negative);
    assert_eq!(n[0].digits, "3");
    assert_eq!(n[0].multiplier, 1_000);
    assert_eq!(n[0].raw, "-3 thousand");
    assert_eq!(values("loss -3 thousand"), vec![-3000.0]);
}

#[test]
fn scan_billion_case_insensitive() {
    assert_eq!(values("2 BILLION"), vec![2_000_000_000.0]);
    assert_eq!(values("5 млрд"), vec![5_000_000_000.0]);
}

#[test]
fn normalize_separator_cases() {
    assert_eq!(normalize_digits("14,000,000").unwrap(), "14000000");
    assert_eq!(normalize_digits("92,5").unwrap(), "92.5");
    assert_eq!(normalize_digits("1.234,56").unwrap(), "1234.56");
    assert_eq!(normalize_digits("1,234.56").unwrap(), "1234.56");
    assert_eq!(normalize_digits("14.000.000").unwrap(), "14000000");
    assert_eq!(normalize_digits("92.5").unwrap(), "92.5");
    assert_eq!(normalize_digits("1,2,3").unwrap(), "123");
    assert_eq!(normalize_digits("1.2.3").unwrap(), "1.2.3");
    assert_eq!(normalize_digits("42").unwrap(), "42");
    assert_eq!(normalize_digits("").unwrap(), "");
}

#[test]
fn split_lexeme_signs_and_percent() {
    assert_eq!(split_numeric_lexeme("±0.01"), (false, "0.01".to_string()));
    assert_eq!(split_numeric_lexeme("+5"), (false, "5".to_string()));
    assert_eq!(split_numeric_lexeme("-3"), (true, "3".to_string()));
    assert_eq!(split_numeric_lexeme("14 %"), (false, "14".to_string()));
    assert_eq!(split_numeric_lexeme(" 1,234.5% "), (false, "1234.5".to_string()));
}

#[test]
fn multiplier_words() {
    assert_eq!(multiplier_factor(" млн"), 1_000_000);
    assert_eq!(multiplier_factor("миллионов"), 1_000_000);
    assert_eq!(multiplier_factor("Million"), 1_000_000);
    assert_eq!(multiplier_factor("тыс."), 1_000);
    assert_eq!(multiplier_factor("тысяча"), 1_000);
    assert_eq!(multiplier_factor("thousand"), 1_000);
    assert_eq!(multiplier_factor("МЛРД"), 1_000_000_000);
    assert_eq!(multiplier_factor("миллиарда"), 1_000_000_000);
    assert_eq!(multiplier_factor("billion"), 1_000_000_000);
    assert_eq!(multiplier_factor("dozen"), 1);
}

#[test]
fn lexeme_from_given_match() {
    let text = "Выручка 14 млн";
    let s = "Выручка ".len();
    let e = s + 2;
    let with_word = lexeme_from_match(text, (s, e), Some((0, " млн".len())));
    assert_eq!(with_word.raw, "14 млн");
    assert_eq!(with_word.end, text.len());
    assert_eq!(with_word.multiplier, 1_000_000);
    assert_eq!(with_word.digits, "14");
    let without = lexeme_from_match(text, (s, e), None);
    assert_eq!(without.raw, "14");
    assert_eq!(without.end, e);
    assert_eq!(without.multiplier, 1);
}

#[test]
fn lowercase_multiplier_words() {
    assert_eq!(lowercase_multiplier_factor("млн"), 1_000_000);
    assert_eq!(lowercase_multiplier_factor("миллиардов"), 1_000_000_000);
    assert_eq!(lowercase_multiplier_factor("thousands"), 1_000);
    assert_eq!(lowercase_multiplier_factor("МЛН"), 1);
    assert_eq!(lowercase_multiplier_factor(""), 1);
}

#[test]
fn sign_prefix_changes_only_the_sign() {
    for raw in ["3", " 14,000 ", "92,5%", "1.234,56"] {
        let (neg, digits) = split_numeric_lexeme(raw);
        assert!(!neg);
        assert_eq!(split_numeric_lexeme(&format!("-{raw}")), (true, digits.clone()));
        assert_eq!(split_numeric_lexeme(&format!("+{raw}")), (false, digits.clone()));
        assert_eq!(split_numeric_lexeme(&format!("±{raw}")), (false, digits));
    }
}

#[test]
fn scan_spans_lie_in_text_in_order() {
    let text = "Выручка 14 млн, рост 5%, долг -3 тыс.";
    let n = scan_numerics(text);
    assert_eq!(n.len(), 3);
    for w in n.windows(2) {
        assert!(w[0].start <= w[1].start);
    }
    for x in &n {
        assert!(x.start <= x.end && x.end <= text.len());
        assert_eq!(&text[x.start..x.end], x.raw);
    }
}
