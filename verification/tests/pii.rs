use grounded_guardrails::pii::{matches_at, sort_by_span};
use grounded_guardrails::PiiMatch;
use grounded_guardrails::pii::{mask_credit_card, mask_email, mask_phone, mask_ssn};
use grounded_guardrails::{PiiDetector, PiiType};

#[test]
fn detects_emails() {
    let d = PiiDetector::new();
    let m = d.detect("Contact user@example.com please");
    assert_eq!(m.len(), 1);
    assert_eq!(m[0].pii_type, PiiType::Email);
    assert_eq!(m[0].masked, "u***@example.com");

    let m2 = d.detect("mail first.last+tag@sub.domain.co.uk ok");
    assert!(m2.iter().any(|x| x.pii_type == PiiType::Email));
}

#[test]
fn detects_phones() {
    let d = PiiDetector::new();
    assert!(d.contains_pii("Call +1 (555) 123-4567 now"));
    assert!(d.contains_pii("Call 555.123.4567 now"));
    assert!(d.contains_pii("Call +7 999 123-45-67 now"));
}

#[test]
fn detects_ssn_and_card() {
    let d = PiiDetector::new();
    let ssn = d.detect("SSN 123-45-6789");
    assert_eq!(ssn.len(), 1);
    assert_eq!(ssn[0].pii_type, PiiType::Ssn);
    assert_eq!(ssn[0].masked, "***-**-6789");

    let card = d.detect("card 4111 1111 1111 1111");
    assert_eq!(card.len(), 1);
    assert_eq!(card[0].pii_type, PiiType::CreditCard);
    assert!(d.contains_pii("4111111111111111"));
}

#[test]
fn false_positives_versions_and_order_ids() {
    let d = PiiDetector::new();
    assert!(!d.contains_pii("version 1.2.3 released"));
    assert!(!d.contains_pii("order #123-456 shipped"));
    assert!(!d.contains_pii("build 2024.07.27"));
}

#[test]
fn email_match_offsets_and_mask() {
    let d = PiiDetector::new();
    let m = d.detect("Contact user@example.com please");
    assert_eq!((m[0].start, m[0].end), (8, 24));
}

#[test]
fn phone_masks_keep_last_four() {
    let d = PiiDetector::new();
    let m = d.detect("Call +1 (555) 123-4567 now");
    assert_eq!(m.len(), 1);
    assert_eq!(m[0].pii_type, PiiType::Phone);
    assert_eq!(m[0].masked, "***-***-4567");
}

#[test]
fn card_mask_keeps_last_four() {
    let d = PiiDetector::new();
    let card = d.detect("card 4111 1111 1111 1234");
    assert_eq!(card[0].masked, "**** **** **** 1234");
}

#[test]
fn detect_orders_by_offset() {
    let d = PiiDetector::new();
    let m = d.detect("SSN 123-45-6789 then mail a@b.co then 555.123.4567");
    let kinds: Vec<_> = m.iter().map(|x| x.pii_type).collect();
    assert_eq!(kinds, vec![PiiType::Ssn, PiiType::Email, PiiType::Phone]);
    for w in m.windows(2) {
        assert!((w[0].start, w[0].end) <= (w[1].start, w[1].end));
    }
}

#[test]
fn detect_is_nonempty_exactly_when_contains_pii() {
    let d = PiiDetector::new();
    for text in [
        "nothing here",
        "user@example.com",
        "version 1.2.3",
        "555.123.4567",
        "order #123-456",
        "4111-1111-1111-1111",
        "",
    ] {
        assert_eq!(d.contains_pii(text), !d.detect(text).is_empty(), "{text}");
    }
}

#[test]
fn offsets_are_bytes_in_non_ascii_text() {
    let d = PiiDetector::new();
    let text = "Почта: user@example.com";
    let m = d.detect(text);
    assert_eq!(m.len(), 1);
    assert_eq!(&text[m[0].start..m[0].end], "user@example.com");
}

#[test]
fn mask_helpers_edge_cases() {
    assert_eq!(mask_email("no-at-sign"), "***");
    assert_eq!(mask_email("@domain.org"), "****@domain.org");
    assert_eq!(mask_email("a@b@c"), "a***@b@c");
    assert_eq!(mask_phone("12"), "***");
    assert_eq!(mask_phone("(555) 123-4567"), "***-***-4567");
    assert_eq!(mask_ssn("1-2"), "***-**-****");
    assert_eq!(mask_ssn("123-45-6789"), "***-**-6789");
    assert_eq!(mask_credit_card("12"), "**** **** **** ****");
    assert_eq!(mask_credit_card("4111111111119876"), "**** **** **** 9876");
}

#[test]
fn pii_type_names() {
    assert_eq!(PiiType::Email.as_str(), "email");
    assert_eq!(PiiType::Phone.as_str(), "phone");
    assert_eq!(PiiType::Ssn.as_str(), "ssn");
    assert_eq!(PiiType::CreditCard.as_str(), "credit_card");
}

#[test]
fn empty_text_has_no_pii() {
    let d = PiiDetector::default();
    assert!(d.detect("").is_empty());
    assert!(!d.contains_pii(""));
}

#[test]
fn matches_at_given_spans() {
    let text = "SSN 123-45-6789 and 987-65-4321";
    let m = matches_at(text, PiiType::Ssn, &vec![(4, 15), (20, 31)]);
    assert_eq!(m.len(), 2);
    assert_eq!((m[0].start, m[0].end, m[0].masked.as_str()), (4, 15, "***-**-6789"));
    assert_eq!((m[1].start, m[1].end, m[1].masked.as_str()), (20, 31, "***-**-4321"));
    assert!(matches_at(text, PiiType::Email, &vec![]).is_empty());
}

#[test]
fn sort_by_span_is_stable() {
    let mk = |t, s, e, m: &str| PiiMatch { pii_type: t, start: s, end: e, masked: m.to_string() };
    let items = vec![
        mk(PiiType::Email, 10, 20, "a"),
        mk(PiiType::Phone, 0, 5, "b"),
        mk(PiiType::Ssn, 10, 20, "c"),
        mk(PiiType::CreditCard, 10, 15, "d"),
    ];
    let sorted = sort_by_span(items);
    let names: Vec<_> = sorted.iter().map(|m| m.masked.as_str()).collect();
    assert_eq!(names, vec!["b", "d", "a", "c"]);
}

#[test]
fn same_kind_matches_do_not_overlap() {
    let d = PiiDetector::new();
    let m = d.detect("a@b.co 123-45-6789 c@d.org 987-65-4321 555.123.4567");
    for i in 0..m.len() {
        for j in (i + 1)..m.len() {
            if m[i].pii_type == m[j].pii_type {
                assert!(m[i].end <= m[j].start);
            }
        }
    }
    assert_eq!(m.iter().filter(|x| x.pii_type == PiiType::Email).count(), 2);
    assert_eq!(m.iter().filter(|x| x.pii_type == PiiType::Ssn).count(), 2);
}
