//! PII detection and masking for streaming / post-hoc text checks.
//!
//! Four kinds of personally identifiable information are recognised, each by a regular
//! expression: e-mail addresses, phone numbers (North American and Russian forms), US social
//! security numbers and 16-digit card numbers. [`PiiDetector::detect`] reports every match
//! with a redacted form; [`PiiDetector::contains_pii`] is the boolean gate for the hot path.

use vstd::prelude::*;
use vstd::string::StringSliceAdditionalSpecFns;
use vstd::utf8::*;

use crate::pattern::{
    find_spans, has_match, regex_find_spans, span_in, spans_successive, spans_within,
};
use crate::text::{
    ascii_digit, byte_slice, lemma_filter_keeps_all, chars_of, is_ascii_digit, is_ascii_digit_char, push_char,
    string_with_suffix,
};

verus! {

broadcast use vstd::seq_lib::group_seq_properties;

/// E-mail addresses (case-insensitive).
pub const EMAIL_PATTERN: &'static str = r"(?i)\b[A-Z0-9._%+\-]+@[A-Z0-9.\-]+\.[A-Z]{2,}\b";

/// North American and Russian phone numbers; enough digits are required to leave short
/// order IDs alone.
pub const PHONE_PATTERN: &'static str = r"(?x)
        (?:
            \+\s*1[\s.\-]*\(\s*\d{3}\s*\)[\s.\-]*\d{3}[\s.\-]*\d{4}
          | \+\s*7[\s.\-]*\d{3}[\s.\-]*\d{3}[\s.\-]*\d{2}[\s.\-]*\d{2}
          | \b\d{3}[.\-]\d{3}[.\-]\d{4}\b
          | \b\(\d{3}\)\s*\d{3}[\s.\-]*\d{4}\b
        )";

/// US social security numbers `ddd-dd-dddd`.
pub const SSN_PATTERN: &'static str = r"\b\d{3}-\d{2}-\d{4}\b";

/// 16-digit card numbers, plain or in groups of four.
pub const CREDIT_CARD_PATTERN: &'static str = r"(?x)
        \b(?:
            \d{4}[\s\-]\d{4}[\s\-]\d{4}[\s\-]\d{4}
          | \d{16}
        )\b";

/// Kind of personally identifiable information detected.
#[derive(Debug, Clone, Copy, PartialEq, Eq, Structural)]
pub enum PiiType {
    Email,
    Phone,
    Ssn,
    CreditCard,
}

/// The display name of a kind.
pub open spec fn pii_type_name(t: PiiType) -> Seq<char> {
    match t {
        PiiType::Email => "email"@,
        PiiType::Phone => "phone"@,
        PiiType::Ssn => "ssn"@,
        PiiType::CreditCard => "credit_card"@,
    }
}

/// The regular expression that recognises a kind.
pub open spec fn pattern_of(t: PiiType) -> Seq<char> {
    match t {
        PiiType::Email => EMAIL_PATTERN@,
        PiiType::Phone => PHONE_PATTERN@,
        PiiType::Ssn => SSN_PATTERN@,
        PiiType::CreditCard => CREDIT_CARD_PATTERN@,
    }
}

impl PiiType {
    /// The display name: `email`, `phone`, `ssn` or `credit_card`.
    pub fn as_str(self) -> (s: &'static str)
        ensures
            s@ == pii_type_name(self),
    {
        match self {
            PiiType::Email => "email",
            PiiType::Phone => "phone",
            PiiType::Ssn => "ssn",
            PiiType::CreditCard => "credit_card",
        }
    }

    /// The regular expression that recognises this kind.
    fn pattern(self) -> (p: &'static str)
        ensures
            p@ == pattern_of(self),
    {
        match self {
            PiiType::Email => EMAIL_PATTERN,
            PiiType::Phone => PHONE_PATTERN,
            PiiType::Ssn => SSN_PATTERN,
            PiiType::CreditCard => CREDIT_CARD_PATTERN,
        }
    }
}

/// A single PII span with a redacted display form.
#[derive(Debug, Clone, PartialEq, Eq)]
pub struct PiiMatch {
    pub pii_type: PiiType,
    /// Byte offset of the start of the match.
    pub start: usize,
    /// Byte offset just past the end of the match.
    pub end: usize,
    /// Redacted form, e.g. `j***@example.com`.
    pub masked: String,
}

/// The abstract value of a [`PiiMatch`]: the masked form as a character sequence.
pub struct PiiSpan {
    pub pii_type: PiiType,
    pub start: usize,
    pub end: usize,
    pub masked: Seq<char>,
}

impl View for PiiMatch {
    type V = PiiSpan;

    open spec fn view(&self) -> PiiSpan {
        PiiSpan { pii_type: self.pii_type, start: self.start, end: self.end, masked: self.masked@ }
    }
}

/// The abstract values of a list of matches.
pub open spec fn spans_of(v: Seq<PiiMatch>) -> Seq<PiiSpan> {
    v.map_values(|m: PiiMatch| m@)
}

/// Index of the first `'@'` in `s`, which must hold one.
pub open spec fn first_at(s: Seq<char>) -> int {
    choose|i: int| 0 <= i < s.len() && s[i] == '@' && forall|j: int| 0 <= j < i ==> s[j] != '@'
}

/// Redacted e-mail: the first character of the local part (`*` when it is empty), `***@`,
/// then the domain; `***` when there is no `@`.
pub open spec fn email_mask(raw: Seq<char>) -> Seq<char> {
    if raw.contains('@') {
        let i = first_at(raw);
        let first = if i > 0 {
            raw[0]
        } else {
            '*'
        };
        seq![first] + "***@"@ + raw.skip(i + 1)
    } else {
        "***"@
    }
}

/// The ASCII digits of `raw`, in order.
pub open spec fn ascii_digits(raw: Seq<char>) -> Seq<char> {
    raw.filter(ascii_digit())
}

/// The last four characters of `d`.
pub open spec fn last_four(d: Seq<char>) -> Seq<char> {
    d.skip(d.len() - 4)
}

/// Redacted phone number: `***-***-` and the last four digits; `***` when it has fewer.
pub open spec fn phone_mask(raw: Seq<char>) -> Seq<char> {
    let d = ascii_digits(raw);
    if d.len() < 4 {
        "***"@
    } else {
        "***-***-"@ + last_four(d)
    }
}

/// Redacted SSN: `***-**-` and the last four digits; `***-**-****` when it has fewer.
pub open spec fn ssn_mask(raw: Seq<char>) -> Seq<char> {
    let d = ascii_digits(raw);
    if d.len() >= 4 {
        "***-**-"@ + last_four(d)
    } else {
        "***-**-****"@
    }
}

/// Redacted card number: `**** **** **** ` and the last four digits; all stars when it has
/// fewer.
pub open spec fn credit_card_mask(raw: Seq<char>) -> Seq<char> {
    let d = ascii_digits(raw);
    if d.len() >= 4 {
        "**** **** **** "@ + last_four(d)
    } else {
        "**** **** **** ****"@
    }
}

/// The redacted form of a match of the given kind.
pub open spec fn mask_of(t: PiiType, raw: Seq<char>) -> Seq<char> {
    match t {
        PiiType::Email => email_mask(raw),
        PiiType::Phone => phone_mask(raw),
        PiiType::Ssn => ssn_mask(raw),
        PiiType::CreditCard => credit_card_mask(raw),
    }
}

/// The text between two byte offsets of `text`.
pub open spec fn text_between(text: Seq<char>, start: usize, end: usize) -> Seq<char> {
    decode_utf8(encode_utf8(text).subrange(start as int, end as int))
}

/// The match of kind `t` at byte span `sp` of `text`, with its redacted form.
pub open spec fn span_match(text: Seq<char>, t: PiiType, sp: (usize, usize)) -> PiiSpan {
    PiiSpan {
        pii_type: t,
        start: sp.0,
        end: sp.1,
        masked: mask_of(t, text_between(text, sp.0, sp.1)),
    }
}

/// The matches of one kind in `text`, in the order the pattern reports them.
pub open spec fn kind_matches(text: Seq<char>, t: PiiType) -> Seq<PiiSpan> {
    regex_find_spans(pattern_of(t), text).map_values(|sp: (usize, usize)| span_match(text, t, sp))
}

/// All matches in `text` before ordering: e-mails, phones, SSNs, then cards.
pub open spec fn pii_candidates(text: Seq<char>) -> Seq<PiiSpan> {
    kind_matches(text, PiiType::Email) + kind_matches(text, PiiType::Phone) + kind_matches(
        text,
        PiiType::Ssn,
    ) + kind_matches(text, PiiType::CreditCard)
}

/// Whether some pattern matches in `text`.
pub open spec fn pii_present(text: Seq<char>) -> bool {
    ||| regex_find_spans(pattern_of(PiiType::Email), text).len() > 0
    ||| regex_find_spans(pattern_of(PiiType::Phone), text).len() > 0
    ||| regex_find_spans(pattern_of(PiiType::Ssn), text).len() > 0
    ||| regex_find_spans(pattern_of(PiiType::CreditCard), text).len() > 0
}

/// `a` comes no later than `b` in `(start, end)` order.
pub open spec fn span_le(a: PiiSpan, b: PiiSpan) -> bool {
    a.start < b.start || (a.start == b.start && a.end <= b.end)
}

/// The predicate "has the span `k`".
pub open spec fn has_span(k: (usize, usize)) -> spec_fn(PiiSpan) -> bool {
    |m: PiiSpan| m.start == k.0 && m.end == k.1
}

/// Ordered by `(start, end)`.
pub open spec fn sorted_by_span(s: Seq<PiiSpan>) -> bool {
    forall|i: int, j: int| 0 <= i < j < s.len() ==> span_le(#[trigger] s[i], #[trigger] s[j])
}

/// `out` is `input` sorted stably by `(start, end)`: ordered, and the matches sharing each
/// span keep their relative order.
pub open spec fn stable_sorted_by_span(out: Seq<PiiSpan>, input: Seq<PiiSpan>) -> bool {
    &&& out.len() == input.len()
    &&& sorted_by_span(out)
    &&& forall|k: (usize, usize)| #[trigger] out.filter(has_span(k)) == input.filter(has_span(k))
}

/// Redacts an e-mail address.
pub fn mask_email(raw: &str) -> (m: String)
    ensures
        m@ == email_mask(raw@),
{
    let v = chars_of(raw);
    let mut i: usize = 0;
    while i < v.len() && v[i] != '@'
        invariant
            i <= v.len(),
            forall|j: int| 0 <= j < i ==> v@[j] != '@',
        decreases v.len() - i,
    {
        i = i + 1;
    }
    if i == v.len() {
        proof {
            assert(!raw@.contains('@'));
        }
        return String::from_str("***");
    }
    proof {
        assert(raw@.contains('@'));
        let f = first_at(raw@);
        assert(0 <= f < v.len() && v@[f] == '@' && forall|j: int| 0 <= j < f ==> v@[j] != '@');
        if f < i {
            assert(v@[f] != '@');
        }
        if i < f {
            assert(v@[i as int] != '@');
        }
        assert(f == i);
    }
    let first = if i > 0 {
        v[0]
    } else {
        '*'
    };
    let mut m = String::new();
    push_char(&mut m, first);
    m.append("***@");
    let mut j = i + 1;
    while j < v.len()
        invariant
            i < j <= v.len(),
            m@ =~= seq![first] + "***@"@ + v@.subrange(i + 1, j as int),
        decreases v.len() - j,
    {
        push_char(&mut m, v[j]);
        j = j + 1;
    }
    proof {
        assert(v@.subrange(i + 1, v.len() as int) =~= raw@.skip(i + 1));
    }
    m
}

/// The ASCII digits of `raw`, in order.
fn digits_of(raw: &str) -> (d: Vec<char>)
    ensures
        d@ == ascii_digits(raw@),
{
    let v = chars_of(raw);
    let mut d: Vec<char> = Vec::new();
    let mut i: usize = 0;
    while i < v.len()
        invariant
            i <= v.len(),
            v@ == raw@,
            d@ == v@.take(i as int).filter(ascii_digit()),
        decreases v.len() - i,
    {
        proof {
            assert(v@.take(i + 1) =~= v@.take(i as int).push(v@[i as int]));
            v@.take(i as int).lemma_filter_push(v@[i as int], ascii_digit());
        }
        if is_ascii_digit_char(v[i]) {
            d.push(v[i]);
        }
        i = i + 1;
    }
    proof {
        assert(v@.take(i as int) =~= v@);
    }
    d
}

/// `prefix` followed by the last four characters of `d`, which holds at least four.
fn with_last_four(prefix: &str, d: &Vec<char>) -> (s: String)
    requires
        d.len() >= 4,
    ensures
        s@ == prefix@ + last_four(d@),
{
    let tail = crate::text::sub_chars(d, d.len() - 4, d.len());
    proof {
        assert(tail@ =~= last_four(d@));
    }
    string_with_suffix(prefix, &tail)
}

/// Redacts a phone number, keeping its last four digits.
pub fn mask_phone(raw: &str) -> (m: String)
    ensures
        m@ == phone_mask(raw@),
{
    let digits = digits_of(raw);
    if digits.len() < 4 {
        return String::from_str("***");
    }
    with_last_four("***-***-", &digits)
}

/// Redacts a social security number, keeping its last four digits.
pub fn mask_ssn(raw: &str) -> (m: String)
    ensures
        m@ == ssn_mask(raw@),
{
    let digits = digits_of(raw);
    if digits.len() >= 4 {
        with_last_four("***-**-", &digits)
    } else {
        String::from_str("***-**-****")
    }
}

/// Redacts a card number, keeping its last four digits.
pub fn mask_credit_card(raw: &str) -> (m: String)
    ensures
        m@ == credit_card_mask(raw@),
{
    let digits = digits_of(raw);
    if digits.len() >= 4 {
        with_last_four("**** **** **** ", &digits)
    } else {
        String::from_str("**** **** **** ****")
    }
}

/// Redacts a match of the given kind.
fn mask(pii_type: PiiType, raw: &str) -> (m: String)
    ensures
        m@ == mask_of(pii_type, raw@),
{
    match pii_type {
        PiiType::Email => mask_email(raw),
        PiiType::Phone => mask_phone(raw),
        PiiType::Ssn => mask_ssn(raw),
        PiiType::CreditCard => mask_credit_card(raw),
    }
}

/// The matches of kind `pii_type` at the given byte spans of `text`, each with its
/// redacted form. The spans must lie in `text` on character boundaries.
pub fn matches_at(text: &str, pii_type: PiiType, spans: &Vec<(usize, usize)>) -> (out: Vec<
    PiiMatch,
>)
    requires
        spans_within(spans@, text),
    ensures
        spans_of(out@) == spans@.map_values(|sp: (usize, usize)| span_match(text@, pii_type, sp)),
        forall|i: int| 0 <= i < out.len() ==> span_in(text@, ((#[trigger] out[i]).start, out[i].end)),
{
    let ghost found = spans@.map_values(|sp: (usize, usize)| span_match(text@, pii_type, sp));
    let mut out: Vec<PiiMatch> = Vec::new();
    let mut i: usize = 0;
    while i < spans.len()
        invariant
            i <= spans.len(),
            spans_within(spans@, text),
            found == spans@.map_values(|sp: (usize, usize)| span_match(text@, pii_type, sp)),
            spans_of(out@) =~= found.take(i as int),
        decreases spans.len() - i,
    {
        let (start, end) = spans[i];
        let raw = byte_slice(text, start, end);
        let masked = mask(pii_type, raw);
        let ghost before = out@;
        out.push(PiiMatch { pii_type, start, end, masked });
        proof {
            assert(found.take(i + 1) =~= found.take(i as int).push(found[i as int]));
            assert(spans_of(out@) =~= spans_of(before).push(out@[before.len() as int]@));
        }
        i = i + 1;
    }
    proof {
        assert(found.take(i as int) =~= found);
        assert forall|k: int| 0 <= k < out.len() implies span_in(
            text@,
            ((#[trigger] out[k]).start, out[k].end),
        ) by {
            assert(spans_of(out@)[k] == found[k]);
            assert(span_in(text@, spans@[k]));
        }
    }
    out
}

/// Appends to `out` every match of one kind in `text`, in the order the pattern reports them.
fn collect(text: &str, pii_type: PiiType, out: &mut Vec<PiiMatch>)
    requires
        forall|i: int|
            0 <= i < old(out).len() ==> span_in(text@, ((#[trigger] old(out)[i]).start, old(out)[i].end)),
    ensures
        spans_of(final(out)@) == spans_of(old(out)@) + kind_matches(text@, pii_type),
        forall|i: int|
            0 <= i < final(out).len() ==> span_in(text@, ((#[trigger] final(out)[i]).start, final(out)[i].end)),
        spans_successive(regex_find_spans(pattern_of(pii_type), text@)),
{
    let spans = find_spans(pii_type.pattern(), text);
    let mut found = matches_at(text, pii_type, &spans);
    let ghost found_before_append = found@;
    let ghost before = out@;
    out.append(&mut found);
    proof {
        assert(spans_of(out@) =~= spans_of(before) + kind_matches(text@, pii_type));
        assert forall|i: int| 0 <= i < out.len() implies span_in(
            text@,
            ((#[trigger] out[i]).start, out[i].end),
        ) by {
            if i < before.len() {
                assert(out[i] == before[i]);
            } else {
                assert(out[i] == found_before_append[i - before.len()]);
            }
        }
    }
}

/// No element of `s` satisfies `p`.
proof fn lemma_filter_none(s: Seq<PiiSpan>, p: spec_fn(PiiSpan) -> bool)
    requires
        forall|i: int| 0 <= i < s.len() ==> !p(#[trigger] s[i]),
    ensures
        s.filter(p) == Seq::<PiiSpan>::empty(),
    decreases s.len(),
{
    reveal(Seq::filter);
    if s.len() > 0 {
        lemma_filter_none(s.drop_last(), p);
    }
}

/// Inserting `x` into the sorted `s` after every element ordered no later than it keeps
/// each span's group and adds `x` at the end of its own.
proof fn lemma_insert_sorted(s: Seq<PiiSpan>, p: int, x: PiiSpan)
    requires
        sorted_by_span(s),
        0 <= p <= s.len(),
        forall|j: int| 0 <= j < p ==> span_le(#[trigger] s[j], x),
        forall|j: int| p <= j < s.len() ==> !span_le(#[trigger] s[j], x),
    ensures
        sorted_by_span(s.insert(p, x)),
        forall|k: (usize, usize)| #[trigger]
            s.insert(p, x).filter(has_span(k)) == if x.start == k.0 && x.end == k.1 {
                s.filter(has_span(k)).push(x)
            } else {
                s.filter(has_span(k))
            },
{
    let t = s.insert(p, x);
    assert(t =~= s.take(p) + seq![x] + s.skip(p));
    assert(s =~= s.take(p) + s.skip(p));
    assert forall|k: (usize, usize)| #[trigger]
        t.filter(has_span(k)) == if x.start == k.0 && x.end == k.1 {
            s.filter(has_span(k)).push(x)
        } else {
            s.filter(has_span(k))
        } by {
        let f = has_span(k);
        Seq::filter_distributes_over_add(s.take(p) + seq![x], s.skip(p), f);
        Seq::filter_distributes_over_add(s.take(p), seq![x], f);
        Seq::filter_distributes_over_add(s.take(p), s.skip(p), f);
        reveal_with_fuel(Seq::filter, 2);
        assert(seq![x].drop_last() =~= Seq::<PiiSpan>::empty());
        if x.start == k.0 && x.end == k.1 {
            let rest = s.skip(p);
            assert forall|i: int| 0 <= i < rest.len() implies !f(#[trigger] rest[i]) by {
                assert(rest[i] == s[p + i]);
            }
            lemma_filter_none(rest, f);
            assert(seq![x].filter(f) =~= seq![x]);
        } else {
            assert(seq![x].filter(f) =~= Seq::<PiiSpan>::empty());
        }
    }
}

/// Matches of the same kind do not overlap and come in order: an earlier one ends no later
/// than a later one starts.
pub open spec fn same_kind_disjoint(s: Seq<PiiSpan>) -> bool {
    forall|a: int, b: int|
        #![trigger s[a], s[b]]
        0 <= a < b < s.len() && s[a].pii_type == s[b].pii_type ==> s[a].end <= s[b].start
}

/// The matches of one kind are all of that kind and, when the pattern's matches are
/// successive, do not overlap.
proof fn lemma_kind_matches_disjoint(text: Seq<char>, t: PiiType)
    requires
        spans_successive(regex_find_spans(pattern_of(t), text)),
    ensures
        same_kind_disjoint(kind_matches(text, t)),
        forall|i: int|
            0 <= i < kind_matches(text, t).len() ==> (#[trigger] kind_matches(text, t)[i]).pii_type
                == t,
{
    let sp = regex_find_spans(pattern_of(t), text);
    let km = kind_matches(text, t);
    assert forall|a: int, b: int|
        #![trigger km[a], km[b]]
        0 <= a < b < km.len() && km[a].pii_type == km[b].pii_type implies km[a].end
            <= km[b].start by {
        assert(sp[a].1 <= sp[b].0);
    }
}

/// Joining two lists whose kinds never meet keeps same-kind matches apart.
proof fn lemma_disjoint_concat(s1: Seq<PiiSpan>, s2: Seq<PiiSpan>)
    requires
        same_kind_disjoint(s1),
        same_kind_disjoint(s2),
        forall|a: int, b: int|
            0 <= a < s1.len() && 0 <= b < s2.len() ==> (#[trigger] s1[a]).pii_type != (
            #[trigger] s2[b]).pii_type,
    ensures
        same_kind_disjoint(s1 + s2),
{
    let s = s1 + s2;
    assert forall|a: int, b: int|
        #![trigger s[a], s[b]]
        0 <= a < b < s.len() && s[a].pii_type == s[b].pii_type implies s[a].end <= s[b].start by {
        if b < s1.len() {
            assert(s[a] == s1[a] && s[b] == s1[b]);
        } else if a >= s1.len() {
            assert(s[a] == s2[a - s1.len()] && s[b] == s2[b - s1.len()]);
        } else {
            assert(s[a] == s1[a] && s[b] == s2[b - s1.len()]);
        }
    }
}

/// `out` places distinct elements of `input`: `out[i]` is `input[idx[i]]`, and no index is
/// used twice.
pub open spec fn is_arrangement(out: Seq<PiiSpan>, input: Seq<PiiSpan>, idx: Seq<int>) -> bool {
    &&& idx.len() == out.len()
    &&& forall|i: int|
        0 <= i < out.len() ==> 0 <= #[trigger] idx[i] < input.len() && out[i] == input[idx[i]]
    &&& forall|i: int, j: int| 0 <= i < j < out.len() ==> #[trigger] idx[i] != #[trigger] idx[j]
}

/// Sorts `items` by `(start, end)`, keeping the order of matches with equal spans.
pub fn sort_by_span(items: Vec<PiiMatch>) -> (out: Vec<PiiMatch>)
    ensures
        stable_sorted_by_span(spans_of(out@), spans_of(items@)),
        exists|idx: Seq<int>| #[trigger] is_arrangement(spans_of(out@), spans_of(items@), idx),
{
    let ghost input = spans_of(items@);
    let mut rest = items;
    let mut out: Vec<PiiMatch> = Vec::new();
    let ghost n = input.len();
    let ghost mut idx: Seq<int> = Seq::empty();
    while rest.len() > 0
        invariant
            input.len() == n,
            is_arrangement(spans_of(out@), input, idx),
            forall|i: int| 0 <= i < idx.len() ==> #[trigger] idx[i] < n - rest.len(),
            spans_of(rest@) == input.skip(n - rest.len()),
            rest.len() <= n,
            out.len() + rest.len() == n,
            sorted_by_span(spans_of(out@)),
            forall|k: (usize, usize)| #[trigger]
                spans_of(out@).filter(has_span(k)) == input.take(n - rest.len()).filter(
                    has_span(k),
                ),
        decreases rest.len(),
    {
        let ghost done = input.take(n - rest.len());
        let ghost d: int = n - rest.len();
        let x = rest.remove(0);
        let ghost s = spans_of(out@);
        let mut p: usize = 0;
        while p < out.len() && (out[p].start < x.start || (out[p].start == x.start
            && out[p].end <= x.end))
            invariant
                p <= out.len(),
                s == spans_of(out@),
                forall|j: int| 0 <= j < p ==> span_le(#[trigger] s[j], x@),
            decreases out.len() - p,
        {
            p = p + 1;
        }
        proof {
            assert forall|j: int| p <= j < s.len() implies !span_le(#[trigger] s[j], x@) by {
                assert(!span_le(s[p as int], x@));
                if j > p {
                    assert(span_le(s[p as int], s[j]));
                }
            }
            lemma_insert_sorted(s, p as int, x@);
            let d2 = input.take(n - rest.len());
            assert(d2 =~= done.push(x@)) by {
                assert(input.skip(n - rest.len() - 1)[0] == x@);
            }
            assert forall|k: (usize, usize)| #[trigger]
                d2.filter(has_span(k)) == if x@.start == k.0 && x@.end == k.1 {
                    done.filter(has_span(k)).push(x@)
                } else {
                    done.filter(has_span(k))
                } by {
                done.lemma_filter_push(x@, has_span(k));
            }
        }
        out.insert(p, x);
        proof {
            assert(spans_of(out@) =~= s.insert(p as int, x@));
            assert(spans_of(rest@) =~= input.skip(n - rest.len()));
            assert(input[d] == x@) by {
                assert(input.skip(d)[0] == x@);
            }
            let old_idx = idx;
            idx = idx.insert(p as int, d);
            let o = spans_of(out@);
            assert forall|i: int| 0 <= i < o.len() implies 0 <= #[trigger] idx[i] < input.len()
                && o[i] == input[idx[i]] by {
                if i < p {
                    assert(idx[i] == old_idx[i]);
                } else if i > p {
                    assert(idx[i] == old_idx[i - 1]);
                }
            }
            assert forall|i: int, j: int| 0 <= i < j < o.len() implies #[trigger] idx[i]
                != #[trigger] idx[j] by {
                if i < p && j < p {
                    assert(idx[i] == old_idx[i] && idx[j] == old_idx[j]);
                } else if i < p && j > p {
                    assert(idx[i] == old_idx[i] && idx[j] == old_idx[j - 1]);
                } else if i > p && j > p {
                    assert(idx[i] == old_idx[i - 1] && idx[j] == old_idx[j - 1]);
                } else if i == p {
                    assert(idx[j] == old_idx[j - 1]);
                } else {
                    assert(idx[i] == old_idx[i]);
                }
            }
            assert forall|i: int| 0 <= i < idx.len() implies #[trigger] idx[i] < n - rest.len() by {
                if i < p {
                    assert(idx[i] == old_idx[i]);
                } else if i > p {
                    assert(idx[i] == old_idx[i - 1]);
                }
            }
        }
    }
    proof {
        assert(input.take(n as int) =~= input);
        assert(is_arrangement(spans_of(out@), input, idx));
    }
    out
}

/// Regex PII detector.
#[derive(Debug, Clone, Default)]
pub struct PiiDetector;

impl PiiDetector {
    /// Create a detector.
    pub fn new() -> (d: Self)
        ensures
            d == PiiDetector,
    {
        PiiDetector
    }

    /// Every PII span in `text` (byte offsets into `text`), ordered by `(start, end)`; matches
    /// sharing a span keep the order e-mail, phone, SSN, card.
    pub fn detect(&self, text: &str) -> (out: Vec<PiiMatch>)
        ensures
            stable_sorted_by_span(spans_of(out@), pii_candidates(text@)),
            forall|i: int|
                0 <= i < out.len() ==> span_in(text@, ((#[trigger] out[i]).start, out[i].end)),
            forall|i: int, j: int|
                0 <= i < j < out.len() && (#[trigger] out[i]).pii_type == (#[trigger] out[j]).pii_type
                    ==> out[i].end <= out[j].start,
    {
        let mut out: Vec<PiiMatch> = Vec::new();
        collect(text, PiiType::Email, &mut out);
        collect(text, PiiType::Phone, &mut out);
        collect(text, PiiType::Ssn, &mut out);
        collect(text, PiiType::CreditCard, &mut out);
        proof {
            assert(spans_of(out@) =~= pii_candidates(text@));
            let e = kind_matches(text@, PiiType::Email);
            let ph = kind_matches(text@, PiiType::Phone);
            let ss = kind_matches(text@, PiiType::Ssn);
            let cc = kind_matches(text@, PiiType::CreditCard);
            lemma_kind_matches_disjoint(text@, PiiType::Email);
            lemma_kind_matches_disjoint(text@, PiiType::Phone);
            lemma_kind_matches_disjoint(text@, PiiType::Ssn);
            lemma_kind_matches_disjoint(text@, PiiType::CreditCard);
            lemma_disjoint_concat(e, ph);
            let ep = e + ph;
            assert forall|a: int| 0 <= a < ep.len() implies (#[trigger] ep[a]).pii_type
                == PiiType::Email || ep[a].pii_type == PiiType::Phone by {
                if a < e.len() {
                    assert(ep[a] == e[a]);
                } else {
                    assert(ep[a] == ph[a - e.len()]);
                }
            }
            lemma_disjoint_concat(ep, ss);
            let eps = ep + ss;
            assert forall|a: int| 0 <= a < eps.len() implies (#[trigger] eps[a]).pii_type
                != PiiType::CreditCard by {
                if a < ep.len() {
                    assert(eps[a] == ep[a]);
                } else {
                    assert(eps[a] == ss[a - ep.len()]);
                }
            }
            lemma_disjoint_concat(eps, cc);
            assert(same_kind_disjoint(pii_candidates(text@)));
        }
        let ghost input = spans_of(out@);
        let sorted = sort_by_span(out);
        proof {
            let res = spans_of(sorted@);
            assert forall|i: int| 0 <= i < sorted.len() implies span_in(
                text@,
                ((#[trigger] sorted[i]).start, sorted[i].end),
            ) by {
                let k = (res[i].start, res[i].end);
                res.lemma_filter_contains(has_span(k), i);
                assert(res.filter(has_span(k)) == input.filter(has_span(k)));
                input.lemma_filter_contains_rev(has_span(k), res[i]);
                let j = choose|j: int| 0 <= j < input.len() && input[j] == res[i];
                assert(input[j] == out@[j]@);
            }
            let idx = choose|idx: Seq<int>| #[trigger] is_arrangement(res, input, idx);
            assert forall|i: int, j: int|
                0 <= i < j < sorted.len() && (#[trigger] sorted[i]).pii_type == (
                #[trigger] sorted[j]).pii_type implies sorted[i].end <= sorted[j].start by {
                let x = res[i];
                let y = res[j];
                assert(x == sorted@[i]@ && y == sorted@[j]@);
                assert(span_in(text@, (sorted[i].start, sorted[i].end)));
                assert(span_in(text@, (sorted[j].start, sorted[j].end)));
                assert(span_le(res[i], res[j]));
                let a = idx[i];
                let b = idx[j];
                assert(input[a] == x && input[b] == y && a != b);
                if a < b {
                    assert(input[a].end <= input[b].start);
                } else {
                    assert(input[b].end <= input[a].start);
                }
            }
        }
        sorted
    }

    /// Fast path: true if any PII pattern matches.
    pub fn contains_pii(&self, text: &str) -> (found: bool)
        ensures
            found == pii_present(text@),
    {
        has_match(EMAIL_PATTERN, text) || has_match(PHONE_PATTERN, text) || has_match(
            SSN_PATTERN,
            text,
        ) || has_match(CREDIT_CARD_PATTERN, text)
    }
}

/// `contains_pii` answers `true` exactly when `detect` reports at least one match.
pub proof fn lemma_contains_iff_detects(text: Seq<char>, found: Seq<PiiSpan>)
    requires
        stable_sorted_by_span(found, pii_candidates(text)),
    ensures
        pii_present(text) <==> found.len() > 0,
{
}

/// An element of `s` whose span is `k` makes the group of `k` non-empty.
proof fn lemma_group_nonempty(s: Seq<PiiSpan>, i: int)
    requires
        0 <= i < s.len(),
    ensures
        s.filter(has_span((s[i].start, s[i].end))).len() > 0,
{
    s.lemma_filter_contains(has_span((s[i].start, s[i].end)), i);
}

/// A non-empty group of `s` has a member of `s`.
proof fn lemma_group_member(s: Seq<PiiSpan>, k: (usize, usize))
    requires
        s.filter(has_span(k)).len() > 0,
    ensures
        exists|i: int| 0 <= i < s.len() && s[i].start == k.0 && s[i].end == k.1,
{
    let f = has_span(k);
    let g = s.filter(f);
    s.lemma_filter_pred(f, 0);
    assert(g.contains(g[0]));
    s.lemma_filter_contains_rev(f, g[0]);
}

/// Two sequences ordered by span whose groups of equal spans agree are equal.
proof fn lemma_sorted_groups_determine(a: Seq<PiiSpan>, b: Seq<PiiSpan>)
    requires
        sorted_by_span(a),
        sorted_by_span(b),
        forall|k: (usize, usize)| #[trigger] a.filter(has_span(k)) == b.filter(has_span(k)),
    ensures
        a == b,
    decreases a.len() + b.len(),
{
    if a.len() == 0 && b.len() == 0 {
        assert(a =~= b);
        return;
    }
    if a.len() == 0 {
        let ky = (b.last().start, b.last().end);
        lemma_group_nonempty(b, b.len() - 1);
        reveal(Seq::filter);
        assert(a.filter(has_span(ky)).len() == 0);
        return;
    }
    if b.len() == 0 {
        let kx = (a.last().start, a.last().end);
        lemma_group_nonempty(a, a.len() - 1);
        reveal(Seq::filter);
        assert(b.filter(has_span(kx)).len() == 0);
        return;
    }
    let x = a.last();
    let y = b.last();
    let kx = (x.start, x.end);
    let ky = (y.start, y.end);
    // every span in b is ordered no later than y, and kx occurs in b
    lemma_group_nonempty(a, a.len() - 1);
    assert(b.filter(has_span(kx)) == a.filter(has_span(kx)));
    lemma_group_member(b, kx);
    let ib = choose|i: int| 0 <= i < b.len() && b[i].start == kx.0 && b[i].end == kx.1;
    if ib < b.len() - 1 {
        assert(span_le(b[ib], b[b.len() - 1]));
    }
    assert(span_le(x, y));
    lemma_group_nonempty(b, b.len() - 1);
    assert(a.filter(has_span(ky)) == b.filter(has_span(ky)));
    lemma_group_member(a, ky);
    let ia = choose|i: int| 0 <= i < a.len() && a[i].start == ky.0 && a[i].end == ky.1;
    if ia < a.len() - 1 {
        assert(span_le(a[ia], a[a.len() - 1]));
    }
    assert(span_le(y, x));
    assert(kx == ky);
    let a2 = a.drop_last();
    let b2 = b.drop_last();
    assert(a2.push(x) =~= a);
    assert(b2.push(y) =~= b);
    assert forall|k: (usize, usize)| #[trigger] a2.filter(has_span(k)) == b2.filter(has_span(k)) by {
        a2.lemma_filter_push(x, has_span(k));
        b2.lemma_filter_push(y, has_span(k));
        assert(a.filter(has_span(k)) == b.filter(has_span(k)));
        if k == kx {
            assert(a2.filter(has_span(k)) =~= a.filter(has_span(k)).drop_last());
            assert(b2.filter(has_span(k)) =~= b.filter(has_span(k)).drop_last());
        }
    }
    assert(x == a.filter(has_span(kx)).last()) by {
        a2.lemma_filter_push(x, has_span(kx));
    }
    assert(y == b.filter(has_span(kx)).last()) by {
        b2.lemma_filter_push(y, has_span(kx));
    }
    assert forall|i: int, j: int| 0 <= i < j < a2.len() implies span_le(
        #[trigger] a2[i],
        #[trigger] a2[j],
    ) by {
        assert(a2[i] == a[i] && a2[j] == a[j]);
    }
    assert forall|i: int, j: int| 0 <= i < j < b2.len() implies span_le(
        #[trigger] b2[i],
        #[trigger] b2[j],
    ) by {
        assert(b2[i] == b[i] && b2[j] == b[j]);
    }
    lemma_sorted_groups_determine(a2, b2);
}

/// A stable ordering by span is unique: `detect`'s result is fully determined by the
/// matches found in the text.
pub proof fn lemma_stable_sort_unique(a: Seq<PiiSpan>, b: Seq<PiiSpan>, input: Seq<PiiSpan>)
    requires
        stable_sorted_by_span(a, input),
        stable_sorted_by_span(b, input),
    ensures
        a == b,
{
    assert forall|k: (usize, usize)| #[trigger] a.filter(has_span(k)) == b.filter(has_span(k)) by {
        assert(a.filter(has_span(k)) == input.filter(has_span(k)));
        assert(b.filter(has_span(k)) == input.filter(has_span(k)));
    }
    lemma_sorted_groups_determine(a, b);
}

/// Only the ASCII digits of a match count for its phone, SSN or card mask: dropping every
/// other character leaves the mask unchanged.
pub proof fn lemma_masks_read_digits_only(raw: Seq<char>)
    ensures
        phone_mask(raw) == phone_mask(ascii_digits(raw)),
        ssn_mask(raw) == ssn_mask(ascii_digits(raw)),
        credit_card_mask(raw) == credit_card_mask(ascii_digits(raw)),
{
    let d = ascii_digits(raw);
    assert forall|i: int| 0 <= i < d.len() implies #[trigger] ascii_digit()(d[i]) by {
        raw.lemma_filter_pred(ascii_digit(), i);
    }
    lemma_filter_keeps_all(d, ascii_digit());
}

/// On a run of at least four digits, each mask is its fixed prefix followed by exactly the
/// last four digits, in order.
pub proof fn lemma_masks_keep_last_four_digits(d: Seq<char>)
    requires
        d.len() >= 4,
        forall|i: int| 0 <= i < d.len() ==> is_ascii_digit(#[trigger] d[i]),
    ensures
        phone_mask(d) == "***-***-"@ + d.subrange(d.len() - 4, d.len() as int),
        ssn_mask(d) == "***-**-"@ + d.subrange(d.len() - 4, d.len() as int),
        credit_card_mask(d) == "**** **** **** "@ + d.subrange(d.len() - 4, d.len() as int),
{
    assert forall|i: int| 0 <= i < d.len() implies #[trigger] ascii_digit()(d[i]) by {}
    lemma_filter_keeps_all(d, ascii_digit());
    assert(last_four(d) =~= d.subrange(d.len() - 4, d.len() as int));
}

} // verus!
