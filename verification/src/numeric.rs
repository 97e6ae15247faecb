//! Lexical side of numeric extraction: finding numbers in text, their sign, their digits
//! in a form ready to be read as a decimal, and the multiplier word that may follow them
//! (`14 млн`, `3 thousand`).
//!
//! Reading the digits as a floating-point value and comparing values within a tolerance is
//! left to the caller; everything up to that point is here.

use vstd::prelude::*;
use vstd::string::StringSliceAdditionalSpecFns;
use vstd::utf8::*;

use crate::pattern::{find_spans, regex_find_spans, span_in, spans_successive, spans_within};
use crate::text::{
    ascii_digit, is_ascii_digit, is_white_space, lemma_filter_keeps_all, lemma_strip_trailing_prepend, lemma_strip_trailing_shape, lemma_trim_stable,
    white_space, byte_slice, chars_of, equals, lowercase, string_of, strip_leading, strip_leading_char,
    strip_trailing, strip_trailing_char, sub_chars, to_lowercase, trim, trim_chars, utf8_len,
    utf8_width,
};

verus! {

broadcast use vstd::seq_lib::group_seq_properties;

/// Numbers: US thousands (`14,000,000.5`), EU thousands (`14.000.000,5`), plain integers and
/// decimals with `.` or `,`, an optional sign `±`, `+` or `-`, and an optional `%`.
pub const NUMERIC_PATTERN: &'static str = r"(?x)
        [±+\-]?
        (?:
            \d{1,3}(?:,\d{3})+(?:\.\d+)?
          | \d{1,3}(?:\.\d{3})+(?:,\d+)?
          | \d+(?:[.,]\d+)?
        )
        (?:\s*%)?";

/// A Russian or English multiplier word at the very start of the text (after white space).
pub const MULTIPLIER_PATTERN: &'static str = r"(?i)^\s*(млн|миллион(?:а|ов)?|million|тыс\.?|тысяч[аи]?|thousand|млрд|миллиард(?:а|ов)?|billion)\b";

/// The predicate "is not the character `x`".
pub open spec fn differs(x: char) -> spec_fn(char) -> bool {
    |c: char| c != x
}

/// `s` with every occurrence of `x` removed.
pub open spec fn remove_char(s: Seq<char>, x: char) -> Seq<char> {
    s.filter(differs(x))
}

/// `s` with every occurrence of `x` replaced by `y`.
pub open spec fn replace_char(s: Seq<char>, x: char, y: char) -> Seq<char> {
    s.map_values(|c: char| if c == x { y } else { c })
}

/// Index of the last occurrence of `x` in `s`, or `-1` when there is none.
pub open spec fn last_index(s: Seq<char>, x: char) -> int
    decreases s.len(),
{
    if s.len() == 0 {
        -1
    } else if s.last() == x {
        s.len() - 1
    } else {
        last_index(s.drop_last(), x)
    }
}

/// The pieces of `s` between occurrences of `sep` (what `str::split(sep)` yields): one
/// more piece than there are separators.
pub open spec fn split_parts(s: Seq<char>, sep: char) -> Seq<Seq<char>>
    decreases s.len(),
{
    if s.len() == 0 {
        seq![Seq::<char>::empty()]
    } else {
        let p = split_parts(s.drop_last(), sep);
        if s.last() == sep {
            p.push(Seq::<char>::empty())
        } else {
            p.update(p.len() - 1, p.last().push(s.last()))
        }
    }
}

/// Every piece after the first is three bytes long (a thousands group).
pub open spec fn groups_of_three(parts: Seq<Seq<char>>) -> bool {
    forall|i: int| 1 <= i < parts.len() ==> utf8_len(#[trigger] parts[i]) == 3
}

/// The digits of a number with its separators resolved: the decimal separator becomes `.`
/// and thousands separators are dropped.
///
/// - Both `,` and `.`: whichever comes last is the decimal separator (`1.234,56`, `1,234.56`).
/// - Only `,`: thousands when every group after a comma has three bytes (`14,000,000`),
///   else a decimal comma when there is exactly one (`92,5`), else commas are dropped.
/// - Only `.`: thousands when there are at least two dots and every group after a dot has
///   three bytes (`14.000.000`), else unchanged.
pub open spec fn normalized_digits(s: Seq<char>) -> Seq<char> {
    let has_comma = s.contains(',');
    let has_dot = s.contains('.');
    if has_comma && has_dot {
        if last_index(s, ',') > last_index(s, '.') {
            replace_char(remove_char(s, '.'), ',', '.')
        } else {
            remove_char(s, ',')
        }
    } else if has_comma {
        let parts = split_parts(s, ',');
        if parts.len() > 1 && groups_of_three(parts) {
            remove_char(s, ',')
        } else if parts.len() == 2 {
            replace_char(s, ',', '.')
        } else {
            remove_char(s, ',')
        }
    } else if has_dot {
        let parts = split_parts(s, '.');
        if parts.len() > 2 && groups_of_three(parts) {
            remove_char(s, '.')
        } else {
            s
        }
    } else {
        s
    }
}

/// The sign of a trimmed lexeme and what follows its sign characters: `±` gives a magnitude
/// (not negative), `+` is positive, `-` negative.
pub open spec fn sign_and_body(t: Seq<char>) -> (bool, Seq<char>) {
    if t.len() > 0 && t[0] == '±' {
        (false, strip_leading(t, equals('±')))
    } else if t.len() > 0 && t[0] == '+' {
        (false, strip_leading(t, equals('+')))
    } else if t.len() > 0 && t[0] == '-' {
        (true, strip_leading(t, equals('-')))
    } else {
        (false, t)
    }
}

/// The sign of a numeric lexeme and its normalized digits (percent sign and white space
/// removed, separators resolved by [`normalized_digits`]).
pub open spec fn lexeme_parts(raw: Seq<char>) -> (bool, Seq<char>) {
    let (negative, body) = sign_and_body(trim(raw));
    let core = trim(strip_trailing(trim(body), equals('%')));
    (negative, normalized_digits(core))
}

/// The factor an already lower-cased multiplier word stands for: billions (`млрд`,
/// `миллиард…`, `billion`), millions (`млн`, `миллион…`, `million`), thousands (`тыс…`,
/// `thousand`), else 1.
pub open spec fn factor_of_lowercase(w: Seq<char>) -> u64 {
    if "млрд"@.is_prefix_of(w) || "миллиард"@.is_prefix_of(w) || "billion"@.is_prefix_of(w) {
        1_000_000_000
    } else if "млн"@.is_prefix_of(w) || "миллион"@.is_prefix_of(w) || "million"@.is_prefix_of(
        w,
    ) {
        1_000_000
    } else if "тыс"@.is_prefix_of(w) || "thousand"@.is_prefix_of(w) {
        1_000
    } else {
        1
    }
}

/// The factor a multiplier word stands for, decided on its trimmed lower-case form.
pub open spec fn multiplier_of(word: Seq<char>) -> u64 {
    factor_of_lowercase(lowercase(trim(word)))
}

/// Whether `x` occurs in `v`.
fn contains_char(v: &Vec<char>, x: char) -> (r: bool)
    ensures
        r == v@.contains(x),
{
    let mut i: usize = 0;
    while i < v.len()
        invariant
            i <= v.len(),
            forall|j: int| 0 <= j < i ==> v@[j] != x,
        decreases v.len() - i,
    {
        if v[i] == x {
            return true;
        }
        i = i + 1;
    }
    false
}

/// Index of the last occurrence of `x` in `v`; `v` must hold one.
fn last_index_of(v: &Vec<char>, x: char) -> (r: usize)
    requires
        v@.contains(x),
    ensures
        r as int == last_index(v@, x),
{
    let mut i: usize = 0;
    let mut last: usize = 0;
    let mut found = false;
    while i < v.len()
        invariant
            i <= v.len(),
            found ==> last as int == last_index(v@.take(i as int), x),
            !found ==> last_index(v@.take(i as int), x) == -1,
        decreases v.len() - i,
    {
        assert(v@.take(i + 1).drop_last() =~= v@.take(i as int));
        if v[i] == x {
            last = i;
            found = true;
        }
        i = i + 1;
    }
    assert(v@.take(i as int) =~= v@);
    proof {
        if !found {
            lemma_last_index_absent(v@, x);
        }
    }
    last
}

/// A character that occurs has a last occurrence.
proof fn lemma_last_index_absent(s: Seq<char>, x: char)
    requires
        s.contains(x),
    ensures
        0 <= last_index(s, x) < s.len(),
        s[last_index(s, x)] == x,
    decreases s.len(),
{
    if s.last() != x {
        let i = choose|i: int| 0 <= i < s.len() && s[i] == x;
        assert(s.drop_last()[i] == x);
        lemma_last_index_absent(s.drop_last(), x);
    }
}

/// `v` with every occurrence of `x` removed.
fn remove_all(v: &Vec<char>, x: char) -> (r: Vec<char>)
    ensures
        r@ == remove_char(v@, x),
{
    let mut r: Vec<char> = Vec::new();
    let mut i: usize = 0;
    while i < v.len()
        invariant
            i <= v.len(),
            r@ == v@.take(i as int).filter(differs(x)),
        decreases v.len() - i,
    {
        proof {
            assert(v@.take(i + 1) =~= v@.take(i as int).push(v@[i as int]));
            v@.take(i as int).lemma_filter_push(v@[i as int], differs(x));
        }
        if v[i] != x {
            r.push(v[i]);
        }
        i = i + 1;
    }
    assert(v@.take(i as int) =~= v@);
    r
}

/// `v` with every occurrence of `x` replaced by `y`.
fn replace_all(v: &Vec<char>, x: char, y: char) -> (r: Vec<char>)
    ensures
        r@ == replace_char(v@, x, y),
{
    let mut r: Vec<char> = Vec::new();
    let mut i: usize = 0;
    while i < v.len()
        invariant
            i <= v.len(),
            r@ =~= replace_char(v@.take(i as int), x, y),
        decreases v.len() - i,
    {
        let c = v[i];
        r.push(if c == x {
            y
        } else {
            c
        });
        i = i + 1;
    }
    assert(v@.take(i as int) =~= v@);
    r
}

/// Number of UTF-8 bytes of `c`.
fn utf8_width_of(c: char) -> (w: usize)
    ensures
        w == utf8_width(c),
{
    let u = c as u32;
    if u < 0x80 {
        1
    } else if u < 0x800 {
        2
    } else if u < 0x10000 {
        3
    } else {
        4
    }
}

/// One more character extends the last piece of a split, or starts a new piece.
proof fn lemma_split_parts_push(s: Seq<char>, c: char, sep: char)
    ensures
        split_parts(s, sep).len() >= 1,
        split_parts(s.push(c), sep) == if c == sep {
            split_parts(s, sep).push(Seq::<char>::empty())
        } else {
            split_parts(s, sep).update(
                split_parts(s, sep).len() - 1,
                split_parts(s, sep).last().push(c),
            )
        },
    decreases s.len(),
{
    assert(s.push(c).drop_last() =~= s);
    if s.len() > 0 {
        lemma_split_parts_push(s.drop_last(), s.last(), sep);
        assert(s.drop_last().push(s.last()) =~= s);
    }
}

/// Every piece but the first of `parts` has three bytes, split into the finished pieces and
/// the last one.
proof fn lemma_groups_of_three_last(parts: Seq<Seq<char>>)
    requires
        parts.len() >= 1,
    ensures
        groups_of_three(parts) == ((forall|j: int|
            1 <= j < parts.len() - 1 ==> utf8_len(#[trigger] parts[j]) == 3) && (parts.len() == 1
            || utf8_len(parts.last()) == 3)),
{
}

/// The number of pieces `split(sep)` yields (counted up to 3) and whether every piece after
/// the first has three bytes.
fn split_shape(v: &Vec<char>, sep: char) -> (r: (usize, bool))
    ensures
        r.0 == if split_parts(v@, sep).len() < 3 {
            split_parts(v@, sep).len()
        } else {
            3
        },
        r.1 == groups_of_three(split_parts(v@, sep)),
{
    // number of pieces so far, saturated at 3
    let mut count: usize = 1;
    // whether every finished piece after the first has three bytes
    let mut ok = true;
    // byte length of the current piece, saturated at 4
    let mut cur: usize = 0;
    let mut i: usize = 0;
    proof {
        assert(v@.take(0) =~= Seq::<char>::empty());
    }
    while i < v.len()
        invariant
            i <= v.len(),
            split_parts(v@.take(i as int), sep).len() >= 1,
            count == if split_parts(v@.take(i as int), sep).len() < 3 {
                split_parts(v@.take(i as int), sep).len()
            } else {
                3
            },
            ok == (forall|j: int|
                1 <= j < split_parts(v@.take(i as int), sep).len() - 1 ==> utf8_len(
                    #[trigger] split_parts(v@.take(i as int), sep)[j],
                ) == 3),
            utf8_len(split_parts(v@.take(i as int), sep).last()) <= 3 ==> cur == utf8_len(
                split_parts(v@.take(i as int), sep).last(),
            ),
            utf8_len(split_parts(v@.take(i as int), sep).last()) > 3 ==> cur == 4,
        decreases v.len() - i,
    {
        let c = v[i];
        let ghost p = v@.take(i as int);
        let ghost parts = split_parts(p, sep);
        proof {
            assert(v@.take(i + 1) =~= p.push(c));
            lemma_split_parts_push(p, c, sep);
        }
        if c == sep {
            let ghost np = split_parts(p.push(c), sep);
            proof {
                assert(np.last() =~= Seq::<char>::empty());
                assert forall|j: int| 0 <= j < parts.len() implies #[trigger] np[j] == parts[j] by {}
                assert((forall|j: int| 1 <= j < np.len() - 1 ==> utf8_len(#[trigger] np[j]) == 3)
                    == (ok && (parts.len() == 1 || utf8_len(parts.last()) == 3))) by {
                    if ok && (parts.len() == 1 || utf8_len(parts.last()) == 3) {
                        assert forall|j: int| 1 <= j < np.len() - 1 implies utf8_len(
                            #[trigger] np[j],
                        ) == 3 by {
                            assert(np[j] == parts[j]);
                        }
                    }
                    if !ok {
                        let j = choose|j: int|
                            1 <= j < parts.len() - 1 && utf8_len(#[trigger] parts[j]) != 3;
                        assert(np[j] == parts[j]);
                    }
                    if parts.len() > 1 && utf8_len(parts.last()) != 3 {
                        assert(np[parts.len() - 1] == parts.last());
                    }
                }
            }
            ok = ok && (count == 1 || cur == 3);
            if count < 3 {
                count = count + 1;
            }
            cur = 0;
        } else {
            let w = utf8_width_of(c);
            if cur < 4 {
                cur = if cur + w > 4 {
                    4
                } else {
                    cur + w
                };
            }
            proof {
                let np = split_parts(p.push(c), sep);
                assert(np.last().drop_last() =~= parts.last());
                assert forall|j: int| 0 <= j < parts.len() - 1 implies #[trigger] np[j] == parts[j] by {}
                assert((forall|j: int| 1 <= j < np.len() - 1 ==> utf8_len(#[trigger] np[j]) == 3)
                    == ok) by {
                    if !ok {
                        let j = choose|j: int|
                            1 <= j < parts.len() - 1 && utf8_len(#[trigger] parts[j]) != 3;
                        assert(np[j] == parts[j]);
                    } else {
                        assert forall|j: int| 1 <= j < np.len() - 1 implies utf8_len(
                            #[trigger] np[j],
                        ) == 3 by {
                            assert(np[j] == parts[j]);
                        }
                    }
                }
            }
        }
        i = i + 1;
    }
    proof {
        assert(v@.take(i as int) =~= v@);
        lemma_groups_of_three_last(split_parts(v@, sep));
    }
    (count, ok && (count == 1 || cur == 3))
}

/// The digits of `s` with separators resolved (see [`normalized_digits`]).
pub fn normalize_digits(s: &str) -> (r: Option<String>)
    ensures
        r is Some,
        r.unwrap()@ == normalized_digits(s@),
{
    let v = chars_of(s);
    Some(string_of(&normalize_chars(&v)))
}

/// [`normalize_digits`] on a character vector.
fn normalize_chars(v: &Vec<char>) -> (r: Vec<char>)
    ensures
        r@ == normalized_digits(v@),
{
    let has_comma = contains_char(v, ',');
    let has_dot = contains_char(v, '.');
    if has_comma && has_dot {
        if last_index_of(v, ',') > last_index_of(v, '.') {
            replace_all(&remove_all(v, '.'), ',', '.')
        } else {
            remove_all(v, ',')
        }
    } else if has_comma {
        let (n, three) = split_shape(v, ',');
        if n > 1 && three {
            remove_all(v, ',')
        } else if n == 2 {
            replace_all(v, ',', '.')
        } else {
            remove_all(v, ',')
        }
    } else if has_dot {
        let (n, three) = split_shape(v, '.');
        if n > 2 && three {
            remove_all(v, '.')
        } else {
            sub_chars(v, 0, v.len())
        }
    } else {
        sub_chars(v, 0, v.len())
    }
}

/// The sign of a numeric lexeme and its digits ready to be read as a decimal: white space
/// trimmed, leading sign characters and trailing `%` removed, separators resolved.
pub fn split_numeric_lexeme(raw: &str) -> (r: (bool, String))
    ensures
        r.0 == lexeme_parts(raw@).0,
        r.1@ == lexeme_parts(raw@).1,
{
    let v = chars_of(raw);
    let t = trim_chars(&v);
    let (negative, body) = if t.len() > 0 && t[0] == '±' {
        (false, strip_leading_char(&t, '±'))
    } else if t.len() > 0 && t[0] == '+' {
        (false, strip_leading_char(&t, '+'))
    } else if t.len() > 0 && t[0] == '-' {
        (true, strip_leading_char(&t, '-'))
    } else {
        (false, sub_chars(&t, 0, t.len()))
    };
    proof {
        assert(t@.subrange(0, t@.len() as int) =~= t@);
    }
    let core = trim_chars(&strip_trailing_char(&trim_chars(&body), '%'));
    (negative, string_of(&normalize_chars(&core)))
}

/// Whether `w` begins with the characters of `prefix`.
fn starts_with(w: &Vec<char>, prefix: &str) -> (r: bool)
    ensures
        r == prefix@.is_prefix_of(w@),
{
    let p = chars_of(prefix);
    if p.len() > w.len() {
        return false;
    }
    let mut i: usize = 0;
    while i < p.len()
        invariant
            i <= p.len() <= w.len(),
            p@ == prefix@,
            forall|j: int| 0 <= j < i ==> p@[j] == w@[j],
        decreases p.len() - i,
    {
        if p[i] != w[i] {
            assert(p@[i as int] != w@.subrange(0, p@.len() as int)[i as int]);
            return false;
        }
        i = i + 1;
    }
    assert(p@ =~= w@.subrange(0, p@.len() as int));
    true
}

/// The factor an already lower-cased multiplier word stands for (see
/// [`factor_of_lowercase`]).
pub fn lowercase_multiplier_factor(lower: &str) -> (f: u64)
    ensures
        f == factor_of_lowercase(lower@),
{
    let w = chars_of(lower);
    if starts_with(&w, "млрд") || starts_with(&w, "миллиард") || starts_with(&w, "billion") {
        1_000_000_000
    } else if starts_with(&w, "млн") || starts_with(&w, "миллион") || starts_with(&w, "million") {
        1_000_000
    } else if starts_with(&w, "тыс") || starts_with(&w, "thousand") {
        1_000
    } else {
        1
    }
}

/// The factor a multiplier word stands for: its trimmed form is lower-cased, then
/// classified by [`lowercase_multiplier_factor`].
pub fn multiplier_factor(word: &str) -> (f: u64)
    ensures
        f == multiplier_of(word@),
{
    let trimmed = string_of(&trim_chars(&chars_of(word)));
    let lower = to_lowercase(trimmed.as_str());
    lowercase_multiplier_factor(lower.as_str())
}

/// A number found in text, before its digits are read as a value.
#[derive(Debug, Clone, PartialEq, Eq)]
pub struct NumericLexeme {
    /// Byte offset where the number starts.
    pub start: usize,
    /// Byte offset just past the number, or past its multiplier word when one follows.
    pub end: usize,
    /// The text between `start` and `end` (e.g. `14,000,000`, `14.5%` or `14 млн`).
    pub raw: String,
    /// Whether the number carries a minus sign.
    pub negative: bool,
    /// The digits, with `.` as the only possible separator (decimal point).
    pub digits: String,
    /// The factor of the multiplier word, 1 when there is none.
    pub multiplier: u64,
}

/// The abstract value of a [`NumericLexeme`].
pub struct LexemeView {
    pub start: usize,
    pub end: usize,
    pub raw: Seq<char>,
    pub negative: bool,
    pub digits: Seq<char>,
    pub multiplier: u64,
}

impl View for NumericLexeme {
    type V = LexemeView;

    open spec fn view(&self) -> LexemeView {
        LexemeView {
            start: self.start,
            end: self.end,
            raw: self.raw@,
            negative: self.negative,
            digits: self.digits@,
            multiplier: self.multiplier,
        }
    }
}

/// The abstract values of a list of lexemes.
pub open spec fn lexemes_of(v: Seq<NumericLexeme>) -> Seq<LexemeView> {
    v.map_values(|x: NumericLexeme| x@)
}

/// The text of `text` between two byte offsets.
pub open spec fn bytes_text(text: Seq<char>, from: int, to: int) -> Seq<char> {
    decode_utf8(encode_utf8(text).subrange(from, to))
}

/// The lexeme for the number at byte span `sp` of `text`, given the byte span `m` of the
/// multiplier word within the text after the number, if one was found there: the word
/// extends the lexeme and gives the factor.
pub open spec fn lexeme_view(
    text: Seq<char>,
    sp: (usize, usize),
    m: Option<(usize, usize)>,
) -> LexemeView {
    let n = encode_utf8(text).len() as int;
    let suffix = bytes_text(text, sp.1 as int, n);
    let end: usize = match m {
        Some(w) => (sp.1 + w.1) as usize,
        None => sp.1,
    };
    let factor: u64 = match m {
        Some(w) => multiplier_of(bytes_text(suffix, w.0 as int, w.1 as int)),
        None => 1,
    };
    let parts = lexeme_parts(bytes_text(text, sp.0 as int, sp.1 as int));
    LexemeView {
        start: sp.0,
        end,
        raw: bytes_text(text, sp.0 as int, end as int),
        negative: parts.0,
        digits: parts.1,
        multiplier: factor,
    }
}

/// The first match of the multiplier pattern in the text after byte offset `end`.
pub open spec fn multiplier_match(text: Seq<char>, end: usize) -> Option<(usize, usize)> {
    let m = regex_find_spans(
        MULTIPLIER_PATTERN@,
        bytes_text(text, end as int, encode_utf8(text).len() as int),
    );
    if m.len() > 0 {
        Some(m[0])
    } else {
        None
    }
}

/// The lexeme for the number matched at byte span `sp` of `text`.
pub open spec fn lexeme_at(text: Seq<char>, sp: (usize, usize)) -> LexemeView {
    lexeme_view(text, sp, multiplier_match(text, sp.1))
}

/// Every number in `text`, in the order the numeric pattern matches them.
pub open spec fn numeric_lexemes(text: Seq<char>) -> Seq<LexemeView> {
    regex_find_spans(NUMERIC_PATTERN@, text).map_values(|sp: (usize, usize)| lexeme_at(text, sp))
}

/// A character boundary of the bytes after offset `e` is one of the whole sequence.
proof fn lemma_boundary_shift(bytes: Seq<u8>, e: int, k: int)
    requires
        valid_utf8(bytes),
        0 <= e <= bytes.len(),
        is_char_boundary(bytes, e),
        0 <= k <= bytes.len() - e,
        is_char_boundary(bytes.subrange(e, bytes.len() as int), k),
    ensures
        is_char_boundary(bytes, e + k),
{
    let sub = bytes.subrange(e, bytes.len() as int);
    valid_utf8_split(bytes, e);
    if e + k < bytes.len() {
        is_char_boundary_iff_not_is_continuation_byte(sub, k);
        is_char_boundary_iff_not_is_continuation_byte(bytes, e + k);
        assert(sub[k] == bytes[e + k]);
    } else {
        is_char_boundary_start_end_of_seq(bytes);
    }
}

/// The lexeme for the number at byte span `span` of `text`, given the byte span of the
/// multiplier word found in the text after the number, if any. Both spans must lie in their
/// texts on character boundaries.
pub fn lexeme_from_match(
    text: &str,
    span: (usize, usize),
    multiplier: Option<(usize, usize)>,
) -> (lexeme: NumericLexeme)
    requires
        span_in(text@, span),
        multiplier matches Some(w) ==> span_in(
            bytes_text(text@, span.1 as int, encode_utf8(text@).len() as int),
            w,
        ),
    ensures
        lexeme@ == lexeme_view(text@, span, multiplier),
        span_in(text@, (lexeme.start, lexeme.end)),
{
    let total = text.as_bytes().len();
    let (s, e) = span;
    proof {
        encode_utf8_valid_utf8(text@);
        is_char_boundary_start_end_of_seq(text.spec_bytes());
    }
    let num = byte_slice(text, s, e);
    let (negative, digits) = split_numeric_lexeme(num);
    let (end, factor) = match multiplier {
        Some((cs, ce)) => {
            let suffix = byte_slice(text, e, total);
            proof {
                valid_utf8_split(text.spec_bytes(), e as int);
                decode_utf8_encode_utf8(text.spec_bytes().subrange(e as int, total as int));
                lemma_boundary_shift(text.spec_bytes(), e as int, ce as int);
            }
            let word = byte_slice(suffix, cs, ce);
            (e + ce, multiplier_factor(word))
        },
        None => (e, 1),
    };
    let raw = String::from_str(byte_slice(text, s, end));
    NumericLexeme { start: s, end, raw, negative, digits, multiplier: factor }
}

/// Every number in `text` with its byte span, sign, digits and multiplier.
pub fn scan_numerics(text: &str) -> (out: Vec<NumericLexeme>)
    ensures
        lexemes_of(out@) == numeric_lexemes(text@),
        forall|i: int| 0 <= i < out.len() ==> span_in(text@, ((#[trigger] out[i]).start, out[i].end)),
        forall|i: int, j: int|
            0 <= i < j < out.len() ==> (#[trigger] out[i]).start <= (#[trigger] out[j]).start,
{
    let total = text.as_bytes().len();
    let spans = find_spans(NUMERIC_PATTERN, text);
    let ghost found = numeric_lexemes(text@);
    let mut out: Vec<NumericLexeme> = Vec::new();
    let mut i: usize = 0;
    proof {
        encode_utf8_valid_utf8(text@);
        is_char_boundary_start_end_of_seq(text.spec_bytes());
    }
    while i < spans.len()
        invariant
            i <= spans.len(),
            total == text.spec_bytes().len(),
            valid_utf8(text.spec_bytes()),
            is_char_boundary(text.spec_bytes(), total as int),
            spans@ == regex_find_spans(NUMERIC_PATTERN@, text@),
            spans_within(spans@, text),
            spans_successive(spans@),
            found == numeric_lexemes(text@),
            lexemes_of(out@) =~= found.take(i as int),
            out.len() == i,
            forall|k: int| 0 <= k < i ==> (#[trigger] out[k]).start == spans[k].0,
            forall|k: int| 0 <= k < i ==> span_in(text@, ((#[trigger] out[k]).start, out[k].end)),
        decreases spans.len() - i,
    {
        let (s, e) = spans[i];
        let suffix = byte_slice(text, e, total);
        let m = find_spans(MULTIPLIER_PATTERN, suffix);
        let multiplier = if m.len() > 0 {
            Some(m[0])
        } else {
            None
        };
        proof {
            assert(span_in(text@, (s, e)));
        }
        let lexeme = lexeme_from_match(text, (s, e), multiplier);
        let ghost before = out@;
        out.push(lexeme);
        proof {
            assert(out@[before.len() as int]@ == lexeme_at(text@, (s, e)));
            assert(found.take(i + 1) =~= found.take(i as int).push(found[i as int]));
            assert(lexemes_of(out@) =~= lexemes_of(before).push(out@[before.len() as int]@));
        }
        i = i + 1;
    }
    proof {
        assert(found.take(i as int) =~= found);
        assert forall|a: int, b: int| 0 <= a < b < out.len() implies (#[trigger] out[a]).start
            <= (#[trigger] out[b]).start by {
            assert(span_in(text@, spans[a]));
            assert(spans[a].1 <= spans[b].0);
        }
    }
    out
}

/// Normalized digits never hold a comma: every comma is either a thousands separator,
/// which is dropped, or the decimal separator, which becomes `.`.
pub proof fn lemma_normalized_has_no_comma(s: Seq<char>)
    ensures
        !normalized_digits(s).contains(','),
{
    let r = normalized_digits(s);
    if r.contains(',') {
        let i = choose|i: int| 0 <= i < r.len() && r[i] == ',';
        let has_comma = s.contains(',');
        let has_dot = s.contains('.');
        if has_comma && has_dot {
            if last_index(s, ',') > last_index(s, '.') {
                assert(r[i] == '.');
            } else {
                s.lemma_filter_pred(differs(','), i);
            }
        } else if has_comma {
            let parts = split_parts(s, ',');
            if parts.len() > 1 && groups_of_three(parts) {
                s.lemma_filter_pred(differs(','), i);
            } else if parts.len() == 2 {
                assert(r[i] == '.');
            } else {
                s.lemma_filter_pred(differs(','), i);
            }
        } else if has_dot {
            let parts = split_parts(s, '.');
            if parts.len() > 2 && groups_of_three(parts) {
                s.lemma_filter_len(differs('.'));
                s.lemma_filter_contains_rev(differs('.'), ',');
            }
        }
    }
}

/// A number written with `±` stands for its magnitude: it is never negative.
pub proof fn lemma_plus_minus_is_magnitude(raw: Seq<char>)
    requires
        trim(raw).len() > 0,
        trim(raw)[0] == '±',
    ensures
        !lexeme_parts(raw).0,
{
}

/// A sign character put before a lexeme whose trimmed text carries no sign becomes its
/// sign; what follows is the lexeme with its trailing white space stripped.
proof fn lemma_signed_body(c: char, raw: Seq<char>)
    requires
        c == '±' || c == '+' || c == '-',
        !(trim(raw).len() > 0 && (trim(raw)[0] == '±' || trim(raw)[0] == '+' || trim(raw)[0]
            == '-')),
    ensures
        sign_and_body(trim(seq![c] + raw)) == (c == '-', strip_trailing(raw, white_space())),
{
    let p = white_space();
    let s = seq![c] + raw;
    assert(s[0] == c);
    assert(!is_white_space(c));
    assert(strip_leading(s, p) == s);
    lemma_strip_trailing_prepend(c, raw, p);
    let t = strip_trailing(raw, p);
    let ts = trim(s);
    assert(ts == seq![c] + t);
    assert(ts.drop_first() =~= t);
    lemma_strip_trailing_shape(raw, p);
    if t.len() > 0 {
        assert(t[0] == raw[0]);
        if !is_white_space(raw[0]) {
            assert(strip_leading(raw, p) == raw);
            assert(trim(raw) == t);
        }
        assert(t[0] != c);
    }
    assert(strip_leading(t, equals(c)) == t);
    assert(strip_leading(ts, equals(c)) == strip_leading(t, equals(c)));
}

/// A sign decides only the sign: for a lexeme whose trimmed text carries no sign, putting
/// `-` before it makes it negative, `+` or `±` keeps it non-negative, and its digits stay
/// the same.
pub proof fn lemma_sign_prefix(raw: Seq<char>)
    requires
        !(trim(raw).len() > 0 && (trim(raw)[0] == '±' || trim(raw)[0] == '+' || trim(raw)[0]
            == '-')),
    ensures
        !lexeme_parts(raw).0,
        lexeme_parts(seq!['-'] + raw) == (true, lexeme_parts(raw).1),
        lexeme_parts(seq!['+'] + raw) == (false, lexeme_parts(raw).1),
        lexeme_parts(seq!['±'] + raw) == (false, lexeme_parts(raw).1),
{
    lemma_trim_stable(raw);
    lemma_signed_body('-', raw);
    lemma_signed_body('+', raw);
    lemma_signed_body('±', raw);
    assert(sign_and_body(trim(raw)) == (false, trim(raw)));
}

/// Every character of `s` is an ASCII digit.
pub open spec fn all_ascii_digits(s: Seq<char>) -> bool {
    forall|i: int| 0 <= i < s.len() ==> is_ascii_digit(#[trigger] s[i])
}

/// The groups `g` written one after another with `sep` between neighbours.
pub open spec fn join_groups(g: Seq<Seq<char>>, sep: char) -> Seq<char>
    decreases g.len(),
{
    if g.len() == 0 {
        Seq::<char>::empty()
    } else if g.len() == 1 {
        g[0]
    } else {
        join_groups(g.drop_last(), sep) + seq![sep] + g.last()
    }
}

/// The groups `g` written one after another.
pub open spec fn concat_groups(g: Seq<Seq<char>>) -> Seq<char>
    decreases g.len(),
{
    if g.len() == 0 {
        Seq::<char>::empty()
    } else {
        concat_groups(g.drop_last()) + g.last()
    }
}

/// A text of ASCII characters has one byte per character.
proof fn lemma_utf8_len_ascii(s: Seq<char>)
    requires
        all_ascii_digits(s),
    ensures
        utf8_len(s) == s.len(),
    decreases s.len(),
{
    if s.len() > 0 {
        let t = s.drop_last();
        assert(all_ascii_digits(t)) by {
            assert forall|i: int| 0 <= i < t.len() implies is_ascii_digit(#[trigger] t[i]) by {
                assert(t[i] == s[i]);
            }
        }
        lemma_utf8_len_ascii(t);
        assert(is_ascii_digit(s.last()));
    }
}

/// Splitting a text that holds no separator gives the text itself.
proof fn lemma_split_no_sep(a: Seq<char>, sep: char)
    requires
        !a.contains(sep),
    ensures
        split_parts(a, sep) == seq![a],
    decreases a.len(),
{
    if a.len() == 0 {
        assert(seq![a] =~= seq![Seq::<char>::empty()]);
    } else {
        let t = a.drop_last();
        assert(!t.contains(sep)) by {
            if t.contains(sep) {
                let i = choose|i: int| 0 <= i < t.len() && t[i] == sep;
                assert(a[i] == sep);
            }
        }
        lemma_split_no_sep(t, sep);
        assert(a.last() != sep) by {
            assert(a[a.len() - 1] == a.last());
        }
        assert(t.push(a.last()) =~= a);
        assert(seq![t].update(0, t.push(a.last())) =~= seq![a]);
    }
}

/// A separator followed by a text without separators adds that text as the last piece.
proof fn lemma_split_append(a: Seq<char>, sep: char, b: Seq<char>)
    requires
        !b.contains(sep),
    ensures
        split_parts(a + seq![sep] + b, sep) == split_parts(a, sep).push(b),
    decreases b.len(),
{
    let s = a + seq![sep] + b;
    if b.len() == 0 {
        assert(s =~= a.push(sep));
        assert(s.drop_last() =~= a);
    } else {
        let b2 = b.drop_last();
        assert(!b2.contains(sep)) by {
            if b2.contains(sep) {
                let i = choose|i: int| 0 <= i < b2.len() && b2[i] == sep;
                assert(b[i] == sep);
            }
        }
        lemma_split_append(a, sep, b2);
        assert(s.drop_last() =~= a + seq![sep] + b2);
        assert(s.last() == b.last());
        assert(b.last() != sep) by {
            assert(b[b.len() - 1] == b.last());
        }
        assert(b2.push(b.last()) =~= b);
        let p = split_parts(a, sep);
        assert(p.push(b2).update(p.len() as int, b2.push(b.last())) =~= p.push(b));
    }
}

/// Groups of digits joined by `sep` split back into the groups; the text holds `sep`
/// exactly when there are two groups or more, and otherwise only digits.
proof fn lemma_join_split(g: Seq<Seq<char>>, sep: char)
    requires
        g.len() >= 1,
        !is_ascii_digit(sep),
        forall|i: int| 0 <= i < g.len() ==> all_ascii_digits(#[trigger] g[i]),
    ensures
        split_parts(join_groups(g, sep), sep) == g,
        forall|i: int|
            0 <= i < join_groups(g, sep).len() ==> is_ascii_digit(#[trigger] join_groups(g, sep)[i])
                || join_groups(g, sep)[i] == sep,
        g.len() >= 2 ==> join_groups(g, sep).contains(sep),
        join_groups(g, sep).filter(differs(sep)) == concat_groups(g),
    decreases g.len(),
{
    let j = join_groups(g, sep);
    assert forall|i: int| 0 <= i < g.len() implies !(#[trigger] g[i]).contains(sep) by {
        if g[i].contains(sep) {
            let k = choose|k: int| 0 <= k < g[i].len() && g[i][k] == sep;
            assert(is_ascii_digit(g[i][k]));
        }
    }
    lemma_filter_keeps_all(g.last(), differs(sep));
    if g.len() == 1 {
        lemma_split_no_sep(g[0], sep);
        assert(g =~= seq![g[0]]);
        assert(concat_groups(g) =~= g[0]) by {
            assert(g.drop_last() =~= Seq::<Seq<char>>::empty());
            assert(concat_groups(g.drop_last()) == Seq::<char>::empty());
            assert(g.last() == g[0]);
        }
    } else {
        let h = g.drop_last();
        assert forall|i: int| 0 <= i < h.len() implies all_ascii_digits(#[trigger] h[i]) by {
            assert(h[i] == g[i]);
        }
        lemma_join_split(h, sep);
        let jh = join_groups(h, sep);
        lemma_split_append(jh, sep, g.last());
        assert(h.push(g.last()) =~= g);
        assert forall|i: int| 0 <= i < j.len() implies is_ascii_digit(#[trigger] j[i]) || j[i]
            == sep by {
            if i < jh.len() {
                assert(j[i] == jh[i]);
            } else if i > jh.len() {
                assert(j[i] == g.last()[i - jh.len() - 1]);
            }
        }
        assert(j[jh.len() as int] == sep);
        Seq::filter_distributes_over_add(jh + seq![sep], g.last(), differs(sep));
        Seq::filter_distributes_over_add(jh, seq![sep], differs(sep));
        reveal_with_fuel(Seq::filter, 2);
        assert(seq![sep].drop_last() =~= Seq::<char>::empty());
        assert(seq![sep].filter(differs(sep)) =~= Seq::<char>::empty());
    }
}

/// Thousands separators: digit groups joined by commas, every group after the first
/// exactly three digits long, normalize to the digits alone (`14,000` gives `14000`,
/// `1,234,567` gives `1234567`).
pub proof fn lemma_comma_thousands(g: Seq<Seq<char>>)
    requires
        g.len() >= 2,
        forall|i: int| 0 <= i < g.len() ==> all_ascii_digits(#[trigger] g[i]),
        forall|i: int| 1 <= i < g.len() ==> (#[trigger] g[i]).len() == 3,
    ensures
        normalized_digits(join_groups(g, ',')) == concat_groups(g),
{
    let s = join_groups(g, ',');
    lemma_join_split(g, ',');
    assert(!s.contains('.')) by {
        if s.contains('.') {
            let i = choose|i: int| 0 <= i < s.len() && s[i] == '.';
            assert(is_ascii_digit(s[i]) || s[i] == ',');
        }
    }
    assert forall|i: int| 1 <= i < g.len() implies utf8_len(#[trigger] g[i]) == 3 by {
        lemma_utf8_len_ascii(g[i]);
    }
    assert(groups_of_three(split_parts(s, ',')));
}

/// Decimal comma: digits, one comma, then a group of digits that is not three long,
/// normalize to the same digits with a decimal point (`92,5` gives `92.5`).
pub proof fn lemma_decimal_comma(a: Seq<char>, b: Seq<char>)
    requires
        all_ascii_digits(a),
        all_ascii_digits(b),
        b.len() != 3,
    ensures
        normalized_digits(a + seq![','] + b) == a + seq!['.'] + b,
{
    let g = seq![a, b];
    assert(join_groups(g, ',') =~= a + seq![','] + b) by {
        assert(g.drop_last() =~= seq![a]);
        assert(join_groups(seq![a], ',') == a);
        assert(g.last() == b);
    }
    lemma_join_split(g, ',');
    let s = a + seq![','] + b;
    assert(!s.contains('.')) by {
        if s.contains('.') {
            let i = choose|i: int| 0 <= i < s.len() && s[i] == '.';
            assert(is_ascii_digit(s[i]) || s[i] == ',');
        }
    }
    lemma_utf8_len_ascii(b);
    assert(!groups_of_three(split_parts(s, ',')));
    assert(replace_char(s, ',', '.') =~= a + seq!['.'] + b);
}

/// Decimal point: digits, one dot, then digits stay as they are (`0.125` stays `0.125`,
/// whatever the length of the fraction).
pub proof fn lemma_single_dot(a: Seq<char>, b: Seq<char>)
    requires
        all_ascii_digits(a),
        all_ascii_digits(b),
    ensures
        normalized_digits(a + seq!['.'] + b) == a + seq!['.'] + b,
{
    let g = seq![a, b];
    assert(join_groups(g, '.') =~= a + seq!['.'] + b) by {
        assert(g.drop_last() =~= seq![a]);
        assert(join_groups(seq![a], '.') == a);
        assert(g.last() == b);
    }
    lemma_join_split(g, '.');
    let s = a + seq!['.'] + b;
    assert(!s.contains(',')) by {
        if s.contains(',') {
            let i = choose|i: int| 0 <= i < s.len() && s[i] == ',';
            assert(is_ascii_digit(s[i]) || s[i] == '.');
        }
    }
    assert(split_parts(s, '.').len() == 2);
}

/// The multiplier of a lexeme is the factor of the word found after the number, read in
/// the text itself, whatever the number's digits are (integer or decimal); the word moves
/// the lexeme's end past it and leaves its sign and digits alone.
pub proof fn lemma_multiplier_from_word(text: Seq<char>, sp: (usize, usize), w: (usize, usize))
    requires
        encode_utf8(text).len() <= usize::MAX,
        span_in(text, sp),
        span_in(bytes_text(text, sp.1 as int, encode_utf8(text).len() as int), w),
    ensures
        lexeme_view(text, sp, Some(w)).multiplier == multiplier_of(
            bytes_text(text, sp.1 + w.0, sp.1 + w.1),
        ),
        lexeme_view(text, sp, Some(w)).end == sp.1 + w.1,
        lexeme_view(text, sp, Some(w)).digits == lexeme_view(text, sp, None).digits,
        lexeme_view(text, sp, Some(w)).negative == lexeme_view(text, sp, None).negative,
        lexeme_view(text, sp, None).multiplier == 1,
{
    let bytes = encode_utf8(text);
    let n = bytes.len() as int;
    let e = sp.1 as int;
    let sub = bytes.subrange(e, n);
    encode_utf8_valid_utf8(text);
    valid_utf8_split(bytes, e);
    decode_utf8_encode_utf8(sub);
    let suffix = bytes_text(text, e, n);
    assert(encode_utf8(suffix) == sub);
    assert(sub.subrange(w.0 as int, w.1 as int) =~= bytes.subrange(e + w.0, e + w.1));
}

/// Every word the multiplier pattern accepts gets its factor once trimmed and lower-cased:
/// any word starting with `тыс` (`тыс`, `тыс.`, `тысяч`, `тысяча`, `тысячи`) or
/// `thousand` stands for 1000; `млн`, `миллион…`, `million` for 1_000_000; `млрд`,
/// `миллиард…`, `billion` for 1_000_000_000.
pub proof fn lemma_multiplier_words(rest: Seq<char>)
    ensures
        factor_of_lowercase("тыс"@ + rest) == 1_000,
        factor_of_lowercase("thousand"@ + rest) == 1_000,
        factor_of_lowercase("млн"@ + rest) == 1_000_000,
        factor_of_lowercase("миллион"@ + rest) == 1_000_000,
        factor_of_lowercase("million"@ + rest) == 1_000_000,
        factor_of_lowercase("млрд"@ + rest) == 1_000_000_000,
        factor_of_lowercase("миллиард"@ + rest) == 1_000_000_000,
        factor_of_lowercase("billion"@ + rest) == 1_000_000_000,
{
    reveal_strlit("тыс");
    reveal_strlit("thousand");
    reveal_strlit("млн");
    reveal_strlit("миллион");
    reveal_strlit("million");
    reveal_strlit("млрд");
    reveal_strlit("миллиард");
    reveal_strlit("billion");
    let forms = seq![
        "тыс"@,
        "thousand"@,
        "млн"@,
        "миллион"@,
        "million"@,
        "млрд"@,
        "миллиард"@,
        "billion"@,
    ];
    assert forall|i: int| 0 <= i < forms.len() implies #[trigger] forms[i].is_prefix_of(
        forms[i] + rest,
    ) by {
        assert((forms[i] + rest).subrange(0, forms[i].len() as int) =~= forms[i]);
    }
    let w0 = "тыс"@ + rest;
    let w1 = "thousand"@ + rest;
    let w2 = "млн"@ + rest;
    let w3 = "миллион"@ + rest;
    let w4 = "million"@ + rest;
    let w5 = "млрд"@ + rest;
    let w6 = "миллиард"@ + rest;
    let w7 = "billion"@ + rest;
    assert(forms[0].is_prefix_of(w0) && forms[1].is_prefix_of(w1) && forms[2].is_prefix_of(w2)
        && forms[3].is_prefix_of(w3) && forms[4].is_prefix_of(w4) && forms[5].is_prefix_of(w5)
        && forms[6].is_prefix_of(w6) && forms[7].is_prefix_of(w7));
    // the characters at which the forms differ from the ones checked before them
    assert(w0[0] == 'т' && w1[0] == 't' && w2[0] == 'м' && w2[1] == 'л' && w2[2] == 'н' && w3[0]
        == 'м' && w3[1] == 'и' && w3[5] == 'о' && w4[0] == 'm');
}

} // verus!
