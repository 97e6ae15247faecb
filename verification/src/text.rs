//! Character-level helpers: whitespace trimming, prefix stripping, ASCII digits, UTF-8
//! byte lengths and byte-offset slicing, and building strings from characters.
//!
//! Text is modelled by its sequence of Unicode scalar values (`s@`); byte offsets are
//! positions in its UTF-8 encoding (`s.spec_bytes()`).

use vstd::prelude::*;
use vstd::string::StringSliceAdditionalSpecFns;
use vstd::utf8::*;

verus! {

broadcast use vstd::string::group_string_axioms;

/// The Unicode `White_Space` property, the set that `char::is_whitespace` tests.
pub open spec fn is_white_space(c: char) -> bool {
    ||| ('\u{9}' <= c && c <= '\u{d}')
    ||| c == ' '
    ||| c == '\u{85}'
    ||| c == '\u{a0}'
    ||| c == '\u{1680}'
    ||| ('\u{2000}' <= c && c <= '\u{200a}')
    ||| c == '\u{2028}'
    ||| c == '\u{2029}'
    ||| c == '\u{202f}'
    ||| c == '\u{205f}'
    ||| c == '\u{3000}'
}

/// Whether `c` has the Unicode `White_Space` property.
pub fn is_white_space_char(c: char) -> (r: bool)
    ensures
        r == is_white_space(c),
{
    ('\u{9}' <= c && c <= '\u{d}') || c == ' ' || c == '\u{85}' || c == '\u{a0}' || c
        == '\u{1680}' || ('\u{2000}' <= c && c <= '\u{200a}') || c == '\u{2028}' || c
        == '\u{2029}' || c == '\u{202f}' || c == '\u{205f}' || c == '\u{3000}'
}

/// An ASCII decimal digit `'0'..='9'`.
pub open spec fn is_ascii_digit(c: char) -> bool {
    '0' <= c && c <= '9'
}

/// Whether `c` is an ASCII decimal digit.
pub fn is_ascii_digit_char(c: char) -> (r: bool)
    ensures
        r == is_ascii_digit(c),
{
    '0' <= c && c <= '9'
}

/// The predicate "is a white-space character".
pub open spec fn white_space() -> spec_fn(char) -> bool {
    |c: char| is_white_space(c)
}

/// The predicate "is the character `x`".
pub open spec fn equals(x: char) -> spec_fn(char) -> bool {
    |c: char| c == x
}

/// The predicate "is an ASCII digit".
pub open spec fn ascii_digit() -> spec_fn(char) -> bool {
    |c: char| is_ascii_digit(c)
}

/// `s` without its leading characters that satisfy `p`.
pub open spec fn strip_leading(s: Seq<char>, p: spec_fn(char) -> bool) -> Seq<char>
    decreases s.len(),
{
    if s.len() > 0 && p(s[0]) {
        strip_leading(s.drop_first(), p)
    } else {
        s
    }
}

/// `s` without its trailing characters that satisfy `p`.
pub open spec fn strip_trailing(s: Seq<char>, p: spec_fn(char) -> bool) -> Seq<char>
    decreases s.len(),
{
    if s.len() > 0 && p(s.last()) {
        strip_trailing(s.drop_last(), p)
    } else {
        s
    }
}

/// `s` without leading and trailing white space (what `str::trim` returns).
pub open spec fn trim(s: Seq<char>) -> Seq<char> {
    strip_trailing(strip_leading(s, white_space()), white_space())
}

/// Number of bytes of the UTF-8 encoding of `c`.
pub open spec fn utf8_width(c: char) -> nat {
    if (c as u32) < 0x80 {
        1
    } else if (c as u32) < 0x800 {
        2
    } else if (c as u32) < 0x10000 {
        3
    } else {
        4
    }
}

/// Number of bytes of the UTF-8 encoding of `s` (what `str::len` returns).
pub open spec fn utf8_len(s: Seq<char>) -> nat
    decreases s.len(),
{
    if s.len() == 0 {
        0
    } else {
        utf8_len(s.drop_last()) + utf8_width(s.last())
    }
}

/// Stripping a prefix whose characters all satisfy `p` does not change the result.
proof fn lemma_strip_leading_skip(s: Seq<char>, p: spec_fn(char) -> bool, i: int)
    requires
        0 <= i <= s.len(),
        forall|j: int| 0 <= j < i ==> #[trigger] p(s[j]),
    ensures
        strip_leading(s, p) == strip_leading(s.skip(i), p),
    decreases i,
{
    if i == 0 {
        assert(s.skip(0) =~= s);
    } else {
        assert(p(s[0]));
        let t = s.drop_first();
        assert forall|j: int| 0 <= j < i - 1 implies #[trigger] p(t[j]) by {
            assert(t[j] == s[j + 1]);
        }
        lemma_strip_leading_skip(t, p, i - 1);
        assert(t.skip(i - 1) =~= s.skip(i));
    }
}

/// Stripping a suffix whose characters all satisfy `p` does not change the result.
proof fn lemma_strip_trailing_take(s: Seq<char>, p: spec_fn(char) -> bool, i: int)
    requires
        0 <= i <= s.len(),
        forall|j: int| i <= j < s.len() ==> #[trigger] p(s[j]),
    ensures
        strip_trailing(s, p) == strip_trailing(s.take(i), p),
    decreases s.len() - i,
{
    if i == s.len() {
        assert(s.take(i) =~= s);
    } else {
        assert(p(s.last()));
        let t = s.drop_last();
        assert forall|j: int| i <= j < t.len() implies #[trigger] p(t[j]) by {
            assert(t[j] == s[j]);
        }
        lemma_strip_trailing_take(t, p, i);
        assert(t.take(i) =~= s.take(i));
    }
}

/// Stripping trailing characters leaves a prefix, which is empty or ends in a character
/// that does not satisfy `p`.
pub proof fn lemma_strip_trailing_shape(s: Seq<char>, p: spec_fn(char) -> bool)
    ensures
        strip_trailing(s, p).len() <= s.len(),
        strip_trailing(s, p) =~= s.take(strip_trailing(s, p).len() as int),
        strip_trailing(s, p).len() == 0 || !p(strip_trailing(s, p).last()),
    decreases s.len(),
{
    if s.len() > 0 && p(s.last()) {
        lemma_strip_trailing_shape(s.drop_last(), p);
    }
}

/// Stripping leading characters leaves a suffix that is empty or starts with a character
/// that does not satisfy `p`.
pub proof fn lemma_strip_leading_shape(s: Seq<char>, p: spec_fn(char) -> bool)
    ensures
        strip_leading(s, p).len() == 0 || !p(strip_leading(s, p)[0]),
    decreases s.len(),
{
    if s.len() > 0 && p(s[0]) {
        lemma_strip_leading_shape(s.drop_first(), p);
    }
}

/// Stripping twice is stripping once.
pub proof fn lemma_strip_idempotent(s: Seq<char>, p: spec_fn(char) -> bool)
    ensures
        strip_leading(strip_leading(s, p), p) == strip_leading(s, p),
        strip_trailing(strip_trailing(s, p), p) == strip_trailing(s, p),
{
    lemma_strip_leading_shape(s, p);
    lemma_strip_trailing_shape(s, p);
}

/// Prepending a character `c` to `t` before stripping trailing characters: `c` stays unless
/// it satisfies `p` and nothing of `t` remains.
pub proof fn lemma_strip_trailing_prepend(c: char, t: Seq<char>, p: spec_fn(char) -> bool)
    ensures
        strip_trailing(seq![c] + t, p) == if p(c) && strip_trailing(t, p).len() == 0 {
            Seq::<char>::empty()
        } else {
            seq![c] + strip_trailing(t, p)
        },
    decreases t.len(),
{
    let s = seq![c] + t;
    if t.len() == 0 {
        assert(s =~= seq![c]);
        assert(s.drop_last() =~= Seq::<char>::empty());
        assert(strip_trailing(t, p) == t);
        assert(strip_trailing(s.drop_last(), p) == s.drop_last());
        assert(seq![c] + t =~= seq![c]);
        if p(c) {
            assert(strip_trailing(s, p) == strip_trailing(s.drop_last(), p));
        } else {
            assert(strip_trailing(s, p) == s);
        }
    } else if p(t.last()) {
        assert(s.drop_last() =~= seq![c] + t.drop_last());
        assert(s.last() == t.last());
        assert(strip_trailing(s, p) == strip_trailing(s.drop_last(), p));
        assert(strip_trailing(t, p) == strip_trailing(t.drop_last(), p));
        lemma_strip_trailing_prepend(c, t.drop_last(), p);
    } else {
        assert(s.last() == t.last());
        assert(strip_trailing(s, p) == s);
        assert(strip_trailing(t, p) == t);
    }
}

/// Stripping leading and trailing characters can be done in either order.
pub proof fn lemma_strip_commute(s: Seq<char>, p: spec_fn(char) -> bool)
    ensures
        strip_leading(strip_trailing(s, p), p) == strip_trailing(strip_leading(s, p), p),
    decreases s.len(),
{
    if s.len() > 0 {
        let c = s[0];
        let t = s.drop_first();
        assert(s =~= seq![c] + t);
        lemma_strip_trailing_prepend(c, t, p);
        if p(c) {
            lemma_strip_commute(t, p);
            let st = strip_trailing(t, p);
            if st.len() > 0 {
                assert((seq![c] + st).drop_first() =~= st);
            }
        } else {
            let st = strip_trailing(t, p);
            assert((seq![c] + st)[0] == c);
        }
    }
}

/// Trimming the text after its trailing white space is stripped, or after it was trimmed,
/// gives its trim.
pub proof fn lemma_trim_stable(s: Seq<char>)
    ensures
        trim(strip_trailing(s, white_space())) == trim(s),
        trim(trim(s)) == trim(s),
{
    let p = white_space();
    lemma_strip_commute(s, p);
    lemma_strip_idempotent(strip_leading(s, p), p);
    lemma_strip_commute(strip_leading(s, p), p);
    lemma_strip_idempotent(s, p);
}

/// Filtering by a predicate that every character satisfies keeps the text.
pub proof fn lemma_filter_keeps_all(s: Seq<char>, p: spec_fn(char) -> bool)
    requires
        forall|i: int| 0 <= i < s.len() ==> p(#[trigger] s[i]),
    ensures
        s.filter(p) == s,
    decreases s.len(),
{
    reveal(Seq::filter);
    if s.len() > 0 {
        let t = s.drop_last();
        assert forall|i: int| 0 <= i < t.len() implies p(#[trigger] t[i]) by {
            assert(t[i] == s[i]);
        }
        lemma_filter_keeps_all(t, p);
        assert(p(s[s.len() - 1]));
        assert(t.push(s.last()) =~= s);
    }
}

/// The characters of `v` from index `from` up to `to`.
pub fn sub_chars(v: &Vec<char>, from: usize, to: usize) -> (r: Vec<char>)
    requires
        from <= to <= v.len(),
    ensures
        r@ == v@.subrange(from as int, to as int),
{
    let mut r: Vec<char> = Vec::new();
    let mut i = from;
    while i < to
        invariant
            from <= i <= to <= v.len(),
            r@ =~= v@.subrange(from as int, i as int),
        decreases to - i,
    {
        r.push(v[i]);
        i = i + 1;
    }
    r
}

/// Index of the first character of `v` that is not white space
/// (`v.len()` when there is none).
fn skip_white_space(v: &Vec<char>) -> (k: usize)
    ensures
        k <= v.len(),
        forall|j: int| 0 <= j < k ==> is_white_space(#[trigger] v@[j]),
        k < v.len() ==> !is_white_space(v@[k as int]),
{
    let mut k: usize = 0;
    while k < v.len() && is_white_space_char(v[k])
        invariant
            k <= v.len(),
            forall|j: int| 0 <= j < k ==> is_white_space(#[trigger] v@[j]),
        decreases v.len() - k,
    {
        k = k + 1;
    }
    k
}

/// `v` without leading and trailing white space.
pub fn trim_chars(v: &Vec<char>) -> (r: Vec<char>)
    ensures
        r@ == trim(v@),
{
    let a = skip_white_space(v);
    let mut b = v.len();
    while b > a && is_white_space_char(v[b - 1])
        invariant
            a <= b <= v.len(),
            forall|j: int| b <= j < v.len() ==> is_white_space(#[trigger] v@[j]),
        decreases b,
    {
        b = b - 1;
    }
    let r = sub_chars(v, a, b);
    proof {
        let s = v@;
        let p = white_space();
        assert forall|j: int| 0 <= j < a implies #[trigger] p(s[j]) by {}
        lemma_strip_leading_skip(s, p, a as int);
        let l = strip_leading(s, p);
        assert(l == s.skip(a as int));
        assert forall|j: int| (b - a) <= j < l.len() implies #[trigger] p(l[j]) by {
            assert(l[j] == s[j + a]);
        }
        lemma_strip_trailing_take(l, p, (b - a) as int);
        assert(l.take((b - a) as int) =~= r@);
    }
    r
}

/// `v` without its leading occurrences of `x` (what `str::trim_start_matches(x)` returns).
pub fn strip_leading_char(v: &Vec<char>, x: char) -> (r: Vec<char>)
    ensures
        r@ == strip_leading(v@, equals(x)),
{
    let mut a: usize = 0;
    while a < v.len() && v[a] == x
        invariant
            a <= v.len(),
            forall|j: int| 0 <= j < a ==> #[trigger] v@[j] == x,
        decreases v.len() - a,
    {
        a = a + 1;
    }
    let r = sub_chars(v, a, v.len());
    proof {
        let p = equals(x);
        assert forall|j: int| 0 <= j < a implies #[trigger] p(v@[j]) by {}
        lemma_strip_leading_skip(v@, p, a as int);
        assert(v@.skip(a as int) =~= r@);
    }
    r
}

/// `v` without its trailing occurrences of `x` (what `str::trim_end_matches(x)` returns).
pub fn strip_trailing_char(v: &Vec<char>, x: char) -> (r: Vec<char>)
    ensures
        r@ == strip_trailing(v@, equals(x)),
{
    let mut b = v.len();
    while b > 0 && v[b - 1] == x
        invariant
            b <= v.len(),
            forall|j: int| b <= j < v.len() ==> #[trigger] v@[j] == x,
        decreases b,
    {
        b = b - 1;
    }
    let r = sub_chars(v, 0, b);
    proof {
        let p = equals(x);
        assert forall|j: int| b <= j < v.len() implies #[trigger] p(v@[j]) by {}
        lemma_strip_trailing_take(v@, p, b as int);
        assert(v@.take(b as int) =~= r@);
    }
    r
}

/// The characters of `s`, in order.
pub fn chars_of(s: &str) -> (v: Vec<char>)
    ensures
        v@ == s@,
{
    let mut v: Vec<char> = Vec::new();
    for c in it: s.chars()
        invariant
            v@ == it.seq().take(it.index() as int),
            it.seq() == s@,
    {
        v.push(c);
    }
    v
}

/// `String::push`: appends the character `c` to `s`.
#[verifier::external_body]
pub(crate) fn push_char(s: &mut String, c: char)
    ensures
        final(s)@ == old(s)@.push(c),
{
    s.push(c);
}

/// A string holding the characters of `v`.
pub fn string_of(v: &Vec<char>) -> (s: String)
    ensures
        s@ == v@,
{
    let mut s = String::new();
    let mut i: usize = 0;
    while i < v.len()
        invariant
            i <= v.len(),
            s@ =~= v@.take(i as int),
        decreases v.len() - i,
    {
        push_char(&mut s, v[i]);
        i = i + 1;
    }
    s
}

/// A string holding `prefix` followed by the characters of `v`.
pub fn string_with_suffix(prefix: &str, v: &Vec<char>) -> (s: String)
    ensures
        s@ == prefix@ + v@,
{
    let mut s = String::from_str(prefix);
    let mut i: usize = 0;
    while i < v.len()
        invariant
            i <= v.len(),
            s@ =~= prefix@ + v@.take(i as int),
        decreases v.len() - i,
    {
        push_char(&mut s, v[i]);
        i = i + 1;
    }
    s
}

/// The lower-case mapping of `s` as `str::to_lowercase` computes it (Unicode case tables).
pub uninterp spec fn lowercase(s: Seq<char>) -> Seq<char>;

/// `str::to_lowercase`: the lower-case form of `s`, by the Unicode lower-case mapping. What
/// that mapping gives for each character is not written out here; it is named [`lowercase`].
#[verifier::external_body]
pub(crate) fn to_lowercase(s: &str) -> (r: String)
    ensures
        r@ == lowercase(s@),
{
    s.to_lowercase()
}

/// The text of `s` between the byte offsets `from` and `to`, both on character boundaries.
pub fn byte_slice(s: &str, from: usize, to: usize) -> (r: &str)
    requires
        from <= to <= s.spec_bytes().len(),
        is_char_boundary(s.spec_bytes(), from as int),
        is_char_boundary(s.spec_bytes(), to as int),
    ensures
        r.spec_bytes() == s.spec_bytes().subrange(from as int, to as int),
        r@ == decode_utf8(s.spec_bytes().subrange(from as int, to as int)),
{
    let (head, _) = s.split_at(to);
    proof {
        let bytes = s.spec_bytes();
        let hb = head.spec_bytes();
        encode_utf8_valid_utf8(s@);
        encode_utf8_valid_utf8(head@);
        if from < to {
            is_char_boundary_iff_not_is_continuation_byte(bytes, from as int);
            is_char_boundary_iff_not_is_continuation_byte(hb, from as int);
        } else {
            is_char_boundary_start_end_of_seq(hb);
        }
    }
    let (_, piece) = head.split_at(from);
    proof {
        encode_utf8_decode_utf8(piece@);
        assert(piece.spec_bytes() =~= s.spec_bytes().subrange(from as int, to as int));
    }
    piece
}

} // verus!
