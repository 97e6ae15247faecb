//! The regular-expression engine (the `regex` crate) behind the PII and numeric scanners.
//!
//! What a regular expression matches is not restated here: the matches that
//! `regex::Regex::find_iter` reports are named by [`regex_find_spans`], a function of the
//! pattern and the searched text alone. The trusted items below state, besides that name,
//! only what the `regex` documentation guarantees of every match: `start <= end`, both
//! offsets fall on UTF-8 character boundaries of the searched text, and `is_match` is true
//! exactly when a match exists.

use vstd::prelude::*;
use vstd::string::StringSliceAdditionalSpecFns;
use vstd::utf8::{encode_utf8, is_char_boundary};

verus! {

/// Byte spans `(start, end)` of the successive non-overlapping matches of the regular
/// expression `pattern` in `text`, in the order `regex::Regex::find_iter` yields them
/// (leftmost first); the empty sequence when `pattern` is not a valid regular expression.
pub uninterp spec fn regex_find_spans(pattern: Seq<char>, text: Seq<char>) -> Seq<(usize, usize)>;

/// The byte span `sp` lies in `text` (`start <= end <= ` its UTF-8 length) and starts and
/// ends on character boundaries.
pub open spec fn span_in(text: Seq<char>, sp: (usize, usize)) -> bool {
    &&& sp.0 <= sp.1 <= encode_utf8(text).len()
    &&& is_char_boundary(encode_utf8(text), sp.0 as int)
    &&& is_char_boundary(encode_utf8(text), sp.1 as int)
}

/// Every span lies inside `text` and starts and ends on character boundaries.
pub open spec fn spans_within(spans: Seq<(usize, usize)>, text: &str) -> bool {
    forall|i: int| 0 <= i < spans.len() ==> span_in(text@, #[trigger] spans[i])
}

/// Each span ends no later than any later span starts (successive, non-overlapping).
pub open spec fn spans_successive(spans: Seq<(usize, usize)>) -> bool {
    forall|i: int, j: int| 0 <= i < j < spans.len() ==> #[trigger] spans[i].1 <= #[trigger] spans[j].0
}

/// `regex::Regex::new` followed by `regex::Regex::find_iter`: the byte spans of all
/// matches of `pattern` in `text` (none when `pattern` does not compile). The contract
/// claims that the result is [`regex_find_spans`] of the arguments, that each span
/// satisfies the bounds the `regex::Match` documentation guarantees, and that the spans are
/// successive and non-overlapping, as the `find_iter` documentation states.
#[verifier::external_body]
pub(crate) fn find_spans(pattern: &str, text: &str) -> (spans: Vec<(usize, usize)>)
    ensures
        spans@ == regex_find_spans(pattern@, text@),
        spans_within(spans@, text),
        spans_successive(spans@),
{
    match regex::Regex::new(pattern) {
        Ok(re) => re.find_iter(text).map(|m| (m.start(), m.end())).collect(),
        Err(_) => Vec::new(),
    }
}

/// `regex::Regex::new` followed by `regex::Regex::is_match`: whether `pattern` matches
/// anywhere in `text` (false when `pattern` does not compile). The contract claims, as the
/// `regex` documentation states, that this holds exactly when `find_iter` reports a match.
#[verifier::external_body]
pub(crate) fn has_match(pattern: &str, text: &str) -> (found: bool)
    ensures
        found == (regex_find_spans(pattern@, text@).len() > 0),
{
    match regex::Regex::new(pattern) {
        Ok(re) => re.is_match(text),
        Err(_) => false,
    }
}

} // verus!
