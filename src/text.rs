//! Text primitives that this crate takes from `std` and from `regex`, and
//! names for what they return.
use vstd::prelude::*;

verus! {

/// The lower-case form of a string, as `str::to_lowercase` gives it.
pub uninterp spec fn lower_of(s: Seq<char>) -> Seq<char>;

/// The words of a string, as `str::split_whitespace` gives them.
pub uninterp spec fn words_of(s: Seq<char>) -> Seq<Seq<char>>;

/// The pieces of a text between punctuation marks, as the split on the
/// punctuation pattern of `Rake` gives them.
pub uninterp spec fn punct_pieces(s: Seq<char>) -> Seq<Seq<char>>;

/// Whether a token holds a number, as a match of the number pattern of
/// `Rake` decides it.
pub uninterp spec fn number_like(s: Seq<char>) -> bool;

#[verifier::external_type_specification]
#[verifier::external_body]
pub struct ExRegex(regex::Regex);

/// Relies on `str::to_lowercase`: the result depends on the characters alone.
#[verifier::external_body]
pub(crate) fn lowercase(s: &str) -> (r: String)
    ensures
        r@ == lower_of(s@),
{
    s.to_lowercase()
}

/// Relies on `str::split_whitespace`: the words of `s`, in order.
#[verifier::external_body]
pub(crate) fn split_words(s: &str) -> (r: Vec<String>)
    ensures
        r.deep_view() == words_of(s@),
{
    s.split_whitespace().map(|w| w.to_string()).collect()
}

/// The pattern of a number: an optional minus, digits, and an optional
/// separator followed by more digits.
pub open spec fn number_pattern() -> Seq<char> {
    "-?\\p{N}+[./\u{066B},']?\\p{N}*"@
}

/// The pattern of a separator: a punctuation mark other than a hyphen, or a
/// hyphen with whitespace on both sides.
pub open spec fn punct_pattern() -> Seq<char> {
    "[^\\P{P}-]|\\s+-\\s+"@
}

/// Relies on `regex::Regex::new`, which compiles both patterns above: the
/// `expect` never fires on them.
#[verifier::external_body]
pub(crate) fn compile(pattern: &str) -> (r: regex::Regex)
    requires
        pattern@ == number_pattern() || pattern@ == punct_pattern(),
{
    regex::Regex::new(pattern).expect("bad regex")
}

} // verus!
