use vstd::prelude::*;

verus! {

/// Whether the regular expression `pattern` matches somewhere in `text`;
/// `None` where `pattern` is not a valid expression.
pub uninterp spec fn regex_match_of(pattern: Seq<char>, text: Seq<char>) -> Option<bool>;

/// `text` with the leftmost match of `pattern` replaced by `with`, where `$`
/// references in `with` stand for groups of the match; `None` where `pattern`
/// is not a valid expression.
pub uninterp spec fn regex_replace_of(pattern: Seq<char>, text: Seq<char>, with: Seq<char>) -> Option<Seq<char>>;

/// `s` without its leading and trailing whitespace.
pub uninterp spec fn trim_of(s: Seq<char>) -> Seq<char>;

/// An ASCII letter or digit.
pub open spec fn is_ascii_alnum(c: char) -> bool {
    ('a' <= c && c <= 'z') || ('A' <= c && c <= 'Z') || ('0' <= c && c <= '9')
}

/// One or more ASCII letters or digits, and nothing else.
pub open spec fn is_alnum_word(s: Seq<char>) -> bool {
    s.len() > 0 && forall|i: int| 0 <= i < s.len() ==> is_ascii_alnum(#[trigger] s[i])
}

/// A printable ASCII character other than space: never whitespace.
pub open spec fn is_ascii_graphic(c: char) -> bool {
    '!' <= c && c <= '~'
}

/// Relies on regex::Regex::new, then Regex::is_match: compiles `pattern` and
/// tells whether it matches in `text`. The class `[a-zA-Z0-9]` holds the ASCII
/// letters and digits, and `^` and `$` without the `m` flag match only at the
/// start and the end of `text`, so `^[a-zA-Z0-9]+$` matches exactly the
/// non-empty texts made of those characters.
#[verifier::external_body]
pub(crate) fn regex_is_match(pattern: &str, text: &str) -> (r: Option<bool>)
    ensures
        r == regex_match_of(pattern@, text@),
        pattern@ == "^[a-zA-Z0-9]+$"@ ==> r == Some(is_alnum_word(text@)),
{
    match regex::Regex::new(pattern) {
        Ok(re) => Some(re.is_match(text)),
        Err(_) => None,
    }
}

/// Relies on regex::Regex::new, then Regex::replace: compiles `pattern` and
/// replaces its leftmost match in `text` by `with`.
#[verifier::external_body]
pub(crate) fn regex_replace_first(pattern: &str, text: &str, with: &str) -> (r: Option<String>)
    ensures
        r is None <==> regex_replace_of(pattern@, text@, with@) is None,
        r matches Some(s) ==> regex_replace_of(pattern@, text@, with@) == Some(s@),
{
    match regex::Regex::new(pattern) {
        Ok(re) => Some(re.replace(text, with).into_owned()),
        Err(_) => None,
    }
}

/// Relies on str::trim: the text without leading and trailing whitespace. It is
/// no longer than the text, and a text that starts and ends with a
/// character that is not whitespace comes back whole.
#[verifier::external_body]
pub(crate) fn trimmed(s: &str) -> (r: String)
    ensures
        r@ == trim_of(s@),
        r@.len() <= s@.len(),
        (s@.len() == 0 || (is_ascii_graphic(s@[0]) && is_ascii_graphic(s@.last()))) ==> r@ == s@,
{
    s.trim().to_string()
}

} // verus!
