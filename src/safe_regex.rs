//! A regular expression compiled under fixed size limits, with find, match
//! and replace.
use vstd::prelude::*;

verus! {

#[verifier::external_type_specification]
#[verifier::external_body]
pub struct ExRegex(regex::Regex);

#[verifier::external_type_specification]
#[verifier::external_body]
pub struct ExRegexError(regex::Error);

/// Whether `pattern` compiles with the given options and limits.
pub uninterp spec fn regex_compiles(
    pattern: Seq<char>,
    multi_line: bool,
    size_limit: nat,
    dfa_size_limit: nat,
) -> bool;

/// Whether the regex of `pattern` matches anywhere in `text`.
pub uninterp spec fn regex_is_match(pattern: Seq<char>, multi_line: bool, text: Seq<char>) -> bool;

/// The text of the leftmost-first match of the regex of `pattern` in `text`.
pub uninterp spec fn regex_find(pattern: Seq<char>, multi_line: bool, text: Seq<char>) -> Option<
    Seq<char>,
>;

/// `text` with the leftmost-first match of the regex of `pattern` replaced by
/// `replacement` (where `$name` and `${name}` stand for capture groups).
pub uninterp spec fn regex_replace(
    pattern: Seq<char>,
    multi_line: bool,
    text: Seq<char>,
    replacement: Seq<char>,
) -> Seq<char>;

/// Relies on regex's `RegexBuilder::build`: it returns an error exactly where
/// the pattern is not a valid regex or exceeds a configured size limit, which
/// depends on the pattern and the configuration alone.
#[verifier::external_body]
fn build_regex(pattern: &str, multi_line: bool, size_limit: usize, dfa_size_limit: usize) -> (r:
    Result<regex::Regex, regex::Error>)
    ensures
        r is Ok <==> regex_compiles(pattern@, multi_line, size_limit as nat, dfa_size_limit as nat),
{
    regex::RegexBuilder::new(pattern).multi_line(multi_line).size_limit(size_limit).dfa_size_limit(
        dfa_size_limit,
    ).build()
}

/// Lines may start and end at line breaks inside the text.
pub const MULTI_LINE: bool = true;

/// The limit, in bytes, on the compiled program and on the lazy DFA's cache.
pub const SIZE_LIMIT: usize = 4000;

/// A pattern that failed to compile, and why.
pub struct CompileError {
    pub pattern: String,
    pub message: String,
}

/// A compiled regular expression and the pattern it was compiled from.
pub struct Re {
    re: regex::Regex,
    pattern: String,
}

impl View for Re {
    type V = Seq<char>;

    /// The pattern this regex was compiled from.
    closed spec fn view(&self) -> Seq<char> {
        self.pattern@
    }
}

/// Relies on regex's `Regex::is_match`: whether the regex matches anywhere in
/// `text`. `re.re` was compiled from `re.pattern` with `MULTI_LINE`.
#[verifier::external_body]
fn re_is_match(re: &Re, text: &str) -> (r: bool)
    ensures
        r == regex_is_match(re@, MULTI_LINE, text@),
{
    re.re.is_match(text)
}

/// Relies on regex's `Regex::find`: the leftmost-first match, a part of
/// `text`, found exactly where `is_match` holds.
#[verifier::external_body]
fn re_find(re: &Re, text: &str) -> (r: Option<String>)
    ensures
        r matches Some(m) ==> m@ == regex_find(re@, MULTI_LINE, text@)->Some_0,
        r is Some <==> regex_find(re@, MULTI_LINE, text@) is Some,
        r is Some <==> regex_is_match(re@, MULTI_LINE, text@),
        r matches Some(m) ==> exists|a: int|
            0 <= a && a + m@.len() <= text@.len() && #[trigger] text@.subrange(a, a + m@.len()) == m@,
{
    match re.re.find(text) {
        Some(m) => Some(m.as_str().to_string()),
        None => None,
    }
}

/// Relies on regex's `Regex::replace`: the first match replaced, and the text
/// unchanged where there is no match.
#[verifier::external_body]
fn re_replace(re: &Re, text: &str, replacement: &str) -> (r: String)
    ensures
        r@ == regex_replace(re@, MULTI_LINE, text@, replacement@),
        !regex_is_match(re@, MULTI_LINE, text@) ==> r@ == text@,
{
    re.re.replace(text, replacement).into_owned()
}

impl Re {
    /// Compiles `pattern` in multi-line mode under `SIZE_LIMIT`; where it
    /// fails, the error holds the pattern.
    pub fn new(pattern: &str) -> (r: Result<Re, CompileError>)
        ensures
            r is Ok <==> regex_compiles(pattern@, MULTI_LINE, SIZE_LIMIT as nat, SIZE_LIMIT as nat),
            r matches Ok(re) ==> re@ == pattern@,
            r matches Err(e) ==> e.pattern@ == pattern@,
    {
        match build_regex(pattern, MULTI_LINE, SIZE_LIMIT, SIZE_LIMIT) {
            Ok(re) => Ok(Re { re, pattern: pattern.to_owned() }),
            Err(e) => Err(CompileError { pattern: pattern.to_owned(), message: e.to_string() }),
        }
    }

    /// The pattern this regex was compiled from.
    pub fn pattern(&self) -> (r: &str)
        ensures
            r@ == self@,
    {
        self.pattern.as_str()
    }

    /// The text of the leftmost-first match in `text`, if any.
    pub fn find(&self, text: &str) -> (r: Option<String>)
        ensures
            r is Some <==> regex_is_match(self@, MULTI_LINE, text@),
            r matches Some(m) ==> m@ == regex_find(self@, MULTI_LINE, text@)->Some_0,
            r matches Some(m) ==> exists|a: int|
                0 <= a && a + m@.len() <= text@.len() && #[trigger] text@.subrange(a, a + m@.len())
                    == m@,
    {
        re_find(self, text)
    }

    /// Whether the regex matches anywhere in `text`.
    pub fn is_match(&self, text: &str) -> (r: bool)
        ensures
            r == regex_is_match(self@, MULTI_LINE, text@),
    {
        re_is_match(self, text)
    }

    /// `text` with its first match replaced by `replacement`.
    pub fn replace(&self, text: &str, replacement: &str) -> (r: String)
        ensures
            r@ == regex_replace(self@, MULTI_LINE, text@, replacement@),
            !regex_is_match(self@, MULTI_LINE, text@) ==> r@ == text@,
    {
        re_replace(self, text, replacement)
    }
}

/// Compiles `pattern` as `Re::new` does.
pub fn compile(pattern: &str) -> (r: Result<Re, CompileError>)
    ensures
        r is Ok <==> regex_compiles(pattern@, MULTI_LINE, SIZE_LIMIT as nat, SIZE_LIMIT as nat),
        r matches Ok(re) ==> re@ == pattern@,
        r matches Err(e) ==> e.pattern@ == pattern@,
{
    Re::new(pattern)
}

} // verus!
