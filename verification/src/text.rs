//! External text collaborators: the compiled normalization patterns and the
//! optional tokenizer, consumed through trusted wrappers. The regex results
//! are named; the token count deliberately is not (a model with merge
//! dropout is randomized). Everything built on top is verified.

use vstd::prelude::*;

verus! {

/// Declares regex::Regex so compiled patterns can sit in fields; the value
/// itself stays opaque.
#[verifier::external_type_specification]
#[verifier::external_body]
pub struct ExRegex(regex::Regex);

/// Declares tokenizers::Tokenizer so a loaded tokenizer can be carried in
/// the configuration; the value itself stays opaque.
#[verifier::external_type_specification]
#[verifier::external_body]
pub struct ExTokenizer(tokenizers::Tokenizer);

/// The pattern string a compiled `regex::Regex` was built from.
pub uninterp spec fn regex_pattern(re: regex::Regex) -> Seq<char>;

/// Whether `regex::Regex::new` accepts a pattern: compilation under the
/// default configuration is a function of the pattern alone.
pub uninterp spec fn regex_compiles(pattern: Seq<char>) -> bool;

/// What `regex::Regex::replace_all` returns: a function of the compiled
/// pattern, the haystack and the replacement alone.
pub uninterp spec fn replaced_all(pattern: Seq<char>, text: Seq<char>, rep: Seq<char>) -> Seq<
    char,
>;

/// Whether a character has the Unicode white-space property, as
/// `char::is_whitespace` decides it.
pub uninterp spec fn is_ws(c: char) -> bool;

/// Relies on regex::Regex::new: success is decided by the pattern alone
/// (its syntax and the default size limit), and on success the returned
/// value is compiled from exactly the given pattern, under the default
/// configuration — the library builds every regex through this function.
#[verifier::external_body]
fn regex_new(pattern: &str) -> (r: Option<regex::Regex>)
    ensures
        r is Some <==> regex_compiles(pattern@),
        r is Some ==> regex_pattern(r->0) == pattern@,
{
    regex::Regex::new(pattern).ok()
}

/// Relies on regex::Regex::replace_all: replaces every non-overlapping match
/// of the compiled pattern; for a default-configured regex — the only kind
/// this library builds — the result depends only on pattern, haystack and
/// replacement.
#[verifier::external_body]
fn regex_replace_all(re: &regex::Regex, text: &str, rep: &str) -> (r: String)
    ensures
        r@ == replaced_all(regex_pattern(*re), text@, rep@),
{
    re.replace_all(text, rep).into_owned()
}

/// Relies on char::is_whitespace: true exactly for characters with the
/// Unicode white-space property.
#[verifier::external_body]
pub fn char_is_whitespace(c: char) -> (r: bool)
    ensures
        r == is_ws(c),
{
    c.is_whitespace()
}

/// Relies on tokenizers::Tokenizer::encode (through its deref to
/// TokenizerImpl::encode) and Encoding::len: the token count of the text, or
/// `None` on an encoding error. Nothing is promised of the count: a model
/// with merge dropout draws random numbers while encoding, so the result
/// need not be a function of the tokenizer and the text.
#[verifier::external_body]
pub fn tokenize(t: &tokenizers::Tokenizer, content: &str) -> (r: Option<usize>)
{
    match t.encode(content, false) {
        Ok(encoding) => Some(encoding.len()),
        Err(_) => None,
    }
}

/// The pattern that strips markup: runs of two or more dashes or equal
/// signs, URLs, @-handles and bare e-mail addresses, and hashtags.
pub open spec fn main_pattern() -> Seq<char> {
    "-{2,}|={2,}|http\\S+|(?:[\\w\\.-]+)?@\\S+|#\\S+"@
}

/// The pattern that collapses runs of whitespace.
pub open spec fn space_pattern() -> Seq<char> {
    "\\s+"@
}

/// The two compiled normalization patterns, built once and passed by
/// reference into the text-processing stage.
pub struct TextCleaner {
    main: regex::Regex,
    space: regex::Regex,
}

impl TextCleaner {
    /// The cleaner holds compilations of exactly the two documented patterns.
    pub closed spec fn wf(self) -> bool {
        &&& regex_pattern(self.main) == main_pattern()
        &&& regex_pattern(self.space) == space_pattern()
    }
}

/// Compiles the two normalization patterns: succeeds exactly when the regex
/// engine accepts both, so a successful return makes normalization
/// available. `None` — the engine rejecting one of the two constant
/// patterns — is fatal to a run.
pub fn init_regex() -> (r: Option<TextCleaner>)
    ensures
        r is Some <==> regex_compiles(main_pattern()) && regex_compiles(space_pattern()),
        r is Some ==> r->0.wf(),
{
    let main = regex_new("-{2,}|={2,}|http\\S+|(?:[\\w\\.-]+)?@\\S+|#\\S+");
    let space = regex_new("\\s+");
    match (main, space) {
        (Some(m), Some(s)) => Some(TextCleaner { main: m, space: s }),
        _ => None,
    }
}

/// What normalization produces before trimming: every markup match replaced
/// by one space, then every whitespace run replaced by one space.
pub open spec fn cleaned(s: Seq<char>) -> Seq<char> {
    replaced_all(space_pattern(), replaced_all(main_pattern(), s, " "@), " "@)
}

/// Applies the two normalization patterns in order: markup stripping, then
/// whitespace collapsing, each replacing with a single space.
pub fn clean_content(cleaner: &TextCleaner, content: &str) -> (r: String)
    requires
        cleaner.wf(),
    ensures
        r@ == cleaned(content@),
{
    let first = regex_replace_all(&cleaner.main, content, " ");
    let second = regex_replace_all(&cleaner.space, first.as_str(), " ");
    second
}

/// The compiled matcher together with the optional tokenizer: the explicit
/// configuration the text-processing stage receives instead of globals.
/// `tokenizer == None` selects the whitespace word count.
pub struct TextConfig {
    pub cleaner: TextCleaner,
    pub tokenizer: Option<tokenizers::Tokenizer>,
}

impl TextConfig {
    pub open spec fn wf(self) -> bool {
        self.cleaner.wf()
    }
}

} // verus!
