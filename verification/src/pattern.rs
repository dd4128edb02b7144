//! Tracking-number patterns: how a courier's pattern text is assembled and
//! anchored, and the PCRE2 engine that matches it.
//!
//! A compiled PCRE2 regex is opaque, so patterns are kept as text and every
//! match below compiles its pattern and runs it in one call.
use vstd::prelude::*;
use crate::text::push_char;

verus! {

/// What PCRE2 reports when `pattern` does not compile as a regular
/// expression with the default options: the error's text, or `None` when it
/// compiles.
pub uninterp spec fn pcre_compile_error(pattern: Seq<char>) -> Option<Seq<char>>;

/// `pattern` compiles as a PCRE2 regular expression with the default options.
pub open spec fn pcre_compiles(pattern: Seq<char>) -> bool {
    pcre_compile_error(pattern) is None
}

/// The outcome of compiling `pattern` and asking whether it matches somewhere
/// in the UTF-8 bytes of `subject`: `None` when the pattern does not compile
/// or the match fails with an error, else whether there is a match.
pub uninterp spec fn pcre_is_match(pattern: Seq<char>, subject: Seq<char>) -> Option<bool>;

/// The outcome of compiling `pattern` and reading the capture groups named
/// `names` of its leftmost-first match in the UTF-8 bytes of `subject`:
/// `None` when the pattern does not compile or the match fails with an error,
/// `Some(None)` when there is no match, else one entry per name, the bytes
/// that the group matched or `None` when the group took no part or does not
/// exist.
pub uninterp spec fn pcre_captures(
    pattern: Seq<char>,
    subject: Seq<char>,
    names: Seq<Seq<char>>,
) -> Option<Option<Seq<Option<Seq<u8>>>>>;

/// Calls `pcre2::bytes::Regex::new` on `pattern` and, when it fails, renders
/// the `pcre2::Error` with its `Display`.  Trusted: the result is
/// `pcre_compile_error` of the pattern.
#[verifier::external_body]
pub(crate) fn pattern_compile_error(pattern: &str) -> (r: Option<String>)
    ensures
        r.deep_view() == pcre_compile_error(pattern@),
{
    pcre2::bytes::Regex::new(pattern).err().map(|e| e.to_string())
}

/// Compiles `pattern` with `pcre2::bytes::Regex::new` and, when that
/// succeeds, calls `Regex::is_match` on the bytes of `subject`; errors become
/// `None`.  Trusted: the result is `pcre_is_match` of the two texts.
#[verifier::external_body]
pub(crate) fn pattern_is_match(pattern: &str, subject: &str) -> (r: Option<bool>)
    ensures
        r == pcre_is_match(pattern@, subject@),
{
    match pcre2::bytes::Regex::new(pattern) {
        Ok(regex) => regex.is_match(subject.as_bytes()).ok(),
        Err(_) => None,
    }
}

/// Compiles `pattern` with `pcre2::bytes::Regex::new` and, when that
/// succeeds, calls `Regex::captures` on the bytes of `subject`, then
/// `Captures::name` for each of `names`, copying each group's bytes.
/// Trusted: the result is `pcre_captures` of the arguments, and, as
/// `Captures::name` is asked once per name, a match yields one entry per name.
#[verifier::external_body]
pub(crate) fn pattern_captures(pattern: &str, subject: &str, names: &Vec<String>) -> (r: Option<
    Option<Vec<Option<Vec<u8>>>>,
>)
    ensures
        r.deep_view() == pcre_captures(pattern@, subject@, names.deep_view()),
        r matches Some(Some(groups)) ==> groups@.len() == names@.len(),
{
    let regex = match pcre2::bytes::Regex::new(pattern) {
        Ok(regex) => regex,
        Err(_) => return None,
    };
    match regex.captures(subject.as_bytes()) {
        Ok(Some(caps)) => Some(
            Some(names.iter().map(|n| caps.name(n).map(|m| m.as_bytes().to_vec())).collect()),
        ),
        Ok(None) => Some(None),
        Err(_) => None,
    }
}

// ---------------------------------------------------------------------------
// Assembling and anchoring a pattern
// ---------------------------------------------------------------------------

/// A courier's pattern as it is written down: one text, or several to be
/// joined without separator.
pub enum PatternSource {
    Single(String),
    Multi(Vec<String>),
}

/// A pattern that PCRE2 rejected, after anchoring, and PCRE2's reason.
#[derive(Debug)]
pub struct InvalidPattern {
    pub pattern: String,
    pub reason: String,
}

/// The message that reports an invalid pattern:
/// `Invalid PCRE2 regex '<pattern>': <reason>`.
pub open spec fn invalid_pattern_message(pattern: Seq<char>, reason: Seq<char>) -> Seq<char> {
    "Invalid PCRE2 regex '"@ + pattern + "': "@ + reason
}

impl InvalidPattern {
    /// The message that reports this invalid pattern.
    pub fn message(&self) -> (r: String)
        ensures
            r@ == invalid_pattern_message(self.pattern@, self.reason@),
    {
        let mut out = String::from_str("Invalid PCRE2 regex '");
        out.append(self.pattern.as_str());
        out.append("': ");
        out.append(self.reason.as_str());
        out
    }
}

/// The concatenation of `parts`.
pub open spec fn concat_all(parts: Seq<Seq<char>>) -> Seq<char>
    decreases parts.len(),
{
    if parts.len() == 0 {
        seq![]
    } else {
        concat_all(parts.drop_last()) + parts.last()
    }
}

/// The text of a pattern source.
pub open spec fn source_text(source: PatternSource) -> Seq<char> {
    match source {
        PatternSource::Single(s) => s@,
        PatternSource::Multi(parts) => concat_all(parts.deep_view()),
    }
}

/// `p` anchored so that it must match a whole tracking number: a pattern
/// that begins with `^` is kept, any other is wrapped in `^` and `$`.
pub open spec fn anchor(p: Seq<char>) -> Seq<char> {
    if p.len() > 0 && p[0] == '^' {
        p
    } else {
        seq!['^'] + p + seq!['$']
    }
}

/// The text of `source`.
pub fn source_text_of(source: &PatternSource) -> (r: String)
    ensures
        r@ == source_text(*source),
{
    match source {
        PatternSource::Single(s) => s.clone(),
        PatternSource::Multi(parts) => {
            let mut out = String::new();
            let n = parts.len();
            let mut i: usize = 0;
            while i < n
                invariant
                    n == parts@.len(),
                    i <= n,
                    out@ == concat_all(parts.deep_view().take(i as int)),
                decreases n - i,
            {
                assert(parts.deep_view().take(i + 1).drop_last() =~= parts.deep_view().take(
                    i as int,
                ));
                assert(parts.deep_view().take(i + 1).last() == parts@[i as int]@);
                out.append(parts[i].as_str());
                i = i + 1;
            }
            assert(parts.deep_view().take(n as int) =~= parts.deep_view());
            out
        },
    }
}

/// `p` anchored to the whole tracking number.
pub fn anchored(p: String) -> (r: String)
    ensures
        r@ == anchor(p@),
{
    let chars = crate::text::chars_of(p.as_str());
    if chars.len() > 0 && chars[0] == '^' {
        p
    } else {
        let mut out = String::new();
        push_char(&mut out, '^');
        out.append(p.as_str());
        push_char(&mut out, '$');
        assert(out@ =~= seq!['^'] + p@ + seq!['$']);
        out
    }
}

/// The anchored pattern of `source`, provided PCRE2 compiles it.
pub fn compile_pattern(source: &PatternSource) -> (r: Result<String, InvalidPattern>)
    ensures
        match r {
            Ok(p) => p@ == anchor(source_text(*source)) && pcre_compiles(p@),
            Err(e) => e.pattern@ == anchor(source_text(*source)) && pcre_compile_error(e.pattern@)
                == Some(e.reason@),
        },
{
    let text = source_text_of(source);
    let pattern = anchored(text);
    match pattern_compile_error(pattern.as_str()) {
        None => Ok(pattern),
        Some(reason) => Err(InvalidPattern { pattern, reason }),
    }
}

/// Law: an anchored pattern begins with `^`.
pub proof fn lemma_anchor_starts_with_caret(p: Seq<char>)
    ensures
        anchor(p).len() > 0,
        anchor(p)[0] == '^',
{
}

/// Law: anchoring an anchored pattern changes nothing.
pub proof fn lemma_anchor_idempotent(p: Seq<char>)
    ensures
        anchor(anchor(p)) == anchor(p),
{
}

} // verus!
