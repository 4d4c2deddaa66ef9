//! The calls into the regex, enquote and blake3 crates, with what this
//! library relies on of each.
use vstd::prelude::*;

verus! {

/// The views of a sequence of strings.
pub open spec fn string_views(v: Seq<String>) -> Seq<Seq<char>> {
    v.map_values(|s: String| s@)
}

#[verifier::external_type_specification]
#[verifier::external_body]
pub struct ExRegexError(regex::Error);

#[verifier::external_type_specification]
#[verifier::external_body]
pub struct ExUnquoteError(enquote::Error);

/// Whether `regex::Regex::new` accepts the pattern.
pub uninterp spec fn regex_compiles(pattern: Seq<char>) -> bool;

/// The texts of the successive non-overlapping leftmost-first matches that
/// `Regex::find_iter` yields for the compiled pattern on the haystack.
pub uninterp spec fn regex_matches(pattern: Seq<char>, haystack: Seq<char>) -> Seq<Seq<char>>;

/// What `enquote::unquote` returns: the text between matching quote
/// characters with its escapes processed, or nothing when it fails.
pub uninterp spec fn unquoted(s: Seq<char>) -> Option<Seq<char>>;

/// The 32 bytes of the BLAKE3 hash of the input (`blake3::hash`).
pub uninterp spec fn blake3_digest(input: Seq<u8>) -> Seq<u8>;

/// Compiles `pattern` with `regex::Regex::new` and collects the texts of
/// `Regex::find_iter` over `haystack`. Claimed: the call succeeds exactly
/// when the pattern compiles, and then the texts are the named matches.
#[verifier::external_body]
pub(crate) fn regex_find_all(pattern: &str, haystack: &str) -> (r: Result<Vec<String>, regex::Error>)
    ensures
        r is Ok <==> regex_compiles(pattern@),
        r matches Ok(found) ==> string_views(found@) == regex_matches(pattern@, haystack@),
{
    let re = regex::Regex::new(pattern)?;
    Ok(re.find_iter(haystack).map(|m| m.as_str().to_string()).collect())
}

/// Calls `enquote::unquote`. Claimed: its result is the named one, and an
/// error exactly when the name gives nothing.
#[verifier::external_body]
pub(crate) fn unquote(s: &str) -> (r: Result<String, enquote::Error>)
    ensures
        match r {
            Ok(u) => unquoted(s@) == Some(u@),
            Err(_) => unquoted(s@) is None,
        },
{
    enquote::unquote(s)
}

/// Calls `blake3::hash` and copies out the bytes of the hash. Claimed: they
/// are the named digest, and there are 32 of them (`blake3::OUT_LEN`).
#[verifier::external_body]
pub(crate) fn blake3_hash(input: &[u8]) -> (r: Vec<u8>)
    ensures
        r@ == blake3_digest(input@),
        r@.len() == 32,
{
    blake3::hash(input).as_bytes().to_vec()
}

} // verus!
