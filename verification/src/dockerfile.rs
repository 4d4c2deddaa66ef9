//! A Dockerfile that builds a Wasm benchmark, known by its path.
use vstd::prelude::*;
use crate::build_docker::DockerBuildArgs;
use crate::extraction::{ExtractAction, Extraction, ExtractionView, StageView, extract_start};
use crate::text::{chars_of, concat_chars, string_of};
use crate::third_party::{blake3_digest, blake3_hash};
use crate::unix_path::{parent_chars, parent_path};

verus! {

/// The lower-case hexadecimal digit of `n` (below 16).
pub open spec fn hex_digit(n: u8) -> char {
    if n < 10 {
        (n + 48) as char
    } else {
        (n + 87) as char
    }
}

/// The lower-case hexadecimal spelling of the bytes, two digits per byte.
pub open spec fn hex_lower(bytes: Seq<u8>) -> Seq<char>
    decreases bytes.len(),
{
    if bytes.len() == 0 {
        Seq::empty()
    } else {
        hex_lower(bytes.drop_last()) + seq![
            hex_digit(bytes.last() / 16),
            hex_digit(bytes.last() % 16),
        ]
    }
}

/// The identifier of a Dockerfile with the given contents:
/// `dockerfile@Hash("<hex of the BLAKE3 hash>")`.
pub open spec fn dockerfile_identifier(contents: Seq<u8>) -> Seq<char> {
    "dockerfile@Hash(\""@ + hex_lower(blake3_digest(contents)) + "\")"@
}

fn hex_digit_char(n: u8) -> (c: char)
    requires
        n < 16,
    ensures
        c == hex_digit(n),
{
    if n < 10 {
        (n + 48) as char
    } else {
        (n + 87) as char
    }
}

/// The lower-case hexadecimal spelling of the bytes.
pub fn to_hex(bytes: &Vec<u8>) -> (r: Vec<char>)
    ensures
        r@ == hex_lower(bytes@),
{
    let mut r: Vec<char> = Vec::new();
    let mut i: usize = 0;
    while i < bytes.len()
        invariant
            i <= bytes.len(),
            r@ == hex_lower(bytes@.take(i as int)),
        decreases bytes.len() - i,
    {
        let b = bytes[i];
        assert(bytes@.take(i + 1).drop_last() =~= bytes@.take(i as int));
        r.push(hex_digit_char(b / 16));
        r.push(hex_digit_char(b % 16));
        assert(r@ =~= hex_lower(bytes@.take(i + 1)));
        i = i + 1;
    }
    assert(bytes@.take(bytes.len() as int) =~= bytes@);
    r
}

/// The identifier of a Dockerfile whose contents hash to `digest`:
/// `dockerfile@Hash("<hex of the digest>")`.
pub fn identifier_from_digest(digest: &Vec<u8>) -> (r: String)
    ensures
        r@ == "dockerfile@Hash(\""@ + hex_lower(digest@) + "\")"@,
{
    let hex = to_hex(digest);
    let head = concat_chars(&chars_of("dockerfile@Hash(\""), &hex);
    let all = concat_chars(&head, &chars_of("\")"));
    string_of(&all)
}

/// The identifier of a Dockerfile with the given contents.
pub fn identifier_of(contents: &[u8]) -> (r: String)
    ensures
        r@ == dockerfile_identifier(contents@),
{
    identifier_from_digest(&blake3_hash(contents))
}

/// Represents a Dockerfile that can build a Wasm benchmark.
pub struct Dockerfile(String);

impl View for Dockerfile {
    type V = Seq<char>;

    closed spec fn view(&self) -> Seq<char> {
        self.0@
    }
}

impl Dockerfile {
    /// Construct a new Dockerfile from its path.
    pub fn from(p: String) -> (r: Dockerfile)
        ensures
            r@ == p@,
    {
        Dockerfile(p)
    }

    /// The path of the Dockerfile.
    pub fn path(&self) -> (r: String)
        ensures
            r@ == self@,
    {
        self.0.clone()
    }

    /// The path of the Dockerfile, consuming it.
    pub fn into_path(self) -> (r: String)
        ensures
            r@ == self@,
    {
        self.0
    }

    /// The parent directory of the Dockerfile, the default context
    /// directory; the path must have one.
    pub fn parent_dir(&self) -> (r: String)
        requires
            parent_path(self@) is Some,
        ensures
            r@ == parent_path(self@).unwrap(),
    {
        match parent_chars(&chars_of(self.0.as_str())) {
            Some(p) => string_of(&p),
            None => self.0.clone(),
        }
    }

    /// Build the Dockerfile and extract the file placed at `source` inside
    /// the container to `destination` on the host, optionally with build
    /// arguments. This starts the extraction: the result is its state and the
    /// first Docker command, which builds the image from the Dockerfile's
    /// directory; `Extraction::advance` gives each next one. The path must
    /// have a parent directory.
    pub fn extract(&self, source: String, destination: String, args: Option<DockerBuildArgs>) -> (r: (
        Extraction,
        ExtractAction,
    ))
        requires
            parent_path(self@) is Some,
        ensures
            r.0@ == (ExtractionView {
                source: source@,
                destination: destination@,
                stage: StageView::Building,
            }),
            r.1@ == extract_start(
                parent_path(self@).unwrap(),
                match args {
                    Some(a) => Some(a.pairs()),
                    None => None,
                },
            ),
    {
        Extraction::start(self.parent_dir(), source, destination, args)
    }

    /// A single-string identifier for a Dockerfile with the given contents
    /// (the bytes of its file): `dockerfile@Hash("<BLAKE3 hex>")`.
    pub fn identifier(contents: &[u8]) -> (r: String)
        ensures
            r@ == dockerfile_identifier(contents@),
    {
        identifier_of(contents)
    }
}

} // verus!
