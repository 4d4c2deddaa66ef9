//! Building images with Docker: build arguments, the Docker commands and the
//! reading of their outcome, the identifiers Docker prints, and a second,
//! simpler Dockerfile interpreter.
use vstd::prelude::*;
use crate::dockerfile::{dockerfile_identifier, identifier_of};
use crate::interpret::{is_directory_text, RUN_TOKEN_PATTERN};
use crate::text::{
    chars_eq_str, chars_of, concat_chars, ends_with_char, is_whitespace, is_whitespace_char, join, join_chars,
    lines, lines_of, slice_chars, split_once, split_once_chars, starts_with, starts_with_char,
    string_from_utf8, string_of, trim, trim_chars, views,
};
use crate::extraction::{ExtractAction, Extraction, ExtractionView, StageView, extract_start};
use crate::third_party::{regex_compiles, regex_find_all, regex_matches, string_views};
use crate::unix_path::{
    contextualize_chars, contextualize_path, file_name, file_name_chars, join_path,
    join_path_chars, normalize_chars, normalize_path, parent_chars, parent_path,
};

verus! {

/// The views of a sequence of key-value pairs of strings.
pub open spec fn pair_views(s: Seq<(String, String)>) -> Seq<(Seq<char>, Seq<char>)> {
    s.map_values(|e: (String, String)| (e.0@, e.1@))
}

/// The map that the pairs describe, later pairs overriding earlier ones.
pub open spec fn pairs_map(s: Seq<(Seq<char>, Seq<char>)>) -> Map<Seq<char>, Seq<char>>
    decreases s.len(),
{
    if s.len() == 0 {
        Map::empty()
    } else {
        pairs_map(s.drop_last()).insert(s.last().0, s.last().1)
    }
}

/// No key occurs twice.
pub open spec fn keys_distinct(s: Seq<(Seq<char>, Seq<char>)>) -> bool {
    forall|i: int, j: int| 0 <= i < j < s.len() ==> s[i].0 != s[j].0
}

/// Arguments passed to `docker build` as `--build-arg key=value`, and the
/// environment of an interpreted Dockerfile: a map from keys to values that
/// remembers the order in which keys were first set.
pub struct DockerBuildArgs {
    entries: Vec<(String, String)>,
}

impl View for DockerBuildArgs {
    type V = Map<Seq<char>, Seq<char>>;

    closed spec fn view(&self) -> Map<Seq<char>, Seq<char>> {
        pairs_map(pair_views(self.entries@))
    }
}

proof fn lemma_pairs_map_keys(s: Seq<(Seq<char>, Seq<char>)>, k: Seq<char>)
    ensures
        pairs_map(s).dom().contains(k) <==> exists|i: int| 0 <= i < s.len() && s[i].0 == k,
    decreases s.len(),
{
    if s.len() > 0 {
        lemma_pairs_map_keys(s.drop_last(), k);
        if pairs_map(s.drop_last()).dom().contains(k) {
            let i = choose|i: int| 0 <= i < s.drop_last().len() && s.drop_last()[i].0 == k;
            assert(s[i].0 == k);
        }
        if exists|i: int| 0 <= i < s.len() && s[i].0 == k {
            let i = choose|i: int| 0 <= i < s.len() && s[i].0 == k;
            if i < s.len() - 1 {
                assert(s.drop_last()[i].0 == k);
            }
        }
    }
}

proof fn lemma_pairs_map_value(s: Seq<(Seq<char>, Seq<char>)>, i: int)
    requires
        keys_distinct(s),
        0 <= i < s.len(),
    ensures
        pairs_map(s).dom().contains(s[i].0),
        pairs_map(s)[s[i].0] == s[i].1,
    decreases s.len(),
{
    if i < s.len() - 1 {
        let t = s.drop_last();
        assert(keys_distinct(t));
        assert(t[i] == s[i]);
        lemma_pairs_map_value(t, i);
        assert(s[i].0 != s.last().0);
    }
}

proof fn lemma_pairs_map_update(s: Seq<(Seq<char>, Seq<char>)>, i: int, v: Seq<char>)
    requires
        keys_distinct(s),
        0 <= i < s.len(),
    ensures
        pairs_map(s.update(i, (s[i].0, v))) == pairs_map(s).insert(s[i].0, v),
    decreases s.len(),
{
    let u = s.update(i, (s[i].0, v));
    if i == s.len() - 1 {
        assert(u.drop_last() =~= s.drop_last());
        assert(pairs_map(s).insert(s[i].0, v) =~= pairs_map(s.drop_last()).insert(s[i].0, v));
    } else {
        let t = s.drop_last();
        assert(keys_distinct(t));
        assert(u.drop_last() =~= t.update(i, (t[i].0, v)));
        lemma_pairs_map_update(t, i, v);
        assert(s[i].0 != s.last().0);
        assert(pairs_map(u) =~= pairs_map(s).insert(s[i].0, v));
    }
}

/// A copy of the pairs.
fn copy_entries(v: &Vec<(String, String)>) -> (r: Vec<(String, String)>)
    ensures
        pair_views(r@) == pair_views(v@),
{
    let mut r: Vec<(String, String)> = Vec::new();
    let mut i: usize = 0;
    while i < v.len()
        invariant
            i <= v.len(),
            pair_views(r@) == pair_views(v@).take(i as int),
        decreases v.len() - i,
    {
        let k = v[i].0.clone();
        let x = v[i].1.clone();
        let ghost old_r = pair_views(r@);
        r.push((k, x));
        assert(pair_views(r@) =~= old_r.push((k@, x@)));
        assert(pair_views(r@) =~= pair_views(v@).take(i + 1));
        i = i + 1;
    }
    assert(pair_views(v@).take(v.len() as int) =~= pair_views(v@));
    r
}

impl DockerBuildArgs {
    #[verifier::type_invariant]
    spec fn inv(&self) -> bool {
        keys_distinct(pair_views(self.entries@))
    }

    /// The pairs in the order in which their keys were first set.
    pub closed spec fn pairs(&self) -> Seq<(Seq<char>, Seq<char>)> {
        pair_views(self.entries@)
    }

    /// No build arguments.
    pub fn new() -> (r: Self)
        ensures
            r@ == Map::<Seq<char>, Seq<char>>::empty(),
            r.pairs() == Seq::<(Seq<char>, Seq<char>)>::empty(),
    {
        let r = DockerBuildArgs { entries: Vec::new() };
        assert(pair_views(r.entries@) =~= Seq::<(Seq<char>, Seq<char>)>::empty());
        r
    }

    /// The position of `key` among the pairs.
    fn position(&self, key: &String) -> (r: Option<usize>)
        ensures
            match r {
                Some(i) => i < self.pairs().len() && self.pairs()[i as int].0 == key@,
                None => forall|i: int| 0 <= i < self.pairs().len() ==> self.pairs()[i].0 != key@,
            },
    {
        let mut i: usize = 0;
        while i < self.entries.len()
            invariant
                i <= self.entries.len(),
                forall|j: int| 0 <= j < i ==> self.pairs()[j].0 != key@,
            decreases self.entries.len() - i,
        {
            if self.entries[i].0 == *key {
                return Some(i);
            }
            i = i + 1;
        }
        None
    }

    /// Whether `key` has a value.
    pub fn contains_key(&self, key: &String) -> (r: bool)
        ensures
            r == self@.dom().contains(key@),
    {
        proof {
            lemma_pairs_map_keys(self.pairs(), key@);
        }
        self.position(key).is_some()
    }

    /// The value of `key`, if it has one.
    pub fn get(&self, key: &String) -> (r: Option<String>)
        ensures
            match r {
                Some(v) => self@.dom().contains(key@) && self@[key@] == v@,
                None => !self@.dom().contains(key@),
            },
    {
        proof {
            use_type_invariant(self);
            lemma_pairs_map_keys(self.pairs(), key@);
        }
        match self.position(key) {
            Some(i) => {
                proof {
                    lemma_pairs_map_value(self.pairs(), i as int);
                }
                Some(self.entries[i].1.clone())
            },
            None => None,
        }
    }

    /// Give `key` the value `value`, replacing any earlier value in its
    /// place; a new key comes after all present ones.
    pub fn set(&mut self, key: String, value: String)
        ensures
            final(self)@ == old(self)@.insert(key@, value@),
            old(self)@.dom().contains(key@) ==> exists|i: int|
                0 <= i < old(self).pairs().len() && old(self).pairs()[i].0 == key@
                    && final(self).pairs() == old(self).pairs().update(i, (key@, value@)),
            !old(self)@.dom().contains(key@) ==> final(self).pairs() == old(self).pairs().push(
                (key@, value@),
            ),
    {
        proof {
            use_type_invariant(&*self);
            lemma_pairs_map_keys(self.pairs(), key@);
        }
        match self.position(&key) {
            Some(i) => {
                let ghost old_pairs = self.pairs();
                let k = self.entries[i].0.clone();
                let mut entries = copy_entries(&self.entries);
                entries.set(i, (k, value));
                proof {
                    let np = pair_views(entries@);
                    assert(np =~= old_pairs.update(i as int, (old_pairs[i as int].0, value@)));
                    assert(keys_distinct(np)) by {
                        assert forall|a: int, b: int| 0 <= a < b < np.len() implies np[a].0 != np[b].0 by {
                            assert(np[a].0 == old_pairs[a].0);
                            assert(np[b].0 == old_pairs[b].0);
                        }
                    }
                }
                self.entries = entries;
                proof {
                    lemma_pairs_map_update(old_pairs, i as int, value@);
                    assert(self.pairs() =~= old_pairs.update(i as int, (key@, value@)));
                }
            },
            None => {
                let ghost old_pairs = self.pairs();
                let mut entries = copy_entries(&self.entries);
                entries.push((key, value));
                proof {
                    let np = pair_views(entries@);
                    assert(np =~= old_pairs.push((key@, value@)));
                    assert(keys_distinct(np)) by {
                        assert forall|a: int, b: int| 0 <= a < b < np.len() implies np[a].0 != np[b].0 by {
                            assert(np[a] == old_pairs[a]);
                            if b < old_pairs.len() {
                                assert(np[b] == old_pairs[b]);
                            }
                        }
                    }
                }
                self.entries = entries;
                proof {
                    assert(self.pairs() =~= old_pairs.push((key@, value@)));
                    assert(self.pairs().drop_last() =~= old_pairs);
                }
            },
        }
    }

    /// The pairs, in the order in which their keys were first set.
    pub fn entries(&self) -> (r: Vec<(String, String)>)
        ensures
            pair_views(r@) == self.pairs(),
            pairs_map(pair_views(r@)) == self@,
    {
        copy_entries(&self.entries)
    }
}


proof fn lemma_pairs_map_finite(s: Seq<(Seq<char>, Seq<char>)>)
    ensures
        pairs_map(s).dom().finite(),
        pairs_map(s).dom().len() <= s.len(),
    decreases s.len(),
{
    if s.len() > 0 {
        lemma_pairs_map_finite(s.drop_last());
        assert(pairs_map(s).dom() == pairs_map(s.drop_last()).dom().insert(s.last().0));
    }
}

impl DockerBuildArgs {
    /// The map of build arguments is the one that its pairs describe, and it
    /// is finite, with one key per pair.
    pub proof fn lemma_args_view(&self)
        ensures
            self@ == pairs_map(self.pairs()),
            self@.dom().finite(),
            self@.dom().len() <= self.pairs().len(),
    {
        lemma_pairs_map_finite(self.pairs());
    }
}

/// Represents a Dockerfile that can build a Wasm benchmark.
pub struct Dockerfile(String);

impl View for Dockerfile {
    type V = Seq<char>;

    closed spec fn view(&self) -> Seq<char> {
        self.0@
    }
}

impl Dockerfile {
    /// Construct a new Dockerfile from its path.
    pub fn from(p: String) -> (r: Dockerfile)
        ensures
            r@ == p@,
    {
        Dockerfile(p)
    }

    /// The path of the Dockerfile.
    pub fn path(&self) -> (r: String)
        ensures
            r@ == self@,
    {
        self.0.clone()
    }

    /// The path of the Dockerfile, consuming it.
    pub fn into_path(self) -> (r: String)
        ensures
            r@ == self@,
    {
        self.0
    }

    /// The parent directory of the Dockerfile, the default context
    /// directory; the path must have one.
    pub fn parent_dir(&self) -> (r: String)
        requires
            parent_path(self@) is Some,
        ensures
            r@ == parent_path(self@).unwrap(),
    {
        match parent_chars(&chars_of(self.0.as_str())) {
            Some(p) => string_of(&p),
            None => self.0.clone(),
        }
    }

    /// Build the Dockerfile and extract the file placed at `source` inside
    /// the container to `destination` on the host, optionally with build
    /// arguments. This starts the extraction: the result is its state and the
    /// first Docker command, which builds the image from the Dockerfile's
    /// directory; `Extraction::advance` gives each next one. The path must
    /// have a parent directory.
    pub fn extract(&self, source: String, destination: String, args: Option<DockerBuildArgs>) -> (r: (
        Extraction,
        ExtractAction,
    ))
        requires
            parent_path(self@) is Some,
        ensures
            r.0@ == (ExtractionView {
                source: source@,
                destination: destination@,
                stage: StageView::Building,
            }),
            r.1@ == extract_start(
                parent_path(self@).unwrap(),
                match args {
                    Some(a) => Some(a.pairs()),
                    None => None,
                },
            ),
    {
        Extraction::start(self.parent_dir(), source, destination, args)
    }

    /// A single-string identifier for a Dockerfile with the given contents
    /// (the bytes of its file): `dockerfile@Hash("<BLAKE3 hex>")`.
    pub fn identifier(contents: &[u8]) -> (r: String)
        ensures
            r@ == dockerfile_identifier(contents@),
    {
        identifier_of(contents)
    }
}

#[verifier::external_type_specification]
#[verifier::external_body]
pub struct ExIoError(std::io::Error);

#[verifier::external_type_specification]
#[verifier::external_body]
pub struct ExFromUtf8Error(std::string::FromUtf8Error);

/// The ways Docker work can fail.
pub enum DockerError {
    IoError(std::io::Error),
    FailedExecution(String),
    FailedParsingId(std::string::FromUtf8Error),
    FailedParsingFile(String),
}

/// The text-bearing part of an error.
pub enum DockerErrorView {
    IoError,
    FailedExecution(Seq<char>),
    FailedParsingId,
    FailedParsingFile(Seq<char>),
}

impl View for DockerError {
    type V = DockerErrorView;

    open spec fn view(&self) -> DockerErrorView {
        match self {
            DockerError::IoError(_) => DockerErrorView::IoError,
            DockerError::FailedExecution(s) => DockerErrorView::FailedExecution(s@),
            DockerError::FailedParsingId(_) => DockerErrorView::FailedParsingId,
            DockerError::FailedParsingFile(s) => DockerErrorView::FailedParsingFile(s@),
        }
    }
}

/// The last run of non-white-space characters of `t`.
pub open spec fn trailing_word(t: Seq<char>) -> Seq<char>
    decreases t.len(),
{
    if t.len() > 0 && !is_whitespace(t.last()) {
        trailing_word(t.drop_last()).push(t.last())
    } else {
        Seq::empty()
    }
}

/// The last white-space separated word of `s`.
pub open spec fn last_word(s: Seq<char>) -> Seq<char> {
    trailing_word(trim(s))
}

proof fn lemma_trailing_word_skip(t: Seq<char>, j: int)
    requires
        0 <= j <= t.len(),
        forall|k: int| j <= k < t.len() ==> !is_whitespace(#[trigger] t[k]),
        j == 0 || is_whitespace(t[j - 1]),
    ensures
        trailing_word(t) == t.skip(j),
    decreases t.len(),
{
    if j == t.len() {
        assert(t.skip(j) =~= Seq::<char>::empty());
        if t.len() > 0 {
            assert(is_whitespace(t.last()));
        }
    } else {
        let u = t.drop_last();
        assert forall|k: int| j <= k < u.len() implies !is_whitespace(#[trigger] u[k]) by {
            assert(u[k] == t[k]);
        }
        if j > 0 {
            assert(u[j - 1] == t[j - 1]);
        }
        assert(!is_whitespace(t[t.len() - 1]));
        lemma_trailing_word_skip(u, j);
        assert(u.skip(j).push(t.last()) =~= t.skip(j));
    }
}

/// The identifier Docker uses for an image or container.
pub struct DockerId(String);

impl View for DockerId {
    type V = Seq<char>;

    closed spec fn view(&self) -> Seq<char> {
        self.0@
    }
}

/// An image built by Docker.
pub type ImageId = DockerId;

/// A container created by Docker.
pub type ContainerId = DockerId;

impl DockerId {
    /// The identifier in a line of Docker output: its last word. The line
    /// must hold a word.
    pub fn from(s: String) -> (r: DockerId)
        requires
            trim(s@).len() > 0,
        ensures
            r@ == last_word(s@),
    {
        let t = trim_chars(&chars_of(s.as_str()));
        let mut j: usize = t.len();
        while j > 0 && !is_whitespace_char(t[j - 1])
            invariant
                j <= t.len(),
                forall|k: int| j <= k < t.len() ==> !is_whitespace(#[trigger] t@[k]),
            decreases j,
        {
            j = j - 1;
        }
        proof {
            lemma_trailing_word_skip(t@, j as int);
        }
        let w = slice_chars(&t, j, t.len());
        assert(w@ =~= t@.skip(j as int));
        DockerId(string_of(&w))
    }

    /// The identifier in Docker's UTF-8 output: its last word. Output that
    /// is valid UTF-8 must hold a word.
    pub fn try_from(value: Vec<u8>) -> (r: Result<DockerId, DockerError>)
        requires
            vstd::utf8::valid_utf8(value@) ==> trim(vstd::utf8::decode_utf8(value@)).len() > 0,
        ensures
            r is Ok <==> vstd::utf8::valid_utf8(value@),
            r matches Ok(id) ==> id@ == last_word(vstd::utf8::decode_utf8(value@)),
            r matches Err(e) ==> e@ == DockerErrorView::FailedParsingId,
    {
        match string_from_utf8(value) {
            Ok(s) => Ok(DockerId::from(s)),
            Err(e) => Err(DockerError::FailedParsingId(e)),
        }
    }

    /// The identifier as text.
    pub fn as_string(&self) -> (r: String)
        ensures
            r@ == self@,
    {
        self.0.clone()
    }
}

/// `--build-arg key=value` for each pair, in order.
pub open spec fn build_arg_flags(pairs: Seq<(Seq<char>, Seq<char>)>) -> Seq<Seq<char>>
    decreases pairs.len(),
{
    if pairs.len() == 0 {
        Seq::empty()
    } else {
        build_arg_flags(pairs.drop_last()) + seq![
            "--build-arg"@,
            pairs.last().0 + "="@ + pairs.last().1,
        ]
    }
}

/// The arguments of `docker build` for a build whose context is read as a
/// tar archive from standard input.
pub fn build_image_command(args: &Option<DockerBuildArgs>) -> (r: Vec<String>)
    ensures
        string_views(r@) == seq!["build"@, "-"@] + match args {
            Some(a) => build_arg_flags(a.pairs()),
            None => Seq::<Seq<char>>::empty(),
        },
{
    let mut r: Vec<String> = Vec::new();
    r.push(string_of(&chars_of("build")));
    r.push(string_of(&chars_of("-")));
    assert(string_views(r@) =~= seq!["build"@, "-"@]);
    match args {
        Some(a) => {
            let entries = a.entries();
            let ghost pv = pair_views(entries@);
            let mut i: usize = 0;
            while i < entries.len()
                invariant
                    i <= entries.len(),
                    pv == pair_views(entries@),
                    pv == a.pairs(),
                    string_views(r@) == seq!["build"@, "-"@] + build_arg_flags(pv.take(i as int)),
                decreases entries.len() - i,
            {
                assert(pv.take(i + 1).drop_last() =~= pv.take(i as int));
                assert(pv.take(i + 1).last() == pv[i as int]);
                let kv = concat_chars(&chars_of(entries[i].0.as_str()), &chars_of("="));
                let kv = concat_chars(&kv, &chars_of(entries[i].1.as_str()));
                let ghost old_r = string_views(r@);
                r.push(string_of(&chars_of("--build-arg")));
                r.push(string_of(&kv));
                assert(string_views(r@) =~= old_r + seq!["--build-arg"@, kv@]);
                i = i + 1;
            }
            assert(pv.take(entries.len() as int) =~= pv);
        },
        None => {
            assert(string_views(r@) =~= seq!["build"@, "-"@] + Seq::<Seq<char>>::empty());
        },
    }
    r
}

/// The arguments of `docker create` for an image.
pub fn create_container_command(image: &ImageId) -> (r: Vec<String>)
    ensures
        string_views(r@) == seq!["create"@, image@],
{
    let mut r: Vec<String> = Vec::new();
    r.push(string_of(&chars_of("create")));
    r.push(image.as_string());
    assert(string_views(r@) =~= seq!["create"@, image@]);
    r
}

/// The arguments of `docker cp` copying `from` inside the container to `to`.
pub fn copy_file_from_container_command(container: &ContainerId, from: &str, to: &str) -> (r: Vec<
    String,
>)
    ensures
        string_views(r@) == seq!["cp"@, container@ + ":"@ + from@, to@],
{
    let location = concat_chars(&chars_of(container.as_string().as_str()), &chars_of(":"));
    let location = concat_chars(&location, &chars_of(from));
    let mut r: Vec<String> = Vec::new();
    r.push(string_of(&chars_of("cp")));
    r.push(string_of(&location));
    r.push(string_of(&chars_of(to)));
    assert(string_views(r@) =~= seq!["cp"@, container@ + ":"@ + from@, to@]);
    r
}

/// The arguments of `docker rm` for a container.
pub fn remove_container_command(container: &ContainerId) -> (r: Vec<String>)
    ensures
        string_views(r@) == seq!["rm"@, container@],
{
    let mut r: Vec<String> = Vec::new();
    r.push(string_of(&chars_of("rm")));
    r.push(container.as_string());
    assert(string_views(r@) =~= seq!["rm"@, container@]);
    r
}

/// The arguments of `docker rmi` for an image.
pub fn remove_image_command(image: &ImageId) -> (r: Vec<String>)
    ensures
        string_views(r@) == seq!["rmi"@, image@],
{
    let mut r: Vec<String> = Vec::new();
    r.push(string_of(&chars_of("rmi")));
    r.push(image.as_string());
    assert(string_views(r@) =~= seq!["rmi"@, image@]);
    r
}

/// The outcome of a Docker command whose last line of output names what it
/// made: that identifier when the command succeeded and printed something,
/// else a failure carrying all lines joined by newlines. A last line of a
/// successful command must hold a word.
pub fn last_line_outcome(success: bool, lines: &Vec<String>) -> (r: Result<DockerId, DockerError>)
    requires
        success && lines.len() > 0 ==> trim(lines@.last()@).len() > 0,
    ensures
        success && lines.len() > 0 ==> (r matches Ok(id) && id@ == last_word(lines@.last()@)),
        !(success && lines.len() > 0) ==> (r matches Err(e) && e@
            == DockerErrorView::FailedExecution(join(string_views(lines@), "\n"@))),
{
    if success && lines.len() > 0 {
        Ok(DockerId::from(lines[lines.len() - 1].clone()))
    } else {
        let mut parts: Vec<Vec<char>> = Vec::new();
        let mut i: usize = 0;
        while i < lines.len()
            invariant
                i <= lines.len(),
                views(parts@) == string_views(lines@).take(i as int),
            decreases lines.len() - i,
        {
            let ghost old_p = views(parts@);
            let c = chars_of(lines[i].as_str());
            assert(c@ == lines@[i as int]@);
            parts.push(c);
            assert(views(parts@) =~= old_p.push(c@));
            assert(views(parts@) =~= string_views(lines@).take(i + 1));
            i = i + 1;
        }
        assert(string_views(lines@).take(lines.len() as int) =~= string_views(lines@));
        let joined = join_chars(&parts, &chars_of("\n"));
        Err(DockerError::FailedExecution(string_of(&joined)))
    }
}

/// The outcome of a Docker command expected to exit with status zero: a
/// failure carries what it printed.
pub fn command_outcome(success: bool, stdout: String) -> (r: Result<(), DockerError>)
    ensures
        success ==> r is Ok,
        !success ==> (r matches Err(e) && e@ == DockerErrorView::FailedExecution(stdout@)),
{
    if success {
        Ok(())
    } else {
        Err(DockerError::FailedExecution(stdout))
    }
}


/// The instructions of a Dockerfile that the build interpreter knows.
pub enum Instruction {
    Run(Vec<String>),
    Workdir(String),
    Copy(String, String),
    Env(String, String),
}

pub enum InstructionView {
    Run(Seq<Seq<char>>),
    Workdir(Seq<char>),
    Copy(Seq<char>, Seq<char>),
    Env(Seq<char>, Seq<char>),
}

impl View for Instruction {
    type V = InstructionView;

    open spec fn view(&self) -> InstructionView {
        match self {
            Instruction::Run(parts) => InstructionView::Run(string_views(parts@)),
            Instruction::Workdir(p) => InstructionView::Workdir(p@),
            Instruction::Copy(from, to) => InstructionView::Copy(from@, to@),
            Instruction::Env(key, value) => InstructionView::Env(key@, value@),
        }
    }
}

/// The views of a sequence of instructions.
pub open spec fn instruction_views(v: Seq<Instruction>) -> Seq<InstructionView> {
    v.map_values(|i: Instruction| i@)
}

/// What one line contributes.
pub enum LineOutcome {
    Skip,
    Emit(InstructionView),
    Fail(Seq<char>),
}

/// The reading of one line: `WORKDIR`, `COPY`, `RUN` and `ENV` take the text
/// after their first space; comments and anything else are skipped. `COPY`
/// splits at its first space: the rest, trimmed, is the destination.
pub open spec fn parse_line(line: Seq<char>) -> LineOutcome {
    let t = trim(line);
    if starts_with_char(t, '#') {
        LineOutcome::Skip
    } else {
        match split_once(t, ' ') {
            None => LineOutcome::Skip,
            Some((command, rest)) => {
                if command == "WORKDIR"@ {
                    LineOutcome::Emit(InstructionView::Workdir(trim(rest)))
                } else if command == "COPY"@ {
                    match split_once(trim(rest), ' ') {
                        Some((from, to)) => LineOutcome::Emit(
                            InstructionView::Copy(trim(from), trim(to)),
                        ),
                        None => LineOutcome::Fail("COPY is limited to two parts, found: "@ + rest),
                    }
                } else if command == "RUN"@ {
                    if regex_compiles(RUN_TOKEN_PATTERN@) {
                        LineOutcome::Emit(
                            InstructionView::Run(regex_matches(RUN_TOKEN_PATTERN@, rest)),
                        )
                    } else {
                        LineOutcome::Fail("the RUN token pattern does not compile"@)
                    }
                } else if command == "ENV"@ {
                    match split_once(trim(rest), ' ') {
                        Some((key, value)) => LineOutcome::Emit(
                            InstructionView::Env(trim(key), trim(value)),
                        ),
                        None => LineOutcome::Fail("ENV must have two parts, found: "@ + rest),
                    }
                } else {
                    LineOutcome::Skip
                }
            },
        }
    }
}

/// The instructions of the lines in order, or the message of the first line
/// that fails.
pub open spec fn parse_lines(ls: Seq<Seq<char>>) -> Result<Seq<InstructionView>, Seq<char>>
    decreases ls.len(),
{
    if ls.len() == 0 {
        Ok(Seq::empty())
    } else {
        match parse_lines(ls.drop_last()) {
            Err(e) => Err(e),
            Ok(v) => match parse_line(ls.last()) {
                LineOutcome::Skip => Ok(v),
                LineOutcome::Emit(x) => Ok(v.push(x)),
                LineOutcome::Fail(e) => Err(e),
            },
        }
    }
}

proof fn lemma_parse_lines_err(ls: Seq<Seq<char>>, i: int)
    requires
        0 <= i <= ls.len(),
        parse_lines(ls.take(i)) is Err,
    ensures
        parse_lines(ls) == parse_lines(ls.take(i)),
    decreases ls.len(),
{
    if i == ls.len() {
        assert(ls.take(i) =~= ls);
    } else {
        let t = ls.drop_last();
        assert(t.take(i) =~= ls.take(i));
        lemma_parse_lines_err(t, i);
    }
}

enum ParsedLine {
    Skip,
    Emit(Instruction),
    Fail(String),
}

impl ParsedLine {
    spec fn matches_outcome(&self, o: LineOutcome) -> bool {
        match (self, o) {
            (ParsedLine::Skip, LineOutcome::Skip) => true,
            (ParsedLine::Emit(x), LineOutcome::Emit(y)) => x@ == y,
            (ParsedLine::Fail(x), LineOutcome::Fail(y)) => x@ == y,
            _ => false,
        }
    }
}

fn message_with(prefix: &str, found: &Vec<char>) -> (r: String)
    ensures
        r@ == prefix@ + found@,
{
    string_of(&concat_chars(&chars_of(prefix), found))
}

/// The `RUN` instruction made of the parts that the token pattern found in
/// its command; `None` stands for a pattern that did not compile, which
/// fails with a message saying so.
pub fn run_instruction(found: Option<Vec<String>>) -> (r: Result<Instruction, String>)
    ensures
        match found {
            Some(parts) => r matches Ok(x) && x@ == InstructionView::Run(string_views(parts@)),
            None => r matches Err(m) && m@ == "the RUN token pattern does not compile"@,
        },
{
    match found {
        Some(parts) => Ok(Instruction::Run(parts)),
        None => Err(string_of(&chars_of("the RUN token pattern does not compile"))),
    }
}

fn parse_one_line(line: &Vec<char>) -> (r: ParsedLine)
    ensures
        r.matches_outcome(parse_line(line@)),
{
    let t = trim_chars(line);
    if starts_with(&t, '#') {
        return ParsedLine::Skip;
    }
    match split_once_chars(&t, ' ') {
        None => ParsedLine::Skip,
        Some((command, rest)) => {
            if chars_eq_str(&command, "WORKDIR") {
                ParsedLine::Emit(Instruction::Workdir(string_of(&trim_chars(&rest))))
            } else if chars_eq_str(&command, "COPY") {
                match split_once_chars(&trim_chars(&rest), ' ') {
                    Some((from, to)) => ParsedLine::Emit(
                        Instruction::Copy(string_of(&trim_chars(&from)), string_of(&trim_chars(&to))),
                    ),
                    None => ParsedLine::Fail(message_with("COPY is limited to two parts, found: ", &rest)),
                }
            } else if chars_eq_str(&command, "RUN") {
                let rest_text = string_of(&rest);
                let found = match regex_find_all(RUN_TOKEN_PATTERN, rest_text.as_str()) {
                    Ok(parts) => Some(parts),
                    Err(_) => None,
                };
                match run_instruction(found) {
                    Ok(x) => ParsedLine::Emit(x),
                    Err(m) => ParsedLine::Fail(m),
                }
            } else if chars_eq_str(&command, "ENV") {
                match split_once_chars(&trim_chars(&rest), ' ') {
                    Some((key, value)) => ParsedLine::Emit(
                        Instruction::Env(string_of(&trim_chars(&key)), string_of(&trim_chars(&value))),
                    ),
                    None => ParsedLine::Fail(message_with("ENV must have two parts, found: ", &rest)),
                }
            } else {
                ParsedLine::Skip
            }
        },
    }
}

/// Parses a Dockerfile for the build interpreter; a malformed `COPY` or
/// `ENV` line fails with a message that quotes it.
pub fn parse(contents: &str) -> (r: Result<Vec<Instruction>, DockerError>)
    ensures
        match r {
            Ok(v) => parse_lines(lines(contents@)) == Ok::<Seq<InstructionView>, Seq<char>>(
                instruction_views(v@),
            ),
            Err(e) => exists|m: Seq<char>|
                parse_lines(lines(contents@)) == Err::<Seq<InstructionView>, Seq<char>>(m)
                    && e@ == DockerErrorView::FailedParsingFile(m),
        },
{
    let text = chars_of(contents);
    let ls = lines_of(&text);
    let ghost lv = views(ls@);
    let mut out: Vec<Instruction> = Vec::new();
    let mut i: usize = 0;
    assert(lv.take(0) =~= Seq::<Seq<char>>::empty());
    assert(instruction_views(out@) =~= Seq::<InstructionView>::empty());
    while i < ls.len()
        invariant
            i <= ls.len(),
            lv == views(ls@),
            lv == lines(contents@),
            parse_lines(lv.take(i as int)) == Ok::<Seq<InstructionView>, Seq<char>>(
                instruction_views(out@),
            ),
        decreases ls.len() - i,
    {
        assert(lv.take(i + 1).drop_last() =~= lv.take(i as int));
        assert(lv.take(i + 1).last() == ls[i as int]@);
        match parse_one_line(&ls[i]) {
            ParsedLine::Skip => {},
            ParsedLine::Emit(x) => {
                let ghost old_out = instruction_views(out@);
                out.push(x);
                assert(instruction_views(out@) =~= old_out.push(x@));
            },
            ParsedLine::Fail(m) => {
                proof {
                    lemma_parse_lines_err(lv, i + 1);
                }
                return Err(DockerError::FailedParsingFile(m));
            },
        }
        i = i + 1;
    }
    assert(lv.take(ls.len() as int) =~= lv);
    Ok(out)
}

/// What an instruction of the build interpreter asks of the machine.
pub enum Action {
    /// Run `program` with `args` in `current_dir`; a failure fails the build
    /// (see `run_failure`).
    Run { program: String, args: Vec<String>, current_dir: String },
    /// Create the directory and its parents, unless it is a directory.
    CreateDirectory(String),
    /// Unless `check_dir` is a directory, create `create_dir` and its
    /// parents; then copy the file `from` to `to`. For a file destination
    /// `check_dir` is its parent and `create_dir` the destination itself.
    Copy { from: String, to: String, check_dir: String, create_dir: String },
}

pub enum ActionView {
    Run { program: Seq<char>, args: Seq<Seq<char>>, current_dir: Seq<char> },
    CreateDirectory(Seq<char>),
    Copy { from: Seq<char>, to: Seq<char>, check_dir: Seq<char>, create_dir: Seq<char> },
}

impl View for Action {
    type V = ActionView;

    open spec fn view(&self) -> ActionView {
        match self {
            Action::Run { program, args, current_dir } => ActionView::Run {
                program: program@,
                args: string_views(args@),
                current_dir: current_dir@,
            },
            Action::CreateDirectory(p) => ActionView::CreateDirectory(p@),
            Action::Copy { from, to, check_dir, create_dir } => ActionView::Copy {
                from: from@,
                to: to@,
                check_dir: check_dir@,
                create_dir: create_dir@,
            },
        }
    }
}

/// The copy destination, placed in the working directory and normalized.
pub open spec fn copy_target(base_dir: Seq<char>, current_dir: Seq<char>, to: Seq<char>) -> Seq<char> {
    normalize_path(contextualize_path(base_dir, current_dir, to))
}

/// The instructions that `step` accepts: a `RUN` with a program, a `COPY`
/// whose source has a file name when copied into a directory and whose
/// target file has a parent otherwise; `ENV` is not interpreted.
pub open spec fn step_defined(
    i: InstructionView,
    dockerfile_dir: Seq<char>,
    base_dir: Seq<char>,
    current_dir: Seq<char>,
) -> bool {
    match i {
        InstructionView::Run(parts) => parts.len() > 0,
        InstructionView::Workdir(_) => true,
        InstructionView::Copy(from, to) => if is_directory_text(to) {
            file_name(join_path(dockerfile_dir, from)) is Some
        } else {
            parent_path(copy_target(base_dir, current_dir, to)) is Some
        },
        InstructionView::Env(_, _) => false,
    }
}

/// The working directory after an instruction, and what it asks of the
/// machine.
pub open spec fn step(
    i: InstructionView,
    dockerfile_dir: Seq<char>,
    base_dir: Seq<char>,
    current_dir: Seq<char>,
) -> (Seq<char>, ActionView) {
    match i {
        InstructionView::Run(parts) => (
            current_dir,
            ActionView::Run { program: parts[0], args: parts.skip(1), current_dir },
        ),
        InstructionView::Workdir(p) => {
            let d = contextualize_path(base_dir, current_dir, p);
            (d, ActionView::CreateDirectory(d))
        },
        InstructionView::Copy(from, to) => {
            let source = join_path(dockerfile_dir, from);
            let target = copy_target(base_dir, current_dir, to);
            if is_directory_text(to) {
                (
                    current_dir,
                    ActionView::Copy {
                        from: source,
                        to: join_path(target, file_name(source).unwrap()),
                        check_dir: target,
                        create_dir: target,
                    },
                )
            } else {
                (
                    current_dir,
                    ActionView::Copy {
                        from: source,
                        to: target,
                        check_dir: parent_path(target).unwrap(),
                        create_dir: target,
                    },
                )
            }
        },
        InstructionView::Env(_, _) => (current_dir, ActionView::CreateDirectory(current_dir)),
    }
}

/// Law: a `COPY` whose destination, trimmed, is `.` or ends with `/` copies
/// the file into that directory, placed in the working directory, under
/// the file's own name; that directory is created when missing.
pub proof fn lemma_build_copy_into_directory(
    from: Seq<char>,
    to: Seq<char>,
    dockerfile_dir: Seq<char>,
    base_dir: Seq<char>,
    current_dir: Seq<char>,
)
    requires
        trim(to) == seq!['.'] || ends_with_char(trim(to), '/'),
    ensures
        ({
            let source = join_path(dockerfile_dir, from);
            let target = normalize_path(contextualize_path(base_dir, current_dir, to));
            step(InstructionView::Copy(from, to), dockerfile_dir, base_dir, current_dir) == (
                current_dir,
                ActionView::Copy {
                    from: source,
                    to: join_path(target, file_name(source).unwrap()),
                    check_dir: target,
                    create_dir: target,
                },
            )
        }),
{
}

/// The message of a failed `RUN`.
pub open spec fn run_failure_message(parts: Seq<Seq<char>>) -> Seq<char> {
    "Failed to run command: "@ + join(parts, " "@)
}

/// The error of a `RUN` whose command failed.
pub fn run_failure(command: &Vec<String>) -> (e: DockerError)
    ensures
        e@ == DockerErrorView::FailedExecution(run_failure_message(string_views(command@))),
{
    let mut parts: Vec<Vec<char>> = Vec::new();
    let mut i: usize = 0;
    while i < command.len()
        invariant
            i <= command.len(),
            views(parts@) == string_views(command@).take(i as int),
        decreases command.len() - i,
    {
        let ghost old_p = views(parts@);
        let c = chars_of(command[i].as_str());
        assert(c@ == command@[i as int]@);
        parts.push(c);
        assert(views(parts@) =~= old_p.push(c@));
        assert(views(parts@) =~= string_views(command@).take(i + 1));
        i = i + 1;
    }
    assert(string_views(command@).take(command.len() as int) =~= string_views(command@));
    let joined = join_chars(&parts, &chars_of(" "));
    DockerError::FailedExecution(message_with("Failed to run command: ", &joined))
}

/// The outcome of a `RUN` whose program has exited: success when its exit
/// status says so, else the failure that names the command.
pub fn run_outcome(success: bool, command: &Vec<String>) -> (r: Result<(), DockerError>)
    ensures
        success ==> r is Ok,
        !success ==> (r matches Err(e) && e@ == DockerErrorView::FailedExecution(
            run_failure_message(string_views(command@)),
        )),
{
    if success {
        Ok(())
    } else {
        Err(run_failure(command))
    }
}

fn is_directory_spelling(p: &Vec<char>) -> (b: bool)
    ensures
        b == is_directory_text(p@),
{
    let t = trim_chars(p);
    proof {
        reveal_strlit(".");
        assert("."@ =~= seq!['.']);
    }
    (t.len() > 0 && t[t.len() - 1] == '/') || chars_eq_str(&t, ".")
}

impl Instruction {
    /// The working directory after the instruction and what the instruction
    /// asks of the machine, for a Dockerfile in `dockerfile_dir` interpreted
    /// in `base_dir`.
    pub fn execute(&self, dockerfile_dir: &str, base_dir: &str, current_dir: String) -> (r: (
        String,
        Action,
    ))
        requires
            step_defined(self@, dockerfile_dir@, base_dir@, current_dir@),
        ensures
            (r.0@, r.1@) == step(self@, dockerfile_dir@, base_dir@, current_dir@),
    {
        match self {
            Instruction::Run(run) => {
                let program = run[0].clone();
                let mut args: Vec<String> = Vec::new();
                let mut i: usize = 1;
                while i < run.len()
                    invariant
                        1 <= i <= run.len(),
                        string_views(args@) == string_views(run@).subrange(1, i as int),
                    decreases run.len() - i,
                {
                    let ghost old_a = string_views(args@);
                    let part = run[i].clone();
                    args.push(part);
                    assert(string_views(args@) =~= old_a.push(run@[i as int]@));
                    assert(string_views(args@) =~= string_views(run@).subrange(1, i + 1));
                    i = i + 1;
                }
                assert(string_views(run@).subrange(1, run.len() as int) =~= string_views(run@).skip(1));
                let cd = current_dir.clone();
                (current_dir, Action::Run { program, args, current_dir: cd })
            },
            Instruction::Workdir(path) => {
                let d = contextualize_chars(&chars_of(base_dir), &chars_of(current_dir.as_str()), &chars_of(path.as_str()));
                (string_of(&d), Action::CreateDirectory(string_of(&d)))
            },
            Instruction::Copy(from, to) => {
                let source = join_path_chars(&chars_of(dockerfile_dir), &chars_of(from.as_str()));
                let placed = contextualize_chars(&chars_of(base_dir), &chars_of(current_dir.as_str()), &chars_of(to.as_str()));
                let target = normalize_chars(&placed);
                if is_directory_spelling(&chars_of(to.as_str())) {
                    let name = match file_name_chars(&source) {
                        Some(n) => n,
                        None => Vec::new(),
                    };
                    let dest = join_path_chars(&target, &name);
                    (current_dir, Action::Copy {
                        from: string_of(&source),
                        to: string_of(&dest),
                        check_dir: string_of(&target),
                        create_dir: string_of(&target),
                    })
                } else {
                    let parent = match parent_chars(&target) {
                        Some(p) => p,
                        None => Vec::new(),
                    };
                    (current_dir, Action::Copy {
                        from: string_of(&source),
                        to: string_of(&target),
                        check_dir: string_of(&parent),
                        create_dir: string_of(&target),
                    })
                }
            },
            Instruction::Env(_, _) => {
                let cd = current_dir.clone();
                (current_dir, Action::CreateDirectory(cd))
            },
        }
    }
}

} // verus!
