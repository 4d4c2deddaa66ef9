//! Interpreting a Dockerfile without Docker: the instructions it understands
//! (`RUN`, `WORKDIR`, `COPY`/`ADD`, `ARG`/`ENV`), the parser, the placement of
//! paths inside the working directory, and what each instruction asks of the
//! machine. Carrying the actions out is the caller's part.
use vstd::prelude::*;
use crate::build_docker::{pair_views, pairs_map, DockerBuildArgs};
use crate::text::{
    chars_eq_str, chars_of, concat_chars, ends_with, ends_with_char, join, join_chars,
    is_whitespace, lemma_join_concat, lemma_lines_join, lemma_lines_single, lemma_split_once_at,
    lemma_trim_plain, lemma_trim_strip_cr, lines, lines_of, split_once, strip_cr, split_once_chars, starts_with, starts_with_char, string_of, trim,
    trim_chars, views,
};
use crate::third_party::{
    regex_compiles, regex_find_all, regex_matches, string_views, unquote, unquoted,
};
use crate::unix_path::{
    contextualize_chars, contextualize_path, file_name, file_name_chars, join_path,
    join_path_chars, normalize_chars, normalize_path,
};

verus! {

/// The pattern that splits the command of a `RUN` line into its parts: a
/// quoted (or backslash-delimited) stretch, or a run of non-spaces.
pub const RUN_TOKEN_PATTERN: &'static str = r#"[\\""].+?[\\""]|[^ ]+"#;

/// The instructions that this module can interpret.
pub enum Instruction {
    Run(Vec<String>),
    Workdir(String),
    Copy(String, String),
    Arg(String, String),
}

pub enum InstructionView {
    Run(Seq<Seq<char>>),
    Workdir(Seq<char>),
    Copy(Seq<char>, Seq<char>),
    Arg(Seq<char>, Seq<char>),
}

impl View for Instruction {
    type V = InstructionView;

    open spec fn view(&self) -> InstructionView {
        match self {
            Instruction::Run(parts) => InstructionView::Run(string_views(parts@)),
            Instruction::Workdir(p) => InstructionView::Workdir(p@),
            Instruction::Copy(from, to) => InstructionView::Copy(from@, to@),
            Instruction::Arg(key, value) => InstructionView::Arg(key@, value@),
        }
    }
}

/// The views of a sequence of instructions.
pub open spec fn instruction_views(v: Seq<Instruction>) -> Seq<InstructionView> {
    v.map_values(|i: Instruction| i@)
}

/// The ways in which parsing can fail.
pub enum DockerInterpretError {
    BadParseCopy(String),
    BadParseMultiline,
    BadParseArg(String),
    BadRunPattern,
}

pub enum InterpretErrorView {
    BadParseCopy(Seq<char>),
    BadParseMultiline,
    BadParseArg(Seq<char>),
    BadRunPattern,
}

impl View for DockerInterpretError {
    type V = InterpretErrorView;

    open spec fn view(&self) -> InterpretErrorView {
        match self {
            DockerInterpretError::BadParseCopy(s) => InterpretErrorView::BadParseCopy(s@),
            DockerInterpretError::BadParseMultiline => InterpretErrorView::BadParseMultiline,
            DockerInterpretError::BadParseArg(s) => InterpretErrorView::BadParseArg(s@),
            DockerInterpretError::BadRunPattern => InterpretErrorView::BadRunPattern,
        }
    }
}

/// The human-readable text of an error.
pub open spec fn error_message(e: InterpretErrorView) -> Seq<char> {
    match e {
        InterpretErrorView::BadParseCopy(s) => "COPY is limited to two parts, found: "@ + s,
        InterpretErrorView::BadParseMultiline => "RUN cannot execute multi-line commands"@,
        InterpretErrorView::BadParseArg(s) => "ARG must have two parts, found: "@ + s,
        InterpretErrorView::BadRunPattern => "the RUN token pattern does not compile"@,
    }
}

impl DockerInterpretError {
    /// The human-readable text of the error.
    pub fn message(&self) -> (r: String)
        ensures
            r@ == error_message(self@),
    {
        match self {
            DockerInterpretError::BadParseCopy(s) => {
                let m = concat_chars(&chars_of("COPY is limited to two parts, found: "), &chars_of(s.as_str()));
                string_of(&m)
            },
            DockerInterpretError::BadParseMultiline => {
                string_of(&chars_of("RUN cannot execute multi-line commands"))
            },
            DockerInterpretError::BadParseArg(s) => {
                let m = concat_chars(&chars_of("ARG must have two parts, found: "), &chars_of(s.as_str()));
                string_of(&m)
            },
            DockerInterpretError::BadRunPattern => {
                string_of(&chars_of("the RUN token pattern does not compile"))
            },
        }
    }
}

/// What one line of a Dockerfile contributes.
pub enum LineOutcome {
    Skip,
    Emit(InstructionView),
    Fail(InterpretErrorView),
}

/// The reading of one line: comments, lines without a space and unknown
/// commands are skipped; a known command takes the trimmed text after its
/// first space. `COPY`/`ADD` is limited to two parts: a source and a
/// destination without a space.
pub open spec fn parse_line(line: Seq<char>) -> LineOutcome {
    let t = trim(line);
    if starts_with_char(t, '#') {
        LineOutcome::Skip
    } else {
        match split_once(t, ' ') {
            None => LineOutcome::Skip,
            Some((command, after)) => {
                let rest = trim(after);
                if command == "WORKDIR"@ {
                    LineOutcome::Emit(InstructionView::Workdir(rest))
                } else if command == "COPY"@ || command == "ADD"@ {
                    match split_once(rest, ' ') {
                        Some((from, to)) => if split_once(trim(to), ' ') is Some {
                            LineOutcome::Fail(InterpretErrorView::BadParseCopy(rest))
                        } else {
                            LineOutcome::Emit(InstructionView::Copy(trim(from), trim(to)))
                        },
                        None => LineOutcome::Fail(InterpretErrorView::BadParseCopy(rest)),
                    }
                } else if command == "RUN"@ {
                    if ends_with_char(rest, '\\') {
                        LineOutcome::Fail(InterpretErrorView::BadParseMultiline)
                    } else if regex_compiles(RUN_TOKEN_PATTERN@) {
                        LineOutcome::Emit(
                            InstructionView::Run(regex_matches(RUN_TOKEN_PATTERN@, rest)),
                        )
                    } else {
                        LineOutcome::Fail(InterpretErrorView::BadRunPattern)
                    }
                } else if command == "ARG"@ || command == "ENV"@ {
                    match split_once(rest, '=') {
                        Some((key, value)) => LineOutcome::Emit(
                            InstructionView::Arg(trim(key), trim(value)),
                        ),
                        None => LineOutcome::Fail(InterpretErrorView::BadParseArg(rest)),
                    }
                } else {
                    LineOutcome::Skip
                }
            },
        }
    }
}

/// The instructions of the lines in order, or the error of the first line
/// that fails.
pub open spec fn parse_lines(ls: Seq<Seq<char>>) -> Result<Seq<InstructionView>, InterpretErrorView>
    decreases ls.len(),
{
    if ls.len() == 0 {
        Ok(Seq::empty())
    } else {
        match parse_lines(ls.drop_last()) {
            Err(e) => Err(e),
            Ok(v) => match parse_line(ls.last()) {
                LineOutcome::Skip => Ok(v),
                LineOutcome::Emit(x) => Ok(v.push(x)),
                LineOutcome::Fail(e) => Err(e),
            },
        }
    }
}

/// The result of parsing the text of a Dockerfile.
pub open spec fn parse_dockerfile(contents: Seq<char>) -> Result<
    Seq<InstructionView>,
    InterpretErrorView,
> {
    parse_lines(lines(contents))
}

proof fn lemma_parse_lines_err(ls: Seq<Seq<char>>, i: int)
    requires
        0 <= i <= ls.len(),
        parse_lines(ls.take(i)) is Err,
    ensures
        parse_lines(ls) == parse_lines(ls.take(i)),
    decreases ls.len(),
{
    if i == ls.len() {
        assert(ls.take(i) =~= ls);
    } else {
        let t = ls.drop_last();
        assert(t.take(i) =~= ls.take(i));
        lemma_parse_lines_err(t, i);
    }
}

/// The result of parsing two texts one after the other: the first error,
/// else the instructions of both in order.
pub open spec fn then_parse(
    first: Result<Seq<InstructionView>, InterpretErrorView>,
    second: Result<Seq<InstructionView>, InterpretErrorView>,
) -> Result<Seq<InstructionView>, InterpretErrorView> {
    match first {
        Err(e) => Err(e),
        Ok(x) => match second {
            Err(e) => Err(e),
            Ok(y) => Ok(x + y),
        },
    }
}

proof fn lemma_parse_lines_concat(l1: Seq<Seq<char>>, l2: Seq<Seq<char>>)
    ensures
        parse_lines(l1 + l2) == then_parse(parse_lines(l1), parse_lines(l2)),
    decreases l2.len(),
{
    if l2.len() == 0 {
        assert(l1 + l2 =~= l1);
        if let Ok(x) = parse_lines(l1) {
            assert(x + Seq::<InstructionView>::empty() =~= x);
        }
    } else {
        lemma_parse_lines_concat(l1, l2.drop_last());
        assert((l1 + l2).drop_last() =~= l1 + l2.drop_last());
        assert((l1 + l2).last() == l2.last());
        if let Ok(x) = parse_lines(l1) {
            if let Ok(y) = parse_lines(l2.drop_last()) {
                if let LineOutcome::Emit(z) = parse_line(l2.last()) {
                    assert((x + y).push(z) =~= x + y.push(z));
                }
            }
        }
    }
}

proof fn lemma_parse_line_strip_cr(l: Seq<char>)
    ensures
        parse_line(strip_cr(l)) == parse_line(l),
{
    lemma_trim_strip_cr(l);
}

proof fn lemma_parse_ended_line(a: Seq<char>)
    ensures
        parse_lines(lines(a + seq!['\n'])) == parse_lines(lines(a)),
    decreases a.len(),
{
    let an = a + seq!['\n'];
    lemma_lines_join(a, Seq::empty());
    assert(an + Seq::<char>::empty() =~= an);
    assert(lines(Seq::<char>::empty()) =~= Seq::<Seq<char>>::empty());
    assert(lines(an) + Seq::<Seq<char>>::empty() =~= lines(an));
    if exists|i: int| crate::text::is_first_index(a, '\n', i) {
        let i = choose|i: int| crate::text::is_first_index(a, '\n', i);
        let first = seq![strip_cr(a.take(i))];
        let rest = a.skip(i + 1);
        assert(lines(a) == first + lines(rest));
        assert(crate::text::is_first_index(an, '\n', i)) by {
            assert(an[i] == a[i]);
            assert forall|j: int| 0 <= j < i implies an[j] != '\n' by {
                assert(an[j] == a[j]);
            }
        }
        let k = choose|k: int| crate::text::is_first_index(an, '\n', k);
        crate::text::lemma_first_index_unique(an, '\n', i, k);
        assert(an.take(i) =~= a.take(i));
        assert(an.skip(i + 1) =~= rest + seq!['\n']);
        assert(lines(an) == first + lines(rest + seq!['\n']));
        lemma_parse_ended_line(rest);
        lemma_parse_lines_concat(first, lines(rest));
        lemma_parse_lines_concat(first, lines(rest + seq!['\n']));
    } else {
        let n = a.len() as int;
        assert(crate::text::is_first_index(an, '\n', n)) by {
            assert forall|j: int| 0 <= j < n implies an[j] != '\n' by {
                assert(an[j] == a[j]);
                if a[j] == '\n' {
                    crate::text::lemma_exists_first(a, '\n', j);
                }
            }
        }
        let k = choose|k: int| crate::text::is_first_index(an, '\n', k);
        crate::text::lemma_first_index_unique(an, '\n', n, k);
        assert(an.take(n) =~= a);
        assert(an.skip(n + 1) =~= Seq::<char>::empty());
        assert(lines(an) =~= seq![strip_cr(a)]);
        assert(seq![strip_cr(a)].drop_last() =~= Seq::<Seq<char>>::empty());
        lemma_parse_line_strip_cr(a);
        if a.len() == 0 {
            assert(strip_cr(a) =~= Seq::<char>::empty());
            assert(trim(Seq::<char>::empty()) =~= Seq::<char>::empty());
            assert(split_once(Seq::<char>::empty(), ' ') is None);
        } else {
            assert(lines(a) =~= seq![a]);
            assert(seq![a].drop_last() =~= Seq::<Seq<char>>::empty());
        }
    }
}

/// Law: an `ARG` or `ENV` line gives its key and all the text after the
/// first `=`, spaces within it included: for a key without white space or
/// `=`, and a value that neither starts nor ends with white space and holds
/// no newline, `ARG key=value` parses to exactly that key and value.
pub proof fn lemma_parse_arg_line(cmd: Seq<char>, key: Seq<char>, value: Seq<char>)
    requires
        cmd == "ARG"@ || cmd == "ENV"@,
        key.len() > 0,
        forall|i: int| 0 <= i < key.len() ==> !is_whitespace(#[trigger] key[i]) && key[i] != '=',
        value.len() == 0 || (!is_whitespace(value[0]) && !is_whitespace(value.last())),
        forall|i: int| 0 <= i < value.len() ==> #[trigger] value[i] != '\n',
    ensures
        parse_dockerfile(cmd + seq![' '] + key + seq!['='] + value) == Ok::<
            Seq<InstructionView>,
            InterpretErrorView,
        >(seq![InstructionView::Arg(key, value)]),
{
    reveal_strlit("ARG");
    reveal_strlit("ENV");
    reveal_strlit("WORKDIR");
    reveal_strlit("COPY");
    reveal_strlit("ADD");
    reveal_strlit("RUN");
    let rest = key + seq!['='] + value;
    let line = cmd + seq![' '] + key + seq!['='] + value;
    assert(line =~= cmd + seq![' '] + rest);
    assert(cmd.len() == 3);
    assert forall|i: int| 0 <= i < line.len() implies line[i] != '\n' by {
        if i < 3 {
        } else if i == 3 {
        } else if i < 4 + key.len() {
            assert(line[i] == key[i - 4]);
            assert(!is_whitespace(key[i - 4]));
        } else if i == 4 + key.len() {
        } else {
            assert(line[i] == value[i - 5 - key.len()]);
        }
    }
    lemma_lines_single(line);
    assert(!is_whitespace(key[0]));
    assert(rest[0] == key[0]);
    if value.len() > 0 {
        assert(rest.last() == value.last());
        assert(line.last() == value.last());
    } else {
        assert(rest.last() == '=');
        assert(line.last() == '=');
    }
    lemma_trim_plain(line);
    lemma_trim_plain(rest);
    lemma_trim_plain(key);
    lemma_trim_plain(value);
    assert forall|i: int| 0 <= i < cmd.len() implies cmd[i] != ' ' by {}
    lemma_split_once_at(cmd, ' ', rest);
    lemma_split_once_at(key, '=', value);
    assert(!starts_with_char(line, '#'));
    assert(cmd != "WORKDIR"@);
    assert(cmd != "COPY"@);
    assert(cmd != "ADD"@ && cmd != "RUN"@) by {
        assert(cmd[0] != "RUN"@[0]);
        assert(cmd[1] != "ADD"@[1]);
    }
    assert(parse_line(line) == LineOutcome::Emit(InstructionView::Arg(key, value)));
    let one = seq![line];
    assert(one.drop_last() =~= Seq::<Seq<char>>::empty());
    assert(one.last() == line);
    assert(parse_lines(one.drop_last()) == Ok::<Seq<InstructionView>, InterpretErrorView>(
        Seq::empty(),
    ));
    assert(Seq::<InstructionView>::empty().push(InstructionView::Arg(key, value)) =~= seq![
        InstructionView::Arg(key, value),
    ]);
}

/// Law: parsing works line by line: the text of `a`, a newline and `b`
/// parses to the first error of the two texts, or else to the instructions
/// of `a` followed by those of `b`.
pub proof fn lemma_parse_joined(a: Seq<char>, b: Seq<char>)
    ensures
        parse_dockerfile(a + seq!['\n'] + b) == then_parse(parse_dockerfile(a), parse_dockerfile(b)),
{
    lemma_lines_join(a, b);
    lemma_parse_lines_concat(lines(a + seq!['\n']), lines(b));
    lemma_parse_ended_line(a);
}

/// The exec counterpart of `LineOutcome`.
enum ParsedLine {
    Skip,
    Emit(Instruction),
    Fail(DockerInterpretError),
}

impl ParsedLine {
    spec fn matches_outcome(&self, o: LineOutcome) -> bool {
        match (self, o) {
            (ParsedLine::Skip, LineOutcome::Skip) => true,
            (ParsedLine::Emit(x), LineOutcome::Emit(y)) => x@ == y,
            (ParsedLine::Fail(x), LineOutcome::Fail(y)) => x@ == y,
            _ => false,
        }
    }
}

/// The `RUN` instruction made of the parts that the token pattern found in
/// its command; `None` stands for a pattern that did not compile.
pub fn run_instruction(found: Option<Vec<String>>) -> (r: Result<Instruction, DockerInterpretError>)
    ensures
        match found {
            Some(parts) => r matches Ok(x) && x@ == InstructionView::Run(string_views(parts@)),
            None => r matches Err(e) && e@ == InterpretErrorView::BadRunPattern,
        },
{
    match found {
        Some(parts) => Ok(Instruction::Run(parts)),
        None => Err(DockerInterpretError::BadRunPattern),
    }
}

fn parse_one_line(line: &Vec<char>) -> (r: ParsedLine)
    ensures
        r.matches_outcome(parse_line(line@)),
{
    let t = trim_chars(line);
    if starts_with(&t, '#') {
        return ParsedLine::Skip;
    }
    match split_once_chars(&t, ' ') {
        None => ParsedLine::Skip,
        Some((command, after)) => {
            let rest = trim_chars(&after);
            if chars_eq_str(&command, "WORKDIR") {
                ParsedLine::Emit(Instruction::Workdir(string_of(&rest)))
            } else if chars_eq_str(&command, "COPY") || chars_eq_str(&command, "ADD") {
                match split_once_chars(&rest, ' ') {
                    Some((from, to)) => {
                        let to = trim_chars(&to);
                        if split_once_chars(&to, ' ').is_some() {
                            ParsedLine::Fail(DockerInterpretError::BadParseCopy(string_of(&rest)))
                        } else {
                            ParsedLine::Emit(Instruction::Copy(string_of(&trim_chars(&from)), string_of(&to)))
                        }
                    },
                    None => ParsedLine::Fail(DockerInterpretError::BadParseCopy(string_of(&rest))),
                }
            } else if chars_eq_str(&command, "RUN") {
                if ends_with(&rest, '\\') {
                    ParsedLine::Fail(DockerInterpretError::BadParseMultiline)
                } else {
                    let rest_text = string_of(&rest);
                    let found = match regex_find_all(RUN_TOKEN_PATTERN, rest_text.as_str()) {
                        Ok(parts) => Some(parts),
                        Err(_) => None,
                    };
                    match run_instruction(found) {
                        Ok(x) => ParsedLine::Emit(x),
                        Err(e) => ParsedLine::Fail(e),
                    }
                }
            } else if chars_eq_str(&command, "ARG") || chars_eq_str(&command, "ENV") {
                match split_once_chars(&rest, '=') {
                    Some((key, value)) => ParsedLine::Emit(
                        Instruction::Arg(string_of(&trim_chars(&key)), string_of(&trim_chars(&value))),
                    ),
                    None => ParsedLine::Fail(DockerInterpretError::BadParseArg(string_of(&rest))),
                }
            } else {
                ParsedLine::Skip
            }
        },
    }
}

/// Parses a Dockerfile into the instructions it holds; other commands,
/// comments and lines without a space are ignored.
pub fn parse(contents: &str) -> (r: Result<Vec<Instruction>, DockerInterpretError>)
    ensures
        match r {
            Ok(v) => parse_dockerfile(contents@) == Ok::<Seq<InstructionView>, InterpretErrorView>(
                instruction_views(v@),
            ),
            Err(e) => parse_dockerfile(contents@) == Err::<Seq<InstructionView>, InterpretErrorView>(
                e@,
            ),
        },
{
    let text = chars_of(contents);
    let ls = lines_of(&text);
    let ghost lv = views(ls@);
    let mut out: Vec<Instruction> = Vec::new();
    let mut i: usize = 0;
    assert(lv.take(0) =~= Seq::<Seq<char>>::empty());
    assert(instruction_views(out@) =~= Seq::<InstructionView>::empty());
    while i < ls.len()
        invariant
            i <= ls.len(),
            lv == views(ls@),
            lv == lines(contents@),
            parse_lines(lv.take(i as int)) == Ok::<Seq<InstructionView>, InterpretErrorView>(
                instruction_views(out@),
            ),
        decreases ls.len() - i,
    {
        assert(lv.take(i + 1).drop_last() =~= lv.take(i as int));
        assert(lv.take(i + 1).last() == ls[i as int]@);
        match parse_one_line(&ls[i]) {
            ParsedLine::Skip => {},
            ParsedLine::Emit(x) => {
                let ghost old_out = instruction_views(out@);
                out.push(x);
                assert(instruction_views(out@) =~= old_out.push(x@));
            },
            ParsedLine::Fail(e) => {
                proof {
                    lemma_parse_lines_err(lv, i + 1);
                }
                return Err(e);
            },
        }
        i = i + 1;
    }
    assert(lv.take(ls.len() as int) =~= lv);
    Ok(out)
}


/// The part of a `RUN` command as it is run: an absolute path is placed
/// inside the working directory `base_dir`.
pub open spec fn shell_part(base_dir: Seq<char>, part: Seq<char>) -> Seq<char> {
    if starts_with_char(part, '/') {
        contextualize_path(base_dir, Seq::empty(), part)
    } else {
        part
    }
}

/// `sh -c` followed by the parts, each placed by `shell_part`, joined by spaces.
pub open spec fn contextual_shell_command(command: Seq<Seq<char>>, base_dir: Seq<char>) -> Seq<
    Seq<char>,
> {
    seq!["sh"@, "-c"@, join(command.map_values(|part: Seq<char>| shell_part(base_dir, part)), " "@)]
}

/// Places `path`: an absolute one is appended to `container_dir` (its root
/// stripped), a relative one to `current_dir`.
pub fn contextualize(container_dir: &str, current_dir: &str, path: &str) -> (r: String)
    ensures
        r@ == contextualize_path(container_dir@, current_dir@, path@),
{
    let placed = contextualize_chars(&chars_of(container_dir), &chars_of(current_dir), &chars_of(path));
    string_of(&placed)
}

/// Resolves every `.`, `..` and empty segment of `path`, giving an absolute
/// path; the file system is not consulted.
pub fn normalize(path: &str) -> (r: String)
    ensures
        r@ == normalize_path(path@),
{
    string_of(&normalize_chars(&chars_of(path)))
}

/// Turns a `RUN` command into `sh -c "<command>"`, with the obviously
/// absolute parts placed inside `base_dir`.
pub fn make_contextual_shell_command(command: &Vec<String>, base_dir: &str) -> (r: Vec<
    String,
>)
    ensures
        string_views(r@) == contextual_shell_command(string_views(command@), base_dir@),
{
    let base = chars_of(base_dir);
    let empty: Vec<char> = Vec::new();
    let mut parts: Vec<Vec<char>> = Vec::new();
    let ghost cmd = string_views(command@);
    let ghost placed = cmd.map_values(|part: Seq<char>| shell_part(base_dir@, part));
    let mut i: usize = 0;
    while i < command.len()
        invariant
            i <= command.len(),
            base@ == base_dir@,
            empty@ == Seq::<char>::empty(),
            cmd == string_views(command@),
            placed == cmd.map_values(|part: Seq<char>| shell_part(base_dir@, part)),
            views(parts@) == placed.take(i as int),
        decreases command.len() - i,
    {
        let part = chars_of(command[i].as_str());
        assert(part@ == cmd[i as int]);
        let next = if starts_with(&part, '/') {
            contextualize_chars(&base, &empty, &part)
        } else {
            part
        };
        let ghost old_parts = views(parts@);
        parts.push(next);
        assert(views(parts@) =~= old_parts.push(next@));
        assert(views(parts@) =~= placed.take(i + 1));
        i = i + 1;
    }
    assert(placed.take(command.len() as int) =~= placed);
    let joined = join_chars(&parts, &chars_of(" "));
    let mut r: Vec<String> = Vec::new();
    r.push(string_of(&chars_of("sh")));
    r.push(string_of(&chars_of("-c")));
    r.push(string_of(&joined));
    assert(string_views(r@) =~= contextual_shell_command(cmd, base_dir@));
    r
}

/// A source or destination of a copy: a directory or a file.
pub enum CopyLocation {
    Dir(String),
    File(String),
}

pub enum CopyLocationView {
    Dir(Seq<char>),
    File(Seq<char>),
}

impl View for CopyLocation {
    type V = CopyLocationView;

    open spec fn view(&self) -> CopyLocationView {
        match self {
            CopyLocation::Dir(p) => CopyLocationView::Dir(p@),
            CopyLocation::File(p) => CopyLocationView::File(p@),
        }
    }
}

impl CopyLocation {
    /// Whether this is a directory.
    pub fn is_dir(&self) -> (b: bool)
        ensures
            b == (self is Dir),
    {
        match self {
            CopyLocation::Dir(..) => true,
            _ => false,
        }
    }
}

/// A copy to carry out.
pub enum CopyOperation {
    /// Copy one file to a file path.
    File { from: String, to: String },
    /// Copy a directory tree into a directory.
    Tree { from: String, to: String },
}

pub enum CopyOperationView {
    File { from: Seq<char>, to: Seq<char> },
    Tree { from: Seq<char>, to: Seq<char> },
}

impl View for CopyOperation {
    type V = CopyOperationView;

    open spec fn view(&self) -> CopyOperationView {
        match self {
            CopyOperation::File { from, to } => CopyOperationView::File { from: from@, to: to@ },
            CopyOperation::Tree { from, to } => CopyOperationView::Tree { from: from@, to: to@ },
        }
    }
}

/// The copy between two locations: a file to a file, a file into a
/// directory under its own name, a directory into a directory; nothing for
/// a directory to a file.
pub open spec fn copy_plan(from: CopyLocationView, to: CopyLocationView) -> Option<CopyOperationView> {
    match (from, to) {
        (CopyLocationView::File(f), CopyLocationView::File(t)) => Some(
            CopyOperationView::File { from: f, to: t },
        ),
        (CopyLocationView::File(f), CopyLocationView::Dir(t)) => Some(
            CopyOperationView::File { from: f, to: join_path(t, file_name(f).unwrap()) },
        ),
        (CopyLocationView::Dir(f), CopyLocationView::Dir(t)) => Some(
            CopyOperationView::Tree { from: f, to: t },
        ),
        (CopyLocationView::Dir(_), CopyLocationView::File(_)) => None,
    }
}

/// Decides how to copy between two locations; `None` means a directory
/// cannot be copied to a file location. A file copied into a directory must
/// have a file name.
pub fn copy_operation(from: &CopyLocation, to: &CopyLocation) -> (r: Option<CopyOperation>)
    requires
        from@ matches CopyLocationView::File(f) ==> (to is Dir ==> file_name(f) is Some),
    ensures
        match r {
            Some(op) => copy_plan(from@, to@) == Some(op@),
            None => copy_plan(from@, to@) is None,
        },
{
    match (from, to) {
        (CopyLocation::File(f), CopyLocation::File(t)) => Some(
            CopyOperation::File { from: f.clone(), to: t.clone() },
        ),
        (CopyLocation::File(f), CopyLocation::Dir(t)) => {
            let fc = chars_of(f.as_str());
            match file_name_chars(&fc) {
                Some(name) => {
                    let target = join_path_chars(&chars_of(t.as_str()), &name);
                    Some(CopyOperation::File { from: f.clone(), to: string_of(&target) })
                },
                None => None,
            }
        },
        (CopyLocation::Dir(f), CopyLocation::Dir(t)) => Some(
            CopyOperation::Tree { from: f.clone(), to: t.clone() },
        ),
        (CopyLocation::Dir(_), CopyLocation::File(_)) => None,
    }
}

/// A path that names a directory by its spelling: ending in a separator,
/// or `.`.
pub open spec fn is_directory_text(p: Seq<char>) -> bool {
    ends_with_char(trim(p), '/') || trim(p) == seq!['.']
}

fn is_directory_chars(p: &Vec<char>) -> (b: bool)
    ensures
        b == is_directory_text(p@),
{
    let t = trim_chars(p);
    proof {
        reveal_strlit(".");
        assert("."@ =~= seq!['.']);
    }
    ends_with(&t, '/') || chars_eq_str(&t, ".")
}

/// Where the interpreter works: the directory of the Dockerfile (the
/// source of copies), the directory standing for the container's root, the
/// current working directory, and the environment that `ARG`/`ENV` set.
pub struct ExecContext {
    pub dockerfile_dir: String,
    pub base_dir: String,
    pub current_dir: String,
    pub env: DockerBuildArgs,
}

pub struct ContextView {
    pub dockerfile_dir: Seq<char>,
    pub base_dir: Seq<char>,
    pub current_dir: Seq<char>,
    pub env: Map<Seq<char>, Seq<char>>,
}

impl View for ExecContext {
    type V = ContextView;

    open spec fn view(&self) -> ContextView {
        ContextView {
            dockerfile_dir: self.dockerfile_dir@,
            base_dir: self.base_dir@,
            current_dir: self.current_dir@,
            env: self.env@,
        }
    }
}

/// What an instruction asks of the machine.
pub enum Action {
    /// Run `command[0]` with the other parts as arguments, in `current_dir`,
    /// with the variables of `env` added to its environment; a failed exit
    /// status fails the instruction (see `run_outcome`).
    Run { command: Vec<String>, current_dir: String, env: Vec<(String, String)> },
    /// Create the directory and its parents, unless it is a directory.
    CreateDirectory(String),
    /// Copy between the locations (see `copy_operation`), after creating
    /// the destination when it is a directory.
    Copy { from: CopyLocation, to: CopyLocation },
    /// Nothing.
    Nothing,
}

pub enum ActionView {
    Run { command: Seq<Seq<char>>, current_dir: Seq<char>, env: Map<Seq<char>, Seq<char>> },
    CreateDirectory(Seq<char>),
    Copy { from: CopyLocationView, to: CopyLocationView },
    Nothing,
}

impl View for Action {
    type V = ActionView;

    open spec fn view(&self) -> ActionView {
        match self {
            Action::Run { command, current_dir, env } => ActionView::Run {
                command: string_views(command@),
                current_dir: current_dir@,
                env: pairs_map(pair_views(env@)),
            },
            Action::CreateDirectory(p) => ActionView::CreateDirectory(p@),
            Action::Copy { from, to } => ActionView::Copy { from: from@, to: to@ },
            Action::Nothing => ActionView::Nothing,
        }
    }
}

/// The value that `ARG key=value` stores: the value unquoted, or as written
/// when it does not unquote.
pub open spec fn arg_value(value: Seq<char>) -> Seq<char> {
    match unquoted(value) {
        Some(u) => u,
        None => value,
    }
}

/// Why executing an instruction failed.
pub enum ExecuteError {
    /// The command of a `RUN` exited with a failure status.
    RunFailed(Vec<String>),
}

/// The outcome of a `RUN` whose command has exited: success when its exit
/// status says so, else a failure that names the command as it was run.
pub fn run_outcome(success: bool, command: Vec<String>) -> (r: Result<(), ExecuteError>)
    ensures
        success ==> r is Ok,
        !success ==> (r matches Err(ExecuteError::RunFailed(c)) && string_views(c@) == string_views(
            command@,
        )),
{
    if success {
        Ok(())
    } else {
        Err(ExecuteError::RunFailed(command))
    }
}

/// The value that `ARG key=value` stores, given what unquoting the written
/// value gave: the unquoted text, or the value as written when it did not
/// unquote (`None`).
pub fn arg_value_from(written: String, unquoted: Option<String>) -> (r: String)
    ensures
        r@ == match unquoted {
            Some(u) => u@,
            None => written@,
        },
{
    match unquoted {
        Some(u) => u,
        None => written,
    }
}

/// The path that a `COPY` copies from, inside the Dockerfile's directory.
pub open spec fn copy_source_path(c: ContextView, from: Seq<char>) -> Seq<char> {
    normalize_path(join_path(c.dockerfile_dir, from))
}

/// The source of a `COPY`: a directory when its spelling or the file
/// system says so.
pub open spec fn copy_from_location(c: ContextView, from: Seq<char>, source_is_dir: bool) -> CopyLocationView {
    if is_directory_text(from) || source_is_dir {
        CopyLocationView::Dir(copy_source_path(c, from))
    } else {
        CopyLocationView::File(copy_source_path(c, from))
    }
}

/// The destination of a `COPY`, placed in the working directory: a
/// directory when its spelling says so or the source is one.
pub open spec fn copy_to_location(
    c: ContextView,
    from: Seq<char>,
    to: Seq<char>,
    source_is_dir: bool,
) -> CopyLocationView {
    let p = normalize_path(contextualize_path(c.base_dir, c.current_dir, to));
    if is_directory_text(to) || copy_from_location(c, from, source_is_dir) is Dir {
        CopyLocationView::Dir(p)
    } else {
        CopyLocationView::File(p)
    }
}

/// The effect of one instruction on the context, and what it asks of the
/// machine. `source_is_dir` is whether the source of a `COPY` is a
/// directory on disk.
pub open spec fn step(i: InstructionView, c: ContextView, source_is_dir: bool) -> (
    ContextView,
    ActionView,
) {
    match i {
        InstructionView::Run(parts) => (
            c,
            ActionView::Run {
                command: contextual_shell_command(parts, c.base_dir),
                current_dir: c.current_dir,
                env: c.env,
            },
        ),
        InstructionView::Workdir(p) => {
            let d = contextualize_path(c.base_dir, c.current_dir, p);
            (
                ContextView {
                    dockerfile_dir: c.dockerfile_dir,
                    base_dir: c.base_dir,
                    current_dir: d,
                    env: c.env,
                },
                ActionView::CreateDirectory(d),
            )
        },
        InstructionView::Copy(from, to) => (
            c,
            ActionView::Copy {
                from: copy_from_location(c, from, source_is_dir),
                to: copy_to_location(c, from, to, source_is_dir),
            },
        ),
        InstructionView::Arg(key, value) => if c.env.dom().contains(key) {
            (c, ActionView::Nothing)
        } else {
            (
                ContextView {
                    dockerfile_dir: c.dockerfile_dir,
                    base_dir: c.base_dir,
                    current_dir: c.current_dir,
                    env: c.env.insert(key, arg_value(value)),
                },
                ActionView::Nothing,
            )
        },
    }
}

/// Law: a one-part `RUN` command becomes `sh -c` with that part, placed in
/// the container directory when it is absolute (a program given by an
/// absolute path included) and left as written otherwise.
pub proof fn lemma_shell_command_single(part: Seq<char>, base_dir: Seq<char>)
    ensures
        contextual_shell_command(seq![part], base_dir) == seq![
            "sh"@,
            "-c"@,
            if starts_with_char(part, '/') {
                contextualize_path(base_dir, Seq::empty(), part)
            } else {
                part
            },
        ],
{
    let m = seq![part].map_values(|q: Seq<char>| shell_part(base_dir, q));
    assert(m.len() == 1 && m[0] == shell_part(base_dir, part));
}

/// Law: the command text of two commands run one after the other is the
/// text of the first, a space and the text of the second: every part is
/// placed the same wherever it stands in the command.
pub proof fn lemma_shell_command_concat(c1: Seq<Seq<char>>, c2: Seq<Seq<char>>, base_dir: Seq<char>)
    requires
        c1.len() > 0,
        c2.len() > 0,
    ensures
        contextual_shell_command(c1 + c2, base_dir).len() == 3,
        contextual_shell_command(c1 + c2, base_dir)[2] == contextual_shell_command(c1, base_dir)[2]
            + " "@ + contextual_shell_command(c2, base_dir)[2],
{
    let f = |q: Seq<char>| shell_part(base_dir, q);
    assert((c1 + c2).map_values(f) =~= c1.map_values(f) + c2.map_values(f));
    lemma_join_concat(c1.map_values(f), c2.map_values(f), " "@);
}

/// Law: a file copied to a file location goes to exactly that location.
pub proof fn lemma_copy_file_to_file(f: Seq<char>, t: Seq<char>)
    ensures
        copy_plan(CopyLocationView::File(f), CopyLocationView::File(t)) == Some(
            CopyOperationView::File { from: f, to: t },
        ),
{
}

/// Law: a file copied into a directory keeps its name there; a directory
/// goes into a directory as a tree; a directory cannot go to a file.
pub proof fn lemma_copy_into_directory(f: Seq<char>, t: Seq<char>)
    ensures
        file_name(f) matches Some(n) ==> copy_plan(CopyLocationView::File(f), CopyLocationView::Dir(t))
            == Some(CopyOperationView::File { from: f, to: join_path(t, n) }),
        copy_plan(CopyLocationView::Dir(f), CopyLocationView::Dir(t)) == Some(
            CopyOperationView::Tree { from: f, to: t },
        ),
        copy_plan(CopyLocationView::Dir(f), CopyLocationView::File(t)) is None,
{
}

/// Law: a `COPY` whose destination, trimmed, is `.` or ends with `/`
/// copies into a directory: the destination placed in the working
/// directory, whether or not the source is a directory. A directory source
/// always gives a directory destination.
pub proof fn lemma_copy_directory_destination(
    from: Seq<char>,
    to: Seq<char>,
    c: ContextView,
    source_is_dir: bool,
)
    requires
        trim(to) == seq!['.'] || ends_with_char(trim(to), '/') || source_is_dir,
    ensures
        step(InstructionView::Copy(from, to), c, source_is_dir).1 == (ActionView::Copy {
            from: copy_from_location(c, from, source_is_dir),
            to: CopyLocationView::Dir(normalize_path(contextualize_path(c.base_dir, c.current_dir, to))),
        }),
{
}

/// Law: no instruction moves the Dockerfile's directory or the working
/// directory, only `WORKDIR` changes the current directory, only `ARG`/`ENV`
/// changes the environment, and the environment only grows, by at most one
/// variable: a key that has a value keeps that value (a later `ARG`/`ENV` of
/// the same key is skipped). The environment of a context is finite (see
/// `lemma_args_view`).
pub proof fn lemma_step_keeps(i: InstructionView, c: ContextView, source_is_dir: bool)
    requires
        c.env.dom().finite(),
    ensures
        step(i, c, source_is_dir).0.dockerfile_dir == c.dockerfile_dir,
        step(i, c, source_is_dir).0.base_dir == c.base_dir,
        !(i is Workdir) ==> step(i, c, source_is_dir).0.current_dir == c.current_dir,
        !(i is Arg) ==> step(i, c, source_is_dir).0.env == c.env,
        forall|k: Seq<char>|
            c.env.dom().contains(k) ==> #[trigger] step(i, c, source_is_dir).0.env.dom().contains(k)
                && step(i, c, source_is_dir).0.env[k] == c.env[k],
        step(i, c, source_is_dir).0.env.dom().finite(),
        step(i, c, source_is_dir).0.env.dom().len() <= c.env.dom().len() + 1,
{
    if let InstructionView::Arg(key, value) = i {
        if !c.env.dom().contains(key) {
            assert(c.env.insert(key, arg_value(value)).dom() == c.env.dom().insert(key));
        }
    }
}

impl Instruction {
    /// The path a `COPY` copies from, whose kind (directory or not) the
    /// caller reads from the file system and hands to `execute`.
    pub fn copy_source(&self, context: &ExecContext) -> (r: Option<String>)
        ensures
            match self@ {
                InstructionView::Copy(from, _) => r matches Some(p) && p@ == copy_source_path(
                    context@,
                    from,
                ),
                _ => r is None,
            },
    {
        match self {
            Instruction::Copy(from, _) => {
                let joined = join_path_chars(&chars_of(context.dockerfile_dir.as_str()), &chars_of(from.as_str()));
                Some(string_of(&normalize_chars(&joined)))
            },
            _ => None,
        }
    }

    /// Applies the instruction to the context and returns what it asks of
    /// the machine; `source_is_dir` tells whether the source of a `COPY`
    /// (see `copy_source`) is a directory.
    pub fn execute(&self, context: &mut ExecContext, source_is_dir: bool) -> (a: Action)
        ensures
            (final(context)@, a@) == step(self@, old(context)@, source_is_dir),
    {
        match self {
            Instruction::Run(run) => {
                let command = make_contextual_shell_command(run, context.base_dir.as_str());
                Action::Run {
                    command,
                    current_dir: context.current_dir.clone(),
                    env: context.env.entries(),
                }
            },
            Instruction::Workdir(path) => {
                let d = contextualize(context.base_dir.as_str(), context.current_dir.as_str(), path.as_str());
                context.current_dir = d.clone();
                Action::CreateDirectory(d)
            },
            Instruction::Copy(from, to) => {
                let source = self.copy_source(context);
                let source = match source {
                    Some(p) => p,
                    None => from.clone(),
                };
                let from_loc = if is_directory_chars(&chars_of(from.as_str())) || source_is_dir {
                    CopyLocation::Dir(source)
                } else {
                    CopyLocation::File(source)
                };
                let placed = contextualize(context.base_dir.as_str(), context.current_dir.as_str(), to.as_str());
                let target = normalize(placed.as_str());
                let to_loc = if is_directory_chars(&chars_of(to.as_str())) || from_loc.is_dir() {
                    CopyLocation::Dir(target)
                } else {
                    CopyLocation::File(target)
                };
                Action::Copy { from: from_loc, to: to_loc }
            },
            Instruction::Arg(key, value) => {
                if !context.env.contains_key(key) {
                    let u = match unquote(value.as_str()) {
                        Ok(u) => Some(u),
                        Err(_) => None,
                    };
                    context.env.set(key.clone(), arg_value_from(value.clone(), u));
                }
                Action::Nothing
            },
        }
    }
}

} // verus!
