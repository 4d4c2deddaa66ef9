use sightglass::build_docker::DockerBuildArgs;
use sightglass::interpret::{
    arg_value_from, contextualize, copy_operation, make_contextual_shell_command, normalize, parse,
    run_instruction, run_outcome, Action, CopyLocation, CopyOperation, DockerInterpretError,
    ExecContext, ExecuteError, Instruction,
};

fn describe(i: &Instruction) -> String {
    match i {
        Instruction::Run(parts) => format!("RUN {:?}", parts),
        Instruction::Workdir(p) => format!("WORKDIR {}", p),
        Instruction::Copy(from, to) => format!("COPY {} -> {}", from, to),
        Instruction::Arg(k, v) => format!("ARG {} = {}", k, v),
    }
}

fn parsed(contents: &str) -> Vec<String> {
    match parse(contents) {
        Ok(v) => v.iter().map(describe).collect(),
        Err(e) => panic!("unexpected error: {}", e.message()),
    }
}

fn location(l: &CopyLocation) -> String {
    match l {
        CopyLocation::Dir(p) => format!("dir {}", p),
        CopyLocation::File(p) => format!("file {}", p),
    }
}

#[test]
fn parse_known_instructions() {
    let contents = "FROM ubuntu\n# a comment\nWORKDIR /app\nCOPY a.txt /app/\nADD  b   c \nRUN echo \"hello world\" x\nARG K=V\nENV X = y\nEXPOSE\n";
    assert_eq!(
        parsed(contents),
        vec![
            "WORKDIR /app",
            "COPY a.txt -> /app/",
            "COPY b -> c",
            "RUN [\"echo\", \"\\\"hello world\\\"\", \"x\"]",
            "ARG K = V",
            "ARG X = y",
        ]
    );
}

#[test]
fn parse_ignores_comments_and_unknown_lines() {
    assert!(parsed("# WORKDIR /x\nMAINTAINER me\nnonsense\n\n").is_empty());
    assert!(parsed("").is_empty());
}

#[test]
fn parse_copy_needs_two_parts() {
    match parse("WORKDIR /a\nCOPY onlyone\nARG broken") {
        Err(DockerInterpretError::BadParseCopy(found)) => assert_eq!(found, "onlyone"),
        _ => panic!("expected a COPY error"),
    }
    let e = parse("COPY onlyone").err().unwrap();
    assert_eq!(e.message(), "COPY is limited to two parts, found: onlyone");
}

#[test]
fn parse_rejects_multiline_run() {
    match parse("RUN make \\\n  all") {
        Err(DockerInterpretError::BadParseMultiline) => {}
        _ => panic!("expected a multi-line error"),
    }
    assert_eq!(
        DockerInterpretError::BadParseMultiline.message(),
        "RUN cannot execute multi-line commands"
    );
}

#[test]
fn parse_arg_needs_two_parts() {
    match parse("ENV FOO bar") {
        Err(DockerInterpretError::BadParseArg(found)) => assert_eq!(found, "FOO bar"),
        _ => panic!("expected an ARG error"),
    }
    assert_eq!(
        DockerInterpretError::BadParseArg("FOO".to_string()).message(),
        "ARG must have two parts, found: FOO"
    );
}

#[test]
fn run_instruction_from_found_parts() {
    match run_instruction(Some(vec!["ls".to_string(), "-l".to_string()])) {
        Ok(Instruction::Run(parts)) => assert_eq!(parts, vec!["ls", "-l"]),
        _ => panic!("expected a RUN"),
    }
    match run_instruction(None) {
        Err(e) => assert_eq!(e.message(), "the RUN token pattern does not compile"),
        Ok(_) => panic!("expected an error"),
    }
}

#[test]
fn contextualize_absolute_and_relative() {
    assert_eq!(contextualize("/tmp/c", "/tmp/c/w", "/a/b"), "/tmp/c/a/b");
    assert_eq!(contextualize("/tmp/c", "/tmp/c/w", "x/y"), "/tmp/c/w/x/y");
    assert_eq!(contextualize("/tmp/c", "/tmp/c/w", "/"), "/tmp/c/");
    assert_eq!(contextualize("/tmp/c/", "/w", "/a/"), "/tmp/c/a");
}

#[test]
fn normalize_resolves_dots() {
    assert_eq!(normalize("/a/./b/../c"), "/a/c");
    assert_eq!(normalize("a/b"), "/a/b");
    assert_eq!(normalize("/../.."), "/");
    assert_eq!(normalize(""), "/");
    assert_eq!(normalize("/a//b/"), "/a/b");
}

#[test]
fn normalize_is_idempotent() {
    let once = normalize("x/../y/./z/..//w");
    assert_eq!(once, "/y/w");
    assert_eq!(normalize(&once), once);
}

#[test]
fn shell_command_places_absolute_paths() {
    let command = vec!["cp".to_string(), "/src/a".to_string(), "b".to_string()];
    assert_eq!(
        make_contextual_shell_command(&command, "/tmp/c"),
        vec!["sh", "-c", "cp /tmp/c/src/a b"]
    );
    assert_eq!(make_contextual_shell_command(&Vec::new(), "/tmp/c"), vec!["sh", "-c", ""]);
}

fn context() -> ExecContext {
    ExecContext {
        dockerfile_dir: "/df".to_string(),
        base_dir: "/tmp/c".to_string(),
        current_dir: "/tmp/c".to_string(),
        env: DockerBuildArgs::new(),
    }
}

#[test]
fn execute_workdir_moves_current_dir() {
    let mut c = context();
    match Instruction::Workdir("/w".to_string()).execute(&mut c, false) {
        Action::CreateDirectory(d) => assert_eq!(d, "/tmp/c/w"),
        _ => panic!("expected a directory"),
    }
    assert_eq!(c.current_dir, "/tmp/c/w");
    Instruction::Workdir("sub".to_string()).execute(&mut c, false);
    assert_eq!(c.current_dir, "/tmp/c/w/sub");
    assert_eq!(c.base_dir, "/tmp/c");
    assert_eq!(c.dockerfile_dir, "/df");
}

#[test]
fn execute_run_uses_shell_and_current_dir() {
    let mut c = context();
    c.current_dir = "/tmp/c/w".to_string();
    let run = Instruction::Run(vec!["cat".to_string(), "/etc/x".to_string()]);
    match run.execute(&mut c, false) {
        Action::Run { command, current_dir, env } => {
            assert_eq!(command, vec!["sh", "-c", "cat /tmp/c/etc/x"]);
            assert_eq!(current_dir, "/tmp/c/w");
            assert!(env.is_empty());
        }
        _ => panic!("expected a run"),
    }
}

#[test]
fn execute_copy_file_into_directory() {
    let mut c = context();
    let copy = Instruction::Copy("src/a.txt".to_string(), "/dst/".to_string());
    assert_eq!(copy.copy_source(&c).unwrap(), "/df/src/a.txt");
    match copy.execute(&mut c, false) {
        Action::Copy { from, to } => {
            assert_eq!(location(&from), "file /df/src/a.txt");
            assert_eq!(location(&to), "dir /tmp/c/dst");
            match copy_operation(&from, &to) {
                Some(CopyOperation::File { from, to }) => {
                    assert_eq!(from, "/df/src/a.txt");
                    assert_eq!(to, "/tmp/c/dst/a.txt");
                }
                _ => panic!("expected a file copy"),
            }
        }
        _ => panic!("expected a copy"),
    }
}

#[test]
fn execute_copy_directory_makes_directory_target() {
    let mut c = context();
    let copy = Instruction::Copy("assets".to_string(), "out".to_string());
    match copy.execute(&mut c, true) {
        Action::Copy { from, to } => {
            assert_eq!(location(&from), "dir /df/assets");
            assert_eq!(location(&to), "dir /tmp/c/out");
            match copy_operation(&from, &to) {
                Some(CopyOperation::Tree { from, to }) => {
                    assert_eq!(from, "/df/assets");
                    assert_eq!(to, "/tmp/c/out");
                }
                _ => panic!("expected a tree copy"),
            }
        }
        _ => panic!("expected a copy"),
    }
}

#[test]
fn execute_copy_file_to_file() {
    let mut c = context();
    let copy = Instruction::Copy("./a.txt".to_string(), "../b.txt".to_string());
    match copy.execute(&mut c, false) {
        Action::Copy { from, to } => {
            assert_eq!(location(&from), "file /df/a.txt");
            assert_eq!(location(&to), "file /tmp/b.txt");
        }
        _ => panic!("expected a copy"),
    }
}

#[test]
fn copy_directory_to_file_is_refused() {
    let from = CopyLocation::Dir("/a".to_string());
    let to = CopyLocation::File("/b".to_string());
    assert!(copy_operation(&from, &to).is_none());
    assert!(from.is_dir());
    assert!(!to.is_dir());
}

#[test]
fn execute_arg_sets_unquoted_value_once() {
    let mut c = context();
    let first = Instruction::Arg("NAME".to_string(), "\"x y\"".to_string());
    match first.execute(&mut c, false) {
        Action::Nothing => {}
        _ => panic!("an ARG asks nothing of the machine"),
    }
    assert_eq!(c.env.get(&"NAME".to_string()), Some("x y".to_string()));
    Instruction::Arg("NAME".to_string(), "other".to_string()).execute(&mut c, false);
    assert_eq!(c.env.get(&"NAME".to_string()), Some("x y".to_string()));
    Instruction::Arg("PLAIN".to_string(), "abc".to_string()).execute(&mut c, false);
    assert_eq!(c.env.get(&"PLAIN".to_string()), Some("abc".to_string()));
}

#[test]
fn arg_value_from_unquoted_or_written() {
    assert_eq!(arg_value_from("'q'".to_string(), Some("q".to_string())), "q");
    assert_eq!(arg_value_from("'q".to_string(), None), "'q");
}

#[test]
fn parse_copy_with_three_parts_fails() {
    match parse("COPY a b c") {
        Err(DockerInterpretError::BadParseCopy(found)) => assert_eq!(found, "a b c"),
        _ => panic!("expected a COPY error"),
    }
    match parse("ADD a  b") {
        Ok(v) => assert_eq!(v.iter().map(describe).collect::<Vec<_>>(), vec!["COPY a -> b"]),
        Err(_) => panic!("two parts with extra spaces parse"),
    }
}

#[test]
fn execute_run_carries_the_environment() {
    let mut c = context();
    Instruction::Arg("CC".to_string(), "clang".to_string()).execute(&mut c, false);
    match Instruction::Run(vec!["make".to_string()]).execute(&mut c, false) {
        Action::Run { env, .. } => assert_eq!(env, vec![("CC".to_string(), "clang".to_string())]),
        _ => panic!("expected a run"),
    }
}

#[test]
fn run_outcome_by_status() {
    assert!(run_outcome(true, vec!["sh".to_string()]).is_ok());
    match run_outcome(false, vec!["sh".to_string(), "-c".to_string(), "false".to_string()]) {
        Err(ExecuteError::RunFailed(command)) => assert_eq!(command, vec!["sh", "-c", "false"]),
        Ok(()) => panic!("a failed status fails"),
    }
}

#[test]
fn parsing_joined_text_goes_line_by_line() {
    let a = "WORKDIR /a\nCOPY x y";
    let b = "ARG K=V\r\nRUN ls";
    let joined = format!("{}\n{}", a, b);
    let mut expected = parsed(a);
    expected.extend(parsed(b));
    assert_eq!(parsed(&joined), expected);
    match parse(&format!("{}\n{}", "COPY one", b)) {
        Err(DockerInterpretError::BadParseCopy(found)) => assert_eq!(found, "one"),
        _ => panic!("the first error wins"),
    }
}

#[test]
fn arg_grows_the_environment_by_at_most_one() {
    let mut c = context();
    Instruction::Arg("A".to_string(), "1".to_string()).execute(&mut c, false);
    Instruction::Arg("A".to_string(), "2".to_string()).execute(&mut c, false);
    Instruction::Workdir("/x".to_string()).execute(&mut c, false);
    assert_eq!(c.env.entries().len(), 1);
    Instruction::Arg("B".to_string(), "3".to_string()).execute(&mut c, false);
    assert_eq!(c.env.entries().len(), 2);
}
