use sightglass::build_docker::{
    build_image_command, command_outcome, copy_file_from_container_command,
    create_container_command, last_line_outcome, parse, remove_container_command,
    remove_image_command, run_failure, run_instruction, run_outcome, Action, DockerBuildArgs, DockerError,
    DockerId, Dockerfile, Instruction,
};

fn describe(i: &Instruction) -> String {
    match i {
        Instruction::Run(parts) => format!("RUN {:?}", parts),
        Instruction::Workdir(p) => format!("WORKDIR {}", p),
        Instruction::Copy(from, to) => format!("COPY {} -> {}", from, to),
        Instruction::Env(k, v) => format!("ENV {} = {}", k, v),
    }
}

fn failure_text(e: &DockerError) -> String {
    match e {
        DockerError::IoError(_) => "io".to_string(),
        DockerError::FailedExecution(s) => format!("execution: {}", s),
        DockerError::FailedParsingId(_) => "id".to_string(),
        DockerError::FailedParsingFile(s) => format!("file: {}", s),
    }
}

#[test]
fn build_parse_known_instructions() {
    let contents = "# build\nFROM emscripten\nWORKDIR /src\nCOPY main.c  /src/\nRUN emcc -O3 main.c -o \"out file.wasm\"\nENV CC  emcc\nARG X=1\n";
    let parsed: Vec<String> = parse(contents).ok().unwrap().iter().map(describe).collect();
    assert_eq!(
        parsed,
        vec![
            "WORKDIR /src",
            "COPY main.c -> /src/",
            "RUN [\"emcc\", \"-O3\", \"main.c\", \"-o\", \"\\\"out file.wasm\\\"\"]",
            "ENV CC = emcc",
        ]
    );
}

#[test]
fn build_parse_copy_needs_two_parts() {
    let e = parse("WORKDIR /a\nCOPY a\nENV B").err().unwrap();
    assert_eq!(failure_text(&e), "file: COPY is limited to two parts, found: a");
}

#[test]
fn build_parse_env_needs_two_parts() {
    let e = parse("ENV ONLY").err().unwrap();
    assert_eq!(failure_text(&e), "file: ENV must have two parts, found: ONLY");
}

#[test]
fn build_run_instruction_from_found_parts() {
    match run_instruction(Some(vec!["make".to_string()])) {
        Ok(Instruction::Run(parts)) => assert_eq!(parts, vec!["make"]),
        _ => panic!("expected a RUN"),
    }
    assert_eq!(run_instruction(None).err().unwrap(), "the RUN token pattern does not compile");
}

#[test]
fn docker_id_is_last_word() {
    assert_eq!(DockerId::from("abc def\n".to_string()).as_string(), "def");
    assert_eq!(DockerId::from("  sha256:1234  ".to_string()).as_string(), "sha256:1234");
    assert_eq!(DockerId::from("Successfully built\t9f8e7d".to_string()).as_string(), "9f8e7d");
}

#[test]
fn docker_id_from_bytes() {
    let id = DockerId::try_from(b"Step 1/2\nid42\n".to_vec()).ok().unwrap();
    assert_eq!(id.as_string(), "id42");
    let e = DockerId::try_from(vec![0xff, 0xfe]).err().unwrap();
    assert_eq!(failure_text(&e), "id");
}

#[test]
fn build_args_set_and_override() {
    let mut args = DockerBuildArgs::new();
    assert_eq!(args.get(&"A".to_string()), None);
    args.set("A".to_string(), "1".to_string());
    args.set("B".to_string(), "2".to_string());
    args.set("A".to_string(), "3".to_string());
    assert_eq!(args.get(&"A".to_string()), Some("3".to_string()));
    assert_eq!(args.get(&"B".to_string()), Some("2".to_string()));
    assert!(args.contains_key(&"B".to_string()));
    assert!(!args.contains_key(&"C".to_string()));
    assert_eq!(
        args.entries(),
        vec![("A".to_string(), "3".to_string()), ("B".to_string(), "2".to_string())]
    );
}

#[test]
fn build_image_arguments() {
    assert_eq!(build_image_command(&None), vec!["build", "-"]);
    let mut args = DockerBuildArgs::new();
    args.set("WASI_SDK".to_string(), "12".to_string());
    args.set("OPT".to_string(), "-O2".to_string());
    assert_eq!(
        build_image_command(&Some(args)),
        vec!["build", "-", "--build-arg", "WASI_SDK=12", "--build-arg", "OPT=-O2"]
    );
}

#[test]
fn container_commands() {
    let image = DockerId::from("img1".to_string());
    let container = DockerId::from("ctr9".to_string());
    assert_eq!(create_container_command(&image), vec!["create", "img1"]);
    assert_eq!(
        copy_file_from_container_command(&container, "/benchmark.wasm", "/tmp/b.wasm"),
        vec!["cp", "ctr9:/benchmark.wasm", "/tmp/b.wasm"]
    );
    assert_eq!(remove_container_command(&container), vec!["rm", "ctr9"]);
    assert_eq!(remove_image_command(&image), vec!["rmi", "img1"]);
}

#[test]
fn last_line_names_what_was_made() {
    let lines = vec!["Step 1".to_string(), "sha256:abc".to_string()];
    assert_eq!(last_line_outcome(true, &lines).ok().unwrap().as_string(), "sha256:abc");
    let failed = last_line_outcome(false, &lines).err().unwrap();
    assert_eq!(failure_text(&failed), "execution: Step 1\nsha256:abc");
    let silent = last_line_outcome(true, &Vec::new()).err().unwrap();
    assert_eq!(failure_text(&silent), "execution: ");
}

#[test]
fn command_outcome_by_status() {
    assert!(command_outcome(true, "ignored".to_string()).is_ok());
    let e = command_outcome(false, "no such container".to_string()).err().unwrap();
    assert_eq!(failure_text(&e), "execution: no such container");
}

#[test]
fn build_execute_run() {
    let run = Instruction::Run(vec!["make".to_string(), "-j".to_string(), "4".to_string()]);
    let (cwd, action) = run.execute("/df", "/b", "/b/w".to_string());
    assert_eq!(cwd, "/b/w");
    match action {
        Action::Run { program, args, current_dir } => {
            assert_eq!(program, "make");
            assert_eq!(args, vec!["-j", "4"]);
            assert_eq!(current_dir, "/b/w");
        }
        _ => panic!("expected a run"),
    }
    let e = run_failure(&vec!["make".to_string(), "-j".to_string(), "4".to_string()]);
    assert_eq!(failure_text(&e), "execution: Failed to run command: make -j 4");
}

#[test]
fn build_execute_workdir() {
    let (cwd, action) = Instruction::Workdir("/src".to_string()).execute("/df", "/b", "/b".to_string());
    assert_eq!(cwd, "/b/src");
    match action {
        Action::CreateDirectory(d) => assert_eq!(d, "/b/src"),
        _ => panic!("expected a directory"),
    }
    let (cwd, _) = Instruction::Workdir("lib".to_string()).execute("/df", "/b", cwd);
    assert_eq!(cwd, "/b/src/lib");
}

#[test]
fn build_execute_copy_into_directory() {
    let copy = Instruction::Copy("main.c".to_string(), "out/".to_string());
    let (cwd, action) = copy.execute("/df", "/b", "/b".to_string());
    assert_eq!(cwd, "/b");
    match action {
        Action::Copy { from, to, check_dir, create_dir } => {
            assert_eq!(from, "/df/main.c");
            assert_eq!(to, "/b/out/main.c");
            assert_eq!(check_dir, "/b/out");
            assert_eq!(create_dir, "/b/out");
        }
        _ => panic!("expected a copy"),
    }
}

#[test]
fn build_execute_copy_to_file() {
    let copy = Instruction::Copy("main.c".to_string(), "/x/./y.c".to_string());
    let (_, action) = copy.execute("/df", "/b", "/b/w".to_string());
    match action {
        Action::Copy { from, to, check_dir, create_dir } => {
            assert_eq!(from, "/df/main.c");
            assert_eq!(to, "/b/x/y.c");
            assert_eq!(check_dir, "/b/x");
            assert_eq!(create_dir, "/b/x/y.c");
        }
        _ => panic!("expected a copy"),
    }
}

#[test]
fn build_dockerfile_paths() {
    let d = Dockerfile::from("/bench/x/Dockerfile".to_string());
    assert_eq!(d.parent_dir(), "/bench/x");
    assert_eq!(d.path(), "/bench/x/Dockerfile");
    assert_eq!(d.into_path(), "/bench/x/Dockerfile");
    assert_eq!(Dockerfile::from("Dockerfile".to_string()).parent_dir(), "");
}

#[test]
fn build_dockerfile_identifier_hashes_contents() {
    assert_eq!(
        Dockerfile::identifier(b""),
        "dockerfile@Hash(\"af1349b9f5f9a1a6a0404dea36dcc9499bcb25c9adc112b7cc9a93cae41f3262\")"
    );
    assert_ne!(Dockerfile::identifier(b"FROM a"), Dockerfile::identifier(b"FROM b"));
}

#[test]
fn build_parse_copy_splits_at_first_space() {
    let parsed: Vec<String> = parse("COPY a b c").ok().unwrap().iter().map(describe).collect();
    assert_eq!(parsed, vec!["COPY a -> b c"]);
}

#[test]
fn build_args_set_keeps_the_place_of_a_key() {
    let mut args = DockerBuildArgs::new();
    args.set("A".to_string(), "1".to_string());
    args.set("B".to_string(), "2".to_string());
    args.set("C".to_string(), "3".to_string());
    args.set("B".to_string(), "9".to_string());
    assert_eq!(
        args.entries(),
        vec![
            ("A".to_string(), "1".to_string()),
            ("B".to_string(), "9".to_string()),
            ("C".to_string(), "3".to_string()),
        ]
    );
}

#[test]
fn build_run_outcome_by_status() {
    let command = vec!["make".to_string(), "all".to_string()];
    assert!(run_outcome(true, &command).is_ok());
    let e = run_outcome(false, &command).err().unwrap();
    assert_eq!(failure_text(&e), "execution: Failed to run command: make all");
}
