use sightglass::build_docker::{DockerBuildArgs, DockerError, DockerId, Dockerfile};
use sightglass::dockerfile::Dockerfile as ArtifactDockerfile;
use sightglass::extraction::{ExtractAction, ExtractEvent, Stage};

fn describe(a: &ExtractAction) -> String {
    match a {
        ExtractAction::BuildImage { context_dir, args } => format!("build in {}: {}", context_dir, args.join(" ")),
        ExtractAction::CreateContainer { args } => format!("create: {}", args.join(" ")),
        ExtractAction::Run { args } => format!("run: {}", args.join(" ")),
        ExtractAction::Finished(Ok(())) => "finished".to_string(),
        ExtractAction::Finished(Err(DockerError::FailedExecution(s))) => format!("failed: {}", s),
        ExtractAction::Finished(Err(_)) => "failed".to_string(),
    }
}

#[test]
fn extraction_runs_every_step_in_order() {
    let dockerfile = Dockerfile::from("/benchmarks/noop/Dockerfile".to_string());
    let mut args = DockerBuildArgs::new();
    args.set("OPT".to_string(), "3".to_string());
    let (mut x, first) = dockerfile.extract("/benchmark.wasm".to_string(), "/tmp/noop.wasm".to_string(), Some(args));
    assert_eq!(describe(&first), "build in /benchmarks/noop: build - --build-arg OPT=3");

    let a = x.advance(ExtractEvent::Made(DockerId::from("img7".to_string())));
    assert_eq!(describe(&a), "create: create img7");
    let a = x.advance(ExtractEvent::Made(DockerId::from("ctr3".to_string())));
    assert_eq!(describe(&a), "run: cp ctr3:/benchmark.wasm /tmp/noop.wasm");
    let a = x.advance(ExtractEvent::Done);
    assert_eq!(describe(&a), "run: rm ctr3");
    let a = x.advance(ExtractEvent::Done);
    assert_eq!(describe(&a), "run: rmi img7");
    let a = x.advance(ExtractEvent::Done);
    assert_eq!(describe(&a), "finished");
    assert!(matches!(x.stage, Stage::Over));
    assert_eq!(x.source, "/benchmark.wasm");
    assert_eq!(x.destination, "/tmp/noop.wasm");
}

#[test]
fn extraction_stops_at_first_failure() {
    let dockerfile = ArtifactDockerfile::from("/engines/wasmtime/Dockerfile".to_string());
    let (mut x, first) = dockerfile.extract("/libengine.so".to_string(), "/tmp/e.so".to_string(), None);
    assert_eq!(describe(&first), "build in /engines/wasmtime: build -");
    let a = x.advance(ExtractEvent::Made(DockerId::from("img".to_string())));
    assert_eq!(describe(&a), "create: create img");
    let a = x.advance(ExtractEvent::Failed(DockerError::FailedExecution("no space".to_string())));
    assert_eq!(describe(&a), "failed: no space");
    assert!(matches!(x.stage, Stage::Over));
}

#[test]
fn extraction_build_failure_ends_at_once() {
    let dockerfile = Dockerfile::from("/d/Dockerfile".to_string());
    let (mut x, _) = dockerfile.extract("/a".to_string(), "/b".to_string(), None);
    let a = x.advance(ExtractEvent::Failed(DockerError::FailedExecution("bad".to_string())));
    assert_eq!(describe(&a), "failed: bad");
}
