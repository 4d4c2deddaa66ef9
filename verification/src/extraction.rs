//! Extracting one file out of a Docker build, as a sequence of Docker
//! commands: build the image, create a container from it, copy the file
//! out, then remove the container and the image. The first failure ends the
//! sequence with that failure, leaving whatever was made behind.
use vstd::prelude::*;
use crate::build_docker::{
    DockerError, DockerErrorView, DockerId, DockerBuildArgs, build_arg_flags,
    build_image_command, create_container_command, copy_file_from_container_command,
    remove_container_command, remove_image_command,
};
use crate::third_party::string_views;

verus! {

/// How far an extraction has come.
pub enum Stage {
    Building,
    Creating { image: DockerId },
    Copying { image: DockerId, container: DockerId },
    RemovingContainer { image: DockerId, container: DockerId },
    RemovingImage { image: DockerId },
    Over,
}

/// A stage, with identifiers taken by their text.
pub enum StageView {
    Building,
    Creating { image: Seq<char> },
    Copying { image: Seq<char>, container: Seq<char> },
    RemovingContainer { image: Seq<char>, container: Seq<char> },
    RemovingImage { image: Seq<char> },
    Over,
}

impl View for Stage {
    type V = StageView;

    open spec fn view(&self) -> StageView {
        match self {
            Stage::Building => StageView::Building,
            Stage::Creating { image } => StageView::Creating { image: image@ },
            Stage::Copying { image, container } => StageView::Copying {
                image: image@,
                container: container@,
            },
            Stage::RemovingContainer { image, container } => StageView::RemovingContainer {
                image: image@,
                container: container@,
            },
            Stage::RemovingImage { image } => StageView::RemovingImage { image: image@ },
            Stage::Over => StageView::Over,
        }
    }
}

/// What to do next: run `docker` with these arguments, or stop.
pub enum ExtractAction {
    /// `docker <args>` reading the tar archive of `context_dir` on standard
    /// input; its last line of output names the image.
    BuildImage { context_dir: String, args: Vec<String> },
    /// `docker <args>`; its last line of output names the container.
    CreateContainer { args: Vec<String> },
    /// `docker <args>`, expected to exit with status zero.
    Run { args: Vec<String> },
    /// The extraction is over, with this outcome.
    Finished(Result<(), DockerError>),
}

/// An action, with text taken as sequences of characters.
pub enum ExtractActionView {
    BuildImage { context_dir: Seq<char>, args: Seq<Seq<char>> },
    CreateContainer { args: Seq<Seq<char>> },
    Run { args: Seq<Seq<char>> },
    Finished(Result<(), DockerErrorView>),
}

impl View for ExtractAction {
    type V = ExtractActionView;

    open spec fn view(&self) -> ExtractActionView {
        match self {
            ExtractAction::BuildImage { context_dir, args } => ExtractActionView::BuildImage {
                context_dir: context_dir@,
                args: string_views(args@),
            },
            ExtractAction::CreateContainer { args } => ExtractActionView::CreateContainer {
                args: string_views(args@),
            },
            ExtractAction::Run { args } => ExtractActionView::Run { args: string_views(args@) },
            ExtractAction::Finished(Ok(())) => ExtractActionView::Finished(Ok(())),
            ExtractAction::Finished(Err(e)) => ExtractActionView::Finished(Err(e@)),
        }
    }
}

/// What came of the last action.
pub enum ExtractEvent {
    /// The command succeeded and named what it made.
    Made(DockerId),
    /// The command succeeded.
    Done,
    /// The command failed.
    Failed(DockerError),
}

/// An event, with text taken as sequences of characters.
pub enum ExtractEventView {
    Made(Seq<char>),
    Done,
    Failed(DockerErrorView),
}

impl View for ExtractEvent {
    type V = ExtractEventView;

    open spec fn view(&self) -> ExtractEventView {
        match self {
            ExtractEvent::Made(id) => ExtractEventView::Made(id@),
            ExtractEvent::Done => ExtractEventView::Done,
            ExtractEvent::Failed(e) => ExtractEventView::Failed(e@),
        }
    }
}

/// An extraction under way: the file at `source` in the container goes to
/// `destination` on the host.
pub struct Extraction {
    pub source: String,
    pub destination: String,
    pub stage: Stage,
}

/// An extraction, with text taken as sequences of characters.
pub struct ExtractionView {
    pub source: Seq<char>,
    pub destination: Seq<char>,
    pub stage: StageView,
}

impl View for Extraction {
    type V = ExtractionView;

    open spec fn view(&self) -> ExtractionView {
        ExtractionView { source: self.source@, destination: self.destination@, stage: self.stage@ }
    }
}

/// The stages that wait for a command that names what it made.
pub open spec fn awaits_id(stage: StageView) -> bool {
    stage is Building || stage is Creating
}

/// The event fits the stage: a success of the kind the stage waits for, or
/// a failure, and never after the end.
pub open spec fn event_fits(stage: StageView, event: ExtractEventView) -> bool {
    &&& !(stage is Over)
    &&& event is Made ==> awaits_id(stage)
    &&& event is Done ==> !awaits_id(stage)
}

/// The next stage and action of an extraction after an event.
pub open spec fn extract_next(x: ExtractionView, event: ExtractEventView) -> (
    StageView,
    ExtractActionView,
) {
    match event {
        ExtractEventView::Failed(e) => (StageView::Over, ExtractActionView::Finished(Err(e))),
        ExtractEventView::Made(id) => match x.stage {
            StageView::Building => (
                StageView::Creating { image: id },
                ExtractActionView::CreateContainer { args: seq!["create"@, id] },
            ),
            StageView::Creating { image } => (
                StageView::Copying { image, container: id },
                ExtractActionView::Run {
                    args: seq!["cp"@, id + ":"@ + x.source, x.destination],
                },
            ),
            _ => (StageView::Over, ExtractActionView::Finished(Ok(()))),
        },
        ExtractEventView::Done => match x.stage {
            StageView::Copying { image, container } => (
                StageView::RemovingContainer { image, container },
                ExtractActionView::Run { args: seq!["rm"@, container] },
            ),
            StageView::RemovingContainer { image, container } => (
                StageView::RemovingImage { image },
                ExtractActionView::Run { args: seq!["rmi"@, image] },
            ),
            _ => (StageView::Over, ExtractActionView::Finished(Ok(()))),
        },
    }
}

/// The first action of an extraction: build the image from the Dockerfile's
/// directory with the given build arguments.
pub open spec fn extract_start(
    context_dir: Seq<char>,
    args: Option<Seq<(Seq<char>, Seq<char>)>>,
) -> ExtractActionView {
    ExtractActionView::BuildImage {
        context_dir,
        args: seq!["build"@, "-"@] + match args {
            Some(p) => build_arg_flags(p),
            None => Seq::<Seq<char>>::empty(),
        },
    }
}

/// Law: an extraction that meets no failure creates a container from the
/// image it built, copies the file out of that container, removes the
/// container, then the image, and finishes successfully.
pub proof fn lemma_extract_without_failure(
    source: Seq<char>,
    destination: Seq<char>,
    image: Seq<char>,
    container: Seq<char>,
)
    ensures
        ({
            let x0 = ExtractionView { source, destination, stage: StageView::Building };
            let (s1, a1) = extract_next(x0, ExtractEventView::Made(image));
            let x1 = ExtractionView { source, destination, stage: s1 };
            let (s2, a2) = extract_next(x1, ExtractEventView::Made(container));
            let x2 = ExtractionView { source, destination, stage: s2 };
            let (s3, a3) = extract_next(x2, ExtractEventView::Done);
            let x3 = ExtractionView { source, destination, stage: s3 };
            let (s4, a4) = extract_next(x3, ExtractEventView::Done);
            let x4 = ExtractionView { source, destination, stage: s4 };
            let (s5, a5) = extract_next(x4, ExtractEventView::Done);
            &&& a1 == ExtractActionView::CreateContainer { args: seq!["create"@, image] }
            &&& a2 == ExtractActionView::Run {
                args: seq!["cp"@, container + ":"@ + source, destination],
            }
            &&& a3 == ExtractActionView::Run { args: seq!["rm"@, container] }
            &&& a4 == ExtractActionView::Run { args: seq!["rmi"@, image] }
            &&& a5 == ExtractActionView::Finished(Ok(()))
            &&& s5 is Over
            &&& event_fits(s1, ExtractEventView::Made(container))
            &&& event_fits(s2, ExtractEventView::Done)
            &&& event_fits(s3, ExtractEventView::Done)
            &&& event_fits(s4, ExtractEventView::Done)
        }),
{
}

/// Law: a failure at any stage ends the extraction with that very failure,
/// and nothing more is run.
pub proof fn lemma_extract_failure_ends(x: ExtractionView, e: DockerErrorView)
    requires
        !(x.stage is Over),
    ensures
        extract_next(x, ExtractEventView::Failed(e)) == (
            StageView::Over,
            ExtractActionView::Finished(Err(e)),
        ),
{
}

impl Extraction {
    /// Start extracting `source` from a build whose context directory is
    /// `context_dir`; the first action builds the image.
    pub fn start(
        context_dir: String,
        source: String,
        destination: String,
        args: Option<DockerBuildArgs>,
    ) -> (r: (Extraction, ExtractAction))
        ensures
            r.0@ == (ExtractionView {
                source: source@,
                destination: destination@,
                stage: StageView::Building,
            }),
            r.1@ == extract_start(
                context_dir@,
                match args {
                    Some(a) => Some(a.pairs()),
                    None => None,
                },
            ),
    {
        let command = build_image_command(&args);
        (
            Extraction { source, destination, stage: Stage::Building },
            ExtractAction::BuildImage { context_dir, args: command },
        )
    }

    /// Take in what came of the last action and give the next one.
    pub fn advance(&mut self, event: ExtractEvent) -> (a: ExtractAction)
        requires
            event_fits(old(self)@.stage, event@),
        ensures
            final(self).source@ == old(self).source@,
            final(self).destination@ == old(self).destination@,
            (final(self).stage@, a@) == extract_next(old(self)@, event@),
    {
        let mut stage = Stage::Over;
        std::mem::swap(&mut stage, &mut self.stage);
        match event {
            ExtractEvent::Failed(e) => ExtractAction::Finished(Err(e)),
            ExtractEvent::Made(id) => match stage {
                Stage::Building => {
                    let args = create_container_command(&id);
                    self.stage = Stage::Creating { image: id };
                    ExtractAction::CreateContainer { args }
                },
                Stage::Creating { image } => {
                    let args = copy_file_from_container_command(
                        &id,
                        self.source.as_str(),
                        self.destination.as_str(),
                    );
                    self.stage = Stage::Copying { image, container: id };
                    ExtractAction::Run { args }
                },
                _ => ExtractAction::Finished(Ok(())),
            },
            ExtractEvent::Done => match stage {
                Stage::Copying { image, container } => {
                    let args = remove_container_command(&container);
                    self.stage = Stage::RemovingContainer { image, container };
                    ExtractAction::Run { args }
                },
                Stage::RemovingContainer { image, container } => {
                    let args = remove_image_command(&image);
                    self.stage = Stage::RemovingImage { image };
                    ExtractAction::Run { args }
                },
                _ => ExtractAction::Finished(Ok(())),
            },
        }
    }
}

} // verus!
