//! Carrying out what unpacking an entry takes.
use crate::entry::{Entry, EntryFields, Unpacked};
use crate::error::{context_view, Cause, Context, EntryError, ErrorKind, Failure};
use crate::path::{components_of, inside, starts_with};
use crate::unpack::{
    base_view, law_hard_link_is_checked, law_refusal_is_last, ops_of, UnpackOp,
};
use vstd::prelude::*;
use vstd::slice::slice_to_vec;

verus! {

/// Something to do in the file system.
#[derive(Debug)]
pub enum Action<P = Vec<u8>> {
    /// See whether there is anything at the path, without following links.
    Probe(P),
    /// See whether there is a directory at the path, without following links.
    ProbeDir(P),
    /// Resolve all links of the path.
    Canonicalize(P),
    /// Make a directory.
    CreateDir(P),
    /// Make a directory and those above it that are missing.
    CreateDirAll(P),
    /// Make a hard link to the first path at the second.
    HardLink(P, P),
    /// Make a symbolic link with the first path as its target at the second.
    Symlink(P, P),
    /// See whether two paths are names of one file, without following a link at their ends.
    SameFile(P, P),
    /// Remove a file or a link.
    RemoveFile(P),
    /// Make a new file, and keep it open.
    CreateFile(P),
    /// Write this many bytes of the archive to the open file.
    Copy(u64),
    /// Write out what is buffered, move this far on in the open file and let it end there.
    Skip(i64),
    /// Write out what is buffered.
    Flush,
    /// Set the times of the open file, in seconds of Unix time.
    SetFileTimes(u64),
    /// Set the times of a symbolic link, in seconds of Unix time.
    SetLinkTimes(u64, P),
    /// Set the permissions of the open file, or of the path if there is none.
    SetPermissions(u32, P),
    /// Set the extended attribute of the path that has this name to this value.
    SetXattr(P, P, P),
    /// Nothing more: the entry is unpacked.
    Finish(Unpacked),
    /// Nothing more: unpacking has failed.
    Fail,
}

impl View for Action {
    type V = Action<Seq<u8>>;

    open spec fn view(&self) -> Action<Seq<u8>> {
        match self {
            Action::Probe(path) => Action::Probe(path@),
            Action::ProbeDir(path) => Action::ProbeDir(path@),
            Action::Canonicalize(path) => Action::Canonicalize(path@),
            Action::CreateDir(path) => Action::CreateDir(path@),
            Action::CreateDirAll(path) => Action::CreateDirAll(path@),
            Action::HardLink(source, path) => Action::HardLink(source@, path@),
            Action::Symlink(target, path) => Action::Symlink(target@, path@),
            Action::SameFile(source, path) => Action::SameFile(source@, path@),
            Action::RemoveFile(path) => Action::RemoveFile(path@),
            Action::CreateFile(path) => Action::CreateFile(path@),
            Action::Copy(len) => Action::Copy(*len),
            Action::Skip(offset) => Action::Skip(*offset),
            Action::Flush => Action::Flush,
            Action::SetFileTimes(time) => Action::SetFileTimes(*time),
            Action::SetLinkTimes(time, path) => Action::SetLinkTimes(*time, path@),
            Action::SetPermissions(mode, path) => Action::SetPermissions(*mode, path@),
            Action::SetXattr(path, key, value) => Action::SetXattr(path@, key@, value@),
            Action::Finish(what) => Action::Finish(*what),
            Action::Fail => Action::Fail,
        }
    }
}

/// How an action went.
#[derive(Debug)]
pub enum Event<P = Vec<u8>> {
    /// It succeeded.
    Done,
    /// The system reported an error of this kind.
    Failed(ErrorKind),
    /// This many bytes were written.
    Copied(u64),
    /// The path resolves to this one.
    Resolved(P),
    /// Whether there is a directory.
    IsDir(bool),
    /// Whether there is anything.
    Exists(bool),
    /// Whether the two are one file.
    SameFile(bool),
    /// The system cannot hold the time.
    OutOfRange,
}

impl View for Event {
    type V = Event<Seq<u8>>;

    open spec fn view(&self) -> Event<Seq<u8>> {
        match self {
            Event::Done => Event::Done,
            Event::Failed(kind) => Event::Failed(*kind),
            Event::Copied(len) => Event::Copied(*len),
            Event::Resolved(path) => Event::Resolved(path@),
            Event::IsDir(is) => Event::IsDir(*is),
            Event::Exists(does) => Event::Exists(*does),
            Event::SameFile(are) => Event::SameFile(*are),
            Event::OutOfRange => Event::OutOfRange,
        }
    }
}

/// How far an operation that takes several actions has come.
#[derive(Debug, Clone, Copy, PartialEq, Eq, Structural)]
pub enum Stage {
    /// At the first attempt.
    First,
    /// Looking at what is there in place of the directory to be made.
    Probing,
    /// Looking whether what is there in place of the hard link to be made is that link already.
    Comparing,
    /// Removing what is there in place of the file or link to be made.
    Removing,
    /// At the second attempt.
    Second,
}

/// What is to be done, and where.
pub struct Job {
    /// Where the entry is unpacked to.
    pub dst: Seq<u8>,
    /// The path in the header of the entry.
    pub name: Seq<u8>,
    /// Whether what is there already is replaced.
    pub overwrite: bool,
    /// The operations.
    pub ops: Seq<UnpackOp<Seq<u8>>>,
}

/// How far a job has come.
pub enum Progress {
    /// The operation at this place is at this stage.
    Running(int, Stage),
    /// All is done.
    Finished,
    /// It has failed.
    Failed(Failure<Seq<u8>>),
}

/// Whether an operation may find something in its way.
pub open spec fn makes_new(op: UnpackOp<Seq<u8>>) -> bool {
    op is CreateFile || op is Symlink || op is HardLink
}

/// What a failure of the system during an operation is told with.
pub open spec fn context_of(job: Job, op: UnpackOp<Seq<u8>>) -> Option<Context<Seq<u8>>> {
    match op {
        UnpackOp::CreateDir => Some(Context::CreateDir(job.dst)),
        UnpackOp::CheckInside(path, _) => Some(Context::Canonicalize(path)),
        UnpackOp::HardLink(source) => Some(Context::HardLink(source, job.dst)),
        UnpackOp::Symlink(_) => None,
        UnpackOp::SetLinkTimes(_) => Some(Context::SetMtime(job.dst)),
        UnpackOp::CreateFile => Some(Context::UnpackInto(job.name, job.dst)),
        UnpackOp::Copy(_) => Some(Context::UnpackInto(job.name, job.dst)),
        UnpackOp::Skip(_) => Some(Context::UnpackInto(job.name, job.dst)),
        UnpackOp::Flush => Some(Context::UnpackInto(job.name, job.dst)),
        UnpackOp::SetFileTimes(_) => Some(Context::SetMtime(job.dst)),
        UnpackOp::SetPermissions(mode) => Some(Context::SetPermissions(mode, job.dst)),
        UnpackOp::SetXattr(key, value) => Some(Context::SetXattr(job.dst, key, value)),
        UnpackOp::Refuse(_) => None,
    }
}

/// A failure of the system during an operation.
pub open spec fn system_failure(job: Job, op: UnpackOp<Seq<u8>>) -> Failure<Seq<u8>> {
    Failure { cause: Cause::System, inner: context_of(job, op), outer: None }
}

/// A failure for a reason that lies in the entry.
pub open spec fn entry_failure(
    error: EntryError<Seq<u8>>,
    context: Option<Context<Seq<u8>>>,
) -> Failure<Seq<u8>> {
    Failure { cause: Cause::Entry(error), inner: context, outer: None }
}

/// How a job stands that has come to the operation at the given place.
pub open spec fn arrive(job: Job, at: int) -> Progress {
    if at >= job.ops.len() {
        Progress::Finished
    } else {
        match job.ops[at] {
            UnpackOp::Refuse(e) => Progress::Failed(entry_failure(e, None)),
            _ => Progress::Running(at, Stage::First),
        }
    }
}

/// What an operation asks for at a stage.
pub open spec fn action_for(job: Job, op: UnpackOp<Seq<u8>>, stage: Stage) -> Action<Seq<u8>> {
    if stage == Stage::Removing {
        Action::RemoveFile(job.dst)
    } else if stage == Stage::Probing {
        Action::ProbeDir(job.dst)
    } else if stage == Stage::Comparing {
        match op {
            UnpackOp::HardLink(source) => Action::SameFile(source, job.dst),
            _ => Action::Fail,
        }
    } else {
        match op {
            UnpackOp::CreateDir => Action::CreateDir(job.dst),
            UnpackOp::CheckInside(path, _) => Action::Canonicalize(path),
            UnpackOp::HardLink(source) => Action::HardLink(source, job.dst),
            UnpackOp::Symlink(target) => Action::Symlink(target, job.dst),
            UnpackOp::SetLinkTimes(time) => Action::SetLinkTimes(time, job.dst),
            UnpackOp::CreateFile => Action::CreateFile(job.dst),
            UnpackOp::Copy(len) => Action::Copy(len),
            UnpackOp::Skip(offset) => Action::Skip(offset),
            UnpackOp::Flush => Action::Flush,
            UnpackOp::SetFileTimes(time) => Action::SetFileTimes(time),
            UnpackOp::SetPermissions(mode) => Action::SetPermissions(mode, job.dst),
            UnpackOp::SetXattr(key, value) => Action::SetXattr(job.dst, key, value),
            UnpackOp::Refuse(_) => Action::Fail,
        }
    }
}

/// What unpacking makes: a file exactly if one is made first.
pub open spec fn product(job: Job) -> Unpacked {
    if job.ops.len() > 0 && job.ops[0] is CreateFile {
        Unpacked::File
    } else {
        Unpacked::Other
    }
}

/// What a job asks for.
pub open spec fn action_of(job: Job, progress: Progress) -> Action<Seq<u8>> {
    match progress {
        Progress::Running(at, stage) => action_for(job, job.ops[at], stage),
        Progress::Finished => Action::Finish(product(job)),
        Progress::Failed(_) => Action::Fail,
    }
}

/// Whether an event answers an operation at a stage.
pub open spec fn answers(op: UnpackOp<Seq<u8>>, stage: Stage, event: Event<Seq<u8>>) -> bool {
    if stage == Stage::Probing {
        event is IsDir
    } else if stage == Stage::Comparing {
        event is SameFile || event is Failed
    } else if stage == Stage::Removing {
        event is Done || event is Failed
    } else {
        event is Failed || match op {
            UnpackOp::CheckInside(_, _) => event is Resolved,
            UnpackOp::Copy(_) => event is Copied,
            UnpackOp::SetFileTimes(_) => event is Done || event is OutOfRange,
            UnpackOp::SetLinkTimes(_) => event is Done || event is OutOfRange,
            _ => event is Done,
        }
    }
}

/// Whether a job is waiting for an event of this form.
pub open spec fn expects(job: Job, progress: Progress, event: Event<Seq<u8>>) -> bool {
    match progress {
        Progress::Running(at, stage) => answers(job.ops[at], stage, event),
        _ => false,
    }
}

/// How a job goes on after an event at an operation.
pub open spec fn react_at(job: Job, at: int, stage: Stage, event: Event<Seq<u8>>) -> Progress {
    let op = job.ops[at];
    match event {
        Event::Done => if stage == Stage::Removing {
            Progress::Running(at, Stage::Second)
        } else {
            arrive(job, at + 1)
        },
        Event::Failed(kind) => if stage == Stage::First && op is CreateDir && kind
            == ErrorKind::AlreadyExists {
            Progress::Running(at, Stage::Probing)
        } else if stage == Stage::First && makes_new(op) && job.overwrite && kind
            == ErrorKind::AlreadyExists {
            if op is HardLink {
                Progress::Running(at, Stage::Comparing)
            } else {
                Progress::Running(at, Stage::Removing)
            }
        } else if stage == Stage::Removing && kind == ErrorKind::NotFound {
            Progress::Running(at, Stage::Second)
        } else {
            Progress::Failed(system_failure(job, op))
        },
        Event::Copied(len) => if op == UnpackOp::<Seq<u8>>::Copy(len) {
            arrive(job, at + 1)
        } else {
            Progress::Failed(entry_failure(EntryError::IncompleteFile, context_of(job, op)))
        },
        Event::Resolved(path) => match op {
            UnpackOp::CheckInside(_, base) => if inside(path, base) {
                arrive(job, at + 1)
            } else {
                Progress::Failed(
                    entry_failure(EntryError::OutsideDestination, Some(Context::Outside(base))),
                )
            },
            _ => arrive(job, at + 1),
        },
        Event::IsDir(is) => if is {
            arrive(job, at + 1)
        } else {
            Progress::Failed(system_failure(job, op))
        },
        Event::Exists(_) => arrive(job, at + 1),
        Event::SameFile(are) => if are {
            arrive(job, at + 1)
        } else {
            Progress::Running(at, Stage::Removing)
        },
        Event::OutOfRange => Progress::Failed(
            entry_failure(EntryError::MtimeExceedsSystem, None),
        ),
    }
}

/// How a job goes on after an event.
pub open spec fn react(job: Job, progress: Progress, event: Event<Seq<u8>>) -> Progress {
    match progress {
        Progress::Running(at, stage) => react_at(job, at, stage, event),
        other => other,
    }
}

/// Whether a job can have come this far.
pub open spec fn reachable(job: Job, progress: Progress) -> bool {
    match progress {
        Progress::Running(at, stage) => {
            &&& 0 <= at < job.ops.len()
            &&& !(job.ops[at] is Refuse)
            &&& stage == Stage::Probing ==> job.ops[at] is CreateDir
            &&& stage == Stage::Comparing ==> job.overwrite && job.ops[at] is HardLink
            &&& stage == Stage::Removing || stage == Stage::Second ==> job.overwrite && makes_new(
                job.ops[at],
            )
        },
        _ => true,
    }
}

/// Whether an event means that the file to be written is open.
pub open spec fn opens_file(job: Job, progress: Progress, event: Event<Seq<u8>>) -> bool {
    match progress {
        Progress::Running(at, stage) => job.ops[at] is CreateFile && stage != Stage::Removing
            && event is Done,
        _ => false,
    }
}

/// Whether an event can answer an action.
pub open spec fn fits(action: Action<Seq<u8>>, event: Event<Seq<u8>>) -> bool {
    match action {
        Action::Probe(_) => event is Exists,
        Action::ProbeDir(_) => event is IsDir,
        Action::SameFile(_, _) => event is SameFile || event is Failed,
        Action::Canonicalize(_) => event is Resolved || event is Failed,
        Action::Copy(_) => event is Copied || event is Failed,
        Action::SetFileTimes(_) => event is Done || event is Failed || event is OutOfRange,
        Action::SetLinkTimes(_, _) => event is Done || event is Failed || event is OutOfRange,
        Action::Finish(_) => false,
        Action::Fail => false,
        _ => event is Done || event is Failed,
    }
}

/// The action that is asked for says which events are expected.
pub proof fn law_action_tells_events(job: Job, progress: Progress, event: Event<Seq<u8>>)
    requires
        reachable(job, progress),
    ensures
        expects(job, progress, event) <==> fits(action_of(job, progress), event),
{
}

/// How a job stands after a number of events.
pub open spec fn run_of(job: Job, events: Seq<Event<Seq<u8>>>) -> Progress
    decreases events.len(),
{
    if events.len() == 0 {
        arrive(job, 0)
    } else {
        react(job, run_of(job, events.drop_last()), events.last())
    }
}

/// Whether each of a number of events answers what was asked for.
pub open spec fn fitting(job: Job, events: Seq<Event<Seq<u8>>>) -> bool
    decreases events.len(),
{
    events.len() == 0 || (fitting(job, events.drop_last()) && expects(
        job,
        run_of(job, events.drop_last()),
        events.last(),
    ))
}

/// The path that an action makes, changes or removes.
pub open spec fn changed_path(action: Action<Seq<u8>>) -> Option<Seq<u8>> {
    match action {
        Action::CreateDir(path) => Some(path),
        Action::CreateDirAll(path) => Some(path),
        Action::HardLink(_, path) => Some(path),
        Action::Symlink(_, path) => Some(path),
        Action::RemoveFile(path) => Some(path),
        Action::CreateFile(path) => Some(path),
        Action::SetLinkTimes(_, path) => Some(path),
        Action::SetPermissions(_, path) => Some(path),
        Action::SetXattr(path, _, _) => Some(path),
        _ => None,
    }
}

/// Unpacking changes nothing but the path that it unpacks to.
pub proof fn law_only_destination_changes(job: Job, progress: Progress)
    ensures
        changed_path(action_of(job, progress)) matches Some(path) ==> path == job.dst,
{
}

/// What is there already is removed only where this is allowed; where it is not, finding
/// something in the way of a file or a link ends the unpacking.
pub proof fn law_nothing_is_replaced_unasked(job: Job, progress: Progress)
    requires
        reachable(job, progress),
        !job.overwrite,
    ensures
        !(action_of(job, progress) is RemoveFile),
        action_of(job, progress) is CreateFile || action_of(job, progress) is Symlink || action_of(
            job,
            progress,
        ) is HardLink ==> react(job, progress, Event::Failed(ErrorKind::AlreadyExists)) is Failed,
{
}

/// Where it is allowed, what is in the way of a file, a symbolic link or a hard link at the first
/// attempt is removed and the attempt is made again, also if it has gone in the meantime; a second
/// failure is final. For a hard link the system is asked first whether what is there is the linked
/// file: if it is, the link is there already.
pub proof fn law_replacing_tries_again(job: Job, at: int, kind: ErrorKind)
    requires
        0 <= at < job.ops.len(),
        makes_new(job.ops[at]),
        job.overwrite,
    ensures
        ({
            let first = Progress::Running(at, Stage::First);
            let found = react(job, first, Event::Failed(ErrorKind::AlreadyExists));
            let removing = if job.ops[at] is HardLink {
                react(job, found, Event::SameFile(false))
            } else {
                found
            };
            let second = react(job, removing, Event::Done);
            &&& job.ops[at] matches UnpackOp::HardLink(source) ==> action_of(job, found)
                == Action::SameFile(source, job.dst) && react(job, found, Event::SameFile(true))
                == arrive(job, at + 1) && react(job, found, Event::Failed(kind)) is Failed
            &&& action_of(job, removing) == Action::RemoveFile(job.dst)
            &&& react(job, removing, Event::Failed(ErrorKind::NotFound)) == second
            &&& action_of(job, second) == action_of(job, first)
            &&& react(job, second, Event::Failed(kind)) is Failed
            &&& react(job, second, Event::Done) == arrive(job, at + 1)
        }),
{
}

/// The file that a hard link is made to is not removed to make room for the link: what is there is
/// removed only directly after the system has said that it is another file.
pub proof fn law_linked_file_is_kept(
    job: Job,
    progress: Progress,
    event: Event<Seq<u8>>,
    at: int,
    source: Seq<u8>,
)
    requires
        reachable(job, progress),
        expects(job, progress, event),
        react(job, progress, event) == Progress::Running(at, Stage::Removing),
        job.ops[at] == UnpackOp::HardLink(source),
    ensures
        action_of(job, react(job, progress, event)) == Action::RemoveFile(job.dst),
        action_of(job, progress) == Action::SameFile(source, job.dst),
        event == Event::<Seq<u8>>::SameFile(false),
{
}

/// A file or a link is removed at no other stage of an operation than that of removing.
pub proof fn law_removing_is_a_stage(job: Job, progress: Progress)
    ensures
        action_of(job, progress) is RemoveFile <==> (progress matches Progress::Running(_, stage)
            && stage == Stage::Removing),
{
}

/// A directory that is there already is as good as a new one; anything else in its place is not.
pub proof fn law_existing_directory_is_kept(job: Job, at: int)
    requires
        0 <= at < job.ops.len(),
        job.ops[at] is CreateDir,
    ensures
        ({
            let first = Progress::Running(at, Stage::First);
            let probing = react(job, first, Event::Failed(ErrorKind::AlreadyExists));
            &&& action_of(job, probing) == Action::ProbeDir(job.dst)
            &&& react(job, probing, Event::IsDir(true)) == react(job, first, Event::Done)
            &&& react(job, probing, Event::IsDir(false)) is Failed
        }),
{
}

/// A link that is refused changes nothing: its unpacking has failed, for the reason of the
/// refusal, before any action.
pub proof fn law_refused_link_does_nothing(
    fields: EntryFields,
    base: Option<Seq<u8>>,
    dst: Seq<u8>,
    i: int,
    error: EntryError<Seq<u8>>,
)
    requires
        fields.is_link(),
        0 <= i < fields.unpack_ops(base, dst).len(),
        fields.unpack_ops(base, dst)[i] == UnpackOp::Refuse(error),
    ensures
        arrive(unpack_job(fields, base, dst), 0) == Progress::Failed(entry_failure(error, None)),
{
    law_refusal_is_last(fields, base, dst, i);
}

/// A bound on the number of events that a job still takes.
pub open spec fn distance(job: Job, progress: Progress) -> nat {
    match progress {
        Progress::Running(at, stage) => {
            let stages: int = match stage {
                Stage::First => 4,
                Stage::Probing => 3,
                Stage::Comparing => 3,
                Stage::Removing => 2,
                Stage::Second => 1,
            };
            (4 * (job.ops.len() - at - 1) + stages) as nat
        },
        _ => 0,
    }
}

/// Unpacking comes to an end: every event brings it nearer, and no operation takes more than
/// four.
pub proof fn law_unpacking_ends(job: Job, progress: Progress, event: Event<Seq<u8>>)
    requires
        reachable(job, progress),
        expects(job, progress, event),
    ensures
        reachable(job, react(job, progress, event)),
        distance(job, react(job, progress, event)) < distance(job, progress),
        distance(job, arrive(job, 0)) <= 4 * job.ops.len(),
{
}

/// The event that reports that an operation has succeeded.
pub open spec fn is_success(op: UnpackOp<Seq<u8>>, event: Event<Seq<u8>>) -> bool {
    match op {
        UnpackOp::CheckInside(_, base) => event matches Event::Resolved(path) && inside(path, base),
        UnpackOp::Copy(len) => event == Event::<Seq<u8>>::Copied(len),
        _ => event == Event::<Seq<u8>>::Done,
    }
}

/// If nothing is refused and every operation succeeds, the job is finished with the last one, and
/// not before.
pub proof fn law_success_finishes(job: Job, events: Seq<Event<Seq<u8>>>)
    requires
        events.len() <= job.ops.len(),
        forall|i: int| 0 <= i < job.ops.len() ==> !(#[trigger] job.ops[i] is Refuse),
        forall|i: int| 0 <= i < events.len() ==> is_success(job.ops[i], #[trigger] events[i]),
    ensures
        fitting(job, events),
        run_of(job, events) == if events.len() == job.ops.len() {
            Progress::Finished
        } else {
            Progress::Running(events.len() as int, Stage::First)
        },
    decreases events.len(),
{
    if events.len() > 0 {
        let front = events.drop_last();
        assert forall|i: int| 0 <= i < front.len() implies is_success(
            job.ops[i],
            #[trigger] front[i],
        ) by {
            assert(is_success(job.ops[i], events[i]));
        }
        law_success_finishes(job, front);
        assert(is_success(job.ops[events.len() - 1], events[events.len() - 1]));
    }
}

/// A job gets to an operation only through the one before it.
proof fn lemma_passed(job: Job, events: Seq<Event<Seq<u8>>>, at: int) -> (i: int)
    requires
        fitting(job, events),
        at >= 0,
        run_of(job, events) matches Progress::Running(now, _) && now > at,
    ensures
        0 <= i < events.len(),
        run_of(job, events.take(i)) matches Progress::Running(was, stage) && was == at
            && react_at(job, at, stage, events[i]) == arrive(job, at + 1),
        expects(job, run_of(job, events.take(i)), events[i]),
    decreases events.len(),
{
    let front = events.drop_last();
    let before = run_of(job, front);
    assert(events.take(events.len() - 1) =~= front);
    if before matches Progress::Running(was, _) && was == at {
        events.len() - 1
    } else {
        let i = lemma_passed(job, front, at);
        assert(front.take(i) =~= events.take(i));
        i
    }
}

/// With a base, a hard link is made only after the file that it is made to has been resolved, and
/// found inside the base.
pub proof fn law_hard_link_source_is_inside(
    fields: EntryFields,
    base: Seq<u8>,
    dst: Seq<u8>,
    events: Seq<Event<Seq<u8>>>,
    source: Seq<u8>,
)
    requires
        fitting(unpack_job(fields, Some(base), dst), events),
        action_of(
            unpack_job(fields, Some(base), dst),
            run_of(unpack_job(fields, Some(base), dst), events),
        ) == Action::HardLink(source, dst),
    ensures
        exists|i: int|
            0 <= i < events.len() && action_of(
                unpack_job(fields, Some(base), dst),
                run_of(unpack_job(fields, Some(base), dst), events.take(i)),
            ) == Action::Canonicalize(source) && (#[trigger] events[i] matches Event::Resolved(
                path,
            ) && inside(path, base)),
{
    let job = unpack_job(fields, Some(base), dst);
    lemma_run_reachable(job, events);
    if let Progress::Running(at, _) = run_of(job, events) {
        law_hard_link_is_checked(fields, base, dst, at, source);
        let i = lemma_passed(job, events, 0);
        lemma_run_reachable(job, events.take(i));
        assert(events[i] is Resolved);
    }
}

/// Fitting events keep a job within what is reachable.
proof fn lemma_run_reachable(job: Job, events: Seq<Event<Seq<u8>>>)
    ensures
        reachable(job, run_of(job, events)) || !fitting(job, events),
    decreases events.len(),
{
    if events.len() > 0 {
        lemma_run_reachable(job, events.drop_last());
    }
}

/// Each operation asks for exactly what it says, at the path of the job and with its own numbers
/// and names, at the first attempt and at a second one.
pub proof fn law_action_does_the_operation(job: Job, at: int, stage: Stage)
    requires
        0 <= at < job.ops.len(),
        stage == Stage::First || stage == Stage::Second,
    ensures
        ({
            let action = action_of(job, Progress::Running(at, stage));
            match job.ops[at] {
                UnpackOp::CreateDir => action == Action::CreateDir(job.dst),
                UnpackOp::CheckInside(path, _) => action == Action::Canonicalize(path),
                UnpackOp::HardLink(source) => action == Action::HardLink(source, job.dst),
                UnpackOp::Symlink(target) => action == Action::Symlink(target, job.dst),
                UnpackOp::SetLinkTimes(time) => action == Action::SetLinkTimes(time, job.dst),
                UnpackOp::CreateFile => action == Action::CreateFile(job.dst),
                UnpackOp::Copy(len) => action == Action::<Seq<u8>>::Copy(len),
                UnpackOp::Skip(offset) => action == Action::<Seq<u8>>::Skip(offset),
                UnpackOp::Flush => action is Flush,
                UnpackOp::SetFileTimes(time) => action == Action::<Seq<u8>>::SetFileTimes(time),
                UnpackOp::SetPermissions(mode) => action == Action::SetPermissions(mode, job.dst),
                UnpackOp::SetXattr(key, value) => action == Action::SetXattr(job.dst, key, value),
                UnpackOp::Refuse(_) => action is Fail,
            }
        }),
{
}

/// A job starts with its first operation, goes to the next one when one has succeeded, ends after
/// the last, and fails for the reason of a refusal when it comes to one.
pub proof fn law_operations_follow_each_other(job: Job, at: int, stage: Stage)
    requires
        0 <= at <= job.ops.len(),
        stage != Stage::Removing,
    ensures
        at == job.ops.len() ==> arrive(job, at) is Finished,
        at < job.ops.len() && !(job.ops[at] is Refuse) ==> arrive(job, at) == Progress::Running(
            at,
            Stage::First,
        ),
        at < job.ops.len() ==> (job.ops[at] matches UnpackOp::Refuse(e) ==> arrive(job, at)
            == Progress::Failed(Failure { cause: Cause::Entry(e), inner: None, outer: None })),
        at < job.ops.len() ==> react(job, Progress::Running(at, stage), Event::Done) == arrive(
            job,
            at + 1,
        ),
{
}

/// A failure of the system ends the unpacking, with the system's error as the cause and with what
/// was being done told, unless it is one of two: that something is there already, at the first
/// attempt at a directory or, where replacing is allowed, at a file or a link; and that nothing is
/// there when it is to be removed.
pub proof fn law_failure_of_the_system_ends(job: Job, at: int, stage: Stage, kind: ErrorKind)
    requires
        0 <= at < job.ops.len(),
        !(kind == ErrorKind::AlreadyExists && stage == Stage::First && (job.ops[at] is CreateDir
            || (job.overwrite && (job.ops[at] is CreateFile || job.ops[at] is Symlink || job.ops[at]
            is HardLink)))),
        !(kind == ErrorKind::NotFound && stage == Stage::Removing),
    ensures
        react(job, Progress::Running(at, stage), Event::Failed(kind)) matches Progress::Failed(
            failure,
        ) && failure.cause is System && failure.outer is None && (match job.ops[at] {
            UnpackOp::CreateDir => failure.inner == Some(Context::CreateDir(job.dst)),
            UnpackOp::CheckInside(path, _) => failure.inner == Some(Context::Canonicalize(path)),
            UnpackOp::HardLink(source) => failure.inner == Some(
                Context::HardLink(source, job.dst),
            ),
            UnpackOp::Symlink(_) => failure.inner is None,
            UnpackOp::SetLinkTimes(_) => failure.inner == Some(Context::SetMtime(job.dst)),
            UnpackOp::SetFileTimes(_) => failure.inner == Some(Context::SetMtime(job.dst)),
            UnpackOp::SetPermissions(mode) => failure.inner == Some(
                Context::SetPermissions(mode, job.dst),
            ),
            UnpackOp::SetXattr(key, value) => failure.inner == Some(
                Context::SetXattr(job.dst, key, value),
            ),
            UnpackOp::Refuse(_) => failure.inner is None,
            _ => failure.inner == Some(Context::UnpackInto(job.name, job.dst)),
        }),
{
}

/// What the entry promises is held to: a copy that wrote fewer or more bytes than it should fails,
/// a path that has to lie inside a base fails if the components of the base do not open those of
/// what it resolves to, and a time that the system cannot hold fails. Each fails for its own
/// reason, and nothing else does.
pub proof fn law_promises_are_held(
    job: Job,
    at: int,
    written: u64,
    path: Seq<u8>,
)
    requires
        0 <= at < job.ops.len(),
    ensures
        ({
            let now = Progress::Running(at, Stage::First);
            match job.ops[at] {
                UnpackOp::Copy(len) => react(job, now, Event::Copied(written)) == if written
                    == len {
                    arrive(job, at + 1)
                } else {
                    Progress::Failed(
                        Failure {
                            cause: Cause::Entry(EntryError::IncompleteFile),
                            inner: Some(Context::UnpackInto(job.name, job.dst)),
                            outer: None,
                        },
                    )
                },
                UnpackOp::CheckInside(_, base) => react(job, now, Event::Resolved(path))
                    == if components_of(base).is_prefix_of(components_of(path)) {
                    arrive(job, at + 1)
                } else {
                    Progress::Failed(
                        Failure {
                            cause: Cause::Entry(EntryError::OutsideDestination),
                            inner: Some(Context::Outside(base)),
                            outer: None,
                        },
                    )
                },
                UnpackOp::SetFileTimes(_) | UnpackOp::SetLinkTimes(_) => react(
                    job,
                    now,
                    Event::OutOfRange,
                ) == Progress::Failed(
                    Failure {
                        cause: Cause::Entry(EntryError::MtimeExceedsSystem),
                        inner: None,
                        outer: None,
                    },
                ),
                _ => true,
            }
        }),
{
}

/// The job of an entry is at the path that was asked for, with the path of its header for messages,
/// replaces what is there exactly if the entry says so, and does what unpacking the entry takes.
pub proof fn law_job_is_that_of_the_entry(
    fields: EntryFields,
    base: Option<Seq<u8>>,
    dst: Seq<u8>,
)
    ensures
        unpack_job(fields, base, dst).dst == dst,
        unpack_job(fields, base, dst).name == fields.header.path@,
        unpack_job(fields, base, dst).overwrite == fields.overwrite,
        unpack_job(fields, base, dst).ops == fields.unpack_ops(base, dst),
{
}

/// A finished job reports a file exactly if it started with making one.
pub proof fn law_file_is_reported(job: Job)
    ensures
        action_of(job, Progress::Finished) == Action::<Seq<u8>>::Finish(Unpacked::File)
            <==> job.ops.len() > 0 && job.ops[0] is CreateFile,
        action_of(job, Progress::Finished) is Finish,
{
}

/// The data of an entry is used up exactly when the file to be written has been made.
pub proof fn law_data_is_used_once_the_file_is_made(
    job: Job,
    progress: Progress,
    event: Event<Seq<u8>>,
)
    requires
        reachable(job, progress),
        expects(job, progress, event),
    ensures
        opens_file(job, progress, event) <==> action_of(job, progress) is CreateFile && event
            is Done,
{
}

/// What contracts say of an action is what the driver gets: the same action, with the same numbers
/// and the bytes of the same paths.
pub proof fn law_action_view_is_faithful(action: Action)
    ensures
        match action {
            Action::Probe(path) => action@ == Action::Probe(path@),
            Action::ProbeDir(path) => action@ == Action::ProbeDir(path@),
            Action::Canonicalize(path) => action@ == Action::Canonicalize(path@),
            Action::CreateDir(path) => action@ == Action::CreateDir(path@),
            Action::CreateDirAll(path) => action@ == Action::CreateDirAll(path@),
            Action::HardLink(source, path) => action@ == Action::HardLink(source@, path@),
            Action::Symlink(target, path) => action@ == Action::Symlink(target@, path@),
            Action::SameFile(source, path) => action@ == Action::SameFile(source@, path@),
            Action::RemoveFile(path) => action@ == Action::RemoveFile(path@),
            Action::CreateFile(path) => action@ == Action::CreateFile(path@),
            Action::Copy(len) => action@ == Action::<Seq<u8>>::Copy(len),
            Action::Skip(offset) => action@ == Action::<Seq<u8>>::Skip(offset),
            Action::Flush => action@ is Flush,
            Action::SetFileTimes(time) => action@ == Action::<Seq<u8>>::SetFileTimes(time),
            Action::SetLinkTimes(time, path) => action@ == Action::SetLinkTimes(time, path@),
            Action::SetPermissions(mode, path) => action@ == Action::SetPermissions(mode, path@),
            Action::SetXattr(path, key, value) => action@ == Action::SetXattr(
                path@,
                key@,
                value@,
            ),
            Action::Finish(what) => action@ == Action::<Seq<u8>>::Finish(what),
            Action::Fail => action@ is Fail,
        },
{
}

/// What contracts say of an event is what the driver has reported.
pub proof fn law_event_view_is_faithful(event: Event)
    ensures
        match event {
            Event::Done => event@ is Done,
            Event::Failed(kind) => event@ == Event::<Seq<u8>>::Failed(kind),
            Event::Copied(len) => event@ == Event::<Seq<u8>>::Copied(len),
            Event::Resolved(path) => event@ == Event::Resolved(path@),
            Event::IsDir(is) => event@ == Event::<Seq<u8>>::IsDir(is),
            Event::Exists(does) => event@ == Event::<Seq<u8>>::Exists(does),
            Event::SameFile(are) => event@ == Event::<Seq<u8>>::SameFile(are),
            Event::OutOfRange => event@ is OutOfRange,
        },
{
}

/// The job of unpacking an entry.
pub open spec fn unpack_job(fields: EntryFields, base: Option<Seq<u8>>, dst: Seq<u8>) -> Job {
    Job {
        dst,
        name: fields.header.path@,
        overwrite: fields.overwrite,
        ops: fields.unpack_ops(base, dst),
    }
}

/// How far the machine has come.
#[derive(Debug)]
enum State {
    Running(usize, Stage),
    Finished,
    Failed(Failure),
}

/// The unpacking of an entry: it asks for one action after the other.
#[derive(Debug)]
pub struct Unpacking {
    dst: Vec<u8>,
    name: Vec<u8>,
    overwrite: bool,
    ops: Vec<UnpackOp>,
    state: State,
}

impl Unpacking {
    /// What is to be done.
    pub closed spec fn job(&self) -> Job {
        Job {
            dst: self.dst@,
            name: self.name@,
            overwrite: self.overwrite,
            ops: ops_of(self.ops@),
        }
    }

    /// How far it has come.
    pub closed spec fn progress(&self) -> Progress {
        match self.state {
            State::Running(at, stage) => Progress::Running(at as int, stage),
            State::Finished => Progress::Finished,
            State::Failed(failure) => Progress::Failed(failure@),
        }
    }

    /// Whether it can have come this far.
    pub open spec fn wf(&self) -> bool {
        reachable(self.job(), self.progress())
    }

    /// Starts carrying out operations.
    fn start(dst: Vec<u8>, name: Vec<u8>, overwrite: bool, ops: Vec<UnpackOp>) -> (run: Unpacking)
        ensures
            run.job() == (Job { dst: dst@, name: name@, overwrite, ops: ops_of(ops@) }),
            run.progress() == arrive(run.job(), 0),
            run.wf(),
    {
        let mut run = Unpacking { dst, name, overwrite, ops, state: State::Finished };
        run.go_to(0);
        run
    }

    /// Goes to the operation at the given place.
    fn go_to(&mut self, at: usize)
        ensures
            final(self).job() == old(self).job(),
            final(self).progress() == arrive(old(self).job(), at as int),
            final(self).wf(),
    {
        if at >= self.ops.len() {
            self.state = State::Finished;
            return;
        }
        assert(ops_of(self.ops@)[at as int] == self.ops@[at as int]@);
        match &self.ops[at] {
            UnpackOp::Refuse(e) => {
                let error = e.duplicate();
                self.state =
                State::Failed(Failure { cause: Cause::Entry(error), inner: None, outer: None });
            },
            _ => {
                self.state = State::Running(at, Stage::First);
            },
        }
    }

    /// What is to be done next.
    pub fn action(&self) -> (action: Action)
        requires
            self.wf(),
        ensures
            action@ == action_of(self.job(), self.progress()),
    {
        match &self.state {
            State::Failed(_) => Action::Fail,
            State::Finished => {
                if self.ops.len() > 0 {
                    assert(ops_of(self.ops@)[0] == self.ops@[0]@);
                    if let UnpackOp::CreateFile = &self.ops[0] {
                        return Action::Finish(Unpacked::File);
                    }
                }
                Action::Finish(Unpacked::Other)
            },
            State::Running(at, stage) => {
                assert(ops_of(self.ops@)[*at as int] == self.ops@[*at as int]@);
                let dst = slice_to_vec(self.dst.as_slice());
                if *stage == Stage::Removing {
                    return Action::RemoveFile(dst);
                }
                if *stage == Stage::Probing {
                    return Action::ProbeDir(dst);
                }
                if *stage == Stage::Comparing {
                    return match &self.ops[*at] {
                        UnpackOp::HardLink(source) => Action::SameFile(
                            slice_to_vec(source.as_slice()),
                            dst,
                        ),
                        _ => Action::Fail,
                    };
                }
                match &self.ops[*at] {
                    UnpackOp::CreateDir => Action::CreateDir(dst),
                    UnpackOp::CheckInside(path, _) => Action::Canonicalize(
                        slice_to_vec(path.as_slice()),
                    ),
                    UnpackOp::HardLink(source) => Action::HardLink(
                        slice_to_vec(source.as_slice()),
                        dst,
                    ),
                    UnpackOp::Symlink(target) => Action::Symlink(
                        slice_to_vec(target.as_slice()),
                        dst,
                    ),
                    UnpackOp::SetLinkTimes(time) => Action::SetLinkTimes(*time, dst),
                    UnpackOp::CreateFile => Action::CreateFile(dst),
                    UnpackOp::Copy(len) => Action::Copy(*len),
                    UnpackOp::Skip(offset) => Action::Skip(*offset),
                    UnpackOp::Flush => Action::Flush,
                    UnpackOp::SetFileTimes(time) => Action::SetFileTimes(*time),
                    UnpackOp::SetPermissions(mode) => Action::SetPermissions(*mode, dst),
                    UnpackOp::SetXattr(key, value) => Action::SetXattr(
                        dst,
                        slice_to_vec(key.as_slice()),
                        slice_to_vec(value.as_slice()),
                    ),
                    UnpackOp::Refuse(_) => Action::Fail,
                }
            },
        }
    }

    /// What a failure of the system during an operation is told with.
    fn context(&self, at: usize) -> (context: Option<Context>)
        requires
            at < self.job().ops.len(),
        ensures
            context_view(context) == context_of(
                self.job(),
                self.job().ops[at as int],
            ),
    {
        assert(ops_of(self.ops@)[at as int] == self.ops@[at as int]@);
        let dst = slice_to_vec(self.dst.as_slice());
        match &self.ops[at] {
            UnpackOp::CreateDir => Some(Context::CreateDir(dst)),
            UnpackOp::CheckInside(path, _) => Some(
                Context::Canonicalize(slice_to_vec(path.as_slice())),
            ),
            UnpackOp::HardLink(source) => Some(
                Context::HardLink(slice_to_vec(source.as_slice()), dst),
            ),
            UnpackOp::Symlink(_) => None,
            UnpackOp::SetLinkTimes(_) => Some(Context::SetMtime(dst)),
            UnpackOp::CreateFile | UnpackOp::Copy(_) | UnpackOp::Skip(_) | UnpackOp::Flush => Some(
                Context::UnpackInto(slice_to_vec(self.name.as_slice()), dst),
            ),
            UnpackOp::SetFileTimes(_) => Some(Context::SetMtime(dst)),
            UnpackOp::SetPermissions(mode) => Some(Context::SetPermissions(*mode, dst)),
            UnpackOp::SetXattr(key, value) => Some(
                Context::SetXattr(
                    dst,
                    slice_to_vec(key.as_slice()),
                    slice_to_vec(value.as_slice()),
                ),
            ),
            UnpackOp::Refuse(_) => None,
        }
    }

    /// Stops because of the system.
    fn fail_by_system(&mut self, at: usize)
        requires
            at < old(self).job().ops.len(),
        ensures
            final(self).job() == old(self).job(),
            final(self).progress() == Progress::Failed(
                system_failure(old(self).job(), old(self).job().ops[at as int]),
            ),
            final(self).wf(),
    {
        let inner = self.context(at);
        self.state = State::Failed(Failure { cause: Cause::System, inner, outer: None });
    }

    /// Stops because of the entry.
    fn fail_by_entry(&mut self, error: EntryError, inner: Option<Context>)
        ensures
            final(self).job() == old(self).job(),
            final(self).progress() == Progress::Failed(
                entry_failure(error@, context_view(inner)),
            ),
            final(self).wf(),
    {
        self.state = State::Failed(Failure { cause: Cause::Entry(error), inner, outer: None });
    }

    /// Whether the operation at the given place may find something in its way.
    fn may_replace(&self, at: usize) -> (may: bool)
        requires
            at < self.job().ops.len(),
        ensures
            may == makes_new(self.job().ops[at as int]),
    {
        assert(ops_of(self.ops@)[at as int] == self.ops@[at as int]@);
        match &self.ops[at] {
            UnpackOp::CreateFile => true,
            UnpackOp::Symlink(_) => true,
            UnpackOp::HardLink(_) => true,
            _ => false,
        }
    }

    /// Takes in how the action went. Once the file to be written is open, the data of the entry
    /// is used up.
    pub fn report(&mut self, event: Event, fields: &mut EntryFields)
        requires
            old(self).wf(),
            expects(old(self).job(), old(self).progress(), event@),
        ensures
            final(self).wf(),
            final(self).job() == old(self).job(),
            final(self).progress() == react(old(self).job(), old(self).progress(), event@),
            *final(fields) == (EntryFields { data: final(fields).data, ..*old(fields) }),
            final(fields).data@ == if opens_file(
                old(self).job(),
                old(self).progress(),
                event@,
            ) {
                Seq::empty()
            } else {
                old(fields).data@
            },
    {
        let (at, stage) = match &self.state {
            State::Running(at, stage) => (*at, *stage),
            _ => {
                return;
            },
        };
        assert(ops_of(self.ops@)[at as int] == self.ops@[at as int]@);
        assert(at < self.ops.len());
        match event {
            Event::Done => {
                if stage == Stage::Removing {
                    self.state = State::Running(at, Stage::Second);
                } else {
                    if let UnpackOp::CreateFile = &self.ops[at] {
                        fields.data.clear();
                    }
                    self.go_to(at + 1);
                }
            },
            Event::Failed(kind) => {
                let is_dir = match &self.ops[at] {
                    UnpackOp::CreateDir => true,
                    _ => false,
                };
                if stage == Stage::First && is_dir && kind == ErrorKind::AlreadyExists {
                    self.state = State::Running(at, Stage::Probing);
                } else if stage == Stage::First && self.may_replace(at) && self.overwrite && kind
                    == ErrorKind::AlreadyExists {
                    if let UnpackOp::HardLink(_) = &self.ops[at] {
                        self.state = State::Running(at, Stage::Comparing);
                    } else {
                        self.state = State::Running(at, Stage::Removing);
                    }
                } else if stage == Stage::Removing && kind == ErrorKind::NotFound {
                    self.state = State::Running(at, Stage::Second);
                } else {
                    self.fail_by_system(at);
                }
            },
            Event::Copied(len) => {
                let complete = match &self.ops[at] {
                    UnpackOp::Copy(expected) => *expected == len,
                    _ => false,
                };
                if complete {
                    self.go_to(at + 1);
                } else {
                    let inner = self.context(at);
                    self.fail_by_entry(EntryError::IncompleteFile, inner);
                }
            },
            Event::Resolved(path) => {
                let outside: Option<Vec<u8>> = match &self.ops[at] {
                    UnpackOp::CheckInside(_, base) => if starts_with(
                        path.as_slice(),
                        base.as_slice(),
                    ) {
                        None
                    } else {
                        Some(slice_to_vec(base.as_slice()))
                    },
                    _ => None,
                };
                match outside {
                    Some(base) => {
                        self.fail_by_entry(
                            EntryError::OutsideDestination,
                            Some(Context::Outside(base)),
                        );
                    },
                    None => {
                        self.go_to(at + 1);
                    },
                }
            },
            Event::IsDir(is) => {
                if is {
                    self.go_to(at + 1);
                } else {
                    self.fail_by_system(at);
                }
            },
            Event::Exists(_) => {
                self.go_to(at + 1);
            },
            Event::SameFile(are) => {
                if are {
                    self.go_to(at + 1);
                } else {
                    self.state = State::Running(at, Stage::Removing);
                }
            },
            Event::OutOfRange => {
                self.fail_by_entry(EntryError::MtimeExceedsSystem, None);
            },
        }
    }

    /// The failure, if it has failed.
    pub fn into_failure(self) -> (failure: Option<Failure>)
        ensures
            match failure {
                Some(f) => self.progress() == Progress::Failed(f@),
                None => !(self.progress() is Failed),
            },
    {
        match self.state {
            State::Failed(failure) => Some(failure),
            _ => None,
        }
    }
}

impl EntryFields {
    /// Starts unpacking the entry to `dst`. With a `base`, links have to stay inside it.
    pub fn unpack(&self, base: Option<&[u8]>, dst: &[u8]) -> (run: Unpacking)
        ensures
            run.wf(),
            run.job() == unpack_job(*self, base_view(base), dst@),
            run.progress() == arrive(run.job(), 0),
    {
        let ops = self.plan_unpack(base, dst);
        Unpacking::start(
            slice_to_vec(dst),
            slice_to_vec(self.header.path.as_slice()),
            self.overwrite,
            ops,
        )
    }
}

impl Entry {
    /// Starts unpacking the entry to `dst`, wherever that is.
    pub fn unpack(&self, dst: &[u8]) -> (run: Unpacking)
        ensures
            run.wf(),
            run.job() == unpack_job(self@, None, dst@),
            run.progress() == arrive(run.job(), 0),
    {
        self.borrow_fields().unpack(None, dst)
    }
}

} // verus!
