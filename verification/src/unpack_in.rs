//! Unpacking an entry below a directory.
//!
//! The place of an entry is its path below the destination. The directory of that place is made
//! and checked once; a memo keeps the directories that have passed, until a link is unpacked, which
//! may change where they lead.
use crate::entry::{Entry, EntryFields};
use crate::error::{context_view, Cause, Context, EntryError, ErrorKind, Failure};
use crate::header::EntryType;
use crate::memo::{memo_clear, memo_contains, memo_insert, memo_paths, new_memo};
use crate::path::{
    components, components_of, dot, fits_at, inside, is_absolute, is_component_list, is_plain,
    join, joined, law_joined_keeps_both, lemma_components_fit, lemma_components_short,
    lemma_joined, lemma_joined_is_plain, lemma_names_one, lemma_parent, lemma_rendered,
    lemma_split_word, parent, parent_of, parts_of, render, rendered, starts_with, Component, Part,
};
use crate::unpacking::{
    action_of, arrive, changed_path, distance, expects, fits, law_action_tells_events,
    law_only_destination_changes, law_unpacking_ends, opens_file, reachable, react, unpack_job,
    Action, Event, Job, Progress, Unpacking,
};
use rustc_hash::FxHashSet;
use vstd::prelude::*;
use vstd::slice::slice_to_vec;

verus! {

/// The names among components.
pub open spec fn plain_names(parts: Seq<Part>) -> Seq<Seq<u8>>
    decreases parts.len(),
{
    if parts.len() == 0 {
        Seq::empty()
    } else {
        match parts.last() {
            Part::Normal(name) => plain_names(parts.drop_last()).push(name),
            _ => plain_names(parts.drop_last()),
        }
    }
}

/// Whether there is a `..` among components.
pub open spec fn climbs(parts: Seq<Part>) -> bool {
    exists|i: int| 0 <= i < parts.len() && #[trigger] parts[i] is ParentDir
}

/// A path with names added to it one after the other.
pub open spec fn extended(base: Seq<u8>, list: Seq<Seq<u8>>) -> Seq<u8>
    decreases list.len(),
{
    if list.len() == 0 {
        base
    } else {
        joined(extended(base, list.drop_last()), list.last())
    }
}

/// Where an entry with the given path belongs below `dst`: nowhere if its path has a `..` or no
/// name. A leading `/` and every `.` are passed over.
pub open spec fn destination_of(path: Seq<u8>, dst: Seq<u8>) -> Option<Seq<u8>> {
    let parts = components_of(path);
    if climbs(parts) || plain_names(parts).len() == 0 {
        None
    } else {
        Some(extended(dst, plain_names(parts)))
    }
}

/// The form of a directory by which the memo knows it, that of [`render`]: paths with the same
/// components have the same.
pub open spec fn memo_key(dir: Seq<u8>) -> Seq<u8> {
    rendered(components_of(dir))
}

/// A path with names added has these names as further components.
proof fn lemma_extended(base: Seq<u8>, list: Seq<Seq<u8>>)
    requires
        is_component_list(list.map_values(|name: Seq<u8>| Part::Normal(name))),
    ensures
        components_of(extended(base, list)) == components_of(base) + list.map_values(
            |name: Seq<u8>| Part::Normal(name),
        ),
        list.len() > 0 ==> extended(base, list).len() > 0,
    decreases list.len(),
{
    let parts = list.map_values(|name: Seq<u8>| Part::Normal(name));
    if list.len() == 0 {
        assert(components_of(base) + parts =~= components_of(base));
    } else {
        let front = list.drop_last();
        let front_parts = front.map_values(|name: Seq<u8>| Part::Normal(name));
        let name = list.last();
        assert(front_parts =~= parts.drop_last());
        assert(is_component_list(front_parts)) by {
            assert forall|i: int| 0 <= i < front_parts.len() implies fits_at(
                #[trigger] front_parts[i],
                i,
            ) by {
                assert(fits_at(parts[i], i));
            }
        }
        lemma_extended(base, front);
        assert(fits_at(parts[parts.len() - 1], parts.len() - 1));
        let whole = extended(base, front);
        assert(!is_absolute(name)) by {
            if name.len() > 0 {
                assert(name.contains(name[0]));
            }
        }
        lemma_joined(whole, name);
        lemma_split_word(name);
        lemma_names_one(name);
        lemma_components_short(name);
        lemma_components_short(Seq::empty());
        if whole.len() == 0 {
            assert(whole =~= Seq::empty());
            assert(components_of(whole) =~= Seq::empty());
        }
        assert(components_of(base) + parts =~= (components_of(base) + front_parts).push(
            Part::Normal(name),
        ));
        assert(components_of(extended(base, list)) =~= components_of(whole).push(
            Part::Normal(name),
        ));
    }
}

/// The names of a path can stand in a path.
proof fn lemma_plain_names(parts: Seq<Part>)
    requires
        is_component_list(parts),
    ensures
        is_component_list(plain_names(parts).map_values(|name: Seq<u8>| Part::Normal(name))),
    decreases parts.len(),
{
    if parts.len() > 0 {
        let front = parts.drop_last();
        assert forall|i: int| 0 <= i < front.len() implies fits_at(
            #[trigger] front[i],
            i,
        ) by {
            assert(fits_at(parts[i], i));
        }
        lemma_plain_names(front);
        assert(fits_at(parts[parts.len() - 1], parts.len() - 1));
        let all = plain_names(parts).map_values(|name: Seq<u8>| Part::Normal(name));
        let some = plain_names(front).map_values(|name: Seq<u8>| Part::Normal(name));
        assert forall|i: int| 0 <= i < all.len() implies fits_at(
            #[trigger] all[i],
            i,
        ) by {
            if i < some.len() {
                assert(all[i] == some[i]);
                assert(fits_at(some[i], i));
            }
        }
    }
}

/// Where an entry is unpacked to lies below the destination: its components are those of the
/// destination, then one or more names of the entry's path, and no `..`. So it has a directory, at
/// or below the destination.
pub proof fn law_destination_is_below(path: Seq<u8>, dst: Seq<u8>)
    ensures
        destination_of(path, dst) matches Some(file) ==> {
            &&& components_of(file) == components_of(dst) + plain_names(
                components_of(path),
            ).map_values(|name: Seq<u8>| Part::Normal(name))
            &&& components_of(file).len() > components_of(dst).len()
            &&& inside(file, dst)
            &&& parent_of(file) matches Some(dir) && inside(dir, dst)
        },
{
    if let Some(file) = destination_of(path, dst) {
        let list = plain_names(components_of(path));
        let parts = list.map_values(|name: Seq<u8>| Part::Normal(name));
        lemma_components_fit(path);
        lemma_plain_names(components_of(path));
        lemma_extended(dst, list);
        lemma_parent(file);
        assert(components_of(file).last() == parts.last());
        assert(!(components_of(file).last() is RootDir));
        assert(seq![Part::RootDir].last() is RootDir);
        let dir = parent_of(file).unwrap();
        assert(components_of(dir) =~= components_of(dst) + parts.drop_last());
    }
}

/// An entry whose path has a `..` is not unpacked at all.
pub proof fn law_parent_dir_is_skipped(path: Seq<u8>, dst: Seq<u8>)
    requires
        components_of(path).contains(Part::ParentDir),
    ensures
        destination_of(path, dst) is None,
{
    let i = choose|i: int|
        0 <= i < components_of(path).len() && components_of(path)[i] == Part::ParentDir;
    assert(components_of(path)[i] is ParentDir);
}

/// The components of a path without the root or the `.` that opens it.
pub open spec fn after_lead(parts: Seq<Part>) -> Seq<Part> {
    if parts.len() > 0 && (parts[0] is RootDir || parts[0] is CurDir) {
        parts.skip(1)
    } else {
        parts
    }
}

/// Without a `..`, all that follows the lead of a path is names.
proof fn lemma_names_are_all(parts: Seq<Part>)
    requires
        is_component_list(parts),
        !parts.contains(Part::ParentDir),
    ensures
        plain_names(parts).map_values(|name: Seq<u8>| Part::Normal(name)) == after_lead(parts),
    decreases parts.len(),
{
    let found = plain_names(parts).map_values(|name: Seq<u8>| Part::Normal(name));
    if parts.len() == 0 {
        assert(found =~= after_lead(parts));
    } else {
        let front = parts.drop_last();
        let last = parts.last();
        assert(parts[parts.len() - 1] == last);
        assert(fits_at(parts[parts.len() - 1], parts.len() - 1));
        assert(is_component_list(front)) by {
            assert forall|i: int| 0 <= i < front.len() implies fits_at(#[trigger] front[i], i) by {
                assert(fits_at(parts[i], i));
            }
        }
        assert(!front.contains(Part::ParentDir)) by {
            if front.contains(Part::ParentDir) {
                let i = choose|i: int| 0 <= i < front.len() && front[i] == Part::ParentDir;
                assert(parts[i] == Part::ParentDir);
            }
        }
        assert(last != Part::ParentDir) by {
            assert(parts.contains(last));
        }
        lemma_names_are_all(front);
        let before = plain_names(front).map_values(|name: Seq<u8>| Part::Normal(name));
        match last {
            Part::Normal(name) => {
                assert(found =~= before.push(Part::Normal(name)));
                assert(after_lead(parts) =~= after_lead(front).push(last));
            },
            _ => {
                assert(parts.len() == 1);
                assert(found =~= Seq::empty());
                assert(after_lead(parts) =~= Seq::empty());
            },
        }
    }
}

/// Names added to a path leave it in front, and plain if it was.
proof fn lemma_extended_keeps_front(base: Seq<u8>, list: Seq<Seq<u8>>)
    requires
        is_component_list(list.map_values(|name: Seq<u8>| Part::Normal(name))),
    ensures
        base.is_prefix_of(extended(base, list)),
        is_plain(base) ==> is_plain(extended(base, list)),
    decreases list.len(),
{
    if list.len() == 0 {
        assert(base =~= base.subrange(0, base.len() as int));
    } else {
        let parts = list.map_values(|name: Seq<u8>| Part::Normal(name));
        let front = list.drop_last();
        let front_parts = front.map_values(|name: Seq<u8>| Part::Normal(name));
        let name = list.last();
        assert(fits_at(parts[parts.len() - 1], parts.len() - 1));
        assert(is_component_list(front_parts)) by {
            assert forall|i: int| 0 <= i < front_parts.len() implies fits_at(
                #[trigger] front_parts[i],
                i,
            ) by {
                assert(fits_at(parts[i], i));
            }
        }
        lemma_extended_keeps_front(base, front);
        assert(name.contains(name[0]));
        law_joined_keeps_both(extended(base, front), name);
        let mid = extended(base, front);
        if is_plain(base) {
            assert(seq![0x2eu8] =~= dot());
            lemma_joined_is_plain(mid, name);
        }
        let whole = extended(base, list);
        assert(base =~= whole.subrange(0, base.len() as int)) by {
            assert(base =~= mid.subrange(0, base.len() as int));
            assert(mid =~= whole.subrange(0, mid.len() as int));
        }
    }
}

/// An entry has a place below the destination exactly if its path has no `..` and at least one
/// name. The place is the destination itself, byte for byte, and then every name of the path, each
/// one kept, in their order and with repetitions: the components of the place are those of the
/// destination and then those of the path, without the root or the `.` that may open it. It is
/// written without anything that carries no meaning, if the destination is.
pub proof fn law_destination_keeps_every_name(path: Seq<u8>, dst: Seq<u8>)
    ensures
        ({
            let parts = components_of(path);
            match destination_of(path, dst) {
                Some(file) => {
                    &&& !parts.contains(Part::ParentDir)
                    &&& after_lead(parts).len() > 0
                    &&& components_of(file) == components_of(dst) + after_lead(parts)
                    &&& dst.is_prefix_of(file)
                    &&& is_plain(dst) ==> is_plain(file)
                },
                None => parts.contains(Part::ParentDir) || after_lead(parts).len() == 0,
            }
        }),
{
    let parts = components_of(path);
    lemma_components_fit(path);
    if parts.contains(Part::ParentDir) {
        law_parent_dir_is_skipped(path, dst);
    } else {
        assert(!climbs(parts)) by {
            if climbs(parts) {
                let i = choose|i: int| 0 <= i < parts.len() && #[trigger] parts[i] is ParentDir;
                assert(parts[i] == Part::ParentDir);
            }
        }
        lemma_names_are_all(parts);
        lemma_plain_names(parts);
        assert(plain_names(parts).len() == plain_names(parts).map_values(
            |name: Seq<u8>| Part::Normal(name),
        ).len());
        law_destination_is_below(path, dst);
        lemma_extended_keeps_front(dst, plain_names(parts));
    }
}

/// Where an entry with the given path belongs below `dst`.
pub fn destination(path: &[u8], dst: &[u8]) -> (file: Option<Vec<u8>>)
    ensures
        match file {
            Some(bytes) => destination_of(path@, dst@) == Some(bytes@),
            None => destination_of(path@, dst@) is None,
        },
{
    let list = components(path);
    let ghost all = components_of(path@);
    let mut out = slice_to_vec(dst);
    let mut named: bool = false;
    let mut i: usize = 0;
    assert(plain_names(all.take(0)) =~= Seq::empty());
    while i < list.len()
        invariant
            i <= list@.len(),
            all == components_of(path@),
            parts_of(list@) == all,
            out@ == extended(dst@, plain_names(all.take(i as int))),
            named == (plain_names(all.take(i as int)).len() > 0),
            forall|j: int| 0 <= j < i ==> !(#[trigger] all[j] is ParentDir),
        decreases list@.len() - i,
    {
        let ghost longer = all.take(i + 1);
        assert(longer.drop_last() =~= all.take(i as int));
        assert(longer.last() == list@[i as int]@);
        assert(all[i as int] == list@[i as int]@);
        match &list[i] {
            Component::RootDir => {},
            Component::CurDir => {},
            Component::ParentDir => {
                assert(all[i as int] is ParentDir);
                return None;
            },
            Component::Normal(name) => {
                let ghost before = plain_names(all.take(i as int));
                assert(plain_names(longer) == before.push(name@));
                assert(before.push(name@).drop_last() =~= before);
                out = join(out.as_slice(), name.as_slice());
                named = true;
            },
        }
        i += 1;
    }
    assert(all.take(i as int) =~= all);
    if named {
        Some(out)
    } else {
        None
    }
}

/// How far unpacking below a directory has come.
#[derive(Debug)]
pub enum Phase<P = Vec<u8>> {
    /// Looking for the nearest directory that is there, at this path.
    Probe(P),
    /// Making sure that this path, above the next directory to be made, lies inside the
    /// destination.
    CheckAbove(P),
    /// Making a directory.
    Create,
    /// Making sure that the directory of the entry lies inside the destination.
    CheckDir,
    /// Unpacking the entry.
    Unpack,
    /// Failed before that.
    Failed(Failure<P>),
}

impl View for Phase {
    type V = Phase<Seq<u8>>;

    open spec fn view(&self) -> Phase<Seq<u8>> {
        match self {
            Phase::Probe(path) => Phase::Probe(path@),
            Phase::CheckAbove(path) => Phase::CheckAbove(path@),
            Phase::Create => Phase::Create,
            Phase::CheckDir => Phase::CheckDir,
            Phase::Unpack => Phase::Unpack,
            Phase::Failed(failure) => Phase::Failed(failure@),
        }
    }
}

/// What is to be unpacked, and where.
pub struct PlacedJob {
    /// The destination.
    pub dst: Seq<u8>,
    /// Where the entry is unpacked to.
    pub file: Seq<u8>,
    /// The directory of that place.
    pub dir: Seq<u8>,
    /// The job of unpacking the entry there.
    pub job: Job,
}

/// How far it has come.
pub struct PlacedState {
    pub phase: Phase<Seq<u8>>,
    /// The directories that have to be made, the outermost last.
    pub missing: Seq<Seq<u8>>,
    /// How far the job has come.
    pub progress: Progress,
}

/// What is to be done about the directories that are missing.
pub open spec fn next_dir(missing: Seq<Seq<u8>>) -> Phase<Seq<u8>> {
    if missing.len() == 0 {
        Phase::CheckDir
    } else {
        match parent_of(missing.last()) {
            Some(up) => Phase::CheckAbove(up),
            None => Phase::Create,
        }
    }
}

/// What is to be done next.
pub open spec fn placed_action(job: PlacedJob, state: PlacedState) -> Action<Seq<u8>> {
    match state.phase {
        Phase::Probe(path) => Action::Probe(path),
        Phase::CheckAbove(path) => Action::Canonicalize(path),
        Phase::Create => Action::CreateDirAll(state.missing.last()),
        Phase::CheckDir => Action::Canonicalize(job.dir),
        Phase::Unpack => action_of(job.job, state.progress),
        Phase::Failed(_) => Action::Fail,
    }
}

/// Whether an event of this form is expected.
pub open spec fn placed_expects(
    job: PlacedJob,
    state: PlacedState,
    event: Event<Seq<u8>>,
) -> bool {
    match state.phase {
        Phase::Probe(_) => event is Exists,
        Phase::CheckAbove(_) => event is Resolved || event is Failed,
        Phase::Create => event is Done || event is Failed,
        Phase::CheckDir => event is Resolved || event is Failed,
        Phase::Unpack => expects(job.job, state.progress, event),
        Phase::Failed(_) => false,
    }
}

/// What comes of checking that a path lies inside the destination: no failure exactly if it
/// resolves to a path there.
pub open spec fn check_failure(
    dst: Seq<u8>,
    path: Seq<u8>,
    event: Event<Seq<u8>>,
    outer: Option<Context<Seq<u8>>>,
) -> Option<Failure<Seq<u8>>> {
    match event {
        Event::Resolved(resolved) => if inside(resolved, dst) {
            None
        } else {
            Some(
                Failure {
                    cause: Cause::Entry(EntryError::OutsideDestination),
                    inner: Some(Context::Outside(dst)),
                    outer,
                },
            )
        },
        _ => Some(
            Failure { cause: Cause::System, inner: Some(Context::Canonicalize(path)), outer },
        ),
    }
}

/// How it goes on after an event.
pub open spec fn placed_react(
    job: PlacedJob,
    state: PlacedState,
    event: Event<Seq<u8>>,
) -> PlacedState {
    match state.phase {
        Phase::Probe(path) => if event == Event::<Seq<u8>>::Exists(true) {
            PlacedState { phase: next_dir(state.missing), ..state }
        } else {
            let missing = state.missing.push(path);
            match parent_of(path) {
                Some(up) => PlacedState { phase: Phase::Probe(up), missing, ..state },
                None => PlacedState { phase: next_dir(missing), missing, ..state },
            }
        },
        Phase::CheckAbove(path) => match check_failure(
            job.dst,
            path,
            event,
            Some(Context::CreateParent(job.dir)),
        ) {
            None => PlacedState { phase: Phase::Create, ..state },
            Some(failure) => PlacedState { phase: Phase::Failed(failure), ..state },
        },
        Phase::Create => if event is Done {
            let missing = state.missing.drop_last();
            PlacedState { phase: next_dir(missing), missing, ..state }
        } else {
            let failure = Failure {
                cause: Cause::System,
                inner: None,
                outer: Some(Context::CreateParent(job.dir)),
            };
            PlacedState { phase: Phase::Failed(failure), ..state }
        },
        Phase::CheckDir => match check_failure(job.dst, job.dir, event, None) {
            None => PlacedState { phase: Phase::Unpack, ..state },
            Some(failure) => PlacedState { phase: Phase::Failed(failure), ..state },
        },
        Phase::Unpack => PlacedState { progress: react(job.job, state.progress, event), ..state },
        Phase::Failed(_) => state,
    }
}

/// What the memo holds after an event: a directory joins it when it is found to lie inside the
/// destination.
pub open spec fn memo_after(
    job: PlacedJob,
    state: PlacedState,
    event: Event<Seq<u8>>,
    memo: Set<Seq<u8>>,
) -> Set<Seq<u8>> {
    if state.phase is CheckDir && placed_react(job, state, event).phase is Unpack {
        memo.insert(memo_key(job.dir))
    } else {
        memo
    }
}

/// Whether it can have come this far.
pub open spec fn placed_reachable(job: PlacedJob, state: PlacedState) -> bool {
    &&& reachable(job.job, state.progress)
    &&& !(state.phase is Unpack) ==> state.progress == arrive(job.job, 0)
    &&& state.phase is Create ==> state.missing.len() > 0
    &&& state.phase matches Phase::CheckAbove(path) ==> state.missing.len() > 0 && parent_of(
        state.missing.last(),
    ) == Some(path)
}

/// The failure, if it has failed. One that came up while the entry was unpacked says so.
pub open spec fn placed_failure(job: PlacedJob, state: PlacedState) -> Option<Failure<Seq<u8>>> {
    match state.phase {
        Phase::Failed(failure) => Some(failure),
        Phase::Unpack => match state.progress {
            Progress::Failed(failure) => Some(
                Failure { outer: Some(Context::UnpackEntry(job.file)), ..failure },
            ),
            _ => None,
        },
        _ => None,
    }
}

/// The job of unpacking an entry to a place below `dst`.
pub open spec fn placed_job(fields: EntryFields, dst: Seq<u8>, file: Seq<u8>) -> PlacedJob {
    PlacedJob {
        dst,
        file,
        dir: parent_of(file).unwrap(),
        job: unpack_job(fields, Some(dst), file),
    }
}

/// What the memo holds when the unpacking of an entry starts: nothing if the entry is a link.
pub open spec fn memo_at_start(fields: EntryFields, memo: Set<Seq<u8>>) -> Set<Seq<u8>> {
    if fields.is_link() {
        Set::empty()
    } else {
        memo
    }
}

/// Where it starts: the directory is not checked again if the memo holds it.
pub open spec fn placed_start(job: PlacedJob, memo: Set<Seq<u8>>) -> PlacedState {
    PlacedState {
        phase: if memo.contains(memo_key(job.dir)) {
            Phase::Unpack
        } else {
            Phase::Probe(job.dir)
        },
        missing: Seq::empty(),
        progress: arrive(job.job, 0),
    }
}

/// The meanings of a list of paths.
pub open spec fn paths_of(list: Seq<Vec<u8>>) -> Seq<Seq<u8>> {
    list.map_values(|path: Vec<u8>| path@)
}

/// The unpacking of an entry below a directory: it asks for one action after the other.
#[derive(Debug)]
pub struct UnpackingIn {
    dst: Vec<u8>,
    file: Vec<u8>,
    dir: Vec<u8>,
    missing: Vec<Vec<u8>>,
    phase: Phase,
    run: Unpacking,
}

/// The action that is asked for says which events are expected.
pub proof fn law_placed_action_tells_events(
    job: PlacedJob,
    state: PlacedState,
    event: Event<Seq<u8>>,
)
    requires
        placed_reachable(job, state),
    ensures
        placed_expects(job, state, event) <==> fits(placed_action(job, state), event),
{
    law_action_tells_events(job.job, state.progress, event);
}

/// A directory is made only if the one above it has just been found inside the destination. The
/// only path with nothing above it is the empty one or the root.
pub proof fn law_directories_are_made_inside(
    job: PlacedJob,
    state: PlacedState,
    event: Event<Seq<u8>>,
)
    requires
        placed_reachable(job, state),
        placed_expects(job, state, event),
        placed_react(job, state, event).phase is Create,
    ensures
        ({
            let made = placed_react(job, state, event).missing.last();
            &&& placed_action(job, placed_react(job, state, event)) == Action::CreateDirAll(made)
            &&& match parent_of(made) {
                Some(up) => placed_action(job, state) == Action::Canonicalize(up) && (event matches
                    Event::Resolved(path) && inside(path, job.dst)),
                None => components_of(made).len() == 0 || components_of(made) == seq![
                    Part::RootDir,
                ],
            }
        }),
{
    let made = placed_react(job, state, event).missing.last();
    lemma_parent(made);
}

/// The entry itself is unpacked only once its directory is in the memo: it was there from the
/// start, or it has been resolved and found inside the destination.
pub proof fn law_unpacks_only_in_checked_directories(
    job: PlacedJob,
    state: PlacedState,
    event: Event<Seq<u8>>,
    memo: Set<Seq<u8>>,
)
    requires
        placed_reachable(job, state),
        placed_expects(job, state, event),
        state.phase is Unpack ==> memo.contains(memo_key(job.dir)),
    ensures
        placed_react(job, state, event).phase is Unpack ==> memo_after(
            job,
            state,
            event,
            memo,
        ).contains(memo_key(job.dir)),
        placed_start(job, memo).phase is Unpack ==> memo.contains(memo_key(job.dir)),
        !(state.phase is Unpack) && placed_react(job, state, event).phase is Unpack
            ==> placed_action(job, state) == Action::Canonicalize(job.dir) && (event matches
            Event::Resolved(path) && inside(path, job.dst)),
{
}

/// How it stands after a number of events, and what the memo then holds.
pub open spec fn placed_run(
    job: PlacedJob,
    memo: Set<Seq<u8>>,
    events: Seq<Event<Seq<u8>>>,
) -> (PlacedState, Set<Seq<u8>>)
    decreases events.len(),
{
    if events.len() == 0 {
        (placed_start(job, memo), memo)
    } else {
        let (state, held) = placed_run(job, memo, events.drop_last());
        (
            placed_react(job, state, events.last()),
            memo_after(job, state, events.last(), held),
        )
    }
}

/// Whether each of a number of events answers what was asked for.
pub open spec fn placed_fitting(
    job: PlacedJob,
    memo: Set<Seq<u8>>,
    events: Seq<Event<Seq<u8>>>,
) -> bool
    decreases events.len(),
{
    events.len() == 0 || (placed_fitting(job, memo, events.drop_last()) && placed_expects(
        job,
        placed_run(job, memo, events.drop_last()).0,
        events.last(),
    ))
}

/// Over a whole run, if the memo does not hold the directory of the entry from the start, nothing
/// is unpacked unless, some time before, that directory was resolved and found inside the
/// destination.
pub proof fn law_whole_run_is_checked(
    job: PlacedJob,
    memo: Set<Seq<u8>>,
    events: Seq<Event<Seq<u8>>>,
)
    requires
        placed_fitting(job, memo, events),
        !memo.contains(memo_key(job.dir)),
        placed_run(job, memo, events).0.phase is Unpack,
    ensures
        exists|i: int|
            0 <= i < events.len() && placed_action(job, placed_run(job, memo, events.take(i)).0)
                == Action::Canonicalize(job.dir) && (#[trigger] events[i] matches Event::Resolved(
                path,
            ) && inside(path, job.dst)),
    decreases events.len(),
{
    let front = events.drop_last();
    let last = events.len() - 1;
    assert(events.take(last) =~= front);
    if placed_run(job, memo, front).0.phase is Unpack {
        law_whole_run_is_checked(job, memo, front);
        let i = choose|i: int|
            0 <= i < front.len() && placed_action(job, placed_run(job, memo, front.take(i)).0)
                == Action::Canonicalize(job.dir) && (#[trigger] front[i] matches Event::Resolved(
                path,
            ) && inside(path, job.dst));
        assert(front.take(i) =~= events.take(i));
        assert(events[i] == front[i]);
    } else {
        assert(events[last] is Resolved);
    }
}

/// The memo grows only by a directory that has been resolved and found inside the destination.
pub proof fn law_memo_holds_checked_directories(
    job: PlacedJob,
    state: PlacedState,
    event: Event<Seq<u8>>,
    memo: Set<Seq<u8>>,
)
    requires
        placed_expects(job, state, event),
    ensures
        memo_after(job, state, event, memo) == memo || (memo_after(job, state, event, memo)
            == memo.insert(memo_key(job.dir)) && placed_action(job, state) == Action::Canonicalize(
            job.dir,
        ) && (event matches Event::Resolved(path) && inside(path, job.dst))),
{
}

/// A link empties the memo, so that the directory of every link, and of whatever comes after it, is
/// checked anew.
pub proof fn law_link_forgets(fields: EntryFields, dst: Seq<u8>, file: Seq<u8>, memo: Set<Seq<u8>>)
    requires
        fields.is_link(),
    ensures
        memo_at_start(fields, memo) == Set::<Seq<u8>>::empty(),
        placed_start(placed_job(fields, dst, file), memo_at_start(fields, memo)).phase is Probe,
{
}

/// Two directories are the same to the memo exactly if they have the same components.
pub proof fn law_memo_knows_components(a: Seq<u8>, b: Seq<u8>)
    ensures
        memo_key(a) == memo_key(b) <==> components_of(a) == components_of(b),
{
    lemma_components_fit(a);
    lemma_components_fit(b);
    lemma_rendered(components_of(a));
    lemma_rendered(components_of(b));
}

/// The memo saves checks and changes nothing else: once the directory has passed, a run that had to
/// check it stands with its entry where a run starts that has it in the memo, and does the same
/// from there on.
pub proof fn law_memo_only_skips_checks(
    job: PlacedJob,
    state: PlacedState,
    event: Event<Seq<u8>>,
    memo: Set<Seq<u8>>,
    next: Event<Seq<u8>>,
)
    requires
        placed_reachable(job, state),
        placed_expects(job, state, event),
        !(state.phase is Unpack),
        placed_react(job, state, event).phase is Unpack,
        memo.contains(memo_key(job.dir)),
    ensures
        ({
            let checked = placed_react(job, state, event);
            let known = placed_start(job, memo);
            &&& known.phase is Unpack
            &&& checked.progress == known.progress
            &&& placed_action(job, checked) == placed_action(job, known)
            &&& placed_react(job, checked, next).progress == placed_react(job, known, next).progress
        }),
{
}

/// One call that unpacks an entry below a destination, and how the actions went that it asked for.
pub struct Call {
    /// The entry.
    pub fields: EntryFields,
    /// The events that it was told of.
    pub events: Seq<Event<Seq<u8>>>,
}

impl Call {
    /// Where the entry is unpacked to: nowhere if its path cannot be read or belongs nowhere.
    pub open spec fn place(&self, dst: Seq<u8>) -> Option<Seq<u8>> {
        match self.fields.path_of() {
            Ok(path) => destination_of(path, dst),
            Err(_) => None,
        }
    }

    /// What it has to do, if it has a place.
    pub open spec fn job(&self, dst: Seq<u8>) -> PlacedJob {
        placed_job(self.fields, dst, self.place(dst).unwrap())
    }

    /// How it stands after the first events, and what the memo then holds.
    pub open spec fn run(&self, dst: Seq<u8>, memo: Set<Seq<u8>>, upto: int) -> (
        PlacedState,
        Set<Seq<u8>>,
    ) {
        placed_run(self.job(dst), memo_at_start(self.fields, memo), self.events.take(upto))
    }

    /// Whether it unpacks a link.
    pub open spec fn unpacks_link(&self, dst: Seq<u8>) -> bool {
        self.place(dst) is Some && self.fields.is_link()
    }
}

/// What a memo that is empty at first holds after a number of calls for one destination. A call
/// whose entry has no place leaves it as it is.
pub open spec fn memo_after_calls(dst: Seq<u8>, calls: Seq<Call>) -> Set<Seq<u8>>
    decreases calls.len(),
{
    if calls.len() == 0 {
        Set::empty()
    } else {
        let memo = memo_after_calls(dst, calls.drop_last());
        let call = calls.last();
        if call.place(dst) is Some {
            call.run(dst, memo, call.events.len() as int).1
        } else {
            memo
        }
    }
}

/// Whether in each of a number of calls each event answers what was asked for.
pub open spec fn calls_fit(dst: Seq<u8>, calls: Seq<Call>) -> bool
    decreases calls.len(),
{
    calls.len() == 0 || (calls_fit(dst, calls.drop_last()) && (calls.last().place(dst) is Some
        ==> placed_fitting(
        calls.last().job(dst),
        memo_at_start(calls.last().fields, memo_after_calls(dst, calls.drop_last())),
        calls.last().events,
    )))
}

/// Whether an event of a call reports that a path with the components of `dir` resolves to a path
/// inside the destination.
pub open spec fn passes(dst: Seq<u8>, calls: Seq<Call>, at: int, event: int, dir: Seq<u8>) -> bool {
    let call = calls[at];
    &&& call.place(dst) is Some
    &&& 0 <= event < call.events.len()
    &&& placed_action(
        call.job(dst),
        call.run(dst, memo_after_calls(dst, calls.take(at)), event).0,
    ) matches Action::Canonicalize(asked) && components_of(asked) == components_of(dir)
    &&& call.events[event] matches Event::Resolved(path) && inside(path, dst)
}

/// Whether a directory has passed in one of a number of calls, and no link was unpacked by a call
/// after that one.
pub open spec fn has_passed(dst: Seq<u8>, calls: Seq<Call>, dir: Seq<u8>) -> bool {
    exists|at: int, event: int|
        0 <= at < calls.len() && #[trigger] passes(dst, calls, at, event, dir) && forall|later: int|
            at < later < calls.len() ==> !(#[trigger] calls[later]).unpacks_link(dst)
}

/// A call whose entry is not a link with a place leaves standing what has passed before it.
proof fn lemma_still_passed(dst: Seq<u8>, calls: Seq<Call>, dir: Seq<u8>)
    requires
        calls.len() > 0,
        has_passed(dst, calls.drop_last(), dir),
        !calls.last().unpacks_link(dst),
    ensures
        has_passed(dst, calls, dir),
{
    let front = calls.drop_last();
    let (at, event) = choose|at: int, event: int|
        0 <= at < front.len() && #[trigger] passes(dst, front, at, event, dir) && forall|later: int|
            at < later < front.len() ==> !(#[trigger] front[later]).unpacks_link(dst);
    assert(front.take(at) =~= calls.take(at));
    assert(passes(dst, calls, at, event, dir));
    assert forall|later: int| at < later < calls.len() implies !(
    #[trigger] calls[later]).unpacks_link(dst) by {
        if later < front.len() {
            assert(!front[later].unpacks_link(dst));
        }
    }
}

/// What the memo holds at the end of a run was there at its start, or has passed in it.
proof fn lemma_run_memo(
    job: PlacedJob,
    memo: Set<Seq<u8>>,
    events: Seq<Event<Seq<u8>>>,
    key: Seq<u8>,
) -> (i: int)
    requires
        placed_fitting(job, memo, events),
        placed_run(job, memo, events).1.contains(key),
        !memo.contains(key),
    ensures
        key == memo_key(job.dir),
        0 <= i < events.len(),
        placed_action(job, placed_run(job, memo, events.take(i)).0) == Action::Canonicalize(
            job.dir,
        ),
        events[i] matches Event::Resolved(path) && inside(path, job.dst),
    decreases events.len(),
{
    let front = events.drop_last();
    let last = events.len() - 1;
    assert(events.take(last) =~= front);
    let (state, held) = placed_run(job, memo, front);
    if held.contains(key) {
        let i = lemma_run_memo(job, memo, front, key);
        assert(front.take(i) =~= events.take(i));
        i
    } else {
        law_memo_holds_checked_directories(job, state, events.last(), held);
        last
    }
}

/// A run that unpacks has its directory in the memo.
proof fn lemma_run_holds(job: PlacedJob, memo: Set<Seq<u8>>, events: Seq<Event<Seq<u8>>>)
    requires
        placed_fitting(job, memo, events),
        placed_run(job, memo, events).0.phase is Unpack,
    ensures
        placed_run(job, memo, events).1.contains(memo_key(job.dir)),
    decreases events.len(),
{
    if events.len() > 0 {
        let front = events.drop_last();
        if placed_run(job, memo, front).0.phase is Unpack {
            lemma_run_holds(job, memo, front);
        }
    }
}

/// A directory that the memo holds after a number of calls has passed in one of them, and no link
/// was unpacked by a call after that one.
pub proof fn law_memo_vouches(dst: Seq<u8>, calls: Seq<Call>, dir: Seq<u8>)
    requires
        calls_fit(dst, calls),
        memo_after_calls(dst, calls).contains(memo_key(dir)),
    ensures
        has_passed(dst, calls, dir),
    decreases calls.len(),
{
    let front = calls.drop_last();
    let call = calls.last();
    let before = memo_after_calls(dst, front);
    if call.place(dst) is Some {
        let start = memo_at_start(call.fields, before);
        assert(call.events.take(call.events.len() as int) =~= call.events);
        if start.contains(memo_key(dir)) {
            law_memo_vouches(dst, front, dir);
            lemma_still_passed(dst, calls, dir);
        } else {
            let i = lemma_run_memo(call.job(dst), start, call.events, memo_key(dir));
            law_memo_knows_components(dir, call.job(dst).dir);
            assert(calls.take(calls.len() - 1) =~= front);
            assert(passes(dst, calls, calls.len() - 1, i, dir));
        }
    } else {
        law_memo_vouches(dst, front, dir);
        lemma_still_passed(dst, calls, dir);
    }
}

/// Over any number of calls for one destination that share a memo, empty at first: whenever a call
/// is unpacking its entry, the directory of the entry has been resolved and found inside the
/// destination, in this call or an earlier one, and no call between the two, nor this one unless
/// it made that check itself, unpacks a link. So a link never lets an entry through on the word of
/// a check that was made before it. The last of the calls stands for any of them at any moment,
/// since it may have been told of any number of events.
pub proof fn law_calls_unpack_in_checked_directories(dst: Seq<u8>, calls: Seq<Call>)
    requires
        calls_fit(dst, calls),
        calls.len() > 0,
        calls.last().place(dst) is Some,
        calls.last().run(
            dst,
            memo_after_calls(dst, calls.drop_last()),
            calls.last().events.len() as int,
        ).0.phase is Unpack,
    ensures
        has_passed(dst, calls, calls.last().job(dst).dir),
{
    let call = calls.last();
    let start = memo_at_start(call.fields, memo_after_calls(dst, calls.drop_last()));
    assert(call.events.take(call.events.len() as int) =~= call.events);
    lemma_run_holds(call.job(dst), start, call.events);
    law_memo_vouches(dst, calls, call.job(dst).dir);
}

/// While the entry itself is unpacked, nothing is made, changed or removed but a path below the
/// destination.
pub proof fn law_writes_stay_below(
    fields: EntryFields,
    path: Seq<u8>,
    dst: Seq<u8>,
    file: Seq<u8>,
    state: PlacedState,
)
    requires
        destination_of(path, dst) == Some(file),
        state.phase is Unpack,
    ensures
        changed_path(placed_action(placed_job(fields, dst, file), state)) matches Some(changed)
            ==> inside(changed, dst) && components_of(changed).len() > components_of(dst).len(),
{
    law_destination_is_below(path, dst);
    law_only_destination_changes(placed_job(fields, dst, file).job, state.progress);
}

/// A bound on the number of events that it still takes.
pub open spec fn placed_distance(job: PlacedJob, state: PlacedState) -> nat {
    let unpacking = 4 * job.job.ops.len();
    match state.phase {
        Phase::Probe(path) => (unpacking + 2 + 3 * state.missing.len() + 5 * (path.len()
            + 1)) as nat,
        Phase::CheckAbove(_) => (unpacking + 2 + 3 * state.missing.len() + 1) as nat,
        Phase::Create => (unpacking + 2 + 3 * state.missing.len()) as nat,
        Phase::CheckDir => (unpacking + 1) as nat,
        Phase::Unpack => distance(job.job, state.progress),
        Phase::Failed(_) => 0,
    }
}

/// Unpacking below a directory comes to an end: every event brings it nearer.
pub proof fn law_unpacking_in_ends(job: PlacedJob, state: PlacedState, event: Event<Seq<u8>>)
    requires
        placed_reachable(job, state),
        placed_expects(job, state, event),
    ensures
        placed_reachable(job, placed_react(job, state, event)),
        placed_distance(job, placed_react(job, state, event)) < placed_distance(job, state),
{
    if state.phase is Unpack {
        law_unpacking_ends(job.job, state.progress, event);
    }
    if let Phase::Probe(path) = state.phase {
        lemma_parent(path);
    }
}

/// Makes the outcome of checking that a path lies inside the destination.
fn check(dst: &[u8], path: &[u8], event: Event, outer: Option<Context>) -> (failure: Option<
    Failure,
>)
    ensures
        match failure {
            Some(f) => check_failure(dst@, path@, event@, context_view(outer)) == Some(f@),
            None => check_failure(dst@, path@, event@, context_view(outer)) is None,
        },
{
    match event {
        Event::Resolved(resolved) => if starts_with(resolved.as_slice(), dst) {
            None
        } else {
            Some(
                Failure {
                    cause: Cause::Entry(EntryError::OutsideDestination),
                    inner: Some(Context::Outside(slice_to_vec(dst))),
                    outer,
                },
            )
        },
        _ => Some(
            Failure {
                cause: Cause::System,
                inner: Some(Context::Canonicalize(slice_to_vec(path))),
                outer,
            },
        ),
    }
}

impl UnpackingIn {
    /// What is to be unpacked, and where.
    pub closed spec fn job(&self) -> PlacedJob {
        PlacedJob { dst: self.dst@, file: self.file@, dir: self.dir@, job: self.run.job() }
    }

    /// How far it has come.
    pub closed spec fn state(&self) -> PlacedState {
        PlacedState {
            phase: self.phase@,
            missing: paths_of(self.missing@),
            progress: self.run.progress(),
        }
    }

    /// Whether it can have come this far.
    pub open spec fn wf(&self) -> bool {
        placed_reachable(self.job(), self.state())
    }

    /// Where the entry is unpacked to.
    pub fn destination(&self) -> (file: &[u8])
        ensures
            file@ == self.job().file,
    {
        self.file.as_slice()
    }

    /// What is to be done next.
    pub fn action(&self) -> (action: Action)
        requires
            self.wf(),
        ensures
            action@ == placed_action(self.job(), self.state()),
    {
        match &self.phase {
            Phase::Probe(path) => Action::Probe(slice_to_vec(path.as_slice())),
            Phase::CheckAbove(path) => Action::Canonicalize(slice_to_vec(path.as_slice())),
            Phase::Create => {
                let last = &self.missing[self.missing.len() - 1];
                assert(paths_of(self.missing@).last() == last@);
                Action::CreateDirAll(slice_to_vec(last.as_slice()))
            },
            Phase::CheckDir => Action::Canonicalize(slice_to_vec(self.dir.as_slice())),
            Phase::Unpack => self.run.action(),
            Phase::Failed(_) => Action::Fail,
        }
    }

    /// Goes on with the directories that are missing.
    fn go_to_next_dir(&mut self)
        ensures
            final(self).job() == old(self).job(),
            final(self).state() == (PlacedState {
                phase: next_dir(old(self).state().missing),
                ..old(self).state()
            }),
    {
        let len = self.missing.len();
        if len == 0 {
            self.phase = Phase::CheckDir;
            return;
        }
        assert(paths_of(self.missing@).last() == self.missing@[len - 1]@);
        match parent(self.missing[len - 1].as_slice()) {
            Some(up) => {
                self.phase = Phase::CheckAbove(up);
            },
            None => {
                self.phase = Phase::Create;
            },
        }
    }

    /// Takes in how the action went. The directory of the entry joins the memo once it has passed.
    pub fn report(
        &mut self,
        event: Event,
        fields: &mut EntryFields,
        memo: &mut FxHashSet<Vec<u8>>,
    )
        requires
            old(self).wf(),
            placed_expects(old(self).job(), old(self).state(), event@),
        ensures
            final(self).wf(),
            final(self).job() == old(self).job(),
            final(self).state() == placed_react(old(self).job(), old(self).state(), event@),
            memo_paths(*final(memo)) == memo_after(
                old(self).job(),
                old(self).state(),
                event@,
                memo_paths(*old(memo)),
            ),
            *final(fields) == (EntryFields { data: final(fields).data, ..*old(fields) }),
            final(fields).data@ == if old(self).state().phase is Unpack && opens_file(
                old(self).job().job,
                old(self).state().progress,
                event@,
            ) {
                Seq::empty()
            } else {
                old(fields).data@
            },
    {
        let ghost job = self.job();
        let ghost state = self.state();
        let ghost meaning = event@;
        match &self.phase {
            Phase::Probe(path) => {
                let there = match &event {
                    Event::Exists(does) => *does,
                    _ => false,
                };
                if !there {
                    let ghost before = self.missing@;
                    let found = slice_to_vec(path.as_slice());
                    let up = parent(path.as_slice());
                    self.missing.push(found);
                    assert(paths_of(self.missing@) =~= paths_of(before).push(found@));
                    if let Some(up) = up {
                        self.phase = Phase::Probe(up);
                        return;
                    }
                }
                self.go_to_next_dir();
            },
            Phase::CheckAbove(path) => {
                let outer = Some(Context::CreateParent(slice_to_vec(self.dir.as_slice())));
                match check(self.dst.as_slice(), path.as_slice(), event, outer) {
                    None => {
                        self.phase = Phase::Create;
                    },
                    Some(failure) => {
                        self.phase = Phase::Failed(failure);
                    },
                }
            },
            Phase::Create => {
                let made = match &event {
                    Event::Done => true,
                    _ => false,
                };
                if made {
                    let ghost before = self.missing@;
                    self.missing.pop();
                    assert(paths_of(self.missing@) =~= paths_of(before).drop_last());
                    self.go_to_next_dir();
                } else {
                    self.phase =
                    Phase::Failed(
                        Failure {
                            cause: Cause::System,
                            inner: None,
                            outer: Some(Context::CreateParent(slice_to_vec(self.dir.as_slice()))),
                        },
                    );
                }
            },
            Phase::CheckDir => {
                match check(self.dst.as_slice(), self.dir.as_slice(), event, None) {
                    None => {
                        let list = components(self.dir.as_slice());
                        memo_insert(memo, render(&list));
                        self.phase = Phase::Unpack;
                    },
                    Some(failure) => {
                        self.phase = Phase::Failed(failure);
                    },
                }
            },
            Phase::Unpack => {
                self.run.report(event, fields);
            },
            Phase::Failed(_) => {},
        }
        assert(self.state().missing =~= placed_react(job, state, meaning).missing);
    }

    /// The failure, if it has failed.
    pub fn into_failure(self) -> (failure: Option<Failure>)
        ensures
            match failure {
                Some(f) => placed_failure(self.job(), self.state()) == Some(f@),
                None => placed_failure(self.job(), self.state()) is None,
            },
    {
        match self.phase {
            Phase::Failed(failure) => Some(failure),
            Phase::Unpack => match self.run.into_failure() {
                Some(failure) => Some(
                    Failure {
                        cause: failure.cause,
                        inner: failure.inner,
                        outer: Some(Context::UnpackEntry(self.file)),
                    },
                ),
                None => None,
            },
            _ => None,
        }
    }
}

/// Whether `outcome` is how the unpacking of an entry below `dst` starts, and `after` what the memo
/// then holds: it fails if the path of the entry cannot be read, and there is nothing to do if the
/// path belongs nowhere.
pub open spec fn starts_as(
    fields: EntryFields,
    dst: Seq<u8>,
    before: Set<Seq<u8>>,
    outcome: Result<Option<UnpackingIn>, Failure>,
    after: Set<Seq<u8>>,
) -> bool {
    match fields.path_of() {
        Err(e) => {
            &&& outcome matches Err(failure) && failure@ == (Failure {
                cause: Cause::Entry(e),
                inner: Some(Context::InvalidPath(fields.header.path@)),
                outer: None,
            })
            &&& after == before
        },
        Ok(path) => match destination_of(path, dst) {
            None => outcome matches Ok(None) && after == before,
            Some(file) => {
                &&& after == memo_at_start(fields, before)
                &&& outcome matches Ok(Some(run)) && run.wf() && run.job() == placed_job(
                    fields,
                    dst,
                    file,
                ) && run.state() == placed_start(run.job(), after)
            },
        },
    }
}

impl EntryFields {
    /// Starts unpacking the entry below `dst`, a path in canonical form, unless the path of the
    /// entry belongs nowhere there. The memo holds directories that have passed below the same
    /// `dst`, in the form of [`memo_key`].
    pub fn unpack_in(&self, dst: &[u8], memo: &mut FxHashSet<Vec<u8>>) -> (run: Result<
        Option<UnpackingIn>,
        Failure,
    >)
        ensures
            starts_as(*self, dst@, memo_paths(*old(memo)), run, memo_paths(*final(memo))),
    {
        let path = match self.path() {
            Ok(path) => path,
            Err(e) => {
                return Err(
                    Failure {
                        cause: Cause::Entry(e),
                        inner: Some(
                            Context::InvalidPath(slice_to_vec(self.header.path.as_slice())),
                        ),
                        outer: None,
                    },
                );
            },
        };
        proof {
            law_destination_is_below(path@, dst@);
        }
        let file = match destination(path, dst) {
            Some(file) => file,
            None => {
                return Ok(None);
            },
        };
        let dir = match parent(file.as_slice()) {
            Some(dir) => dir,
            None => {
                return Ok(None);
            },
        };
        if self.header.entry_type == EntryType::Symlink || self.header.entry_type
            == EntryType::Link {
            memo_clear(memo);
        }
        let list = components(dir.as_slice());
        let known = memo_contains(memo, render(&list).as_slice());
        let run = self.unpack(Some(dst), file.as_slice());
        let phase = if known {
            Phase::Unpack
        } else {
            Phase::Probe(slice_to_vec(dir.as_slice()))
        };
        let begun = UnpackingIn {
            dst: slice_to_vec(dst),
            file,
            dir,
            missing: Vec::new(),
            phase,
            run,
        };
        assert(begun.state().missing =~= Seq::empty());
        Ok(Some(begun))
    }
}

impl Entry {
    /// Starts unpacking the entry below `dst`, a path in canonical form, with an empty memo.
    pub fn unpack_in(&self, dst: &[u8]) -> (begun: (
        Result<Option<UnpackingIn>, Failure>,
        FxHashSet<Vec<u8>>,
    ))
        ensures
            starts_as(self@, dst@, Set::empty(), begun.0, memo_paths(begun.1)),
    {
        let mut memo = new_memo();
        let run = self.borrow_fields().unpack_in(dst, &mut memo);
        (run, memo)
    }

    /// Starts unpacking the entry below `dst`, a path in canonical form, with a memo of directories
    /// that have passed below the same `dst`, in the form of [`memo_key`].
    pub fn unpack_in_raw(&self, dst: &[u8], memo: &mut FxHashSet<Vec<u8>>) -> (run: Result<
        Option<UnpackingIn>,
        Failure,
    >)
        ensures
            starts_as(self@, dst@, memo_paths(*old(memo)), run, memo_paths(*final(memo))),
    {
        self.borrow_fields().unpack_in(dst, memo)
    }
}

/// Unpacking below a destination starts as the path of the entry says. A path that cannot be read
/// is a failure for that reason. A path with a `..`, or without a name, is nothing to do. Any other
/// is a job for its place below the destination, in the directory of that place, with the
/// destination as the base of its links; it starts with the entry itself exactly if the memo holds
/// that directory, and otherwise with looking for the directory.
pub proof fn law_start_follows_the_path(
    fields: EntryFields,
    dst: Seq<u8>,
    before: Set<Seq<u8>>,
    outcome: Result<Option<UnpackingIn>, Failure>,
    after: Set<Seq<u8>>,
)
    requires
        starts_as(fields, dst, before, outcome, after),
    ensures
        match fields.path_of() {
            Err(e) => {
                &&& after == before
                &&& outcome matches Err(failure) && failure@ == (Failure {
                    cause: Cause::Entry(e),
                    inner: Some(Context::InvalidPath(fields.header.path@)),
                    outer: None,
                })
            },
            Ok(path) => if components_of(path).contains(Part::ParentDir) || after_lead(
                components_of(path),
            ).len() == 0 {
                outcome matches Ok(None) && after == before
            } else {
                &&& outcome matches Ok(Some(run)) && ({
                    let job = run.job();
                    &&& job.dst == dst
                    &&& components_of(job.file) == components_of(dst) + after_lead(
                        components_of(path),
                    )
                    &&& dst.is_prefix_of(job.file)
                    &&& parent_of(job.file) == Some(job.dir)
                    &&& job.job.dst == job.file
                    &&& job.job.overwrite == fields.overwrite
                    &&& job.job.name == fields.header.path@
                    &&& job.job.ops == fields.unpack_ops(Some(dst), job.file)
                    &&& run.wf()
                    &&& run.state().progress == arrive(job.job, 0)
                    &&& run.state().missing.len() == 0
                    &&& after.contains(memo_key(job.dir)) ==> run.state().phase is Unpack
                    &&& !after.contains(memo_key(job.dir)) ==> run.state().phase == Phase::Probe(
                        job.dir,
                    )
                })
                &&& after == if fields.header.entry_type == EntryType::Link
                    || fields.header.entry_type == EntryType::Symlink {
                    Set::empty()
                } else {
                    before
                }
            },
        },
{
    if let Ok(path) = fields.path_of() {
        law_destination_keeps_every_name(path, dst);
        law_destination_is_below(path, dst);
    }
}

/// Whether what is looked for and what is missing are the directory of the entry and the ones above
/// it, without a gap.
pub open spec fn is_chain(job: PlacedJob, state: PlacedState) -> bool {
    &&& state.missing.len() > 0 ==> state.missing[0] == job.dir
    &&& forall|i: int|
        0 < i < state.missing.len() ==> parent_of(state.missing[i - 1]) == Some(
            #[trigger] state.missing[i],
        )
    &&& state.phase matches Phase::Probe(path) ==> if state.missing.len() == 0 {
        path == job.dir
    } else {
        parent_of(state.missing.last()) == Some(path)
    }
}

/// What is looked for, and what is found missing and made, is always the directory of the entry and
/// the ones above it, one after the other without a gap.
pub proof fn law_missing_directories_are_a_chain(
    job: PlacedJob,
    state: PlacedState,
    event: Event<Seq<u8>>,
    memo: Set<Seq<u8>>,
)
    requires
        is_chain(job, state),
        placed_reachable(job, state),
        placed_expects(job, state, event),
    ensures
        is_chain(job, placed_start(job, memo)),
        is_chain(job, placed_react(job, state, event)),
{
    let next = placed_react(job, state, event);
    assert forall|i: int| 0 < i < next.missing.len() implies parent_of(next.missing[i - 1]) == Some(
        #[trigger] next.missing[i],
    ) by {
        if i < state.missing.len() {
            assert(parent_of(state.missing[i - 1]) == Some(state.missing[i]));
        } else {
            assert(state.missing.last() == state.missing[i - 1]);
        }
    }
}

/// Looking for the nearest directory that is there: one that is not there is noted as missing, and
/// the one above it is looked for next; one that is there ends the search with what was noted.
pub proof fn law_search_notes_what_is_missing(job: PlacedJob, state: PlacedState, path: Seq<u8>)
    requires
        state.phase == Phase::Probe(path),
    ensures
        placed_action(job, state) == Action::Probe(path),
        placed_react(job, state, Event::Exists(true)).missing == state.missing,
        placed_react(job, state, Event::Exists(false)).missing == state.missing.push(path),
        parent_of(path) matches Some(up) ==> placed_react(job, state, Event::Exists(false)).phase
            == Phase::Probe(up),
        ends_search(placed_react(job, state, Event::Exists(true))),
        parent_of(path) is None ==> ends_search(placed_react(job, state, Event::Exists(false))),
{
}

/// Whether it is at the outermost directory that is missing, to check the one above it where there
/// is one and to make it where there is none, or at the directory of the entry if none is missing.
pub open spec fn ends_search(state: PlacedState) -> bool {
    if state.missing.len() == 0 {
        state.phase is CheckDir
    } else {
        match parent_of(state.missing.last()) {
            Some(up) => state.phase == Phase::CheckAbove(up),
            None => state.phase is Create,
        }
    }
}

/// Every directory that is missing is made, the outermost first, each one after the one above it
/// has been found inside the destination; then the directory of the entry is checked in the same
/// way, and then the entry is unpacked. What the system reports against it, and a path outside the
/// destination, ends it, and it is told for what.
pub proof fn law_missing_directories_are_made(
    job: PlacedJob,
    state: PlacedState,
    path: Seq<u8>,
    kind: ErrorKind,
)
    requires
        placed_reachable(job, state),
    ensures
        ({
            let system = |inner: Option<Context<Seq<u8>>>, outer: Option<Context<Seq<u8>>>|
                Phase::Failed(Failure { cause: Cause::System, inner, outer });
            let outside = |outer: Option<Context<Seq<u8>>>|
                Phase::Failed(
                    Failure {
                        cause: Cause::Entry(EntryError::OutsideDestination),
                        inner: Some(Context::Outside(job.dst)),
                        outer,
                    },
                );
            let lies_inside = components_of(job.dst).is_prefix_of(components_of(path));
            let resolved = placed_react(job, state, Event::Resolved(path));
            let failed = placed_react(job, state, Event::Failed(kind));
            let made = placed_react(job, state, Event::Done);
            let parent = Some(Context::CreateParent(job.dir));
            match state.phase {
                Phase::CheckAbove(above) => {
                    &&& placed_action(job, state) == Action::Canonicalize(above)
                    &&& parent_of(state.missing.last()) == Some(above)
                    &&& resolved.missing == state.missing
                    &&& lies_inside ==> resolved.phase is Create
                    &&& !lies_inside ==> resolved.phase == outside(parent)
                    &&& failed.phase == system(Some(Context::Canonicalize(above)), parent)
                },
                Phase::Create => {
                    &&& placed_action(job, state) == Action::CreateDirAll(state.missing.last())
                    &&& made.missing == state.missing.drop_last()
                    &&& ends_search(made)
                    &&& failed.phase == system(None, parent)
                },
                Phase::CheckDir => {
                    &&& placed_action(job, state) == Action::Canonicalize(job.dir)
                    &&& lies_inside ==> resolved.phase is Unpack && resolved.progress == arrive(
                        job.job,
                        0,
                    )
                    &&& !lies_inside ==> resolved.phase == outside(None)
                    &&& failed.phase == system(Some(Context::Canonicalize(job.dir)), None)
                },
                _ => true,
            }
        }),
{
}

/// While the entry is unpacked, it goes as its own job does, and a failure of that job is told
/// together with the place that it was for.
pub proof fn law_entry_goes_as_its_job(job: PlacedJob, state: PlacedState, event: Event<Seq<u8>>)
    requires
        state.phase is Unpack,
    ensures
        placed_action(job, state) == action_of(job.job, state.progress),
        placed_react(job, state, event).phase is Unpack,
        placed_react(job, state, event).progress == react(job.job, state.progress, event),
        state.progress matches Progress::Failed(failure) ==> (placed_failure(
            job,
            state,
        ) matches Some(told) && told.cause == failure.cause && told.inner == failure.inner
            && told.outer == Some(Context::UnpackEntry(job.file))),
        !(state.progress is Failed) ==> placed_failure(job, state) is None,
{
}

/// A failure on the way to the directory is told as it came up.
pub proof fn law_failure_on_the_way_is_told(job: PlacedJob, state: PlacedState)
    requires
        !(state.phase is Unpack),
    ensures
        state.phase matches Phase::Failed(failure) ==> placed_failure(job, state) == Some(failure)
            && placed_action(job, state) is Fail,
        !(state.phase is Failed) ==> placed_failure(job, state) is None,
{
}

/// Only links empty the memo.
pub proof fn law_only_links_forget(fields: EntryFields, memo: Set<Seq<u8>>)
    ensures
        fields.header.entry_type == EntryType::Link || fields.header.entry_type
            == EntryType::Symlink ==> memo_at_start(fields, memo) == Set::<Seq<u8>>::empty(),
        fields.header.entry_type != EntryType::Link && fields.header.entry_type
            != EntryType::Symlink ==> memo_at_start(fields, memo) == memo,
{
}

/// The memo gets the directory of the entry exactly when it has been found inside the destination,
/// and keeps all it held.
pub proof fn law_memo_gets_the_checked_directory(
    job: PlacedJob,
    state: PlacedState,
    path: Seq<u8>,
    memo: Set<Seq<u8>>,
)
    requires
        state.phase is CheckDir,
    ensures
        components_of(job.dst).is_prefix_of(components_of(path)) ==> memo_after(
            job,
            state,
            Event::Resolved(path),
            memo,
        ) == memo.insert(memo_key(job.dir)),
        !components_of(job.dst).is_prefix_of(components_of(path)) ==> memo_after(
            job,
            state,
            Event::Resolved(path),
            memo,
        ) == memo,
{
}

/// What contracts say of a phase is the phase, and of a list of paths each one in its place.
pub proof fn law_phase_view_is_faithful(phase: Phase, list: Seq<Vec<u8>>)
    ensures
        match phase {
            Phase::Probe(path) => phase@ == Phase::Probe(path@),
            Phase::CheckAbove(path) => phase@ == Phase::CheckAbove(path@),
            Phase::Create => phase@ is Create,
            Phase::CheckDir => phase@ is CheckDir,
            Phase::Unpack => phase@ is Unpack,
            Phase::Failed(failure) => phase@ == Phase::Failed(failure@),
        },
        paths_of(list).len() == list.len(),
        forall|i: int| 0 <= i < list.len() ==> #[trigger] paths_of(list)[i] == list[i]@,
{
}

} // verus!
