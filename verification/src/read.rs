//! Reading the data of an entry.
//!
//! The data is a queue of segments. Reading takes the segment at the front, asks its source for
//! bytes, and goes on to the next one when the source has no more.
use crate::bytes::extend_bytes;
use crate::entry::{EntryFields, EntryIo};
use vstd::prelude::*;

verus! {

/// The most that is set aside before the length of the data is known for sure.
pub const MAX_PREALLOCATION: u64 = 131072;

/// What to do to read from an entry.
#[derive(Debug, Clone, Copy, PartialEq, Eq, Structural)]
pub enum ReadStep {
    /// Nothing: the read is over.
    Finished,
    /// Ask the source of this segment.
    Poll(EntryIo),
}

/// What an answer from the source of a segment means.
#[derive(Debug, Clone, Copy, PartialEq, Eq, Structural)]
pub enum ReadOutcome {
    /// The read is over, with bytes.
    Filled,
    /// The segment is over: try the next one.
    Again,
    /// The read is over, at the end of the entry.
    Finished,
    /// The archive ends within the segment.
    UnexpectedEof,
}

/// The segments that have not been read to their end, that being read first.
pub open spec fn pending(fields: EntryFields) -> Seq<EntryIo> {
    match fields.read_state {
        Some(io) => seq![io] + fields.data@,
        None => fields.data@,
    }
}

/// The number of bytes in a queue of segments.
pub open spec fn total(queue: Seq<EntryIo>) -> nat
    decreases queue.len(),
{
    if queue.len() == 0 {
        0
    } else {
        total(queue.drop_last()) + queue.last().left()
    }
}

/// A segment from which some bytes have been read.
pub open spec fn after_fill(io: EntryIo, filled: nat) -> EntryIo {
    match io {
        EntryIo::Pad(limit) => EntryIo::Pad((limit - filled) as u64),
        EntryIo::Data(limit) => EntryIo::Data((limit - filled) as u64),
    }
}

/// What is left to read is the segment that is being read, if there is one, and then those that
/// have not been started, in their order.
pub proof fn law_pending_is_all_segments(fields: EntryFields)
    ensures
        fields.read_state is None ==> pending(fields) == fields.data@,
        fields.read_state matches Some(io) ==> pending(fields).len() == fields.data@.len() + 1
            && pending(fields)[0] == io && pending(fields).skip(1) == fields.data@,
{
    if fields.read_state is Some {
        assert(pending(fields).skip(1) =~= fields.data@);
    }
}

/// A segment that has given bytes is the same segment with that many fewer left.
pub proof fn law_segment_shrinks_by_what_it_gave(limit: u64, filled: nat)
    requires
        filled <= limit,
    ensures
        EntryIo::Data(limit).left() == limit,
        EntryIo::Pad(limit).left() == limit,
        after_fill(EntryIo::Data(limit), filled) is Data,
        after_fill(EntryIo::Pad(limit), filled) is Pad,
        after_fill(EntryIo::Data(limit), filled).left() == limit - filled,
        after_fill(EntryIo::Pad(limit), filled).left() == limit - filled,
{
}

/// What an answer means: with bytes the read is over; without any, the archive has ended too early
/// if the segment still owes bytes of it, and else the next segment is tried, or the entry is at
/// its end if there is none. The answer changes nothing of the entry but what is left to read.
pub proof fn law_answer_outcomes(fields: EntryFields, filled: nat)
    requires
        fields.read_state is Some,
        filled <= fields.read_state.unwrap().left(),
    ensures
        filled > 0 ==> outcome_of(fields, filled) == ReadOutcome::Filled,
        filled == 0 ==> (match fields.read_state.unwrap() {
            EntryIo::Data(limit) if limit > 0 => outcome_of(fields, filled)
                == ReadOutcome::UnexpectedEof,
            _ => outcome_of(fields, filled) == if fields.data@.len() == 0 {
                ReadOutcome::Finished
            } else {
                ReadOutcome::Again
            },
        }),
        after_answer(fields, filled) == (EntryFields {
            read_state: after_answer(fields, filled).read_state,
            ..fields
        }),
        filled > 0 ==> (after_answer(fields, filled).read_state matches Some(io) && io.left()
            == fields.read_state.unwrap().left() - filled && io is Data
            == fields.read_state.unwrap() is Data),
        outcome_of(fields, filled) == ReadOutcome::UnexpectedEof ==> after_answer(fields, filled)
            == fields,
        outcome_of(fields, filled) == ReadOutcome::Again || outcome_of(fields, filled)
            == ReadOutcome::Finished ==> after_answer(fields, filled).read_state is None,
        pending_after(fields, filled) == pending(after_answer(fields, filled)),
{
    assert(pending_after(fields, filled) =~= pending(after_answer(fields, filled)));
}

/// Any number of bytes from one up to what is left can come from a segment, and none can come from
/// one of data, or from a hole at its end.
pub proof fn law_possible_answers(io: EntryIo, filled: nat)
    ensures
        possible_answer(io, filled) <==> filled <= io.left() && (filled > 0 || io is Data
            || io.left() == 0),
{
}

/// The number of bytes in segments is the sum of what is left in each.
pub proof fn law_total_is_the_sum(queue: Seq<EntryIo>, io: EntryIo)
    ensures
        total(Seq::empty()) == 0,
        total(queue.push(io)) == total(queue) + io.left(),
{
    assert(queue.push(io).drop_last() =~= queue);
}

/// Whether a segment promises bytes that must be in the archive.
pub open spec fn expects_data(io: EntryIo) -> bool {
    io is Data && io.left() > 0
}

/// What an empty answer from a segment means, given the segments after it.
pub open spec fn empty_answer(io: EntryIo, rest: Seq<EntryIo>) -> ReadOutcome {
    if expects_data(io) {
        ReadOutcome::UnexpectedEof
    } else if rest.len() == 0 {
        ReadOutcome::Finished
    } else {
        ReadOutcome::Again
    }
}

/// What it means that the source of the segment being read has given this many bytes.
pub open spec fn outcome_of(fields: EntryFields, filled: nat) -> ReadOutcome {
    if filled > 0 {
        ReadOutcome::Filled
    } else {
        empty_answer(fields.read_state.unwrap(), fields.data@)
    }
}

/// The entry after the source of the segment being read has given this many bytes.
pub open spec fn after_answer(fields: EntryFields, filled: nat) -> EntryFields {
    if filled > 0 {
        EntryFields {
            read_state: Some(after_fill(fields.read_state.unwrap(), filled)),
            ..fields
        }
    } else if outcome_of(fields, filled) == ReadOutcome::UnexpectedEof {
        fields
    } else {
        EntryFields { read_state: None, ..fields }
    }
}

/// The segments that are then left.
pub open spec fn pending_after(fields: EntryFields, filled: nat) -> Seq<EntryIo> {
    if filled > 0 {
        pending(fields).update(0, after_fill(fields.read_state.unwrap(), filled))
    } else if outcome_of(fields, filled) == ReadOutcome::UnexpectedEof {
        pending(fields)
    } else {
        pending(fields).drop_first()
    }
}

impl EntryFields {
    /// Starts, or goes on with, a read into a buffer with the given room. A read without room is
    /// over at once and changes nothing.
    pub fn begin_read(&mut self, room: usize) -> (step: ReadStep)
        ensures
            room == 0 ==> step == ReadStep::Finished && *final(self) == *old(self),
            room > 0 ==> step == (if pending(*old(self)).len() == 0 {
                ReadStep::Finished
            } else {
                ReadStep::Poll(pending(*old(self))[0])
            }),
            room > 0 && pending(*old(self)).len() > 0 ==> final(self).read_state == Some(
                pending(*old(self))[0],
            ),
            pending(*final(self)) == pending(*old(self)),
            *final(self) == (EntryFields {
                data: final(self).data,
                read_state: final(self).read_state,
                ..*old(self)
            }),
    {
        if room == 0 {
            return ReadStep::Finished;
        }
        if self.read_state.is_none() {
            let ghost queue = self.data@;
            self.read_state = self.data.pop_front();
            proof {
                if queue.len() > 0 {
                    assert(seq![queue[0]] + self.data@ =~= queue);
                }
            }
        }
        match self.read_state {
            Some(io) => ReadStep::Poll(io),
            None => ReadStep::Finished,
        }
    }

    /// Takes in how many bytes the source of the segment being read has given.
    pub fn end_read(&mut self, filled: u64) -> (outcome: ReadOutcome)
        requires
            old(self).read_state is Some,
            filled <= old(self).read_state.unwrap().left(),
        ensures
            outcome == outcome_of(*old(self), filled as nat),
            *final(self) == after_answer(*old(self), filled as nat),
            pending(*final(self)) == pending_after(*old(self), filled as nat),
    {
        let ghost queue = pending(*self);
        if let Some(io) = self.read_state {
            if filled > 0 {
                self.read_state = Some(
                    match io {
                        EntryIo::Pad(limit) => EntryIo::Pad(limit - filled),
                        EntryIo::Data(limit) => EntryIo::Data(limit - filled),
                    },
                );
                assert(pending(*self) =~= queue.update(0, after_fill(io, filled as nat)));
                return ReadOutcome::Filled;
            }
            if let EntryIo::Data(limit) = io {
                if limit > 0 {
                    return ReadOutcome::UnexpectedEof;
                }
            }
            self.read_state = None;
            assert(pending(*self) =~= queue.drop_first());
        }
        if self.data.len() == 0 {
            ReadOutcome::Finished
        } else {
            ReadOutcome::Again
        }
    }

    /// How much to set aside for the data of the entry.
    pub fn preallocation(&self) -> (capacity: usize)
        ensures
            capacity == if self.size <= MAX_PREALLOCATION {
                self.size
            } else {
                MAX_PREALLOCATION
            },
    {
        let capacity: u64 = if self.size <= MAX_PREALLOCATION {
            self.size
        } else {
            MAX_PREALLOCATION
        };
        capacity as usize
    }
}

/// Takes in the next piece of the data that is read to its end. An empty piece is the end: the
/// result is then the length of all there is.
pub fn read_all_step(out: &mut Vec<u8>, piece: &[u8]) -> (finished: Option<usize>)
    ensures
        final(out)@ == old(out)@ + piece@,
        finished == if piece@.len() == 0 {
            Some(old(out)@.len() as usize)
        } else {
            None
        },
{
    if piece.len() == 0 {
        assert(out@ + piece@ =~= out@);
        return Some(out.len());
    }
    extend_bytes(out, piece);
    None
}

/// Reading all the data of an entry.
pub struct ReadAll {
    contents: Vec<u8>,
    whole: Ghost<nat>,
}

impl View for ReadAll {
    type V = Seq<u8>;

    closed spec fn view(&self) -> Seq<u8> {
        self.contents@
    }
}

/// Whether the source of a segment can give this many bytes: a hole that is not at its end always
/// gives something.
pub open spec fn possible_answer(io: EntryIo, filled: nat) -> bool {
    filled <= io.left() && (io is Pad && io.left() > 0 ==> filled > 0)
}

impl EntryFields {
    /// Starts reading all the data that is left. Nothing of it has been read yet.
    pub fn read_all(&self) -> (run: ReadAll)
        ensures
            run@ == Seq::<u8>::empty(),
            run.whole() == total(pending(*self)),
            run.is_at(*self),
    {
        ReadAll {
            contents: Vec::with_capacity(self.preallocation()),
            whole: Ghost(total(pending(*self))),
        }
    }
}

impl ReadAll {
    /// How many bytes there are to read in all.
    pub closed spec fn whole(&self) -> nat {
        self.whole@
    }

    /// Whether what was read and what is left of the entry make up all there is to read.
    pub open spec fn is_at(&self, fields: EntryFields) -> bool {
        self@.len() + total(pending(fields)) == self.whole()
    }

    /// What to do next: it is over where nothing is left.
    pub fn action(&self, fields: &mut EntryFields) -> (step: ReadStep)
        ensures
            step == if pending(*old(fields)).len() == 0 {
                ReadStep::Finished
            } else {
                ReadStep::Poll(pending(*old(fields))[0])
            },
            step is Poll ==> final(fields).read_state == Some(pending(*old(fields))[0]),
            self.is_at(*old(fields)) ==> self.is_at(*final(fields)),
            self.is_at(*old(fields)) && step is Finished ==> self@.len() == self.whole(),
            pending(*final(fields)) == pending(*old(fields)),
            *final(fields) == (EntryFields {
                data: final(fields).data,
                read_state: final(fields).read_state,
                ..*old(fields)
            }),
    {
        fields.begin_read(1)
    }

    /// Takes in what the source of the segment being read has given. At the end of the entry all of
    /// it has been read; where the archive ends too early, some of it is missing.
    pub fn report(&mut self, fields: &mut EntryFields, piece: &[u8]) -> (outcome: ReadOutcome)
        requires
            old(fields).read_state is Some,
            piece@.len() <= old(fields).read_state.unwrap().left(),
        ensures
            final(self)@ == old(self)@ + piece@,
            outcome == outcome_of(*old(fields), piece@.len()),
            *final(fields) == after_answer(*old(fields), piece@.len()),
            pending(*final(fields)) == pending_after(*old(fields), piece@.len()),
            final(self).whole() == old(self).whole(),
            old(self).is_at(*old(fields)) && possible_answer(
                old(fields).read_state.unwrap(),
                piece@.len(),
            ) ==> {
                &&& final(self).is_at(*final(fields))
                &&& outcome == ReadOutcome::Finished ==> final(self)@.len() == final(self).whole()
                &&& outcome == ReadOutcome::UnexpectedEof ==> final(self)@.len()
                    < final(self).whole()
            },
    {
        proof {
            if possible_answer(fields.read_state.unwrap(), piece@.len()) {
                law_read_all_keeps_count(*fields, piece@.len());
            }
        }
        extend_bytes(&mut self.contents, piece);
        fields.end_read(piece.len() as u64)
    }

    /// What was read.
    pub fn into_contents(self) -> (contents: Vec<u8>)
        ensures
            contents@ == self@,
    {
        self.contents
    }
}

/// Each answer moves bytes from what is left to what was read and loses none, unless it reports
/// that the archive has ended too early; when the end of the entry is reported, nothing is left.
/// A hole that is not at its end always gives something.
pub proof fn law_read_all_keeps_count(fields: EntryFields, filled: nat)
    requires
        fields.read_state is Some,
        possible_answer(fields.read_state.unwrap(), filled),
    ensures
        filled + total(pending_after(fields, filled)) == total(pending(fields)),
        outcome_of(fields, filled) == ReadOutcome::Finished ==> pending_after(fields, filled).len()
            == 0,
        outcome_of(fields, filled) == ReadOutcome::UnexpectedEof ==> total(pending(fields)) > 0,
{
    let queue = pending(fields);
    let io = fields.read_state.unwrap();
    lemma_total_first(queue);
    if filled > 0 {
        let next = queue.update(0, after_fill(io, filled));
        lemma_total_first(next);
        assert(next.drop_first() =~= queue.drop_first());
    }
}

/// The way a whole read can end.
pub enum Ending {
    /// At the end of the entry.
    Complete,
    /// With an error, because the archive ends too early.
    Truncated,
    /// It has not ended yet.
    Open,
}

/// What comes of reading a queue of segments whose sources answer with these numbers of bytes:
/// how the reading ends, how many bytes were delivered, and what is left.
pub open spec fn read_run(queue: Seq<EntryIo>, answers: Seq<nat>) -> (Ending, nat, Seq<EntryIo>)
    decreases answers.len(),
{
    if queue.len() == 0 {
        (Ending::Complete, 0, queue)
    } else if answers.len() == 0 {
        (Ending::Open, 0, queue)
    } else {
        let io = queue[0];
        let answer = answers[0];
        let later = answers.drop_first();
        if answer > 0 {
            let (ending, sum, left) = read_run(queue.update(0, after_fill(io, answer)), later);
            (ending, sum + answer, left)
        } else if expects_data(io) {
            (Ending::Truncated, 0, queue)
        } else {
            read_run(queue.drop_first(), later)
        }
    }
}

/// Whether sources can give these answers: never more than is left, and always something for a
/// hole that is not at its end.
pub open spec fn possible_answers(queue: Seq<EntryIo>, answers: Seq<nat>) -> bool
    decreases answers.len(),
{
    queue.len() == 0 || answers.len() == 0 || {
        let io = queue[0];
        let answer = answers[0];
        let later = answers.drop_first();
        &&& answer <= io.left()
        &&& io is Pad && io.left() > 0 ==> answer > 0
        &&& if answer > 0 {
            possible_answers(queue.update(0, after_fill(io, answer)), later)
        } else {
            expects_data(io) || possible_answers(queue.drop_first(), later)
        }
    }
}

/// The total is the first segment and the total of the others.
pub proof fn lemma_total_first(queue: Seq<EntryIo>)
    requires
        queue.len() > 0,
    ensures
        total(queue) == queue[0].left() + total(queue.drop_first()),
    decreases queue.len(),
{
    if queue.len() > 1 {
        lemma_total_first(queue.drop_last());
        assert(queue.drop_last().drop_first() =~= queue.drop_first().drop_last());
    } else {
        assert(queue.drop_last() =~= Seq::empty());
        assert(queue.drop_first() =~= Seq::empty());
    }
}

/// In whatever pieces an entry is read, its bytes are neither lost nor made up: what was
/// delivered and what is left make up the entry. The end of the entry is reported exactly when all
/// its bytes have been delivered; a reading cut short by the end of the archive is missing some.
pub proof fn law_reading_is_complete(queue: Seq<EntryIo>, answers: Seq<nat>)
    requires
        possible_answers(queue, answers),
    ensures
        ({
            let (ending, delivered, left) = read_run(queue, answers);
            &&& delivered + total(left) == total(queue)
            &&& ending is Complete ==> delivered == total(queue)
            &&& ending is Truncated ==> delivered < total(queue)
        }),
    decreases answers.len(),
{
    if queue.len() > 0 && answers.len() > 0 {
        let io = queue[0];
        let answer = answers[0];
        let later = answers.drop_first();
        lemma_total_first(queue);
        if answer > 0 {
            let next = queue.update(0, after_fill(io, answer));
            lemma_total_first(next);
            assert(next.drop_first() =~= queue.drop_first());
            law_reading_is_complete(next, later);
        } else if !expects_data(io) {
            law_reading_is_complete(queue.drop_first(), later);
        }
    }
}

/// A run goes as the reads of an entry do: an answer has the outcome of
/// [`end_read`](EntryFields::end_read), and the rest of the run reads what is left.
pub proof fn law_run_follows_reads(fields: EntryFields, filled: nat, later: Seq<nat>)
    requires
        fields.read_state is Some,
        filled <= fields.read_state.unwrap().left(),
    ensures
        ({
            let whole = read_run(pending(fields), seq![filled] + later);
            let rest = read_run(pending_after(fields, filled), later);
            match outcome_of(fields, filled) {
                ReadOutcome::UnexpectedEof => whole == (
                    Ending::Truncated,
                    0nat,
                    pending(fields),
                ),
                _ => whole == (rest.0, rest.1 + filled, rest.2),
            }
        }),
{
    let answers = seq![filled] + later;
    assert(answers.drop_first() =~= later);
    assert(pending(fields)[0] == fields.read_state.unwrap());
}

/// Pieces put together.
pub open spec fn concat(pieces: Seq<Seq<u8>>) -> Seq<u8>
    decreases pieces.len(),
{
    if pieces.len() == 0 {
        Seq::empty()
    } else {
        pieces[0] + concat(pieces.drop_first())
    }
}

/// Whether these are the bytes of each segment: as many as are left, and zeros for a hole.
pub open spec fn holds(queue: Seq<EntryIo>, bytes: Seq<Seq<u8>>) -> bool {
    &&& bytes.len() == queue.len()
    &&& forall|i: int| 0 <= i < queue.len() ==> (#[trigger] bytes[i]).len() == queue[i].left()
    &&& forall|i: int, j: int|
        0 <= i < queue.len() && queue[i] is Pad && 0 <= j < bytes[i].len()
            ==> #[trigger] bytes[i][j] == 0
}

/// The bytes of each segment after the first one has given some: it goes if it gives none.
pub open spec fn bytes_after(bytes: Seq<Seq<u8>>, filled: nat) -> Seq<Seq<u8>> {
    if filled > 0 {
        bytes.update(0, bytes[0].skip(filled as int))
    } else {
        bytes.drop_first()
    }
}

/// Whether the source of a segment with these bytes can give this many: it gives none only at its
/// end.
pub open spec fn faithful(bytes: Seq<u8>, filled: nat) -> bool {
    filled <= bytes.len() && (filled == 0 ==> bytes.len() == 0)
}

/// The first segment gives the bytes that come first, and the others stay.
proof fn lemma_first_gives(queue: Seq<EntryIo>, bytes: Seq<Seq<u8>>, filled: nat)
    requires
        queue.len() > 0,
        holds(queue, bytes),
        faithful(bytes[0], filled),
    ensures
        filled > 0 ==> holds(
            queue.update(0, after_fill(queue[0], filled)),
            bytes_after(bytes, filled),
        ),
        filled == 0 ==> holds(queue.drop_first(), bytes_after(bytes, filled)),
        filled <= concat(bytes).len(),
        bytes[0].take(filled as int) == concat(bytes).take(filled as int),
        concat(bytes_after(bytes, filled)) == concat(bytes).skip(filled as int),
{
    let left = bytes_after(bytes, filled);
    let rest = concat(bytes.drop_first());
    assert(concat(bytes) == bytes[0] + rest);
    assert(bytes[0].take(filled as int) =~= concat(bytes).take(filled as int));
    if filled > 0 {
        let next = queue.update(0, after_fill(queue[0], filled));
        assert(left.drop_first() =~= bytes.drop_first());
        assert(concat(left) =~= concat(bytes).skip(filled as int));
        assert forall|i: int| 0 <= i < next.len() implies (#[trigger] left[i]).len()
            == next[i].left() by {
            assert(bytes[i].len() == queue[i].left());
        }
        assert forall|i: int, j: int|
            0 <= i < next.len() && next[i] is Pad && 0 <= j < left[i].len()
            implies #[trigger] left[i][j] == 0 by {
            if i == 0 {
                assert(bytes[0][j + filled] == 0);
            } else {
                assert(bytes[i][j] == 0);
            }
        }
    } else {
        let next = queue.drop_first();
        assert(concat(left) =~= concat(bytes).skip(0));
        assert forall|i: int| 0 <= i < next.len() implies (#[trigger] left[i]).len()
            == next[i].left() by {
            assert(bytes[i + 1].len() == queue[i + 1].left());
        }
        assert forall|i: int, j: int|
            0 <= i < next.len() && next[i] is Pad && 0 <= j < left[i].len()
            implies #[trigger] left[i][j] == 0 by {
            assert(bytes[i + 1][j] == 0);
        }
    }
}

/// An answer delivers the bytes of the entry that come first, and what is left afterwards is all
/// the others, in their order. The archive does not seem to end too early, and at the end of the
/// entry nothing is left. Where a source has no answer yet, or an error in place of one, nothing
/// is reported and nothing changes: [`begin_read`](EntryFields::begin_read) keeps what is left.
pub proof fn law_answer_follows_segments(fields: EntryFields, bytes: Seq<Seq<u8>>, filled: nat)
    requires
        fields.read_state is Some,
        holds(pending(fields), bytes),
        faithful(bytes[0], filled),
    ensures
        holds(pending_after(fields, filled), bytes_after(bytes, filled)),
        bytes[0].take(filled as int) + concat(bytes_after(bytes, filled)) == concat(bytes),
        bytes[0].take(filled as int) == concat(bytes).take(filled as int),
        outcome_of(fields, filled) != ReadOutcome::UnexpectedEof,
        outcome_of(fields, filled) == ReadOutcome::Filled <==> filled > 0,
        outcome_of(fields, filled) == ReadOutcome::Finished ==> concat(
            bytes_after(bytes, filled),
        ).len() == 0,
{
    let queue = pending(fields);
    assert(queue[0] == fields.read_state.unwrap());
    assert(bytes[0].len() == queue[0].left());
    lemma_first_gives(queue, bytes, filled);
    assert(concat(bytes).take(filled as int) + concat(bytes).skip(filled as int) =~= concat(bytes));
}

/// Whether sources with these bytes can give these answers.
pub open spec fn faithful_answers(bytes: Seq<Seq<u8>>, answers: Seq<nat>) -> bool
    decreases answers.len(),
{
    bytes.len() == 0 || answers.len() == 0 || (faithful(bytes[0], answers[0]) && faithful_answers(
        bytes_after(bytes, answers[0]),
        answers.drop_first(),
    ))
}

/// The bytes that answers deliver.
pub open spec fn delivered(bytes: Seq<Seq<u8>>, answers: Seq<nat>) -> Seq<u8>
    decreases answers.len(),
{
    if bytes.len() == 0 || answers.len() == 0 {
        Seq::empty()
    } else {
        bytes[0].take(answers[0] as int) + delivered(
            bytes_after(bytes, answers[0]),
            answers.drop_first(),
        )
    }
}

/// The bytes of each segment after answers.
pub open spec fn bytes_left(bytes: Seq<Seq<u8>>, answers: Seq<nat>) -> Seq<Seq<u8>>
    decreases answers.len(),
{
    if bytes.len() == 0 || answers.len() == 0 {
        bytes
    } else {
        bytes_left(bytes_after(bytes, answers[0]), answers.drop_first())
    }
}

/// In whatever pieces an entry is read, by one read or by many, what was delivered followed by what
/// is left is what there was; holes give zeros. A single read is a run of answers that are empty
/// but for the last.
pub proof fn law_reads_follow_segments(
    queue: Seq<EntryIo>,
    bytes: Seq<Seq<u8>>,
    answers: Seq<nat>,
)
    requires
        holds(queue, bytes),
        faithful_answers(bytes, answers),
    ensures
        ({
            let (ending, sum, left) = read_run(queue, answers);
            &&& delivered(bytes, answers) + concat(bytes_left(bytes, answers)) == concat(bytes)
            &&& delivered(bytes, answers).len() == sum
            &&& holds(left, bytes_left(bytes, answers))
            &&& !(ending is Truncated)
            &&& ending is Complete ==> delivered(bytes, answers) == concat(bytes)
        }),
    decreases answers.len(),
{
    if queue.len() > 0 && answers.len() > 0 {
        let answer = answers[0];
        let later = answers.drop_first();
        let after = bytes_after(bytes, answer);
        assert(bytes[0].len() == queue[0].left());
        lemma_first_gives(queue, bytes, answer);
        let next = if answer > 0 {
            queue.update(0, after_fill(queue[0], answer))
        } else {
            queue.drop_first()
        };
        law_reads_follow_segments(next, after, later);
        let piece = bytes[0].take(answer as int);
        assert(piece + (delivered(after, later) + concat(bytes_left(after, later))) =~= delivered(
            bytes,
            answers,
        ) + concat(bytes_left(bytes, answers)));
        assert(piece + concat(after) =~= concat(bytes)) by {
            assert(concat(bytes).take(answer as int) + concat(bytes).skip(answer as int)
                =~= concat(bytes));
        }
        if read_run(queue, answers).0 is Complete {
            assert(delivered(bytes, answers) =~= concat(bytes));
        }
    } else {
        assert(delivered(bytes, answers) + concat(bytes_left(bytes, answers)) =~= concat(bytes));
        if queue.len() == 0 {
            assert(concat(bytes) =~= Seq::empty());
        }
    }
}

/// What [`read_all_step`] makes of `out` with one piece after the other.
pub open spec fn out_after(out: Seq<u8>, pieces: Seq<Seq<u8>>) -> Seq<u8>
    decreases pieces.len(),
{
    if pieces.len() == 0 {
        out
    } else {
        out_after(out, pieces.drop_last()) + pieces.last()
    }
}

/// Pieces with another one at the end are put together with it at the end.
proof fn lemma_concat_last(pieces: Seq<Seq<u8>>)
    requires
        pieces.len() > 0,
    ensures
        concat(pieces) == concat(pieces.drop_last()) + pieces.last(),
    decreases pieces.len(),
{
    if pieces.len() == 1 {
        assert(pieces.drop_first() =~= Seq::empty());
        assert(pieces.drop_last() =~= Seq::empty());
        assert(concat(pieces) =~= concat(pieces.drop_last()) + pieces.last());
    } else {
        let rest = pieces.drop_first();
        lemma_concat_last(rest);
        assert(rest.drop_last() =~= pieces.drop_last().drop_first());
        assert(concat(pieces) =~= concat(pieces.drop_last()) + pieces.last());
    }
}

/// After any number of pieces, wherever the reading is interrupted, `out` holds what it held before
/// and then all the pieces, and nothing else. So a reading that goes on with the same `out` after
/// an interruption ends with what it would have without one.
pub proof fn law_pieces_add_up(out: Seq<u8>, pieces: Seq<Seq<u8>>, later: Seq<Seq<u8>>)
    ensures
        out_after(out, pieces) == out + concat(pieces),
        out_after(out_after(out, pieces), later) == out + concat(pieces + later),
    decreases pieces.len() + later.len(),
{
    if later.len() > 0 {
        let front = later.drop_last();
        law_pieces_add_up(out, pieces, front);
        lemma_concat_last(pieces + later);
        assert((pieces + later).drop_last() =~= pieces + front);
        assert(out + concat(pieces + front) + later.last() =~= out + concat(pieces + later));
    } else {
        assert(pieces + later =~= pieces);
        if pieces.len() > 0 {
            law_pieces_add_up(out, pieces.drop_last(), later);
            lemma_concat_last(pieces);
            assert(out + concat(pieces.drop_last()) + pieces.last() =~= out + concat(pieces));
        } else {
            assert(out + concat(pieces) =~= out);
        }
    }
}

} // verus!
