//! Listening to the cache events of an engine: batches carry numbers, and what was
//! missed is asked for again.

use vstd::prelude::*;
use vstd::string::StringExecFns;

use crate::protocols::{EventDataView, RouterEvent, WorkerId, WorkerWithDpRank};
use crate::text::{append_decimal, decimal};
use crate::zmq_wire::filter::{normalizes, ZmqEventNormalizer};
use crate::zmq_wire::types::RawKvEvent;

verus! {

/// The watermark before any batch was applied.
pub const WATERMARK_UNSET: u64 = u64::MAX;

/// Which batch was applied last.
#[derive(Clone, Copy, Debug, PartialEq, Eq, Structural)]
pub enum CursorState {
    /// None so far.
    Initial,
    Live(u64),
}

/// What the number of a batch says.
#[derive(Clone, Copy, Debug, PartialEq, Eq, Structural)]
pub enum CursorObservation {
    /// It is the first batch.
    Initial { got: u64 },
    /// It follows the last one.
    Contiguous { got: u64 },
    /// There were others before it.
    Gap { expected: u64, got: u64 },
    /// It was applied already.
    Stale { got: u64, last_applied: Option<u64> },
}

/// The cursor that a watermark stands for.
pub open spec fn cursor_of(watermark: u64) -> CursorState {
    if watermark == WATERMARK_UNSET {
        CursorState::Initial
    } else {
        CursorState::Live(watermark)
    }
}

/// The cursor that a watermark stands for.
pub fn cursor_from_watermark(watermark: u64) -> (cursor: CursorState)
    ensures
        cursor == cursor_of(watermark),
{
    if watermark == WATERMARK_UNSET {
        CursorState::Initial
    } else {
        CursorState::Live(watermark)
    }
}

impl CursorState {
    /// What the number of a batch says.
    pub open spec fn spec_observe(self, got: u64) -> CursorObservation {
        match self {
            CursorState::Initial => CursorObservation::Initial { got },
            CursorState::Live(last) => if got <= last {
                CursorObservation::Stale { got, last_applied: Some(last) }
            } else if got == last + 1 {
                CursorObservation::Contiguous { got }
            } else {
                CursorObservation::Gap { expected: (last + 1) as u64, got }
            },
        }
    }

    /// What the number of a batch says.
    pub fn observe(self, got: u64) -> (observation: CursorObservation)
        ensures
            observation == self.spec_observe(got),
    {
        match self {
            CursorState::Initial => CursorObservation::Initial { got },
            CursorState::Live(last) => if got <= last {
                CursorObservation::Stale { got, last_applied: Some(last) }
            } else if got - last == 1 {
                CursorObservation::Contiguous { got }
            } else {
                CursorObservation::Gap { expected: last + 1, got }
            },
        }
    }
}

/// No batch is applied again: once one was, it and all before it are stale.
pub proof fn applied_batches_are_stale(applied: u64, got: u64)
    requires
        applied != WATERMARK_UNSET,
        got <= applied,
    ensures
        cursor_of(applied).spec_observe(got) == (CursorObservation::Stale {
            got,
            last_applied: Some(applied),
        }),
{
}

/// The number that bytes spell, the most significant first.
pub open spec fn be_value(bytes: Seq<u8>) -> nat
    decreases bytes.len(),
{
    if bytes.len() == 0 {
        0
    } else {
        be_value(bytes.drop_last()) * 256 + bytes.last() as nat
    }
}

spec fn pow256(n: nat) -> nat
    decreases n,
{
    if n == 0 {
        1
    } else {
        pow256((n - 1) as nat) * 256
    }
}

/// The number of a batch, which takes eight bytes.
pub fn seq_of_frame(frame: &Vec<u8>) -> (seq: Option<u64>)
    ensures
        seq is Some <==> frame@.len() == 8,
        seq matches Some(n) ==> n == be_value(frame@),
{
    if frame.len() != 8 {
        return None;
    }
    let mut value: u64 = 0;
    assert(frame@.take(0) =~= Seq::<u8>::empty());
    for i in 0..8usize
        invariant
            frame@.len() == 8,
            value == be_value(frame@.take(i as int)),
            value < pow256(i as nat),
    {
        proof {
            reveal_with_fuel(pow256, 9);
            assert(frame@.take(i + 1).drop_last() =~= frame@.take(i as int));
            assert(pow256((i + 1) as nat) == pow256(i as nat) * 256);
            assert(pow256((i + 1) as nat) <= pow256(8)) by {
                reveal_with_fuel(pow256, 9);
            }
            assert(pow256(8) == 0x1_0000_0000_0000_0000) by {
                reveal_with_fuel(pow256, 9);
            }
        }
        value = value * 256 + frame[i] as u64;
    }
    assert(frame@.take(8) =~= frame@);
    Some(value)
}

/// The bytes of the number of a batch.
pub fn seq_frame(seq: u64) -> (frame: Vec<u8>)
    ensures
        frame@.len() == 8,
        be_value(frame@) == seq,
{
    let q1: u64 = seq / 256;
    let q2: u64 = q1 / 256;
    let q3: u64 = q2 / 256;
    let q4: u64 = q3 / 256;
    let q5: u64 = q4 / 256;
    let q6: u64 = q5 / 256;
    let q7: u64 = q6 / 256;
    let mut frame: Vec<u8> = Vec::new();
    frame.push((q7 % 256) as u8);
    frame.push((q6 % 256) as u8);
    frame.push((q5 % 256) as u8);
    frame.push((q4 % 256) as u8);
    frame.push((q3 % 256) as u8);
    frame.push((q2 % 256) as u8);
    frame.push((q1 % 256) as u8);
    frame.push((seq % 256) as u8);
    proof {
        let f = frame@;
        assert(q7 < 256);
        assert(f.take(1).drop_last() =~= Seq::<u8>::empty());
        assert(f.take(2).drop_last() =~= f.take(1));
        assert(f.take(3).drop_last() =~= f.take(2));
        assert(f.take(4).drop_last() =~= f.take(3));
        assert(f.take(5).drop_last() =~= f.take(4));
        assert(f.take(6).drop_last() =~= f.take(5));
        assert(f.take(7).drop_last() =~= f.take(6));
        assert(f.drop_last() =~= f.take(7));
        assert(be_value(f.take(1).drop_last()) == 0);
        assert(be_value(f.take(1)) == q7);
        assert(be_value(f.take(2)) == q6);
        assert(be_value(f.take(3)) == q5);
        assert(be_value(f.take(4)) == q4);
        assert(be_value(f.take(5)) == q3);
        assert(be_value(f.take(6)) == q2);
        assert(be_value(f.take(7)) == q1);
    }
    frame
}

/// The message that asks for batches from a number on.
pub fn replay_request(start_seq: u64) -> (frames: Vec<Vec<u8>>)
    ensures
        frames@.len() == 2,
        frames@[0]@ == Seq::<u8>::empty(),
        frames@[1]@.len() == 8,
        be_value(frames@[1]@) == start_seq,
{
    let mut frames: Vec<Vec<u8>> = Vec::new();
    frames.push(Vec::new());
    frames.push(seq_frame(start_seq));
    frames
}

/// Why a replay did not bring what was asked for.
#[derive(Clone, Copy, Debug, PartialEq, Eq, Structural)]
pub enum ReplayRecoveryFailureReason {
    Empty,
    StartedAfterRequested,
    NonContiguous,
    EndedBeforeTarget,
}

impl ReplayRecoveryFailureReason {
    /// The name of the reason.
    pub open spec fn name(self) -> Seq<char> {
        match self {
            ReplayRecoveryFailureReason::Empty => "empty"@,
            ReplayRecoveryFailureReason::StartedAfterRequested => "started_after_requested"@,
            ReplayRecoveryFailureReason::NonContiguous => "non_contiguous"@,
            ReplayRecoveryFailureReason::EndedBeforeTarget => "ended_before_target"@,
        }
    }

    /// The name of the reason.
    pub fn as_str(self) -> (s: &'static str)
        ensures
            s@ == self.name(),
    {
        match self {
            ReplayRecoveryFailureReason::Empty => "empty",
            ReplayRecoveryFailureReason::StartedAfterRequested => "started_after_requested",
            ReplayRecoveryFailureReason::NonContiguous => "non_contiguous",
            ReplayRecoveryFailureReason::EndedBeforeTarget => "ended_before_target",
        }
    }
}

/// The number that follows another, or the largest.
pub open spec fn following(seq: u64) -> u64 {
    if seq < u64::MAX {
        (seq + 1) as u64
    } else {
        u64::MAX
    }
}

/// The number that is expected after some batches of a replay.
pub open spec fn expected_after(start_seq: u64, batches: Seq<u64>) -> u64 {
    if batches.len() == 0 {
        start_seq
    } else {
        following(batches.last())
    }
}

/// Whether each batch of a replay is the one that was expected.
pub open spec fn contiguous(start_seq: u64, batches: Seq<u64>) -> bool {
    forall|i: int|
        0 <= i < batches.len() ==> #[trigger] batches[i] == expected_after(
            start_seq,
            batches.take(i),
        )
}

/// Why a replay did not bring the batches from one number up to another, if it did
/// not.
pub open spec fn replay_failure(start_seq: u64, end_seq: u64, batches: Seq<u64>) -> Option<
    ReplayRecoveryFailureReason,
> {
    if start_seq >= end_seq {
        None
    } else if batches.len() == 0 {
        Some(ReplayRecoveryFailureReason::Empty)
    } else if batches[0] > start_seq {
        Some(ReplayRecoveryFailureReason::StartedAfterRequested)
    } else if !contiguous(start_seq, batches) {
        Some(ReplayRecoveryFailureReason::NonContiguous)
    } else if batches.last() < end_seq - 1 {
        Some(ReplayRecoveryFailureReason::EndedBeforeTarget)
    } else {
        None
    }
}

/// In a replay without failure every batch that was asked for came.
pub proof fn complete_replay_has_every_batch(
    start_seq: u64,
    end_seq: u64,
    batches: Seq<u64>,
    seq: u64,
)
    requires
        replay_failure(start_seq, end_seq, batches) is None,
        start_seq <= seq < end_seq,
    ensures
        batches.contains(seq),
{
    assert forall|i: int| 0 <= i < batches.len() && i <= seq - start_seq implies #[trigger] batches[i]
        == start_seq + i by {
        lemma_contiguous_at(start_seq, batches, seq, i);
    }
    let at = seq - start_seq;
    if at < batches.len() {
        assert(batches[at] == seq);
    } else {
        let last = batches.len() - 1;
        assert(batches[last] == start_seq + last);
    }
}

/// Why a replay failed, by the numbers of the batches that came: there were none, the
/// first is later than asked for, some number is missing or comes twice, or the last is
/// too early. It failed in no other case.
pub proof fn replay_fails_where_numbers_are_missing(
    start_seq: u64,
    end_seq: u64,
    batches: Seq<u64>,
)
    requires
        start_seq < end_seq,
        start_seq + batches.len() <= u64::MAX,
    ensures
        ({
            let failure = replay_failure(start_seq, end_seq, batches);
            let in_order = forall|i: int|
                0 <= i < batches.len() ==> #[trigger] batches[i] == start_seq + i;
            &&& failure == Some(ReplayRecoveryFailureReason::Empty) <==> batches.len() == 0
            &&& failure == Some(ReplayRecoveryFailureReason::StartedAfterRequested)
                <==> batches.len() > 0 && batches[0] > start_seq
            &&& failure == Some(ReplayRecoveryFailureReason::NonContiguous) <==> batches.len() > 0
                && batches[0] <= start_seq && !in_order
            &&& failure == Some(ReplayRecoveryFailureReason::EndedBeforeTarget) <==> batches.len()
                > 0 && in_order && start_seq + batches.len() < end_seq
            &&& failure is None <==> in_order && start_seq + batches.len() >= end_seq
        }),
{
    if contiguous(start_seq, batches) {
        assert forall|i: int| 0 <= i < batches.len() implies #[trigger] batches[i] == start_seq
            + i by {
            lemma_contiguous_at(start_seq, batches, u64::MAX, i);
        }
    }
    if forall|i: int| 0 <= i < batches.len() ==> #[trigger] batches[i] == start_seq + i {
        assert forall|i: int| 0 <= i < batches.len() implies #[trigger] batches[i]
            == expected_after(start_seq, batches.take(i)) by {
            if i > 0 {
                assert(batches.take(i).last() == batches[i - 1]);
            }
        }
    }
    if batches.len() > 0 {
        let last = batches.len() - 1;
        assert(batches.last() == batches[last]);
        if contiguous(start_seq, batches) {
            assert(batches[last] == start_seq + last);
            assert(batches[0] == start_seq + 0);
        }
    }
}

/// Nothing was asked for where a replay is over before it starts, so it cannot fail.
pub proof fn empty_replays_do_not_fail(start_seq: u64, end_seq: u64, batches: Seq<u64>)
    requires
        start_seq >= end_seq,
    ensures
        replay_failure(start_seq, end_seq, batches) is None,
{
}

proof fn lemma_contiguous_at(start_seq: u64, batches: Seq<u64>, seq: u64, i: int)
    requires
        contiguous(start_seq, batches),
        0 <= i < batches.len(),
        start_seq <= seq,
        i <= seq - start_seq,
    ensures
        batches[i] == start_seq + i,
    decreases i,
{
    assert(batches[i] == expected_after(start_seq, batches.take(i)));
    if i > 0 {
        lemma_contiguous_at(start_seq, batches, seq, i - 1);
        assert(batches.take(i).last() == batches[i - 1]);
    }
}

/// How far a replay got.
pub struct ReplayRecoveryProgress {
    start_seq: u64,
    end_seq: u64,
    first_replayed: Option<u64>,
    last_replayed: Option<u64>,
    expected_next: u64,
    replayed: u64,
    non_contiguous: bool,
    /// The batches that came.
    batches: Ghost<Seq<u64>>,
}

impl View for ReplayRecoveryProgress {
    type V = Seq<u64>;

    closed spec fn view(&self) -> Seq<u64> {
        self.batches@
    }
}

/// A number or the word for none.
pub open spec fn shown_seq(seq: Option<u64>) -> Seq<char> {
    match seq {
        Some(seq) => decimal(seq as nat),
        None => "none"@,
    }
}

/// What is said of a replay that failed.
pub open spec fn incomplete_text(
    start_seq: u64,
    end_seq: u64,
    batches: Seq<u64>,
    reason: ReplayRecoveryFailureReason,
) -> Seq<char> {
    "Replay incomplete: requested=["@ + decimal(start_seq as nat) + ","@ + decimal(end_seq as nat)
        + "), first="@ + shown_seq(
        if batches.len() == 0 {
            None
        } else {
            Some(batches[0])
        },
    ) + ", last="@ + shown_seq(
        if batches.len() == 0 {
            None
        } else {
            Some(batches.last())
        },
    ) + ", replayed="@ + decimal(batches.len()) + ", reason="@ + reason.name()
}

fn append_seq(text: &mut String, seq: Option<u64>)
    ensures
        final(text)@ == old(text)@ + shown_seq(seq),
{
    match seq {
        Some(seq) => append_decimal(text, seq),
        None => text.append("none"),
    }
}

impl ReplayRecoveryProgress {
    /// The invariant.
    pub closed spec fn wf(&self) -> bool {
        let batches = self.batches@;
        &&& self.replayed == batches.len()
        &&& self.first_replayed == if batches.len() == 0 {
            None
        } else {
            Some(batches[0])
        }
        &&& self.last_replayed == if batches.len() == 0 {
            None
        } else {
            Some(batches.last())
        }
        &&& self.expected_next == expected_after(self.start_seq, batches)
        &&& self.non_contiguous == !contiguous(self.start_seq, batches)
    }

    /// The batches that were asked for: from one number up to another.
    pub closed spec fn asked(&self) -> (u64, u64) {
        (self.start_seq, self.end_seq)
    }

    /// A replay of which nothing came so far.
    pub fn new(start_seq: u64, end_seq: u64) -> (progress: Self)
        ensures
            progress.wf(),
            progress@ == Seq::<u64>::empty(),
            progress.asked() == (start_seq, end_seq),
    {
        ReplayRecoveryProgress {
            start_seq,
            end_seq,
            first_replayed: None,
            last_replayed: None,
            expected_next: start_seq,
            replayed: 0,
            non_contiguous: false,
            batches: Ghost(Seq::empty()),
        }
    }

    /// Notes that a batch came. There are fewer batches than numbers.
    pub fn record_batch(&mut self, seq: u64)
        requires
            old(self).wf(),
            old(self)@.len() < u64::MAX,
        ensures
            final(self).wf(),
            final(self).asked() == old(self).asked(),
            final(self)@ == old(self)@.push(seq),
    {
        let ghost before = self.batches@;
        if self.first_replayed.is_none() {
            self.first_replayed = Some(seq);
        }
        if seq != self.expected_next {
            self.non_contiguous = true;
        }
        self.expected_next = seq.saturating_add(1);
        self.last_replayed = Some(seq);
        self.replayed = self.replayed + 1;
        self.batches = Ghost(before.push(seq));
        proof {
            let after = before.push(seq);
            let start = self.start_seq;
            assert(after.take(before.len() as int) =~= before);
            assert forall|i: int| 0 <= i < before.len() implies #[trigger] after.take(i)
                == before.take(i) by {
                assert(after.take(i) =~= before.take(i));
            }
            if contiguous(start, after) {
                assert forall|i: int| 0 <= i < before.len() implies #[trigger] before[i]
                    == expected_after(start, before.take(i)) by {
                    assert(after[i] == expected_after(start, after.take(i)));
                }
                assert(after[before.len() as int] == expected_after(
                    start,
                    after.take(before.len() as int),
                ));
            }
            if contiguous(start, before) && seq == expected_after(start, before) {
                assert forall|i: int| 0 <= i < after.len() implies #[trigger] after[i]
                    == expected_after(start, after.take(i)) by {
                    if i < before.len() {
                        assert(before[i] == expected_after(start, before.take(i)));
                    }
                }
            }
        }
    }

    /// Why the replay did not bring what was asked for, if it did not.
    pub fn failure_reason(&self) -> (reason: Option<ReplayRecoveryFailureReason>)
        requires
            self.wf(),
        ensures
            reason == replay_failure(self.asked().0, self.asked().1, self@),
    {
        if self.start_seq >= self.end_seq {
            return None;
        }
        if self.replayed == 0 {
            return Some(ReplayRecoveryFailureReason::Empty);
        }
        if let Some(first) = self.first_replayed {
            if first > self.start_seq {
                return Some(ReplayRecoveryFailureReason::StartedAfterRequested);
            }
        }
        if self.non_contiguous {
            return Some(ReplayRecoveryFailureReason::NonContiguous);
        }
        if let Some(last) = self.last_replayed {
            if last < self.end_seq - 1 {
                return Some(ReplayRecoveryFailureReason::EndedBeforeTarget);
            }
        }
        None
    }

    /// Number of batches that came.
    pub fn replayed(&self) -> (replayed: u64)
        requires
            self.wf(),
        ensures
            replayed == self@.len(),
    {
        self.replayed
    }

    /// What is to be said of the replay, where it failed.
    pub fn warn_if_incomplete(&self) -> (warning: Option<String>)
        requires
            self.wf(),
        ensures
            warning is Some <==> replay_failure(self.asked().0, self.asked().1, self@) is Some,
            warning matches Some(text) ==> text@ == incomplete_text(
                self.asked().0,
                self.asked().1,
                self@,
                replay_failure(self.asked().0, self.asked().1, self@)->0,
            ),
    {
        let reason = match self.failure_reason() {
            Some(reason) => reason,
            None => {
                return None;
            },
        };
        let mut text = "Replay incomplete: requested=[".to_owned();
        append_decimal(&mut text, self.start_seq);
        text.append(",");
        append_decimal(&mut text, self.end_seq);
        text.append("), first=");
        append_seq(&mut text, self.first_replayed);
        text.append(", last=");
        append_seq(&mut text, self.last_replayed);
        text.append(", replayed=");
        append_decimal(&mut text, self.replayed);
        text.append(", reason=");
        text.append(reason.as_str());
        Some(text)
    }
}

/// A batch of events of an engine.
pub struct KvEventBatch {
    pub events: Vec<RawKvEvent>,
    /// The rank that the events are of, where the batch says so.
    pub data_parallel_rank: Option<i32>,
}

/// A signed rank as engines send it, read as the unsigned number with the same
/// bits.
pub open spec fn unsigned_rank(rank: i32) -> u32 {
    if rank >= 0 {
        rank as u32
    } else {
        (rank + 0x1_0000_0000) as u32
    }
}

fn rank_as_unsigned(rank: i32) -> (r: u32)
    ensures
        r == unsigned_rank(rank),
{
    if rank >= 0 {
        rank as u32
    } else {
        u32::MAX - (-(rank + 1)) as u32
    }
}

/// The events of a batch, as the router's index takes them, one after the other:
/// those that are not filtered out.
pub open spec fn batch_becomes(
    before: ZmqEventNormalizer,
    raw: Seq<RawKvEvent>,
    seq: u64,
    worker: WorkerWithDpRank,
    events: Seq<RouterEvent>,
    after: ZmqEventNormalizer,
) -> bool
    decreases raw.len(),
{
    if raw.len() == 0 {
        events.len() == 0 && after == before
    } else {
        exists|between: ZmqEventNormalizer, earlier: Seq<RouterEvent>|
            #![trigger event_becomes(between, raw.last(), seq, worker, earlier, events, after)]
            {
                &&& batch_becomes(before, raw.drop_last(), seq, worker, earlier, between)
                &&& event_becomes(between, raw.last(), seq, worker, earlier, events, after)
            }
    }
}

/// What one more event adds.
pub open spec fn event_becomes(
    before: ZmqEventNormalizer,
    raw: RawKvEvent,
    seq: u64,
    worker: WorkerWithDpRank,
    earlier: Seq<RouterEvent>,
    events: Seq<RouterEvent>,
    after: ZmqEventNormalizer,
) -> bool {
    exists|placed: Option<crate::protocols::PlacementEvent>|
        #![trigger normalizes(before, raw, seq, worker, placed, after)]
        normalizes(before, raw, seq, worker, placed, after) && match placed {
            None => events == earlier,
            Some(p) => events == earlier.push(
                RouterEvent {
                    worker_id: p.placement.worker.worker_id,
                    storage_tier: p.placement.tier,
                    event: p.event,
                },
            ),
        }
}

/// What is done with a message of an engine.
#[derive(Clone, Copy, Debug, PartialEq, Eq, Structural)]
pub enum MessageStep {
    /// It is not one that an engine sends.
    WrongFrameCount,
    WrongSeqLength,
    /// It was applied already.
    Stale,
    /// Batches before it are asked for first: from one number up to another.
    Replay { start_seq: u64, end_seq: u64 },
    /// Its batch is applied.
    Apply { seq: u64 },
}

/// What is done with a message of a replay.
#[derive(Clone, Copy, Debug, PartialEq, Eq, Structural)]
pub enum ReplayStep {
    /// The replay is over.
    Stop,
    /// Its batch is applied.
    Apply { seq: u64 },
}

/// What is done with a message, by what was applied so far.
pub open spec fn message_step(cursor: CursorState, frames: Seq<Vec<u8>>) -> MessageStep {
    if frames.len() != 3 {
        MessageStep::WrongFrameCount
    } else if frames[1]@.len() != 8 {
        MessageStep::WrongSeqLength
    } else {
        let seq = be_value(frames[1]@) as u64;
        match cursor.spec_observe(seq) {
            CursorObservation::Initial { got } => if got > 0 {
                MessageStep::Replay { start_seq: 0, end_seq: got }
            } else {
                MessageStep::Apply { seq }
            },
            CursorObservation::Gap { expected, got } => MessageStep::Replay {
                start_seq: expected,
                end_seq: got,
            },
            CursorObservation::Stale { .. } => MessageStep::Stale,
            CursorObservation::Contiguous { .. } => MessageStep::Apply { seq },
        }
    }
}

/// What is done with a message of a replay: one without a payload ends it, and so
/// does one that is not to be understood.
pub open spec fn replay_step(frames: Seq<Vec<u8>>) -> ReplayStep {
    if frames.len() < 3 || frames[2]@.len() == 0 || frames[1]@.len() != 8 {
        ReplayStep::Stop
    } else {
        ReplayStep::Apply { seq: be_value(frames[1]@) as u64 }
    }
}

/// No batch is skipped and none is applied twice. The batch that is due is number 0 where
/// none was applied, and else the one after the last that was: it is applied. An earlier
/// one is passed over; before a later one, all from the due one on up to it are asked for.
pub proof fn batches_are_applied_in_order(watermark: u64, frames: Seq<Vec<u8>>)
    requires
        frames.len() == 3,
        frames[1]@.len() == 8,
    ensures
        ({
            let step = message_step(cursor_of(watermark), frames);
            let seq = be_value(frames[1]@);
            let due: int = if watermark == u64::MAX {
                0
            } else {
                watermark + 1
            };
            &&& seq < due <==> step is Stale
            &&& seq == due <==> step is Apply
            &&& seq > due <==> step is Replay
            &&& step matches MessageStep::Apply { seq: applied } ==> applied == seq
            &&& step matches MessageStep::Replay { start_seq, end_seq } ==> start_seq == due
                && end_seq == seq
        }),
{
    lemma_frame_bounded(frames[1]@);
}

/// Eight bytes spell a number that fits.
proof fn lemma_frame_bounded(bytes: Seq<u8>)
    requires
        bytes.len() == 8,
    ensures
        be_value(bytes) <= u64::MAX,
{
    numbers_are_sent_most_significant_byte_first(bytes);
}

/// The bytes of a number go from the most to the least significant one.
pub proof fn numbers_are_sent_most_significant_byte_first(bytes: Seq<u8>)
    requires
        bytes.len() == 8,
    ensures
        be_value(bytes) == bytes[0] * 0x100_0000_0000_0000 + bytes[1] * 0x1_0000_0000_0000
            + bytes[2] * 0x100_0000_0000 + bytes[3] * 0x1_0000_0000 + bytes[4] * 0x100_0000
            + bytes[5] * 0x1_0000 + bytes[6] * 0x100 + bytes[7],
{
    reveal_with_fuel(be_value, 9);
    let b7 = bytes.drop_last();
    let b6 = b7.drop_last();
    let b5 = b6.drop_last();
    let b4 = b5.drop_last();
    let b3 = b4.drop_last();
    let b2 = b3.drop_last();
    let b1 = b2.drop_last();
    assert(b1.drop_last().len() == 0);
    assert(be_value(b1) == bytes[0]);
    assert(be_value(b2) == bytes[0] * 0x100 + bytes[1]);
    assert(be_value(b3) == bytes[0] * 0x1_0000 + bytes[1] * 0x100 + bytes[2]);
}

/// Messages of any other shape are not understood, whatever was applied before.
pub proof fn other_messages_are_not_applied(watermark: u64, frames: Seq<Vec<u8>>)
    ensures
        frames.len() != 3 <==> message_step(cursor_of(watermark), frames) is WrongFrameCount,
        frames.len() == 3 && frames[1]@.len() != 8 <==> message_step(
            cursor_of(watermark),
            frames,
        ) is WrongSeqLength,
{
}

/// What is done with a message of a replay.
pub fn on_replay_message(frames: &Vec<Vec<u8>>) -> (step: ReplayStep)
    ensures
        step == replay_step(frames@),
{
    if frames.len() < 3 || frames[2].len() == 0 {
        return ReplayStep::Stop;
    }
    match seq_of_frame(&frames[1]) {
        Some(seq) => ReplayStep::Apply { seq },
        None => ReplayStep::Stop,
    }
}

/// What is known of the events of one rank of an engine.
pub struct ListenerState {
    worker_id: WorkerId,
    dp_rank: u32,
    normalizer: ZmqEventNormalizer,
    watermark: u64,
    messages_processed: u64,
}

impl ListenerState {
    /// The invariant: blocks have a size.
    pub closed spec fn wf(&self) -> bool {
        self.normalizer.block_size() > 0
    }

    /// The rank whose events come in.
    pub closed spec fn rank(&self) -> (u64, u32) {
        (self.worker_id, self.dp_rank)
    }

    /// What turns engine events into worker events.
    pub closed spec fn spec_normalizer(&self) -> ZmqEventNormalizer {
        self.normalizer
    }

    /// The batch that was applied last.
    pub closed spec fn spec_watermark(&self) -> u64 {
        self.watermark
    }

    /// Number of events that came live.
    pub closed spec fn processed(&self) -> u64 {
        self.messages_processed
    }

    /// A listener that goes on from a watermark.
    pub fn new(worker_id: WorkerId, dp_rank: u32, block_size: u32, watermark: u64) -> (state: Self)
        requires
            block_size > 0,
        ensures
            state.wf(),
            state.rank() == (worker_id, dp_rank),
            state.spec_normalizer().block_size() == block_size,
            state.spec_normalizer().warnings() == 0,
            state.spec_normalizer().image_token() is None,
            forall|worker: WorkerWithDpRank, group_idx: u32|
                state.spec_normalizer().knows(worker, group_idx) is None,
            state.spec_watermark() == watermark,
            state.processed() == 0,
    {
        ListenerState {
            worker_id,
            dp_rank,
            normalizer: ZmqEventNormalizer::new(block_size),
            watermark,
            messages_processed: 0,
        }
    }

    /// The batch that was applied last.
    pub fn watermark(&self) -> (watermark: u64)
        ensures
            watermark == self.spec_watermark(),
    {
        self.watermark
    }

    /// Number of events that came live.
    pub fn messages_processed(&self) -> (count: u64)
        ensures
            count == self.processed(),
    {
        self.messages_processed
    }

    /// The cursor.
    pub fn cursor(&self) -> (cursor: CursorState)
        ensures
            cursor == cursor_of(self.spec_watermark()),
    {
        cursor_from_watermark(self.watermark)
    }

    /// What is done with a message.
    pub fn on_message(&self, frames: &Vec<Vec<u8>>) -> (step: MessageStep)
        ensures
            step == message_step(cursor_of(self.spec_watermark()), frames@),
            step matches MessageStep::Apply { seq } ==> seq == be_value(frames@[1]@) && if self.spec_watermark()
                == u64::MAX {
                seq == 0
            } else {
                seq == self.spec_watermark() + 1
            },
            step matches MessageStep::Replay { start_seq, end_seq } ==> {
                &&& start_seq < end_seq
                &&& end_seq == be_value(frames@[1]@)
                &&& if self.spec_watermark() == u64::MAX {
                    start_seq == 0
                } else {
                    start_seq == self.spec_watermark() + 1
                }
            },
            step is Stale ==> self.spec_watermark() != u64::MAX && be_value(frames@[1]@)
                <= self.spec_watermark(),
    {
        if frames.len() != 3 {
            return MessageStep::WrongFrameCount;
        }
        let seq = match seq_of_frame(&frames[1]) {
            Some(seq) => seq,
            None => {
                return MessageStep::WrongSeqLength;
            },
        };
        match self.cursor().observe(seq) {
            CursorObservation::Initial { got } => if got > 0 {
                MessageStep::Replay { start_seq: 0, end_seq: got }
            } else {
                MessageStep::Apply { seq }
            },
            CursorObservation::Gap { expected, got } => MessageStep::Replay {
                start_seq: expected,
                end_seq: got,
            },
            CursorObservation::Stale { .. } => MessageStep::Stale,
            CursorObservation::Contiguous { .. } => MessageStep::Apply { seq },
        }
    }

    /// Whether a batch is still to be applied after a replay of those before it:
    /// the replay may have brought it too.
    pub fn still_needed(&self, seq: u64) -> (r: bool)
        ensures
            r == !(cursor_of(self.spec_watermark()).spec_observe(seq) is Stale),
            r <==> self.spec_watermark() == u64::MAX || seq > self.spec_watermark(),
    {
        match self.cursor().observe(seq) {
            CursorObservation::Stale { .. } => false,
            _ => true,
        }
    }

    /// The rank that a batch is of: the one it names, or the listener's.
    pub open spec fn batch_worker(&self, batch: KvEventBatch) -> WorkerWithDpRank {
        WorkerWithDpRank {
            worker_id: self.rank().0,
            dp_rank: match batch.data_parallel_rank {
                Some(rank) => unsigned_rank(rank),
                None => self.rank().1,
            },
        }
    }

    /// Applies a batch that a replay brought: gives the events for the index, and
    /// notes the batch's number.
    pub fn apply_replayed_batch(&mut self, seq: u64, batch: KvEventBatch) -> (events: Vec<
        RouterEvent,
    >)
        requires
            old(self).wf(),
        ensures
            final(self).wf(),
            final(self).rank() == old(self).rank(),
            final(self).spec_watermark() == seq,
            final(self).processed() == old(self).processed(),
            batch_becomes(
                old(self).spec_normalizer(),
                batch.events@,
                seq,
                old(self).batch_worker(batch),
                events@,
                final(self).spec_normalizer(),
            ),
    {
        let worker = WorkerWithDpRank::new(
            self.worker_id,
            match batch.data_parallel_rank {
                Some(rank) => rank_as_unsigned(rank),
                None => self.dp_rank,
            },
        );
        let ghost start = self.normalizer;
        let ghost all = batch.events@;
        let mut raw = batch.events;
        let mut events: Vec<RouterEvent> = Vec::new();
        let ghost mut done: int = 0;
        assert(all.take(0) =~= Seq::<RawKvEvent>::empty());
        while raw.len() > 0
            invariant
                self.wf(),
                self.worker_id == old(self).worker_id,
                self.dp_rank == old(self).dp_rank,
                self.messages_processed == old(self).messages_processed,
                0 <= done,
                done + raw@.len() == all.len(),
                raw@ == all.skip(done),
                batch_becomes(start, all.take(done), seq, worker, events@, self.normalizer),
            decreases raw@.len(),
        {
            let event = raw.remove(0);
            let ghost between = self.normalizer;
            let ghost earlier = events@;
            assert(event == all[done]);
            let placed = self.normalizer.normalize(event, seq, worker);
            let ghost outcome = placed;
            assert(normalizes(between, event, seq, worker, outcome, self.normalizer));
            if let Some(placed) = placed {
                events.push(placed.into_router_event());
            }
            proof {
                let more = all.take(done + 1);
                assert(more.last() == event);
                assert(event_becomes(
                    between,
                    more.last(),
                    seq,
                    worker,
                    earlier,
                    events@,
                    self.normalizer,
                ));
                assert(more.drop_last() =~= all.take(done));
                assert(batch_becomes(start, more, seq, worker, events@, self.normalizer));
                done = done + 1;
                assert(raw@ =~= all.skip(done));
            }
        }
        assert(all.take(all.len() as int) =~= all);
        self.watermark = seq;
        events
    }

    /// Applies a batch that came live.
    pub fn apply_live_batch(&mut self, seq: u64, batch: KvEventBatch) -> (events: Vec<RouterEvent>)
        requires
            old(self).wf(),
        ensures
            final(self).wf(),
            final(self).rank() == old(self).rank(),
            final(self).spec_watermark() == seq,
            final(self).processed() == if old(self).processed() + events@.len() <= u64::MAX {
                old(self).processed() + events@.len()
            } else {
                u64::MAX as int
            },
            batch_becomes(
                old(self).spec_normalizer(),
                batch.events@,
                seq,
                old(self).batch_worker(batch),
                events@,
                final(self).spec_normalizer(),
            ),
    {
        let events = self.apply_replayed_batch(seq, batch);
        self.messages_processed = self.messages_processed.saturating_add(events.len() as u64);
        events
    }
}

/// The events of a batch are all of its rank and carry its number, and there are no more
/// of them than the engine sent.
pub proof fn events_are_of_their_batch(
    before: ZmqEventNormalizer,
    raw: Seq<RawKvEvent>,
    seq: u64,
    worker: WorkerWithDpRank,
    events: Seq<RouterEvent>,
    after: ZmqEventNormalizer,
)
    requires
        batch_becomes(before, raw, seq, worker, events, after),
    ensures
        events.len() <= raw.len(),
        forall|i: int|
            0 <= i < events.len() ==> (#[trigger] events[i]).worker_id == worker.worker_id
                && events[i].event.dp_rank == worker.dp_rank && events[i].event.event_id == seq,
    decreases raw.len(),
{
    if raw.len() > 0 {
        let (between, earlier) = choose|
            between: ZmqEventNormalizer,
            earlier: Seq<RouterEvent>,
        |
            #![trigger event_becomes(between, raw.last(), seq, worker, earlier, events, after)]
            {
                &&& batch_becomes(before, raw.drop_last(), seq, worker, earlier, between)
                &&& event_becomes(between, raw.last(), seq, worker, earlier, events, after)
            };
        events_are_of_their_batch(before, raw.drop_last(), seq, worker, earlier, between);
        assert forall|i: int| 0 <= i < events.len() implies (#[trigger] events[i]).worker_id
            == worker.worker_id && events[i].event.dp_rank == worker.dp_rank
            && events[i].event.event_id == seq by {
            if i < earlier.len() {
                assert(events[i] == earlier[i]);
            }
        }
    }
}

/// Where an engine has no groups of caches, each event of a batch that means something
/// becomes one, in the order in which they came; one that stores a block twice removes
/// nothing instead.
pub proof fn batches_keep_their_order(
    before: ZmqEventNormalizer,
    raw: Seq<RawKvEvent>,
    seq: u64,
    worker: WorkerWithDpRank,
    events: Seq<RouterEvent>,
    after: ZmqEventNormalizer,
)
    requires
        batch_becomes(before, raw, seq, worker, events, after),
        forall|i: int|
            0 <= i < raw.len() ==> {
                &&& !((#[trigger] raw[i]) is Ignored)
                &&& raw[i].spec_metadata().kv_cache_spec_kind is None
                &&& raw[i].spec_metadata().group_idx is None
            },
    ensures
        events.len() == raw.len(),
        forall|i: int|
            0 <= i < raw.len() ==> {
                &&& (#[trigger] raw[i]) is BlockStored ==> events[i].event.data@ is Stored
                    || events[i].event.data@ == (EventDataView::Removed { block_hashes: Seq::empty() })
                &&& raw[i] is BlockRemoved ==> events[i].event.data@ is Removed
                &&& raw[i] is AllBlocksCleared ==> events[i].event.data@ is Cleared
            },
    decreases raw.len(),
{
    if raw.len() > 0 {
        let (between, earlier) = choose|
            between: ZmqEventNormalizer,
            earlier: Seq<RouterEvent>,
        |
            #![trigger event_becomes(between, raw.last(), seq, worker, earlier, events, after)]
            {
                &&& batch_becomes(before, raw.drop_last(), seq, worker, earlier, between)
                &&& event_becomes(between, raw.last(), seq, worker, earlier, events, after)
            };
        let init = raw.drop_last();
        assert forall|i: int| 0 <= i < init.len() implies {
            &&& !((#[trigger] init[i]) is Ignored)
            &&& init[i].spec_metadata().kv_cache_spec_kind is None
            &&& init[i].spec_metadata().group_idx is None
        } by {
            assert(init[i] == raw[i]);
        }
        batches_keep_their_order(before, init, seq, worker, earlier, between);
        assert(raw.last() == raw[raw.len() - 1]);
        assert forall|i: int| 0 <= i < raw.len() implies {
            &&& (#[trigger] raw[i]) is BlockStored ==> events[i].event.data@ is Stored
                || events[i].event.data@ == (EventDataView::Removed { block_hashes: Seq::empty() })
            &&& raw[i] is BlockRemoved ==> events[i].event.data@ is Removed
            &&& raw[i] is AllBlocksCleared ==> events[i].event.data@ is Cleared
        } by {
            if i < init.len() {
                assert(init[i] == raw[i]);
                assert(events[i] == earlier[i]);
            }
        }
    }
}

/// A batch is of the rank that it names, a negative one standing for the unsigned one with
/// the same bits; one that names none is of the rank that is listened to.
pub proof fn batches_name_their_rank(listener: ListenerState, batch: KvEventBatch)
    ensures
        ({
            let worker = listener.batch_worker(batch);
            &&& worker.worker_id == listener.rank().0
            &&& batch.data_parallel_rank is None ==> worker.dp_rank == listener.rank().1
            &&& batch.data_parallel_rank matches Some(rank) ==> worker.dp_rank == rank
                || worker.dp_rank == rank + 0x1_0000_0000
        }),
{
}

/// A replay goes on exactly as long as its messages carry a number and a batch, and each
/// batch is applied under its own number.
pub proof fn replays_end_with_an_empty_batch(frames: Seq<Vec<u8>>)
    ensures
        replay_step(frames) is Stop <==> !(frames.len() >= 3 && frames[1]@.len() == 8
            && frames[2]@.len() > 0),
        replay_step(frames) matches ReplayStep::Apply { seq } ==> seq == be_value(frames[1]@) as u64,
{
}

} // verus!
