//! Extraction of the closed range of a message stream between two markers.

use crate::pairing::MessageId;
use vstd::prelude::*;

verus! {

/// Why a scan could not produce a range.
#[derive(Debug, Clone, Copy, PartialEq, Eq)]
pub enum ScanError {
    /// The start marker came before the end marker was ever seen.
    StartBeforeEnd,
    /// The end marker came a second time while collecting.
    DuplicateEndMarker,
    /// One message is both the start marker and the end marker.
    BothMarkersSameMessage,
    /// The stream ended before the range was closed.
    FarBoundaryNotFound,
}

/// Where a scan stands after a prefix of the stream; positions are indices
/// into that stream.
pub enum Phase {
    /// Neither marker seen yet.
    Seeking,
    /// The end marker was seen at `from`; collecting since.
    Collecting { from: int },
    /// The range runs from `from` (end marker) to `to` (start marker).
    Closed { from: int, to: int },
    /// The scan failed.
    Failed { err: ScanError },
}

/// True once the scan looks at no further message.
pub open spec fn is_terminal(p: Phase) -> bool {
    match p {
        Phase::Closed { .. } => true,
        Phase::Failed { .. } => true,
        _ => false,
    }
}

/// One transition: the message with identifier `id` stands at position `i`.
pub open spec fn next_phase(start: MessageId, end: MessageId, p: Phase, i: int, id: MessageId) -> Phase {
    match p {
        Phase::Seeking => {
            if id == end && id == start {
                Phase::Failed { err: ScanError::BothMarkersSameMessage }
            } else if id == end {
                Phase::Collecting { from: i }
            } else if id == start {
                Phase::Failed { err: ScanError::StartBeforeEnd }
            } else {
                Phase::Seeking
            }
        },
        Phase::Collecting { from } => {
            if id == end && id == start {
                Phase::Failed { err: ScanError::BothMarkersSameMessage }
            } else if id == end {
                Phase::Failed { err: ScanError::DuplicateEndMarker }
            } else if id == start {
                Phase::Closed { from, to: i }
            } else {
                Phase::Collecting { from }
            }
        },
        _ => p,
    }
}

/// The phase after the identifiers `ids`, in stream order, with `start` the
/// first-clicked and `end` the second-clicked marker.
pub open spec fn phase_of(start: MessageId, end: MessageId, ids: Seq<MessageId>) -> Phase
    decreases ids.len(),
{
    if ids.len() == 0 {
        Phase::Seeking
    } else {
        next_phase(start, end, phase_of(start, end, ids.drop_last()), ids.len() - 1, ids.last())
    }
}

/// The outcome of a scan over the whole of `ids`: the stream positions of the
/// range's two ends, or the error.
pub open spec fn scan_outcome(start: MessageId, end: MessageId, ids: Seq<MessageId>) -> Result<
    (int, int),
    ScanError,
> {
    match phase_of(start, end, ids) {
        Phase::Closed { from, to } => Ok((from, to)),
        Phase::Failed { err } => Err(err),
        _ => Err(ScanError::FarBoundaryNotFound),
    }
}

/// Once terminal, the phase stays what it is, whatever follows.
pub proof fn lemma_terminal_absorbs(start: MessageId, end: MessageId, ids: Seq<MessageId>, k: int)
    requires
        0 <= k <= ids.len(),
        is_terminal(phase_of(start, end, ids.subrange(0, k))),
    ensures
        phase_of(start, end, ids) == phase_of(start, end, ids.subrange(0, k)),
    decreases ids.len(),
{
    if ids.len() == k {
        assert(ids.subrange(0, k) =~= ids);
    } else {
        assert(ids.drop_last().subrange(0, k) =~= ids.subrange(0, k));
        lemma_terminal_absorbs(start, end, ids.drop_last(), k);
    }
}

/// Neither marker is among `ids[lo..hi]`.
pub open spec fn no_marker_in(start: MessageId, end: MessageId, ids: Seq<MessageId>, lo: int, hi: int) -> bool {
    forall|k: int| lo <= k < hi ==> #[trigger] ids[k] != start && ids[k] != end
}

/// What each phase tells of the prefix it was reached on.
proof fn lemma_phase_facts(start: MessageId, end: MessageId, ids: Seq<MessageId>)
    ensures
        match phase_of(start, end, ids) {
            Phase::Seeking => no_marker_in(start, end, ids, 0, ids.len() as int),
            Phase::Collecting { from } => {
                &&& 0 <= from < ids.len()
                &&& ids[from] == end
                &&& start != end
                &&& no_marker_in(start, end, ids, 0, from)
                &&& no_marker_in(start, end, ids, from + 1, ids.len() as int)
            },
            Phase::Closed { from, to } => {
                &&& 0 <= from < to < ids.len()
                &&& ids[from] == end
                &&& ids[to] == start
                &&& start != end
                &&& no_marker_in(start, end, ids, 0, from)
                &&& no_marker_in(start, end, ids, from + 1, to)
            },
            _ => true,
        },
    decreases ids.len(),
{
    if ids.len() > 0 {
        let prefix = ids.drop_last();
        lemma_phase_facts(start, end, prefix);
        assert forall|k: int| 0 <= k < prefix.len() implies prefix[k] == #[trigger] ids[k] by {}
    }
}

/// A prefix without either marker leaves the scan seeking.
proof fn lemma_no_marker_keeps_seeking(start: MessageId, end: MessageId, ids: Seq<MessageId>)
    requires
        no_marker_in(start, end, ids, 0, ids.len() as int),
    ensures
        phase_of(start, end, ids) == Phase::Seeking,
    decreases ids.len(),
{
    if ids.len() > 0 {
        let prefix = ids.drop_last();
        assert forall|k: int| 0 <= k < prefix.len() implies #[trigger] prefix[k] != start
            && prefix[k] != end by {
            assert(prefix[k] == ids[k]);
        }
        lemma_no_marker_keeps_seeking(start, end, prefix);
        assert(ids.last() == ids[ids.len() - 1]);
    }
}

/// A range that a scan yields runs from the end marker, met first in stream
/// order, to the start marker; the two differ, and neither stands before the
/// range or inside it.
pub proof fn lemma_range_bounded_by_markers(start: MessageId, end: MessageId, ids: Seq<MessageId>)
    requires
        scan_outcome(start, end, ids) is Ok,
    ensures
        ({
            let (from, to) = scan_outcome(start, end, ids)->Ok_0;
            &&& 0 <= from < to < ids.len()
            &&& ids[from] == end
            &&& ids[to] == start
            &&& start != end
            &&& no_marker_in(start, end, ids, 0, from)
            &&& no_marker_in(start, end, ids, from + 1, to)
        }),
{
    lemma_phase_facts(start, end, ids);
}

/// The order of the clicks matters: where a pair yields a range, the same
/// two markers clicked the other way round meet the start marker first and
/// fail with `StartBeforeEnd`.
pub proof fn lemma_swapped_clicks_fail(start: MessageId, end: MessageId, ids: Seq<MessageId>)
    requires
        scan_outcome(start, end, ids) is Ok,
    ensures
        scan_outcome(end, start, ids) == Err::<(int, int), ScanError>(ScanError::StartBeforeEnd),
{
    lemma_range_bounded_by_markers(start, end, ids);
    let from = scan_outcome(start, end, ids)->Ok_0.0;
    let head = ids.subrange(0, from);
    assert forall|k: int| 0 <= k < head.len() implies #[trigger] head[k] != end && head[k]
        != start by {
        assert(head[k] == ids[k]);
    }
    lemma_no_marker_keeps_seeking(end, start, head);
    let upto = ids.subrange(0, from + 1);
    assert(upto.drop_last() =~= head);
    assert(upto.last() == ids[from]);
    lemma_terminal_absorbs(end, start, ids, from + 1);
}

#[derive(Clone, Copy)]
enum Stage {
    Seeking,
    Collecting,
    Closed,
    Failed(ScanError),
}

/// A scan fed one message at a time, in stream order.
pub struct RangeScanner<T> {
    start: MessageId,
    end: MessageId,
    stage: Stage,
    collected: Vec<T>,
    ids: Ghost<Seq<MessageId>>,
    items: Ghost<Seq<T>>,
}

impl<T> RangeScanner<T> {
    /// The first-clicked marker.
    pub closed spec fn start_marker(&self) -> MessageId {
        self.start
    }

    /// The second-clicked marker.
    pub closed spec fn end_marker(&self) -> MessageId {
        self.end
    }

    /// The identifiers fed so far, in stream order.
    pub closed spec fn seen_ids(&self) -> Seq<MessageId> {
        self.ids@
    }

    /// The messages fed so far, in stream order.
    pub closed spec fn seen_items(&self) -> Seq<T> {
        self.items@
    }

    /// The phase after what was fed so far.
    pub open spec fn phase(&self) -> Phase {
        phase_of(self.start_marker(), self.end_marker(), self.seen_ids())
    }

    /// The buffer holds exactly the messages that the phase says were
    /// collected, and the stage tracks the phase.
    pub closed spec fn wf(&self) -> bool {
        &&& self.ids@.len() == self.items@.len()
        &&& match phase_of(self.start, self.end, self.ids@) {
            Phase::Seeking => self.stage == Stage::Seeking && self.collected@.len() == 0,
            Phase::Collecting { from } => {
                &&& self.stage == Stage::Collecting
                &&& 0 <= from < self.ids@.len()
                &&& self.collected@ == self.items@.subrange(from, self.items@.len() as int)
            },
            Phase::Closed { from, to } => {
                &&& self.stage == Stage::Closed
                &&& 0 <= from < to < self.ids@.len()
                &&& self.collected@ == self.items@.subrange(from, to + 1)
            },
            Phase::Failed { err } => self.stage == Stage::Failed(err),
        }
    }

    /// A scan for the pair `[first clicked, second clicked]` that has seen
    /// nothing yet.
    pub fn new(pair: [MessageId; 2]) -> (r: Self)
        ensures
            r.wf(),
            r.start_marker() == pair[0],
            r.end_marker() == pair[1],
            r.seen_ids() == Seq::<MessageId>::empty(),
            r.seen_items() == Seq::<T>::empty(),
    {
        RangeScanner {
            start: pair[0],
            end: pair[1],
            stage: Stage::Seeking,
            collected: Vec::new(),
            ids: Ghost(Seq::empty()),
            items: Ghost(Seq::empty()),
        }
    }

    /// Feeds the next message of the stream, with its identifier. Returns
    /// whether the scan wants more; once it does not, what is fed is dropped.
    pub fn feed(&mut self, id: MessageId, message: T) -> (r: bool)
        requires
            old(self).wf(),
        ensures
            final(self).wf(),
            final(self).start_marker() == old(self).start_marker(),
            final(self).end_marker() == old(self).end_marker(),
            final(self).seen_ids() == old(self).seen_ids().push(id),
            final(self).seen_items() == old(self).seen_items().push(message),
            r == !is_terminal(final(self).phase()),
    {
        let ghost old_ids = self.ids@;
        let ghost old_items = self.items@;
        self.ids = Ghost(self.ids@.push(id));
        self.items = Ghost(self.items@.push(message));
        assert(self.ids@.drop_last() =~= old_ids);
        let at_end = id == self.end;
        let at_start = id == self.start;
        match self.stage {
            Stage::Seeking => {
                if at_end && at_start {
                    self.stage = Stage::Failed(ScanError::BothMarkersSameMessage);
                } else if at_end {
                    self.stage = Stage::Collecting;
                    self.collected.push(message);
                    assert(self.collected@ =~= self.items@.subrange(
                        old_items.len() as int,
                        self.items@.len() as int,
                    ));
                } else if at_start {
                    self.stage = Stage::Failed(ScanError::StartBeforeEnd);
                }
            },
            Stage::Collecting => {
                let ghost from = match phase_of(self.start, self.end, old_ids) {
                    Phase::Collecting { from } => from,
                    _ => 0,
                };
                assert(old_items.subrange(from, old_items.len() as int).push(message)
                    =~= self.items@.subrange(from, self.items@.len() as int));
                if at_end && at_start {
                    self.stage = Stage::Failed(ScanError::BothMarkersSameMessage);
                } else if at_end {
                    self.stage = Stage::Failed(ScanError::DuplicateEndMarker);
                } else if at_start {
                    self.stage = Stage::Closed;
                    self.collected.push(message);
                } else {
                    self.collected.push(message);
                }
            },
            _ => {
                proof {
                    if let Phase::Closed { from, to } = phase_of(self.start, self.end, old_ids) {
                        assert(self.items@.subrange(from, to + 1) =~= old_items.subrange(
                            from,
                            to + 1,
                        ));
                    }
                }
            },
        }
        match self.stage {
            Stage::Seeking => true,
            Stage::Collecting => true,
            _ => false,
        }
    }

    /// Ends the scan: the collected range, oldest first (the reverse of
    /// stream order), or why there is none.
    pub fn finish(self) -> (r: Result<Vec<T>, ScanError>)
        requires
            self.wf(),
        ensures
            match scan_outcome(self.start_marker(), self.end_marker(), self.seen_ids()) {
                Ok((from, to)) => r.is_ok() && r.unwrap()@ == self.seen_items().subrange(
                    from,
                    to + 1,
                ).reverse(),
                Err(e) => r == Err::<Vec<T>, ScanError>(e),
            },
    {
        match self.stage {
            Stage::Closed => {
                let mut collected = self.collected;
                let ghost orig = collected@;
                let mut out: Vec<T> = Vec::new();
                while collected.len() > 0
                    invariant
                        collected@ == orig.subrange(0, collected@.len() as int),
                        out@.len() + collected@.len() == orig.len(),
                        forall|k: int|
                            0 <= k < out@.len() ==> #[trigger] out@[k] == orig[orig.len() - 1 - k],
                    decreases collected@.len(),
                {
                    let x = collected.pop().unwrap();
                    out.push(x);
                }
                assert(out@ =~= orig.reverse());
                Ok(out)
            },
            Stage::Failed(e) => Err(e),
            _ => Err(ScanError::FarBoundaryNotFound),
        }
    }
}

/// The identifiers of a stream of `(identifier, message)` entries.
pub open spec fn ids_of<T>(stream: Seq<(MessageId, T)>) -> Seq<MessageId> {
    stream.map_values(|e: (MessageId, T)| e.0)
}

/// The messages of a stream of `(identifier, message)` entries.
pub open spec fn items_of<T>(stream: Seq<(MessageId, T)>) -> Seq<T> {
    stream.map_values(|e: (MessageId, T)| e.1)
}

/// Scans `stream`, in stream order, for the pair `[first clicked, second
/// clicked]`, and returns the closed range between the two markers oldest
/// first, or why there is none.
pub fn scan<T>(pair: [MessageId; 2], stream: Vec<(MessageId, T)>) -> (r: Result<Vec<T>, ScanError>)
    ensures
        match scan_outcome(pair[0], pair[1], ids_of(stream@)) {
            Ok((from, to)) => r.is_ok() && r.unwrap()@ == items_of(stream@).subrange(
                from,
                to + 1,
            ).reverse(),
            Err(e) => r == Err::<Vec<T>, ScanError>(e),
        },
{
    let ghost whole = stream@;
    let mut rest = stream;
    let mut scanner = RangeScanner::new(pair);
    let n = rest.len();
    let mut i: usize = 0;
    let mut more = true;
    while more && rest.len() > 0
        invariant
            scanner.wf(),
            scanner.start_marker() == pair[0],
            scanner.end_marker() == pair[1],
            n == whole.len(),
            i + rest@.len() == n,
            rest@ == whole.subrange(i as int, n as int),
            scanner.seen_ids() == ids_of(whole).subrange(0, i as int),
            scanner.seen_items() == items_of(whole).subrange(0, i as int),
            more == !is_terminal(scanner.phase()),
        decreases rest@.len(),
    {
        let (id, message) = rest.remove(0);
        more = scanner.feed(id, message);
        i = i + 1;
        assert(scanner.seen_ids() =~= ids_of(whole).subrange(0, i as int));
        assert(scanner.seen_items() =~= items_of(whole).subrange(0, i as int));
    }
    proof {
        if more {
            assert(ids_of(whole).subrange(0, i as int) =~= ids_of(whole));
            assert(items_of(whole).subrange(0, i as int) =~= items_of(whole));
        } else {
            lemma_terminal_absorbs(pair[0], pair[1], ids_of(whole), i as int);
            lemma_phase_facts(pair[0], pair[1], ids_of(whole));
            match scan_outcome(pair[0], pair[1], ids_of(whole)) {
                Ok((from, to)) => {
                    assert(items_of(whole).subrange(0, i as int).subrange(from, to + 1)
                        =~= items_of(whole).subrange(from, to + 1));
                },
                Err(_) => {},
            }
        }
    }
    scanner.finish()
}

} // verus!
