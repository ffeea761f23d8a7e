//! Phase-gradient heap integration: the order in which the bins of a frame
//! receive their synthesis phase.
//!
//! The phases themselves are sums of phase derivatives, which the caller
//! holds. What is decided here is which bin is written from which, and when:
//! the result of [`PhaseIntegrator::integrate`] is a list of [`Step`]s that the
//! caller carries out in order.

use crate::heap::{queued_no_sooner, MagnitudeQueue, MaxHeap};
use vstd::multiset::Multiset;
use vstd::prelude::*;

verus! {

/// One assignment to the synthesis phase of the frame at hand.
#[derive(Clone, Copy, Debug, PartialEq, Eq, Structural)]
pub enum Step {
    /// `bin` takes its time derivative as it is: a frame without two
    /// predecessors.
    Initial { bin: usize },
    /// `bin` carries no energy to speak of and takes a random phase.
    Random { bin: usize },
    /// `bin` takes the phase it had one frame earlier plus its time
    /// derivative.
    Time { bin: usize },
    /// Bin `from + 1` takes the phase of bin `from` plus the forward frequency
    /// derivative at `from`.
    Up { from: usize },
    /// Bin `from - 1` takes the phase of bin `from` minus the backward
    /// frequency derivative at `from`.
    Down { from: usize },
    /// The last bin adds its own forward frequency derivative to its phase.
    EdgeUp { bin: usize },
    /// Bin 0 subtracts its own backward frequency derivative from its phase.
    EdgeDown { bin: usize },
}

impl Step {
    /// The bin whose phase the step writes.
    pub open spec fn written(self) -> int {
        match self {
            Step::Initial { bin } => bin as int,
            Step::Random { bin } => bin as int,
            Step::Time { bin } => bin as int,
            Step::Up { from } => from + 1,
            Step::Down { from } => from - 1,
            Step::EdgeUp { bin } => bin as int,
            Step::EdgeDown { bin } => bin as int,
        }
    }

    /// Whether the step gives its bin the first phase of the frame. The two
    /// edge corrections do not: they change a phase that is there.
    pub open spec fn anchors(self) -> bool {
        !(self is EdgeUp || self is EdgeDown)
    }

    /// The bin of the frame at hand whose phase the step reads, if it reads
    /// one.
    pub open spec fn read(self) -> Option<int> {
        match self {
            Step::Up { from } => Some(from as int),
            Step::Down { from } => Some(from as int),
            Step::EdgeUp { bin } => Some(bin as int),
            Step::EdgeDown { bin } => Some(bin as int),
            _ => None,
        }
    }
}

/// The number of `true` entries.
pub open spec fn count_true(flags: Seq<bool>) -> nat
    decreases flags.len(),
{
    if flags.len() == 0 {
        0
    } else {
        count_true(flags.drop_last()) + if flags.last() {
            1nat
        } else {
            0nat
        }
    }
}

/// The candidate that stands for bin `bin` of frame `frame`.
pub open spec fn candidate(magnitudes: Seq<u64>, bin: int, frame: int) -> MaxHeap {
    MaxHeap { magnitude: magnitudes[bin], frequency_index: bin as usize, frame: frame as usize }
}

/// The candidate that leaves `queue` next: one of the greatest magnitude,
/// and among those the one that the rule of the queue puts first.
pub open spec fn largest(queue: Multiset<MaxHeap>) -> MaxHeap {
    choose|top: MaxHeap|
        queue.contains(top) && forall|other: MaxHeap| #[trigger]
            queue.contains(other) ==> queued_no_sooner(other, top)
}

/// The bins that carry energy: those whose magnitude exceeds the tolerance.
pub open spec fn significant(current: Seq<u64>, tolerance: u64) -> Seq<bool> {
    Seq::new(current.len(), |bin: int| current[bin] > tolerance)
}

/// The random assignments: one for each of the first `upto` bins that is not
/// significant, in ascending order.
pub open spec fn scattered(significant: Seq<bool>, upto: int) -> Seq<Step>
    decreases upto,
{
    if upto <= 0 {
        Seq::empty()
    } else if significant[upto - 1] {
        scattered(significant, upto - 1)
    } else {
        scattered(significant, upto - 1).push(Step::Random { bin: (upto - 1) as usize })
    }
}

/// The candidates that the queue starts with: for each of the first `upto`
/// bins that is significant, that bin of the frame before, with the magnitude
/// it had there.
pub open spec fn seeds(frame: int, previous: Seq<u64>, significant: Seq<bool>, upto: int) -> Multiset<
    MaxHeap,
>
    decreases upto,
{
    if upto <= 0 {
        Multiset::empty()
    } else if significant[upto - 1] {
        seeds(frame, previous, significant, upto - 1).insert(
            candidate(previous, upto - 1, frame - 1),
        )
    } else {
        seeds(frame, previous, significant, upto - 1)
    }
}

/// What one candidate, taken from the queue, brings about.
pub struct Reaction {
    /// The assignments made, in order.
    pub steps: Seq<Step>,
    /// The bins that still wait for a phase.
    pub pending: Seq<bool>,
    /// The candidates that enter the queue.
    pub pushed: Multiset<MaxHeap>,
}

/// The reaction to `top` in frame `frame`, where `pending` marks the bins that
/// wait for a phase and `current` holds the magnitudes of the frame.
///
/// A candidate of the frame before carries its phase forward in time, if its
/// bin still waits. A candidate of the frame at hand hands its phase to the
/// neighbours that wait; at either end of the spectrum it corrects itself
/// instead. Each bin that receives a phase leaves `pending` and enters the
/// queue as a candidate of the frame at hand; such a candidate has its phase
/// and waits no more, so that no bin enters the queue twice.
pub open spec fn react(top: MaxHeap, frame: int, current: Seq<u64>, pending: Seq<bool>) -> Reaction {
    let bin = top.frequency_index as int;
    let nothing = Reaction { steps: Seq::empty(), pending: pending, pushed: Multiset::empty() };
    if top.frame == frame - 1 {
        if bin < pending.len() && pending[bin] {
            Reaction {
                steps: seq![Step::Time { bin: top.frequency_index }],
                pending: pending.update(bin, false),
                pushed: Multiset::singleton(candidate(current, bin, frame)),
            }
        } else {
            nothing
        }
    } else if top.frame == frame {
        if bin + 1 >= pending.len() {
            Reaction { steps: seq![Step::EdgeUp { bin: top.frequency_index }], ..nothing }
        } else if bin == 0 {
            Reaction { steps: seq![Step::EdgeDown { bin: top.frequency_index }], ..nothing }
        } else {
            let up = react_up(top, frame, current, pending);
            let down = react_down(top, frame, current, up.pending);
            Reaction {
                steps: up.steps + down.steps,
                pending: down.pending,
                pushed: up.pushed.add(down.pushed),
            }
        }
    } else {
        nothing
    }
}

/// The upper neighbour of `top` receives its phase, if it waits.
pub open spec fn react_up(top: MaxHeap, frame: int, current: Seq<u64>, pending: Seq<bool>) -> Reaction {
    let bin = top.frequency_index as int;
    if pending[bin + 1] {
        Reaction {
            steps: seq![Step::Up { from: top.frequency_index }],
            pending: pending.update(bin + 1, false),
            pushed: Multiset::singleton(candidate(current, bin + 1, frame)),
        }
    } else {
        Reaction { steps: Seq::empty(), pending: pending, pushed: Multiset::empty() }
    }
}

/// The lower neighbour of `top` receives its phase, if it waits.
pub open spec fn react_down(top: MaxHeap, frame: int, current: Seq<u64>, pending: Seq<bool>) -> Reaction {
    let bin = top.frequency_index as int;
    if pending[bin - 1] {
        Reaction {
            steps: seq![Step::Down { from: top.frequency_index }],
            pending: pending.update(bin - 1, false),
            pushed: Multiset::singleton(candidate(current, bin - 1, frame)),
        }
    } else {
        Reaction { steps: Seq::empty(), pending: pending, pushed: Multiset::empty() }
    }
}

/// The assignments made while the queue runs empty: again and again the
/// largest candidate leaves the queue, and what it brings about follows.
pub open spec fn drain(frame: int, current: Seq<u64>, pending: Seq<bool>, queue: Multiset<MaxHeap>) -> Seq<
    Step,
>
    decreases queue.len() + 2 * count_true(pending),
    via drain_terminates
{
    if queue.len() == 0 {
        Seq::empty()
    } else {
        let top = largest(queue);
        let reaction = react(top, frame, current, pending);
        reaction.steps + drain(frame, current, reaction.pending, queue.remove(top).add(reaction.pushed))
    }
}

#[via_fn]
proof fn drain_terminates(frame: int, current: Seq<u64>, pending: Seq<bool>, queue: Multiset<MaxHeap>) {
    if queue.len() != 0 {
        let top = largest(queue);
        lemma_largest(queue);
        lemma_react_budget(top, frame, current, pending);
    }
}

/// A queue that is not empty holds the candidate that leaves it next, and
/// one only: the rule of the queue settles it.
pub proof fn lemma_largest(queue: Multiset<MaxHeap>)
    requires
        queue.len() > 0,
    ensures
        queue.contains(largest(queue)),
        forall|other: MaxHeap| #[trigger] queue.contains(other) ==> queued_no_sooner(other, largest(queue)),
        forall|top: MaxHeap|
            queue.contains(top) && (forall|other: MaxHeap| #[trigger]
                queue.contains(other) ==> queued_no_sooner(other, top)) ==> top == largest(queue),
    decreases queue.len(),
{
    let first = queue.choose();
    let rest = queue.remove(first);
    assert(queue.contains(first));
    if rest.len() == 0 {
        assert forall|other: MaxHeap| #[trigger] queue.contains(other) implies queued_no_sooner(other, first,) by {
            if other != first {
                assert(rest.contains(other));
                assert(rest.len() >= rest.count(other));
            }
        }
    } else {
        lemma_largest(rest);
        let inner = largest(rest);
        let top = if queued_no_sooner(inner, first) {
            first
        } else {
            inner
        };
        assert(queue.contains(top));
        assert forall|other: MaxHeap| #[trigger] queue.contains(other) implies queued_no_sooner(other, top,) by {
            if other != first {
                assert(rest.contains(other));
            }
        }
    }
}

/// Clearing a flag that is set lowers the count by one.
pub proof fn lemma_count_true_clear(flags: Seq<bool>, i: int)
    requires
        0 <= i < flags.len(),
        flags[i],
    ensures
        count_true(flags.update(i, false)) == count_true(flags) - 1,
    decreases flags.len(),
{
    let cleared = flags.update(i, false);
    if i == flags.len() - 1 {
        assert(cleared.drop_last() =~= flags.drop_last());
    } else {
        assert(cleared.drop_last() =~= flags.drop_last().update(i, false));
        lemma_count_true_clear(flags.drop_last(), i);
    }
}

/// A reaction makes as many candidates as it takes bins out of `pending`, and
/// keeps the length of `pending`.
pub proof fn lemma_react_budget(top: MaxHeap, frame: int, current: Seq<u64>, pending: Seq<bool>)
    ensures
        react(top, frame, current, pending).pending.len() == pending.len(),
        count_true(react(top, frame, current, pending).pending) + react(
            top,
            frame,
            current,
            pending,
        ).pushed.len() == count_true(pending),
{
    let bin = top.frequency_index as int;
    if top.frame == frame - 1 {
        if bin < pending.len() && pending[bin] {
            lemma_count_true_clear(pending, bin);
        }
    } else if top.frame == frame {
        if bin + 1 < pending.len() && bin != 0 {
            let up = react_up(top, frame, current, pending);
            if pending[bin + 1] {
                lemma_count_true_clear(pending, bin + 1);
            }
            if up.pending[bin - 1] {
                lemma_count_true_clear(up.pending, bin - 1);
            }
        }
    }
}

/// The assignments of one frame, in order.
///
/// Each of the first two frames of a signal takes its time derivatives as
/// they are. Any later frame first gives a random phase to every bin that is
/// not significant, in ascending order; then the queue, which starts with the
/// significant bins as candidates of the frame before, runs empty.
pub open spec fn plan(frame: int, previous: Seq<u64>, current: Seq<u64>, tolerance: u64) -> Seq<Step> {
    if frame < 2 {
        Seq::new(current.len(), |bin: int| Step::Initial { bin: bin as usize })
    } else {
        let waiting = significant(current, tolerance);
        scattered(waiting, current.len() as int) + drain(
            frame,
            current,
            waiting,
            seeds(frame, previous, waiting, current.len() as int),
        )
    }
}

/// Step `k` gives `bin` its first phase.
pub open spec fn anchored_at(steps: Seq<Step>, k: int, bin: int) -> bool {
    0 <= k < steps.len() && steps[k].anchors() && steps[k].written() == bin
}

/// Some step before step `k` gives `bin` its first phase.
pub open spec fn anchored_before(steps: Seq<Step>, k: int, bin: int) -> bool {
    exists|j: int| 0 <= j < k && #[trigger] anchored_at(steps, j, bin)
}

/// Every step writes a bin of the frame, and reads a phase of the frame only
/// after the step that gave it.
pub open spec fn orderly(steps: Seq<Step>, bins: int) -> bool {
    &&& forall|k: int| 0 <= k < steps.len() ==> 0 <= (#[trigger] steps[k]).written() < bins
    &&& forall|k: int|
        0 <= k < steps.len() ==> ((#[trigger] steps[k]).read() matches Some(bin)
            ==> anchored_before(steps, k, bin))
}

/// No bin receives its first phase twice.
pub open spec fn anchored_once(steps: Seq<Step>) -> bool {
    forall|j: int, k: int|
        0 <= j < k < steps.len() && (#[trigger] steps[j]).anchors() && (#[trigger] steps[k]).anchors()
            ==> steps[j].written() != steps[k].written()
}

/// Every bin of the frame receives a first phase.
pub open spec fn anchored_all(steps: Seq<Step>, bins: int) -> bool {
    forall|bin: int| 0 <= bin < bins ==> anchored_before(steps, steps.len() as int, bin)
}

/// The steps that give a first phase are of the kind that the frame and the
/// bin call for: `Initial` in the first two frames; later `Random` for a bin
/// that is not significant, and a propagation from a phase that is known for
/// one that is.
pub open spec fn fitting(steps: Seq<Step>, frame: int, current: Seq<u64>, tolerance: u64) -> bool {
    forall|k: int|
        0 <= k < steps.len() && (#[trigger] steps[k]).anchors() ==> {
            &&& steps[k] is Initial <==> frame < 2
            &&& steps[k] is Random <==> frame >= 2 && current[steps[k].written()] <= tolerance
        }
}

/// What holds of the steps made so far, of the bins that wait and of the
/// queue, at every moment of the propagation in a frame.
#[verifier::opaque]
spec fn sound(
    frame: int,
    previous: Seq<u64>,
    current: Seq<u64>,
    tolerance: u64,
    steps: Seq<Step>,
    pending: Seq<bool>,
    queue: Multiset<MaxHeap>,
) -> bool {
    let bins = current.len() as int;
    &&& 2 <= frame <= usize::MAX
    &&& bins <= usize::MAX
    &&& previous.len() == bins
    &&& pending.len() == bins
    &&& orderly(steps, bins)
    &&& anchored_once(steps)
    &&& fitting(steps, frame, current, tolerance)
    &&& forall|bin: int|
        0 <= bin < bins && !#[trigger] pending[bin] ==> anchored_before(
            steps,
            steps.len() as int,
            bin,
        )
    &&& forall|k: int|
        0 <= k < steps.len() && (#[trigger] steps[k]).anchors() ==> !pending[steps[k].written()]
    &&& forall|bin: int| 0 <= bin < bins && #[trigger] pending[bin] ==> current[bin] > tolerance
    &&& forall|bin: int|
        0 <= bin < bins && #[trigger] pending[bin] ==> queue.contains(
            candidate(previous, bin, frame - 1),
        )
    &&& forall|entry: MaxHeap| #[trigger]
        queue.contains(entry) ==> {
            &&& entry.frequency_index < bins
            &&& entry.frame == frame - 1 || (entry.frame == frame
                && !pending[entry.frequency_index as int])
        }
}

/// A candidate whose bin does not wait can leave the queue.
proof fn lemma_sound_remove(
    frame: int,
    previous: Seq<u64>,
    current: Seq<u64>,
    tolerance: u64,
    steps: Seq<Step>,
    pending: Seq<bool>,
    queue: Multiset<MaxHeap>,
    top: MaxHeap,
)
    requires
        sound(frame, previous, current, tolerance, steps, pending, queue),
        queue.contains(top),
        !pending[top.frequency_index as int],
    ensures
        sound(frame, previous, current, tolerance, steps, pending, queue.remove(top)),
{
    reveal(sound);
    let bins = current.len() as int;
    let rest = queue.remove(top);
    assert forall|bin: int| 0 <= bin < bins && #[trigger] pending[bin] implies rest.contains(
        candidate(previous, bin, frame - 1),
    ) by {
        assert(queue.contains(candidate(previous, bin, frame - 1)));
        assert(candidate(previous, bin, frame - 1).frequency_index != top.frequency_index);
    }
    assert forall|entry: MaxHeap| #[trigger] rest.contains(entry) implies {
        &&& entry.frequency_index < bins
        &&& entry.frame == frame - 1 || (entry.frame == frame
            && !pending[entry.frequency_index as int])
    } by {
        assert(queue.contains(entry));
    }
}

/// A step that changes a phase that is there keeps everything in order.
proof fn lemma_sound_correct(
    frame: int,
    previous: Seq<u64>,
    current: Seq<u64>,
    tolerance: u64,
    steps: Seq<Step>,
    pending: Seq<bool>,
    queue: Multiset<MaxHeap>,
    step: Step,
)
    requires
        sound(frame, previous, current, tolerance, steps, pending, queue),
        !step.anchors(),
        0 <= step.written() < current.len(),
        !pending[step.written()],
    ensures
        sound(frame, previous, current, tolerance, steps.push(step), pending, queue),
{
    reveal(sound);
    let bins = current.len() as int;
    let longer = steps.push(step);
    assert forall|k: int| 0 <= k < longer.len() implies ((#[trigger] longer[k]).read() matches Some(
        bin,
    ) ==> anchored_before(longer, k, bin)) by {
        if k < steps.len() {
            assert(longer[k] == steps[k]);
            if let Some(bin) = steps[k].read() {
                lemma_anchor_stays(steps, step, k, k, bin);
            }
        } else {
            assert(step.read() == Some(step.written()));
            lemma_anchor_stays(steps, step, steps.len() as int, k, step.written());
        }
    }
    assert forall|k: int| 0 <= k < longer.len() implies 0 <= (#[trigger] longer[k]).written()
        < bins by {
        if k < steps.len() {
            assert(longer[k] == steps[k]);
        }
    }
    assert forall|j: int, k: int|
        0 <= j < k < longer.len() && (#[trigger] longer[j]).anchors() && (
        #[trigger] longer[k]).anchors() implies longer[j].written() != longer[k].written() by {
        assert(longer[j] == steps[j]);
        assert(longer[k] == steps[k]);
    }
    assert forall|k: int| 0 <= k < longer.len() && (#[trigger] longer[k]).anchors() implies {
        &&& longer[k] is Initial <==> frame < 2
        &&& longer[k] is Random <==> frame >= 2 && current[longer[k].written()] <= tolerance
        &&& !pending[longer[k].written()]
    } by {
        assert(longer[k] == steps[k]);
    }
    assert forall|bin: int| 0 <= bin < bins && !#[trigger] pending[bin] implies anchored_before(
        longer,
        longer.len() as int,
        bin,
    ) by {
        lemma_anchor_stays(steps, step, steps.len() as int, longer.len() as int, bin);
    }
}

/// What was anchored before a step is added is anchored after.
proof fn lemma_anchor_stays(steps: Seq<Step>, step: Step, k: int, later: int, bin: int)
    requires
        anchored_before(steps, k, bin),
        k <= steps.len(),
        k <= later,
    ensures
        anchored_before(steps.push(step), later, bin),
{
    let longer = steps.push(step);
    let j = choose|j: int| 0 <= j < k && #[trigger] anchored_at(steps, j, bin);
    assert(longer[j] == steps[j]);
    assert(anchored_at(longer, j, bin));
}

/// A bin that waits can receive its phase from one that is known: it leaves
/// `pending` and enters the queue as a candidate of the frame at hand.
proof fn lemma_sound_anchor(
    frame: int,
    previous: Seq<u64>,
    current: Seq<u64>,
    tolerance: u64,
    steps: Seq<Step>,
    pending: Seq<bool>,
    queue: Multiset<MaxHeap>,
    step: Step,
)
    requires
        sound(frame, previous, current, tolerance, steps, pending, queue),
        step is Time || step is Up || step is Down,
        0 <= step.written() < current.len(),
        pending[step.written()],
        step.read() matches Some(bin) ==> 0 <= bin < current.len() && !pending[bin],
    ensures
        sound(
            frame,
            previous,
            current,
            tolerance,
            steps.push(step),
            pending.update(step.written(), false),
            queue.insert(candidate(current, step.written(), frame)),
        ),
{
    reveal(sound);
    let bins = current.len() as int;
    let target = step.written();
    let longer = steps.push(step);
    let fewer = pending.update(target, false);
    let entry = candidate(current, target, frame);
    let more = queue.insert(entry);
    assert(anchored_at(longer, steps.len() as int, target));
    assert forall|k: int| 0 <= k < longer.len() implies 0 <= (#[trigger] longer[k]).written()
        < bins by {
        if k < steps.len() {
            assert(longer[k] == steps[k]);
        }
    }
    assert forall|k: int| 0 <= k < longer.len() implies ((#[trigger] longer[k]).read() matches Some(
        bin,
    ) ==> anchored_before(longer, k, bin)) by {
        if k < steps.len() {
            assert(longer[k] == steps[k]);
            if let Some(bin) = steps[k].read() {
                lemma_anchor_stays(steps, step, k, k, bin);
            }
        } else {
            if let Some(bin) = step.read() {
                lemma_anchor_stays(steps, step, steps.len() as int, k, bin);
            }
        }
    }
    assert forall|j: int, k: int|
        0 <= j < k < longer.len() && (#[trigger] longer[j]).anchors() && (
        #[trigger] longer[k]).anchors() implies longer[j].written() != longer[k].written() by {
        assert(longer[j] == steps[j]);
        if k < steps.len() {
            assert(longer[k] == steps[k]);
        } else {
            assert(!pending[steps[j].written()]);
        }
    }
    assert forall|k: int| 0 <= k < longer.len() && (#[trigger] longer[k]).anchors() implies {
        &&& longer[k] is Initial <==> frame < 2
        &&& longer[k] is Random <==> frame >= 2 && current[longer[k].written()] <= tolerance
        &&& !fewer[longer[k].written()]
    } by {
        if k < steps.len() {
            assert(longer[k] == steps[k]);
        }
    }
    assert forall|bin: int| 0 <= bin < bins && !#[trigger] fewer[bin] implies anchored_before(
        longer,
        longer.len() as int,
        bin,
    ) by {
        if bin != target {
            assert(!pending[bin]);
            lemma_anchor_stays(steps, step, steps.len() as int, longer.len() as int, bin);
        }
    }
    assert forall|bin: int| 0 <= bin < bins && #[trigger] fewer[bin] implies current[bin]
        > tolerance && more.contains(candidate(previous, bin, frame - 1)) by {
        assert(pending[bin]);
        assert(queue.contains(candidate(previous, bin, frame - 1)));
    }
    assert forall|other: MaxHeap| #[trigger] more.contains(other) implies {
        &&& other.frequency_index < bins
        &&& other.frame == frame - 1 || (other.frame == frame
            && !fewer[other.frequency_index as int])
    } by {
        if other != entry {
            assert(queue.contains(other));
        }
    }
}

/// What the queue holds is a bin of the frame, as a candidate of the frame
/// before or of the frame at hand; in the second case the bin has its phase.
proof fn lemma_sound_entry(
    frame: int,
    previous: Seq<u64>,
    current: Seq<u64>,
    tolerance: u64,
    steps: Seq<Step>,
    pending: Seq<bool>,
    queue: Multiset<MaxHeap>,
    entry: MaxHeap,
)
    requires
        sound(frame, previous, current, tolerance, steps, pending, queue),
        queue.contains(entry),
    ensures
        2 <= frame <= usize::MAX,
        pending.len() == current.len() == previous.len(),
        entry.frequency_index < current.len(),
        entry.frame == frame - 1 || (entry.frame == frame
            && !pending[entry.frequency_index as int]),
{
    reveal(sound);
}

/// Once the queue is empty, every bin has its phase.
proof fn lemma_sound_done(
    frame: int,
    previous: Seq<u64>,
    current: Seq<u64>,
    tolerance: u64,
    steps: Seq<Step>,
    pending: Seq<bool>,
    queue: Multiset<MaxHeap>,
)
    requires
        sound(frame, previous, current, tolerance, steps, pending, queue),
        queue.len() == 0,
    ensures
        orderly(steps, current.len() as int),
        anchored_once(steps),
        anchored_all(steps, current.len() as int),
        fitting(steps, frame, current, tolerance),
{
    reveal(sound);
    assert forall|bin: int| 0 <= bin < current.len() implies anchored_before(
        steps,
        steps.len() as int,
        bin,
    ) by {
        if pending[bin] {
            assert(queue.contains(candidate(previous, bin, frame - 1)));
        }
    }
}

/// After the partition of a frame everything is in order: the bins that are
/// not significant have their random phase, the others wait and have their
/// candidate in the queue.
proof fn lemma_partition_sound(
    frame: int,
    previous: Seq<u64>,
    current: Seq<u64>,
    tolerance: u64,
    upto: int,
)
    requires
        2 <= frame <= usize::MAX,
        previous.len() == current.len() <= usize::MAX,
        0 <= upto <= current.len(),
    ensures
        ({
            let waiting = significant(current, tolerance);
            let steps = scattered(waiting, upto);
            let queue = seeds(frame, previous, waiting, upto);
            &&& forall|k: int|
                0 <= k < steps.len() ==> (#[trigger] steps[k]) is Random && 0 <= steps[k].written()
                    < upto && !waiting[steps[k].written()]
            &&& forall|j: int, k: int|
                0 <= j < k < steps.len() ==> (#[trigger] steps[j]).written() < (
                #[trigger] steps[k]).written()
            &&& forall|bin: int|
                0 <= bin < upto && !#[trigger] waiting[bin] ==> anchored_before(
                    steps,
                    steps.len() as int,
                    bin,
                )
            &&& forall|bin: int|
                0 <= bin < upto && #[trigger] waiting[bin] ==> queue.contains(
                    candidate(previous, bin, frame - 1),
                )
            &&& forall|entry: MaxHeap| #[trigger]
                queue.contains(entry) ==> entry.frame == frame - 1 && entry.frequency_index < upto
        }),
    decreases upto,
{
    let waiting = significant(current, tolerance);
    let steps = scattered(waiting, upto);
    let queue = seeds(frame, previous, waiting, upto);
    if upto > 0 {
        lemma_partition_sound(frame, previous, current, tolerance, upto - 1);
        let fewer = scattered(waiting, upto - 1);
        let smaller = seeds(frame, previous, waiting, upto - 1);
        if waiting[upto - 1] {
            assert forall|entry: MaxHeap| #[trigger] queue.contains(entry) implies entry.frame
                == frame - 1 && entry.frequency_index < upto by {
                if entry != candidate(previous, upto - 1, frame - 1) {
                    assert(smaller.contains(entry));
                }
            }
        } else {
            let step = Step::Random { bin: (upto - 1) as usize };
            assert(anchored_at(steps, fewer.len() as int, upto - 1));
            assert forall|bin: int|
                0 <= bin < upto && !#[trigger] waiting[bin] implies anchored_before(
                steps,
                steps.len() as int,
                bin,
            ) by {
                if bin < upto - 1 {
                    lemma_anchor_stays(fewer, step, fewer.len() as int, steps.len() as int, bin);
                }
            }
            assert forall|j: int, k: int| 0 <= j < k < steps.len() implies (
            #[trigger] steps[j]).written() < (#[trigger] steps[k]).written() by {
                assert(steps[j] == fewer[j]);
                if k < fewer.len() {
                    assert(steps[k] == fewer[k]);
                }
            }
        }
    }
}

/// The greatest of the magnitudes; 0 where there is none.
pub open spec fn peak_of(magnitudes: Seq<u64>) -> u64
    decreases magnitudes.len(),
{
    if magnitudes.len() == 0 {
        0
    } else {
        let rest = peak_of(magnitudes.drop_last());
        if magnitudes.last() > rest {
            magnitudes.last()
        } else {
            rest
        }
    }
}

/// The peak is at least every magnitude, and is one of them.
pub proof fn lemma_peak(magnitudes: Seq<u64>)
    ensures
        forall|bin: int| 0 <= bin < magnitudes.len() ==> magnitudes[bin] <= peak_of(magnitudes),
        magnitudes.len() > 0 ==> exists|bin: int|
            0 <= bin < magnitudes.len() && magnitudes[bin] == peak_of(magnitudes),
    decreases magnitudes.len(),
{
    if magnitudes.len() > 0 {
        let shorter = magnitudes.drop_last();
        lemma_peak(shorter);
        assert forall|bin: int| 0 <= bin < magnitudes.len() implies magnitudes[bin] <= peak_of(
            magnitudes,
        ) by {
            if bin < shorter.len() {
                assert(shorter[bin] == magnitudes[bin]);
            }
        }
        if magnitudes.last() > peak_of(shorter) || shorter.len() == 0 {
            assert(magnitudes[magnitudes.len() - 1] == peak_of(magnitudes));
        } else {
            let bin = choose|bin: int| 0 <= bin < shorter.len() && shorter[bin] == peak_of(shorter);
            assert(magnitudes[bin] == peak_of(magnitudes));
        }
    }
}

/// The greatest magnitude of a frame; 0 for a frame without bins. The
/// tolerance of a frame is a fraction of the greater of its peak and the peak
/// of the frame before.
pub fn peak(magnitudes: &Vec<u64>) -> (top: u64)
    ensures
        top == peak_of(magnitudes@),
{
    let mut top: u64 = 0;
    let mut bin: usize = 0;
    while bin < magnitudes.len()
        invariant
            bin <= magnitudes.len(),
            top == peak_of(magnitudes@.take(bin as int)),
        decreases magnitudes.len() - bin,
    {
        proof {
            assert(magnitudes@.take(bin + 1).drop_last() =~= magnitudes@.take(bin as int));
        }
        if magnitudes[bin] > top {
            top = magnitudes[bin];
        }
        bin += 1;
    }
    proof {
        assert(magnitudes@.take(magnitudes.len() as int) =~= magnitudes@);
    }
    top
}

/// Carries out the propagation frame by frame. It owns the queue and the list
/// of the bins that wait, so that neither is allocated anew for each frame;
/// between two frames the queue is empty.
pub struct PhaseIntegrator {
    queue: MagnitudeQueue,
    pending: Vec<bool>,
}

impl View for PhaseIntegrator {
    type V = Multiset<MaxHeap>;

    /// The candidates that wait in the queue of the integrator.
    closed spec fn view(&self) -> Multiset<MaxHeap> {
        self.queue@
    }
}

impl PhaseIntegrator {
    #[verifier::type_invariant]
    spec fn at_rest(self) -> bool {
        self.queue@.len() == 0
    }

    /// An integrator that has seen no frame: no candidate waits in its queue.
    pub fn new() -> (integrator: Self)
        ensures
            integrator@ == Multiset::<MaxHeap>::empty(),
    {
        PhaseIntegrator { queue: MagnitudeQueue::new(), pending: Vec::new() }
    }

    /// The assignments that give frame `frame` its synthesis phase, in the
    /// order in which they are to be made.
    ///
    /// `current` holds the magnitudes of the frame, `previous` those of the
    /// frame before it (not looked at in the first two frames); a bin is
    /// significant when its magnitude exceeds `tolerance`.
    ///
    /// Every bin receives its phase by exactly one step, and no step reads a
    /// phase before the step that gives it. A bin that waits has its
    /// candidate in the queue, so the queue never runs empty before the last
    /// bin has its phase, and is never filled a second time. When the steps
    /// are made the queue has run empty, and is ready for the next frame.
    pub fn integrate(
        &mut self,
        frame: usize,
        previous: &Vec<u64>,
        current: &Vec<u64>,
        tolerance: u64,
    ) -> (steps: Vec<Step>)
        requires
            frame >= 2 ==> previous.len() == current.len(),
        ensures
            steps@ == plan(frame as int, previous@, current@, tolerance),
            orderly(steps@, current.len() as int),
            anchored_once(steps@),
            anchored_all(steps@, current.len() as int),
            fitting(steps@, frame as int, current@, tolerance),
            final(self)@ == Multiset::<MaxHeap>::empty(),
    {
        proof {
            use_type_invariant(&*self);
            assert(self.queue@ =~= Multiset::<MaxHeap>::empty());
        }
        let bins: usize = current.len();
        let mut steps: Vec<Step> = Vec::new();
        if frame < 2 {
            let mut bin: usize = 0;
            while bin < bins
                invariant
                    bin <= bins,
                    steps@ == Seq::new(bin as nat, |b: int| Step::Initial { bin: b as usize }),
                decreases bins - bin,
            {
                steps.push(Step::Initial { bin });
                bin += 1;
            }
            proof {
                assert forall|b: int| 0 <= b < bins implies anchored_before(
                    steps@,
                    steps@.len() as int,
                    b,
                ) by {
                    assert(anchored_at(steps@, b, b));
                }
            }
            return steps;
        }
        let mut queue = MagnitudeQueue::new();
        std::mem::swap(&mut queue, &mut self.queue);
        let mut pending: Vec<bool> = Vec::new();
        std::mem::swap(&mut pending, &mut self.pending);
        pending.clear();
        let ghost waiting = significant(current@, tolerance);
        proof {
            assert(queue@ =~= Multiset::<MaxHeap>::empty());
        }
        let mut bin: usize = 0;
        while bin < bins
            invariant
                bin <= bins,
                bins == current.len(),
                bins == previous.len(),
                frame >= 2,
                waiting == significant(current@, tolerance),
                pending@ == waiting.take(bin as int),
                steps@ == scattered(waiting, bin as int),
                queue@ == seeds(frame as int, previous@, waiting, bin as int),
            decreases bins - bin,
        {
            let waits = current[bin] > tolerance;
            pending.push(waits);
            if waits {
                queue.push(
                    MaxHeap { magnitude: previous[bin], frequency_index: bin, frame: frame - 1 },
                );
            } else {
                steps.push(Step::Random { bin });
            }
            proof {
                assert(pending@ =~= waiting.take(bin + 1));
            }
            bin += 1;
        }
        proof {
            assert(pending@ =~= waiting);
            lemma_partition_sound(frame as int, previous@, current@, tolerance, bins as int);
            assert(sound(frame as int, previous@, current@, tolerance, steps@, pending@, queue@))
                by {
                reveal(sound);
            }
        }
        loop
            invariant
                bins == current.len(),
                pending.len() == bins,
                2 <= frame,
                sound(frame as int, previous@, current@, tolerance, steps@, pending@, queue@),
                steps@ + drain(frame as int, current@, pending@, queue@) == plan(
                    frame as int,
                    previous@,
                    current@,
                    tolerance,
                ),
            ensures
                queue@.len() == 0,
                sound(frame as int, previous@, current@, tolerance, steps@, pending@, queue@),
                steps@ == plan(frame as int, previous@, current@, tolerance),
            decreases queue@.len() + 2 * count_true(pending@),
        {
            let ghost steps0 = steps@;
            let ghost pending0 = pending@;
            let ghost queue0 = queue@;
            let top = match queue.pop() {
                Some(top) => top,
                None => {
                    proof {
                        assert(steps@ + Seq::<Step>::empty() =~= steps@);
                    }
                    break ;
                },
            };
            let ghost reaction = react(top, frame as int, current@, pending0);
            proof {
                lemma_largest(queue0);
                assert(top == largest(queue0));
                lemma_react_budget(top, frame as int, current@, pending0);
                lemma_sound_entry(
                    frame as int,
                    previous@,
                    current@,
                    tolerance,
                    steps0,
                    pending0,
                    queue0,
                    top,
                );
            }
            let at: usize = top.frequency_index;
            if top.frame == frame - 1 {
                if at < bins && pending[at] {
                    steps.push(Step::Time { bin: at });
                    pending.set(at, false);
                    queue.push(MaxHeap { magnitude: current[at], frequency_index: at, frame });
                    proof {
                        let step = Step::Time { bin: at };
                        let entry = candidate(current@, at as int, frame as int);
                        lemma_sound_anchor(
                            frame as int,
                            previous@,
                            current@,
                            tolerance,
                            steps0,
                            pending0,
                            queue0,
                            step,
                        );
                        lemma_sound_remove(
                            frame as int,
                            previous@,
                            current@,
                            tolerance,
                            steps@,
                            pending@,
                            queue0.insert(entry),
                            top,
                        );
                        assert(queue@ =~= queue0.insert(entry).remove(top));
                        assert(queue@ =~= queue0.remove(top).add(reaction.pushed));
                        assert(steps@ =~= steps0 + reaction.steps);
                    }
                } else {
                    proof {
                        lemma_sound_remove(
                            frame as int,
                            previous@,
                            current@,
                            tolerance,
                            steps0,
                            pending0,
                            queue0,
                            top,
                        );
                        assert(queue@ =~= queue0.remove(top).add(reaction.pushed));
                        assert(steps@ =~= steps0 + reaction.steps);
                    }
                }
            } else {
                assert(top.frame == frame);
                proof {
                    lemma_sound_remove(
                        frame as int,
                        previous@,
                        current@,
                        tolerance,
                        steps0,
                        pending0,
                        queue0,
                        top,
                    );
                }
                if at + 1 >= bins {
                    steps.push(Step::EdgeUp { bin: at });
                    proof {
                        lemma_sound_correct(
                            frame as int,
                            previous@,
                            current@,
                            tolerance,
                            steps0,
                            pending0,
                            queue@,
                            Step::EdgeUp { bin: at },
                        );
                        assert(queue@ =~= queue0.remove(top).add(reaction.pushed));
                        assert(steps@ =~= steps0 + reaction.steps);
                    }
                } else if at == 0 {
                    steps.push(Step::EdgeDown { bin: at });
                    proof {
                        lemma_sound_correct(
                            frame as int,
                            previous@,
                            current@,
                            tolerance,
                            steps0,
                            pending0,
                            queue@,
                            Step::EdgeDown { bin: at },
                        );
                        assert(queue@ =~= queue0.remove(top).add(reaction.pushed));
                        assert(steps@ =~= steps0 + reaction.steps);
                    }
                } else {
                    let ghost up = react_up(top, frame as int, current@, pending0);
                    let ghost queue1 = queue@;
                    if pending[at + 1] {
                        steps.push(Step::Up { from: at });
                        pending.set(at + 1, false);
                        queue.push(
                            MaxHeap { magnitude: current[at + 1], frequency_index: at + 1, frame },
                        );
                        proof {
                            lemma_sound_anchor(
                                frame as int,
                                previous@,
                                current@,
                                tolerance,
                                steps0,
                                pending0,
                                queue1,
                                Step::Up { from: at },
                            );
                        }
                    }
                    let ghost steps2 = steps@;
                    let ghost pending2 = pending@;
                    let ghost queue2 = queue@;
                    proof {
                        assert(steps2 =~= steps0 + up.steps);
                        assert(pending2 == up.pending);
                        assert(queue2 =~= queue1.add(up.pushed));
                    }
                    if pending[at - 1] {
                        steps.push(Step::Down { from: at });
                        pending.set(at - 1, false);
                        queue.push(
                            MaxHeap { magnitude: current[at - 1], frequency_index: at - 1, frame },
                        );
                        proof {
                            lemma_sound_anchor(
                                frame as int,
                                previous@,
                                current@,
                                tolerance,
                                steps2,
                                pending2,
                                queue2,
                                Step::Down { from: at },
                            );
                        }
                    }
                    proof {
                        let down = react_down(top, frame as int, current@, up.pending);
                        assert(steps@ =~= steps2 + down.steps);
                        assert(steps@ =~= steps0 + reaction.steps);
                        assert(pending@ == reaction.pending);
                        assert(queue@ =~= queue2.add(down.pushed));
                        assert(queue@ =~= queue0.remove(top).add(reaction.pushed));
                    }
                }
            }
            proof {
                assert(pending@ == reaction.pending);
                let rest = drain(frame as int, current@, pending@, queue@);
                assert(drain(frame as int, current@, pending0, queue0) == reaction.steps + rest);
                assert(steps@ + rest =~= steps0 + (reaction.steps + rest));
            }
        }
        proof {
            lemma_sound_done(
                frame as int,
                previous@,
                current@,
                tolerance,
                steps@,
                pending@,
                queue@,
            );
            assert(queue@ =~= Multiset::<MaxHeap>::empty());
        }
        self.queue = queue;
        self.pending = pending;
        steps
    }
}

} // verus!
