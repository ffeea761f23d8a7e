//! The priority queue of the phase propagation: candidates ordered by
//! magnitude, largest first.
//!
//! A magnitude is carried as an order key, an unsigned integer that grows with
//! the magnitude it stands for. (The bit pattern of a non-negative IEEE double
//! is such a key.)
//!
//! Candidates are equal and ordered by their magnitude alone. The queue has
//! a rule of its own for candidates of one magnitude, so that what it gives
//! out next is settled; that rule is the queue's and says nothing of the
//! candidates themselves.

use core::cmp::Ordering;
use vstd::multiset::Multiset;
use vstd::prelude::*;
use vstd::std_specs::cmp::{PartialEqSpecImpl, PartialOrdSpecImpl};
use vstd::seq_lib::{to_multiset_build, to_multiset_contains, to_multiset_len, to_multiset_remove, to_multiset_update};

verus! {

/// A candidate of the propagation: a bin of a frame, with the magnitude that
/// decides when its turn comes.
#[derive(Clone, Copy, Debug)]
pub struct MaxHeap {
    pub magnitude: u64,
    pub frequency_index: usize,
    pub frame: usize,
}

impl PartialEq for MaxHeap {
    /// Two candidates are equal when their magnitudes are: bin and frame do
    /// not count.
    fn eq(&self, other: &Self) -> (r: bool) {
        self.magnitude == other.magnitude
    }
}

impl PartialEqSpecImpl for MaxHeap {
    open spec fn obeys_eq_spec() -> bool {
        true
    }

    open spec fn eq_spec(&self, other: &Self) -> bool {
        self.magnitude == other.magnitude
    }
}

impl Eq for MaxHeap {

}

impl PartialOrd for MaxHeap {
    /// Candidates are ordered by magnitude alone; any two can be compared.
    fn partial_cmp(&self, other: &Self) -> (r: Option<Ordering>) {
        Some(self.cmp(other))
    }
}

impl PartialOrdSpecImpl for MaxHeap {
    open spec fn obeys_partial_cmp_spec() -> bool {
        true
    }

    open spec fn partial_cmp_spec(&self, other: &Self) -> Option<Ordering> {
        Some(self.magnitude_order(*other))
    }
}

impl MaxHeap {
    /// How the magnitude of `self` stands to that of `other`.
    pub open spec fn magnitude_order(self, other: MaxHeap) -> Ordering {
        if self.magnitude < other.magnitude {
            Ordering::Less
        } else if self.magnitude > other.magnitude {
            Ordering::Greater
        } else {
            Ordering::Equal
        }
    }

    /// The order of two candidates: that of their magnitudes. Bin and frame
    /// do not count, so two candidates of one magnitude are equal.
    pub fn cmp(&self, other: &Self) -> (r: Ordering)
        ensures
            r == self.magnitude_order(*other),
    {
        if self.magnitude < other.magnitude {
            Ordering::Less
        } else if self.magnitude > other.magnitude {
            Ordering::Greater
        } else {
            Ordering::Equal
        }
    }
}

/// The rule of the queue: `later` leaves the queue after `sooner`. The
/// candidate of the greater magnitude leaves first. Among candidates of one
/// magnitude, which are equal as candidates, the queue lets the higher bin
/// out first, and of one bin the later frame; so what leaves a queue next
/// is always one candidate.
pub open spec fn queued_behind(later: MaxHeap, sooner: MaxHeap) -> bool {
    ||| later.magnitude < sooner.magnitude
    ||| later.magnitude == sooner.magnitude && later.frequency_index < sooner.frequency_index
    ||| later.magnitude == sooner.magnitude && later.frequency_index == sooner.frequency_index
        && later.frame < sooner.frame
}

/// `later` is `sooner`, field by field, or leaves the queue after it.
pub open spec fn queued_no_sooner(later: MaxHeap, sooner: MaxHeap) -> bool {
    later === sooner || queued_behind(later, sooner)
}

/// The rule of the queue never goes against the order of the candidates:
/// what leaves later has no greater magnitude.
pub proof fn lemma_queue_follows_magnitude(later: MaxHeap, sooner: MaxHeap)
    requires
        queued_no_sooner(later, sooner),
    ensures
        later.magnitude <= sooner.magnitude,
        !(later.magnitude_order(sooner) is Greater),
{
}

/// Whether `first` leaves a queue before `second`.
pub fn leaves_first(first: &MaxHeap, second: &MaxHeap) -> (r: bool)
    ensures
        r == queued_behind(*second, *first),
{
    if first.magnitude != second.magnitude {
        first.magnitude > second.magnitude
    } else if first.frequency_index != second.frequency_index {
        first.frequency_index > second.frequency_index
    } else {
        first.frame > second.frame
    }
}

/// The slot above slot `i` in the implicit binary tree.
pub open spec fn parent(i: int) -> int {
    (i - 1) / 2
}

/// Every slot but the root holds at most what its parent holds.
pub open spec fn heap_ordered(s: Seq<MaxHeap>) -> bool {
    forall|i: int| 0 < i < s.len() ==> queued_no_sooner((#[trigger] s[i]), s[parent(i)])
}

/// `s` is heap ordered but for slot `hole`, which may hold more than its
/// parent; what hangs below `hole` is still at most what stands above it.
spec fn ordered_but_above(s: Seq<MaxHeap>, hole: int) -> bool {
    &&& forall|i: int| 0 < i < s.len() && i != hole ==> queued_no_sooner((#[trigger] s[i]), s[parent(i)])
    &&& forall|i: int|
        0 < i < s.len() && parent(i) == hole && hole > 0 ==> queued_no_sooner((#[trigger] s[i]), s[parent(hole)],)
}

/// `s` is heap ordered but for slot `hole`, which may hold less than its
/// children; what hangs below `hole` is still at most what stands above it.
spec fn ordered_but_below(s: Seq<MaxHeap>, hole: int) -> bool {
    &&& forall|i: int|
        0 < i < s.len() && parent(i) != hole ==> queued_no_sooner((#[trigger] s[i]), s[parent(i)])
    &&& forall|i: int|
        0 < i < s.len() && parent(i) == hole && hole > 0 ==> queued_no_sooner((#[trigger] s[i]), s[parent(hole)],)
}

/// Exchanging two slots keeps the contents.
proof fn lemma_swap_keeps_contents(s: Seq<MaxHeap>, i: int, j: int)
    requires
        0 <= i < s.len(),
        0 <= j < s.len(),
    ensures
        s.update(i, s[j]).update(j, s[i]).to_multiset() == s.to_multiset(),
{
    let t = s.update(i, s[j]);
    to_multiset_update(s, i, s[j]);
    to_multiset_update(t, j, s[i]);
    to_multiset_contains(s, s[i]);
    to_multiset_contains(s, s[j]);
    assert(s.contains(s[i]));
    assert(s.contains(s[j]));
    assert(t.update(j, s[i]).to_multiset() =~= s.to_multiset());
}

/// In a heap-ordered sequence nothing exceeds the root.
proof fn lemma_root_is_maximum(s: Seq<MaxHeap>, i: int)
    requires
        heap_ordered(s),
        0 <= i < s.len(),
    ensures
        queued_no_sooner(s[i], s[0]),
    decreases i,
{
    if i > 0 {
        lemma_root_is_maximum(s, parent(i));
        assert(queued_no_sooner(s[i], s[parent(i)]));
    }
}

fn exchange(v: &mut Vec<MaxHeap>, i: usize, j: usize)
    requires
        i < old(v).len(),
        j < old(v).len(),
    ensures
        final(v)@ == old(v)@.update(i as int, old(v)@[j as int]).update(j as int, old(v)@[i as int]),
        final(v)@.to_multiset() == old(v)@.to_multiset(),
{
    let a = v[i];
    let b = v[j];
    v.set(i, b);
    v.set(j, a);
    proof {
        lemma_swap_keeps_contents(old(v)@, i as int, j as int);
    }
}

/// Moves the entry at `start` up until its parent holds at least as much.
fn sift_up(v: &mut Vec<MaxHeap>, start: usize)
    requires
        start < old(v).len(),
        ordered_but_above(old(v)@, start as int),
    ensures
        heap_ordered(final(v)@),
        final(v)@.to_multiset() == old(v)@.to_multiset(),
{
    let mut i: usize = start;
    while i > 0 && leaves_first(&v[i], &v[(i - 1) / 2])
        invariant
            i < v.len(),
            ordered_but_above(v@, i as int),
            v@.to_multiset() == old(v)@.to_multiset(),
        ensures
            heap_ordered(v@),
        decreases i,
    {
        let up: usize = (i - 1) / 2;
        let ghost before = v@;
        exchange(v, i, up);
        proof {
            assert forall|k: int| 0 < k < v@.len() && k != up implies queued_no_sooner((#[trigger] v@[k]), v@[parent(k)],) by {
                if k == i {
                } else if parent(k) == i {
                    assert(queued_no_sooner(before[k], before[parent(i as int)]));
                } else if parent(k) == up {
                    assert(queued_no_sooner(before[k], before[up as int]));
                } else {
                    assert(queued_no_sooner(before[k], before[parent(k)]));
                }
            }
            assert forall|k: int|
                0 < k < v@.len() && parent(k) == up && up > 0 implies queued_no_sooner((#[trigger] v@[k]), v@[parent(up as int)],) by {
                assert(queued_no_sooner(before[up as int], before[parent(up as int)]));
                if k != i {
                    assert(queued_no_sooner(before[k], before[up as int]));
                }
            }
        }
        i = up;
    }
}

/// Moves the entry at `start` down until neither child holds more.
fn sift_down(v: &mut Vec<MaxHeap>, start: usize)
    requires
        start < old(v).len(),
        ordered_but_below(old(v)@, start as int),
    ensures
        heap_ordered(final(v)@),
        final(v)@.to_multiset() == old(v)@.to_multiset(),
{
    let n: usize = v.len();
    let mut i: usize = start;
    loop
        invariant
            n == v.len(),
            i < n,
            ordered_but_below(v@, i as int),
            v@.to_multiset() == old(v)@.to_multiset(),
        ensures
            heap_ordered(v@),
            v@.to_multiset() == old(v)@.to_multiset(),
        decreases n - i,
    {
        if i >= n / 2 {
            // no child: 2 * i + 1 >= n
            assert forall|k: int| 0 < k < v@.len() implies queued_no_sooner((#[trigger] v@[k]), v@[parent(k)],) by {
                assert(parent(k) != i);
            }
            break;
        }
        let left: usize = 2 * i + 1;
        let right: usize = left + 1;
        let mut child: usize = left;
        if right < n && leaves_first(&v[right], &v[left]) {
            child = right;
        }
        if !leaves_first(&v[child], &v[i]) {
            assert forall|k: int| 0 < k < v@.len() implies queued_no_sooner((#[trigger] v@[k]), v@[parent(k)],) by {
                if parent(k) == i {
                    assert(k == left || k == right);
                }
            }
            break;
        }
        let ghost before = v@;
        exchange(v, i, child);
        proof {
            assert forall|k: int| 0 < k < v@.len() && parent(k) != child implies queued_no_sooner((
            #[trigger] v@[k]), v@[parent(k)]) by {
                if k == child {
                } else if parent(k) == i {
                    assert(k == left || k == right);
                } else if k == i {
                    assert(queued_no_sooner(before[child as int], before[parent(i as int)]));
                } else {
                    assert(queued_no_sooner(before[k], before[parent(k)]));
                }
            }
            assert forall|k: int|
                0 < k < v@.len() && parent(k) == child && child > 0 implies queued_no_sooner((
            #[trigger] v@[k]), v@[parent(child as int)]) by {
                assert(queued_no_sooner(before[k], before[child as int]));
            }
        }
        i = child;
    }
}

/// The candidates that wait for their turn, the largest first.
pub struct MagnitudeQueue {
    entries: Vec<MaxHeap>,
}

impl View for MagnitudeQueue {
    type V = Multiset<MaxHeap>;

    /// What the queue holds.
    closed spec fn view(&self) -> Multiset<MaxHeap> {
        self.entries@.to_multiset()
    }
}

impl MagnitudeQueue {
    #[verifier::type_invariant]
    spec fn well_formed(self) -> bool {
        heap_ordered(self.entries@)
    }

    /// An empty queue.
    pub fn new() -> (queue: Self)
        ensures
            queue@ == Multiset::<MaxHeap>::empty(),
    {
        let queue = MagnitudeQueue { entries: Vec::new() };
        proof {
            assert(queue.entries@.to_multiset() =~= Multiset::<MaxHeap>::empty()) by {
                to_multiset_len(queue.entries@);
            }
        }
        queue
    }

    /// The number of candidates that wait.
    pub fn len(&self) -> (n: usize)
        ensures
            n == self@.len(),
    {
        proof {
            to_multiset_len(self.entries@);
        }
        self.entries.len()
    }

    /// Whether no candidate waits.
    pub fn is_empty(&self) -> (empty: bool)
        ensures
            empty == (self@.len() == 0),
    {
        proof {
            to_multiset_len(self.entries@);
        }
        self.entries.len() == 0
    }

    /// Adds a candidate.
    pub fn push(&mut self, entry: MaxHeap)
        ensures
            final(self)@ == old(self)@.insert(entry),
    {
        proof {
            use_type_invariant(&*self);
        }
        let mut entries: Vec<MaxHeap> = Vec::new();
        std::mem::swap(&mut entries, &mut self.entries);
        let ghost before = entries@;
        entries.push(entry);
        proof {
            to_multiset_build(before, entry);
            assert forall|i: int|
                0 < i < entries@.len() && i != entries@.len() - 1 implies queued_no_sooner((
            #[trigger] entries@[i]), entries@[parent(i)]) by {
                assert(queued_no_sooner(before[i], before[parent(i)]));
            }
        }
        let last: usize = entries.len() - 1;
        sift_up(&mut entries, last);
        self.entries = entries;
    }

    /// Takes out a candidate of the greatest magnitude: no candidate in the
    /// queue has a greater one. Where several have it, the rule of the queue
    /// says which of them leaves (see [`queued_behind`]). `None` when the
    /// queue is empty.
    pub fn pop(&mut self) -> (top: Option<MaxHeap>)
        ensures
            top is None <==> old(self)@.len() == 0,
            top is None ==> final(self)@ == old(self)@,
            top matches Some(entry) ==> {
                &&& old(self)@.contains(entry)
                &&& forall|other: MaxHeap| #[trigger]
                    old(self)@.contains(other) ==> other.magnitude <= entry.magnitude
                &&& forall|other: MaxHeap| #[trigger]
                    old(self)@.contains(other) ==> queued_no_sooner(other, entry)
                &&& final(self)@ == old(self)@.remove(entry)
            },
    {
        proof {
            use_type_invariant(&*self);
            to_multiset_len(self.entries@);
        }
        let mut entries: Vec<MaxHeap> = Vec::new();
        std::mem::swap(&mut entries, &mut self.entries);
        let ghost before = entries@;
        let n: usize = entries.len();
        if n == 0 {
            self.entries = entries;
            return None;
        }
        let top = entries[0];
        let last = entries.pop().unwrap();
        proof {
            assert(entries@ == before.remove(n - 1));
            to_multiset_remove(before, n - 1);
            to_multiset_contains(before, top);
            to_multiset_contains(before, last);
            assert(before.contains(top));
            assert(before.contains(last));
            assert forall|other: MaxHeap| #[trigger]
                before.to_multiset().contains(other) implies queued_no_sooner(other, top) by {
                to_multiset_contains(before, other);
                let k = choose|k: int| 0 <= k < before.len() && before[k] == other;
                lemma_root_is_maximum(before, k);
            }
        }
        if n > 1 {
            let ghost shorter = entries@;
            entries.set(0, last);
            proof {
                to_multiset_update(shorter, 0, last);
                assert(entries@.to_multiset() =~= before.to_multiset().remove(top));
                assert forall|i: int| 0 < i < entries@.len() && parent(i) != 0 implies queued_no_sooner((
                #[trigger] entries@[i]), entries@[parent(i)]) by {
                    assert(queued_no_sooner(before[i], before[parent(i)]));
                }
            }
            sift_down(&mut entries, 0);
        } else {
            proof {
                to_multiset_len(entries@);
                assert(entries@.to_multiset() =~= before.to_multiset().remove(top));
            }
        }
        self.entries = entries;
        Some(top)
    }
}

} // verus!
