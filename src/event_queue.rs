use crate::point::{lemma_sweep_cmp_flip, lemma_sweep_refl, lemma_sweep_trans, sweep_cmp, sweep_le, Point};
use std::cmp::Ordering;
use vstd::prelude::*;

verus! {

/// Every point of `s` is no greater, in sweep order, than every point after it.
pub open spec fn ascending(s: Seq<Point>) -> bool {
    forall|i: int, j: int| 0 <= i < j < s.len() ==> sweep_le(#[trigger] s[i], #[trigger] s[j])
}

/// Every point of `s` is no smaller, in sweep order, than every point after it.
pub open spec fn descending(s: Seq<Point>) -> bool {
    forall|i: int, j: int| 0 <= i < j < s.len() ==> sweep_le(#[trigger] s[j], #[trigger] s[i])
}

/// A priority queue of sweep events that holds each point at most once.
/// The points are kept in ascending sweep order, so the next event to
/// process is the last one; membership and order live in one sequence and
/// cannot disagree.
pub struct EventQueue {
    items: Vec<Point>,
}

impl View for EventQueue {
    type V = Set<Point>;

    /// The points queued.
    closed spec fn view(&self) -> Set<Point> {
        self.items@.to_set()
    }
}

/// Pushing a point that is already queued changes neither the set of queued
/// points nor their number.
pub proof fn lemma_push_twice(queued: Set<Point>, p: Point)
    requires
        queued.finite(),
    ensures
        queued.insert(p).insert(p) == queued.insert(p),
        queued.insert(p).insert(p).len() == queued.insert(p).len(),
{
    assert(queued.insert(p).insert(p) =~= queued.insert(p));
}

impl EventQueue {
    /// The queue's invariant: ascending sweep order and no point twice.
    pub closed spec fn wf(&self) -> bool {
        ascending(self.items@) && self.items@.no_duplicates()
    }

    proof fn lemma_len(&self)
        requires
            self.wf(),
        ensures
            self@.finite(),
            self@.len() == self.items@.len(),
    {
        self.items@.unique_seq_to_set();
    }

    pub fn new() -> (r: EventQueue)
        ensures
            r.wf(),
            r@ == Set::<Point>::empty(),
    {
        let r = EventQueue { items: Vec::new() };
        assert(r@ =~= Set::<Point>::empty());
        r
    }

    /// The number of queued points.
    pub fn len(&self) -> (r: usize)
        requires
            self.wf(),
        ensures
            r == self@.len(),
            self@.finite(),
    {
        proof {
            self.lemma_len();
        }
        self.items.len()
    }

    pub fn is_empty(&self) -> (r: bool)
        requires
            self.wf(),
        ensures
            r <==> self@.len() == 0,
    {
        self.len() == 0
    }

    /// Whether a point with exactly these coordinates is queued.
    pub fn contains(&self, event: &Point) -> (r: bool)
        ensures
            r <==> self@.contains(*event),
    {
        let mut i: usize = 0;
        while i < self.items.len()
            invariant
                i <= self.items.len(),
                forall|k: int| 0 <= k < i ==> self.items@[k] != *event,
            decreases self.items.len() - i,
        {
            if self.items[i] == *event {
                assert(self.items@.contains(*event));
                return true;
            }
            i = i + 1;
        }
        false
    }

    /// Queues `event` unless a point with the same coordinates is queued
    /// already, in which case nothing changes.
    pub fn push(&mut self, event: Point)
        requires
            old(self).wf(),
        ensures
            final(self).wf(),
            final(self)@ == old(self)@.insert(event),
            final(self)@.len() == old(self)@.len() + if old(self)@.contains(event) {
                0int
            } else {
                1int
            },
    {
        proof {
            self.lemma_len();
        }
        if self.contains(&event) {
            assert(self@.insert(event) =~= self@);
            return;
        }
        let ghost before = self.items@;
        let n = self.items.len();
        let mut k: usize = 0;
        while k < n && !matches!(self.items[k].cmp(&event), Ordering::Greater)
            invariant
                n == self.items.len(),
                k <= n,
                forall|j: int| 0 <= j < k ==> sweep_le(self.items@[j], event),
            decreases n - k,
        {
            k = k + 1;
        }
        self.items.insert(k, event);
        proof {
            let after = self.items@;
            before.insert_ensures(k as int, event);
            assert(after == before.insert(k as int, event));
            if k < n {
                lemma_sweep_cmp_flip(before[k as int], event);
            }
            assert forall|i: int, j: int| 0 <= i < j < after.len() implies sweep_le(
                #[trigger] after[i],
                #[trigger] after[j],
            ) by {
                if j < k {
                } else if j == k {
                } else if i < k {
                    lemma_sweep_trans(before[i], event, before[j - 1]);
                    lemma_sweep_trans(event, before[k as int], before[j - 1]);
                } else if i == k {
                    lemma_sweep_trans(event, before[k as int], before[j - 1]);
                } else {
                }
            }
            assert forall|i: int, j: int| 0 <= i < j < after.len() implies after[i]
                != after[j] by {
                if i == k {
                    assert(before.contains(before[j - 1]));
                } else if j == k {
                    assert(before.contains(before[i]));
                } else {
                }
            }
            assert forall|x: Point| after.contains(x) <==> before.contains(x) || x == event by {
                if after.contains(x) {
                    let idx = choose|idx: int| 0 <= idx < after.len() && after[idx] == x;
                    if idx < k {
                        assert(before[idx] == x);
                    } else if idx > k {
                        assert(before[idx - 1] == x);
                    }
                }
                if before.contains(x) {
                    let idx = choose|idx: int| 0 <= idx < before.len() && before[idx] == x;
                    if idx < k {
                        assert(after[idx] == x);
                    } else {
                        assert(after[idx + 1] == x);
                    }
                }
                if x == event {
                    assert(after[k as int] == x);
                }
            }
            assert(self@ =~= old(self)@.insert(event));
            self.lemma_len();
        }
    }

    /// Takes out a greatest point in sweep order (the highest, and of those
    /// the left-most); `None` when the queue is empty.
    pub fn pop(&mut self) -> (r: Option<Point>)
        requires
            old(self).wf(),
        ensures
            final(self).wf(),
            r is None <==> old(self)@.len() == 0,
            r is None ==> final(self)@ == old(self)@,
            r matches Some(p) ==> {
                &&& old(self)@.contains(p)
                &&& forall|q: Point| #[trigger] old(self)@.contains(q) ==> sweep_le(q, p)
                &&& final(self)@ == old(self)@.remove(p)
                &&& final(self)@.len() + 1 == old(self)@.len()
            },
    {
        proof {
            self.lemma_len();
        }
        let ghost before = self.items@;
        match self.items.pop() {
            None => None,
            Some(p) => {
                proof {
                    let after = self.items@;
                    let last = before.len() - 1;
                    assert(before[last] == p);
                    assert forall|q: Point| #[trigger] before.to_set().contains(q) implies sweep_le(
                        q,
                        p,
                    ) by {
                        let idx = choose|idx: int| 0 <= idx < before.len() && before[idx] == q;
                        if idx == last {
                            lemma_sweep_refl(p);
                        }
                    }
                    assert forall|x: Point| after.contains(x) <==> before.contains(x) && x != p by {
                        if after.contains(x) {
                            let idx = choose|idx: int| 0 <= idx < after.len() && after[idx] == x;
                            assert(before[idx] == x);
                        }
                        if before.contains(x) && x != p {
                            let idx = choose|idx: int| 0 <= idx < before.len() && before[idx] == x;
                            assert(after[idx] == x);
                        }
                    }
                    assert(self@ =~= before.to_set().remove(p));
                    self.lemma_len();
                }
                Some(p)
            },
        }
    }

    /// The queued points, in ascending sweep order.
    pub fn iter(&self) -> (r: Vec<Point>)
        requires
            self.wf(),
        ensures
            r@.to_set() == self@,
            r@.len() == self@.len(),
            r@.no_duplicates(),
            ascending(r@),
    {
        proof {
            self.lemma_len();
        }
        let mut r: Vec<Point> = Vec::new();
        let mut i: usize = 0;
        while i < self.items.len()
            invariant
                i <= self.items.len(),
                r@ == self.items@.subrange(0, i as int),
            decreases self.items.len() - i,
        {
            r.push(self.items[i]);
            i = i + 1;
        }
        assert(r@ =~= self.items@);
        r
    }

    /// Pops every point, greatest first, and returns them in that order.
    pub fn drain(&mut self) -> (r: Vec<Point>)
        requires
            old(self).wf(),
        ensures
            final(self).wf(),
            final(self)@ == Set::<Point>::empty(),
            descending(r@),
            r@.to_set() == old(self)@,
            r@.len() == old(self)@.len(),
    {
        proof {
            self.lemma_len();
        }
        let ghost before = self.items@;
        let ghost n = before.len();
        let mut r: Vec<Point> = Vec::new();
        while self.items.len() > 0
            invariant
                self.wf(),
                n == before.len(),
                ascending(before),
                self.items@ == before.subrange(0, n - r@.len()),
                r@.len() <= n,
                forall|i: int| 0 <= i < r@.len() ==> #[trigger] r@[i] == before[n - 1 - i],
            decreases self.items.len(),
        {
            let ghost items = self.items@;
            let p = self.items.pop();
            proof {
                assert(items.last() == before[n - 1 - r@.len()]);
                assert(self.items@ =~= before.subrange(0, n - r@.len() - 1));
                assert(ascending(self.items@));
                assert(self.items@.no_duplicates());
            }
            match p {
                Some(x) => {
                    r.push(x);
                },
                None => {},
            }
        }
        proof {
            assert(r@.len() == n);
            assert forall|i: int, j: int| 0 <= i < j < r@.len() implies sweep_le(
                #[trigger] r@[j],
                #[trigger] r@[i],
            ) by {
                assert(r@[j] == before[n - 1 - j]);
                assert(r@[i] == before[n - 1 - i]);
            }
            assert forall|x: Point| r@.contains(x) <==> before.contains(x) by {
                if r@.contains(x) {
                    let idx = choose|idx: int| 0 <= idx < r@.len() && r@[idx] == x;
                    assert(before[n - 1 - idx] == x);
                }
                if before.contains(x) {
                    let idx = choose|idx: int| 0 <= idx < n && before[idx] == x;
                    assert(r@[n - 1 - idx] == x);
                }
            }
            assert(r@.to_set() =~= before.to_set());
            assert(self@ =~= Set::<Point>::empty());
        }
        r
    }
}

} // verus!
