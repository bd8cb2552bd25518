//! The frontier: candidate cells waiting to be expanded, handed out in a
//! fixed order.

use vstd::prelude::*;
use crate::cell::Cell;

verus! {

/// A candidate on the frontier: a cell with the estimated total cost `f` of a
/// route through it, the estimate `h` of what remains, and the ticket `seq`
/// drawn when it was inserted.
#[derive(Clone, Copy, Debug, PartialEq, Eq, Structural)]
pub struct Entry {
    pub f: u64,
    pub h: u64,
    pub seq: u64,
    pub cell: Cell,
}

/// The order in which entries leave the frontier: lower `f` first, among
/// equal `f` lower `h` first, among those the one inserted earlier.
pub open spec fn before(a: Entry, b: Entry) -> bool {
    a.f < b.f || (a.f == b.f && (a.h < b.h || (a.h == b.h && a.seq < b.seq)))
}

/// `e` is in `open` and comes before every other entry of it.
pub open spec fn is_first(open: Set<Entry>, e: Entry) -> bool {
    &&& open.contains(e)
    &&& forall|o: Entry| #[trigger] open.contains(o) ==> o == e || before(e, o)
}

/// The entry that leaves `open` next.
pub open spec fn first(open: Set<Entry>) -> Entry {
    choose|e: Entry| is_first(open, e)
}

/// At most one entry comes before all others.
pub proof fn lemma_first_unique(open: Set<Entry>, e: Entry)
    requires
        is_first(open, e),
    ensures
        first(open) == e,
{
}

/// No two entries carry the same ticket.
pub open spec fn distinct_tickets(open: Set<Entry>) -> bool {
    forall|a: Entry, b: Entry|
        #![trigger open.contains(a), open.contains(b)]
        open.contains(a) && open.contains(b) && a.seq == b.seq ==> a == b
}

/// Position of the parent of position `i` in a binary heap.
spec fn parent(i: int) -> int {
    (i - 1) / 2
}

/// Tickets in `s` are below `limit` and pairwise different.
spec fn ticketed(s: Seq<Entry>, limit: int) -> bool {
    &&& forall|i: int| 0 <= i < s.len() ==> (#[trigger] s[i]).seq < limit
    &&& forall|i: int, j: int|
        0 <= i < s.len() && 0 <= j < s.len() && i != j ==> (#[trigger] s[i]).seq != (
        #[trigger] s[j]).seq
}

/// Every entry but the one at `skip` comes after its parent, and the
/// children of `skip` come after the parent of `skip`.  This is what holds
/// while the entry at `skip` moves up.
spec fn heap_but_up(s: Seq<Entry>, skip: int) -> bool {
    &&& forall|j: int| 1 <= j < s.len() && j != skip ==> before(s[parent(j)], #[trigger] s[j])
    &&& forall|j: int|
        1 <= j < s.len() && parent(j) == skip && skip >= 1 ==> before(
            s[parent(skip)],
            #[trigger] s[j],
        )
}

/// Every entry comes after its parent, but the children of `skip` need not,
/// and they come after the parent of `skip`.  This is what holds while the
/// entry at `skip` moves down.
spec fn heap_but_down(s: Seq<Entry>, skip: int) -> bool {
    &&& forall|j: int|
        1 <= j < s.len() && parent(j) != skip ==> before(s[parent(j)], #[trigger] s[j])
    &&& forall|j: int|
        1 <= j < s.len() && parent(j) == skip && skip >= 1 ==> before(
            s[parent(skip)],
            #[trigger] s[j],
        )
}

/// Every entry comes after its parent.
spec fn heap_ordered(s: Seq<Entry>) -> bool {
    forall|j: int| 1 <= j < s.len() ==> before(s[parent(j)], #[trigger] s[j])
}

/// In a heap the entry at the root comes before every other.
proof fn lemma_root_first(s: Seq<Entry>, j: int)
    requires
        heap_ordered(s),
        1 <= j < s.len(),
    ensures
        before(s[0], s[j]),
    decreases j,
{
    if parent(j) != 0 {
        lemma_root_first(s, parent(j));
    }
}

/// Exchanging two entries changes neither the set of entries nor the
/// distinctness of their tickets.
proof fn lemma_exchange(s: Seq<Entry>, i: int, j: int, limit: int)
    requires
        0 <= i < s.len(),
        0 <= j < s.len(),
        ticketed(s, limit),
    ensures
        ticketed(s.update(i, s[j]).update(j, s[i]), limit),
        s.update(i, s[j]).update(j, s[i]).to_set() == s.to_set(),
{
    let t = s.update(i, s[j]).update(j, s[i]);
    assert forall|x: Entry| t.to_set().contains(x) <==> s.to_set().contains(x) by {
        if s.contains(x) {
            let k = choose|k: int| 0 <= k < s.len() && s[k] == x;
            let moved = if k == i { j } else if k == j { i } else { k };
            assert(t[moved] == x);
        }
    }
}

/// A priority queue of entries, kept as a binary heap.  Tickets are drawn
/// from a counter, so no two entries ever compare equal and the order of
/// removal is fixed by the insertions alone.
#[derive(Debug)]
pub struct Frontier {
    items: Vec<Entry>,
    next_seq: u64,
}

impl Frontier {
    /// The entries waiting on the frontier.
    pub closed spec fn entries(&self) -> Set<Entry> {
        self.items@.to_set()
    }

    /// The ticket that the next insertion draws.
    pub closed spec fn next_seq(&self) -> nat {
        self.next_seq as nat
    }

    /// Tickets held are below the counter and pairwise different, and the
    /// entries are in heap order.
    pub closed spec fn wf(&self) -> bool {
        &&& ticketed(self.items@, self.next_seq as int)
        &&& heap_ordered(self.items@)
    }

    /// What a well-formed frontier guarantees about its entries.
    pub proof fn lemma_entries(&self)
        requires
            self.wf(),
        ensures
            self.entries().finite(),
            self.next_seq() <= u64::MAX,
            distinct_tickets(self.entries()),
            forall|e: Entry| #[trigger] self.entries().contains(e) ==> e.seq < self.next_seq(),
    {
        vstd::seq_lib::seq_to_set_is_finite(self.items@);
    }

    pub fn new() -> (q: Frontier)
        ensures
            q.wf(),
            q.entries() == Set::<Entry>::empty(),
            q.next_seq() == 0,
    {
        let q = Frontier { items: Vec::new(), next_seq: 0 };
        q
    }

    pub fn is_empty(&self) -> (b: bool)
        ensures
            b == self.entries().is_empty(),
    {
        let b = self.items.len() == 0;
        proof {
            if !b {
                assert(self.entries().contains(self.items@[0]));
            }
        }
        b
    }

    /// Number of entries waiting.
    pub fn len(&self) -> (n: usize)
        requires
            self.wf(),
        ensures
            n == self.entries().len(),
    {
        proof {
            self.items@.unique_seq_to_set();
        }
        self.items.len()
    }

    /// Executable form of [`before`].
    pub fn precedes(a: &Entry, b: &Entry) -> (r: bool)
        ensures
            r == before(*a, *b),
    {
        a.f < b.f || (a.f == b.f && (a.h < b.h || (a.h == b.h && a.seq < b.seq)))
    }

    /// Exchanges the entries at positions `i` and `j`.
    fn exchange(&mut self, i: usize, j: usize)
        requires
            i < old(self).items@.len(),
            j < old(self).items@.len(),
            ticketed(old(self).items@, old(self).next_seq as int),
        ensures
            final(self).next_seq == old(self).next_seq,
            final(self).items@ == old(self).items@.update(i as int, old(self).items@[j as int]).update(
                j as int,
                old(self).items@[i as int],
            ),
            ticketed(final(self).items@, final(self).next_seq as int),
            final(self).items@.to_set() == old(self).items@.to_set(),
    {
        let a: Entry = self.items[i];
        let b: Entry = self.items[j];
        self.items.set(i, b);
        self.items.set(j, a);
        proof {
            lemma_exchange(old(self).items@, i as int, j as int, self.next_seq as int);
        }
    }

    /// Moves the entry at `at` up until its parent comes before it.
    fn sift_up(&mut self, at: usize)
        requires
            at < old(self).items@.len(),
            ticketed(old(self).items@, old(self).next_seq as int),
            heap_but_up(old(self).items@, at as int),
        ensures
            final(self).wf(),
            final(self).next_seq == old(self).next_seq,
            final(self).items@.to_set() == old(self).items@.to_set(),
    {
        let mut i: usize = at;
        while i > 0
            invariant
                i < self.items@.len(),
                self.next_seq == old(self).next_seq,
                ticketed(self.items@, self.next_seq as int),
                heap_but_up(self.items@, i as int),
                self.items@.to_set() == old(self).items@.to_set(),
            ensures
                self.wf(),
            decreases i,
        {
            let up: usize = (i - 1) / 2;
            if !Self::precedes(&self.items[i], &self.items[up]) {
                break;
            }
            self.exchange(i, up);
            i = up;
        }
    }

    /// Moves the entry at the root down until it comes before its children.
    fn sift_down(&mut self)
        requires
            ticketed(old(self).items@, old(self).next_seq as int),
            heap_but_down(old(self).items@, 0),
        ensures
            final(self).wf(),
            final(self).next_seq == old(self).next_seq,
            final(self).items@.to_set() == old(self).items@.to_set(),
    {
        let n: usize = self.items.len();
        let mut i: usize = 0;
        while i < n / 2
            invariant
                n == self.items@.len(),
                self.next_seq == old(self).next_seq,
                ticketed(self.items@, self.next_seq as int),
                heap_but_down(self.items@, i as int),
                self.items@.to_set() == old(self).items@.to_set(),
            ensures
                self.wf(),
            decreases n - i,
        {
            let left: usize = 2 * i + 1;
            let right: usize = left + 1;
            let mut least: usize = i;
            if Self::precedes(&self.items[left], &self.items[least]) {
                least = left;
            }
            if right < n && Self::precedes(&self.items[right], &self.items[least]) {
                least = right;
            }
            if least == i {
                break;
            }
            self.exchange(i, least);
            i = least;
        }
    }

    /// Inserts `cell` with its scores and stamps the entry with the next
    /// ticket.
    pub fn push(&mut self, cell: Cell, f: u64, h: u64)
        requires
            old(self).wf(),
            old(self).next_seq() < u64::MAX,
        ensures
            final(self).wf(),
            final(self).entries() == old(self).entries().insert(
                Entry { f, h, seq: old(self).next_seq() as u64, cell },
            ),
            final(self).next_seq() == old(self).next_seq() + 1,
    {
        let e = Entry { f, h, seq: self.next_seq, cell };
        let at: usize = self.items.len();
        self.items.push(e);
        self.next_seq = self.next_seq + 1;
        proof {
            old(self).items@.lemma_push_to_set_commute(e);
        }
        self.sift_up(at);
    }

    /// Removes and returns the entry that comes before all others, if there
    /// is any.
    pub fn pop(&mut self) -> (res: Option<Entry>)
        requires
            old(self).wf(),
        ensures
            final(self).wf(),
            final(self).next_seq() == old(self).next_seq(),
            match res {
                Some(e) => {
                    &&& is_first(old(self).entries(), e)
                    &&& final(self).entries() == old(self).entries().remove(e)
                },
                None => {
                    &&& old(self).entries().is_empty()
                    &&& final(self).entries() == old(self).entries()
                },
            },
    {
        let ghost was = self.items@;
        let last: Entry = match self.items.pop() {
            Some(last) => last,
            None => {
                return None;
            },
        };
        if self.items.len() == 0 {
            return Some(last);
        }
        let top: Entry = self.items[0];
        self.items.set(0, last);
        proof {
            let now = self.items@;
            let n = was.len() as int;
            assert forall|o: Entry| #[trigger] was.to_set().contains(o) implies o == top || before(
                top,
                o,
            ) by {
                let j = choose|j: int| 0 <= j < was.len() && was[j] == o;
                if j != 0 {
                    lemma_root_first(was, j);
                }
            }
            assert forall|x: Entry| now.to_set().contains(x) <==> was.to_set().remove(top).contains(
                x,
            ) by {
                if was.contains(x) && x != top {
                    let j = choose|j: int| 0 <= j < was.len() && was[j] == x;
                    let moved = if j == n - 1 { 0 } else { j };
                    assert(now[moved] == x);
                }
            }
        }
        self.sift_down();
        Some(top)
    }
}

} // verus!
