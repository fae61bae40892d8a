//! The tail cache: a bounded ring of the most recent events, keyed by
//! arrival index modulo its capacity, read back as a snapshot sorted by
//! sequence number.

use vstd::prelude::*;
use crate::msg::MboMsg;
use vstd::multiset::Multiset;

verus! {

/// Number of slots in the ring.
pub const TAIL_CAPACITY: usize = 20;

/// The ring. Slot `i mod TAIL_CAPACITY` holds the most recent event put
/// at an index congruent to `i`, or nothing yet.
pub struct TailCache {
    pub slots: Vec<Option<MboMsg>>,
}

impl View for TailCache {
    type V = Seq<Option<MboMsg>>;

    open spec fn view(&self) -> Seq<Option<MboMsg>> {
        self.slots@
    }
}

/// The events a ring state holds, in slot order.
pub open spec fn present(s: Seq<Option<MboMsg>>) -> Seq<MboMsg>
    decreases s.len(),
{
    if s.len() == 0 {
        Seq::empty()
    } else {
        let rest = present(s.drop_last());
        match s.last() {
            Some(m) => rest.push(m),
            None => rest,
        }
    }
}

pub open spec fn sorted_by_sequence(s: Seq<MboMsg>) -> bool {
    forall|a: int, b: int| 0 <= a <= b < s.len() ==> s[a].sequence <= s[b].sequence
}

/// An empty ring.
pub open spec fn empty_ring() -> Seq<Option<MboMsg>> {
    Seq::new(TAIL_CAPACITY as nat, |i: int| None::<MboMsg>)
}

/// The ring after events are put at consecutive indices 0, 1, 2, ...
pub open spec fn after_puts(s: Seq<Option<MboMsg>>, evs: Seq<MboMsg>) -> Seq<Option<MboMsg>>
    decreases evs.len(),
{
    if evs.len() == 0 {
        s
    } else {
        after_puts(s, evs.drop_last()).update(
            (evs.len() - 1) % (TAIL_CAPACITY as int),
            Some(evs.last()),
        )
    }
}

/// How many slots hold an event.
pub open spec fn count_some(s: Seq<Option<MboMsg>>) -> int
    decreases s.len(),
{
    if s.len() == 0 {
        0
    } else {
        count_some(s.drop_last()) + if s.last() is Some {
            1int
        } else {
            0int
        }
    }
}

pub proof fn lemma_present_len(s: Seq<Option<MboMsg>>)
    ensures
        present(s).len() == count_some(s),
    decreases s.len(),
{
    if s.len() > 0 {
        lemma_present_len(s.drop_last());
    }
}

/// A ring whose occupied slots are exactly a prefix holds that many
/// events.
proof fn lemma_count_prefix(s: Seq<Option<MboMsg>>, m: int)
    requires
        0 <= m <= s.len(),
        forall|k: int| 0 <= k < s.len() ==> ((#[trigger] s[k]) is Some <==> k < m),
    ensures
        count_some(s) == m,
    decreases s.len(),
{
    if s.len() > 0 {
        let s0 = s.drop_last();
        if m == s.len() {
            lemma_count_prefix(s0, m - 1);
        } else {
            lemma_count_prefix(s0, m);
        }
    }
}

/// After consecutive puts into a fresh ring, slot `k` is occupied
/// exactly when `k` is below the number of puts, up to the capacity.
proof fn lemma_after_puts_slots(evs: Seq<MboMsg>)
    ensures
        after_puts(empty_ring(), evs).len() == TAIL_CAPACITY,
        forall|k: int|
            0 <= k < TAIL_CAPACITY ==> ((#[trigger] after_puts(empty_ring(), evs)[k]) is Some
                <==> (k < evs.len() || evs.len() > TAIL_CAPACITY)),
    decreases evs.len(),
{
    if evs.len() > 0 {
        lemma_after_puts_slots(evs.drop_last());
    }
}

/// The tail-cache law: after k consecutive puts into a fresh ring, the
/// ring holds k events while k is at most the capacity, and exactly the
/// capacity from then on.
pub proof fn lemma_tail_fill(evs: Seq<MboMsg>)
    ensures
        evs.len() <= TAIL_CAPACITY ==> present(after_puts(empty_ring(), evs)).len() == evs.len(),
        evs.len() > TAIL_CAPACITY ==> present(after_puts(empty_ring(), evs)).len()
            == TAIL_CAPACITY,
{
    let t = after_puts(empty_ring(), evs);
    lemma_after_puts_slots(evs);
    lemma_present_len(t);
    if evs.len() <= TAIL_CAPACITY {
        lemma_count_prefix(t, evs.len() as int);
    } else {
        lemma_count_prefix(t, TAIL_CAPACITY as int);
    }
}

/// First slot of the smallest sequence number.
fn find_min_pos(v: &Vec<MboMsg>) -> (r: usize)
    requires
        v@.len() > 0,
    ensures
        0 <= r < v@.len(),
        forall|k: int| 0 <= k < v@.len() ==> v@[r as int].sequence <= (#[trigger] v@[k]).sequence,
{
    let mut best: usize = 0;
    let mut i: usize = 1;
    while i < v.len()
        invariant
            0 <= best < i <= v@.len(),
            forall|k: int| 0 <= k < i ==> v@[best as int].sequence <= (#[trigger] v@[k]).sequence,
        decreases v@.len() - i,
    {
        if v[i].sequence < v[best].sequence {
            best = i;
        }
        i = i + 1;
    }
    best
}

/// Sort events ascending by sequence number; the result holds the same
/// events.
fn sort_by_sequence(v: Vec<MboMsg>) -> (r: Vec<MboMsg>)
    ensures
        sorted_by_sequence(r@),
        r@.to_multiset() == v@.to_multiset(),
{
    broadcast use vstd::seq_lib::group_to_multiset_ensures;

    let mut rest = v;
    let ghost orig = rest@;
    let mut out: Vec<MboMsg> = Vec::new();
    while rest.len() > 0
        invariant
            sorted_by_sequence(out@),
            out@.to_multiset().add(rest@.to_multiset()) =~= orig.to_multiset(),
            forall|a: int, b: int|
                0 <= a < out@.len() && 0 <= b < rest@.len() ==> (#[trigger] out@[a]).sequence <= (
                #[trigger] rest@[b]).sequence,
        decreases rest@.len(),
    {
        let ghost rest0 = rest@;
        let ghost out0 = out@;
        let idx = find_min_pos(&rest);
        let x = rest.remove(idx);
        out.push(x);
        proof {
            broadcast use vstd::multiset::group_multiset_axioms;
            broadcast use vstd::seq_lib::group_to_multiset_ensures;

            assert(rest@ == rest0.remove(idx as int));
            assert(out@ == out0.push(x));
            assert(rest0.remove(idx as int).to_multiset() =~= rest0.to_multiset().remove(
                rest0[idx as int],
            ));
            assert(out0.push(x).to_multiset() =~= out0.to_multiset().insert(x));
            assert(rest0.contains(x));
            assert(rest0.to_multiset().count(x) > 0);
            assert(out@.to_multiset().add(rest@.to_multiset()) =~= out0.to_multiset().add(
                rest0.to_multiset(),
            ));
            assert(forall|b: int|
                0 <= b < rest@.len() ==> rest@[b] == rest0[b] || rest@[b] == rest0[b + 1]);
        }
    }
    proof {
        assert(rest@.to_multiset() =~= Multiset::<MboMsg>::empty());
        assert(out@.to_multiset() =~= orig.to_multiset());
    }
    out
}

impl TailCache {
    /// A fresh, empty ring.
    pub fn new() -> (r: Self)
        ensures
            r@ == empty_ring(),
    {
        let mut slots: Vec<Option<MboMsg>> = Vec::new();
        let mut i: usize = 0;
        while i < TAIL_CAPACITY
            invariant
                0 <= i <= TAIL_CAPACITY,
                slots@.len() == i,
                forall|k: int| 0 <= k < i ==> (#[trigger] slots@[k]) is None,
            decreases TAIL_CAPACITY - i,
        {
            slots.push(None);
            i = i + 1;
        }
        let r = TailCache { slots };
        proof {
            assert(r@ =~= empty_ring());
        }
        r
    }

    pub open spec fn wf(&self) -> bool {
        self@.len() == TAIL_CAPACITY
    }

    /// Write the event arriving at `index` into its ring slot.
    pub fn put(&mut self, index: usize, ev: MboMsg)
        requires
            old(self).wf(),
        ensures
            final(self)@ == old(self)@.update((index as int) % (TAIL_CAPACITY as int), Some(ev)),
            final(self).wf(),
    {
        let slot = index % TAIL_CAPACITY;
        self.slots[slot] = Some(ev);
    }

    /// All events the ring holds, sorted ascending by sequence number.
    pub fn snapshot(&self) -> (r: Vec<MboMsg>)
        ensures
            sorted_by_sequence(r@),
            r@.to_multiset() == present(self@).to_multiset(),
    {
        broadcast use vstd::seq_lib::group_to_multiset_ensures;

        let mut found: Vec<MboMsg> = Vec::new();
        let mut i: usize = 0;
        while i < self.slots.len()
            invariant
                0 <= i <= self@.len(),
                found@ == present(self@.take(i as int)),
            decreases self@.len() - i,
        {
            proof {
                assert(self@.take(i + 1).drop_last() =~= self@.take(i as int));
                assert(self@.take(i + 1).last() == self@[i as int]);
            }
            match self.slots[i] {
                Some(m) => {
                    found.push(m);
                },
                None => {},
            }
            i = i + 1;
        }
        proof {
            assert(self@.take(self@.len() as int) =~= self@);
        }
        sort_by_sequence(found)
    }
}

} // verus!
