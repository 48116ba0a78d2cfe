//! A node's routing table: its predecessor and its fingers.
//!
//! A finger records, for a ring offset, the address believed to own that
//! offset. The table only stores; what the entries mean is the node's
//! business.

use vstd::prelude::*;
use crate::address::Address;
use crate::entries::{distinct_keys, find, lemma_put, lookup, put, set_key};
use crate::ring::{normalize, ring_id};

verus! {

/// The routing table of one node.
#[derive(Debug, Clone)]
pub struct Table {
    previous: Address,
    association: Vec<(i64, Address)>,
}

/// The mathematical value of a [`Table`].
pub struct TableView {
    /// The node just before this one on the ring.
    pub previous: Address,
    /// The fingers, oldest offset first.
    pub fingers: Seq<(i64, Address)>,
}

/// The first finger whose offset is below `id`.
pub open spec fn first_below(fingers: Seq<(i64, Address)>, id: i64) -> Option<(i64, Address)>
    decreases fingers.len(),
{
    if fingers.len() == 0 {
        None
    } else if fingers[0].0 < id {
        Some(fingers[0])
    } else {
        first_below(fingers.drop_first(), id)
    }
}

/// Among the fingers whose recorded owner has an id below `id`, the owner
/// with the largest id; of several such, the one recorded first.
pub open spec fn closest_below(fingers: Seq<(i64, Address)>, id: i64) -> Option<Address>
    decreases fingers.len(),
{
    if fingers.len() == 0 {
        None
    } else {
        let before = closest_below(fingers.drop_last(), id);
        let owner = fingers.last().1;
        if owner.id < id && (before is None || before->0.id < owner.id) {
            Some(owner)
        } else {
            before
        }
    }
}

/// Number of clockwise steps from `from` to `to`, both brought onto the
/// ring first.
pub open spec fn clock_distance(from: int, to: int) -> int {
    ring_id(ring_id(to) - ring_id(from))
}

/// Whether a node with id `new` takes the offset `offset` over from the
/// recorded owner with id `owner`: going clockwise from the offset, the new
/// node comes first.
pub open spec fn supersedes(offset: int, owner: int, new: int) -> bool {
    clock_distance(offset, new) < clock_distance(offset, owner)
}

/// The fingers after `new` has joined: every finger that `new` takes over
/// names `new`, the others are as they were.
pub open spec fn repaired(fingers: Seq<(i64, Address)>, new: Address) -> Seq<(i64, Address)> {
    Seq::new(
        fingers.len(),
        |k: int|
            if supersedes(fingers[k].0 as int, fingers[k].1.id as int, new.id as int) {
                (fingers[k].0, new)
            } else {
                fingers[k]
            },
    )
}

/// What [`closest_below`] picks is a recorded owner below `id`, and no
/// recorded owner below `id` has a larger id.
pub proof fn lemma_closest_below(fingers: Seq<(i64, Address)>, id: i64)
    ensures
        match closest_below(fingers, id) {
            Some(best) => best.id < id && (exists|k: int|
                0 <= k < fingers.len() && (#[trigger] fingers[k]).1 == best) && (forall|k: int|
                0 <= k < fingers.len() && (#[trigger] fingers[k]).1.id < id ==> fingers[k].1.id
                    <= best.id),
            None => forall|k: int| 0 <= k < fingers.len() ==> (#[trigger] fingers[k]).1.id >= id,
        },
    decreases fingers.len(),
{
    if fingers.len() > 0 {
        let head = fingers.drop_last();
        lemma_closest_below(head, id);
        let last = fingers.len() - 1;
        assert(forall|k: int| 0 <= k < head.len() ==> head[k] == fingers[k]);
        match closest_below(fingers, id) {
            Some(best) => {
                if closest_below(head, id) == Some(best) {
                    let k = choose|k: int| 0 <= k < head.len() && (#[trigger] head[k]).1 == best;
                    assert(fingers[k].1 == best);
                } else {
                    assert(fingers[last].1 == best);
                }
                assert forall|k: int|
                    0 <= k < fingers.len() && (#[trigger] fingers[k]).1.id < id implies fingers[k].1.id
                    <= best.id by {
                    if k < last {
                        assert(head[k] == fingers[k]);
                    }
                }
            },
            None => {
                assert forall|k: int| 0 <= k < fingers.len() implies (#[trigger] fingers[k]).1.id
                    >= id by {
                    if k < last {
                        assert(head[k] == fingers[k]);
                    }
                }
            },
        }
    }
}

/// A repair keeps every offset where it is, and a second repair for the
/// same node changes nothing.
pub proof fn lemma_repair(fingers: Seq<(i64, Address)>, new: Address)
    ensures
        repaired(fingers, new).len() == fingers.len(),
        forall|k: int| 0 <= k < fingers.len() ==> (#[trigger] repaired(fingers, new)[k]).0 == fingers[k].0,
        distinct_keys(fingers) ==> distinct_keys(repaired(fingers, new)),
        repaired(repaired(fingers, new), new) == repaired(fingers, new),
{
    assert(repaired(repaired(fingers, new), new) =~= repaired(fingers, new));
}

impl View for Table {
    type V = TableView;

    closed spec fn view(&self) -> TableView {
        TableView { previous: self.previous, fingers: self.association@ }
    }
}

/// Number of clockwise steps from `from` to `to`.
fn distance(from: i64, to: i64) -> (d: i64)
    ensures
        d == clock_distance(from as int, to as int),
        0 <= d < crate::ring::RING_SIZE,
{
    normalize(normalize(to) - normalize(from))
}

impl Table {
    /// A table with `addr` as predecessor and one finger: `id`, owned by
    /// `addr`.
    pub fn new(id: i64, addr: Address) -> (table: Table)
        ensures
            table@.previous == addr,
            table@.fingers == seq![(id, addr)],
            distinct_keys(table@.fingers),
    {
        let mut association: Vec<(i64, Address)> = Vec::new();
        association.push((id, addr));
        assert(association@ =~= seq![(id, addr)]);
        Table { previous: addr, association }
    }

    /// The predecessor.
    pub fn previous(&self) -> (addr: Address)
        ensures
            addr == self@.previous,
    {
        self.previous
    }

    /// Replaces the predecessor.
    pub fn set_previous(&mut self, addr: Address)
        ensures
            final(self)@.previous == addr,
            final(self)@.fingers == old(self)@.fingers,
    {
        self.previous = addr;
    }

    /// Number of fingers.
    pub fn len(&self) -> (n: usize)
        ensures
            n == self@.fingers.len(),
    {
        self.association.len()
    }

    /// The `k`-th finger: its offset and the recorded owner.
    pub fn finger_at(&self, k: usize) -> (finger: (i64, Address))
        requires
            k < self@.fingers.len(),
        ensures
            finger == self@.fingers[k as int],
    {
        self.association[k]
    }

    /// The owner recorded for `offset`.
    pub fn finger(&self, offset: i64) -> (owner: Option<Address>)
        ensures
            owner == lookup(self@.fingers, offset),
    {
        find(&self.association, offset)
    }

    /// The fingers, oldest offset first.
    pub fn fingers(&self) -> (fingers: Vec<(i64, Address)>)
        ensures
            fingers@ == self@.fingers,
    {
        let mut fingers: Vec<(i64, Address)> = Vec::new();
        let mut k: usize = 0;
        while k < self.association.len()
            invariant
                k <= self.association@.len(),
                fingers@ == self.association@.take(k as int),
            decreases self.association@.len() - k,
        {
            fingers.push(self.association[k]);
            k = k + 1;
            assert(fingers@ =~= self.association@.take(k as int));
        }
        assert(self.association@.take(k as int) =~= self.association@);
        fingers
    }

    /// Records `addr` as the owner of `offset`.
    pub fn upsert_finger(&mut self, offset: i64, addr: Address)
        ensures
            final(self)@.previous == old(self)@.previous,
            final(self)@.fingers == put(old(self)@.fingers, offset, addr),
            distinct_keys(old(self)@.fingers) ==> distinct_keys(final(self)@.fingers),
    {
        proof {
            lemma_put(self.association@, offset, addr, 0);
        }
        set_key(&mut self.association, offset, addr);
    }

    /// The first finger whose offset is below `id`.
    pub fn get_node(&self, id: i64) -> (r: Option<(i64, Address)>)
        ensures
            r == first_below(self@.fingers, id),
    {
        let mut k: usize = 0;
        assert(self.association@.skip(0) =~= self.association@);
        while k < self.association.len()
            invariant
                k <= self.association@.len(),
                first_below(self.association@, id) == first_below(
                    self.association@.skip(k as int),
                    id,
                ),
            decreases self.association@.len() - k,
        {
            let ghost rest = self.association@.skip(k as int);
            assert(rest[0] == self.association@[k as int]);
            if self.association[k].0 < id {
                return Some(self.association[k]);
            }
            assert(rest.drop_first() =~= self.association@.skip(k + 1));
            k = k + 1;
        }
        None
    }

    /// The recorded owner closest below `id`.
    pub fn closest_below(&self, id: i64) -> (r: Option<Address>)
        ensures
            r == closest_below(self@.fingers, id),
    {
        let mut best: Option<Address> = None;
        let mut k: usize = 0;
        while k < self.association.len()
            invariant
                k <= self.association@.len(),
                best == closest_below(self.association@.take(k as int), id),
            decreases self.association@.len() - k,
        {
            let owner = self.association[k].1;
            assert(self.association@.take(k + 1).drop_last() =~= self.association@.take(k as int));
            let better = match best {
                Some(b) => b.id < owner.id,
                None => true,
            };
            if owner.id < id && better {
                best = Some(owner);
            }
            k = k + 1;
        }
        assert(self.association@.take(k as int) =~= self.association@);
        best
    }

    /// Hands every finger that `new` takes over to `new`.
    pub fn repair(&mut self, new: Address)
        ensures
            final(self)@.previous == old(self)@.previous,
            final(self)@.fingers == repaired(old(self)@.fingers, new),
            distinct_keys(old(self)@.fingers) ==> distinct_keys(final(self)@.fingers),
    {
        let ghost before = self.association@;
        let mut k: usize = 0;
        while k < self.association.len()
            invariant
                k <= before.len(),
                self.association@.len() == before.len(),
                self.previous == old(self).previous,
                forall|i: int| 0 <= i < k ==> self.association@[i] == repaired(before, new)[i],
                forall|i: int| k <= i < before.len() ==> self.association@[i] == before[i],
            decreases before.len() - k,
        {
            let offset: i64 = self.association[k].0;
            let owner: Address = self.association[k].1;
            if distance(offset, new.id) < distance(offset, owner.id) {
                self.association.set(k, (offset, new));
            }
            k = k + 1;
        }
        assert(self.association@ =~= repaired(before, new));
    }
}

} // verus!
