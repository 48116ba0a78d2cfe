//! Routing across a ring: every request finds the node that owns its id.

use vstd::prelude::*;
use crate::entries::{has_key, index_of, lemma_index_of_is_first, lookup};
use crate::address::Address;
use crate::message::MessageView;
use crate::node::{ActionView, NodeView};
use crate::ring::RING_SIZE;
use crate::table::lemma_closest_below;
use crate::walk::{
    before, forwarded, lemma_position, lemma_position_finds, linked, position, relay, Run,
};

verus! {

/// The place just behind `at` among `n` places in a circle.
pub open spec fn behind(at: int, n: int) -> int {
    if at == n - 1 {
        0
    } else {
        at + 1
    }
}

/// Whether every finger in `nodes[i]` names a node of the ring.
pub open spec fn fingers_name_nodes(nodes: Seq<NodeView>, i: int) -> bool {
    forall|k: int|
        0 <= k < nodes[i].fingers.len() ==> 0 <= position(
            nodes,
            (#[trigger] nodes[i].fingers[k]).1,
        ) < nodes.len()
}

/// A ring on which a request can be routed: the nodes are listed clockwise
/// from the one with the smallest id, the predecessor links are correct,
/// every node's first finger names its successor, and every finger names
/// some node of the ring.
pub open spec fn routable(nodes: Seq<NodeView>) -> bool {
    &&& linked(nodes)
    &&& forall|i: int| 0 <= i < nodes.len() ==> (#[trigger] nodes[i]).valid()
    &&& forall|i: int, j: int|
        0 <= i < j < nodes.len() ==> (#[trigger] nodes[i]).addr.id < (#[trigger] nodes[j]).addr.id
    &&& forall|i: int|
        0 <= i < nodes.len() ==> lookup(
            (#[trigger] nodes[i]).fingers,
            nodes[i].successor_offset(),
        ) == Some(nodes[behind(i, nodes.len() as int)].addr)
    &&& forall|i: int| 0 <= i < nodes.len() ==> #[trigger] fingers_name_nodes(nodes, i)
}

/// Where a request about `id` is after at most `hops` forwardings, when it
/// is first given to the node at `at`: each node asked names the next hop,
/// and the request rests with the node that names itself.
pub open spec fn route(nodes: Seq<NodeView>, at: int, id: i64, hops: nat) -> int
    decreases hops,
{
    if hops == 0 || at < 0 || at >= nodes.len() {
        at
    } else if nodes[at].next_hop(id) == nodes[at].addr {
        at
    } else {
        route(nodes, position(nodes, nodes[at].next_hop(id)), id, (hops - 1) as nat)
    }
}

/// Number of nodes at the head of the list whose id is below `id`.
pub open spec fn rank(nodes: Seq<NodeView>, id: i64) -> int
    decreases nodes.len(),
{
    if nodes.len() == 0 {
        0
    } else if nodes[0].addr.id >= id {
        0
    } else {
        1 + rank(nodes.drop_first(), id)
    }
}

/// Where the owner of `id` stands: the first node whose id is not below
/// `id`, and the first node of all if there is none.
pub open spec fn owner_place(nodes: Seq<NodeView>, id: i64) -> int {
    if rank(nodes, id) >= nodes.len() {
        0
    } else {
        rank(nodes, id)
    }
}

/// How far the node at `at` is from the owner of `id`, in forwardings at
/// most.
pub open spec fn way_left(nodes: Seq<NodeView>, at: int, id: i64) -> int {
    if at == owner_place(nodes, id) {
        0
    } else if at < rank(nodes, id) {
        rank(nodes, id) - at
    } else {
        at
    }
}

proof fn lemma_rank(nodes: Seq<NodeView>, id: i64)
    requires
        forall|i: int, j: int|
            0 <= i < j < nodes.len() ==> (#[trigger] nodes[i]).addr.id < (
            #[trigger] nodes[j]).addr.id,
    ensures
        0 <= rank(nodes, id) <= nodes.len(),
        forall|i: int| 0 <= i < rank(nodes, id) ==> (#[trigger] nodes[i]).addr.id < id,
        forall|i: int| rank(nodes, id) <= i < nodes.len() ==> (#[trigger] nodes[i]).addr.id >= id,
    decreases nodes.len(),
{
    if nodes.len() > 0 {
        if nodes[0].addr.id >= id {
            assert forall|i: int| 0 <= i < nodes.len() implies (#[trigger] nodes[i]).addr.id
                >= id by {
                if i > 0 {
                    assert(nodes[0].addr.id < nodes[i].addr.id);
                }
            }
        } else {
            let rest = nodes.drop_first();
            assert forall|i: int, j: int| 0 <= i < j < rest.len() implies (
            #[trigger] rest[i]).addr.id < (#[trigger] rest[j]).addr.id by {
                assert(rest[i] == nodes[i + 1]);
                assert(rest[j] == nodes[j + 1]);
            }
            lemma_rank(rest, id);
            assert forall|i: int| 0 <= i < rank(nodes, id) implies (#[trigger] nodes[i]).addr.id
                < id by {
                if i > 0 {
                    assert(rest[i - 1] == nodes[i]);
                }
            }
            assert forall|i: int| rank(nodes, id) <= i < nodes.len() implies (
            #[trigger] nodes[i]).addr.id >= id by {
                assert(rest[i - 1] == nodes[i]);
            }
        }
    }
}

/// The node at the owner's place owns the id, and no other node does.
pub proof fn lemma_owner_place(nodes: Seq<NodeView>, id: i64, at: int)
    requires
        routable(nodes),
        0 <= id < RING_SIZE,
        0 <= at < nodes.len(),
    ensures
        0 <= owner_place(nodes, id) < nodes.len(),
        nodes[at].is_mine(id) <==> at == owner_place(nodes, id),
{
    let n = nodes.len() as int;
    let c = rank(nodes, id);
    lemma_rank(nodes, id);
    let prior = before(at, n);
    assert(nodes[at].previous == nodes[prior].addr);
    if n > 1 {
        assert(nodes[0].addr.id < nodes[n - 1].addr.id);
    }
    if at > 0 {
        assert(nodes[at - 1].addr.id < nodes[at].addr.id);
    }
}

/// The owner names itself; any other node names a node with less way
/// left.
#[verifier::rlimit(40)]
proof fn lemma_hop(nodes: Seq<NodeView>, at: int, id: i64)
    requires
        routable(nodes),
        0 <= id < RING_SIZE,
        0 <= at < nodes.len(),
    ensures
        at == owner_place(nodes, id) ==> nodes[at].next_hop(id) == nodes[at].addr,
        at != owner_place(nodes, id) ==> {
            let next = position(nodes, nodes[at].next_hop(id));
            &&& nodes[at].next_hop(id) != nodes[at].addr
            &&& 0 <= next < nodes.len()
            &&& way_left(nodes, next, id) < way_left(nodes, at, id)
        },
{
    let n = nodes.len() as int;
    let c = rank(nodes, id);
    let o = owner_place(nodes, id);
    let node = nodes[at];
    lemma_rank(nodes, id);
    lemma_owner_place(nodes, id, at);
    assert(crate::ring::ring_id(id as int) == id);
    if at != o {
        let s = behind(at, n);
        let fingers = node.fingers;
        let offset = node.successor_offset();
        assert(lookup(fingers, offset) == Some(nodes[s].addr));
        lemma_index_of_is_first(fingers, offset);
        let ks = index_of(fingers, offset);
        assert(has_key(fingers, offset));
        assert(fingers[ks].1 == nodes[s].addr);
        lemma_position(nodes, s);
        assert(n > 1);
        assert(nodes[0].addr.id < nodes[n - 1].addr.id);
        if at < n - 1 {
            assert(nodes[at].addr.id < nodes[at + 1].addr.id);
        }
        assert(!node.is_mine(id));
        if node.next_owner(id) is Some {
            assert(node.next_hop(id) == nodes[s].addr);
            assert(s == o);
            assert(nodes[s].addr != node.addr);
        } else {
            lemma_closest_below(fingers, id);
            assert(fingers_name_nodes(nodes, at));
            match crate::table::closest_below(fingers, id) {
                Some(best) => {
                    let k = choose|k: int| 0 <= k < fingers.len() && (#[trigger] fingers[k]).1 == best;
                    let j = position(nodes, fingers[k].1);
                    assert(0 <= j < n);
                    lemma_position_finds(nodes, best);
                    assert(nodes[j].addr == best);
                    assert(node.next_hop(id) == best);
                    assert(j < c);
                    if at < c {
                        assert(at + 1 < c);
                        assert(nodes[s].addr.id < id);
                        assert(fingers[ks].1.id <= best.id);
                        assert(j >= at + 1) by {
                            if j <= at {
                                if j < at {
                                    assert(nodes[j].addr.id < nodes[at].addr.id);
                                }
                            }
                        }
                        assert(j != at);
                    }
                    assert(nodes[j].addr != node.addr) by {
                        if j < at {
                            assert(nodes[j].addr.id < nodes[at].addr.id);
                        }
                    }
                },
                None => {
                    assert(node.next_hop(id) == node.previous);
                    assert(!(at < c)) by {
                        if at < c {
                            assert(at + 1 < c);
                            assert(fingers[ks].1.id >= id);
                        }
                    }
                    let prior = before(at, n);
                    assert(node.previous == nodes[prior].addr);
                    lemma_position(nodes, prior);
                    assert(nodes[prior].addr.id < nodes[at].addr.id);
                },
            }
        }
    }
}

proof fn lemma_route(nodes: Seq<NodeView>, at: int, id: i64, hops: nat)
    requires
        routable(nodes),
        0 <= id < RING_SIZE,
        0 <= at < nodes.len(),
        hops >= way_left(nodes, at, id),
    ensures
        route(nodes, at, id, hops) == owner_place(nodes, id),
    decreases hops,
{
    lemma_hop(nodes, at, id);
    lemma_rank(nodes, id);
    if at != owner_place(nodes, id) {
        let next = position(nodes, nodes[at].next_hop(id));
        lemma_rank(nodes, id);
        assert(way_left(nodes, next, id) >= 0);
        lemma_route(nodes, next, id, (hops - 1) as nat);
    }
}

/// A node that has just started is a routable ring by itself.
pub proof fn lemma_lone_node_is_routable(addr: Address)
    requires
        0 <= addr.id < RING_SIZE,
    ensures
        NodeView::fresh(addr).valid(),
        routable(seq![NodeView::fresh(addr)]),
{
    let node = NodeView::fresh(addr);
    let nodes = seq![node];
    crate::node::lemma_fresh_fingers(addr);
    assert(node.fingers[0].0 == node.successor_offset());
    crate::entries::lemma_index_of(node.fingers, node.successor_offset(), 0);
    assert(nodes[0] == node);
    assert(nodes.drop_first() =~= Seq::<NodeView>::empty());
    assert(position(nodes, addr) == 0);
    assert(fingers_name_nodes(nodes, 0));
    assert forall|i: int| 0 <= i < nodes.len() implies #[trigger] fingers_name_nodes(nodes, i) by {
        assert(i == 0);
    }
}

proof fn lemma_owner_query(nodes: Seq<NodeView>, at: int, reply: Address, id: i64, hops: nat)
    requires
        routable(nodes),
        0 <= id < RING_SIZE,
        0 <= at < nodes.len(),
        hops >= way_left(nodes, at, id) + 2,
        forall|i: int|
            0 <= i < nodes.len() ==> !(#[trigger] nodes[i]).exit && nodes[i].addr != reply,
    ensures
        relay(nodes, nodes[at].addr, MessageView::GetResp(reply, id), hops) == (Run {
            nodes,
            shown: Seq::empty(),
            left: Some(
                (reply, MessageView::AnswerResp(id, nodes[owner_place(nodes, id)].addr)),
            ),
        }),
    decreases hops,
{
    let node = nodes[at];
    let message = MessageView::GetResp(reply, id);
    lemma_position(nodes, at);
    lemma_hop(nodes, at, id);
    lemma_rank(nodes, id);
    assert(!node.exit);
    let out = node.step(message);
    assert(out.node == node);
    assert(nodes.update(at, out.node) =~= nodes);
    if at == owner_place(nodes, id) {
        let answer = MessageView::AnswerResp(id, node.addr);
        assert(forwarded(out.actions) == Some((reply, answer)));
        lemma_position_finds(nodes, reply);
        let rest = relay(nodes, reply, answer, (hops - 1) as nat);
        assert(rest == Run { nodes, shown: Seq::empty(), left: Some((reply, answer)) });
        assert(out.actions.drop_last() + rest.shown =~= Seq::<ActionView>::empty());
    } else {
        let next = node.next_hop(id);
        let place = position(nodes, next);
        assert(forwarded(out.actions) == Some((next, message)));
        lemma_position_finds(nodes, next);
        assert(way_left(nodes, place, id) >= 0);
        lemma_owner_query(nodes, place, reply, id, (hops - 1) as nat);
        let rest = relay(nodes, next, message, (hops - 1) as nat);
        assert(out.actions.drop_last() + rest.shown =~= Seq::<ActionView>::empty());
    }
}

/// An owner query about any id, given to any node of a routable ring of
/// running nodes, is passed from node to node, changes none of them, and
/// comes back to the asker from the owner of the id, with the owner's
/// address in it, after at most as many forwardings as the ring has nodes.
pub proof fn lemma_owner_query_is_answered(
    nodes: Seq<NodeView>,
    start: int,
    reply: Address,
    id: i64,
)
    requires
        routable(nodes),
        0 <= id < RING_SIZE,
        0 <= start < nodes.len(),
        forall|i: int|
            0 <= i < nodes.len() ==> !(#[trigger] nodes[i]).exit && nodes[i].addr != reply,
    ensures
        relay(nodes, nodes[start].addr, MessageView::GetResp(reply, id), nodes.len() + 1) == (Run {
            nodes,
            shown: Seq::empty(),
            left: Some(
                (reply, MessageView::AnswerResp(id, nodes[owner_place(nodes, id)].addr)),
            ),
        }),
        nodes[owner_place(nodes, id)].is_mine(id),
{
    lemma_rank(nodes, id);
    lemma_owner_place(nodes, id, owner_place(nodes, id));
    lemma_owner_query(nodes, start, reply, id, (nodes.len() + 1) as nat);
}

/// On a routable ring a request about any id, given to any node, rests
/// after at most as many forwardings as the ring has nodes, and it rests
/// with the owner of the id: the one node on whose arc the id lies.
pub proof fn lemma_routing_converges(nodes: Seq<NodeView>, start: int, id: i64)
    requires
        routable(nodes),
        0 <= id < RING_SIZE,
        0 <= start < nodes.len(),
    ensures
        ({
            let end = route(nodes, start, id, nodes.len());
            &&& 0 <= end < nodes.len()
            &&& nodes[end].is_mine(id)
            &&& nodes[end].next_hop(id) == nodes[end].addr
            &&& forall|other: int|
                0 <= other < nodes.len() && (#[trigger] nodes[other]).is_mine(id) ==> other == end
        }),
{
    lemma_rank(nodes, id);
    lemma_route(nodes, start, id, nodes.len());
    let end = owner_place(nodes, id);
    lemma_owner_place(nodes, id, end);
    lemma_hop(nodes, end, id);
    assert forall|other: int|
        0 <= other < nodes.len() && (#[trigger] nodes[other]).is_mine(id) implies other == end by {
        lemma_owner_place(nodes, id, other);
    }
}

} // verus!
