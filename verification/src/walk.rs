//! What the nodes of a ring do together.
//!
//! A ring is a list of node states. A message sent to an address is handled
//! by the node with that address, and what that node sends is handled in
//! turn. The theorems here follow one message on its way around the ring.

use vstd::prelude::*;
use crate::address::Address;
use crate::message::MessageView;
use crate::node::{handed_over, total, ActionView, NodeView};

verus! {

/// Where the node with the address `a` stands in `nodes`, or the length of
/// `nodes` if no node has it.
pub open spec fn position(nodes: Seq<NodeView>, a: Address) -> int
    decreases nodes.len(),
{
    if nodes.len() == 0 {
        0
    } else if nodes[0].addr == a {
        0
    } else {
        1 + position(nodes.drop_first(), a)
    }
}

/// The place just before `at` among `n` places in a circle.
pub open spec fn before(at: int, n: int) -> int {
    if at == 0 {
        n - 1
    } else {
        at - 1
    }
}

/// Whether no two nodes share an address.
pub open spec fn distinct_addresses(nodes: Seq<NodeView>) -> bool {
    forall|i: int, j: int| 0 <= i < j < nodes.len() ==> nodes[i].addr != nodes[j].addr
}

/// A ring with correct predecessor links: the nodes stand in a circle, and
/// each node's predecessor is the node just before it.
pub open spec fn linked(nodes: Seq<NodeView>) -> bool {
    &&& nodes.len() > 0
    &&& distinct_addresses(nodes)
    &&& forall|i: int|
        0 <= i < nodes.len() ==> (#[trigger] nodes[i]).previous == nodes[before(
            i,
            nodes.len() as int,
        )].addr
}

/// The message that a node passes on: the last thing it asks for, if that
/// is a send.
pub open spec fn forwarded(actions: Seq<ActionView>) -> Option<(Address, MessageView)> {
    if actions.len() > 0 {
        match actions.last() {
            ActionView::Send(to, message) => Some((to, message)),
            _ => None,
        }
    } else {
        None
    }
}

/// Where a message's way around the nodes has led.
pub struct Run {
    /// The nodes' states at the end.
    pub nodes: Seq<NodeView>,
    /// What was shown on the way, in order.
    pub shown: Seq<ActionView>,
    /// The message that left the nodes: it was sent to an address where
    /// none of them listens.
    pub left: Option<(Address, MessageView)>,
}

/// Follows a message on its way: the node with the address `to` handles
/// it, the message that this node passes on is handled by the node it is
/// addressed to, and so on, for at most `hops` nodes. The way ends at a
/// node that passes nothing on, and at an address where nobody listens:
/// no node has it, or the node that has it is shutting down.
pub open spec fn relay(nodes: Seq<NodeView>, to: Address, message: MessageView, hops: nat) -> Run
    decreases hops,
{
    let at = position(nodes, to);
    if hops == 0 {
        Run { nodes, shown: Seq::empty(), left: None }
    } else if at < 0 || at >= nodes.len() || nodes[at].exit {
        Run { nodes, shown: Seq::empty(), left: Some((to, message)) }
    } else {
        let out = nodes[at].step(message);
        let after = nodes.update(at, out.node);
        match forwarded(out.actions) {
            Some((next_to, next)) => {
                let rest = relay(after, next_to, next, (hops - 1) as nat);
                Run {
                    nodes: rest.nodes,
                    shown: out.actions.drop_last() + rest.shown,
                    left: rest.left,
                }
            },
            None => Run { nodes: after, shown: out.actions, left: None },
        }
    }
}

/// Among nodes with distinct addresses, a node stands where its address is
/// found.
pub proof fn lemma_position(nodes: Seq<NodeView>, at: int)
    requires
        distinct_addresses(nodes),
        0 <= at < nodes.len(),
    ensures
        position(nodes, nodes[at].addr) == at,
    decreases nodes.len(),
{
    if at > 0 {
        let rest = nodes.drop_first();
        assert(nodes[0].addr != nodes[at].addr);
        assert forall|i: int, j: int| 0 <= i < j < rest.len() implies rest[i].addr
            != rest[j].addr by {
            assert(rest[i] == nodes[i + 1]);
            assert(rest[j] == nodes[j + 1]);
        }
        assert(rest[at - 1] == nodes[at]);
        lemma_position(rest, at - 1);
    }
}

/// An address is found at the node that has it, and nowhere if no node
/// has it.
pub proof fn lemma_position_finds(nodes: Seq<NodeView>, a: Address)
    ensures
        0 <= position(nodes, a) <= nodes.len(),
        position(nodes, a) < nodes.len() ==> nodes[position(nodes, a)].addr == a,
        (forall|i: int| 0 <= i < nodes.len() ==> (#[trigger] nodes[i]).addr != a) ==> position(
            nodes,
            a,
        ) == nodes.len(),
    decreases nodes.len(),
{
    if nodes.len() > 0 && nodes[0].addr != a {
        let rest = nodes.drop_first();
        lemma_position_finds(rest, a);
        if forall|i: int| 0 <= i < nodes.len() ==> (#[trigger] nodes[i]).addr != a {
            assert forall|i: int| 0 <= i < rest.len() implies (#[trigger] rest[i]).addr != a by {
                assert(rest[i] == nodes[i + 1]);
            }
        }
    }
}

// ---------------------------------------------------------------------
// Joining a ring
// ---------------------------------------------------------------------

/// The ring after the node at `at` has granted the join of `joining` and
/// `joining` has taken what it was sent: the joiner stands just before the
/// node that let it in.
pub open spec fn joined_ring(nodes: Seq<NodeView>, at: int, joining: NodeView) -> Seq<NodeView> {
    let node = nodes[at];
    let moved = handed_over(node.data, node.previous.id, node.addr.id, joining.addr.id);
    nodes.update(at, node.on_hello(joining.addr).node).insert(
        at,
        joining.on_hello_ok(node.addr, moved, node.previous).node,
    )
}

/// A join keeps the predecessor links correct: when a node of a ring with
/// correct links grants the join of a node whose address is new to the
/// ring, the ring with the joiner in it has correct links again.
pub proof fn lemma_join_keeps_links(nodes: Seq<NodeView>, at: int, joining: NodeView)
    requires
        linked(nodes),
        0 <= at < nodes.len(),
        nodes[at].next_hop(joining.addr.id) == nodes[at].addr,
        joining.addr.id != nodes[at].addr.id,
        forall|i: int| 0 <= i < nodes.len() ==> (#[trigger] nodes[i]).addr != joining.addr,
    ensures
        linked(joined_ring(nodes, at, joining)),
{
    let n = nodes.len() as int;
    let ring = joined_ring(nodes, at, joining);
    let node = nodes[at];
    assert(ring.len() == n + 1);
    assert(ring[at].addr == joining.addr);
    assert(ring[at].previous == node.previous);
    assert(ring[at + 1].addr == node.addr);
    assert(ring[at + 1].previous == joining.addr);
    assert(node.previous == nodes[before(at, n)].addr);
    assert forall|i: int| 0 <= i < ring.len() implies (#[trigger] ring[i]).addr == if i < at {
        nodes[i].addr
    } else if i == at {
        joining.addr
    } else {
        nodes[i - 1].addr
    } by {}
    assert forall|i: int, j: int| 0 <= i < j < ring.len() implies ring[i].addr != ring[j].addr by {
        if i != at && j != at {
            let a = if i < at {
                i
            } else {
                i - 1
            };
            let b = if j < at {
                j
            } else {
                j - 1
            };
            assert(nodes[a].addr != nodes[b].addr);
        }
    }
    assert forall|i: int| 0 <= i < ring.len() implies (#[trigger] ring[i]).previous == ring[before(
        i,
        ring.len() as int,
    )].addr by {
        if i < at {
            assert(ring[i] == nodes[i]);
            assert(nodes[i].previous == nodes[before(i, n)].addr);
        } else if i > at + 1 {
            assert(ring[i] == nodes[i - 1]);
            assert(nodes[i - 1].previous == nodes[before(i - 1, n)].addr);
        }
    }
}

// ---------------------------------------------------------------------
// Shutting a ring down
// ---------------------------------------------------------------------

/// Number of places from `i` forward to `at` among `n` places in a circle.
pub open spec fn places_back(at: int, i: int, n: int) -> int {
    if i <= at {
        at - i
    } else {
        at - i + n
    }
}

proof fn lemma_exit_wave(nodes: Seq<NodeView>, at: int, hops: nat)
    requires
        linked(nodes),
        0 <= at < nodes.len(),
        hops <= nodes.len(),
        forall|i: int|
            0 <= i < nodes.len() && places_back(at, i, nodes.len() as int) < hops ==> !(
            #[trigger] nodes[i]).exit,
    ensures
        relay(nodes, nodes[at].addr, MessageView::Exit, hops).nodes.len() == nodes.len(),
        forall|i: int|
            0 <= i < nodes.len() ==> #[trigger] relay(
                nodes,
                nodes[at].addr,
                MessageView::Exit,
                hops,
            ).nodes[i] == if places_back(at, i, nodes.len() as int) < hops {
                NodeView { exit: true, ..nodes[i] }
            } else {
                nodes[i]
            },
    decreases hops,
{
    let n = nodes.len() as int;
    lemma_position(nodes, at);
    if hops > 0 {
        assert(places_back(at, at, n) == 0);
        assert(!nodes[at].exit);
        let out = nodes[at].step(MessageView::Exit);
        let after = nodes.update(at, out.node);
        let prior = before(at, n);
        assert(nodes[at].previous == nodes[prior].addr);
        if n == 1 {
            assert(nodes[at].previous == nodes[at].addr);
            assert(forwarded(out.actions) is None);
        } else {
            assert(prior != at);
            assert(nodes[prior].addr != nodes[at].addr);
            assert(forwarded(out.actions) == Some((nodes[prior].addr, MessageView::Exit)));
            assert(linked(after)) by {
                assert forall|i: int| 0 <= i < after.len() implies (#[trigger] after[i]).previous
                    == after[before(i, after.len() as int)].addr by {
                    assert(nodes[i].previous == nodes[before(i, n)].addr);
                }
            }
            assert(after[prior].addr == nodes[prior].addr);
            assert forall|i: int|
                0 <= i < after.len() && places_back(prior, i, n) < (hops - 1) as nat implies !(
            #[trigger] after[i]).exit by {
                assert(places_back(at, i, n) < hops);
                assert(!nodes[i].exit);
            }
            lemma_exit_wave(after, prior, (hops - 1) as nat);
            let rest = relay(after, after[prior].addr, MessageView::Exit, (hops - 1) as nat);
            assert(relay(nodes, nodes[at].addr, MessageView::Exit, hops).nodes == rest.nodes);
            assert forall|i: int| 0 <= i < nodes.len() implies #[trigger] rest.nodes[i] == if places_back(
                at,
                i,
                n,
            ) < hops {
                NodeView { exit: true, ..nodes[i] }
            } else {
                nodes[i]
            } by {
                if i != at {
                    assert(after[i] == nodes[i]);
                }
            }
        }
    }
}

/// A shutdown given to any one node of a ring of running nodes with
/// correct predecessor links goes once around: after as many deliveries as
/// there are nodes, every node is shutting down, and nothing else about
/// any node has changed.
pub proof fn lemma_exit_reaches_all(nodes: Seq<NodeView>, start: int)
    requires
        linked(nodes),
        0 <= start < nodes.len(),
        forall|i: int| 0 <= i < nodes.len() ==> !(#[trigger] nodes[i]).exit,
    ensures
        relay(nodes, nodes[start].addr, MessageView::Exit, nodes.len()).nodes.len() == nodes.len(),
        forall|i: int|
            0 <= i < nodes.len() ==> #[trigger] relay(
                nodes,
                nodes[start].addr,
                MessageView::Exit,
                nodes.len(),
            ).nodes[i] == (NodeView { exit: true, ..nodes[i] }),
{
    lemma_exit_wave(nodes, start, nodes.len());
}

// ---------------------------------------------------------------------
// Counting around a ring
// ---------------------------------------------------------------------

/// A line of nodes that ends in a node which is its own predecessor: each
/// other node's predecessor is the node behind it in the line.
pub open spec fn chained(nodes: Seq<NodeView>) -> bool {
    &&& nodes.len() > 0
    &&& distinct_addresses(nodes)
    &&& forall|i: int|
        0 <= i < nodes.len() - 1 ==> (#[trigger] nodes[i]).previous == nodes[i + 1].addr
    &&& nodes.last().previous == nodes.last().addr
}

/// The sum of the nodes' lookup counters from `from` on.
pub open spec fn sum_gets(nodes: Seq<NodeView>, from: int) -> int
    decreases nodes.len() - from,
{
    if from < 0 || from >= nodes.len() {
        0
    } else {
        nodes[from].gets + sum_gets(nodes, from + 1)
    }
}

/// The sum of the nodes' write counters from `from` on.
pub open spec fn sum_puts(nodes: Seq<NodeView>, from: int) -> int
    decreases nodes.len() - from,
{
    if from < 0 || from >= nodes.len() {
        0
    } else {
        nodes[from].puts + sum_puts(nodes, from + 1)
    }
}

/// The sum of the nodes' management counters from `from` on.
pub open spec fn sum_mgmt(nodes: Seq<NodeView>, from: int) -> int
    decreases nodes.len() - from,
{
    if from < 0 || from >= nodes.len() {
        0
    } else {
        nodes[from].mgmt + sum_mgmt(nodes, from + 1)
    }
}

/// A sum as a counter shows it: a sum beyond the largest 64-bit number is
/// shown as that number.
pub open spec fn shown_count(sum: int) -> i64 {
    if sum > i64::MAX {
        i64::MAX
    } else {
        sum as i64
    }
}

proof fn lemma_sums_count(nodes: Seq<NodeView>, from: int)
    requires
        forall|i: int| 0 <= i < nodes.len() ==> (#[trigger] nodes[i]).valid(),
    ensures
        sum_gets(nodes, from) >= 0,
        sum_puts(nodes, from) >= 0,
        sum_mgmt(nodes, from) >= 0,
    decreases nodes.len() - from,
{
    if 0 <= from < nodes.len() {
        assert(nodes[from].valid());
        lemma_sums_count(nodes, from + 1);
    }
}

proof fn lemma_stats_walk(
    nodes: Seq<NodeView>,
    at: int,
    reply: Address,
    gets: int,
    puts: int,
    mgmt: int,
    hops: nat,
)
    requires
        chained(nodes),
        0 <= at < nodes.len(),
        hops >= nodes.len() - at,
        gets >= 0,
        puts >= 0,
        mgmt >= 0,
        forall|i: int| 0 <= i < nodes.len() ==> (#[trigger] nodes[i]).valid() && !nodes[i].exit,
    ensures
        relay(
            nodes,
            nodes[at].addr,
            MessageView::GetStat(
                reply,
                shown_count(gets),
                shown_count(puts),
                shown_count(mgmt),
            ),
            hops,
        ) == (Run {
            nodes,
            shown: seq![
                ActionView::ShowCounters(
                    shown_count(gets + sum_gets(nodes, at)),
                    shown_count(puts + sum_puts(nodes, at)),
                    shown_count(mgmt + sum_mgmt(nodes, at)),
                ),
            ],
            left: None,
        }),
    decreases hops,
{
    let message = MessageView::GetStat(
        reply,
        shown_count(gets),
        shown_count(puts),
        shown_count(mgmt),
    );
    let node = nodes[at];
    lemma_position(nodes, at);
    assert(node.valid() && !node.exit);
    let out = node.step(message);
    assert(out.node == node);
    assert(nodes.update(at, out.node) =~= nodes);
    lemma_sums_count(nodes, at + 1);
    let g = gets + node.gets;
    let p = puts + node.puts;
    let m = mgmt + node.mgmt;
    assert(total(shown_count(gets), node.gets) == shown_count(g));
    assert(total(shown_count(puts), node.puts) == shown_count(p));
    assert(total(shown_count(mgmt), node.mgmt) == shown_count(m));
    if at == nodes.len() - 1 {
        assert(node == nodes.last());
        assert(forwarded(out.actions) is None);
        assert(sum_gets(nodes, at + 1) == 0);
        assert(sum_puts(nodes, at + 1) == 0);
        assert(sum_mgmt(nodes, at + 1) == 0);
        assert(out.actions =~= seq![
            ActionView::ShowCounters(shown_count(g), shown_count(p), shown_count(m)),
        ]);
    } else {
        assert(node.previous == nodes[at + 1].addr);
        assert(nodes[at + 1].addr != node.addr);
        let next = MessageView::GetStat(reply, shown_count(g), shown_count(p), shown_count(m));
        assert(forwarded(out.actions) == Some((nodes[at + 1].addr, next)));
        lemma_stats_walk(nodes, at + 1, reply, g, p, m, (hops - 1) as nat);
        let rest = relay(nodes, nodes[at + 1].addr, next, (hops - 1) as nat);
        assert(out.actions.drop_last() + rest.shown =~= rest.shown);
    }
}

/// A counter walk that starts with nothing counted at the head of a line
/// of running nodes reaches the node that closes the line, changes no
/// node, and shows there, and nowhere else, the sum over all nodes of each
/// of the three counters.
pub proof fn lemma_stats_total(nodes: Seq<NodeView>, reply: Address)
    requires
        chained(nodes),
        forall|i: int| 0 <= i < nodes.len() ==> (#[trigger] nodes[i]).valid() && !nodes[i].exit,
    ensures
        relay(nodes, nodes[0].addr, MessageView::GetStat(reply, 0, 0, 0), nodes.len()) == (Run {
            nodes,
            shown: seq![
                ActionView::ShowCounters(
                    shown_count(sum_gets(nodes, 0)),
                    shown_count(sum_puts(nodes, 0)),
                    shown_count(sum_mgmt(nodes, 0)),
                ),
            ],
            left: None,
        }),
{
    lemma_stats_walk(nodes, 0, reply, 0, 0, 0, nodes.len());
}

} // verus!
