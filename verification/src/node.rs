//! One node of the ring: its state, and what it does with each message.
//!
//! A node never touches the network. It is handed what arrived and answers
//! with the list of things to do: messages to send, lines to show. The
//! caller carries them out, in order, and hands over the next arrival.

use vstd::prelude::*;
use crate::address::Address;
use crate::entries::{
    distinct_keys, find, has_key, lemma_has_key, lemma_put, lemma_put_all_keeps_distinct,
    lemma_put_all_of_distinct, lookup, put, put_all, set_key,
};
use crate::message::{DecodeError, Message, MessageView};
use crate::ring::{contains, normalize, on_arc, ring_id, HALF_RING, RING_SIZE};
use crate::table::{closest_below, repaired, Table};

verus! {

/// Something a node asks its caller to do.
#[derive(Debug, Clone, PartialEq)]
pub enum Action {
    /// Send the message to the address; a failure is the caller's to log
    /// and forget.
    Send(Address, Message),
    /// Show that the key stands for the value.
    ShowValue(i64, u64),
    /// Show that the write with this token was acknowledged.
    ShowAck(i64),
    /// Show counters: lookups, writes, management messages.
    ShowCounters(i64, i64, i64),
}

/// The mathematical value of an [`Action`].
pub enum ActionView {
    Send(Address, MessageView),
    ShowValue(i64, u64),
    ShowAck(i64),
    ShowCounters(i64, i64, i64),
}

impl View for Action {
    type V = ActionView;

    open spec fn view(&self) -> ActionView {
        match self {
            Action::Send(to, message) => ActionView::Send(*to, message@),
            Action::ShowValue(key, value) => ActionView::ShowValue(*key, *value),
            Action::ShowAck(id) => ActionView::ShowAck(*id),
            Action::ShowCounters(gets, puts, mgmt) => ActionView::ShowCounters(*gets, *puts, *mgmt),
        }
    }
}

/// The values of a list of actions, in order.
pub open spec fn actions_view(actions: Seq<Action>) -> Seq<ActionView> {
    Seq::new(actions.len(), |k: int| actions[k]@)
}

/// A counter after one more event; it stays at the largest number once
/// there.
pub open spec fn bump(count: i64) -> i64 {
    if count < i64::MAX {
        (count + 1) as i64
    } else {
        count
    }
}

/// The sum of two counts, kept within the 64-bit range.
pub open spec fn total(a: i64, b: i64) -> i64 {
    if a + b > i64::MAX {
        i64::MAX
    } else if a + b < i64::MIN {
        i64::MIN
    } else {
        (a + b) as i64
    }
}

/// Whether the entry of `key` goes to a joiner with id `joiner`, when the
/// node that splits has id `owner` and its predecessor has id `previous`.
/// Where the node's arc wraps through 0, the keys on the arc from the
/// predecessor to the joiner go; else the keys up to the joiner's id go.
pub open spec fn migrates(key: i64, previous: i64, owner: i64, joiner: i64) -> bool {
    if previous > owner {
        on_arc(key as int, previous as int, joiner as int)
    } else {
        key <= joiner
    }
}

/// The entries that go to the joiner, in their order.
pub open spec fn handed_over(data: Seq<(i64, u64)>, previous: i64, owner: i64, joiner: i64) -> Seq<
    (i64, u64),
>
    decreases data.len(),
{
    if data.len() == 0 {
        data
    } else {
        let before = handed_over(data.drop_last(), previous, owner, joiner);
        if migrates(data.last().0, previous, owner, joiner) {
            before.push(data.last())
        } else {
            before
        }
    }
}

/// The entries that stay, in their order.
pub open spec fn retained(data: Seq<(i64, u64)>, previous: i64, owner: i64, joiner: i64) -> Seq<
    (i64, u64),
>
    decreases data.len(),
{
    if data.len() == 0 {
        data
    } else {
        let before = retained(data.drop_last(), previous, owner, joiner);
        if migrates(data.last().0, previous, owner, joiner) {
            before
        } else {
            before.push(data.last())
        }
    }
}

/// Where `id` first stands in `tokens`, or the length of `tokens`.
pub open spec fn first_index(tokens: Seq<i64>, id: i64) -> int
    decreases tokens.len(),
{
    if tokens.len() == 0 {
        0
    } else if tokens[0] == id {
        0
    } else {
        1 + first_index(tokens.drop_first(), id)
    }
}

/// `tokens` without the first `id` in it.
pub open spec fn without(tokens: Seq<i64>, id: i64) -> Seq<i64> {
    if first_index(tokens, id) < tokens.len() {
        tokens.remove(first_index(tokens, id))
    } else {
        tokens
    }
}

/// The `k`-th finger distance: 1, 2, 4, 8, 16.
pub open spec fn finger_step(k: int) -> int {
    if k == 0 {
        1
    } else if k == 1 {
        2
    } else if k == 2 {
        4
    } else if k == 3 {
        8
    } else {
        16
    }
}

/// The fingers of a node that knows nobody: one for each power of two up
/// to half the ring, at that distance from the node, all naming the node
/// itself.
pub open spec fn fresh_fingers(addr: Address) -> Seq<(i64, Address)> {
    Seq::new(5, |k: int| (ring_id(addr.id + finger_step(k)) as i64, addr))
}

/// One owner query per finger, sent to `to` on behalf of `from`.
pub open spec fn requeries(fingers: Seq<(i64, Address)>, to: Address, from: Address) -> Seq<
    ActionView,
> {
    Seq::new(
        fingers.len(),
        |k: int| ActionView::Send(to, MessageView::GetResp(from, fingers[k].0)),
    )
}

/// The lowest id that a repair started behind `previous` is to reach: half
/// a ring back from the id after it.
pub open spec fn repair_floor(previous: i64) -> i64 {
    (ring_id(previous as int) + 1 - HALF_RING) as i64
}

/// The width announced with a repair by a node with id `own` behind
/// `previous`, both ids brought onto the ring first.
pub open spec fn repair_span(previous: i64, own: i64) -> i64 {
    if ring_id(previous as int) > ring_id(own as int) {
        (RING_SIZE - ring_id(previous as int) + (ring_id(own as int) - 1)) as i64
    } else {
        (ring_id(own as int) - ring_id(previous as int)) as i64
    }
}

/// The mathematical value of a [`Node`].
pub struct NodeView {
    /// The node's own address.
    pub addr: Address,
    /// The node just before it on the ring.
    pub previous: Address,
    /// Its fingers.
    pub fingers: Seq<(i64, Address)>,
    /// The entries it stores.
    pub data: Seq<(i64, u64)>,
    /// The tokens of writes whose acknowledgement is awaited.
    pub pending: Seq<i64>,
    /// Lookups, writes and management messages handled.
    pub gets: i64,
    pub puts: i64,
    pub mgmt: i64,
    /// Whether the node is shutting down.
    pub exit: bool,
}

/// A node's state after a message, and what it asks for.
pub struct Outcome {
    pub node: NodeView,
    pub actions: Seq<ActionView>,
}

impl NodeView {
    /// What holds of every node: its id is on the ring, its counters count,
    /// and no finger offset and no stored key stands twice.
    pub open spec fn valid(self) -> bool {
        &&& 0 <= self.addr.id < RING_SIZE
        &&& self.gets >= 0
        &&& self.puts >= 0
        &&& self.mgmt >= 0
        &&& distinct_keys(self.fingers)
        &&& distinct_keys(self.data)
    }

    /// A node that has just started: alone on the ring.
    pub open spec fn fresh(addr: Address) -> NodeView {
        NodeView {
            addr,
            previous: addr,
            fingers: fresh_fingers(addr),
            data: Seq::empty(),
            pending: Seq::empty(),
            gets: 0,
            puts: 0,
            mgmt: 0,
            exit: false,
        }
    }

    /// Whether the ring id `id` lies on this node's arc.
    pub open spec fn is_mine(self, id: i64) -> bool {
        on_arc(id as int, self.previous.id as int, self.addr.id as int)
    }

    /// The offset of the finger that names the successor.
    pub open spec fn successor_offset(self) -> i64 {
        ring_id(self.addr.id + 1) as i64
    }

    /// The successor, if it is recorded and the ring id `id` lies on the arc
    /// from this node to it.
    pub open spec fn next_owner(self, id: i64) -> Option<Address> {
        match lookup(self.fingers, self.successor_offset()) {
            Some(next) => if on_arc(id as int, self.addr.id as int, next.id as int) {
                Some(next)
            } else {
                None
            },
            None => None,
        }
    }

    /// Where a request about `id` goes next: this node if the id is its own;
    /// else the successor if the id is the successor's; else the recorded
    /// owner closest below the id; else the predecessor.
    pub open spec fn next_hop(self, id: i64) -> Address {
        let id = ring_id(id as int) as i64;
        if self.is_mine(id) {
            self.addr
        } else {
            match self.next_owner(id) {
                Some(next) => next,
                None => match closest_below(self.fingers, id) {
                    Some(near) => near,
                    None => self.previous,
                },
            }
        }
    }

    /// This state, and one message to send.
    pub open spec fn send(self, to: Address, message: MessageView) -> Outcome {
        Outcome { node: self, actions: Seq::empty().push(ActionView::Send(to, message)) }
    }

    /// This state, and nothing to do.
    pub open spec fn quiet(self) -> Outcome {
        Outcome { node: self, actions: Seq::empty() }
    }

    /// A lookup. A key stored here is answered from here, whoever owns it;
    /// to the node itself the value is shown. A key not stored here is
    /// reported missing if this node owns it, and passed on if not.
    pub open spec fn on_get(self, reply: Address, key: i64) -> Outcome {
        let node = NodeView { gets: bump(self.gets), ..self };
        match lookup(self.data, key) {
            Some(value) => if self.addr == reply {
                Outcome {
                    node,
                    actions: Seq::empty().push(ActionView::ShowValue(key, value)),
                }
            } else {
                node.send(reply, MessageView::Answer(key, value, true))
            },
            None => if self.next_hop(key) == self.addr {
                node.send(reply, MessageView::Answer(key, 0, false))
            } else {
                node.send(self.next_hop(key), MessageView::Get(reply, key))
            },
        }
    }

    /// The answer to a lookup: a value that was found is shown.
    pub open spec fn on_answer(self, key: i64, value: u64, exists: bool) -> Outcome {
        if exists {
            Outcome { node: self, actions: Seq::empty().push(ActionView::ShowValue(key, value)) }
        } else {
            self.quiet()
        }
    }

    /// A write: stored and acknowledged if this node owns the key, passed
    /// on if not.
    pub open spec fn on_put(self, reply: Address, key: i64, value: u64, id: i64) -> Outcome {
        let node = NodeView { puts: bump(self.puts), ..self };
        if self.next_hop(key) == self.addr {
            NodeView { data: put(self.data, key, value), ..node }.send(reply, MessageView::Ack(id))
        } else {
            node.send(self.next_hop(key), MessageView::Put(reply, key, value, id))
        }
    }

    /// An acknowledgement: an awaited token is struck off and shown, an
    /// unknown one is ignored.
    pub open spec fn on_ack(self, id: i64) -> Outcome {
        let node = NodeView { mgmt: bump(self.mgmt), pending: without(self.pending, id), ..self };
        if first_index(self.pending, id) < self.pending.len() {
            Outcome { node, actions: Seq::empty().push(ActionView::ShowAck(id)) }
        } else {
            node.quiet()
        }
    }

    /// An owner query: answered with this node's address if it owns the
    /// key, passed on if not.
    pub open spec fn on_get_resp(self, reply: Address, key: i64) -> Outcome {
        if self.next_hop(key) == self.addr {
            self.send(reply, MessageView::AnswerResp(key, self.addr))
        } else {
            self.send(self.next_hop(key), MessageView::GetResp(reply, key))
        }
    }

    /// The answer to an owner query: recorded as a finger.
    pub open spec fn on_answer_resp(self, key: i64, owner: Address) -> Outcome {
        NodeView { fingers: put(self.fingers, key, owner), ..self }.quiet()
    }

    /// A join request: passed on if another node owns the joiner's id,
    /// refused if the id is this node's own, and else granted. Granting
    /// splits the arc: the joiner becomes the predecessor and gets the
    /// entries that [`migrates`] picks and the old predecessor as its own;
    /// the old predecessor is told to start the finger repair.
    pub open spec fn on_hello(self, joiner: Address) -> Outcome {
        if self.next_hop(joiner.id) != self.addr {
            self.send(self.next_hop(joiner.id), MessageView::Hello(joiner))
        } else if joiner.id == self.addr.id {
            self.send(joiner, MessageView::HelloKO(joiner.id))
        } else {
            Outcome {
                node: NodeView {
                    previous: joiner,
                    data: retained(self.data, self.previous.id, self.addr.id, joiner.id),
                    ..self
                },
                actions: Seq::empty().push(
                    ActionView::Send(
                        joiner,
                        MessageView::HelloOK(
                            joiner.id,
                            self.addr,
                            handed_over(self.data, self.previous.id, self.addr.id, joiner.id),
                            self.previous,
                        ),
                    ),
                ).push(
                    ActionView::Send(
                        self.previous,
                        MessageView::UpdateTable(joiner, -1i64, -1i64),
                    ),
                ),
            }
        }
    }

    /// The fingers of a node that has just joined behind `responder`.
    pub open spec fn joined_fingers(self, responder: Address) -> Seq<(i64, Address)> {
        put(self.fingers, self.successor_offset(), responder)
    }

    /// A granted join: the node takes the predecessor and the entries it is
    /// given, records the granting node as its successor, starts the finger
    /// repair behind itself, and asks the successor who owns each of its
    /// finger offsets.
    pub open spec fn on_hello_ok(
        self,
        responder: Address,
        data: Seq<(i64, u64)>,
        previous: Address,
    ) -> Outcome {
        Outcome {
            node: NodeView {
                previous,
                data: put_all(Seq::empty(), data),
                fingers: self.joined_fingers(responder),
                ..self
            },
            actions: Seq::empty().push(
                ActionView::Send(
                    previous,
                    MessageView::UpdateTable(
                        self.addr,
                        repair_floor(previous.id),
                        repair_span(previous.id, self.addr.id),
                    ),
                ),
            ) + requeries(self.joined_fingers(responder), responder, self.addr),
        }
    }

    /// A refused join: the node gives up.
    pub open spec fn on_hello_ko(self) -> Outcome {
        NodeView { exit: true, ..self }.quiet()
    }

    /// A finger repair for the node `new`. A node whose id is below
    /// `lowest` lets it drop. Any other hands to `new` the fingers that
    /// `new` takes over and, unless it is `new` itself, passes the repair
    /// to its predecessor.
    pub open spec fn on_update_table(self, new: Address, lowest: i64, amount: i64) -> Outcome {
        let node = NodeView { mgmt: bump(self.mgmt), ..self };
        if self.addr.id >= lowest {
            let node = NodeView { fingers: repaired(self.fingers, new), ..node };
            if self.addr != new {
                node.send(self.previous, MessageView::UpdateTable(new, lowest, amount))
            } else {
                node.quiet()
            }
        } else {
            node.quiet()
        }
    }

    /// A counter walk: the node adds its counters to the counts so far and
    /// passes them to its predecessor; the node that is its own predecessor
    /// shows the totals.
    pub open spec fn on_get_stat(self, reply: Address, gets: i64, puts: i64, mgmt: i64) -> Outcome {
        if self.previous != self.addr {
            self.send(
                self.previous,
                MessageView::GetStat(
                    reply,
                    total(gets, self.gets),
                    total(puts, self.puts),
                    total(mgmt, self.mgmt),
                ),
            )
        } else {
            Outcome {
                node: self,
                actions: Seq::empty().push(
                    ActionView::ShowCounters(
                        total(gets, self.gets),
                        total(puts, self.puts),
                        total(mgmt, self.mgmt),
                    ),
                ),
            }
        }
    }

    /// A print walk: the node shows its counters and passes the request to
    /// its predecessor, unless it is its own.
    pub open spec fn on_print(self, reply: Address) -> Outcome {
        let shown = Seq::empty().push(ActionView::ShowCounters(self.gets, self.puts, self.mgmt));
        if self.previous != self.addr {
            Outcome {
                node: self,
                actions: shown.push(ActionView::Send(self.previous, MessageView::Print(reply))),
            }
        } else {
            Outcome { node: self, actions: shown }
        }
    }

    /// A shutdown: passed to the predecessor first, unless the node is its
    /// own, and then obeyed.
    pub open spec fn on_exit(self) -> Outcome {
        let node = NodeView { exit: true, ..self };
        if self.previous != self.addr {
            node.send(self.previous, MessageView::Exit)
        } else {
            node.quiet()
        }
    }

    /// What a node does with a message.
    pub open spec fn step(self, message: MessageView) -> Outcome {
        match message {
            MessageView::Ack(id) => self.on_ack(id),
            MessageView::Answer(key, value, exists) => self.on_answer(key, value, exists),
            MessageView::AnswerResp(key, owner) => self.on_answer_resp(key, owner),
            MessageView::Exit => self.on_exit(),
            MessageView::Put(reply, key, value, id) => self.on_put(reply, key, value, id),
            MessageView::Get(reply, key) => self.on_get(reply, key),
            MessageView::GetResp(reply, key) => self.on_get_resp(reply, key),
            MessageView::GetStat(reply, gets, puts, mgmt) => self.on_get_stat(
                reply,
                gets,
                puts,
                mgmt,
            ),
            MessageView::Hello(joiner) => self.on_hello(joiner),
            MessageView::HelloKO(_) => self.on_hello_ko(),
            MessageView::HelloOK(_, responder, data, previous) => self.on_hello_ok(
                responder,
                data,
                previous,
            ),
            MessageView::Print(reply) => self.on_print(reply),
            MessageView::UpdateTable(new, lowest, amount) => self.on_update_table(
                new,
                lowest,
                amount,
            ),
        }
    }

    /// What a node does with received bytes: bytes that carry no message
    /// change nothing and ask for nothing.
    pub open spec fn receive(self, bytes: Seq<u8>) -> Outcome {
        match MessageView::of_bytes(bytes) {
            Ok(message) => self.step(message),
            Err(_) => self.quiet(),
        }
    }
}

/// A split loses nothing and doubles nothing: a key that migrates is found
/// with its value among the entries handed over and no longer among those
/// retained; any other key is found among those retained, as before, and
/// not among those handed over.
pub proof fn lemma_split(data: Seq<(i64, u64)>, previous: i64, owner: i64, joiner: i64, key: i64)
    ensures
        lookup(handed_over(data, previous, owner, joiner), key) == if migrates(
            key,
            previous,
            owner,
            joiner,
        ) {
            lookup(data, key)
        } else {
            None
        },
        lookup(retained(data, previous, owner, joiner), key) == if migrates(
            key,
            previous,
            owner,
            joiner,
        ) {
            None
        } else {
            lookup(data, key)
        },
    decreases data.len(),
{
    if data.len() > 0 {
        let head = data.drop_last();
        let last = data.last();
        lemma_split(head, previous, owner, joiner, key);
        assert(head.push(last) =~= data);
        crate::entries::lemma_lookup_push(head, last, key);
        crate::entries::lemma_lookup_push(
            handed_over(head, previous, owner, joiner),
            last,
            key,
        );
        crate::entries::lemma_lookup_push(retained(head, previous, owner, joiner), last, key);
    }
}

/// What the owner of a key was given to write, it gives back: after a write
/// that a node took for its own, a lookup of the same key is answered by
/// that node with the value written, and a lookup by the node itself shows
/// that value.
pub proof fn lemma_put_then_get(
    node: NodeView,
    writer: Address,
    reader: Address,
    key: i64,
    value: u64,
    token: i64,
)
    requires
        node.next_hop(key) == node.addr,
    ensures
        node.on_put(writer, key, value, token).actions == seq![
            ActionView::Send(writer, MessageView::Ack(token)),
        ],
        node.on_put(writer, key, value, token).node.on_get(reader, key).actions == seq![
            if reader == node.addr {
                ActionView::ShowValue(key, value)
            } else {
                ActionView::Send(reader, MessageView::Answer(key, value, true))
            },
        ],
{
    lemma_put(node.data, key, value, 0);
    let written = node.on_put(writer, key, value, token);
    assert(written.actions =~= seq![ActionView::Send(writer, MessageView::Ack(token))]);
    assert(written.node.on_get(reader, key).actions =~= seq![
        if reader == node.addr {
            ActionView::ShowValue(key, value)
        } else {
            ActionView::Send(reader, MessageView::Answer(key, value, true))
        },
    ]);
}

/// Both parts of a split hold keys of the whole only, and none twice if the
/// whole held none twice.
pub proof fn lemma_split_keeps_distinct(
    data: Seq<(i64, u64)>,
    previous: i64,
    owner: i64,
    joiner: i64,
)
    requires
        distinct_keys(data),
    ensures
        distinct_keys(handed_over(data, previous, owner, joiner)),
        distinct_keys(retained(data, previous, owner, joiner)),
        forall|i: int|
            0 <= i < handed_over(data, previous, owner, joiner).len() ==> has_key(
                data,
                (#[trigger] handed_over(data, previous, owner, joiner)[i]).0,
            ),
        forall|i: int|
            0 <= i < retained(data, previous, owner, joiner).len() ==> has_key(
                data,
                (#[trigger] retained(data, previous, owner, joiner)[i]).0,
            ),
    decreases data.len(),
{
    if data.len() > 0 {
        let head = data.drop_last();
        let last = data.last();
        let gone = handed_over(data, previous, owner, joiner);
        let kept = retained(data, previous, owner, joiner);
        let gone_before = handed_over(head, previous, owner, joiner);
        let kept_before = retained(head, previous, owner, joiner);
        lemma_split_keeps_distinct(head, previous, owner, joiner);
        lemma_has_key(head, last.0);
        assert(!has_key(head, last.0)) by {
            if has_key(head, last.0) {
                let i = choose|i: int| 0 <= i < head.len() && (#[trigger] head[i]).0 == last.0;
                assert(data[i].0 == data[data.len() - 1].0);
            }
        }
        assert forall|key: i64| has_key(head, key) implies has_key(data, key) by {
            lemma_has_key(head, key);
            lemma_has_key(data, key);
            let i = choose|i: int| 0 <= i < head.len() && (#[trigger] head[i]).0 == key;
            assert(data[i].0 == key);
        }
        assert(has_key(data, last.0)) by {
            lemma_has_key(data, last.0);
            assert(data[data.len() - 1].0 == last.0);
        }
        assert forall|i: int| 0 <= i < gone.len() implies has_key(data, (#[trigger] gone[i]).0) by {
            if i < gone_before.len() {
                assert(gone[i] == gone_before[i]);
            }
        }
        assert forall|i: int| 0 <= i < kept.len() implies has_key(data, (#[trigger] kept[i]).0) by {
            if i < kept_before.len() {
                assert(kept[i] == kept_before[i]);
            }
        }
        assert forall|i: int, j: int| 0 <= i < j < gone.len() implies gone[i].0 != gone[j].0 by {
            if j < gone_before.len() {
                assert(gone[i] == gone_before[i] && gone[j] == gone_before[j]);
            } else {
                assert(gone[i] == gone_before[i]);
                assert(has_key(head, gone_before[i].0));
            }
        }
        assert forall|i: int, j: int| 0 <= i < j < kept.len() implies kept[i].0 != kept[j].0 by {
            if j < kept_before.len() {
                assert(kept[i] == kept_before[i] && kept[j] == kept_before[j]);
            } else {
                assert(kept[i] == kept_before[i]);
                assert(has_key(head, kept_before[i].0));
            }
        }
    }
}

/// The offsets of a new node's fingers differ from one another.
pub proof fn lemma_fresh_fingers(addr: Address)
    requires
        0 <= addr.id < RING_SIZE,
    ensures
        distinct_keys(fresh_fingers(addr)),
{
    let fingers = fresh_fingers(addr);
    assert forall|i: int, j: int| 0 <= i < j < fingers.len() implies fingers[i].0
        != fingers[j].0 by {
        let a = addr.id + finger_step(i);
        let b = addr.id + finger_step(j);
        assert(ring_id(a) == if a >= 32 {
            a - 32
        } else {
            a
        });
        assert(ring_id(b) == if b >= 32 {
            b - 32
        } else {
            b
        });
    }
}

/// A join hands over exactly what migrates. When a node grants a join and
/// the joiner takes what it is sent, the joiner holds every key that
/// migrates, with the value it had, and nothing else; the granting node
/// holds every other key it held, with its value, and nothing else; the
/// granting node's predecessor is the joiner, and the joiner's predecessor
/// is the granting node's old one.
pub proof fn lemma_join(node: NodeView, joining: NodeView, key: i64)
    requires
        node.valid(),
        node.next_hop(joining.addr.id) == node.addr,
        joining.addr.id != node.addr.id,
    ensures
        ({
            let joiner = joining.addr;
            let granted = node.on_hello(joiner);
            let moved = handed_over(node.data, node.previous.id, node.addr.id, joiner.id);
            let joined = joining.on_hello_ok(node.addr, moved, node.previous).node;
            let goes = migrates(key, node.previous.id, node.addr.id, joiner.id);
            &&& granted.actions[0] == ActionView::Send(
                joiner,
                MessageView::HelloOK(joiner.id, node.addr, moved, node.previous),
            )
            &&& joined == joining.step(
                MessageView::HelloOK(joiner.id, node.addr, moved, node.previous),
            ).node
            &&& granted.node.previous == joiner
            &&& joined.previous == node.previous
            &&& lookup(joined.data, key) == if goes {
                lookup(node.data, key)
            } else {
                None
            }
            &&& lookup(granted.node.data, key) == if goes {
                None
            } else {
                lookup(node.data, key)
            }
        }),
{
    let joiner = joining.addr;
    let moved = handed_over(node.data, node.previous.id, node.addr.id, joiner.id);
    lemma_split(node.data, node.previous.id, node.addr.id, joiner.id, key);
    lemma_split_keeps_distinct(node.data, node.previous.id, node.addr.id, joiner.id);
    lemma_put_all_of_distinct(moved);
}

/// No message takes a node's id off the ring or a counter below zero, or
/// makes a finger offset or a stored key stand twice.
pub proof fn lemma_step_keeps_valid(node: NodeView, message: MessageView)
    requires
        node.valid(),
    ensures
        node.step(message).node.valid(),
        node.step(message).node.addr == node.addr,
{
    match message {
        MessageView::Put(_, key, value, _) => {
            lemma_put(node.data, key, value, 0);
        },
        MessageView::AnswerResp(key, owner) => {
            lemma_put(node.fingers, key, owner, 0);
        },
        MessageView::Hello(joiner) => {
            lemma_split_keeps_distinct(node.data, node.previous.id, node.addr.id, joiner.id);
        },
        MessageView::HelloOK(_, responder, data, _) => {
            lemma_put(node.fingers, node.successor_offset(), responder, 0);
            lemma_put_all_keeps_distinct(Seq::empty(), data);
        },
        MessageView::UpdateTable(new, _, _) => {
            assert(distinct_keys(repaired(node.fingers, new)));
        },
        _ => {},
    }
}

/// One node of the ring.
#[derive(Debug)]
pub struct Node {
    table: Table,
    data: Vec<(i64, u64)>,
    addr: Address,
    ack_vector: Vec<i64>,
    put: i64,
    get: i64,
    mgt: i64,
    exit: bool,
}

impl View for Node {
    type V = NodeView;

    closed spec fn view(&self) -> NodeView {
        NodeView {
            addr: self.addr,
            previous: self.table@.previous,
            fingers: self.table@.fingers,
            data: self.data@,
            pending: self.ack_vector@,
            gets: self.get,
            puts: self.put,
            mgmt: self.mgt,
            exit: self.exit,
        }
    }
}

fn no_actions() -> (actions: Vec<Action>)
    ensures
        actions_view(actions@) == Seq::<ActionView>::empty(),
{
    let actions: Vec<Action> = Vec::new();
    assert(actions_view(actions@) =~= Seq::<ActionView>::empty());
    actions
}

fn and_then(actions: Vec<Action>, action: Action) -> (more: Vec<Action>)
    ensures
        actions_view(more@) == actions_view(actions@).push(action@),
{
    let mut more = actions;
    let ghost before = actions_view(more@);
    more.push(action);
    assert(actions_view(more@) =~= before.push(action@));
    more
}

fn send(to: Address, message: Message) -> (actions: Vec<Action>)
    ensures
        actions_view(actions@) == Seq::<ActionView>::empty().push(ActionView::Send(to, message@)),
{
    and_then(no_actions(), Action::Send(to, message))
}

fn count_up(count: i64) -> (next: i64)
    ensures
        next == bump(count),
{
    if count < i64::MAX {
        count + 1
    } else {
        count
    }
}

fn add_counts(a: i64, b: i64) -> (sum: i64)
    ensures
        sum == total(a, b),
{
    match a.checked_add(b) {
        Some(sum) => sum,
        None => if a > 0 {
            i64::MAX
        } else {
            i64::MIN
        },
    }
}

fn goes_over(key: i64, previous: i64, owner: i64, joiner: i64) -> (goes: bool)
    ensures
        goes == migrates(key, previous, owner, joiner),
{
    if previous > owner {
        contains(key, previous, joiner)
    } else {
        key <= joiner
    }
}

impl Node {
    /// A node alone on the ring, at `ip` and `port`, with the ring id that
    /// `id` stands for.
    pub fn new(ip: u32, port: i64, id: i64) -> (node: Node)
        ensures
            node@ == NodeView::fresh(Address { host: ip, port, id: ring_id(id as int) as i64 }),
            node@.valid(),
    {
        let id: i64 = normalize(id);
        let addr: Address = Address::new(ip, port, id);
        let mut table: Table = Table::new(normalize(id + 1), addr);
        let mut idx: i64 = 2;
        let mut k: usize = 1;
        while idx <= HALF_RING
            invariant
                0 <= id < RING_SIZE,
                addr.id == id,
                1 <= k <= 5,
                k < 5 ==> idx == finger_step(k as int),
                k == 5 ==> idx == 32,
                table@.previous == addr,
                table@.fingers == fresh_fingers(addr).take(k as int),
            decreases 5 - k,
        {
            let offset: i64 = normalize(id + idx);
            proof {
                let known = table@.fingers;
                assert(idx == finger_step(k as int));
                let b = id + idx;
                assert(ring_id(b) == if b >= 32 {
                    b - 32
                } else {
                    b
                });
                assert forall|i: int| 0 <= i < known.len() implies known[i].0 != offset by {
                    assert(known[i] == fresh_fingers(addr)[i]);
                    let a = id + finger_step(i);
                    assert(ring_id(a) == if a >= 32 {
                        a - 32
                    } else {
                        a
                    });
                }
                crate::entries::lemma_index_of(known, offset, known.len() as int);
            }
            table.upsert_finger(offset, addr);
            assert(table@.fingers =~= fresh_fingers(addr).take(k + 1));
            idx = idx * 2;
            k = k + 1;
        }
        assert(fresh_fingers(addr).take(5) =~= fresh_fingers(addr));
        proof {
            lemma_fresh_fingers(addr);
        }
        Node {
            table,
            data: Vec::new(),
            addr,
            ack_vector: Vec::new(),
            put: 0,
            get: 0,
            mgt: 0,
            exit: false,
        }
    }

    /// The node's own address.
    pub fn get_addr(&self) -> (addr: Address)
        ensures
            addr == self@.addr,
    {
        self.addr
    }

    /// The node just before this one on the ring.
    pub fn previous(&self) -> (addr: Address)
        ensures
            addr == self@.previous,
    {
        self.table.previous()
    }

    /// The owner recorded for the finger offset `offset`.
    pub fn finger(&self, offset: i64) -> (owner: Option<Address>)
        ensures
            owner == lookup(self@.fingers, offset),
    {
        self.table.finger(offset)
    }

    /// What the key stands for in this node's own entries.
    pub fn value(&self, key: i64) -> (value: Option<u64>)
        ensures
            value == lookup(self@.data, key),
    {
        find(&self.data, key)
    }

    /// Number of entries stored here.
    pub fn stored(&self) -> (n: usize)
        ensures
            n == self@.data.len(),
    {
        self.data.len()
    }

    /// Lookups, writes and management messages handled so far.
    pub fn counters(&self) -> (counts: (i64, i64, i64))
        ensures
            counts == (self@.gets, self@.puts, self@.mgmt),
    {
        (self.get, self.put, self.mgt)
    }

    /// Whether the node is shutting down: the caller stops handing it
    /// messages.
    pub fn is_exiting(&self) -> (exiting: bool)
        ensures
            exiting == self@.exit,
    {
        self.exit
    }

    /// Number of writes whose acknowledgement is awaited.
    pub fn awaited(&self) -> (n: usize)
        ensures
            n == self@.pending.len(),
    {
        self.ack_vector.len()
    }

    /// Notes that a write with the token `id` was sent and awaits its
    /// acknowledgement.
    pub fn expect_ack(&mut self, id: i64)
        ensures
            final(self)@ == (NodeView { pending: old(self)@.pending.push(id), ..old(self)@ }),
    {
        self.ack_vector.push(id);
    }

    fn successor_offset(&self) -> (offset: i64)
        ensures
            offset == self@.successor_offset(),
    {
        let own: i64 = normalize(self.addr.get_id());
        assert(ring_id(ring_id(self.addr.id as int) + 1) == ring_id(self.addr.id + 1));
        normalize(own + 1)
    }

    fn is_mine(&self, id: i64) -> (mine: bool)
        ensures
            mine == self@.is_mine(id),
    {
        contains(id, self.table.previous().get_id(), self.addr.get_id())
    }

    fn next_is_the_owner(&self, id: i64) -> (next: Option<Address>)
        ensures
            next == self@.next_owner(id),
    {
        match self.table.finger(self.successor_offset()) {
            Some(a) => if contains(id, self.addr.get_id(), a.get_id()) {
                Some(a)
            } else {
                None
            },
            None => None,
        }
    }

    fn is_mine_or_next(&self, id: i64) -> (owner: Option<Address>)
        ensures
            owner == if self@.is_mine(id) {
                Some(self@.addr)
            } else {
                self@.next_owner(id)
            },
    {
        if self.is_mine(id) {
            Some(self.addr)
        } else {
            self.next_is_the_owner(id)
        }
    }

    /// Where a request about `id` goes next; the node's own address if the
    /// id is its own. There always is such an address.
    pub fn find_resp_in_table(&self, id: i64) -> (next: Option<Address>)
        ensures
            next == Some(self@.next_hop(id)),
    {
        let id: i64 = normalize(id);
        match self.is_mine_or_next(id) {
            Some(a) => Some(a),
            None => match self.table.closest_below(id) {
                Some(near) => Some(near),
                None => Some(self.table.previous()),
            },
        }
    }

    fn next_hop(&self, id: i64) -> (next: Address)
        ensures
            next == self@.next_hop(id),
    {
        match self.find_resp_in_table(id) {
            Some(a) => a,
            None => self.addr,
        }
    }

    fn handle_get(&mut self, reply: Address, key: i64) -> (actions: Vec<Action>)
        ensures
            final(self)@ == old(self)@.on_get(reply, key).node,
            actions_view(actions@) == old(self)@.on_get(reply, key).actions,
    {
        self.get = count_up(self.get);
        match find(&self.data, key) {
            Some(value) => if self.addr == reply {
                and_then(no_actions(), Action::ShowValue(key, value))
            } else {
                send(reply, Message::Answer(key, value, true))
            },
            None => {
                let next = self.next_hop(key);
                if next == self.addr {
                    send(reply, Message::Answer(key, 0, false))
                } else {
                    send(next, Message::Get(reply, key))
                }
            },
        }
    }

    fn handle_answer(&self, key: i64, value: u64, exists: bool) -> (actions: Vec<Action>)
        ensures
            actions_view(actions@) == self@.on_answer(key, value, exists).actions,
    {
        if exists {
            and_then(no_actions(), Action::ShowValue(key, value))
        } else {
            no_actions()
        }
    }

    fn handle_put(&mut self, reply: Address, key: i64, value: u64, id: i64) -> (actions: Vec<
        Action,
    >)
        ensures
            final(self)@ == old(self)@.on_put(reply, key, value, id).node,
            actions_view(actions@) == old(self)@.on_put(reply, key, value, id).actions,
    {
        let next = self.next_hop(key);
        self.put = count_up(self.put);
        if next == self.addr {
            set_key(&mut self.data, key, value);
            send(reply, Message::Ack(id))
        } else {
            send(next, Message::Put(reply, key, value, id))
        }
    }

    fn handle_ack(&mut self, id: i64) -> (actions: Vec<Action>)
        ensures
            final(self)@ == old(self)@.on_ack(id).node,
            actions_view(actions@) == old(self)@.on_ack(id).actions,
    {
        self.mgt = count_up(self.mgt);
        let mut at: usize = 0;
        assert(self.ack_vector@.skip(0) =~= self.ack_vector@);
        while at < self.ack_vector.len() && self.ack_vector[at] != id
            invariant
                at <= self.ack_vector@.len(),
                self.ack_vector@ == old(self).ack_vector@,
                first_index(self.ack_vector@, id) == at + first_index(
                    self.ack_vector@.skip(at as int),
                    id,
                ),
            decreases self.ack_vector@.len() - at,
        {
            assert(self.ack_vector@.skip(at as int).drop_first() =~= self.ack_vector@.skip(
                at + 1,
            ));
            at = at + 1;
        }
        if at < self.ack_vector.len() {
            assert(self.ack_vector@.skip(at as int)[0] == id);
            self.ack_vector.remove(at);
            and_then(no_actions(), Action::ShowAck(id))
        } else {
            no_actions()
        }
    }

    fn handle_get_resp(&self, reply: Address, key: i64) -> (actions: Vec<Action>)
        ensures
            actions_view(actions@) == self@.on_get_resp(reply, key).actions,
    {
        let next = self.next_hop(key);
        if next == self.addr {
            send(reply, Message::AnswerResp(key, self.addr))
        } else {
            send(next, Message::GetResp(reply, key))
        }
    }

    fn handle_answer_resp(&mut self, key: i64, owner: Address)
        ensures
            final(self)@ == old(self)@.on_answer_resp(key, owner).node,
    {
        self.table.upsert_finger(key, owner);
    }

    /// Takes out the entries that go to a joiner with id `joiner`.
    fn hand_over(&mut self, joiner: i64) -> (moved: Vec<(i64, u64)>)
        ensures
            moved@ == handed_over(
                old(self)@.data,
                old(self)@.previous.id,
                old(self)@.addr.id,
                joiner,
            ),
            final(self)@ == (NodeView {
                data: retained(
                    old(self)@.data,
                    old(self)@.previous.id,
                    old(self)@.addr.id,
                    joiner,
                ),
                ..old(self)@
            }),
    {
        let previous: i64 = self.table.previous().get_id();
        let owner: i64 = self.addr.get_id();
        let mut moved: Vec<(i64, u64)> = Vec::new();
        let mut kept: Vec<(i64, u64)> = Vec::new();
        let mut k: usize = 0;
        while k < self.data.len()
            invariant
                k <= self.data@.len(),
                self.data@ == old(self).data@,
                moved@ == handed_over(self.data@.take(k as int), previous, owner, joiner),
                kept@ == retained(self.data@.take(k as int), previous, owner, joiner),
            decreases self.data@.len() - k,
        {
            let entry: (i64, u64) = self.data[k];
            assert(self.data@.take(k + 1).drop_last() =~= self.data@.take(k as int));
            if goes_over(entry.0, previous, owner, joiner) {
                moved.push(entry);
            } else {
                kept.push(entry);
            }
            k = k + 1;
        }
        assert(self.data@.take(k as int) =~= self.data@);
        self.data = kept;
        moved
    }

    fn handle_hello(&mut self, joiner: Address) -> (actions: Vec<Action>)
        ensures
            final(self)@ == old(self)@.on_hello(joiner).node,
            actions_view(actions@) == old(self)@.on_hello(joiner).actions,
    {
        let next = self.next_hop(joiner.get_id());
        if next != self.addr {
            send(next, Message::Hello(joiner))
        } else if joiner.get_id() == self.addr.get_id() {
            send(joiner, Message::HelloKO(joiner.get_id()))
        } else {
            let old_previous: Address = self.table.previous();
            let moved = self.hand_over(joiner.get_id());
            self.table.set_previous(joiner);
            and_then(
                send(joiner, Message::HelloOK(joiner.get_id(), self.addr, moved, old_previous)),
                Action::Send(old_previous, Message::UpdateTable(joiner, -1, -1)),
            )
        }
    }

    fn handle_hello_ok(&mut self, responder: Address, data: Vec<(i64, u64)>, previous: Address) -> (actions:
        Vec<Action>)
        ensures
            final(self)@ == old(self)@.on_hello_ok(responder, data@, previous).node,
            actions_view(actions@) == old(self)@.on_hello_ok(responder, data@, previous).actions,
    {
        self.table.set_previous(previous);
        let mut adopted: Vec<(i64, u64)> = Vec::new();
        let mut k: usize = 0;
        while k < data.len()
            invariant
                k <= data@.len(),
                adopted@ == put_all(Seq::empty(), data@.take(k as int)),
            decreases data@.len() - k,
        {
            assert(data@.take(k + 1).drop_last() =~= data@.take(k as int));
            set_key(&mut adopted, data[k].0, data[k].1);
            k = k + 1;
        }
        assert(data@.take(k as int) =~= data@);
        self.data = adopted;
        self.table.upsert_finger(self.successor_offset(), responder);
        let own: i64 = normalize(self.addr.get_id());
        let behind: i64 = normalize(previous.get_id());
        let span: i64 = if behind > own {
            RING_SIZE - behind + (own - 1)
        } else {
            own - behind
        };
        let mut actions = send(
            previous,
            Message::UpdateTable(self.addr, behind + 1 - HALF_RING, span),
        );
        let ghost first = actions_view(actions@);
        let ghost fingers = self.table@.fingers;
        let mut k: usize = 0;
        while k < self.table.len()
            invariant
                k <= fingers.len(),
                fingers == self.table@.fingers,
                actions_view(actions@) == first + requeries(fingers, responder, self.addr).take(
                    k as int,
                ),
            decreases fingers.len() - k,
        {
            let offset: i64 = self.table.finger_at(k).0;
            let ghost before = actions_view(actions@);
            actions = and_then(actions, Action::Send(responder, Message::GetResp(self.addr, offset)));
            assert(actions_view(actions@) =~= first + requeries(
                fingers,
                responder,
                self.addr,
            ).take(k + 1));
            k = k + 1;
        }
        assert(requeries(fingers, responder, self.addr).take(k as int) =~= requeries(
            fingers,
            responder,
            self.addr,
        ));
        actions
    }

    fn handle_hello_ko(&mut self)
        ensures
            final(self)@ == old(self)@.on_hello_ko().node,
    {
        self.exit = true;
    }

    fn handle_update_table(&mut self, new: Address, lowest: i64, amount: i64) -> (actions: Vec<
        Action,
    >)
        ensures
            final(self)@ == old(self)@.on_update_table(new, lowest, amount).node,
            actions_view(actions@) == old(self)@.on_update_table(new, lowest, amount).actions,
    {
        self.mgt = count_up(self.mgt);
        if self.addr.get_id() >= lowest {
            self.table.repair(new);
            if self.addr != new {
                send(self.table.previous(), Message::UpdateTable(new, lowest, amount))
            } else {
                no_actions()
            }
        } else {
            no_actions()
        }
    }

    fn handle_get_stat(&self, reply: Address, gets: i64, puts: i64, mgmt: i64) -> (actions: Vec<
        Action,
    >)
        ensures
            actions_view(actions@) == self@.on_get_stat(reply, gets, puts, mgmt).actions,
    {
        let gets: i64 = add_counts(gets, self.get);
        let puts: i64 = add_counts(puts, self.put);
        let mgmt: i64 = add_counts(mgmt, self.mgt);
        if self.table.previous() != self.addr {
            send(self.table.previous(), Message::GetStat(reply, gets, puts, mgmt))
        } else {
            and_then(no_actions(), Action::ShowCounters(gets, puts, mgmt))
        }
    }

    fn handle_print(&self, reply: Address) -> (actions: Vec<Action>)
        ensures
            actions_view(actions@) == self@.on_print(reply).actions,
    {
        let shown = and_then(no_actions(), Action::ShowCounters(self.get, self.put, self.mgt));
        if self.table.previous() != self.addr {
            and_then(shown, Action::Send(self.table.previous(), Message::Print(reply)))
        } else {
            shown
        }
    }

    fn handle_exit(&mut self) -> (actions: Vec<Action>)
        ensures
            final(self)@ == old(self)@.on_exit().node,
            actions_view(actions@) == old(self)@.on_exit().actions,
    {
        self.exit = true;
        if self.table.previous() != self.addr {
            send(self.table.previous(), Message::Exit())
        } else {
            no_actions()
        }
    }

    /// Handles one message: the node's state moves on as [`NodeView::step`]
    /// says, and the actions it asks for are returned in order.
    pub fn handle(&mut self, message: Message) -> (actions: Vec<Action>)
        ensures
            final(self)@ == old(self)@.step(message@).node,
            actions_view(actions@) == old(self)@.step(message@).actions,
            old(self)@.valid() ==> final(self)@.valid(),
    {
        proof {
            if self@.valid() {
                lemma_step_keeps_valid(self@, message@);
            }
        }
        match message {
            Message::Ack(id) => self.handle_ack(id),
            Message::Answer(key, value, exists) => self.handle_answer(key, value, exists),
            Message::AnswerResp(key, owner) => {
                self.handle_answer_resp(key, owner);
                no_actions()
            },
            Message::Exit() => self.handle_exit(),
            Message::Put(reply, key, value, id) => self.handle_put(reply, key, value, id),
            Message::Get(reply, key) => self.handle_get(reply, key),
            Message::GetResp(reply, key) => self.handle_get_resp(reply, key),
            Message::GetStat(reply, gets, puts, mgmt) => self.handle_get_stat(
                reply,
                gets,
                puts,
                mgmt,
            ),
            Message::Hello(joiner) => self.handle_hello(joiner),
            Message::HelloKO(_) => {
                self.handle_hello_ko();
                no_actions()
            },
            Message::HelloOK(_, responder, data, previous) => self.handle_hello_ok(
                responder,
                data,
                previous,
            ),
            Message::Print(reply) => self.handle_print(reply),
            Message::UpdateTable(new, lowest, amount) => self.handle_update_table(
                new,
                lowest,
                amount,
            ),
        }
    }

    /// Handles what arrived on one connection. Bytes that carry no message
    /// are dropped: the node stays as it was, and the reason is returned.
    pub fn handle_message(&mut self, bytes: &[u8]) -> (r: Result<Vec<Action>, DecodeError>)
        ensures
            final(self)@ == old(self)@.receive(bytes@).node,
            old(self)@.valid() ==> final(self)@.valid(),
            match r {
                Ok(actions) => MessageView::of_bytes(bytes@) is Ok && actions_view(actions@) == old(
                    self,
                )@.receive(bytes@).actions,
                Err(e) => MessageView::of_bytes(bytes@) == Err::<MessageView, DecodeError>(e),
            },
    {
        match Message::decode(bytes) {
            Ok(message) => Ok(self.handle(message)),
            Err(e) => Err(e),
        }
    }
}

} // verus!
