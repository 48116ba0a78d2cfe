use std::collections::VecDeque;

use chord_ring::address::Address;
use chord_ring::json::Json;
use chord_ring::message::Message;
use chord_ring::node::{Action, Node};
use chord_ring::ring::{contains, RING_SIZE};

const HOST: u32 = 0x7f000001;

fn at(id: i64) -> Address {
    Address::new(HOST, 8000 + id, id)
}

fn client() -> Address {
    Address::new(HOST, 7000, -1)
}

fn bits(v: f64) -> u64 {
    v.to_bits()
}

fn to_value(j: &Json) -> serde_json::Value {
    match j {
        Json::Null => serde_json::Value::Null,
        Json::Bool(b) => serde_json::Value::Bool(*b),
        Json::Number(Some(i), _) => serde_json::Value::from(*i),
        Json::Number(None, Some(bits)) => serde_json::Value::from(f64::from_bits(*bits)),
        Json::Number(None, None) => serde_json::Value::Null,
        Json::Text(s) => serde_json::Value::String(s.clone()),
        Json::Array(items) => serde_json::Value::Array(items.iter().map(to_value).collect()),
        Json::Object(members) => serde_json::Value::Object(
            members.iter().map(|(k, v)| (k.clone(), to_value(v))).collect(),
        ),
    }
}

/// Nodes joined by a queue that stands for the network. Every message
/// crosses it as JSON text.
struct Net {
    nodes: Vec<Node>,
    queue: VecDeque<(Address, Vec<u8>)>,
    /// What reached an address where no node listens.
    lost: Vec<(Address, Message)>,
    shown: Vec<(i64, Action)>,
    delivered: usize,
}

impl Net {
    fn new() -> Net {
        Net { nodes: Vec::new(), queue: VecDeque::new(), lost: Vec::new(), shown: Vec::new(), delivered: 0 }
    }

    fn post(&mut self, to: Address, message: Message) {
        let text = to_value(&message.to_json()).to_string();
        self.queue.push_back((to, text.into_bytes()));
    }

    /// Delivers until the queue is empty or `limit` messages were handled.
    fn run(&mut self, limit: usize) {
        let mut handled = 0;
        while handled < limit {
            let (to, bytes) = match self.queue.pop_front() {
                Some(next) => next,
                None => return,
            };
            match self.nodes.iter_mut().find(|n| n.get_addr() == to && !n.is_exiting()) {
                Some(node) => {
                    handled += 1;
                    self.delivered += 1;
                    let id = node.get_addr().get_id();
                    let actions = node.handle_message(&bytes).expect("a node sent it");
                    for action in actions {
                        match action {
                            Action::Send(to, message) => self.post(to, message),
                            other => self.shown.push((id, other)),
                        }
                    }
                },
                None => self.lost.push((to, Message::decode(&bytes).expect("a node sent it"))),
            }
        }
    }

    fn settle(&mut self) {
        self.run(10_000);
        assert!(self.queue.is_empty(), "the network does not come to rest");
    }

    /// Starts a node and lets it join through the first node.
    fn join(&mut self, id: i64) {
        let node = Node::new(HOST, 8000 + id, id);
        let addr = node.get_addr();
        self.nodes.push(node);
        if self.nodes.len() > 1 {
            let bootstrap = self.nodes[0].get_addr();
            self.post(Address::new(bootstrap.get_ip(), bootstrap.get_port(), 0), Message::Hello(addr));
            // The bootstrap address is known by host and port only.
            let (_, bytes) = self.queue.pop_back().unwrap();
            self.queue.push_back((bootstrap, bytes));
        }
        self.settle();
    }

    fn node(&self, id: i64) -> &Node {
        self.nodes.iter().find(|n| n.get_addr().get_id() == id).unwrap()
    }

    fn ids(&self) -> Vec<i64> {
        let mut ids: Vec<i64> = self.nodes.iter().map(|n| n.get_addr().get_id()).collect();
        ids.sort();
        ids
    }

    /// The id of the node on whose arc `id` lies, by the predecessor links.
    fn owner(&self, id: i64) -> i64 {
        let owners: Vec<i64> = self
            .nodes
            .iter()
            .filter(|n| contains(id, n.previous().get_id(), n.get_addr().get_id()))
            .map(|n| n.get_addr().get_id())
            .collect();
        assert_eq!(owners.len(), 1, "id {} has owners {:?}", id, owners);
        owners[0]
    }
}

fn ring_of(ids: &[i64]) -> Net {
    let mut net = Net::new();
    for id in ids {
        net.join(*id);
    }
    net
}

fn assert_linked(net: &Net) {
    let ids = net.ids();
    for (k, id) in ids.iter().enumerate() {
        let before = ids[(k + ids.len() - 1) % ids.len()];
        let behind = ids[(k + 1) % ids.len()];
        let node = net.node(*id);
        assert_eq!(node.previous(), at(before), "predecessor of {}", id);
        assert_eq!(node.finger((id + 1) % RING_SIZE), Some(at(behind)), "successor of {}", id);
    }
}

#[test]
fn two_nodes_link_up() {
    let net = ring_of(&[5, 4]);
    assert_linked(&net);
    assert!(net.lost.is_empty());
}

#[test]
fn join_hands_the_keys_below_the_joiner_over() {
    let mut net = Net::new();
    net.join(5);
    for (key, value) in [(3, 1.0), (4, 2.0), (6, 3.0)] {
        net.post(at(5), Message::Put(client(), key, bits(value), key));
    }
    net.settle();
    assert_eq!(net.lost.len(), 3);
    net.join(4);
    let a = net.node(5);
    let b = net.node(4);
    assert_eq!(b.stored(), 2);
    assert_eq!(b.value(3), Some(bits(1.0)));
    assert_eq!(b.value(4), Some(bits(2.0)));
    assert_eq!(a.stored(), 1);
    assert_eq!(a.value(6), Some(bits(3.0)));
    assert_eq!(a.previous(), at(4));
    assert_eq!(b.previous(), at(5));
}

#[test]
fn rings_link_up_whatever_the_order_of_joins() {
    for ids in [
        vec![5, 4, 20],
        vec![0, 16, 8, 24],
        vec![31, 0, 1],
        vec![10, 20, 30, 5, 15, 25],
        vec![3, 28, 12, 17, 0, 31, 9],
        vec![16, 15, 14, 13, 12],
        vec![1, 2, 3, 4, 5, 6, 7, 8],
    ] {
        let net = ring_of(&ids);
        assert_linked(&net);
        assert!(net.lost.is_empty(), "{:?}: {:?}", ids, net.lost);
    }
}

#[test]
fn a_request_reaches_the_owner_within_as_many_hops_as_nodes() {
    for ids in [vec![5], vec![5, 4], vec![5, 4, 20], vec![3, 28, 12, 17, 0, 31, 9]] {
        let net = ring_of(&ids);
        for start in &ids {
            for id in 0..RING_SIZE {
                let owner = net.owner(id);
                let mut here = *start;
                let mut hops = 0;
                loop {
                    let next = net.node(here).find_resp_in_table(id).unwrap();
                    if next == at(here) {
                        break;
                    }
                    here = next.get_id();
                    hops += 1;
                    assert!(hops <= ids.len(), "{:?}: {} from {}", ids, id, start);
                }
                assert_eq!(here, owner, "{:?}: {} from {}", ids, id, start);
            }
        }
    }
}

#[test]
fn a_value_put_anywhere_is_found_from_anywhere() {
    let ids = [10, 20, 30, 5, 15, 25];
    let mut net = ring_of(&ids);
    for (k, key) in (0..RING_SIZE).enumerate() {
        let through = ids[k % ids.len()];
        net.post(at(through), Message::Put(client(), key, bits(key as f64 + 0.5), 100 + key));
    }
    net.settle();
    for key in 0..RING_SIZE {
        assert!(net.lost.contains(&(client(), Message::Ack(100 + key))));
        let owner = net.owner(key);
        assert_eq!(net.node(owner).value(key), Some(bits(key as f64 + 0.5)));
    }
    assert_eq!(net.nodes.iter().map(|n| n.stored()).sum::<usize>(), 32);
    net.lost.clear();
    for start in ids {
        for key in 0..RING_SIZE {
            net.post(at(start), Message::Get(client(), key));
        }
    }
    net.settle();
    for key in 0..RING_SIZE {
        let answer = (client(), Message::Answer(key, bits(key as f64 + 0.5), true));
        assert_eq!(net.lost.iter().filter(|m| **m == answer).count(), ids.len());
    }
    assert_eq!(net.lost.len(), ids.len() * 32);
}

#[test]
fn a_later_join_takes_its_share_of_the_keys() {
    let mut net = ring_of(&[10, 20]);
    for key in 0..RING_SIZE {
        net.post(at(10), Message::Put(client(), key, bits(key as f64), key));
    }
    net.settle();
    net.join(15);
    net.join(28);
    assert_linked(&net);
    for key in 0..RING_SIZE {
        let owner = net.owner(key);
        assert_eq!(net.node(owner).value(key), Some(bits(key as f64)), "key {}", key);
    }
    assert_eq!(net.node(15).stored(), 5);
    assert_eq!(net.node(28).stored(), 8);
}

#[test]
fn a_taken_id_shuts_the_joiner_down() {
    let mut net = ring_of(&[5, 20]);
    let twin = Node::new(HOST, 9999, 20);
    let twin_addr = twin.get_addr();
    net.nodes.push(twin);
    net.post(at(5), Message::Hello(twin_addr));
    net.settle();
    assert!(net.nodes[2].is_exiting());
    assert!(!net.node(5).is_exiting());
    assert_eq!(net.node(5).previous(), at(20));
    assert_eq!(net.nodes[1].previous(), at(5));
}

#[test]
fn exit_goes_once_around_the_ring() {
    for ids in [vec![5], vec![5, 4], vec![10, 20, 30, 5, 15, 25]] {
        for start in &ids {
            let mut net = ring_of(&ids);
            let before = net.delivered;
            net.post(at(*start), Message::Exit());
            net.settle();
            assert!(net.nodes.iter().all(|n| n.is_exiting()));
            assert_eq!(net.delivered - before, ids.len());
            if ids.len() > 1 {
                // The last node passes the signal to the first, which has left.
                assert_eq!(net.lost, vec![(at(*start), Message::Exit())]);
            }
        }
    }
}

#[test]
fn a_counter_walk_ends_where_a_node_is_its_own_predecessor() {
    // A line of three: 20 behind 10 behind 5, and 5 is its own predecessor.
    let mut net = Net::new();
    for id in [5, 10, 20] {
        net.nodes.push(Node::new(HOST, 8000 + id, id));
    }
    net.nodes[1].handle(Message::HelloOK(10, at(20), Vec::new(), at(5)));
    net.nodes[2].handle(Message::HelloOK(20, at(5), Vec::new(), at(10)));
    for (id, gets, puts) in [(5, 1, 2), (10, 3, 0), (20, 0, 4)] {
        for key in 0..gets {
            net.post(at(id), Message::Get(client(), 100 + key));
        }
        for key in 0..puts {
            net.post(at(id), Message::Answer(key, 0, false));
            net.post(at(id), Message::Ack(key));
        }
    }
    net.run(10_000);
    net.queue.clear();
    let counts: Vec<(i64, i64, i64)> = net.nodes.iter().map(|n| n.counters()).collect();
    let sum = counts.iter().fold((0, 0, 0), |s, c| (s.0 + c.0, s.1 + c.1, s.2 + c.2));
    assert_eq!(counts, vec![(3, 0, 2), (3, 0, 0), (0, 0, 4)]);
    assert_eq!(sum, (6, 0, 6));
    net.shown.clear();
    for _ in 0..2 {
        net.post(at(20), Message::GetStat(client(), 0, 0, 0));
        net.settle();
    }
    assert_eq!(
        net.shown,
        vec![(5, Action::ShowCounters(6, 0, 6)), (5, Action::ShowCounters(6, 0, 6))]
    );
    let after: Vec<(i64, i64, i64)> = net.nodes.iter().map(|n| n.counters()).collect();
    assert_eq!(after, counts);
}

#[test]
fn an_owner_query_comes_back_from_the_owner() {
    let ids = [3, 28, 12, 17, 0, 31, 9];
    let mut net = ring_of(&ids);
    for start in ids {
        for id in 0..RING_SIZE {
            let owner = net.owner(id);
            let before = net.delivered;
            net.post(at(start), Message::GetResp(client(), id));
            net.settle();
            assert_eq!(net.lost, vec![(client(), Message::AnswerResp(id, at(owner)))]);
            assert!(net.delivered - before <= ids.len());
            net.lost.clear();
        }
    }
    assert!(net.shown.is_empty());
}

#[test]
fn a_print_walk_shows_every_node_on_its_way() {
    let mut net = Net::new();
    for id in [5, 10, 20] {
        net.nodes.push(Node::new(HOST, 8000 + id, id));
    }
    net.nodes[1].handle(Message::HelloOK(10, at(20), Vec::new(), at(5)));
    net.nodes[2].handle(Message::HelloOK(20, at(5), Vec::new(), at(10)));
    net.nodes[1].handle(Message::Ack(1));
    net.post(at(20), Message::Print(client()));
    net.settle();
    assert_eq!(
        net.shown,
        vec![
            (20, Action::ShowCounters(0, 0, 0)),
            (10, Action::ShowCounters(0, 0, 1)),
            (5, Action::ShowCounters(0, 0, 0)),
        ]
    );
}
