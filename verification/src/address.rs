//! Where a ring participant is reached, and which id it holds on the ring.

use vstd::prelude::*;
use crate::json::{find_member, no_members, with_member, Json, JsonView};
use crate::text::{host_of, host_text, host_to_text, lemma_host_text_spells, read_host};

verus! {

/// The identity of a participant: a network location and a ring id.
///
/// The host is an IPv4 address as one number, its first part in the highest
/// byte. Two addresses are the same when all three fields are.
#[derive(Debug, Clone, Copy, PartialEq, Eq, Structural)]
pub struct Address {
    pub host: u32,
    pub port: i64,
    pub id: i64,
}

impl Address {
    /// The document that carries this address on the wire.
    pub open spec fn json(self) -> JsonView {
        JsonView::Object(
            Seq::<(Seq<char>, JsonView)>::empty().push(("id"@, JsonView::integer(self.id))).push(
                ("host"@, JsonView::Text(host_text(self.host))),
            ).push(("port"@, JsonView::integer(self.port))),
        )
    }

    /// The address that a document carries: an object with an integer `id`,
    /// a dotted `host` and an integer `port`.
    pub open spec fn of_json(j: JsonView) -> Option<Address> {
        match (j.member("id"@), j.member("host"@), j.member("port"@)) {
            (Some(id), Some(host), Some(port)) => match (
                id.as_int(),
                host.as_text(),
                port.as_int(),
            ) {
                (Some(id), Some(host), Some(port)) => match host_of(host) {
                    Some(host) => Some(Address { host, port, id }),
                    None => None,
                },
                _ => None,
            },
            _ => None,
        }
    }

    /// The address of the participant at `ip` and `port` with the ring id
    /// `id`.
    pub fn new(ip: u32, port: i64, id: i64) -> (a: Address)
        ensures
            a == (Address { host: ip, port, id }),
    {
        Address { host: ip, port, id }
    }

    /// The ring id.
    pub fn get_id(&self) -> (id: i64)
        ensures
            id == self.id,
    {
        self.id
    }

    /// The host, as one number.
    pub fn get_ip(&self) -> (ip: u32)
        ensures
            ip == self.host,
    {
        self.host
    }

    /// The port.
    pub fn get_port(&self) -> (port: i64)
        ensures
            port == self.port,
    {
        self.port
    }

    /// Writes the document that carries this address.
    pub fn to_json(&self) -> (j: Json)
        ensures
            j@ == self.json(),
    {
        let members: Vec<(String, Json)> = with_member(
            with_member(
                with_member(no_members(), "id", Json::integer(self.id)),
                "host",
                Json::text(host_to_text(self.host)),
            ),
            "port",
            Json::integer(self.port),
        );
        Json::object(members)
    }

    /// Reads the address that a document carries.
    pub fn from_json(j: &Json) -> (r: Option<Address>)
        ensures
            r == Address::of_json(j@),
    {
        let id = match j.get("id") {
            Some(v) => v.as_int(),
            None => None,
        };
        let host = match j.get("host") {
            Some(v) => match v.as_text() {
                Some(t) => read_host(t.as_str()),
                None => None,
            },
            None => None,
        };
        let port = match j.get("port") {
            Some(v) => v.as_int(),
            None => None,
        };
        match (id, host, port) {
            (Some(id), Some(host), Some(port)) => Some(Address { host, port, id }),
            _ => None,
        }
    }
}

/// The three member names of an address differ from one another.
pub proof fn lemma_address_names()
    ensures
        "id"@ != "host"@,
        "id"@ != "port"@,
        "host"@ != "port"@,
{
    reveal_strlit("id");
    reveal_strlit("host");
    reveal_strlit("port");
    assert("id"@.len() == 2);
    assert("host"@.len() == 4);
    assert("port"@.len() == 4);
    assert("host"@[0] == 'h');
    assert("port"@[0] == 'p');
}

/// What is written for an address is read back as that address.
pub proof fn lemma_address_round_trip(a: Address)
    ensures
        Address::of_json(a.json()) == Some(a),
{
    lemma_address_names();
    lemma_host_text_spells(a.host);
    let members = a.json()->Object_0;
    reveal_with_fuel(find_member, 4);
    assert(find_member(members, "id"@) == Some(JsonView::integer(a.id)));
    assert(find_member(members, "host"@) == Some(JsonView::Text(host_text(a.host))));
    assert(find_member(members, "port"@) == Some(JsonView::integer(a.port)));
}

} // verus!
