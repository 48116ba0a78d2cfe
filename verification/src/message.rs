//! The messages that nodes exchange, and their form on the wire.
//!
//! On the wire a message is a JSON object with two members: `cmd`, the
//! command's name, and `args`, an object with the command's arguments.

use vstd::prelude::*;
use vstd::string::*;
use crate::address::{lemma_address_round_trip, Address};
use crate::json::{find_member, members_view, no_members, with_member, Json, JsonView};
use crate::text::{i64_of, int_text, int_to_text, lemma_int_text_spells, read_int};

verus! {

/// A message of the ring protocol. A stored value travels as the bits of a
/// double.
#[derive(Debug, Clone, PartialEq)]
pub enum Message {
    /// A write with this token was committed.
    Ack(i64),
    /// Reply to a lookup: key, value, and whether the key was there.
    Answer(i64, u64, bool),
    /// Reply to an owner query: the key and who owns it.
    AnswerResp(i64, Address),
    /// Shut down.
    Exit(),
    /// Write request: whom to acknowledge, key, value, token.
    Put(Address, i64, u64, i64),
    /// Lookup request: whom to answer, key.
    Get(Address, i64),
    /// Owner query: whom to answer, key.
    GetResp(Address, i64),
    /// Counter walk: whom it is for, and the gets, puts and management
    /// messages counted so far.
    GetStat(Address, i64, i64, i64),
    /// Join request of the node at this address.
    Hello(Address),
    /// Join refused: the id is taken.
    HelloKO(i64),
    /// Join accepted: the joiner's id, who accepted, the entries handed
    /// over, and the joiner's new predecessor.
    HelloOK(i64, Address, Vec<(i64, u64)>, Address),
    /// Ask every node to report its counters.
    Print(Address),
    /// Finger repair: the new node, the lowest id to inform, a hop budget.
    UpdateTable(Address, i64, i64),
}

/// The mathematical value of a [`Message`].
pub enum MessageView {
    Ack(i64),
    Answer(i64, u64, bool),
    AnswerResp(i64, Address),
    Exit,
    Put(Address, i64, u64, i64),
    Get(Address, i64),
    GetResp(Address, i64),
    GetStat(Address, i64, i64, i64),
    Hello(Address),
    HelloKO(i64),
    HelloOK(i64, Address, Seq<(i64, u64)>, Address),
    Print(Address),
    UpdateTable(Address, i64, i64),
}

impl View for Message {
    type V = MessageView;

    open spec fn view(&self) -> MessageView {
        match self {
            Message::Ack(id) => MessageView::Ack(*id),
            Message::Answer(key, value, exists) => MessageView::Answer(*key, *value, *exists),
            Message::AnswerResp(key, owner) => MessageView::AnswerResp(*key, *owner),
            Message::Exit() => MessageView::Exit,
            Message::Put(reply, key, value, id) => MessageView::Put(*reply, *key, *value, *id),
            Message::Get(reply, key) => MessageView::Get(*reply, *key),
            Message::GetResp(reply, key) => MessageView::GetResp(*reply, *key),
            Message::GetStat(reply, gets, puts, mgmt) => MessageView::GetStat(
                *reply,
                *gets,
                *puts,
                *mgmt,
            ),
            Message::Hello(joiner) => MessageView::Hello(*joiner),
            Message::HelloKO(id) => MessageView::HelloKO(*id),
            Message::HelloOK(id, responder, data, previous) => MessageView::HelloOK(
                *id,
                *responder,
                data@,
                *previous,
            ),
            Message::Print(reply) => MessageView::Print(*reply),
            Message::UpdateTable(node, lowest, amount) => MessageView::UpdateTable(
                *node,
                *lowest,
                *amount,
            ),
        }
    }
}

/// Why received bytes gave no message.
#[derive(Debug, Clone, Copy, PartialEq, Eq, Structural)]
pub enum DecodeError {
    /// The bytes are not one JSON document.
    NotJson,
    /// The document has no textual `cmd`, or the arguments that the command
    /// needs are missing or of the wrong kind.
    Malformed,
    /// The command is none of the protocol's.
    UnknownCommand,
}

/// The integer argument `name`.
pub open spec fn int_arg(args: JsonView, name: Seq<char>) -> Option<i64> {
    match args.member(name) {
        Some(v) => v.as_int(),
        None => None,
    }
}

/// The value argument `name`, as the bits of a double.
pub open spec fn bits_arg(args: JsonView, name: Seq<char>) -> Option<u64> {
    match args.member(name) {
        Some(v) => v.as_bits(),
        None => None,
    }
}

/// The yes-or-no argument `name`.
pub open spec fn flag_arg(args: JsonView, name: Seq<char>) -> Option<bool> {
    match args.member(name) {
        Some(v) => v.as_flag(),
        None => None,
    }
}

/// The address argument `name`.
pub open spec fn address_arg(args: JsonView, name: Seq<char>) -> Option<Address> {
    match args.member(name) {
        Some(v) => Address::of_json(v),
        None => None,
    }
}

/// Whether every member is a key spelled as an integer with a number as
/// its value.
pub open spec fn are_pairs(members: Seq<(Seq<char>, JsonView)>) -> bool {
    forall|k: int|
        0 <= k < members.len() ==> i64_of(#[trigger] members[k].0) is Some
            && members[k].1.as_bits() is Some
}

/// The entries that an object's members spell, in the members' order.
pub open spec fn pairs_of(members: Seq<(Seq<char>, JsonView)>) -> Option<Seq<(i64, u64)>> {
    if are_pairs(members) {
        Some(
            Seq::new(
                members.len(),
                |k: int| (i64_of(members[k].0)->0, members[k].1.as_bits()->0),
            ),
        )
    } else {
        None
    }
}

/// The members that spell these entries.
pub open spec fn pair_members(data: Seq<(i64, u64)>) -> Seq<(Seq<char>, JsonView)> {
    Seq::new(data.len(), |k: int| (int_text(data[k].0 as int), JsonView::bits(data[k].1)))
}

/// The entries argument `name`.
pub open spec fn data_arg(args: JsonView, name: Seq<char>) -> Option<Seq<(i64, u64)>> {
    match args.member(name) {
        Some(v) => match v.as_members() {
            Some(members) => pairs_of(members),
            None => None,
        },
        None => None,
    }
}

/// A message's document: its command name and its arguments.
pub open spec fn envelope(cmd: Seq<char>, args: Seq<(Seq<char>, JsonView)>) -> JsonView {
    JsonView::Object(
        Seq::<(Seq<char>, JsonView)>::empty().push(("cmd"@, JsonView::Text(cmd))).push(
            ("args"@, JsonView::Object(args)),
        ),
    )
}

impl MessageView {
    /// The command name under which this message travels.
    pub open spec fn cmd(self) -> Seq<char> {
        match self {
            MessageView::Ack(..) => "ack"@,
            MessageView::Answer(..) => "answer"@,
            MessageView::AnswerResp(..) => "answer_resp"@,
            MessageView::Exit => "exit"@,
            MessageView::Put(..) => "put"@,
            MessageView::Get(..) => "get"@,
            MessageView::GetResp(..) => "get_resp"@,
            MessageView::GetStat(..) => "stats"@,
            MessageView::Hello(..) => "hello"@,
            MessageView::HelloKO(..) => "hello_ko"@,
            MessageView::HelloOK(..) => "hello_ok"@,
            MessageView::Print(..) => "print"@,
            MessageView::UpdateTable(..) => "update_table"@,
        }
    }

    /// The arguments with which this message travels.
    pub open spec fn args(self) -> Seq<(Seq<char>, JsonView)> {
        let none = Seq::<(Seq<char>, JsonView)>::empty();
        match self {
            MessageView::Ack(id) => none.push(("id"@, JsonView::integer(id))),
            MessageView::Answer(key, value, exists) => none.push(
                ("key"@, JsonView::integer(key)),
            ).push(("value"@, JsonView::bits(value))).push(
                ("val_exists"@, JsonView::Bool(exists)),
            ),
            MessageView::AnswerResp(key, owner) => none.push(
                ("key"@, JsonView::integer(key)),
            ).push(("address"@, owner.json())),
            MessageView::Exit => none,
            MessageView::Put(reply, key, value, id) => none.push(("address"@, reply.json())).push(
                ("key"@, JsonView::integer(key)),
            ).push(("value"@, JsonView::bits(value))).push(("id"@, JsonView::integer(id))),
            MessageView::Get(reply, key) => none.push(("address"@, reply.json())).push(
                ("key"@, JsonView::integer(key)),
            ),
            MessageView::GetResp(reply, key) => none.push(("address"@, reply.json())).push(
                ("key"@, JsonView::integer(key)),
            ),
            MessageView::GetStat(reply, gets, puts, mgmt) => none.push(
                ("address"@, reply.json()),
            ).push(("get_amt"@, JsonView::integer(gets))).push(
                ("put_amt"@, JsonView::integer(puts)),
            ).push(("mgmt_amt"@, JsonView::integer(mgmt))),
            MessageView::Hello(joiner) => none.push(("address"@, joiner.json())),
            MessageView::HelloKO(id) => none.push(("id"@, JsonView::integer(id))),
            MessageView::HelloOK(id, responder, data, previous) => none.push(
                ("id"@, JsonView::integer(id)),
            ).push(("address_resp"@, responder.json())).push(
                ("data"@, JsonView::Object(pair_members(data))),
            ).push(("address_previous"@, previous.json())),
            MessageView::Print(reply) => none.push(("address"@, reply.json())),
            MessageView::UpdateTable(node, lowest, amount) => none.push(
                ("address"@, node.json()),
            ).push(("id_lower_key"@, JsonView::integer(lowest))).push(
                ("amount"@, JsonView::integer(amount)),
            ),
        }
    }

    /// The document that carries this message on the wire.
    pub open spec fn json(self) -> JsonView {
        envelope(self.cmd(), self.args())
    }

    /// The message that the command `cmd` makes with the arguments `args`.
    /// The counter walk is known under two names, `stats` and `get_stat`.
    pub open spec fn of_parts(cmd: Seq<char>, args: JsonView) -> Result<MessageView, DecodeError> {
        if cmd == "ack"@ {
            match int_arg(args, "id"@) {
                Some(id) => Ok(MessageView::Ack(id)),
                None => Err(DecodeError::Malformed),
            }
        } else if cmd == "answer"@ {
            match (int_arg(args, "key"@), bits_arg(args, "value"@), flag_arg(args, "val_exists"@)) {
                (Some(key), Some(value), Some(exists)) => Ok(
                    MessageView::Answer(key, value, exists),
                ),
                _ => Err(DecodeError::Malformed),
            }
        } else if cmd == "answer_resp"@ {
            match (int_arg(args, "key"@), address_arg(args, "address"@)) {
                (Some(key), Some(owner)) => Ok(MessageView::AnswerResp(key, owner)),
                _ => Err(DecodeError::Malformed),
            }
        } else if cmd == "exit"@ {
            Ok(MessageView::Exit)
        } else if cmd == "put"@ {
            match (
                address_arg(args, "address"@),
                int_arg(args, "key"@),
                bits_arg(args, "value"@),
                int_arg(args, "id"@),
            ) {
                (Some(reply), Some(key), Some(value), Some(id)) => Ok(
                    MessageView::Put(reply, key, value, id),
                ),
                _ => Err(DecodeError::Malformed),
            }
        } else if cmd == "get"@ {
            match (address_arg(args, "address"@), int_arg(args, "key"@)) {
                (Some(reply), Some(key)) => Ok(MessageView::Get(reply, key)),
                _ => Err(DecodeError::Malformed),
            }
        } else if cmd == "get_resp"@ {
            match (address_arg(args, "address"@), int_arg(args, "key"@)) {
                (Some(reply), Some(key)) => Ok(MessageView::GetResp(reply, key)),
                _ => Err(DecodeError::Malformed),
            }
        } else if cmd == "stats"@ || cmd == "get_stat"@ {
            match (
                address_arg(args, "address"@),
                int_arg(args, "get_amt"@),
                int_arg(args, "put_amt"@),
                int_arg(args, "mgmt_amt"@),
            ) {
                (Some(reply), Some(gets), Some(puts), Some(mgmt)) => Ok(
                    MessageView::GetStat(reply, gets, puts, mgmt),
                ),
                _ => Err(DecodeError::Malformed),
            }
        } else if cmd == "hello"@ {
            match address_arg(args, "address"@) {
                Some(joiner) => Ok(MessageView::Hello(joiner)),
                None => Err(DecodeError::Malformed),
            }
        } else if cmd == "hello_ko"@ {
            match int_arg(args, "id"@) {
                Some(id) => Ok(MessageView::HelloKO(id)),
                None => Err(DecodeError::Malformed),
            }
        } else if cmd == "hello_ok"@ {
            match (
                int_arg(args, "id"@),
                address_arg(args, "address_resp"@),
                data_arg(args, "data"@),
                address_arg(args, "address_previous"@),
            ) {
                (Some(id), Some(responder), Some(data), Some(previous)) => Ok(
                    MessageView::HelloOK(id, responder, data, previous),
                ),
                _ => Err(DecodeError::Malformed),
            }
        } else if cmd == "print"@ {
            match address_arg(args, "address"@) {
                Some(reply) => Ok(MessageView::Print(reply)),
                None => Err(DecodeError::Malformed),
            }
        } else if cmd == "update_table"@ {
            match (
                address_arg(args, "address"@),
                int_arg(args, "id_lower_key"@),
                int_arg(args, "amount"@),
            ) {
                (Some(node), Some(lowest), Some(amount)) => Ok(
                    MessageView::UpdateTable(node, lowest, amount),
                ),
                _ => Err(DecodeError::Malformed),
            }
        } else {
            Err(DecodeError::UnknownCommand)
        }
    }

    /// The message that a document carries. A document without `args` is
    /// read as one without arguments.
    pub open spec fn of_json(j: JsonView) -> Result<MessageView, DecodeError> {
        match j.member("cmd"@) {
            Some(cmd) => match cmd.as_text() {
                Some(cmd) => MessageView::of_parts(
                    cmd,
                    match j.member("args"@) {
                        Some(args) => args,
                        None => JsonView::Null,
                    },
                ),
                None => Err(DecodeError::Malformed),
            },
            None => Err(DecodeError::Malformed),
        }
    }

    /// The message that received bytes carry.
    pub open spec fn of_bytes(bytes: Seq<u8>) -> Result<MessageView, DecodeError> {
        match crate::json::parsed_document(bytes) {
            Some(j) => MessageView::of_json(j),
            None => Err(DecodeError::NotJson),
        }
    }
}

fn read_int_arg(args: &Json, name: &str) -> (r: Option<i64>)
    ensures
        r == int_arg(args@, name@),
{
    match args.get(name) {
        Some(v) => v.as_int(),
        None => None,
    }
}

fn read_bits_arg(args: &Json, name: &str) -> (r: Option<u64>)
    ensures
        r == bits_arg(args@, name@),
{
    match args.get(name) {
        Some(v) => v.as_bits(),
        None => None,
    }
}

fn read_flag_arg(args: &Json, name: &str) -> (r: Option<bool>)
    ensures
        r == flag_arg(args@, name@),
{
    match args.get(name) {
        Some(v) => v.as_flag(),
        None => None,
    }
}

fn read_address_arg(args: &Json, name: &str) -> (r: Option<Address>)
    ensures
        r == address_arg(args@, name@),
{
    match args.get(name) {
        Some(v) => Address::from_json(v),
        None => None,
    }
}

fn read_pairs(members: &Vec<(String, Json)>) -> (r: Option<Vec<(i64, u64)>>)
    ensures
        match r {
            Some(data) => pairs_of(members_view(members@)) == Some(data@),
            None => pairs_of(members_view(members@)) is None,
        },
{
    let ghost all = members_view(members@);
    let mut data: Vec<(i64, u64)> = Vec::new();
    let mut k: usize = 0;
    while k < members.len()
        invariant
            k <= members@.len(),
            all == members_view(members@),
            data@.len() == k,
            forall|i: int|
                0 <= i < k ==> i64_of(#[trigger] all[i].0) == Some(data@[i].0) && all[i].1.as_bits()
                    == Some(data@[i].1),
        decreases members@.len() - k,
    {
        let key = read_int(members[k].0.as_str());
        let value = members[k].1.as_bits();
        assert(all[k as int] == (members@[k as int].0@, members@[k as int].1@));
        match (key, value) {
            (Some(key), Some(value)) => {
                data.push((key, value));
            },
            _ => {
                assert(!(i64_of(all[k as int].0) is Some && all[k as int].1.as_bits() is Some));
                return None;
            },
        }
        k = k + 1;
    }
    assert(are_pairs(all));
    assert(pairs_of(all)->0 =~= data@);
    Some(data)
}

fn read_data_arg(args: &Json, name: &str) -> (r: Option<Vec<(i64, u64)>>)
    ensures
        match r {
            Some(data) => data_arg(args@, name@) == Some(data@),
            None => data_arg(args@, name@) is None,
        },
{
    match args.get(name) {
        Some(v) => match v.as_members() {
            Some(members) => read_pairs(members),
            None => None,
        },
        None => None,
    }
}

fn write_pairs(data: &Vec<(i64, u64)>) -> (j: Json)
    ensures
        j@ == JsonView::Object(pair_members(data@)),
{
    let mut members: Vec<(String, Json)> = Vec::new();
    let mut k: usize = 0;
    while k < data.len()
        invariant
            k <= data@.len(),
            members@.len() == k,
            forall|i: int|
                0 <= i < k ==> (#[trigger] members@[i]).0@ == int_text(data@[i].0 as int)
                    && members@[i].1@ == JsonView::bits(data@[i].1),
        decreases data@.len() - k,
    {
        members.push((int_to_text(data[k].0), Json::bits(data[k].1)));
        k = k + 1;
    }
    assert(members_view(members@) =~= pair_members(data@));
    Json::object(members)
}

fn write_envelope(cmd: &str, args: Vec<(String, Json)>) -> (j: Json)
    ensures
        j@ == envelope(cmd@, members_view(args@)),
{
    let members: Vec<(String, Json)> = with_member(
        with_member(no_members(), "cmd", Json::text(String::from_str(cmd))),
        "args",
        Json::object(args),
    );
    Json::object(members)
}

impl Message {
    /// The document that carries this message on the wire.
    pub fn to_json(&self) -> (j: Json)
        ensures
            j@ == self@.json(),
    {
        match self {
            Message::Ack(id) => {
                let args: Vec<(String, Json)> = with_member(no_members(), "id", Json::integer(*id));
                write_envelope("ack", args)
            },
            Message::Answer(key, value, exists) => {
                let args: Vec<(String, Json)> = with_member(with_member(with_member(no_members(), "key", Json::integer(*key)), "value", Json::bits(*value)), "val_exists", Json::flag(*exists));
                write_envelope("answer", args)
            },
            Message::AnswerResp(key, owner) => {
                let args: Vec<(String, Json)> = with_member(with_member(no_members(), "key", Json::integer(*key)), "address", owner.to_json());
                write_envelope("answer_resp", args)
            },
            Message::Exit() => {
                let args: Vec<(String, Json)> = no_members();
                write_envelope("exit", args)
            },
            Message::Put(reply, key, value, id) => {
                let args: Vec<(String, Json)> = with_member(with_member(with_member(with_member(no_members(), "address", reply.to_json()), "key", Json::integer(*key)), "value", Json::bits(*value)), "id", Json::integer(*id));
                write_envelope("put", args)
            },
            Message::Get(reply, key) => {
                let args: Vec<(String, Json)> = with_member(with_member(no_members(), "address", reply.to_json()), "key", Json::integer(*key));
                write_envelope("get", args)
            },
            Message::GetResp(reply, key) => {
                let args: Vec<(String, Json)> = with_member(with_member(no_members(), "address", reply.to_json()), "key", Json::integer(*key));
                write_envelope("get_resp", args)
            },
            Message::GetStat(reply, gets, puts, mgmt) => {
                let args: Vec<(String, Json)> = with_member(with_member(with_member(with_member(no_members(), "address", reply.to_json()), "get_amt", Json::integer(*gets)), "put_amt", Json::integer(*puts)), "mgmt_amt", Json::integer(*mgmt));
                write_envelope("stats", args)
            },
            Message::Hello(joiner) => {
                let args: Vec<(String, Json)> = with_member(no_members(), "address", joiner.to_json());
                write_envelope("hello", args)
            },
            Message::HelloKO(id) => {
                let args: Vec<(String, Json)> = with_member(no_members(), "id", Json::integer(*id));
                write_envelope("hello_ko", args)
            },
            Message::HelloOK(id, responder, data, previous) => {
                let args: Vec<(String, Json)> = with_member(with_member(with_member(with_member(no_members(), "id", Json::integer(*id)), "address_resp", responder.to_json()), "data", write_pairs(data)), "address_previous", previous.to_json());
                write_envelope("hello_ok", args)
            },
            Message::Print(reply) => {
                let args: Vec<(String, Json)> = with_member(no_members(), "address", reply.to_json());
                write_envelope("print", args)
            },
            Message::UpdateTable(node, lowest, amount) => {
                let args: Vec<(String, Json)> = with_member(with_member(with_member(no_members(), "address", node.to_json()), "id_lower_key", Json::integer(*lowest)), "amount", Json::integer(*amount));
                write_envelope("update_table", args)
            },
        }
    }

    /// The message that the command `cmd` makes with the arguments `args`.
    pub fn from_parts(cmd: &str, args: &Json) -> (r: Result<Message, DecodeError>)
        ensures
            match r {
                Ok(m) => MessageView::of_parts(cmd@, args@) == Ok::<MessageView, DecodeError>(m@),
                Err(e) => MessageView::of_parts(cmd@, args@) == Err::<MessageView, DecodeError>(e),
            },
    {
        if crate::text::same_text(cmd, "ack") {
            match read_int_arg(args, "id") {
                Some(id) => Ok(Message::Ack(id)),
                None => Err(DecodeError::Malformed),
            }
        } else if crate::text::same_text(cmd, "answer") {
            match (
                read_int_arg(args, "key"),
                read_bits_arg(args, "value"),
                read_flag_arg(args, "val_exists"),
            ) {
                (Some(key), Some(value), Some(exists)) => Ok(Message::Answer(key, value, exists)),
                _ => Err(DecodeError::Malformed),
            }
        } else if crate::text::same_text(cmd, "answer_resp") {
            match (read_int_arg(args, "key"), read_address_arg(args, "address")) {
                (Some(key), Some(owner)) => Ok(Message::AnswerResp(key, owner)),
                _ => Err(DecodeError::Malformed),
            }
        } else if crate::text::same_text(cmd, "exit") {
            Ok(Message::Exit())
        } else if crate::text::same_text(cmd, "put") {
            match (
                read_address_arg(args, "address"),
                read_int_arg(args, "key"),
                read_bits_arg(args, "value"),
                read_int_arg(args, "id"),
            ) {
                (Some(reply), Some(key), Some(value), Some(id)) => Ok(
                    Message::Put(reply, key, value, id),
                ),
                _ => Err(DecodeError::Malformed),
            }
        } else if crate::text::same_text(cmd, "get") {
            match (read_address_arg(args, "address"), read_int_arg(args, "key")) {
                (Some(reply), Some(key)) => Ok(Message::Get(reply, key)),
                _ => Err(DecodeError::Malformed),
            }
        } else if crate::text::same_text(cmd, "get_resp") {
            match (read_address_arg(args, "address"), read_int_arg(args, "key")) {
                (Some(reply), Some(key)) => Ok(Message::GetResp(reply, key)),
                _ => Err(DecodeError::Malformed),
            }
        } else if crate::text::same_text(cmd, "stats") || crate::text::same_text(cmd, "get_stat") {
            match (
                read_address_arg(args, "address"),
                read_int_arg(args, "get_amt"),
                read_int_arg(args, "put_amt"),
                read_int_arg(args, "mgmt_amt"),
            ) {
                (Some(reply), Some(gets), Some(puts), Some(mgmt)) => Ok(
                    Message::GetStat(reply, gets, puts, mgmt),
                ),
                _ => Err(DecodeError::Malformed),
            }
        } else if crate::text::same_text(cmd, "hello") {
            match read_address_arg(args, "address") {
                Some(joiner) => Ok(Message::Hello(joiner)),
                None => Err(DecodeError::Malformed),
            }
        } else if crate::text::same_text(cmd, "hello_ko") {
            match read_int_arg(args, "id") {
                Some(id) => Ok(Message::HelloKO(id)),
                None => Err(DecodeError::Malformed),
            }
        } else if crate::text::same_text(cmd, "hello_ok") {
            match (
                read_int_arg(args, "id"),
                read_address_arg(args, "address_resp"),
                read_data_arg(args, "data"),
                read_address_arg(args, "address_previous"),
            ) {
                (Some(id), Some(responder), Some(data), Some(previous)) => Ok(
                    Message::HelloOK(id, responder, data, previous),
                ),
                _ => Err(DecodeError::Malformed),
            }
        } else if crate::text::same_text(cmd, "print") {
            match read_address_arg(args, "address") {
                Some(reply) => Ok(Message::Print(reply)),
                None => Err(DecodeError::Malformed),
            }
        } else if crate::text::same_text(cmd, "update_table") {
            match (
                read_address_arg(args, "address"),
                read_int_arg(args, "id_lower_key"),
                read_int_arg(args, "amount"),
            ) {
                (Some(node), Some(lowest), Some(amount)) => Ok(
                    Message::UpdateTable(node, lowest, amount),
                ),
                _ => Err(DecodeError::Malformed),
            }
        } else {
            Err(DecodeError::UnknownCommand)
        }
    }

    /// The message that a document carries.
    pub fn from_json(j: &Json) -> (r: Result<Message, DecodeError>)
        ensures
            match r {
                Ok(m) => MessageView::of_json(j@) == Ok::<MessageView, DecodeError>(m@),
                Err(e) => MessageView::of_json(j@) == Err::<MessageView, DecodeError>(e),
            },
    {
        let cmd = match j.get("cmd") {
            Some(v) => match v.as_text() {
                Some(t) => t,
                None => {
                    return Err(DecodeError::Malformed);
                },
            },
            None => {
                return Err(DecodeError::Malformed);
            },
        };
        match j.get("args") {
            Some(args) => Message::from_parts(cmd.as_str(), args),
            None => {
                let none = Json::Null;
                Message::from_parts(cmd.as_str(), &none)
            },
        }
    }

    /// The message that received bytes carry.
    pub fn decode(bytes: &[u8]) -> (r: Result<Message, DecodeError>)
        ensures
            match r {
                Ok(m) => MessageView::of_bytes(bytes@) == Ok::<MessageView, DecodeError>(m@),
                Err(e) => MessageView::of_bytes(bytes@) == Err::<MessageView, DecodeError>(e),
            },
    {
        match Json::parse(bytes) {
            Some(j) => Message::from_json(&j),
            None => Err(DecodeError::NotJson),
        }
    }
}

/// Length and telling characters of each command name.
proof fn lemma_command_names()
    ensures
        "ack"@.len() == 3 && "ack"@[0] == 'a',
        "put"@.len() == 3 && "put"@[0] == 'p',
        "get"@.len() == 3 && "get"@[0] == 'g',
        "exit"@.len() == 4,
        "hello"@.len() == 5 && "hello"@[0] == 'h',
        "print"@.len() == 5 && "print"@[0] == 'p',
        "stats"@.len() == 5 && "stats"@[0] == 's',
        "answer"@.len() == 6,
        "get_resp"@.len() == 8 && "get_resp"@[0] == 'g' && "get_resp"@[4] == 'r',
        "get_stat"@.len() == 8 && "get_stat"@[0] == 'g' && "get_stat"@[4] == 's',
        "hello_ko"@.len() == 8 && "hello_ko"@[0] == 'h' && "hello_ko"@[6] == 'k',
        "hello_ok"@.len() == 8 && "hello_ok"@[0] == 'h' && "hello_ok"@[6] == 'o',
        "answer_resp"@.len() == 11,
        "update_table"@.len() == 12,
{
    reveal_strlit("ack");
    reveal_strlit("put");
    reveal_strlit("get");
    reveal_strlit("exit");
    reveal_strlit("hello");
    reveal_strlit("print");
    reveal_strlit("stats");
    reveal_strlit("answer");
    reveal_strlit("get_resp");
    reveal_strlit("get_stat");
    reveal_strlit("hello_ko");
    reveal_strlit("hello_ok");
    reveal_strlit("answer_resp");
    reveal_strlit("update_table");
}

/// Length and telling characters of each member name.
proof fn lemma_member_names()
    ensures
        "id"@.len() == 2,
        "key"@.len() == 3 && "key"@[0] == 'k',
        "cmd"@.len() == 3 && "cmd"@[0] == 'c',
        "data"@.len() == 4 && "data"@[0] == 'd',
        "args"@.len() == 4 && "args"@[0] == 'a',
        "value"@.len() == 5,
        "amount"@.len() == 6,
        "address"@.len() == 7 && "address"@[0] == 'a',
        "get_amt"@.len() == 7 && "get_amt"@[0] == 'g',
        "put_amt"@.len() == 7 && "put_amt"@[0] == 'p',
        "mgmt_amt"@.len() == 8,
        "val_exists"@.len() == 10,
        "address_resp"@.len() == 12 && "address_resp"@[0] == 'a',
        "id_lower_key"@.len() == 12 && "id_lower_key"@[0] == 'i',
        "address_previous"@.len() == 16,
{
    reveal_strlit("id");
    reveal_strlit("key");
    reveal_strlit("cmd");
    reveal_strlit("data");
    reveal_strlit("args");
    reveal_strlit("value");
    reveal_strlit("amount");
    reveal_strlit("address");
    reveal_strlit("get_amt");
    reveal_strlit("put_amt");
    reveal_strlit("mgmt_amt");
    reveal_strlit("val_exists");
    reveal_strlit("address_resp");
    reveal_strlit("id_lower_key");
    reveal_strlit("address_previous");
}

/// A lookup among at most four members tries them in order.
proof fn lemma_lookup(members: Seq<(Seq<char>, JsonView)>, name: Seq<char>)
    requires
        members.len() <= 4,
    ensures
        find_member(members, name) == if members.len() > 0 && members[0].0 == name {
            Some(members[0].1)
        } else if members.len() > 1 && members[1].0 == name {
            Some(members[1].1)
        } else if members.len() > 2 && members[2].0 == name {
            Some(members[2].1)
        } else if members.len() > 3 && members[3].0 == name {
            Some(members[3].1)
        } else {
            None
        },
    decreases members.len(),
{
    if members.len() > 0 && members[0].0 != name {
        let rest = members.drop_first();
        lemma_lookup(rest, name);
        assert(forall|k: int| 0 <= k < rest.len() ==> rest[k] == members[k + 1]);
    }
}

/// The entries written as members are read back as they were.
proof fn lemma_pairs_round_trip(data: Seq<(i64, u64)>)
    ensures
        pairs_of(pair_members(data)) == Some(data),
{
    let members = pair_members(data);
    assert forall|k: int| 0 <= k < members.len() implies i64_of(#[trigger] members[k].0) == Some(
        data[k].0,
    ) && members[k].1.as_bits() == Some(data[k].1) by {
        lemma_int_text_spells(data[k].0 as int);
    }
    assert(pairs_of(members)->0 =~= data);
}

/// What the envelope of a message holds.
proof fn lemma_envelope(cmd: Seq<char>, args: Seq<(Seq<char>, JsonView)>)
    ensures
        envelope(cmd, args).member("cmd"@) == Some(JsonView::Text(cmd)),
        envelope(cmd, args).member("args"@) == Some(JsonView::Object(args)),
{
    lemma_member_names();
    lemma_lookup(envelope(cmd, args)->Object_0, "cmd"@);
    lemma_lookup(envelope(cmd, args)->Object_0, "args"@);
}

/// The arguments written for a message are read back as that message.
proof fn lemma_parts_round_trip(m: MessageView)
    ensures
        MessageView::of_parts(m.cmd(), JsonView::Object(m.args())) == Ok::<
            MessageView,
            DecodeError,
        >(m),
{
    lemma_command_names();
    lemma_member_names();
    let args = m.args();
    lemma_lookup(args, "id"@);
    lemma_lookup(args, "key"@);
    lemma_lookup(args, "value"@);
    lemma_lookup(args, "val_exists"@);
    lemma_lookup(args, "address"@);
    lemma_lookup(args, "get_amt"@);
    lemma_lookup(args, "put_amt"@);
    lemma_lookup(args, "mgmt_amt"@);
    lemma_lookup(args, "address_resp"@);
    lemma_lookup(args, "data"@);
    lemma_lookup(args, "address_previous"@);
    lemma_lookup(args, "id_lower_key"@);
    lemma_lookup(args, "amount"@);
    match m {
        MessageView::AnswerResp(_, owner) => {
            lemma_address_round_trip(owner);
        },
        MessageView::Put(reply, _, _, _) => {
            lemma_address_round_trip(reply);
        },
        MessageView::Get(reply, _) => {
            lemma_address_round_trip(reply);
        },
        MessageView::GetResp(reply, _) => {
            lemma_address_round_trip(reply);
        },
        MessageView::GetStat(reply, _, _, _) => {
            lemma_address_round_trip(reply);
        },
        MessageView::Hello(joiner) => {
            lemma_address_round_trip(joiner);
        },
        MessageView::HelloOK(_, responder, data, previous) => {
            lemma_address_round_trip(responder);
            lemma_address_round_trip(previous);
            lemma_pairs_round_trip(data);
        },
        MessageView::Print(reply) => {
            lemma_address_round_trip(reply);
        },
        MessageView::UpdateTable(node, _, _) => {
            lemma_address_round_trip(node);
        },
        _ => {},
    }
}

/// The wire form loses nothing: the document written for a message is read
/// back as that very message.
pub proof fn lemma_message_round_trip(m: MessageView)
    ensures
        MessageView::of_json(m.json()) == Ok::<MessageView, DecodeError>(m),
{
    lemma_envelope(m.cmd(), m.args());
    lemma_parts_round_trip(m);
}

} // verus!
