use chord_ring::address::Address;
use chord_ring::json::Json;
use chord_ring::message::{DecodeError, Message};

fn to_value(j: &Json) -> serde_json::Value {
    match j {
        Json::Null => serde_json::Value::Null,
        Json::Bool(b) => serde_json::Value::Bool(*b),
        Json::Number(Some(i), _) => serde_json::Value::from(*i),
        Json::Number(None, Some(bits)) => serde_json::Value::from(f64::from_bits(*bits)),
        Json::Number(None, None) => serde_json::Value::Null,
        Json::Text(s) => serde_json::Value::String(s.clone()),
        Json::Array(items) => serde_json::Value::Array(items.iter().map(to_value).collect()),
        Json::Object(members) => serde_json::Value::Object(
            members.iter().map(|(k, v)| (k.clone(), to_value(v))).collect(),
        ),
    }
}

fn wire(m: &Message) -> Vec<u8> {
    to_value(&m.to_json()).to_string().into_bytes()
}

fn here() -> Address {
    Address::new(0x7f000001, 8005, 5)
}

fn there() -> Address {
    Address::new(0xc0a80102, 9004, 4)
}

fn every_message() -> Vec<Message> {
    vec![
        Message::Ack(99),
        Message::Ack(i64::MIN),
        Message::Answer(7, 42.0f64.to_bits(), true),
        Message::Answer(999, 0.0f64.to_bits(), false),
        Message::Answer(-3, (-0.0f64).to_bits(), true),
        Message::AnswerResp(6, there()),
        Message::Exit(),
        Message::Put(here(), 7, 42.0f64.to_bits(), 99),
        Message::Put(there(), i64::MAX, 1.5e300f64.to_bits(), -1),
        Message::Get(here(), 7),
        Message::GetResp(there(), 21),
        Message::GetStat(here(), 1, 2, 3),
        Message::Hello(Address::new(0, 0, 0)),
        Message::HelloKO(4),
        Message::HelloOK(4, here(), vec![(3, 1.0f64.to_bits()), (4, 2.0f64.to_bits())], here()),
        Message::HelloOK(20, there(), Vec::new(), here()),
        Message::HelloOK(1, there(), vec![(-7, 0.25f64.to_bits()), (i64::MAX, 3.0f64.to_bits())], here()),
        Message::Print(there()),
        Message::UpdateTable(there(), -1, -1),
        Message::UpdateTable(here(), -10, 31),
    ]
}

#[test]
fn every_message_survives_the_wire() {
    for m in every_message() {
        let bytes = wire(&m);
        assert_eq!(Message::decode(&bytes), Ok(m.clone()), "{}", String::from_utf8_lossy(&bytes));
    }
}

#[test]
fn every_message_survives_its_document() {
    for m in every_message() {
        assert_eq!(Message::from_json(&m.to_json()), Ok(m));
    }
}

#[test]
fn the_envelope_has_a_command_and_arguments() {
    let v = to_value(&Message::Put(here(), 7, 42.0f64.to_bits(), 99).to_json());
    assert_eq!(v["cmd"], "put");
    assert_eq!(v["args"]["key"], 7);
    assert_eq!(v["args"]["value"], 42.0);
    assert_eq!(v["args"]["id"], 99);
    assert_eq!(v["args"]["address"]["id"], 5);
    assert_eq!(v["args"]["address"]["host"], "127.0.0.1");
    assert_eq!(v["args"]["address"]["port"], 8005);
    assert_eq!(v.as_object().unwrap().len(), 2);
    assert_eq!(v["args"].as_object().unwrap().len(), 4);
}

#[test]
fn each_command_travels_under_its_name() {
    let names: Vec<String> = every_message()
        .iter()
        .map(|m| to_value(&m.to_json())["cmd"].as_str().unwrap().to_string())
        .collect();
    assert_eq!(
        names,
        vec![
            "ack", "ack", "answer", "answer", "answer", "answer_resp", "exit", "put", "put", "get",
            "get_resp", "stats", "hello", "hello_ko", "hello_ok", "hello_ok", "hello_ok", "print",
            "update_table", "update_table",
        ]
    );
}

#[test]
fn arguments_travel_under_their_names() {
    let v = to_value(&Message::Answer(7, 42.0f64.to_bits(), true).to_json());
    assert_eq!(v["args"]["key"], 7);
    assert_eq!(v["args"]["value"], 42.0);
    assert_eq!(v["args"]["val_exists"], true);
    let v = to_value(&Message::GetStat(here(), 1, 2, 3).to_json());
    assert_eq!(v["args"]["get_amt"], 1);
    assert_eq!(v["args"]["put_amt"], 2);
    assert_eq!(v["args"]["mgmt_amt"], 3);
    let v = to_value(&Message::UpdateTable(here(), -10, 31).to_json());
    assert_eq!(v["args"]["id_lower_key"], -10);
    assert_eq!(v["args"]["amount"], 31);
    let v = to_value(
        &Message::HelloOK(4, here(), vec![(3, 1.0f64.to_bits())], there()).to_json(),
    );
    assert_eq!(v["args"]["id"], 4);
    assert_eq!(v["args"]["address_resp"]["port"], 8005);
    assert_eq!(v["args"]["address_previous"]["port"], 9004);
    assert_eq!(v["args"]["data"]["3"], 1.0);
    let v = to_value(&Message::Exit().to_json());
    assert_eq!(v["args"].as_object().unwrap().len(), 0);
}

#[test]
fn hand_written_text_is_understood() {
    let text = br#"{"cmd":"get","args":{"address":{"id":5,"host":"127.0.0.1","port":8005},"key":7}}"#;
    assert_eq!(Message::decode(text), Ok(Message::Get(here(), 7)));
    let text = br#" { "args" : { "id" : 12 } , "cmd" : "ack" } "#;
    assert_eq!(Message::decode(text), Ok(Message::Ack(12)));
    let text = br#"{"cmd":"put","args":{"id":1,"value":3,"key":2,"address":{"port":1,"host":"1.2.3.4","id":2}}}"#;
    assert_eq!(
        Message::decode(text),
        Ok(Message::Put(Address::new(0x01020304, 1, 2), 2, 3.0f64.to_bits(), 1))
    );
}

#[test]
fn the_counter_walk_has_two_names() {
    let args = r#"{"address":{"id":5,"host":"127.0.0.1","port":8005},"get_amt":1,"put_amt":2,"mgmt_amt":3}"#;
    let expected = Ok(Message::GetStat(here(), 1, 2, 3));
    assert_eq!(Message::decode(format!(r#"{{"cmd":"stats","args":{}}}"#, args).as_bytes()), expected);
    assert_eq!(
        Message::decode(format!(r#"{{"cmd":"get_stat","args":{}}}"#, args).as_bytes()),
        expected
    );
}

#[test]
fn exit_needs_no_arguments() {
    assert_eq!(Message::decode(br#"{"cmd":"exit"}"#), Ok(Message::Exit()));
    assert_eq!(Message::decode(br#"{"cmd":"exit","args":{}}"#), Ok(Message::Exit()));
    assert_eq!(Message::decode(br#"{"cmd":"exit","args":null}"#), Ok(Message::Exit()));
}

#[test]
fn bytes_that_are_no_json_are_refused() {
    for text in [&b""[..], b"{", b"exit", b"{\"cmd\":\"exit\"", b"{\"cmd\":\"exit\"} x", b"\xff\xfe"] {
        assert_eq!(Message::decode(text), Err(DecodeError::NotJson));
    }
}

#[test]
fn documents_of_the_wrong_shape_are_refused() {
    for text in [
        r#"null"#,
        r#"[]"#,
        r#"7"#,
        r#"{}"#,
        r#"{"args":{}}"#,
        r#"{"cmd":7,"args":{}}"#,
        r#"{"cmd":"ack"}"#,
        r#"{"cmd":"ack","args":{}}"#,
        r#"{"cmd":"ack","args":[1]}"#,
        r#"{"cmd":"ack","args":{"id":"1"}}"#,
        r#"{"cmd":"ack","args":{"id":1.5}}"#,
        r#"{"cmd":"ack","args":{"id":9223372036854775808}}"#,
        r#"{"cmd":"ack","id":1}"#,
        r#"{"cmd":"get","args":{"key":7}}"#,
        r#"{"cmd":"get","args":{"address":{"id":5,"host":"127.0.0.1"},"key":7}}"#,
        r#"{"cmd":"get","args":{"address":{"id":5,"host":"localhost","port":1},"key":7}}"#,
        r#"{"cmd":"get","args":{"address":{"id":5,"host":"127.0.0.256","port":1},"key":7}}"#,
        r#"{"cmd":"get","args":{"address":{"id":5,"host":2130706433,"port":1},"key":7}}"#,
        r#"{"cmd":"get","args":{"address":{"id":5,"ip":"127.0.0.1","port":1},"key":7}}"#,
        r#"{"cmd":"get","args":{"address":"127.0.0.1:1","key":7}}"#,
        r#"{"cmd":"answer","args":{"key":7,"value":1.0}}"#,
        r#"{"cmd":"answer","args":{"key":7,"value":1.0,"val_exists":1}}"#,
        r#"{"cmd":"answer","args":{"key":7,"value":"1.0","val_exists":true}}"#,
        r#"{"cmd":"answer","args":{"key":7,"value":1.0,"value_exists":true}}"#,
        r#"{"cmd":"stats","args":{"address":{"id":5,"host":"127.0.0.1","port":1},"get_amt":1,"put_amt":2,"mgt_amt":3}}"#,
        r#"{"cmd":"hello_ok","args":{"id":4,"address_resp":{"id":5,"host":"127.0.0.1","port":1},"address_previous":{"id":5,"host":"127.0.0.1","port":1}}}"#,
        r#"{"cmd":"hello_ok","args":{"id":4,"address_resp":{"id":5,"host":"127.0.0.1","port":1},"data":"{}","address_previous":{"id":5,"host":"127.0.0.1","port":1}}}"#,
        r#"{"cmd":"hello_ok","args":{"id":4,"address_resp":{"id":5,"host":"127.0.0.1","port":1},"data":{"x":1.0},"address_previous":{"id":5,"host":"127.0.0.1","port":1}}}"#,
        r#"{"cmd":"hello_ok","args":{"id":4,"address_resp":{"id":5,"host":"127.0.0.1","port":1},"data":{"03":1.0},"address_previous":{"id":5,"host":"127.0.0.1","port":1}}}"#,
        r#"{"cmd":"hello_ok","args":{"id":4,"address_resp":{"id":5,"host":"127.0.0.1","port":1},"data":{"3":true},"address_previous":{"id":5,"host":"127.0.0.1","port":1}}}"#,
        r#"{"cmd":"update_table","args":{"address":{"id":5,"host":"127.0.0.1","port":1},"amount":1}}"#,
    ] {
        assert_eq!(Message::decode(text.as_bytes()), Err(DecodeError::Malformed), "{}", text);
    }
}

#[test]
fn unknown_commands_are_told_apart() {
    for text in [
        r#"{"cmd":"","args":{}}"#,
        r#"{"cmd":"PUT","args":{}}"#,
        r#"{"cmd":"puts","args":{}}"#,
        r#"{"cmd":"stat","args":{}}"#,
        r#"{"cmd":"stop_all"}"#,
        r#"{"cmd":"hello_okay","args":{"id":1}}"#,
    ] {
        assert_eq!(Message::decode(text.as_bytes()), Err(DecodeError::UnknownCommand), "{}", text);
    }
}

#[test]
fn an_integer_is_a_value_too() {
    let text = br#"{"cmd":"answer","args":{"key":7,"value":42,"val_exists":true}}"#;
    assert_eq!(Message::decode(text), Ok(Message::Answer(7, 42.0f64.to_bits(), true)));
}

#[test]
fn a_number_keeps_both_readings() {
    assert_eq!(Json::parse(b"42"), Some(Json::Number(Some(42), Some(42.0f64.to_bits()))));
    assert_eq!(Json::parse(b"-7"), Some(Json::Number(Some(-7), Some((-7.0f64).to_bits()))));
    assert_eq!(Json::parse(b"42.5"), Some(Json::Number(None, Some(42.5f64.to_bits()))));
    assert_eq!(Json::parse(b"42.0"), Some(Json::Number(None, Some(42.0f64.to_bits()))));
    assert_eq!(
        Json::parse(b"18446744073709551615"),
        Some(Json::Number(None, Some(18446744073709551615.0f64.to_bits())))
    );
    assert_eq!(Json::parse(b"1e3"), Some(Json::Number(None, Some(1000.0f64.to_bits()))));
}

#[test]
fn a_document_is_copied_whole() {
    let j = Json::parse(br#"{"b":[1,"two",null,true,{"c":{}}],"a":"x"}"#).unwrap();
    assert_eq!(j.get("a"), Some(&Json::Text(String::from("x"))));
    let b = j.get("b").unwrap();
    match b {
        Json::Array(items) => {
            assert_eq!(items.len(), 5);
            assert_eq!(items[0].as_int(), Some(1));
            assert_eq!(items[1].as_text(), Some(&String::from("two")));
            assert_eq!(items[2], Json::Null);
            assert_eq!(items[3].as_flag(), Some(true));
            assert_eq!(items[4].get("c").unwrap().as_members(), Some(&Vec::new()));
        },
        other => panic!("{:?}", other),
    }
    assert_eq!(j.get("c"), None);
    assert_eq!(b.get("a"), None);
    assert_eq!(j.as_members().unwrap().len(), 2);
    assert_eq!(Json::parse(br#"{"b":1"#), None);
}

#[test]
fn lookups_read_only_what_fits() {
    let n = Json::integer(5);
    assert_eq!(n.as_int(), Some(5));
    assert_eq!(n.as_bits(), None);
    assert_eq!(n.as_text(), None);
    assert_eq!(n.as_flag(), None);
    assert_eq!(n.as_members(), None);
    let f = Json::bits(2.5f64.to_bits());
    assert_eq!(f.as_int(), None);
    assert_eq!(f.as_bits(), Some(2.5f64.to_bits()));
    assert_eq!(Json::flag(true).as_flag(), Some(true));
    assert_eq!(Json::text(String::from("t")).as_text(), Some(&String::from("t")));
    let o = Json::object(vec![
        (String::from("k"), Json::integer(1)),
        (String::from("k"), Json::integer(2)),
    ]);
    assert_eq!(o.get("k"), Some(&Json::integer(1)));
}

#[test]
fn an_address_survives_its_document() {
    for a in [here(), there(), Address::new(0, 0, 0), Address::new(u32::MAX, i64::MAX, i64::MIN)] {
        assert_eq!(Address::from_json(&a.to_json()), Some(a));
        let bytes = to_value(&a.to_json()).to_string().into_bytes();
        assert_eq!(Address::from_json(&Json::parse(&bytes).unwrap()), Some(a));
    }
}

#[test]
fn an_address_tells_its_parts() {
    let a = Address::new(0x7f000001, 8005, 5);
    assert_eq!(a.get_ip(), 0x7f000001);
    assert_eq!(a.get_port(), 8005);
    assert_eq!(a.get_id(), 5);
    assert_eq!(a, Address { host: 0x7f000001, port: 8005, id: 5 });
    assert_ne!(a, Address::new(0x7f000001, 8005, 6));
    assert_ne!(a, Address::new(0x7f000001, 8006, 5));
    assert_ne!(a, Address::new(0x7f000002, 8005, 5));
}
