use chord_ring::address::Address;
use chord_ring::console::{read_command, Client, Command};
use chord_ring::message::Message;
use chord_ring::text::read_typed_int;

#[test]
fn get_takes_one_key() {
    assert_eq!(read_command("get 7"), Command::Get(7));
    assert_eq!(read_command("get 7\n"), Command::Get(7));
    assert_eq!(read_command("get 7\r\n"), Command::Get(7));
    assert_eq!(read_command("get 7\r"), Command::Get(7));
    assert_eq!(read_command("get -12"), Command::Get(-12));
    assert_eq!(read_command("get +7"), Command::Get(7));
    assert_eq!(read_command("get 007"), Command::Get(7));
    assert_eq!(read_command("get 9223372036854775807"), Command::Get(i64::MAX));
    assert_eq!(read_command("get -9223372036854775808"), Command::Get(i64::MIN));
}

#[test]
fn a_bad_get_is_told_apart() {
    assert_eq!(read_command("get x"), Command::BadKey);
    assert_eq!(read_command("get 7.0"), Command::BadKey);
    assert_eq!(read_command("get "), Command::BadKey);
    assert_eq!(read_command("get 9223372036854775808"), Command::BadKey);
    assert_eq!(read_command("get 7\n\n"), Command::BadKey);
    assert_eq!(read_command("get"), Command::GetUsage);
    assert_eq!(read_command("get 1 2"), Command::GetUsage);
    assert_eq!(read_command("get  7"), Command::GetUsage);
    assert_eq!(read_command("get 7 "), Command::GetUsage);
}

#[test]
fn put_takes_a_key_and_a_value() {
    assert_eq!(read_command("put 7 42.0\n"), Command::Put(7, String::from("42.0")));
    assert_eq!(read_command("put -1 1e9"), Command::Put(-1, String::from("1e9")));
    assert_eq!(read_command("put 7 forty-two"), Command::Put(7, String::from("forty-two")));
    assert_eq!(read_command("put 7 "), Command::Put(7, String::new()));
    assert_eq!(read_command("put x 42.0"), Command::BadPut);
    assert_eq!(read_command("put"), Command::PutUsage);
    assert_eq!(read_command("put 7"), Command::PutUsage);
    assert_eq!(read_command("put 7 1 2"), Command::PutUsage);
}

#[test]
fn exit_and_stop_all_need_only_begin_the_line() {
    assert_eq!(read_command("exit"), Command::Exit);
    assert_eq!(read_command("exit\n"), Command::Exit);
    assert_eq!(read_command("exit now"), Command::Exit);
    assert_eq!(read_command("exits"), Command::Exit);
    assert_eq!(read_command("stop_all\r\n"), Command::StopAll);
    assert_eq!(read_command("stop_all please"), Command::StopAll);
    assert_eq!(read_command(" exit"), Command::Unknown);
    assert_eq!(read_command("exi"), Command::Unknown);
    assert_eq!(read_command("stop"), Command::Unknown);
    assert_eq!(read_command("stop_al"), Command::Unknown);
}

#[test]
fn anything_else_is_unknown() {
    for line in ["", "\n", "\r\n", " ", "GET 7", "gets 7", "putt 1 2", "hello", " get 7", "\u{e9}"] {
        assert_eq!(read_command(line), Command::Unknown, "{:?}", line);
    }
}

#[test]
fn typed_integers_may_have_a_sign_and_zeros_in_front() {
    assert_eq!(read_typed_int("0"), Some(0));
    assert_eq!(read_typed_int("-0"), Some(0));
    assert_eq!(read_typed_int("+0"), Some(0));
    assert_eq!(read_typed_int("0042"), Some(42));
    assert_eq!(read_typed_int("-0042"), Some(-42));
    assert_eq!(read_typed_int("+42"), Some(42));
    assert_eq!(read_typed_int("000000000000000000000009223372036854775807"), Some(i64::MAX));
    assert_eq!(read_typed_int("-9223372036854775808"), Some(i64::MIN));
    for text in ["", "+", "-", "+-1", "--1", "1+", "1 ", " 1", "1_000", "9223372036854775808",
        "-9223372036854775809", "0x10", "1.0"]
    {
        assert_eq!(read_typed_int(text), None, "{:?}", text);
        assert_eq!(text.parse::<i64>().ok(), None, "{:?}", text);
    }
    for text in ["0", "-0", "+0", "0042", "-0042", "+42", "-9223372036854775808"] {
        assert_eq!(read_typed_int(text), text.parse::<i64>().ok(), "{:?}", text);
    }
}

#[test]
fn a_client_addresses_its_requests() {
    let client = Client::new(0x7f000001, 7000, 0x7f000001, 8005);
    let local = Address::new(0x7f000001, 7000, -1);
    let ring = Address::new(0x7f000001, 8005, -1);
    assert_eq!(client.local, local);
    assert_eq!(client.ring, ring);
    assert_eq!(client.get(7), (ring, Message::Get(local, 7)));
    assert_eq!(
        client.put_with(7, 42.0f64.to_bits(), 99),
        (ring, Message::Put(local, 7, 42.0f64.to_bits(), 99))
    );
    assert_eq!(client.exit(), vec![(local, Message::Exit())]);
    assert_eq!(client.stop_all(), vec![(local, Message::Exit()), (ring, Message::Exit())]);
}

#[test]
fn a_put_draws_its_token() {
    let client = Client::new(0x7f000001, 7000, 0x7f000001, 8005);
    let mut tokens: Vec<i64> = Vec::new();
    for _ in 0..8 {
        match client.put(7, 42.0f64.to_bits()) {
            (to, Message::Put(reply, 7, value, token)) => {
                assert_eq!(to, client.ring);
                assert_eq!(reply, client.local);
                assert_eq!(value, 42.0f64.to_bits());
                tokens.push(token);
            },
            other => panic!("{:?}", other),
        }
    }
    tokens.dedup();
    assert!(tokens.len() > 1);
}
