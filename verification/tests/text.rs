use chord_ring::text::{
    chars_of, host_to_text, int_to_text, read_decimal, read_host, read_int, same_text,
};

#[test]
fn integers_are_spelled_the_shortest_way() {
    assert_eq!(int_to_text(0), "0");
    assert_eq!(int_to_text(7), "7");
    assert_eq!(int_to_text(10), "10");
    assert_eq!(int_to_text(-1), "-1");
    assert_eq!(int_to_text(1234567890), "1234567890");
    assert_eq!(int_to_text(i64::MAX), "9223372036854775807");
    assert_eq!(int_to_text(i64::MIN), "-9223372036854775808");
}

#[test]
fn integers_are_read_back() {
    for k in [0i64, 1, -1, 9, 10, 99, 100, -100, 31, 32, i64::MAX, i64::MIN, i64::MIN + 1] {
        assert_eq!(read_int(&int_to_text(k)), Some(k));
    }
}

#[test]
fn other_spellings_are_no_integers() {
    for text in [
        "", "-", "+5", "007", "00", "-0", "-01", " 5", "5 ", "5a", "a", "1.0", "--1", "1-",
        "9223372036854775808", "-9223372036854775809", "99999999999999999999999",
    ] {
        assert_eq!(read_int(text), None, "{:?}", text);
    }
}

#[test]
fn decimals_are_read_within_their_limit() {
    let chars = chars_of("x255y");
    assert_eq!(read_decimal(&chars, 1, 4, 255), Some(255));
    assert_eq!(read_decimal(&chars, 1, 4, 254), None);
    assert_eq!(read_decimal(&chars, 1, 3, 255), Some(25));
    assert_eq!(read_decimal(&chars, 1, 1, 255), None);
    assert_eq!(read_decimal(&chars, 0, 4, 255), None);
    let big = chars_of("18446744073709551615");
    assert_eq!(read_decimal(&big, 0, 20, u64::MAX), Some(u64::MAX));
    let bigger = chars_of("18446744073709551616");
    assert_eq!(read_decimal(&bigger, 0, 20, u64::MAX), None);
}

#[test]
fn hosts_are_spelled_with_dots() {
    assert_eq!(host_to_text(0), "0.0.0.0");
    assert_eq!(host_to_text(0x7f000001), "127.0.0.1");
    assert_eq!(host_to_text(0xc0a80164), "192.168.1.100");
    assert_eq!(host_to_text(u32::MAX), "255.255.255.255");
    assert_eq!(host_to_text(0x01020304), "1.2.3.4");
}

#[test]
fn hosts_are_read_back() {
    assert_eq!(read_host("127.0.0.1"), Some(0x7f000001));
    assert_eq!(read_host("0.0.0.0"), Some(0));
    assert_eq!(read_host("255.255.255.255"), Some(u32::MAX));
    assert_eq!(read_host("10.20.30.40"), Some(0x0a141e28));
    for host in [0u32, 1, 255, 256, 65535, 65536, 0x7f000001, 0xdeadbeef, u32::MAX] {
        assert_eq!(read_host(&host_to_text(host)), Some(host));
    }
}

#[test]
fn other_spellings_are_no_hosts() {
    for text in [
        "", "localhost", "1.2.3", "1.2.3.4.5", "256.0.0.1", "1.2.3.256", "01.2.3.4", "1.2.3.04",
        "1..3.4", ".1.2.3", "1.2.3.", "1.2.3.4.", "a.b.c.d", "1.2.3.-4", " 1.2.3.4", "1.2.3.4 ",
        "1,2,3,4", "...",
    ] {
        assert_eq!(read_host(text), None, "{:?}", text);
    }
}

#[test]
fn texts_are_compared_character_by_character() {
    assert!(same_text("", ""));
    assert!(same_text("put", "put"));
    assert!(!same_text("put", "get"));
    assert!(!same_text("put", "puts"));
    assert!(!same_text("hello_ok", "hello_ko"));
    assert!(same_text("cl\u{e9}", "cl\u{e9}"));
    assert_eq!(chars_of("a\u{e9}z"), vec!['a', '\u{e9}', 'z']);
}
