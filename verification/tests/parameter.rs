use chord_ring::console;
use chord_ring::parameter::{get_args, Param};

fn list(args: &[&str]) -> Vec<String> {
    args.iter().map(|a| a.to_string()).collect()
}

#[test]
fn three_arguments_start_a_lone_node() {
    assert_eq!(
        get_args(&list(&["node", "127.0.0.1", "8005", "5"])),
        Some(Param::Short { ip: 0x7f000001, port: 8005, id: 5 })
    );
    assert_eq!(
        get_args(&list(&["node", "0.0.0.0", "+1", "-37"])),
        Some(Param::Short { ip: 0, port: 1, id: -37 })
    );
}

#[test]
fn five_arguments_start_a_joining_node() {
    assert_eq!(
        get_args(&list(&["node", "127.0.0.1", "8004", "4", "192.168.1.2", "8005"])),
        Some(Param::Long {
            ip_local: 0x7f000001,
            port_local: 8004,
            id_local: 4,
            ip_destination: 0xc0a80102,
            port_destination: 8005,
        })
    );
}

#[test]
fn other_argument_lists_start_nothing() {
    for args in [
        vec![],
        vec!["node"],
        vec!["node", "127.0.0.1"],
        vec!["node", "127.0.0.1", "8005"],
        vec!["node", "127.0.0.1", "8005", "5", "127.0.0.1"],
        vec!["node", "127.0.0.1", "8005", "5", "127.0.0.1", "8004", "4"],
        vec!["node", "localhost", "8005", "5"],
        vec!["node", "127.0.0.1", "http", "5"],
        vec!["node", "127.0.0.1", "8005", "five"],
        vec!["node", "127.0.0.1", "8005", ""],
        vec!["node", "127.0.0.1", "8005", "5", "127.0.0", "8004"],
        vec!["node", "127.0.0.1", "8005", "5", "127.0.0.1", "80.04"],
    ] {
        assert_eq!(get_args(&list(&args)), None, "{:?}", args);
    }
}

#[test]
fn four_arguments_start_a_client() {
    assert_eq!(
        console::get_args(&list(&["client", "127.0.0.1", "7000", "127.0.0.1", "8005"])),
        Some(console::Param::Long { ip: 0x7f000001, port: 7000, ip_d: 0x7f000001, port_d: 8005 })
    );
    for args in [
        vec!["client", "127.0.0.1", "7000", "127.0.0.1"],
        vec!["client", "127.0.0.1", "7000", "127.0.0.1", "8005", "5"],
        vec!["client", "127.0.0.1", "7000", "8005", "127.0.0.1"],
        vec!["client", "127.0.0.1", "x", "127.0.0.1", "8005"],
    ] {
        assert_eq!(console::get_args(&list(&args)), None, "{:?}", args);
    }
}
