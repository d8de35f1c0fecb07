use rustnet::driver::{tick_due, Options};
use rustnet::interface::{interface_name, interface_request, trimmed};

fn args(words: &[&str]) -> Vec<String> {
    words.iter().map(|w| w.to_string()).collect()
}

fn read(words: &[&str]) -> Result<(String, String, String), String> {
    Options::parse(&args(words)).map(|o| (o.iface, o.addr, o.host))
}

fn options(iface: &str, addr: &str, host: &str) -> Result<(String, String, String), String> {
    Ok((iface.to_string(), addr.to_string(), host.to_string()))
}

#[test]
fn options_have_defaults() {
    assert_eq!(read(&["rustnet"]), options("tun0", "10.0.0.2", "10.0.0.1"));
    assert_eq!(read(&[]), options("tun0", "10.0.0.2", "10.0.0.1"));
}

#[test]
fn options_come_in_any_order_and_the_last_one_counts() {
    assert_eq!(
        read(&["rustnet", "--host", "10.1.0.1", "--iface", "tun7", "--addr", "10.1.0.2"]),
        options("tun7", "10.1.0.2", "10.1.0.1")
    );
    assert_eq!(read(&["rustnet", "--addr", "1.1.1.1", "--addr", "2.2.2.2"]), options("tun0", "2.2.2.2", "10.0.0.1"));
}

#[test]
fn an_option_without_a_value_changes_nothing() {
    assert_eq!(read(&["rustnet", "--addr", "1.1.1.1", "--addr"]), options("tun0", "1.1.1.1", "10.0.0.1"));
    assert_eq!(read(&["rustnet", "--iface"]), options("tun0", "10.0.0.2", "10.0.0.1"));
    assert_eq!(read(&["rustnet", "--host"]), options("tun0", "10.0.0.2", "10.0.0.1"));
}

#[test]
fn an_unknown_option_is_named() {
    assert_eq!(read(&["rustnet", "--addr", "1.1.1.1", "--mtu", "9000"]), Err("--mtu".to_string()));
    assert_eq!(read(&["rustnet", "tun0"]), Err("tun0".to_string()));
    // a value may look like an option
    assert_eq!(read(&["rustnet", "--addr", "--host"]), options("tun0", "--host", "10.0.0.1"));
}

#[test]
fn timers_are_due_every_tenth_of_a_second() {
    assert!(!tick_due(0, 0));
    assert!(!tick_due(1000, 1099));
    assert!(tick_due(1000, 1100));
    assert!(!tick_due(1000, 900));
    assert!(tick_due(0, u64::MAX));
}

#[test]
fn an_interface_request_byte_by_byte() {
    let request = interface_request("tun0", [0x01, 0x10]).unwrap();
    let mut expected = vec![0u8; 40];
    expected[..4].copy_from_slice(b"tun0");
    expected[16] = 0x01;
    expected[17] = 0x10;
    assert_eq!(request, expected);
    assert_eq!(interface_name(&request), "tun0");
    assert!(interface_request("fifteen-letters", [0, 0]).is_some());
    assert_eq!(interface_request("sixteen-letters!", [0, 0]), None);
}

#[test]
fn an_interface_name_reads_back() {
    let mut request = interface_request("tun0", [1, 0]).unwrap();
    request[..4].copy_from_slice(b"a\0b\xFF");
    assert_eq!(interface_name(&request), "a\0b\u{FFFD}");
    assert_eq!(trimmed("\0\0".to_string()), "");
    assert_eq!(trimmed("abc".to_string()), "abc");
}
