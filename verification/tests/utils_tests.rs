use rust_blockchain::utils::{config_value, parse_difficulty, parse_port, runner_from_args};
use rust_blockchain::Runner;

fn args(list: &[&str]) -> Vec<String> {
    list.iter().map(|a| a.to_string()).collect()
}

#[test]
fn runner_from_the_first_argument() {
    assert_eq!(runner_from_args(&args(&["prog", "--server"])), Some(Runner::Server));
    assert_eq!(runner_from_args(&args(&["prog", "--client", "x"])), Some(Runner::Client));
    assert_eq!(runner_from_args(&args(&["prog", "--other"])), None);
    assert_eq!(runner_from_args(&args(&["prog"])), None);
    assert_eq!(runner_from_args(&args(&[])), None);
    assert_eq!(runner_from_args(&args(&["--server"])), None);
}

#[test]
fn config_values_follow_the_last_colon() {
    let text = "server_address:127.0.0.1\nport:2323\ndifficulty:3";
    assert_eq!(config_value(text, 0), Some(b"127.0.0.1".to_vec()));
    assert_eq!(config_value(text, 1), Some(b"2323".to_vec()));
    assert_eq!(config_value(text, 2), Some(b"3".to_vec()));
    assert_eq!(config_value(text, 3), None);
    assert_eq!(config_value("a:b:c", 0), Some(b"c".to_vec()));
    assert_eq!(config_value("plain", 0), Some(b"plain".to_vec()));
    assert_eq!(config_value("x:", 0), Some(Vec::new()));
    assert_eq!(config_value("", 0), Some(Vec::new()));
    assert_eq!(config_value("", 1), None);
    assert_eq!(config_value("a\n", 1), Some(Vec::new()));
    assert_eq!(config_value("a\n\nk:v\n", 2), Some(b"v".to_vec()));
    assert_eq!(config_value("k:v\r\n", 0), Some(b"v\r".to_vec()));
    assert_eq!(config_value("k:\u{e9}t\u{e9}", 0), Some("\u{e9}t\u{e9}".as_bytes().to_vec()));
}

#[test]
fn ports_parse_as_u16() {
    assert_eq!(parse_port(b"2323"), Some(2323));
    assert_eq!(parse_port(b"+80"), Some(80));
    assert_eq!(parse_port(b"0080"), Some(80));
    assert_eq!(parse_port(b"65535"), Some(65535));
    assert_eq!(parse_port(b"65536"), None);
    assert_eq!(parse_port(b""), None);
    assert_eq!(parse_port(b"+"), None);
    assert_eq!(parse_port(b"-1"), None);
    assert_eq!(parse_port(b" 80"), None);
    assert_eq!(parse_port(b"80\r"), None);
    assert_eq!(parse_port(b"99999999999999999999"), None);
}

#[test]
fn difficulties_parse_as_u8() {
    assert_eq!(parse_difficulty(b"3"), Some(3));
    assert_eq!(parse_difficulty(b"255"), Some(255));
    assert_eq!(parse_difficulty(b"256"), None);
    assert_eq!(parse_difficulty(b"x"), None);
    assert_eq!(parse_difficulty(b"0"), Some(0));
}

#[test]
fn parsing_agrees_with_std() {
    for text in ["0", "+7", "65535", "65536", "", "+", "-3", "12a", "007"] {
        assert_eq!(parse_port(text.as_bytes()), text.parse::<u16>().ok());
        assert_eq!(parse_difficulty(text.as_bytes()), text.parse::<u8>().ok());
    }
}
