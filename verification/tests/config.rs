use idunn::config::{bind_address, read_config, Config, ConfigError};
use idunn::actions::introduce;
use idunn::fields::MessageMap;

#[test]
fn read_yaml_test() {
    let conf = read_config("[network]\nbind_address = \"127.0.0.1:5433\"\n").unwrap();
    assert_eq!(conf.bind_address.as_deref(), Some("127.0.0.1:5433"));
}

#[test]
fn config_without_an_address_or_unparsable() {
    let conf = read_config("[network]\nport = 4\n").unwrap();
    assert!(conf.bind_address.is_none());
    let conf = read_config("[network]\nbind_address = 5\n").unwrap();
    assert!(conf.bind_address.is_none());
    assert_eq!(read_config("[network\nbind_address = \"x\"").unwrap_err(), ConfigError::Unparsable);
}

#[test]
fn bind_address_defaults_without_configuration() {
    assert_eq!(bind_address(&None).as_deref(), Some("127.0.0.1:5432"));
    let c = Config { bind_address: Some("0.0.0.0:9".to_string()) };
    assert_eq!(bind_address(&Some(c)).as_deref(), Some("0.0.0.0:9"));
    assert_eq!(bind_address(&Some(Config { bind_address: None })), None);
}

#[test]
fn introduction_is_a_ping_from_a_server() {
    let i = introduce("KEY".to_string(), "peer:5432".to_string());
    assert_eq!(i.address, "peer:5432");
    assert_eq!(i.message.to_json(), "{\"message\":\"ping\",\"source\":\"server\"}");
}

#[test]
fn message_insert_replaces() {
    let mut m = MessageMap::new();
    m.insert("a".to_string(), "1".to_string());
    m.insert("b".to_string(), "2".to_string());
    m.insert("a".to_string(), "3".to_string());
    assert_eq!(m.get("a").map(|s| s.as_str()), Some("3"));
    assert_eq!(m.to_json(), "{\"a\":\"3\",\"b\":\"2\"}");
}

#[test]
fn message_survives_json() {
    let mut m = MessageMap::new();
    m.insert("message".to_string(), "introduce".to_string());
    m.insert("address".to_string(), "h:1 \"quoted\" \u{e9}".to_string());
    let back = idunn::fields::from_json(&m.to_json());
    assert_eq!(back.get("message").map(|s| s.as_str()), Some("introduce"));
    assert_eq!(back.get("address").map(|s| s.as_str()), Some("h:1 \"quoted\" \u{e9}"));
    assert_eq!(back.to_json(), m.to_json());
}

#[test]
fn lengths_parse_as_std_does() {
    for s in ["0", "7", "+7", "007", "", "+", "-1", " 1", "1 ", "18446744073709551615", "18446744073709551616", "99999999999999999999999"] {
        let cs: Vec<char> = s.chars().collect();
        assert_eq!(idunn::text::parse_length(&cs), s.parse::<usize>().ok(), "{:?}", s);
    }
    for n in [0usize, 9, 10, 12345, usize::MAX] {
        let mut out = Vec::new();
        idunn::text::push_decimal(n, &mut out);
        assert_eq!(out.iter().collect::<String>(), format!("{}", n));
    }
}

#[test]
fn trim_matches_std() {
    for s in ["", "  ", "\u{a0}x\u{3000}", "\tidunn: 1.0\r\n", "a b", "\u{200b}x"] {
        let cs: Vec<char> = s.chars().collect();
        let t: String = idunn::text::trim_chars(&cs).into_iter().collect();
        assert_eq!(t, s.trim(), "{:?}", s);
    }
}

#[test]
fn message_from_pairs_lets_a_later_pair_win() {
    let m = idunn::fields::message_from_pairs(vec![
        ("a".to_string(), "1".to_string()),
        ("b".to_string(), "2".to_string()),
        ("a".to_string(), "3".to_string()),
    ]);
    assert_eq!(m.get("a").map(|s| s.as_str()), Some("3"));
    assert_eq!(m.get("b").map(|s| s.as_str()), Some("2"));
}
