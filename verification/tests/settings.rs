use rustilleus::config::{Config, ConfigError, DEFAULT_HOST, DEFAULT_PORT, DEFAULT_SYMBOL};
use rustilleus::text::{is_blank, parse_i32, parse_u16, split_words};

#[test]
fn defaults_apply_when_nothing_is_set() {
    let config = Config::from_settings(None, None, None, None).unwrap();
    assert_eq!(
        config,
        Config {
            host: DEFAULT_HOST.to_owned(),
            port: DEFAULT_PORT,
            symbol: DEFAULT_SYMBOL.to_owned(),
            json_logs: true,
        }
    );
    assert_eq!(config.host, "0.0.0.0");
    assert_eq!(config.port, 8080);
    assert_eq!(config.symbol, "BTC-USD");
}

#[test]
fn given_settings_override_the_defaults() {
    let config =
        Config::from_settings(Some("127.0.0.1"), Some("9000"), Some("ETH-USD"), Some("text"))
            .unwrap();
    assert_eq!(config.host, "127.0.0.1");
    assert_eq!(config.port, 9000);
    assert_eq!(config.symbol, "ETH-USD");
    assert!(!config.json_logs);
}

#[test]
fn log_format_is_compared_without_case() {
    for format in ["json", "JSON", "Json"] {
        let config = Config::from_settings(None, None, None, Some(format)).unwrap();
        assert!(config.json_logs);
    }
    for format in ["", "jsonl", " json", "pretty"] {
        let config = Config::from_settings(None, None, None, Some(format)).unwrap();
        assert!(!config.json_logs);
    }
}

#[test]
fn invalid_port_keeps_the_given_text() {
    for port in ["", "http", "65536", "-1", "80.0", " 80"] {
        assert_eq!(
            Config::from_settings(None, Some(port), None, None),
            Err(ConfigError::InvalidPort(port.to_owned()))
        );
    }
    assert_eq!(Config::from_settings(None, Some("0"), None, None).unwrap().port, 0);
    assert_eq!(Config::from_settings(None, Some("65535"), None, None).unwrap().port, 65535);
    assert_eq!(Config::from_settings(None, Some("+443"), None, None).unwrap().port, 443);
}

#[test]
fn blank_symbol_is_refused() {
    assert_eq!(
        Config::from_settings(None, None, Some(""), None),
        Err(ConfigError::EmptySymbol)
    );
    assert_eq!(
        Config::from_settings(None, None, Some(" \t\n"), None),
        Err(ConfigError::EmptySymbol)
    );
}

#[test]
fn port_is_checked_before_symbol() {
    assert_eq!(
        Config::from_settings(None, Some("x"), Some(""), None),
        Err(ConfigError::InvalidPort("x".to_owned()))
    );
}

#[test]
fn numbers_parse_like_std() {
    for text in ["0", "-0", "+7", "-2147483648", "2147483647", "2147483648", "", "-", "+", "1 ", "a1", "007"] {
        assert_eq!(parse_i32(text), text.parse::<i32>().ok(), "{text}");
    }
    for text in ["0", "65535", "65536", "-1", "+1", "", "12x", "00065535"] {
        assert_eq!(parse_u16(text), text.parse::<u16>().ok(), "{text}");
    }
}

#[test]
fn words_split_on_white_space() {
    assert_eq!(split_words("  a bc\td  "), ["a", "bc", "d"]);
    assert!(split_words("").is_empty());
    assert!(split_words(" \n ").is_empty());
    assert!(is_blank(" \u{3000}\t"));
    assert!(!is_blank(" x "));
}
