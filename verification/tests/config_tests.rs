use std::path::PathBuf;
use std::time::Duration;

use dualis_notifier::config::{
    interval_overflow, parse_dotenv, parse_dotenv_value, settings_lookup, Config, ConfigError,
    DEFAULT_DUALIS_URL,
};
use dualis_notifier::table::StrMap;

#[test]
fn dotenv_parsing_matches_python_dotenv() {
    // Expected values were produced by python-dotenv 1.1.0 `dotenv_values`.
    let content = r#"# comment

AGENT_NAME=Dualis Notifier
EMPTY=
SPACED =   padded value
INLINE=value # comment
HASH=pa#ss
export EXPORTED=yes
SINGLE='a # b \' c'
DOUBLE="x \"y\" \\n z"
TOKEN=abc==
NOVALUE
QUOTE_TAIL="q" # c
DOLLAR=p$ss
"#;
    let expected = [
        ("AGENT_NAME", "Dualis Notifier"),
        ("EMPTY", ""),
        ("SPACED", "padded value"),
        ("INLINE", "value"),
        ("HASH", "pa#ss"),
        ("EXPORTED", "yes"),
        ("SINGLE", "a # b ' c"),
        ("DOUBLE", "x \"y\" \\n z"),
        ("TOKEN", "abc=="),
        ("QUOTE_TAIL", "q"),
        ("DOLLAR", "p$ss"),
    ];

    let values = parse_dotenv(content);

    assert_eq!(values.len(), expected.len(), "{values:?}");
    for (key, value) in expected {
        assert_eq!(values.get(key).map(String::as_str), Some(value), "{key}");
    }
}

fn lookup(pairs: &[(&str, &str)]) -> StrMap {
    let mut values = StrMap::new();
    for (key, value) in pairs {
        values.insert(key.to_string(), value.to_string());
    }
    values
}

fn config(pairs: &[(&str, &str)]) -> Result<Config, ConfigError> {
    Config::from_lookup(&lookup(pairs))
}

const MINIMAL: [(&str, &str); 4] = [
    ("DUALIS_USER", "s123456"),
    ("DUALIS_PASSWD", "secret"),
    ("GOTIFY_URL", "https://gotify.example.com"),
    ("GOTIFY_TOKEN", "AbCdEf"),
];

#[test]
fn minimal_configuration_uses_defaults() {
    let config = config(&MINIMAL).unwrap();

    assert_eq!(config.semester_id, "");
    assert_eq!(config.user_agent, "Dualis Notifier");
    assert_eq!(config.gotify_priority, 5);
    assert_eq!(config.check_interval, None);
    assert_eq!(PathBuf::from(&config.data_dir), PathBuf::from("."));
    assert_eq!(config.dualis_base_url, DEFAULT_DUALIS_URL);
}

#[test]
fn lists_every_missing_variable() {
    let error = config(&[("DUALIS_USER", "s123456"), ("GOTIFY_TOKEN", " ")]).unwrap_err();

    assert!(
        error
            .message()
            .contains("DUALIS_PASSWD, GOTIFY_URL, GOTIFY_TOKEN"),
        "{}",
        error.message()
    );
}

#[test]
fn hints_at_gotify_when_only_discord_is_configured() {
    let error = config(&[
        ("DUALIS_USER", "s123456"),
        ("DUALIS_PASSWD", "secret"),
        ("DISCORD_WEBHOOK", "https://discord.com/api/webhooks/1/x"),
    ])
    .unwrap_err();

    assert!(
        error
            .message()
            .contains("DISCORD_WEBHOOK wird nicht mehr unterstützt")
    );
}

#[test]
fn reads_optional_settings() {
    let mut pairs = MINIMAL.to_vec();
    pairs.extend([
        ("GOTIFY_PRIORITY", "8"),
        ("CHECK_INTERVAL_MINUTES", "15"),
        ("DATA_DIR", "/data"),
        ("SEMESTER_ID", "-N000000015178000"),
    ]);

    let config = config(&pairs).unwrap();

    assert_eq!(config.gotify_priority, 8);
    assert_eq!(config.check_interval.map(Duration::from_secs), Some(Duration::from_secs(900)));
    assert_eq!(PathBuf::from(&config.data_dir), PathBuf::from("/data"));
    assert_eq!(config.semester_id, "-N000000015178000");
}

#[test]
fn rejects_invalid_numbers() {
    for (key, value) in [
        ("GOTIFY_PRIORITY", "11"),
        ("GOTIFY_PRIORITY", "hoch"),
        ("CHECK_INTERVAL_MINUTES", "0"),
        ("CHECK_INTERVAL_MINUTES", "-5"),
    ] {
        let mut pairs = MINIMAL.to_vec();
        pairs.push((key, value));

        assert!(config(&pairs).is_err(), "{key}={value}");
    }
}

#[test]
fn missing_message_is_exact() {
    let error = config(&[("DUALIS_USER", "s123456"), ("GOTIFY_TOKEN", " ")]).unwrap_err();

    assert_eq!(
        error,
        ConfigError::Missing {
            names: vec![
                "DUALIS_PASSWD".to_string(),
                "GOTIFY_URL".to_string(),
                "GOTIFY_TOKEN".to_string()
            ],
            discord: false,
        }
    );
    assert_eq!(
        error.message(),
        "Fehlende Konfiguration: DUALIS_PASSWD, GOTIFY_URL, GOTIFY_TOKEN. Trage die Werte in .env ein (siehe .env.example)."
    );
}

#[test]
fn invalid_values_are_quoted_in_the_message() {
    let mut pairs = MINIMAL.to_vec();
    pairs.push(("GOTIFY_PRIORITY", " hoch\""));
    let error = config(&pairs).unwrap_err();
    assert_eq!(error, ConfigError::InvalidPriority(" hoch\"".to_string()));
    assert_eq!(
        error.message(),
        "GOTIFY_PRIORITY muss eine Zahl von 0 bis 10 sein, nicht \" hoch\\\"\""
    );

    let mut pairs = MINIMAL.to_vec();
    pairs.push(("CHECK_INTERVAL_MINUTES", "0"));
    let error = config(&pairs).unwrap_err();
    assert_eq!(
        error.message(),
        "CHECK_INTERVAL_MINUTES muss eine positive ganze Zahl sein, nicht \"0\""
    );
}

#[test]
fn values_are_trimmed_and_plus_sign_accepted() {
    let pairs = [
        ("DUALIS_USER", "  s123456 "),
        ("DUALIS_PASSWD", " secret "),
        ("GOTIFY_URL", " https://gotify.example.com "),
        ("GOTIFY_TOKEN", "\tAbCdEf\n"),
        ("GOTIFY_PRIORITY", " +10 "),
        ("CHECK_INTERVAL_MINUTES", "007"),
        ("AGENT_NAME", " Bot "),
    ];
    let config = config(&pairs).unwrap();

    assert_eq!(config.user, "s123456");
    assert_eq!(config.passwd, " secret ");
    assert_eq!(config.gotify_url, "https://gotify.example.com");
    assert_eq!(config.gotify_token, "AbCdEf");
    assert_eq!(config.gotify_priority, 10);
    assert_eq!(config.check_interval, Some(420));
    assert_eq!(config.user_agent, " Bot ");
}

#[test]
fn dotenv_value_edge_cases() {
    assert_eq!(parse_dotenv_value("'unterminated"), "'unterminated");
    assert_eq!(parse_dotenv_value("\"tab\\tend\""), "tab\tend");
    assert_eq!(parse_dotenv_value("plain   # note"), "plain");
    assert_eq!(parse_dotenv_value("a#b"), "a#b");
    assert_eq!(parse_dotenv_value("'a\\nb'"), "a\\nb");
}

#[test]
fn environment_wins_over_dotenv() {
    let dotenv = parse_dotenv("DUALIS_USER=from-file\nAGENT_NAME=Bot\n");
    let env = vec![("DUALIS_USER".to_string(), "from-env".to_string())];

    let settings = settings_lookup(dotenv, &env);

    assert_eq!(settings.get("DUALIS_USER").map(String::as_str), Some("from-env"));
    assert_eq!(settings.get("AGENT_NAME").map(String::as_str), Some("Bot"));
    assert_eq!(settings.len(), 2);
}

#[test]
fn interval_overflow_only_where_the_interval_is_reached() {
    let with = |interval: &str, extra: &[(&str, &str)]| {
        let mut pairs: Vec<(&str, &str)> = MINIMAL.to_vec();
        pairs.push(("CHECK_INTERVAL_MINUTES", interval));
        pairs.extend_from_slice(extra);
        interval_overflow(&lookup(&pairs))
    };
    assert!(!with("307445734561825860", &[]));
    assert!(with("307445734561825861", &[]));
    assert!(with(" 18446744073709551615 ", &[]));
    assert!(!with("18446744073709551616", &[]));
    assert!(!with("15", &[]));
    assert!(!with("307445734561825861", &[("GOTIFY_PRIORITY", "11")]));
    assert!(!with("307445734561825861", &[("GOTIFY_TOKEN", " ")]));
    assert!(!interval_overflow(&lookup(&MINIMAL)));
}
