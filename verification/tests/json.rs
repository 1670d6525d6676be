use steam_guard::Config;
use steam_guard::config_from_json;
use steam_guard::config_to_json;
use steam_guard::load_config;

#[test]
fn empty_config_document() {
    let config = Config::new();
    let text = config_to_json(&config);
    assert_eq!(text, "{\n  \"secrets\": []\n}");
    let back = config_from_json(&text).unwrap();
    assert_eq!(back.get_secrets().len(), 0);
}

#[test]
fn one_secret_document() {
    let mut config = Config::new();
    config
        .add_secret("steam".to_string(), "aaaaaaaaaaaaaaaa".to_string(), 0)
        .unwrap();
    let text = config_to_json(&config);
    assert_eq!(
        text,
        "{\n  \"secrets\": [\n    {\n      \"name\": \"steam\",\n      \"shared_secret\": \"aaaaaaaaaaaaaaaa\"\n    }\n  ]\n}"
    );
    let back = config_from_json(&text).unwrap();
    let list = back.get_secrets();
    assert_eq!(list.len(), 1);
    assert_eq!(list[0].name, "steam");
    assert_eq!(list[0].shared_secret, "aaaaaaaaaaaaaaaa");
}

#[test]
fn round_trip_reproduces_ordered_list() {
    let mut config = Config::new();
    config
        .add_secret("first".to_string(), "aaaaaaaaaaaaaaaa".to_string(), 0)
        .unwrap();
    config
        .add_secret("second".to_string(), "MTIzNDU2Nzg5MA==".to_string(), 0)
        .unwrap();
    config
        .add_secret("third".to_string(), "QUJDREVGR0g=".to_string(), 0)
        .unwrap();
    let text = config_to_json(&config);
    let reloaded = load_config(Some(&text));
    let before = config.get_secrets();
    let after = reloaded.get_secrets();
    assert_eq!(before.len(), after.len());
    for (b, a) in before.iter().zip(after.iter()) {
        assert_eq!(b.name, a.name);
        assert_eq!(b.shared_secret, a.shared_secret);
    }
}

#[test]
fn round_trip_escapes_quotes_and_backslashes() {
    // Names are free text: quotes and backslashes must survive the trip.
    let config = Config {
        secrets: vec![steam_guard::Secret {
            name: "we\"ird \\name".to_string(),
            shared_secret: "aaaaaaaaaaaaaaaa".to_string(),
        }],
    };
    let text = config_to_json(&config);
    let back = config_from_json(&text).unwrap();
    let list = back.get_secrets();
    assert_eq!(list.len(), 1);
    assert_eq!(list[0].name, "we\"ird \\name");
}

#[test]
fn missing_or_malformed_text_loads_empty() {
    assert_eq!(load_config(None).get_secrets().len(), 0);
    assert_eq!(load_config(Some("")).get_secrets().len(), 0);
    assert_eq!(load_config(Some("{}")).get_secrets().len(), 0);
    assert_eq!(load_config(Some("garbage")).get_secrets().len(), 0);
    assert!(config_from_json("{\n  \"secrets\": [").is_none());
    assert!(config_from_json("{\n  \"secrets\": []\n}extra").is_none());
    // The reader accepts exactly the writer's layout; another layout of
    // the same document falls back to the empty list.
    assert_eq!(load_config(Some("{ \"secrets\": [] }")).get_secrets().len(), 0);
}
