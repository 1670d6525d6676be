use steam_guard::Config;
use steam_guard::get_config_path;

#[test]
fn add_valid_secret_appends() {
    let mut config = Config::new();
    let list = config
        .add_secret("first".to_string(), "aaaaaaaaaaaaaaaa".to_string(), 1700000000)
        .unwrap();
    assert_eq!(list.len(), 1);
    assert_eq!(list[0].name, "first");
    assert_eq!(list[0].shared_secret, "aaaaaaaaaaaaaaaa");
    let list = config
        .add_secret("second".to_string(), "MTIzNDU2Nzg5MA==".to_string(), 1700000000)
        .unwrap();
    assert_eq!(list.len(), 2);
    assert_eq!(list[0].name, "first");
    assert_eq!(list[1].name, "second");
}

#[test]
fn add_invalid_secret_leaves_list_unchanged() {
    let mut config = Config::new();
    config
        .add_secret("ok".to_string(), "aaaaaaaaaaaaaaaa".to_string(), 0)
        .unwrap();
    let result = config.add_secret("bad".to_string(), "not base64!!".to_string(), 0);
    assert!(result.is_err());
    let list = config.get_secrets();
    assert_eq!(list.len(), 1);
    assert_eq!(list[0].name, "ok");
}

#[test]
fn delete_in_range_removes_entry() {
    let mut config = Config::new();
    config.add_secret("a".to_string(), "aaaaaaaaaaaaaaaa".to_string(), 0).unwrap();
    config.add_secret("b".to_string(), "aaaaaaaaaaaaaaaa".to_string(), 0).unwrap();
    config.add_secret("c".to_string(), "aaaaaaaaaaaaaaaa".to_string(), 0).unwrap();
    let list = config.delete_secret(1);
    assert_eq!(list.len(), 2);
    assert_eq!(list[0].name, "a");
    assert_eq!(list[1].name, "c");
}

#[test]
fn delete_out_of_range_is_a_no_op() {
    let mut config = Config::new();
    config.add_secret("a".to_string(), "aaaaaaaaaaaaaaaa".to_string(), 0).unwrap();
    let list = config.delete_secret(5);
    assert_eq!(list.len(), 1);
    assert_eq!(list[0].name, "a");
    let list = config.delete_secret(1);
    assert_eq!(list.len(), 1);
}

#[test]
fn delete_on_empty_returns_empty() {
    let mut config = Config::new();
    let list = config.delete_secret(0);
    assert_eq!(list.len(), 0);
}

#[test]
fn config_path_appends_file_name() {
    assert_eq!(
        get_config_path("/home/user/.config/steam-desktop-guard"),
        "/home/user/.config/steam-desktop-guard/config.json"
    );
    assert_eq!(get_config_path(""), "/config.json");
}
