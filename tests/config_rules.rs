use notifier::config::{
    check_rules, normalize_entries, normalize_key, preprocess_config, validate_config, Config,
    ConfigReadingError,
};
use rustc_serialize::json::Json;

fn valid_config() -> Config {
    Config {
        download_dir: "/var/downloads".to_string(),
        rpc_enabled: true,
        rpc_bind_address: "127.0.0.1".to_string(),
        rpc_port: 9091,
        rpc_authentication_required: false,
        rpc_url: "/transmission/".to_string(),
        rpc_username: "user".to_string(),
        rpc_plain_password: None,
    }
}

fn validation_message(r: Result<(), ConfigReadingError>) -> String {
    match r {
        Err(ConfigReadingError::ValidationError(m)) => m,
        other => panic!("expected a validation error, got {:?}", other),
    }
}

#[test]
fn valid_config_passes() {
    assert!(validate_config(&valid_config()).is_ok());
}

#[test]
fn relative_download_dir_rejected() {
    let mut c = valid_config();
    c.download_dir = "downloads".to_string();
    assert_eq!(
        validation_message(validate_config(&c)),
        "Invalid 'download-dir' value: it must be an absolute path"
    );
    c.download_dir = String::new();
    assert_eq!(
        validation_message(validate_config(&c)),
        "Invalid 'download-dir' value: it must be an absolute path"
    );
}

#[test]
fn rpc_disabled_rejected_whatever_else() {
    let mut c = valid_config();
    c.rpc_enabled = false;
    assert_eq!(validation_message(validate_config(&c)), "RPC is disabled in config");
    c.rpc_bind_address = "   ".to_string();
    c.rpc_authentication_required = true;
    assert_eq!(validation_message(validate_config(&c)), "RPC is disabled in config");
}

#[test]
fn relative_dir_reported_before_disabled_rpc() {
    let mut c = valid_config();
    c.rpc_enabled = false;
    c.download_dir = "relative".to_string();
    assert_eq!(
        validation_message(validate_config(&c)),
        "Invalid 'download-dir' value: it must be an absolute path"
    );
}

#[test]
fn blank_bind_address_rejected() {
    let mut c = valid_config();
    c.rpc_bind_address = " \t ".to_string();
    assert_eq!(
        validation_message(validate_config(&c)),
        "Invalid 'rpc-bind-address' value: it mustn't be empty"
    );
}

#[test]
fn authentication_needs_password() {
    let mut c = valid_config();
    c.rpc_authentication_required = true;
    assert_eq!(
        validation_message(validate_config(&c)),
        "'rpc-plain-password' is a required option when authentication is enabled"
    );
    c.rpc_plain_password = Some("secret".to_string());
    assert!(validate_config(&c).is_ok());
}

#[test]
fn rules_checked_on_plain_values() {
    assert!(check_rules("/a", true, "x", true, true).is_ok());
    assert_eq!(
        validation_message(check_rules("/a", true, "", false, false)),
        "Invalid 'rpc-bind-address' value: it mustn't be empty"
    );
}

#[test]
fn key_hyphens_become_underscores() {
    assert_eq!(normalize_key("rpc-bind-address"), "rpc_bind_address");
    assert_eq!(normalize_key("download_dir"), "download_dir");
    assert_eq!(normalize_key(""), "");
    assert_eq!(normalize_key(normalize_key("a-b_c").as_str()), "a_b_c");
}

#[test]
fn entries_rewritten_after_plain_ones() {
    let entries = vec![
        ("a-b".to_string(), 1),
        ("a_b".to_string(), 2),
        ("c".to_string(), 3),
        ("d-e".to_string(), 4),
    ];
    let r = normalize_entries(entries);
    let expected = vec![
        ("a_b".to_string(), 2),
        ("c".to_string(), 3),
        ("a_b".to_string(), 1),
        ("d_e".to_string(), 4),
    ];
    assert_eq!(r, expected);
    let again = normalize_entries(r.clone());
    let plain: Vec<(String, i32)> = r.clone();
    assert_eq!(again, plain);
}

#[test]
fn document_keys_rewritten() {
    let doc = Json::from_str(
        r#"{"download-dir": "/d", "rpc-enabled": true, "rpc_port": 9091, "nested": {"x-y": 1}}"#,
    )
    .unwrap();
    let out = preprocess_config(doc).ok().unwrap();
    let obj = out.as_object().unwrap();
    assert_eq!(obj.len(), 4);
    assert_eq!(obj.get("download_dir").unwrap().as_string(), Some("/d"));
    assert_eq!(obj.get("rpc_enabled").unwrap().as_boolean(), Some(true));
    assert_eq!(obj.get("rpc_port").unwrap().as_u64(), Some(9091));
    assert!(obj.get("download-dir").is_none());
    let nested = preprocess_config(obj.get("nested").unwrap().clone()).ok().unwrap();
    let nested = nested.as_object().unwrap();
    assert_eq!(nested.len(), 1);
    assert_eq!(nested.get("x_y").unwrap().as_u64(), Some(1));
}

#[test]
fn rewritten_key_wins_collision() {
    let doc = Json::from_str(r#"{"rpc-url": "new", "rpc_url": "old"}"#).unwrap();
    let out = preprocess_config(doc).ok().unwrap();
    let obj = out.as_object().unwrap();
    assert_eq!(obj.len(), 1);
    assert_eq!(obj.get("rpc_url").unwrap().as_string(), Some("new"));
}

#[test]
fn non_object_document_refused() {
    let doc = Json::from_str("[1, 2]").unwrap();
    match preprocess_config(doc) {
        Err(ConfigReadingError::ParseError(m)) => {
            assert_eq!(m, "JSON root element is not an object")
        }
        other => panic!("unexpected {:?}", other),
    }
}

#[test]
fn non_object_roots_refused() {
    for text in ["1", "\"text\"", "null", "true"] {
        let doc = Json::from_str(text).unwrap();
        assert!(matches!(
            preprocess_config(doc),
            Err(ConfigReadingError::ParseError(_))
        ));
    }
}

#[test]
fn error_messages() {
    let e = ConfigReadingError::ParseError("bad".to_string());
    assert_eq!(e.message(), "bad");
    let e = ConfigReadingError::ValidationError("no".to_string());
    assert_eq!(e.message(), "no");
    let e = ConfigReadingError::IoError(std::io::Error::new(std::io::ErrorKind::Other, "gone"));
    assert_eq!(e.message(), "gone");
}
