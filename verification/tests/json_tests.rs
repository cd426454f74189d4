use csvbuttler::config::Config;
use csvbuttler::error::Error;
use csvbuttler::model::{error_product, Product};
use csvbuttler::settings::{Csv, Secrets, Settings};

#[test]
fn product_json_plain() {
    let p = Product {
        id: 1,
        title: "Widget".to_string(),
        description: None,
        brand: "Acme".to_string(),
        price: "9.99".to_string(),
    };
    assert_eq!(
        p.to_json(),
        "{\"id\":1,\"title\":\"Widget\",\"description\":null,\"brand\":\"Acme\",\"price\":\"9.99\"}"
    );
}

#[test]
fn product_json_with_description() {
    let p = Product {
        id: 42,
        title: "Gadget".to_string(),
        description: Some("Nice".to_string()),
        brand: "Acme".to_string(),
        price: "19.99".to_string(),
    };
    assert_eq!(
        p.to_json(),
        "{\"id\":42,\"title\":\"Gadget\",\"description\":\"Nice\",\"brand\":\"Acme\",\"price\":\"19.99\"}"
    );
}

#[test]
fn product_json_escapes_like_serde_json() {
    let p = Product {
        id: 7,
        title: "a\"b\\c\nd\te".to_string(),
        description: Some("\u{1} ok".to_string()),
        brand: "Br\u{00e9}nd".to_string(),
        price: "1".to_string(),
    };
    let body = p.to_json();
    // the body parses back to the same values under serde_json
    let v: serde_json::Value = serde_json::from_str(&body).unwrap();
    assert_eq!(v.get("title").unwrap().as_str().unwrap(), "a\"b\\c\nd\te");
    assert_eq!(v.get("description").unwrap().as_str().unwrap(), "\u{1} ok");
    assert_eq!(v.get("brand").unwrap().as_str().unwrap(), "Br\u{00e9}nd");
    // and the string escaping matches serde_json's own rendering
    assert!(body.contains(&serde_json::to_string("a\"b\\c\nd\te").unwrap()));
    assert!(body.contains(&serde_json::to_string("\u{1} ok").unwrap()));
}

#[test]
fn error_product_is_the_sentinel() {
    let p = error_product();
    assert_eq!(p.id, 0);
    assert_eq!(p.title, "Foo");
    assert!(p.description.is_none());
    assert_eq!(p.brand, "Foo");
    assert_eq!(p.price, "Bar");
}

#[test]
fn config_is_local_without_file() {
    let cfg = Config {
        file: None,
        delimiter: ",".to_string(),
        interface: "127.0.0.1".to_string(),
        port: "8000".to_string(),
        allow_origin: None,
        csv_username: None,
        csv_password: None,
    };
    assert!(!cfg.is_local());
}

#[test]
fn config_basic_auth_validation() {
    let mut cfg = Config {
        file: None,
        delimiter: ",".to_string(),
        interface: "127.0.0.1".to_string(),
        port: "8000".to_string(),
        allow_origin: None,
        csv_username: Some("user".to_string()),
        csv_password: None,
    };
    match cfg.validate_basic_auth() {
        Err(Error::ConfigError(m)) => assert_eq!(m, "Basic Auth requires a password"),
        other => panic!("expected an error, got {:?}", other),
    }
    cfg.csv_password = Some("pw".to_string());
    assert!(cfg.validate_basic_auth().is_ok());
    cfg.csv_username = None;
    cfg.csv_password = None;
    assert!(cfg.validate_basic_auth().is_ok());
}

#[test]
fn settings_basic_auth_validation() {
    let csv = Csv {
        uri: "http://example.com/data.csv".to_string(),
        delimiter: ";".to_string(),
        username: Some("user".to_string()),
        password: None,
    };
    match csv.validate_basic_auth() {
        Err(Error::ConfigError(m)) => assert_eq!(m, "Basic Auth requires a password"),
        other => panic!("expected an error, got {:?}", other),
    }
}

#[test]
fn settings_is_local_checks_the_file_system() {
    let settings = Settings {
        default: csvbuttler::settings::Default {
            alloworigin: "*".to_string(),
            interface: "127.0.0.1".to_string(),
            port: 8000,
            domain: "localhost".to_string(),
            https: false,
        },
        csv: Csv {
            uri: "surely/not/an/existing/path.csv".to_string(),
            delimiter: ";".to_string(),
            username: None,
            password: None,
        },
        secrets: Secrets {
            app: "a".to_string(),
            csrf: "b".to_string(),
            jwt: "c".to_string(),
        },
    };
    assert!(!settings.is_local());
}
