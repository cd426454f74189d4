use csvbuttler::data::{parse_csv, AppState};
use csvbuttler::error::Error;
use csvbuttler::settings::{Csv, Secrets, Settings};

fn settings_with_delimiter(d: &str) -> Settings {
    Settings {
        default: csvbuttler::settings::Default {
            alloworigin: "*".to_string(),
            interface: "127.0.0.1".to_string(),
            port: 8000,
            domain: "localhost".to_string(),
            https: false,
        },
        csv: Csv {
            uri: "data.csv".to_string(),
            delimiter: d.to_string(),
            username: None,
            password: None,
        },
        secrets: Secrets {
            app: "app-secret".to_string(),
            csrf: "csrf-secret".to_string(),
            jwt: "jwt-secret".to_string(),
        },
    }
}

#[test]
fn three_records_scenario() {
    let s = settings_with_delimiter(";");
    let map = parse_csv(&s, "1;Widget;;Acme;9.99\n2;Gadget;Nice;Acme;19.99\n0;Bad;;Acme;0.00".to_string())
        .unwrap();
    assert_eq!(map.len(), 2);
    let p1 = map.get(&1).unwrap();
    assert_eq!(p1.id, 1);
    assert_eq!(p1.title, "Widget");
    assert!(p1.description.is_none());
    assert_eq!(p1.brand, "Acme");
    assert_eq!(p1.price, "9.99");
    let p2 = map.get(&2).unwrap();
    assert_eq!(p2.description.as_deref(), Some("Nice"));
    assert!(map.get(&0).is_none());
}

#[test]
fn malformed_row_is_skipped() {
    let s = settings_with_delimiter(";");
    let map = parse_csv(&s, "1;A;;B;1.00\nnot a row at all\n2;C;;D;2.00".to_string()).unwrap();
    assert_eq!(map.len(), 2);
    assert!(map.contains_key(&1));
    assert!(map.contains_key(&2));
}

#[test]
fn wrong_field_count_is_skipped() {
    let s = settings_with_delimiter(";");
    let map = parse_csv(&s, "1;A;;B\n2;C;;D;2.00;extra\n3;E;;F;3.00".to_string()).unwrap();
    assert_eq!(map.len(), 1);
    assert!(map.contains_key(&3));
}

#[test]
fn non_numeric_id_is_skipped() {
    let s = settings_with_delimiter(";");
    let map = parse_csv(&s, "id;title;description;brand;price\n7;G;;H;7.70".to_string()).unwrap();
    assert_eq!(map.len(), 1);
    assert!(map.contains_key(&7));
}

#[test]
fn duplicate_id_last_wins() {
    let s = settings_with_delimiter(";");
    let map = parse_csv(&s, "5;First;;X;1.00\n5;Second;;Y;2.00".to_string()).unwrap();
    assert_eq!(map.len(), 1);
    let p = map.get(&5).unwrap();
    assert_eq!(p.title, "Second");
    assert_eq!(p.brand, "Y");
}

#[test]
fn empty_delimiter_is_config_error() {
    let s = settings_with_delimiter("");
    match parse_csv(&s, "1;A;;B;1.00".to_string()) {
        Err(Error::ConfigError(_)) => {}
        other => panic!("expected a configuration error, got {:?}", other),
    }
}

#[test]
fn crlf_lines_are_handled() {
    let s = settings_with_delimiter(",");
    let map = parse_csv(&s, "1,A,,B,1.00\r\n2,C,,D,2.00\r\n".to_string()).unwrap();
    assert_eq!(map.len(), 2);
    assert_eq!(map.get(&2).unwrap().title, "C");
}

#[test]
fn comma_delimiter_works() {
    let s = settings_with_delimiter(",");
    let map = parse_csv(&s, "3,Thing,With words,Maker,0.50".to_string()).unwrap();
    assert_eq!(map.get(&3).unwrap().description.as_deref(), Some("With words"));
}

#[test]
fn huge_id_is_skipped() {
    let s = settings_with_delimiter(";");
    let map = parse_csv(&s, "99999999999999999999999999;A;;B;1.00\n4;C;;D;2.00".to_string())
        .unwrap();
    assert_eq!(map.len(), 1);
    assert!(map.contains_key(&4));
}

#[test]
fn empty_input_gives_empty_map() {
    let s = settings_with_delimiter(";");
    let map = parse_csv(&s, "".to_string()).unwrap();
    assert!(map.is_empty());
}

#[test]
fn build_state_and_lookup() {
    let s = settings_with_delimiter(";");
    let state = AppState::build(s, "1;Widget;;Acme;9.99\n2;Gadget;Nice;Acme;19.99".to_string())
        .unwrap();
    assert_eq!(state.lookup(1).unwrap().title, "Widget");
    assert!(state.lookup(3).is_none());
    assert_eq!(state.settings.csv.delimiter, ";");
}

#[test]
fn build_state_rejects_empty_delimiter() {
    let s = settings_with_delimiter("");
    assert!(AppState::build(s, "1;A;;B;1.00".to_string()).is_err());
}

#[test]
fn product_endpoint_scenario() {
    let s = settings_with_delimiter(";");
    let state = AppState::build(
        s,
        "1;Widget;;Acme;9.99\n2;Gadget;Nice;Acme;19.99\n0;Bad;;Acme;0.00".to_string(),
    )
    .unwrap();
    let (code, body) = state.product_response(1);
    assert_eq!(code, 200);
    assert_eq!(
        body.unwrap(),
        "{\"id\":1,\"title\":\"Widget\",\"description\":null,\"brand\":\"Acme\",\"price\":\"9.99\"}"
    );
    let (code404, body404) = state.product_response(99);
    assert_eq!(code404, 404);
    assert!(body404.is_none());
}

#[test]
fn skipped_lines_are_reported() {
    let s = settings_with_delimiter(";");
    let (map, skipped) = csvbuttler::data::parse_csv_with_report(
        &s,
        "1;A;;B;1.00\nnot a row\n2;C;;D;2.00\nanother bad one".to_string(),
    )
    .unwrap();
    assert_eq!(map.len(), 2);
    assert_eq!(skipped, vec![1, 3]);
}

#[test]
fn clean_input_reports_nothing() {
    let s = settings_with_delimiter(";");
    let (state, skipped) = csvbuttler::data::AppState::build_with_report(
        s,
        "1;A;;B;1.00\n2;C;;D;2.00".to_string(),
    )
    .unwrap();
    assert!(skipped.is_empty());
    assert!(state.lookup(2).is_some());
}
