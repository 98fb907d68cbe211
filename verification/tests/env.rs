use pulsar_web::env::parse_env;
use pulsar_web::http::{Req, Res};
use pulsar_web::{Handler, Pulse};

struct Nothing;

impl Handler for Nothing {
    fn handle(&self, _req: &Req, _res: &mut Res) {}
}

#[test]
fn settings_are_read_line_by_line() {
    let secrets = parse_env("KEY=value\nOTHER = spaced out \r\n\n# note\nURL=http://h/?a=b\n");
    assert_eq!(secrets.len(), 3);
    assert_eq!(secrets.get("KEY"), Some(&"value".to_string()));
    assert_eq!(secrets.get("OTHER"), Some(&"spaced out".to_string()));
    assert_eq!(secrets.get("URL"), Some(&"http://h/?a=b".to_string()));
}

#[test]
fn later_setting_replaces_the_earlier() {
    let secrets = parse_env("A=1\nA=2");
    assert_eq!(secrets.len(), 1);
    assert_eq!(secrets.get("A"), Some(&"2".to_string()));
}

#[test]
fn empty_contents_hold_no_settings() {
    assert!(parse_env("").is_empty());
    assert!(parse_env("\n\n").is_empty());
    assert!(parse_env("no equals sign").is_empty());
}

#[test]
fn load_env_replaces_the_settings_of_the_server() {
    let mut server: Pulse<Nothing> = Pulse::new();
    let first = server.load_env("A=1\nB=2");
    assert_eq!(first.len(), 2);
    assert_eq!(server.secrets.get("A"), Some(&"1".to_string()));
    let second = server.load_env("C=3");
    assert_eq!(second.get("C"), Some(&"3".to_string()));
    assert_eq!(server.secrets.len(), 1);
    assert_eq!(server.secrets.get("A"), None);
    assert_eq!(server.port, 3000);
}
