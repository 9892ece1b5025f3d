use std::time::Duration;

use mailconf::dynvalue::{DynValue, IpValue, KeyLookup, TableLookup};
use mailconf::server::{Rate, ServerProtocol};

#[test]
fn list_concatenates_in_order() {
    let ctx = TableLookup { entries: vec![("k".to_string(), "alice".to_string())] };
    let template: DynValue<String> = DynValue::List(vec![
        DynValue::Literal("user=".to_string()),
        DynValue::Key("k".to_string()),
    ]);
    let r = template.resolve(&Vec::new(), &ctx);
    assert_eq!(r, "user=alice");
}

#[test]
fn position_indexes_the_argument_list() {
    let template: DynValue<String> = DynValue::List(vec![
        DynValue::Position(1),
        DynValue::Literal("/".to_string()),
        DynValue::Position(0),
    ]);
    let args = vec!["zero".to_string(), "one".to_string()];
    let r = template.resolve(&args, &());
    assert_eq!(r, "one/zero");
}

#[test]
fn resolution_is_total_on_bad_positions() {
    let template: DynValue<String> = DynValue::Position(7);
    let r = template.resolve(&vec!["only".to_string()], &());
    assert_eq!(r, "");
}

#[test]
fn noop_lookup_yields_defaults() {
    let ctx = ();
    assert_eq!(ctx.key(&"anything".to_string()), "");
    assert_eq!(ctx.key_as_int(&"anything".to_string()), 0);
    assert_eq!(ctx.key_as_ip(&"anything".to_string()), IpValue::V4(0, 0, 0, 0));
}

#[test]
fn table_lookup_misses_yield_defaults() {
    let ctx = TableLookup { entries: vec![("k".to_string(), "v".to_string())] };
    assert_eq!(ctx.key(&"absent".to_string()), "");
    assert_eq!(ctx.key_as_int(&"k".to_string()), 0);
    assert_eq!(ctx.key_as_ip(&"k".to_string()), IpValue::V4(0, 0, 0, 0));
}

#[test]
fn protocols_render_lowercase_names() {
    assert_eq!(ServerProtocol::Smtp.name(), "smtp");
    assert_eq!(ServerProtocol::Lmtp.name(), "lmtp");
    assert_eq!(ServerProtocol::Jmap.name(), "jmap");
    assert_eq!(ServerProtocol::Imap.name(), "imap");
    assert_eq!(ServerProtocol::Http.name(), "http");
    assert_eq!(ServerProtocol::ManageSieve.name(), "managesieve");
}

#[test]
fn default_protocol_is_smtp() {
    assert_eq!(ServerProtocol::default(), ServerProtocol::Smtp);
}

#[test]
fn rate_holds_its_pair() {
    let r = Rate { requests: 100, period: Duration::from_secs(60) };
    assert_eq!(r.requests, 100);
    assert_eq!(r.period, Duration::from_secs(60));
    assert_eq!(Rate::default().requests, 0);
}
