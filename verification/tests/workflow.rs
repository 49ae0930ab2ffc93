//! The identity resolver and the workflow data types.

use ota_yaml::ident::{find_by_identity, identity};
use ota_yaml::mode::Mode;
use ota_yaml::protocol::{Carside, EventType, PushDecision, PushType, Request, Vehicle};
use ota_yaml::value::{Num, Value};

fn txt(s: &str) -> Value {
    Value::Text(s.to_string())
}

fn num(i: i64) -> Value {
    Value::Number(Num::Int(i))
}

#[test]
fn identity_prefers_name_over_key() {
    let v = Value::Mapping(vec![
        (txt("key"), txt("from-key")),
        (txt("name"), txt("from-name")),
    ]);
    assert_eq!(identity(&v).unwrap().as_str(), "from-name");
}

#[test]
fn identity_falls_back_to_key() {
    let v = Value::Mapping(vec![(txt("key"), txt("from-key"))]);
    assert_eq!(identity(&v).unwrap().as_str(), "from-key");
}

#[test]
fn identity_skips_non_text_name() {
    // A name field that is not text does not carry an identity; the key
    // field still does.
    let v = Value::Mapping(vec![(txt("name"), num(5)), (txt("key"), txt("k"))]);
    assert_eq!(identity(&v).unwrap().as_str(), "k");
}

#[test]
fn identity_absent_for_scalars_and_plain_mappings() {
    assert!(identity(&num(3)).is_none());
    assert!(identity(&Value::Mapping(vec![(txt("other"), txt("x"))])).is_none());
}

#[test]
fn find_by_identity_takes_the_first_match() {
    let items = vec![
        Value::Mapping(vec![(txt("name"), txt("a"))]),
        Value::Mapping(vec![(txt("name"), txt("b"))]),
        Value::Mapping(vec![(txt("key"), txt("b"))]),
    ];
    assert_eq!(find_by_identity(&items, &"b".to_string()), Some(1));
    assert_eq!(find_by_identity(&items, &"missing".to_string()), None);
}

#[test]
fn mode_labels() {
    assert_eq!(Mode::Edit.label(), "edit");
    assert_eq!(Mode::Components.label(), "components");
}

#[test]
fn event_wire_names() {
    assert_eq!(EventType::KeepAlive.wire_name(), "KEEP_ALIVE");
    assert_eq!(EventType::LoginRequest.wire_name(), "LOGIN_REQUEST");
    assert_eq!(
        EventType::OtaFetchVehicleTemplateItemContents.wire_name(),
        "OTA_FETCH_VEHICLE_TEMPLATE_ITEM_CONTENTS"
    );
}

#[test]
fn keep_alive_frame_is_empty() {
    let r = Request::keep_alive();
    assert_eq!(r.event_type, EventType::KeepAlive);
    assert_eq!(r.request_type, EventType::KeepAlive);
    assert_eq!(r.path_parameter, "");
    assert_eq!(r.request_body, "");
}

#[test]
fn carside_push_type_needs_auto_publish() {
    let c = Carside::new(false, Some(PushType::Force));
    assert!(!c.auto_publish);
    assert_eq!(c.push_type, PushType::NoPush);
    let c2 = Carside::new(true, Some(PushType::Slient));
    assert_eq!(c2.push_type, PushType::Slient);
    let c3 = Carside::new(true, None);
    assert_eq!(c3.push_type, PushType::NoPush);
}

#[test]
fn carside_failed_approval_blocks_pushes() {
    let mut c = Carside::new(true, Some(PushType::Force));
    assert_eq!(c.push_decision(), PushDecision::Push);
    c.record_approval(true);
    assert_eq!(c.push_decision(), PushDecision::Push);
    c.record_approval(false);
    assert_eq!(c.push_decision(), PushDecision::Blocked);
    c.record_approval(true);
    assert_eq!(c.push_decision(), PushDecision::Blocked);
}

#[test]
fn carside_no_push_never_attempts() {
    let c = Carside::new(true, None);
    assert!(c.should_publish());
    assert_eq!(c.push_decision(), PushDecision::NoAttempt);
}

#[test]
fn vehicle_holds_plain_fields() {
    let v = Vehicle { id: 7, name: "t7".to_string() };
    assert_eq!(v.id, 7);
    assert_eq!(v.name, "t7");
}
