//! Values and the messages that are made of them.
use c8y_opcua_gateway::json::Json;
use c8y_opcua_gateway::model::{AlarmCreation, EventCreation, MeasurementCreation};
use c8y_opcua_gateway::mqtt::{Message, MqttConfig, Payload, TedgeMqtt};
use c8y_opcua_gateway::payload::{
    alarm, alarm_at, event, event_at, measurement_meta, timestamp, timestamp_at, MeasurementBuilder,
};
use c8y_opcua_gateway::publish::{publish_units, Publisher};
use c8y_opcua_gateway::resolve::{Action, Delivery, ResolvedMapping, ResolvedNode};
use c8y_opcua_gateway::topic::EntityTopicId;
use c8y_opcua_gateway::ua::{DataValue, DateTime, Double, Identifier, NodeId, Number, Variant};
use c8y_opcua_gateway::value::{as_bool, as_json, as_number, as_text, is_bad};

const NOW: DateTime = DateTime { ticks: 0 };

fn double(v: f64) -> Variant {
    Variant::Real {
        value: Double { bits: v.to_bits() },
        notation: v.to_string(),
    }
}

fn string(s: &str) -> Variant {
    Variant::String {
        text: s.into(),
        number: s.trim().parse::<f64>().ok().map(|v| Double { bits: v.to_bits() }),
    }
}

fn value_of(n: Number) -> f64 {
    match n {
        Number::Integer(i) => i as f64,
        Number::Real(d) => f64::from_bits(d.bits),
    }
}

fn time() -> DateTime {
    DateTime {
        ticks: opcua_types::DateTime::ymd_hms(2026, 9, 4, 10, 0, 0).ticks(),
    }
}

fn bits(status: opcua_types::StatusCode) -> u32 {
    status.bits()
}

fn good(variant: Variant) -> DataValue {
    DataValue {
        value: Some(variant),
        status: Some(bits(opcua_types::StatusCode::Good)),
        source_timestamp: Some(time()),
        server_timestamp: None,
    }
}

fn undated(variant: Variant) -> DataValue {
    DataValue {
        value: Some(variant),
        status: None,
        source_timestamp: None,
        server_timestamp: None,
    }
}

fn at<'a>(json: &'a Json, path: &[&str]) -> &'a Json {
    let mut here = json;
    for name in path {
        here = here.get(name).expect(name);
    }
    here
}

fn number_at(json: &Json, path: &[&str]) -> f64 {
    match at(json, path) {
        Json::Number(n) => value_of(*n),
        other => panic!("not a number: {other:?}"),
    }
}

fn text_at<'a>(json: &'a Json, path: &[&str]) -> &'a str {
    at(json, path).as_str().expect("a text")
}

fn members(json: &Json) -> Vec<&str> {
    match json {
        Json::Object(m) => (0..m.len()).map(|i| m.key_at(i).as_str()).collect(),
        other => panic!("not an object: {other:?}"),
    }
}

// Values

#[test]
fn bad_status_and_empty_values_are_dropped() {
    assert!(is_bad(&DataValue {
        value: Some(double(1.0)),
        status: Some(bits(opcua_types::StatusCode::BadNodeIdUnknown)),
        source_timestamp: None,
        server_timestamp: None,
    }));
    assert!(is_bad(&DataValue {
        value: None,
        status: None,
        source_timestamp: None,
        server_timestamp: None,
    }));
    assert!(!is_bad(&DataValue {
        value: Some(double(1.0)),
        status: Some(bits(opcua_types::StatusCode::Good)),
        source_timestamp: None,
        server_timestamp: None,
    }));
}

#[test]
fn uncertain_values_are_bad_and_unstated_ones_good() {
    for (status, bad) in [(0x4000_0000, true), (0xc000_0000, true), (0x3fff_ffff, false), (0, false)] {
        let value = DataValue {
            status: Some(status),
            ..good(double(1.0))
        };
        assert_eq!(is_bad(&value), bad, "{status:x}");
    }
    assert!(!is_bad(&undated(double(1.0))));
    assert!(is_bad(&undated(Variant::Empty)));
}

#[test]
fn booleans_become_one_and_zero() {
    assert_eq!(as_number(&Variant::Boolean(true)).map(value_of), Some(1.0));
    assert_eq!(as_number(&Variant::Boolean(false)).map(value_of), Some(0.0));
}

#[test]
fn non_finite_doubles_are_dropped() {
    assert_eq!(as_number(&double(f64::NAN)), None);
    assert_eq!(as_number(&double(f64::INFINITY)), None);
    assert_eq!(as_number(&double(f64::NEG_INFINITY)), None);
    assert_eq!(as_number(&double(f64::MAX)).map(value_of), Some(f64::MAX));
    assert_eq!(as_number(&double(-0.0)).map(value_of), Some(0.0));
    assert_eq!(as_number(&string("inf")), None);
}

#[test]
fn numbers_are_read_from_every_numeric_type() {
    let cases = [
        (Variant::SByte(-128), -128.0),
        (Variant::Byte(255), 255.0),
        (Variant::Int16(-32768), -32768.0),
        (Variant::UInt16(65535), 65535.0),
        (Variant::Int32(i32::MIN), i32::MIN as f64),
        (Variant::UInt32(u32::MAX), u32::MAX as f64),
        (Variant::Int64(i64::MIN), i64::MIN as f64),
        (Variant::UInt64(u64::MAX), u64::MAX as f64),
        (string(" 2.5 "), 2.5),
    ];
    for (variant, expected) in cases {
        assert_eq!(as_number(&variant).map(value_of), Some(expected));
    }
    assert_eq!(as_number(&string("x")), None);
    assert_eq!(as_number(&Variant::Empty), None);
    assert_eq!(as_number(&Variant::DateTime(time())), None);
    assert_eq!(as_number(&Variant::LocalizedText("1".into())), None);
}

#[test]
fn alarm_flag_reads_numbers_and_strings() {
    assert_eq!(as_bool(&Variant::Int32(3)), Some(true));
    assert_eq!(as_bool(&Variant::Int32(0)), Some(false));
    assert_eq!(as_bool(&string("TRUE")), Some(true));
    assert_eq!(as_bool(&string("nope")), Some(false));
}

#[test]
fn alarm_flag_is_the_sign_of_a_double() {
    for (v, flag) in [(1e-300, true), (f64::MIN_POSITIVE / 4.0, true), (-1.0, false), (0.0, false), (-0.0, false)] {
        assert_eq!(as_bool(&double(v)), Some(flag), "{v}");
    }
    assert_eq!(as_bool(&double(f64::NAN)), None);
    assert_eq!(as_bool(&Variant::Int64(-1)), Some(false));
    assert_eq!(as_bool(&string("1")), Some(false));
    assert_eq!(as_bool(&Variant::Other("x".into())), None);
}

#[test]
fn values_are_rendered_as_text_and_json() {
    assert_eq!(as_text(&Variant::Empty), "");
    assert_eq!(as_text(&Variant::Boolean(true)), "true");
    assert_eq!(as_text(&Variant::Boolean(false)), "false");
    assert_eq!(as_text(&Variant::Int64(i64::MIN)), i64::MIN.to_string());
    assert_eq!(as_text(&Variant::UInt64(u64::MAX)), u64::MAX.to_string());
    assert_eq!(as_text(&Variant::SByte(-7)), "-7");
    assert_eq!(as_text(&Variant::Byte(10)), "10");
    assert_eq!(as_text(&double(0.1)), "0.1");
    assert_eq!(as_text(&Variant::DateTime(time())), "2026-09-04T10:00:00.000Z");
    assert_eq!(as_text(&Variant::LocalizedText("hallo".into())), "hallo");
    assert_eq!(as_text(&Variant::Other("Guid(..)".into())), "Guid(..)");
    assert!(matches!(as_json(&Variant::Empty), Json::Null));
    assert_eq!(as_json(&Variant::Boolean(true)).as_bool(), Some(true));
    assert_eq!(as_json(&string("5")).as_str(), Some("5"));
    assert!(matches!(as_json(&Variant::Byte(5)), Json::Number(Number::Integer(5))));
    assert_eq!(as_json(&double(f64::NAN)).as_str(), Some("NaN"));
    assert_eq!(as_json(&Variant::DateTime(time())).as_str(), Some("2026-09-04T10:00:00.000Z"));
    assert_eq!(as_json(&Variant::Other("x".into())).as_str(), Some("x"));
}

// Payloads

fn measurement_creation(fragment: &str, series: &str) -> MeasurementCreation {
    MeasurementCreation {
        type_: Some("pump".into()),
        series: Some(series.into()),
        fragment_name: Some(fragment.into()),
        unit: Some("l/m".into()),
        static_fragments: None,
    }
}

#[test]
fn groups_series_by_fragment_in_one_message() {
    let mut b = MeasurementBuilder::new();
    assert!(b.add(&measurement_creation("pump", "flow"), "ns=2;i=1", &good(double(3.5))));
    assert!(b.add(&measurement_creation("pump", "power"), "ns=2;i=2", &good(Variant::Int32(42))));
    let out = b.build().expect("has series");
    assert_eq!(number_at(&out, &["pump", "flow"]), 3.5);
    assert_eq!(number_at(&out, &["pump", "power"]), 42.0);
    assert_eq!(text_at(&out, &["time"]), "2026-09-04T10:00:00.000Z");
}

#[test]
fn non_numeric_series_is_skipped_not_published() {
    let mut b = MeasurementBuilder::new();
    assert!(!b.add(&measurement_creation("pump", "state"), "ns=2;i=1", &good(string("running"))));
    assert!(b.build().is_none());
}

#[test]
fn the_first_series_dates_the_message() {
    let mut b = MeasurementBuilder::new();
    assert!(b.is_empty());
    let mut creation = measurement_creation("time", "flow");
    creation.static_fragments = Some(vec!["extra".into(), "time".into(), "extra".into()]);
    assert!(b.add_at(&creation, "i=1", &undated(double(1.0)), time()));
    assert!(!b.is_empty());
    let mut later = undated(double(2.0));
    later.server_timestamp = Some(NOW);
    assert!(b.add_at(&measurement_creation("pump", "flow"), "i=1", &later, NOW));
    let out = b.build().expect("has series");
    // The time takes the place of a fragment of that name.
    assert_eq!(text_at(&out, &["time"]), "2026-09-04T10:00:00.000Z");
    assert_eq!(members(&out), vec!["extra", "pump", "time"]);
    assert_eq!(members(at(&out, &["extra"])), Vec::<&str>::new());
}

#[test]
fn timestamps_prefer_the_source() {
    let mut value = good(double(1.0));
    value.server_timestamp = Some(NOW);
    assert_eq!(timestamp_at(&value, NOW), "2026-09-04T10:00:00.000Z");
    value.source_timestamp = None;
    assert_eq!(timestamp_at(&value, time()), "1601-01-01T00:00:00.000Z");
    value.server_timestamp = None;
    assert_eq!(timestamp_at(&value, time()), "2026-09-04T10:00:00.000Z");
    // The clock is past the year in which this was written.
    assert!(timestamp(&value).as_str() > "2025");
}

#[test]
fn units_are_declared_per_series() {
    assert!(measurement_meta(&[]).is_none());
    let meta = measurement_meta(&[("flow".into(), "l/m".into()), ("power".into(), "W".into())])
        .expect("has units");
    assert_eq!(text_at(&meta, &["flow", "unit"]), "l/m");
    assert_eq!(text_at(&meta, &["power", "unit"]), "W");
}

fn event_creation() -> EventCreation {
    EventCreation {
        type_: Some("pumpState".into()),
        text: Some("Pump state ${value}".into()),
        static_fragments: None,
    }
}

#[test]
fn event_text_substitutes_value() {
    let out = event(&event_creation(), "ns=2;i=9", &good(string("RUNNING")));
    assert_eq!(text_at(&out, &["text"]), "Pump state RUNNING");
    assert!(out.get("c8y_ua_SourceNodeId_ns=2;i=9").is_some());
}

#[test]
fn events_carry_the_value_as_delivered() {
    let mut creation = event_creation();
    creation.text = Some("${value}${value} ${val".into());
    creation.static_fragments = Some(vec!["text".into(), "extra".into()]);
    let mut value = good(Variant::UInt16(7));
    value.status = Some(3);
    let out = event_at(&creation, "i=1", &value, NOW);
    assert_eq!(text_at(&out, &["text"]), "77 ${val");
    assert_eq!(
        members(&out),
        vec!["c8y_DataValue", "c8y_ua_SourceNodeId_i=1", "extra", "text", "time"]
    );
    assert_eq!(number_at(&out, &["c8y_DataValue", "value"]), 7.0);
    assert!(matches!(at(&out, &["c8y_DataValue", "statusCode"]), Json::Integer(3)));
    assert_eq!(
        text_at(&out, &["c8y_DataValue", "sourceTimestamp"]),
        "2026-09-04T10:00:00.000Z"
    );
    assert!(matches!(at(&out, &["c8y_DataValue", "serverTimestamp"]), Json::Null));
    creation.text = None;
    value.value = None;
    value.status = None;
    let out = event_at(&creation, "i=1", &value, NOW);
    assert_eq!(text_at(&out, &["text"]), "");
    assert!(matches!(at(&out, &["c8y_DataValue", "value"]), Json::Null));
    assert!(matches!(at(&out, &["c8y_DataValue", "statusCode"]), Json::Null));
}

fn alarm_creation(severity: Option<&str>) -> AlarmCreation {
    AlarmCreation {
        type_: Some("pumpAlert".into()),
        text: Some("Pump in alert state".into()),
        severity: severity.map(str::to_owned),
        static_fragments: None,
    }
}

#[test]
fn alarm_severity_is_lowercased_for_thin_edge() {
    let out = alarm(&alarm_creation(Some("CRITICAL")), "ns=2;i=9", &good(Variant::Boolean(true)));
    assert_eq!(text_at(&out, &["severity"]), "critical");
}

#[test]
fn alarm_severity_defaults_to_major() {
    let of = |severity: Option<&str>| {
        let out = alarm_at(&alarm_creation(severity), "i=1", &good(Variant::Boolean(true)), NOW);
        assert_eq!(text_at(&out, &["text"]), "Pump in alert state");
        text_at(&out, &["severity"]).to_owned()
    };
    assert_eq!(of(None), "major");
    assert_eq!(of(Some("  ")), "major");
    assert_eq!(of(Some(" Minor ")), "minor");
    assert_eq!(of(Some("\u{c4}RGER")), "\u{e4}rger");
}

// Publishing

fn mqtt() -> TedgeMqtt {
    TedgeMqtt::new(&MqttConfig::default()).0
}

fn publisher(dedup: bool) -> Publisher {
    Publisher::new(mqtt(), EntityTopicId::child_device("plc"), "plc".into(), dedup)
}

fn node(actions: Vec<Action>) -> ResolvedNode {
    ResolvedNode {
        node_id: NodeId::new(2, Identifier::Numeric(1)),
        node_id_str: "ns=2;i=1".into(),
        actions,
        delivery: Delivery::CyclicRead { rate_ms: 1000, max_age: 0 },
    }
}

fn topics(messages: &[Message]) -> Vec<&str> {
    messages.iter().map(|m| m.topic.as_str()).collect()
}

fn body(message: &Message) -> &Json {
    match &message.payload {
        Payload::Json(json) => json,
        other => panic!("no document: {other:?}"),
    }
}

#[test]
fn measurements_are_batched_into_one_message_per_type() {
    let mut p = publisher(false);
    let flow = node(vec![Action::Measurement(measurement_creation("pump", "flow"))]);
    let mut other = measurement_creation("pump", "level");
    other.type_ = Some(" level ".into());
    let level = node(vec![
        Action::Measurement(other),
        Action::Measurement(measurement_creation("pump", "level")),
    ]);
    assert!(p.accept(&flow, &good(double(1.5))).is_empty());
    assert!(p.accept(&level, &good(Variant::Byte(3))).is_empty());
    assert!(p.accept(&level, &good(string("n/a"))).is_empty());
    assert_eq!(p.pending_series(), 3);
    let out = p.flush();
    assert_eq!(topics(&out), vec!["te/device/plc///m/level", "te/device/plc///m/pump"]);
    assert!(out.iter().all(|m| !m.retain));
    assert_eq!(number_at(body(&out[1]), &["pump", "flow"]), 1.5);
    assert_eq!(number_at(body(&out[1]), &["pump", "level"]), 3.0);
    assert_eq!(p.pending_series(), 0);
    assert!(p.flush().is_empty());
}

#[test]
fn bad_values_publish_nothing() {
    let mut p = publisher(false);
    let n = node(vec![
        Action::Event(event_creation()),
        Action::Alarm(alarm_creation(None)),
        Action::Measurement(measurement_creation("pump", "flow")),
    ]);
    let mut bad = good(Variant::Boolean(true));
    bad.status = Some(0x8000_0000);
    assert!(p.accept(&n, &bad).is_empty());
    assert!(p.accept(&n, &undated(Variant::Empty)).is_empty());
    assert_eq!(p.pending_series(), 0);
    assert_eq!(p.server_id(), "plc");
}

#[test]
fn repeated_events_are_suppressed_where_that_is_asked_for() {
    let n = node(vec![Action::Event(event_creation())]);
    let mut p = publisher(true);
    let out = p.accept(&n, &good(string("ON")));
    assert_eq!(topics(&out), vec!["te/device/plc///e/pumpState"]);
    assert_eq!(text_at(body(&out[0]), &["text"]), "Pump state ON");
    assert!(p.accept(&n, &good(string("ON"))).is_empty());
    assert_eq!(p.accept(&n, &good(string("OFF"))).len(), 1);
    assert_eq!(p.accept(&n, &good(string("ON"))).len(), 1);
    let mut p = publisher(false);
    assert_eq!(p.accept(&n, &good(string("ON"))).len(), 1);
    assert_eq!(p.accept(&n, &good(string("ON"))).len(), 1);
}

#[test]
fn a_changed_value_is_published_though_its_text_is_the_same() {
    let mut creation = event_creation();
    creation.text = Some("changed".into());
    let n = node(vec![Action::Event(creation)]);
    let mut p = publisher(true);
    assert_eq!(p.accept(&n, &good(Variant::Int32(1))).len(), 1);
    assert!(p.accept(&n, &good(Variant::Int32(1))).is_empty());
    let out = p.accept(&n, &good(Variant::Int32(2)));
    assert_eq!(topics(&out), vec!["te/device/plc///e/pumpState"]);
    // A value of another type is another value.
    assert_eq!(p.accept(&n, &good(Variant::Int64(2))).len(), 1);
    assert_eq!(p.accept(&n, &good(double(2.0))).len(), 1);
    assert!(p.accept(&n, &good(double(2.0))).is_empty());
    assert_eq!(p.accept(&n, &good(string("2"))).len(), 1);
    assert_eq!(p.accept(&n, &good(Variant::DateTime(time()))).len(), 1);
    assert!(p.accept(&n, &good(Variant::DateTime(time()))).is_empty());
}

#[test]
fn two_events_of_one_type_are_published_and_suppressed_together() {
    let mut other = event_creation();
    other.text = Some("again ${value}".into());
    let n = node(vec![
        Action::Event(event_creation()),
        Action::Event(other),
        Action::Alarm(alarm_creation(None)),
    ]);
    let mut p = publisher(true);
    assert_eq!(p.accept(&n, &good(Variant::Boolean(true))).len(), 3);
    assert!(p.accept(&n, &good(Variant::Boolean(true))).is_empty());
    assert_eq!(p.accept(&n, &good(Variant::Boolean(false))).len(), 3);
}

#[test]
fn an_event_is_published_once_for_a_value() {
    let saying = |type_: &str, text: &str| {
        let mut creation = event_creation();
        creation.type_ = Some(type_.into());
        creation.text = Some(text.into());
        Action::Event(creation)
    };
    let texts = |out: &Vec<Message>| {
        out.iter().map(|m| text_at(body(m), &["text"]).to_owned()).collect::<Vec<String>>()
    };
    let value = good(Variant::Boolean(true));

    // The same text twice, once as the value makes it.
    let twice = node(vec![saying("t", "is ${value}"), saying("t", "is true")]);
    let mut p = publisher(true);
    assert_eq!(texts(&p.accept(&twice, &value)), vec!["is true"]);
    assert!(p.accept(&twice, &value).is_empty());
    assert_eq!(
        texts(&p.accept(&twice, &good(Variant::Boolean(false)))),
        vec!["is false", "is true"]
    );
    assert_eq!(texts(&publisher(false).accept(&twice, &value)), vec!["is true", "is true"]);

    // Only the last event of the type counts, and only that of the same type.
    let back = node(vec![saying("t", "x"), saying("t", "y"), saying("t", "x"), saying("t", "x")]);
    assert_eq!(texts(&publisher(true).accept(&back, &value)), vec!["x", "y", "x"]);
    let apart = node(vec![saying("t", "x"), saying("u", "y"), saying("t", "x"), saying("u", "y")]);
    assert_eq!(texts(&publisher(true).accept(&apart, &value)), vec!["x", "y"]);
    let types = node(vec![saying("t", "x"), saying("u", "x")]);
    assert_eq!(texts(&publisher(true).accept(&types, &value)), vec!["x", "x"]);
}

#[test]
fn alarms_are_published_on_transitions_only() {
    let n = node(vec![Action::Alarm(alarm_creation(Some("MINOR")))]);
    let mut p = publisher(false);
    let raised = p.accept(&n, &good(Variant::Int32(5)));
    assert_eq!(topics(&raised), vec!["te/device/plc///a/pumpAlert"]);
    assert!(!raised[0].retain);
    assert_eq!(text_at(body(&raised[0]), &["severity"]), "minor");
    assert!(p.accept(&n, &good(Variant::Int32(6))).is_empty());
    assert!(p.accept(&n, &good(double(f64::NAN))).is_empty());
    let cleared = p.accept(&n, &good(string("false")));
    assert_eq!(topics(&cleared), vec!["te/device/plc///a/pumpAlert"]);
    assert!(cleared[0].retain);
    assert!(matches!(cleared[0].payload, Payload::Empty));
    assert!(p.accept(&n, &good(Variant::Boolean(false))).is_empty());
    assert_eq!(p.accept(&n, &good(Variant::Boolean(true))).len(), 1);
}

#[test]
fn both_delivery_paths_publish_the_same_message() {
    let n = node(vec![Action::Event(event_creation()), Action::Alarm(alarm_creation(None))]);
    let subscribed = publisher(false).accept_at(&n, &good(string("true")), NOW);
    let read = publisher(true).accept_at(&n, &good(string("true")), NOW);
    assert_eq!(format!("{subscribed:?}"), format!("{read:?}"));
    assert_eq!(subscribed.len(), 2);
}

#[test]
fn a_first_clear_alarm_is_published_too() {
    let n = node(vec![Action::Alarm(alarm_creation(None))]);
    let mut p = publisher(false);
    let out = p.accept(&n, &good(Variant::Boolean(false)));
    assert_eq!(out.len(), 1);
    assert!(out[0].retain);
}

#[test]
fn unit_declarations_are_retained() {
    let mapping = ResolvedMapping {
        device_type_id: "1".into(),
        device_type_name: "Pump".into(),
        root_node_id: "i=84".into(),
        nodes: vec![node(vec![
            Action::Measurement(measurement_creation("pump", "flow")),
            Action::Event(event_creation()),
        ])],
    };
    let out = publish_units(&mqtt(), &EntityTopicId::child_device("plc"), &mapping);
    assert_eq!(topics(&out), vec!["te/device/plc///m/pump/meta"]);
    assert!(out[0].retain);
    assert_eq!(text_at(body(&out[0]), &["flow", "unit"]), "l/m");
}
