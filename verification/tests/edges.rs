//! The gateway's edges: topics, the proxy, the broker and the OPC UA session.
use std::sync::Arc;
use std::time::Duration;

use c8y_opcua_gateway::config::{Config, ServerConfig, SubscriptionConfig};
use c8y_opcua_gateway::conn::{
    create_monitored_items, data_change_filter, is_ambiguous, item_requests, namespace_array,
    relative_path, translate_browse_paths, BrowseResult, BrowseTarget, ConnError, CreatedItem,
    DataChange, DroppedNotifications, MonitoredItemSpec, NamespaceEntry, BAD_UNEXPECTED_ERROR,
};
use c8y_opcua_gateway::json::Json;
use c8y_opcua_gateway::model::{
    CyclicReadParameters, DataChangeTrigger, Deadband, DeviceType, EventCreation, MappingEntry,
    MeasurementCreation, SubscriptionParameters, SubscriptionType,
};
use c8y_opcua_gateway::mqtt::{
    BrokerConnection, ConnectionEvent, ConnectionStep, IncomingMessage, Message, MqttConfig,
    Payload, TedgeMqtt,
};
use c8y_opcua_gateway::namespace::{MappingError, NamespaceTable};
use c8y_opcua_gateway::proxy::{
    after_request, check_status, planted_external_id, resolved_object_id, AfterRequest, C8yProxy,
    ProxyConfig, ProxyError,
};
use c8y_opcua_gateway::resolve::ResolvedMapping;
use c8y_opcua_gateway::server_task::{
    announce_device, complete, parent_entity, planning_error, prepare, register_server, server_entity,
    subscription_request, AppliedDeviceType, ReadLoop, SubscriptionFeed,
};
use c8y_opcua_gateway::source::{LoadedDeviceType, Origin};
use c8y_opcua_gateway::text_map::TextMap;
use c8y_opcua_gateway::topic::{sanitize_id, EntityTopicId};
use c8y_opcua_gateway::ua::{
    DataValue, DateTime, Double, Identifier, NodeId, QualifiedName, Variant,
};

fn object(members: Vec<(&str, Json)>) -> Json {
    let mut map: TextMap<Json> = TextMap::new();
    for (name, value) in members {
        map.insert(name.to_owned(), value);
    }
    Json::Object(map)
}

fn text(s: &str) -> Json {
    Json::String(s.to_owned())
}

fn member(message: &Message, name: &str) -> Option<String> {
    match &message.payload {
        Payload::Json(json) => json.get(name).and_then(|v| v.as_str()).map(str::to_owned),
        other => panic!("no document: {other:?}"),
    }
}

fn tedge() -> TedgeMqtt {
    TedgeMqtt::new(&MqttConfig::default()).0
}

// Topics

#[test]
fn sanitizes_ids_into_stable_topic_segments() {
    assert_eq!(sanitize_id("4168968253"), "4168968253");
    assert_eq!(sanitize_id("Pump01 / cooling+line"), "pump01-cooling-line");
    assert_eq!(sanitize_id("--weird--"), "weird");
    assert_eq!(sanitize_id("///"), "unnamed");
    // Stability is the point: identity in the cloud follows the topic id.
    assert_eq!(sanitize_id("Pump#01"), sanitize_id("Pump#01"));
}

#[test]
fn sanitized_ids_are_left_as_they_are() {
    for id in ["Pump01 / cooling+line", "", "\u{dc}bergabe #7", "a_b-c", "a---b"] {
        let once = sanitize_id(id);
        assert_eq!(sanitize_id(&once), once);
        assert!(!once.contains("--"));
        assert!(!once.is_empty());
    }
    assert_eq!(sanitize_id("\u{dc}bergabe #7"), "bergabe-7");
    assert_eq!(sanitize_id("a---b"), "a-b");
}

#[test]
fn builds_the_documented_topics() {
    let child = EntityTopicId::child_device("plc-1");
    assert_eq!(child.registration_topic(), "te/device/plc-1//");
    assert_eq!(child.channel_topic("m/flow"), "te/device/plc-1///m/flow");

    let service = EntityTopicId::main_service("opcua-gateway");
    assert_eq!(
        service.channel_topic("status/health"),
        "te/device/main/service/opcua-gateway/status/health"
    );
}

#[test]
fn entities_are_told_apart() {
    let main = EntityTopicId::main_device();
    assert_eq!(main.as_str(), "device/main//");
    assert!(main.same(&EntityTopicId::child_device("main")));
    assert!(!main.same(&EntityTopicId::child_device("other")));
    assert_eq!(main.clone(), main);
}

// Messages

#[test]
fn the_service_registers_and_reports_its_health() {
    let (mqtt, will) = TedgeMqtt::new(&MqttConfig::default());
    assert_eq!(mqtt.service().as_str(), "device/main/service/opcua-gateway");
    assert_eq!(will.topic, "te/device/main/service/opcua-gateway/status/health");
    assert!(will.retain);
    assert_eq!(member(&will, "status").as_deref(), Some("down"));
    let registration = mqtt.register_service();
    assert_eq!(registration.topic, "te/device/main/service/opcua-gateway");
    assert!(registration.retain);
    assert_eq!(member(&registration, "@type").as_deref(), Some("service"));
    assert_eq!(member(&registration, "@parent").as_deref(), Some("device/main//"));
    assert_eq!(member(&registration, "name").as_deref(), Some("opcua-gateway"));
    assert_eq!(member(&registration, "type").as_deref(), Some("systemd"));
    let up = mqtt.publish_health_up(42, 1_700_000_000);
    assert_eq!(up.topic, will.topic);
    assert_eq!(member(&up, "status").as_deref(), Some("up"));
    let Payload::Json(body) = &up.payload else {
        panic!("no document")
    };
    assert!(matches!(body.get("pid"), Some(Json::Integer(42))));
    assert!(matches!(body.get("time"), Some(Json::Integer(1_700_000_000))));
    let config = MqttConfig {
        service_name: "a/b".into(),
        ..MqttConfig::default()
    };
    assert_eq!(config.keep_alive, Duration::from_secs(60));
    let nested = TedgeMqtt::new(&config).0.register_service();
    assert_eq!(member(&nested, "name").as_deref(), Some("b"));
}

#[test]
fn telemetry_goes_to_the_channels_of_the_entity() {
    let mqtt = tedge();
    let e = EntityTopicId::child_device("plc");
    let check = |m: Message, topic: &str, retain: bool, empty: bool| {
        assert_eq!(m.topic, topic);
        assert_eq!(m.retain, retain, "{topic}");
        assert_eq!(matches!(m.payload, Payload::Empty), empty, "{topic}");
    };
    let body = || object(vec![]);
    check(mqtt.publish_measurement(&e, "x", body()), "te/device/plc///m/x", false, false);
    check(mqtt.publish_measurement_meta(&e, "x", body()), "te/device/plc///m/x/meta", true, false);
    check(mqtt.publish_event(&e, "x", body()), "te/device/plc///e/x", false, false);
    check(mqtt.raise_alarm(&e, "x", body()), "te/device/plc///a/x", false, false);
    check(mqtt.clear_alarm(&e, "x"), "te/device/plc///a/x", true, true);
    check(mqtt.publish_twin(&e, "x", body()), "te/device/plc///twin/x", true, false);
    check(mqtt.clear_twin(&e, "x"), "te/device/plc///twin/x", true, true);
    let record = mqtt.publish_smartrest("a:b", "502,x,\"y\"");
    assert!(matches!(&record.payload, Payload::Text(r) if r == "502,x,\"y\""));
    check(record, "c8y/s/us/a:b", false, false);
}

#[test]
fn child_devices_carry_an_external_id_only_when_given_one() {
    let mqtt = tedge();
    let e = EntityTopicId::child_device("plc");
    let plain = mqtt.register_child_device(&e, &EntityTopicId::main_device(), "PLC", "opcua-server", None);
    assert_eq!(plain.topic, "te/device/plc//");
    assert_eq!(member(&plain, "@type").as_deref(), Some("child-device"));
    assert_eq!(member(&plain, "type").as_deref(), Some("opcua-server"));
    assert_eq!(member(&plain, "@id"), None);
    let adopted = mqtt.register_child_device(&e, &EntityTopicId::main_device(), "PLC", "t", Some("x:y"));
    assert_eq!(member(&adopted, "@id").as_deref(), Some("x:y"));
}

#[test]
fn a_broker_outage_is_reported_once() {
    let mut c = BrokerConnection::new();
    let lost = |protocol: bool| ConnectionEvent::Lost { protocol };
    assert!(matches!(c.step(lost(true), true), ConnectionStep::Pause { report: false }));
    assert!(matches!(c.step(lost(false), true), ConnectionStep::Pause { report: true }));
    assert!(matches!(c.step(ConnectionEvent::Connected, true), ConnectionStep::Subscribe));
    assert!(c.connected);
    let incoming = || {
        ConnectionEvent::Received(IncomingMessage {
            topic: "t".into(),
            payload: vec![1],
        })
    };
    assert!(matches!(c.step(incoming(), true), ConnectionStep::Forward(m) if m.topic == "t"));
    assert!(matches!(c.step(incoming(), false), ConnectionStep::Continue));
    assert!(matches!(c.step(ConnectionEvent::Other, true), ConnectionStep::Continue));
    assert!(matches!(c.step(lost(true), true), ConnectionStep::Pause { report: true }));
    assert!(!c.connected);
}

// The proxy

#[test]
fn cloud_outages_and_401s_are_transient() {
    assert!(ProxyError::CloudUnreachable.is_transient());
    assert!(ProxyError::Status { url: "u".into(), status: 401 }.is_transient());
    assert!(!ProxyError::Status { url: "u".into(), status: 404 }.is_transient());
}

#[test]
fn server_errors_are_transient_and_local_ones_are_not() {
    assert!(ProxyError::Status { url: "u".into(), status: 500 }.is_transient());
    assert!(!ProxyError::Status { url: "u".into(), status: 499 }.is_transient());
    assert!(ProxyError::Request { url: "u".into(), source: "s".into() }.is_transient());
    assert!(!ProxyError::Client("c".into()).is_transient());
    let file = ProxyError::ReadFile { path: "/p".into(), source: "gone".into() };
    assert!(!file.is_transient());
    assert_eq!(file.message(), "cannot read /p: gone");
    assert_eq!(
        ProxyError::Status { url: "u".into(), status: 404 }.message(),
        "u returned 404"
    );
    assert_eq!(
        ProxyError::Request { url: "u".into(), source: "s".into() }.message(),
        "request to u failed: s"
    );
    assert_eq!(
        ProxyError::CloudUnreachable.message(),
        "the thin-edge mapper cannot reach Cumulocity (502)"
    );
    assert_eq!(
        ProxyError::Client("c".into()).message(),
        "failed to build the proxy HTTP client: c"
    );
}

#[test]
fn answers_are_judged_by_their_status() {
    assert_eq!(check_status("u", 200), Ok(()));
    assert_eq!(check_status("u", 299), Ok(()));
    assert_eq!(check_status("u", 502), Err(ProxyError::CloudUnreachable));
    for status in [100, 199, 300, 404, 500, 503] {
        assert_eq!(
            check_status("u", status),
            Err(ProxyError::Status { url: "u".into(), status })
        );
    }
}

#[test]
fn a_spurious_401_is_retried_once() {
    let refused = || Err::<u8, ProxyError>(ProxyError::Status { url: "u".into(), status: 401 });
    assert!(matches!(after_request(refused(), false), AfterRequest::Retry));
    assert!(matches!(after_request(refused(), true), AfterRequest::Done(Err(_))));
    assert!(matches!(after_request(Ok(7), false), AfterRequest::Done(Ok(7))));
    let missing = Err::<u8, ProxyError>(ProxyError::Status { url: "u".into(), status: 404 });
    assert!(matches!(after_request(missing, false), AfterRequest::Done(Err(_))));
}

#[test]
fn external_ids_resolve_or_are_missing() {
    let found = object(vec![("managedObject", object(vec![("id", text("7"))]))]);
    assert_eq!(resolved_object_id(Ok(found)), Ok(Some("7".into())));
    assert_eq!(resolved_object_id(Ok(object(vec![]))), Ok(None));
    let status = |status: u16| ProxyError::Status { url: "u".into(), status };
    assert_eq!(resolved_object_id(Err(status(404))), Ok(None));
    assert_eq!(resolved_object_id(Err(status(403))), Err(status(403)));
    assert_eq!(planted_external_id(Err(status(409))), Ok(()));
    assert_eq!(planted_external_id(Err(status(404))), Err(status(404)));
    assert_eq!(planted_external_id(Ok(())), Ok(()));
}

#[test]
fn requests_go_to_the_documented_urls() {
    let config = ProxyConfig {
        base_url: "http://h:8001/c8y//".into(),
        ..ProxyConfig::default()
    };
    let p = C8yProxy::new(&config);
    assert_eq!(
        p.device_types("t", "f", 2, 1000),
        "http://h:8001/c8y/inventory/managedObjects?type=t&fragmentType=f&pageSize=1000&currentPage=2&withTotalPages=true"
    );
    assert_eq!(p.managed_object("7"), "http://h:8001/c8y/inventory/managedObjects/7");
    assert_eq!(
        p.child_devices("7", 1, 100),
        "http://h:8001/c8y/inventory/managedObjects/7/childDevices?pageSize=100&currentPage=1&withTotalPages=true"
    );
    // Everything but ASCII letters and digits is escaped, byte by byte.
    assert_eq!(
        p.managed_object_id("c8y_Serial", "tedge001:device:\u{e4}-9"),
        "http://h:8001/c8y/identity/externalIds/c8y_Serial/tedge001%3Adevice%3A%C3%A4%2D9"
    );
    let (url, body) = p.create_external_id("7", "c8y_Serial", "a:b");
    assert_eq!(url, "http://h:8001/c8y/identity/globalIds/7/externalIds");
    assert_eq!(body.get("type").and_then(|v| v.as_str()), Some("c8y_Serial"));
    assert_eq!(body.get("externalId").and_then(|v| v.as_str()), Some("a:b"));
}

// The OPC UA session

fn node(id: u32) -> NodeId {
    NodeId::new(2, Identifier::Numeric(id))
}

fn target(id: u32, uri: &str, remaining: u32) -> BrowseTarget {
    BrowseTarget {
        node_id: node(id),
        namespace_uri: uri.into(),
        remaining_path_index: remaining,
    }
}

#[test]
fn browse_paths_are_bound_to_the_first_whole_match() {
    let result = |status: u32, targets: Vec<BrowseTarget>| BrowseResult { status, targets };
    let results = vec![
        result(0, vec![target(1, "", 0), target(2, "", u32::MAX), target(3, "", u32::MAX)]),
        result(0x8000_0000, vec![target(1, "", u32::MAX)]),
        result(0, vec![target(1, "urn:x", u32::MAX), target(2, "", u32::MAX)]),
        result(0, vec![target(1, "", 1)]),
    ];
    let bound = translate_browse_paths(5, &results);
    assert_eq!(bound, vec![Some(node(2)), None, None, None, None]);
    assert!(is_ambiguous(&results[0]));
    assert!(!is_ambiguous(&results[1]));
    assert!(is_ambiguous(&results[2]));
    assert!(!is_ambiguous(&results[3]));
    assert!(translate_browse_paths(0, &results).is_empty());
}

#[test]
fn browse_paths_walk_down_the_hierarchy() {
    let path = vec![QualifiedName { namespace_index: 2, name: "Pump01".into() }];
    let steps = relative_path(&path);
    assert_eq!(steps.len(), 1);
    assert_eq!(steps[0].reference_type_id, NodeId::new(0, Identifier::Numeric(33)));
    assert!(!steps[0].is_inverse);
    assert!(steps[0].include_subtypes);
    assert_eq!(steps[0].target_name, path[0]);
}

#[test]
fn a_server_without_a_namespace_array_is_an_error() {
    assert_eq!(namespace_array(None), Err(ConnError::NoNamespaceArray));
    let entries = vec![NamespaceEntry::Uri("a".into()), NamespaceEntry::Other("Int32(5)".into())];
    assert_eq!(namespace_array(Some(entries)), Ok(vec!["a".into(), "Int32(5)".into()]));
}

#[test]
fn session_errors_are_told_in_words() {
    assert_eq!(ConnError::Config("x".into()).message(), "invalid OPC UA client configuration: x");
    assert_eq!(ConnError::Request("x".into()).message(), "OPC UA request failed: x");
    assert_eq!(ConnError::NoNamespaceArray.message(), "server did not return a namespace array");
    assert_eq!(
        ConnError::ConnectTimeout(30).message(),
        format!("timed out after {:?} waiting for the OPC UA session to activate", Duration::from_secs(30))
    );
    assert_eq!(ConnError::InvalidRange("x".into()).message(), "invalid numeric range `x`");
}

fn item(range: Option<&str>) -> MonitoredItemSpec {
    MonitoredItemSpec {
        node_id: node(1),
        sampling_interval_ms: None,
        queue_size: 10,
        discard_oldest: true,
        data_change_trigger: DataChangeTrigger::StatusValue,
        deadband: None,
        index_range: range.map(str::to_owned),
    }
}

#[test]
fn default_triggers_need_no_filter() {
    assert!(data_change_filter(&item(None)).is_none());
    let mut i = item(None);
    i.data_change_trigger = DataChangeTrigger::Status;
    let f = data_change_filter(&i).expect("a filter");
    assert_eq!((f.deadband_type, f.deadband_value), (0, Double { bits: 0 }));
    let value = Double { bits: 2.5f64.to_bits() };
    i.data_change_trigger = DataChangeTrigger::StatusValue;
    i.deadband = Some((Deadband::Absolute, value));
    let f = data_change_filter(&i).expect("a filter");
    assert_eq!((f.deadband_type, f.deadband_value), (1, value));
    i.deadband = Some((Deadband::Percent, value));
    assert_eq!(data_change_filter(&i).expect("a filter").deadband_type, 2);
}

#[test]
fn index_ranges_are_checked_before_they_are_asked_for() {
    for good in ["", "7", "0009", "4294967295", "1:2", "0:4294967295", "1,2,3,4,5,6,7,8,9,10", "1:2,3"] {
        assert!(item_requests(&vec![item(Some(good))]).is_ok(), "{good}");
    }
    for bad in ["2:1", "1:1", "+1", "4294967296", "1:4294967296", "00000000001", "1,2,3,4,5,6,7,8,9,10,11", "1,", "a", " 1", "1:2:3", "1\n"] {
        assert_eq!(
            item_requests(&vec![item(None), item(Some(bad)), item(Some("x"))]).expect_err(bad),
            ConnError::InvalidRange(bad.into())
        );
    }
    let requests = item_requests(&vec![item(Some("1:2"))]).expect("good");
    assert_eq!(requests[0].index_range.as_deref(), Some("1:2"));
    assert_eq!(requests[0].node_id, node(1));
    assert_eq!(requests[0].queue_size, 10);
    assert!(requests[0].filter.is_none());
}

#[test]
fn refused_items_cost_only_themselves() {
    let created = vec![
        CreatedItem { status: 0, client_handle: 7 },
        CreatedItem { status: 0x8034_0000, client_handle: 8 },
    ];
    assert_eq!(
        create_monitored_items(3, &created),
        vec![Ok(7), Err(0x8034_0000), Err(BAD_UNEXPECTED_ERROR)]
    );
    assert_eq!(
        BAD_UNEXPECTED_ERROR,
        opcua_types::StatusCode::BadUnexpectedError.bits()
    );
}

#[test]
fn dropped_notifications_are_reported_now_and_then() {
    let mut d = DroppedNotifications::new();
    assert_eq!(d.record(0), None);
    assert_eq!(d.record(29), None);
    assert_eq!(d.record(30), Some(3));
    assert_eq!(d.record(31), Some(1));
    assert_eq!(d.dropped, 0);
}

// One server

fn server(id: &str) -> ServerConfig {
    ServerConfig {
        id: id.into(),
        name: format!("{id} name"),
        url: "opc.tcp://localhost:4840".into(),
        security_policy: "None".into(),
        user: None,
        password: None,
        device_types: Vec::new(),
        external_id: None,
        topic_id: None,
    }
}

fn entry(name: &str) -> MappingEntry {
    MappingEntry {
        name: Some(name.into()),
        browse_path: vec![format!("2:{name}")],
        referenced_node_id: None,
        measurement_creation: Some(MeasurementCreation {
            type_: Some("pump".into()),
            series: Some(name.into()),
            fragment_name: Some("pump".into()),
            unit: Some("W".into()),
            static_fragments: None,
        }),
        event_creation: Some(EventCreation {
            type_: Some("changed".into()),
            text: Some("${value}".into()),
            static_fragments: None,
        }),
        alarm_creation: None,
        custom_action: None,
    }
}

fn loaded(id: &str, kind: &str) -> LoadedDeviceType {
    LoadedDeviceType {
        id: id.into(),
        origin: Origin::Push,
        fingerprint: String::new(),
        device_type: Arc::new(DeviceType {
            name: "Pump".into(),
            description: None,
            enabled: true,
            mappings: vec![entry("flow"), entry("power")],
            apply_constraints: None,
            subscription_type: Some(SubscriptionType {
                type_: Some(kind.into()),
                cyclic_read_parameters: Some(CyclicReadParameters { rate: Some(100), max_age: None }),
                subscription_parameters: Some(SubscriptionParameters {
                    sampling_rate: Some(Double { bits: 7 }),
                    ranges: Some(" 1:2 ".into()),
                    ..SubscriptionParameters::default()
                }),
            }),
            overridden_subscriptions: Vec::new(),
            referenced_root_node_id: None,
            referenced_namespace_table: Vec::new(),
            referenced_server_id: None,
            referenced_server_name: None,
            ua_event_mappings: None,
        }),
    }
}

fn resolved(id: &str, kind: &str) -> ResolvedMapping {
    let table = NamespaceTable::new(Vec::new());
    let plan = prepare(&server("plc"), &["plc".to_owned()], &table, &loaded(id, kind)).expect("used");
    complete(plan, vec![Some(node(1)), Some(node(2))]).expect("resolved")
}

#[test]
fn device_types_are_resolved_where_they_are_used() {
    let table = NamespaceTable::new(Vec::new());
    let known = vec!["plc".to_owned()];
    let mut scoped = server("plc");
    scoped.device_types = vec!["other".into()];
    assert!(prepare(&scoped, &known, &table, &loaded("1", "CyclicRead")).is_none());
    assert!(planning_error(&server("plc"), &known, &table, &loaded("1", "CyclicRead")).is_none());
    let mut broken = loaded("1", "CyclicRead");
    Arc::get_mut(&mut broken.device_type).expect("alone").referenced_root_node_id = Some("x".into());
    assert!(prepare(&server("plc"), &known, &table, &broken).is_none());
    assert_eq!(
        planning_error(&server("plc"), &known, &table, &broken),
        Some(MappingError::InvalidNodeId("x".into()))
    );
    assert!(planning_error(&scoped, &known, &table, &broken).is_none());
    let plan = prepare(&server("plc"), &known, &table, &loaded("1", "CyclicRead")).expect("used");
    assert_eq!(plan.pending_paths().len(), 2);
    let mapping = complete(plan, vec![None, Some(node(9))]).expect("one node");
    assert_eq!(mapping.nodes.len(), 1);
    assert_eq!(mapping.nodes[0].node_id, node(9));
    assert_eq!(mapping.root_node_id, "i=84");
    let plan = prepare(&server("plc"), &known, &table, &loaded("1", "CyclicRead")).expect("used");
    assert!(complete(plan, vec![None, None]).is_none());
    let plan = prepare(&server("plc"), &known, &table, &loaded("1", "CyclicRead")).expect("used");
    assert!(complete(plan, Vec::new()).is_none());
}

#[test]
fn devices_hang_below_their_server() {
    let mut config = Config::default();
    let mqtt = tedge();
    let s = server("plc");
    assert_eq!(server_entity(&s).as_str(), "device/plc-name//");
    assert_eq!(parent_entity(&config).as_str(), "device/opcua-gateway//");
    let registration = register_server(&mqtt, &config, &s);
    assert_eq!(registration.topic, "te/device/plc-name//");
    assert_eq!(member(&registration, "type").as_deref(), Some("c8y_OpcuaServer"));
    assert_eq!(member(&registration, "@parent").as_deref(), Some("device/opcua-gateway//"));
    config.gateway.enabled = false;
    assert_eq!(parent_entity(&config).as_str(), "device/main//");
    let registration = register_server(&mqtt, &config, &s);
    assert_eq!(member(&registration, "type").as_deref(), Some("opcua-server"));

    let device = AppliedDeviceType::new(&s, resolved("Pump #1", "CyclicRead"));
    assert_eq!(device.entity.as_str(), "device/plc-name-pump-1//");
    assert_eq!(device.name, "Pump (i=84)");
    let messages = announce_device(&mqtt, &config, &server_entity(&s), &device);
    assert_eq!(messages.len(), 2);
    assert_eq!(messages[0].topic, "te/device/plc-name-pump-1//");
    assert_eq!(member(&messages[0], "@parent").as_deref(), Some("device/plc-name//"));
    assert_eq!(member(&messages[0], "type").as_deref(), Some("opcua-device"));
    assert_eq!(messages[1].topic, "te/device/plc-name-pump-1///m/pump/meta");
    let mut unnamed = resolved("7", "CyclicRead");
    unnamed.device_type_name = " ".into();
    assert_eq!(AppliedDeviceType::new(&s, unnamed).name, "7 (i=84)");
}

fn value(v: u8) -> DataValue {
    DataValue {
        value: Some(Variant::Byte(v)),
        status: Some(0),
        source_timestamp: Some(DateTime { ticks: 0 }),
        server_timestamp: None,
    }
}

fn change(handle: u32, v: u8) -> DataChange {
    DataChange {
        client_handle: handle,
        node_id: node(1),
        value: value(v),
    }
}

fn topics(messages: &[Message]) -> Vec<&str> {
    messages.iter().map(|m| m.topic.as_str()).collect()
}

#[test]
fn subscriptions_are_routed_by_handle_and_flushed_by_size() {
    let s = server("plc");
    let applied = vec![
        AppliedDeviceType::new(&s, resolved("a", "Subscription")),
        AppliedDeviceType::new(&s, resolved("b", "Subscription")),
        AppliedDeviceType::new(&s, resolved("c", "CyclicRead")),
    ];
    let config = SubscriptionConfig {
        flush_max_series: 2,
        ..SubscriptionConfig::default()
    };
    let request = subscription_request(&applied, &config);
    assert_eq!(request.items.len(), 4);
    assert_eq!(request.targets.len(), 4);
    assert_eq!(request.items[0].queue_size, 10);
    assert_eq!(request.items[0].sampling_interval_ms, Some(Double { bits: 7 }));
    assert_eq!(request.items[0].index_range.as_deref(), Some("1:2"));
    assert_eq!(request.items[1].node_id, node(2));
    assert_eq!(request.targets[2].device_type_id, "b");

    let results = vec![Ok(11), Err(0x8034_0000), Ok(13), Ok(14)];
    let (mut feed, refused) = SubscriptionFeed::new(request.targets, &results, &tedge(), "plc", &config);
    assert_eq!(refused, 1);
    assert!(!feed.is_empty());
    assert!(feed.change(&change(12, 1)).is_empty());
    // Events go out as they arrive, repeated or not; measurements wait.
    assert_eq!(topics(&feed.change(&change(11, 1))), vec!["te/device/plc-name-a///e/changed"]);
    assert_eq!(
        topics(&feed.change(&change(13, 1))),
        vec![
            "te/device/plc-name-b///e/changed",
            "te/device/plc-name-a///m/pump",
            "te/device/plc-name-b///m/pump",
        ]
    );
    assert_eq!(topics(&feed.change(&change(13, 1))), vec!["te/device/plc-name-b///e/changed"]);
    assert_eq!(topics(&feed.flush_all()), vec!["te/device/plc-name-b///m/pump"]);
    assert!(feed.flush_all().is_empty());

    let request = subscription_request(&applied, &config);
    let none = vec![Err(1), Err(1), Err(1), Err(1)];
    let (feed, refused) = SubscriptionFeed::new(request.targets, &none, &tedge(), "plc", &config);
    assert!(feed.is_empty());
    assert_eq!(refused, 4);
}

#[test]
fn cyclic_reads_suppress_repeated_events_and_flush_every_cycle() {
    let mapping = resolved("c", "CyclicRead");
    let mut cycle = ReadLoop::new(tedge(), EntityTopicId::child_device("plc"), "plc".into());
    let first = cycle.read(&mapping.nodes, &vec![value(1), value(2)]);
    assert_eq!(
        topics(&first),
        vec![
            "te/device/plc///e/changed",
            "te/device/plc///e/changed",
            "te/device/plc///m/pump",
        ]
    );
    let second = cycle.read(&mapping.nodes, &vec![value(1), value(3)]);
    assert_eq!(topics(&second), vec!["te/device/plc///e/changed", "te/device/plc///m/pump"]);
    assert_eq!(cycle.read(&mapping.nodes, &vec![value(1)]).len(), 1);
    assert!(!cycle.failed());
    assert!(!cycle.failed());
    cycle.read(&mapping.nodes, &Vec::new());
    assert!(!cycle.failed());
    assert!(!cycle.failed());
    assert!(cycle.failed());
}
