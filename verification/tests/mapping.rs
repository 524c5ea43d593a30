//! Device types: reading their parameters, resolving them, and merging their sources.
use std::sync::Arc;

use c8y_opcua_gateway::constraints::{
    applies, ignores_server_ids, report_unsupported, Unsupported,
};
use c8y_opcua_gateway::files::{mapping_files, server_files};
use c8y_opcua_gateway::json::Json;
use c8y_opcua_gateway::model::{
    AlarmCreation, ApplyConstraints, CyclicReadParameters, DataChangeTrigger, Deadband, DeviceType,
    EventCreation, ManagedObject, MappingEntry, MeasurementCreation, OverriddenSubscription,
    SubscriptionKind, SubscriptionParameters, SubscriptionType,
};
use c8y_opcua_gateway::namespace::{
    is_regex, node_id_to_text, parse_node_id, to_qualified_name, to_qualified_names, MappingError,
    NamespaceTable,
};
use c8y_opcua_gateway::resolve::{plan, EntryProblem, Plan, ResolvedNode};
use c8y_opcua_gateway::source::{
    from_file, from_managed_object, merge, revision, shadowed, sort_by_id, FileStamp,
    LoadedDeviceType, Origin, Revision, RevisionDiff,
};
use c8y_opcua_gateway::text_map::TextMap;
use c8y_opcua_gateway::ua::{Double, Identifier, NodeId};

fn table() -> NamespaceTable {
    NamespaceTable::new(vec![
        "http://opcfoundation.org/UA/".into(),
        "urn:freeopcua:python:server".into(),
        "http://www.cumulocity.com".into(),
    ])
}

fn bits_of(v: f64) -> Double {
    Double { bits: v.to_bits() }
}

fn numeric(namespace: u16, id: u32) -> NodeId {
    NodeId::new(namespace, Identifier::Numeric(id))
}

fn named(namespace: u16, id: &str) -> NodeId {
    NodeId::new(namespace, Identifier::String(id.into()))
}

fn device_type() -> DeviceType {
    DeviceType {
        name: "x".into(),
        description: None,
        enabled: true,
        mappings: Vec::new(),
        apply_constraints: None,
        subscription_type: None,
        overridden_subscriptions: Vec::new(),
        referenced_root_node_id: None,
        referenced_namespace_table: Vec::new(),
        referenced_server_id: None,
        referenced_server_name: None,
        ua_event_mappings: None,
    }
}

fn constrained(server_ids: &[&str], node_ids: &[&str]) -> DeviceType {
    let mut dt = device_type();
    dt.apply_constraints = Some(ApplyConstraints {
        matches_server_ids: known(server_ids),
        matches_node_ids: known(node_ids),
        ..ApplyConstraints::default()
    });
    dt
}

fn known(ids: &[&str]) -> Vec<String> {
    ids.iter().map(|s| (*s).to_owned()).collect()
}

// Node ids and browse paths

#[test]
fn resolves_namespace_uri_containing_colons() {
    let qn = to_qualified_name(&table(), "http://www.cumulocity.com:Pump01");
    assert_eq!(qn.namespace_index, 2);
    assert_eq!(qn.name, "Pump01");
}

#[test]
fn resolves_urn_style_namespace_uri() {
    let qn = to_qualified_name(&table(), "urn:freeopcua:python:server:Boiler");
    assert_eq!(qn.namespace_index, 1);
    assert_eq!(qn.name, "Boiler");
}

#[test]
fn accepts_numeric_namespace_prefix_and_plain_name() {
    assert_eq!(to_qualified_name(&table(), "2:Pump01").namespace_index, 2);
    let plain = to_qualified_name(&table(), "Objects");
    assert_eq!(plain.namespace_index, 0);
    assert_eq!(plain.name, "Objects");
}

#[test]
fn unresolvable_prefix_falls_back_to_namespace_zero() {
    let qn = to_qualified_name(&table(), "http://unknown.example/:Thing");
    assert_eq!(qn.namespace_index, 0);
    assert_eq!(qn.name, "http://unknown.example/:Thing");
}

#[test]
fn the_last_resolvable_prefix_wins_and_names_may_hold_colons() {
    // Neither `2:a` nor `2:a:b` is a namespace, so the delimiter floats back to the first colon.
    let qn = to_qualified_name(&table(), "2:a:b:c");
    assert_eq!(qn.namespace_index, 2);
    assert_eq!(qn.name, "a:b:c");
    // An index that does not fit sixteen bits is no namespace.
    let qn = to_qualified_name(&table(), "65536:a");
    assert_eq!(qn.namespace_index, 0);
    assert_eq!(qn.name, "65536:a");
    let qn = to_qualified_name(&table(), "+1:");
    assert_eq!(qn.namespace_index, 1);
    assert_eq!(qn.name, "");
}

#[test]
fn whole_paths_are_converted_segment_by_segment() {
    let path = to_qualified_names(&table(), &known(&["2:Pump01", "Flow"]));
    assert_eq!(path.len(), 2);
    assert_eq!(path[0].namespace_index, 2);
    assert_eq!(path[0].name, "Pump01");
    assert_eq!(path[1].namespace_index, 0);
    assert_eq!(path[1].name, "Flow");
}

#[test]
fn regex_segments_are_recognised() {
    assert!(is_regex("regex(.*)"));
    assert!(is_regex("regex()"));
    assert!(!is_regex("regex("));
    assert!(!is_regex("2:regex(.*)"));
    assert!(!is_regex(""));
}

#[test]
fn namespace_tables_are_looked_up_both_ways() {
    let t = NamespaceTable::new(known(&["a", "b", "a"]));
    assert_eq!(t.index_of("a"), Some(0));
    assert_eq!(t.index_of("b"), Some(1));
    assert_eq!(t.index_of("c"), None);
    assert_eq!(t.uri_of(2), Some("a"));
    assert_eq!(t.uri_of(3), None);
    assert_eq!(t.uris().len(), 3);
}

#[test]
fn parses_root_node_id_with_namespace_uri() {
    let id = parse_node_id(&table(), "nsu=http://www.cumulocity.com;i=84").expect("parses");
    assert_eq!(id, numeric(2, 84));
}

#[test]
fn parses_plain_and_indexed_node_ids() {
    assert_eq!(parse_node_id(&table(), "i=85").expect("parses"), numeric(0, 85));
    assert_eq!(
        parse_node_id(&table(), "ns=2;s=Temp").expect("parses"),
        named(2, "Temp")
    );
}

#[test]
fn rejects_unknown_namespace_uri() {
    assert!(matches!(
        parse_node_id(&table(), "nsu=http://nope/;i=1"),
        Err(MappingError::UnknownNamespace(_))
    ));
}

#[test]
fn node_id_errors_say_what_is_wrong() {
    let e = parse_node_id(&table(), "nsu=http://Nope/;i=1").expect_err("unknown");
    assert_eq!(e, MappingError::UnknownNamespace("http://Nope/".into()));
    assert_eq!(
        e.message(),
        "namespace uri `http://Nope/` is not in the server namespace table"
    );
    for bad in ["", "i", "i=", "i=x", "i=4294967296", "x=1", "ns=70000;i=1", "ns=;i=1", "g=nope", "b=%"] {
        let e = parse_node_id(&table(), bad).expect_err(bad);
        assert_eq!(e, MappingError::InvalidNodeId(bad.into()));
        assert_eq!(e.message(), format!("invalid node id `{bad}`"));
    }
}

#[test]
fn node_id_heads_are_case_insensitive_and_bounded() {
    assert_eq!(parse_node_id(&table(), "NS=2;i=1").expect("ok"), numeric(2, 1));
    assert_eq!(
        parse_node_id(&table(), "SVR=1;NSU=http://www.cumulocity.com;s=a;b").expect("ok"),
        named(2, "a;b")
    );
    // At most three heads are taken off.
    assert!(parse_node_id(&table(), "svr=1;svr=1;svr=1;svr=1;i=1").is_err());
    assert!(parse_node_id(&table(), "svr=1;svr=1;svr=1;i=1").is_ok());
}

#[test]
fn node_id_texts_read_back() {
    let guid = parse_node_id(&table(), "ns=1;g=72962B91-FA75-4AE6-8D28-B404DC7DAF63").expect("guid");
    assert_eq!(node_id_to_text(&guid), "ns=1;g=72962b91-fa75-4ae6-8d28-b404dc7daf63");
    let bytes = parse_node_id(&table(), "b=AQID").expect("bytes");
    assert_eq!(bytes.identifier, Identifier::ByteString(vec![1, 2, 3]));
    assert_eq!(node_id_to_text(&bytes), "b=AQID");
    assert_eq!(node_id_to_text(&numeric(0, 84)), "i=84");
    assert_eq!(node_id_to_text(&numeric(65535, 4294967295)), "ns=65535;i=4294967295");
    assert_eq!(node_id_to_text(&named(2, "a;ns=3")), "ns=2;s=a;ns=3");
    for id in [guid, bytes, numeric(0, 84), numeric(65535, 4294967295), named(2, "a;ns=3"), named(0, "")] {
        let text = node_id_to_text(&id);
        assert_eq!(parse_node_id(&NamespaceTable::new(Vec::new()), &text).expect("reads back"), id);
    }
}

// Constraints

#[test]
fn empty_constraints_apply_everywhere() {
    let dt = constrained(&[], &[]);
    assert!(applies("1", &dt, "server-a", &known(&["server-a"]), &table()));
}

#[test]
fn server_id_constraint_is_honoured() {
    let dt = constrained(&["server-b"], &[]);
    let known = known(&["server-a", "server-b"]);
    assert!(!applies("1", &dt, "server-a", &known, &table()));
    assert!(applies("1", &dt, "server-b", &known, &table()));
}

#[test]
fn referenced_server_id_is_a_hint_not_a_filter() {
    let mut dt = device_type();
    dt.referenced_server_id = Some("4368970342".into());
    assert!(applies("1", &dt, "4368970342", &known(&["4368970342"]), &table()));
    assert!(applies("1", &dt, "another-server", &known(&["another-server"]), &table()));
}

#[test]
fn matches_server_ids_naming_only_unknown_servers_is_ignored() {
    // A device type authored in the OPC UA UI carries Cumulocity managed object ids here. Those
    // never equal a locally configured server id, so the constraint must not scope the device
    // type out of existence.
    let dt = constrained(&["34703"], &[]);
    assert!(applies("1", &dt, "plc-1", &known(&["plc-1", "plc-2"]), &table()));
}

#[test]
fn matches_server_ids_still_scopes_between_known_servers() {
    let dt = constrained(&["plc-2"], &[]);
    let ids = known(&["plc-1", "plc-2"]);
    assert!(!applies("1", &dt, "plc-1", &ids, &table()));
    assert!(applies("1", &dt, "plc-2", &ids, &table()));
}

#[test]
fn disabled_device_types_never_apply() {
    let mut dt = device_type();
    dt.enabled = false;
    assert!(!applies("1", &dt, "server-a", &known(&["server-a"]), &table()));
}

#[test]
fn node_id_constraint_compares_against_the_authored_root() {
    let mut dt = constrained(&[], &["i=84"]);
    dt.referenced_root_node_id = Some("nsu=http://opcfoundation.org/UA/;i=84".into());
    assert!(applies("1", &dt, "server-a", &known(&["server-a"]), &table()));
    let mut dt = constrained(&[], &["i=84"]);
    dt.referenced_root_node_id = Some("i=85".into());
    assert!(!applies("1", &dt, "server-a", &known(&["server-a"]), &table()));
}

#[test]
fn node_id_constraint_needs_a_readable_root() {
    let dt = constrained(&[], &["i=84"]);
    assert!(!applies("1", &dt, "a", &known(&["a"]), &table()));
    let mut dt = constrained(&[], &["broken", " i=84 "]);
    dt.referenced_root_node_id = Some("i=84".into());
    assert!(applies("1", &dt, "a", &known(&["a"]), &table()));
    dt.referenced_root_node_id = Some("broken".into());
    assert!(!applies("1", &dt, "a", &known(&["a"]), &table()));
}

#[test]
fn blank_server_ids_are_no_constraint() {
    let dt = constrained(&["  ", ""], &[" "]);
    assert!(applies("1", &dt, "a", &known(&["a", "b"]), &table()));
}

#[test]
fn server_ids_that_name_no_configured_server_are_ignored_and_said_to_be() {
    let c = |ids: &[&str]| constrained(ids, &[]).apply_constraints.expect("has one");
    let ids = known(&["plc-1", "plc-2"]);
    assert!(ignores_server_ids(&c(&["34703"]), "plc-1", &ids));
    assert!(!ignores_server_ids(&c(&["plc-2"]), "plc-1", &ids));
    assert!(!ignores_server_ids(&c(&["plc-1", "34703"]), "plc-1", &ids));
    assert!(!ignores_server_ids(&c(&[" "]), "plc-1", &ids));
}

#[test]
fn unsupported_constraints_are_named() {
    let mut c = ApplyConstraints::default();
    assert!(report_unsupported(&c).is_empty());
    c.browse_path_matches_regex = Some(" ".into());
    c.server_object_has_fragment = Some("x".into());
    c.server_has_node_with_values = Some(Json::Null);
    assert_eq!(
        report_unsupported(&c),
        vec![Unsupported::ServerObjectHasFragment, Unsupported::ServerHasNodeWithValues]
    );
    c.browse_path_matches_regex = Some(".*".into());
    assert_eq!(report_unsupported(&c)[0], Unsupported::BrowsePathMatchesRegex);
}

// Parameters

fn with_deadband(kind: Option<&str>, value: Option<f64>) -> SubscriptionParameters {
    SubscriptionParameters {
        deadband_type: kind.map(str::to_owned),
        deadband_value: value.map(bits_of),
        ..SubscriptionParameters::default()
    }
}

fn with_ranges(ranges: &str) -> SubscriptionParameters {
    SubscriptionParameters {
        ranges: Some(ranges.into()),
        ..SubscriptionParameters::default()
    }
}

fn with_trigger(trigger: &str) -> SubscriptionParameters {
    SubscriptionParameters {
        data_change_trigger: Some(trigger.into()),
        ..SubscriptionParameters::default()
    }
}

#[test]
fn subscription_parameter_defaults_match_the_java_gateway() {
    let p = SubscriptionParameters::default();
    assert_eq!(p.data_change_trigger(), DataChangeTrigger::StatusValue);
    assert!(p.discard_oldest());
    assert_eq!(p.deadband(), None);
    assert_eq!(p.index_range(), None);
    assert!(p.is_valid());
}

#[test]
fn deadband_needs_both_a_type_and_a_value() {
    assert_eq!(
        with_deadband(Some("Absolute"), Some(2.5)).deadband(),
        Some((Deadband::Absolute, bits_of(2.5)))
    );
    assert_eq!(
        with_deadband(Some("Percent"), Some(10.0)).deadband(),
        Some((Deadband::Percent, bits_of(10.0)))
    );
    // The UI writes "None" with a null value for "no deadband"; that is not a filter.
    assert_eq!(with_deadband(Some("None"), None).deadband(), None);
    assert_eq!(with_deadband(None, Some(5.0)).deadband(), None);
}

#[test]
fn invalid_parameters_are_rejected_before_subscribing() {
    assert!(!with_deadband(Some("Sideways"), Some(1.0)).is_valid());
    assert!(!with_trigger("Whenever").is_valid());
    assert!(!with_ranges("not-a-range").is_valid());
    assert!(with_ranges("1:5").is_valid());
    assert!(with_ranges("0:3,2:4").is_valid());
    assert!(with_ranges("").is_valid());
}

#[test]
fn index_range_ignores_blank_values() {
    assert_eq!(with_ranges("  ").index_range(), None);
    assert_eq!(with_ranges(" 1:5 ").index_range(), Some("1:5"));
}

#[test]
fn numeric_ranges_have_one_or_two_indices_per_dimension() {
    for good in [
        "0", "7", "4294967295", "1:2", "1:5", "1,2,3:4", "00000000001", "00000000001:00000000002",
        "1,2,3,4,5,6,7,8,9,10,11",
    ] {
        assert!(with_ranges(good).is_valid(), "{good}");
    }
    for bad in ["+7", "1:+2", "5:1", "1:1", "4294967296", "00004294967296", "1:4294967296", "1:", ":1", "1:2:3", "1,", ",", "1, 2", "-1", "+", "a"] {
        assert!(!with_ranges(bad).is_valid(), "{bad}");
    }
}

#[test]
fn triggers_are_read_as_written() {
    assert_eq!(with_trigger("Status").data_change_trigger(), DataChangeTrigger::Status);
    assert_eq!(
        with_trigger("StatusValueTimestamp").data_change_trigger(),
        DataChangeTrigger::StatusValueTimestamp
    );
    assert_eq!(with_trigger("status").data_change_trigger(), DataChangeTrigger::StatusValue);
    assert!(!with_trigger("status").is_valid());
    assert!(with_trigger("StatusValue").is_valid());
    assert!(with_deadband(Some("None"), None).is_valid());
    // `None` is a deadband type like the others: it means no filter, with a value or without.
    assert!(with_deadband(Some("None"), Some(0.0)).is_valid());
    assert_eq!(with_deadband(Some("None"), Some(0.0)).deadband(), None);
    assert!(with_deadband(Some("Sideways"), None).is_valid());
    let p = SubscriptionParameters {
        discard_oldest: Some(false),
        ..SubscriptionParameters::default()
    };
    assert!(!p.discard_oldest());
}

#[test]
fn subscription_kind_reads_the_device_type_field() {
    let of = |kind: Option<&str>| {
        SubscriptionType {
            type_: kind.map(str::to_owned),
            cyclic_read_parameters: None,
            subscription_parameters: None,
        }
        .kind()
    };
    assert_eq!(of(Some("Subscription")), SubscriptionKind::Subscription);
    assert_eq!(of(Some("cyclicread")), SubscriptionKind::CyclicRead);
    assert_eq!(of(Some("None")), SubscriptionKind::NoDelivery);
    assert_eq!(of(None), SubscriptionKind::NoDelivery);
    assert_eq!(of(Some(" SUBSCRIPTION\n")), SubscriptionKind::Subscription);
}

#[test]
fn cyclic_read_parameters_have_defaults() {
    let p = CyclicReadParameters { rate: Some(0), max_age: None };
    assert_eq!(p.rate_ms(), None);
    assert_eq!(p.max_age(), 0);
    let p = CyclicReadParameters { rate: Some(250), max_age: Some(7) };
    assert_eq!(p.rate_ms(), Some(250));
    assert_eq!(p.max_age(), 7);
}

#[test]
fn series_name_falls_back_to_node_id() {
    let m = MeasurementCreation {
        type_: None,
        series: Some("  ".into()),
        fragment_name: None,
        unit: None,
        static_fragments: None,
    };
    assert_eq!(m.series_name("ns=2;s=Temp"), "series_ns2sTemp");
    assert_eq!(m.fragment_name("ns=2;s=Temp"), "measurement_ns2sTemp");
}

#[test]
fn configured_series_names_are_trimmed() {
    let m = MeasurementCreation {
        type_: None,
        series: Some("\u{a0} flow \u{3000}".into()),
        fragment_name: Some("pump".into()),
        unit: None,
        static_fragments: None,
    };
    assert_eq!(m.series_name("ns=2;s=Temp"), "flow");
    assert_eq!(m.fragment_name("ns=2;s=Temp"), "pump");
}

// Resolving

fn entry(name: &str) -> MappingEntry {
    MappingEntry {
        name: Some(name.into()),
        browse_path: known(&["http://www.cumulocity.com:Pump01", &format!("http://www.cumulocity.com:{name}")]),
        referenced_node_id: None,
        measurement_creation: None,
        event_creation: None,
        alarm_creation: None,
        custom_action: None,
    }
}

fn measured(name: &str, unit: Option<&str>) -> MappingEntry {
    MappingEntry {
        measurement_creation: Some(MeasurementCreation {
            type_: Some(name.into()),
            series: Some(name.into()),
            fragment_name: Some("pump".into()),
            unit: unit.map(str::to_owned),
            static_fragments: None,
        }),
        ..entry(name)
    }
}

fn subscribed() -> SubscriptionType {
    SubscriptionType {
        type_: Some("Subscription".into()),
        cyclic_read_parameters: None,
        subscription_parameters: Some(SubscriptionParameters {
            sampling_rate: Some(bits_of(1_000.0)),
            queue_size: Some(10),
            data_change_trigger: Some("StatusValue".into()),
            discard_oldest: Some(true),
            ..SubscriptionParameters::default()
        }),
    }
}

/// A pump with ten mapping entries, one of which has no action. It is read every three seconds,
/// but for three entries that are subscribed to.
fn fixture() -> (String, DeviceType) {
    let mut status = entry("status");
    status.event_creation = Some(EventCreation {
        type_: Some("pumpState".into()),
        text: Some("Pump state ${value}".into()),
        static_fragments: None,
    });
    let mut alarm = entry("activeAlarm");
    alarm.alarm_creation = Some(AlarmCreation {
        type_: Some("pumpAlert".into()),
        text: Some("Pump in alert state".into()),
        severity: Some("CRITICAL".into()),
        static_fragments: None,
    });
    let mut dt = device_type();
    dt.name = "Pump01".into();
    dt.referenced_root_node_id = Some("i=84".into());
    dt.mappings = vec![
        measured("flow", Some("l/m")),
        measured("power", Some("W")),
        measured("pressure", Some("bar")),
        measured("temperature", Some("C")),
        measured("vibration", None),
        measured("speed", Some("rpm")),
        measured("operatingLevel", Some("%")),
        alarm,
        status,
        entry("filterDegradationRate"),
    ];
    dt.subscription_type = Some(SubscriptionType {
        type_: Some("CyclicRead".into()),
        cyclic_read_parameters: Some(CyclicReadParameters {
            rate: Some(3_000),
            max_age: Some(0),
        }),
        subscription_parameters: None,
    });
    dt.overridden_subscriptions = ["operatingLevel", "activeAlarm", "status"]
        .iter()
        .map(|name| OverriddenSubscription {
            browse_path: entry(name).browse_path,
            subscription_type: Some(subscribed()),
        })
        .collect();
    ("4168968253".to_owned(), dt)
}

fn resolve_all(plan: &mut Plan) {
    for (index, _) in plan.pending_paths() {
        plan.set_resolved(index, named(2, &format!("n{index}")));
    }
}

#[test]
fn plans_every_mapped_entry_from_the_real_device_type() {
    let (id, dt) = fixture();
    let plan = plan(&id, &dt, &table()).expect("plans");
    assert_eq!(plan.root_node_id, numeric(0, 84));
    // 10 mapping entries, one of which (filterDegradationRate) has no action at all.
    assert_eq!(plan.pending_paths().len(), 9);
}

#[test]
fn overridden_subscriptions_win_over_the_device_type_default() {
    let (id, dt) = fixture();
    let mut plan = plan(&id, &dt, &table()).expect("plans");
    resolve_all(&mut plan);
    let resolved = plan.finish();

    // The device type defaults to CyclicRead at 3000 ms and overrides three browse paths —
    // operatingLevel, activeAlarm and status — to Subscription.
    let subscribed = resolved.subscribed_nodes().len();
    assert_eq!(subscribed, 3);
    assert_eq!(resolved.nodes.len() - subscribed, 6);

    let groups = resolved.read_groups();
    assert_eq!(groups.len(), 1);
    let schedule = groups[0].0;
    assert_eq!(schedule.rate_ms, 3_000);
    assert_eq!(schedule.max_age_ms, 0);
    assert_eq!(groups[0].1.len(), 6);
}

#[test]
fn subscribed_nodes_carry_the_overridden_parameters() {
    let (id, dt) = fixture();
    let mut plan = plan(&id, &dt, &table()).expect("plans");
    resolve_all(&mut plan);
    let resolved = plan.finish();

    let nodes = resolved.subscribed_nodes();
    let params = nodes
        .first()
        .copied()
        .and_then(ResolvedNode::subscription_parameters)
        .expect("a subscribed node");
    assert_eq!(params.sampling_rate, Some(bits_of(1_000.0)));
    assert_eq!(params.queue_size, Some(10));
    assert_eq!(params.data_change_trigger(), DataChangeTrigger::StatusValue);
    assert!(params.discard_oldest());
    assert_eq!(params.deadband(), None);
}

#[test]
fn unresolved_entries_are_dropped_not_fatal() {
    let (id, dt) = fixture();
    let mut plan = plan(&id, &dt, &table()).expect("plans");
    plan.set_resolved(0, named(2, "flow"));
    let resolved = plan.finish();
    assert_eq!(resolved.nodes.len(), 1);
    assert_eq!(resolved.nodes[0].node_id, named(2, "flow"));
    assert_eq!(resolved.nodes[0].node_id_str, "ns=2;s=flow");
    assert_eq!(resolved.root_node_id, "i=84");
}

#[test]
fn measurement_units_are_grouped_by_type() {
    let (id, dt) = fixture();
    let mut plan = plan(&id, &dt, &table()).expect("plans");
    resolve_all(&mut plan);
    let units = plan.finish().measurement_units();
    assert_eq!(units.get("flow"), Some(&vec![("flow".to_owned(), "l/m".to_owned())]));
    assert_eq!(units.get("power"), Some(&vec![("power".to_owned(), "W".to_owned())]));
    assert!(units.get("vibration").is_none());
    assert_eq!(units.len(), 6);
    assert_eq!(units.key_at(0), "flow");
}

#[test]
fn resolving_settles_one_entry_at_a_time() {
    let (id, dt) = fixture();
    let mut plan = plan(&id, &dt, &table()).expect("plans");
    plan.set_resolved(3, numeric(1, 1));
    plan.set_resolved(99, numeric(1, 1));
    let pending: Vec<usize> = plan.pending_paths().iter().map(|(i, _)| *i).collect();
    assert_eq!(pending, vec![0, 1, 2, 4, 5, 6, 7, 8]);
    assert_eq!(plan.entry_name(3), "temperature");
    assert_eq!(plan.entry_name(9), "<unknown>");
}

#[test]
fn unusable_entries_are_left_out_of_the_plan() {
    let mut dt = device_type();
    let mut regex = measured("a", None);
    regex.browse_path = known(&["regex(.*)"]);
    let mut nowhere = measured("b", None);
    nowhere.browse_path = Vec::new();
    let mut broken = measured("c", None);
    broken.referenced_node_id = Some("ns=x;i=1".into());
    let mut known_node = measured("d", None);
    known_node.name = None;
    known_node.referenced_node_id = Some("ns=2;i=5".into());
    let mut untyped = measured("e", None);
    untyped.measurement_creation.as_mut().expect("has one").type_ = Some(" ".into());
    let mut empty_id = measured("f", None);
    empty_id.referenced_node_id = Some(String::new());
    dt.mappings = vec![regex, nowhere, broken, known_node, untyped, empty_id];
    // Without a subscription type nothing is delivered at all.
    let idle = plan("1", &dt, &table()).expect("plans");
    assert_eq!(idle.problems[3], ("<unnamed>".to_owned(), EntryProblem::NoDelivery));
    assert_eq!(idle.finish().nodes.len(), 0);
    dt.subscription_type = Some(SubscriptionType {
        type_: Some("CyclicRead".into()),
        cyclic_read_parameters: None,
        subscription_parameters: None,
    });
    let p = plan("1", &dt, &table()).expect("plans");
    assert_eq!(
        p.problems,
        vec![
            ("a".to_owned(), EntryProblem::Regex),
            ("b".to_owned(), EntryProblem::NoNode),
            ("c".to_owned(), EntryProblem::UnusableNodeId),
        ]
    );
    assert_eq!(p.entry_name(0), "<unnamed>");
    assert_eq!(p.entry_name(1), "f");
    assert_eq!(p.pending_paths().len(), 1);
    let resolved = p.finish();
    assert_eq!(resolved.nodes.len(), 1);
    assert_eq!(resolved.nodes[0].node_id, numeric(2, 5));
    // The rate falls back to five seconds.
    let groups = resolved.read_groups();
    assert_eq!(groups[0].0.rate_ms, 5_000);
}

#[test]
fn an_override_without_a_usable_type_switches_an_entry_off() {
    let (id, mut dt) = fixture();
    dt.overridden_subscriptions.insert(
        0,
        OverriddenSubscription {
            browse_path: entry("flow").browse_path,
            subscription_type: None,
        },
    );
    // One without a path counts for nothing.
    dt.overridden_subscriptions.insert(
        0,
        OverriddenSubscription {
            browse_path: Vec::new(),
            subscription_type: None,
        },
    );
    assert_eq!(plan(&id, &dt, &table()).expect("plans").pending_paths().len(), 8);
    dt.referenced_root_node_id = Some("nsu=http://nope;i=84".into());
    assert!(matches!(
        plan(&id, &dt, &table()),
        Err(MappingError::UnknownNamespace(_))
    ));
}

#[test]
fn entries_share_a_node_only_with_the_same_delivery() {
    let (id, dt) = fixture();
    let mut plan = plan(&id, &dt, &table()).expect("plans");
    for (index, _) in plan.pending_paths() {
        plan.set_resolved(index, numeric(2, 1));
    }
    let resolved = plan.finish();
    assert_eq!(resolved.nodes.len(), 2);
    assert_eq!(resolved.nodes[0].actions.len(), 6);
    assert_eq!(resolved.nodes[1].actions.len(), 3);
    assert!(resolved.nodes[0].read_schedule().is_some());
    assert!(resolved.nodes[1].read_schedule().is_none());
}

#[test]
fn read_groups_are_ordered_by_schedule() {
    let mut dt = device_type();
    let cyclic = |rate: u64, age: u64| {
        Some(SubscriptionType {
            type_: Some("CyclicRead".into()),
            cyclic_read_parameters: Some(CyclicReadParameters {
                rate: Some(rate),
                max_age: Some(age),
            }),
            subscription_parameters: None,
        })
    };
    dt.subscription_type = cyclic(500, 1);
    for (name, rate, age) in [("a", 1000, 5), ("b", 500, 0), ("c", 1000, 5), ("d", 500, 1)] {
        dt.mappings.push(measured(name, None));
        dt.overridden_subscriptions.push(OverriddenSubscription {
            browse_path: entry(name).browse_path,
            subscription_type: cyclic(rate, age),
        });
    }
    let mut plan = plan("1", &dt, &table()).expect("plans");
    resolve_all(&mut plan);
    let resolved = plan.finish();
    let groups: Vec<(u64, u64, usize)> = resolved
        .read_groups()
        .iter()
        .map(|(s, nodes)| (s.rate_ms, s.max_age_ms, nodes.len()))
        .collect();
    assert_eq!(groups, vec![(500, 0, 1), (500, 1, 1), (1000, 5, 2)]);
}

// Sources

fn marker(id: &str, origin: Origin, fingerprint: &str) -> (String, (Origin, String)) {
    (id.to_owned(), (origin, fingerprint.to_owned()))
}

fn revision_from(markers: Vec<(String, (Origin, String))>) -> Revision {
    let mut out: Revision = TextMap::new();
    for (id, m) in markers {
        out.insert(id, m);
    }
    out
}

fn loaded(id: &str, origin: Origin, fingerprint: &str) -> LoadedDeviceType {
    LoadedDeviceType {
        id: id.into(),
        origin,
        fingerprint: fingerprint.into(),
        device_type: Arc::new(device_type()),
    }
}

fn ids(loaded: &[LoadedDeviceType]) -> Vec<&str> {
    loaded.iter().map(|l| l.id.as_str()).collect()
}

#[test]
fn a_revision_diff_names_what_moved() {
    let before = revision_from(vec![
        marker("a", Origin::Pull, "t1"),
        marker("b", Origin::Pull, "t1"),
    ]);
    let after = revision_from(vec![
        marker("a", Origin::Pull, "t2"),
        marker("c", Origin::Push, "t1"),
    ]);

    let diff = RevisionDiff::between(&before, &after);
    assert_eq!(diff.changed, vec!["a".to_owned()]);
    assert_eq!(diff.added, vec!["c".to_owned()]);
    assert_eq!(diff.removed, vec!["b".to_owned()]);
    assert!(!diff.is_empty());

    assert!(RevisionDiff::between(&after, &after).is_empty());
}

/// The same fingerprint served by the other source is still a change: which file won moved.
#[test]
fn taking_over_a_device_type_counts_as_a_change() {
    let before = revision_from(vec![marker("a", Origin::Pull, "t1")]);
    let after = revision_from(vec![marker("a", Origin::Push, "t1")]);
    assert_eq!(
        RevisionDiff::between(&before, &after).changed,
        vec!["a".to_owned()]
    );
}

fn managed_object(id: &str, updated: Option<&str>, device_type: Option<DeviceType>) -> ManagedObject {
    ManagedObject {
        id: id.into(),
        name: None,
        last_updated: updated.map(str::to_owned),
        device_type,
        fragments: TextMap::new(),
    }
}

#[test]
fn pushed_files_win_over_pulled_device_types() {
    let (id, dt) = fixture();
    let pulled =
        vec![from_managed_object(managed_object(&id, None, Some(dt))).expect("has device type")];
    let mut pushed = pulled.clone();
    pushed[0].origin = Origin::Push;
    let mut renamed = fixture().1;
    renamed.name = "local override".into();
    pushed[0].device_type = Arc::new(renamed);

    let merged = merge(pulled, pushed);
    assert_eq!(merged.len(), 1);
    assert_eq!(merged[0].origin, Origin::Push);
    assert_eq!(merged[0].device_type.name, "local override");
}

#[test]
fn managed_objects_without_a_device_type_are_passed_over() {
    assert!(from_managed_object(managed_object("1", None, None)).is_none());
    let l = from_managed_object(managed_object("1", Some("t1"), Some(device_type()))).expect("one");
    assert_eq!(l.id, "1");
    assert_eq!(l.origin, Origin::Pull);
    assert_eq!(l.fingerprint, "t1");
}

#[test]
fn merged_sources_are_ordered_and_unique() {
    let pulled = vec![loaded("b", Origin::Pull, "1"), loaded("a", Origin::Pull, "1")];
    let pushed = vec![loaded("c", Origin::Push, "1"), loaded("b", Origin::Push, "2")];
    let merged = merge(pulled.clone(), pushed);
    assert_eq!(ids(&merged), vec!["a", "b", "c"]);
    assert_eq!(merged[0].origin, Origin::Pull);
    assert_eq!(merged[1].origin, Origin::Push);
    assert_eq!(shadowed(&pulled, &merged), vec!["b".to_owned()]);
    let r = revision(&merged);
    assert_eq!(r.get("b"), Some(&(Origin::Push, "2".to_owned())));
    assert_eq!(r.len(), 3);
}

#[test]
fn sorting_by_id_is_stable() {
    let sorted = sort_by_id(vec![
        loaded("b", Origin::Push, "1"),
        loaded("a", Origin::Push, "1"),
        loaded("b", Origin::Push, "2"),
        loaded("", Origin::Push, "1"),
        loaded("ab", Origin::Push, "1"),
    ]);
    assert_eq!(ids(&sorted), vec!["", "a", "ab", "b", "b"]);
    assert_eq!(sorted[3].fingerprint, "1");
    assert_eq!(sorted[4].fingerprint, "2");
}

#[test]
fn mapping_files_hold_an_object_or_a_fragment() {
    let stamp = Some(FileStamp { len: 12, modified_ms: Some(3) });
    let l = from_file(Some(managed_object("7", None, Some(device_type()))), None, stamp, Some("pump"))
        .expect("an object");
    assert_eq!(l.id, "7");
    assert_eq!(l.origin, Origin::Push);
    assert_eq!(l.fingerprint, "12:3");
    let l = from_file(Some(managed_object("", None, Some(device_type()))), None, None, Some("pump"))
        .expect("an object without an id");
    assert_eq!(l.id, "pump");
    assert_eq!(l.fingerprint, "");
    let l = from_file(
        Some(managed_object("7", None, None)),
        Some(device_type()),
        Some(FileStamp { len: 5, modified_ms: None }),
        None,
    )
    .expect("a fragment");
    assert_eq!(l.id, "unnamed");
    assert_eq!(l.fingerprint, "5:0");
    assert!(from_file(None, None, stamp, Some("pump")).is_none());
}

#[test]
fn directories_are_read_in_a_fixed_order() {
    let names = known(&["b.toml", "notes.md", "a.json", ".toml", "B.toml", "toml", "a.toml.bak", "..toml", "x.a.json"]);
    assert_eq!(server_files(names.clone()), known(&["..toml", "B.toml", "b.toml"]));
    assert_eq!(mapping_files(names.clone()), known(&["a.json", "x.a.json"]));
    for name in names {
        let counts = std::path::Path::new(&name).extension().map_or(false, |e| e == "toml");
        assert_eq!(server_files(vec![name.clone()]).len() == 1, counts, "{name}");
    }
}

#[test]
fn text_maps_keep_their_keys_in_order() {
    let mut m: TextMap<u32> = TextMap::new();
    assert!(m.is_empty());
    for (i, k) in ["b", "\u{10ffff}", "", "\u{e000}", "a", "ab", "b"].iter().enumerate() {
        m.insert((*k).to_owned(), i as u32);
    }
    let keys: Vec<&str> = (0..m.len()).map(|i| m.key_at(i).as_str()).collect();
    let mut expected = vec!["b", "\u{10ffff}", "", "\u{e000}", "a", "ab"];
    expected.sort();
    assert_eq!(keys, expected);
    assert_eq!(m.get("b"), Some(&6));
    assert_eq!(m.remove("b"), Some(6));
    assert_eq!(m.remove("b"), None);
    assert!(!m.contains("b"));
    assert_eq!(m.into_values(), vec![2, 4, 5, 3, 1]);
}
