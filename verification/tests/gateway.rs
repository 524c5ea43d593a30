//! The gateway: configuration, servers, device types and operations.
use std::sync::Arc;
use std::time::Duration;

use c8y_opcua_gateway::clock::next_backoff;
use c8y_opcua_gateway::cloud_servers::{
    adopt, child_references, credentials, is_server_object, next_page, revision_of,
    skip_reason, to_server_config, Adoption, CloudPoll, SkipReason,
};
use c8y_opcua_gateway::config::{
    check_pushed, device_id_of_output, merge_servers, Config, ConfigError, GatewayConfig, ServerConfig,
};
use c8y_opcua_gateway::conn::{SecurityMode, SubscriptionParams};
use c8y_opcua_gateway::device_types::{self, DeviceTypePoll};
use c8y_opcua_gateway::gateway_device::{entity, missing_object_help, register};
use c8y_opcua_gateway::json::Json;
use c8y_opcua_gateway::model::{DeviceType, Statistics};
use c8y_opcua_gateway::mqtt::{self, Payload, TedgeMqtt};
use c8y_opcua_gateway::operations::{
    answer, failure_record, is_operation_topic, operation_fragment, smartrest_field,
};
use c8y_opcua_gateway::proxy::{self, ProxyError};
use c8y_opcua_gateway::session::{Phase, ServerSession, SessionEvent, SessionStep};
use c8y_opcua_gateway::source::{LoadedDeviceType, Origin};
use c8y_opcua_gateway::supervisor::{desired_servers, Supervisor};
use c8y_opcua_gateway::text_map::TextMap;

fn object(members: Vec<(&str, Json)>) -> Json {
    let mut map: TextMap<Json> = TextMap::new();
    for (name, value) in members {
        map.insert(name.to_owned(), value);
    }
    Json::Object(map)
}

fn text(s: &str) -> Json {
    Json::String(s.to_owned())
}

// Configuration

/// A default configuration has the gateway device on, so no server yet is a valid state: servers
/// arrive from Cumulocity. Turning it off removes every possible source.
#[test]
fn starting_without_servers_is_allowed_only_with_the_gateway_device() {
    let mut config = Config::default();
    config.gateway.device_id = "tedge001".into();
    config.validate(false).expect("no servers yet is fine");

    config.gateway.enabled = false;
    let err = config.validate(false).expect_err("must fail");
    assert!(err.message().contains("no server can ever arrive"));
}

#[test]
fn the_gateway_device_needs_a_device_id() {
    let err = Config::default().validate(false).expect_err("must fail");
    assert!(err.message().contains("gateway.device_id"));
}

#[test]
fn external_ids_follow_thin_edges_own_shape() {
    let gateway = GatewayConfig {
        device_id: "tedge001".into(),
        id: "opcua-gateway".into(),
        ..GatewayConfig::default()
    };
    assert_eq!(gateway.external_id(), "tedge001:device:opcua-gateway");
    assert_eq!(
        gateway.server_external_id("3769051265"),
        "tedge001:device:opcua-gateway:device:3769051265"
    );
    assert_ne!(gateway.server_external_id("1"), gateway.server_external_id("2"));
}

#[test]
fn an_adopted_server_is_addressed_by_managed_object_id() {
    let mut s = server("3769051265");
    assert_eq!(s.topic_id(), "3769051265");
    assert!(!s.is_adopted());

    s.name = "Cooling line PLC".into();
    s.topic_id = Some("3769051265".into());
    s.external_id = Some("tedge001:device:opcua-gateway:device:3769051265".into());
    assert_eq!(s.topic_id(), "3769051265");
    assert!(s.is_adopted());
}

fn server(id: &str) -> ServerConfig {
    ServerConfig {
        id: id.into(),
        name: id.into(),
        url: "opc.tcp://localhost:4840".into(),
        security_policy: "None".into(),
        user: None,
        password: None,
        device_types: Vec::new(),
        external_id: None,
        topic_id: None,
    }
}

#[test]
fn an_empty_device_type_list_accepts_everything() {
    let s = server("plc-1");
    assert!(s.accepts_device_type("4168968253"));
    assert!(s.accepts_device_type("anything"));
}

#[test]
fn a_device_type_list_scopes_the_server() {
    let mut s = server("plc-1");
    s.device_types = vec!["4168968253".into(), " padded ".into()];
    assert!(s.accepts_device_type("4168968253"));
    assert!(s.accepts_device_type("padded"));
    assert!(!s.accepts_device_type("9999999999"));
}

#[test]
fn pushed_server_files_override_inline_entries_by_id() {
    let mut pushed = server("plc-1");
    pushed.url = "opc.tcp://pushed:4840".into();
    let merged = merge_servers(vec![server("plc-1"), server("plc-2")], vec![pushed]);
    assert_eq!(merged.len(), 2);
    assert_eq!(merged[0].url, "opc.tcp://pushed:4840");
    assert_eq!(merged[1].id, "plc-2");
}

#[test]
fn pushed_server_files_add_servers_the_config_does_not_mention() {
    let merged = merge_servers(vec![server("plc-1")], vec![server("plc-9")]);
    assert_eq!(merged.len(), 2);
    assert_eq!(merged[1].id, "plc-9");
}

#[test]
fn an_id_that_two_pushed_files_share_is_reported() {
    assert_eq!(check_pushed(&vec![server("a"), server("b")]), Ok(()));
    assert_eq!(check_pushed(&Vec::new()), Ok(()));
    let twice = vec![server("a"), server("b"), server("c"), server("b"), server("a")];
    assert_eq!(
        check_pushed(&twice),
        Err(ConfigError::DuplicateServerId { id: "b".into() })
    );
}

/// A configuration that passes validation, to isolate what each test is actually asserting.
fn valid_config() -> Config {
    let mut config = Config::default();
    config.gateway.device_id = "tedge001".into();
    config.servers.push(server("plc-1"));
    config.validate(false).expect("valid to begin with");
    config
}

#[test]
fn duplicate_server_ids_are_rejected() {
    let mut config = valid_config();
    config.servers.push(server("plc-1"));
    let err = config.validate(false).expect_err("must fail");
    assert!(err.message().contains("share the id"), "{err:?}");
}

#[test]
fn rejects_non_opc_tcp_urls() {
    let mut config = valid_config();
    let mut bad = server("2");
    bad.url = "http://localhost:4840".into();
    config.servers.push(bad);
    let err = config.validate(false).expect_err("must fail");
    assert!(err.message().contains("opc.tcp://"), "{err:?}");
}

#[test]
fn every_fault_of_a_configuration_has_its_error() {
    let check = |change: fn(&mut Config), expected: ConfigError| {
        let mut config = valid_config();
        change(&mut config);
        assert_eq!(config.validate(false), Err(expected));
    };
    check(|c| c.gateway.id = " ".into(), ConfigError::EmptyGatewayId);
    check(|c| c.gateway.device_id = "\t".into(), ConfigError::EmptyDeviceId);
    check(|c| c.gateway.server_poll_interval_secs = 0, ConfigError::ZeroPollInterval);
    check(|c| c.runtime.worker_threads = 0, ConfigError::NoWorkerThreads);
    check(|c| c.subscription.channel_capacity = 0, ConfigError::ZeroChannelCapacity);
    check(|c| c.subscription.publishing_interval_ms = 0, ConfigError::ZeroPublishingInterval);
    check(|c| c.subscription.flush_interval_ms = 0, ConfigError::ZeroFlushInterval);
    check(|c| c.servers[0].id = " ".into(), ConfigError::EmptyServerId);
    check(
        |c| c.servers[0].name = "".into(),
        ConfigError::EmptyServerName { id: "plc-1".into() },
    );
    check(
        |c| c.servers[0].security_policy = "Basic256Sha256".into(),
        ConfigError::UnsupportedSecurityPolicy {
            id: "plc-1".into(),
            policy: "Basic256Sha256".into(),
        },
    );
    check(
        |c| c.proxy.enabled = false,
        ConfigError::NoMappingSource { dir: "/etc/tedge/opcua".into() },
    );
    let mut config = valid_config();
    config.proxy.enabled = false;
    config.servers[0].security_policy = "NONE".into();
    assert_eq!(config.validate(true), Ok(()));
}

#[test]
fn configuration_errors_are_told_in_words() {
    assert_eq!(
        ConfigError::NoServers { dir: "/etc/x".into() }.message(),
        "no OPC UA servers configured and gateway.enabled is false, so no server can ever arrive: \
         add a [[servers]] entry, a file in /etc/x/servers, or enable the gateway device"
    );
    assert_eq!(
        ConfigError::DuplicateServerId { id: "a\"b".into() }.message(),
        "two servers share the id \"a\\\"b\"; ids must be unique"
    );
    assert_eq!(
        ConfigError::UnsupportedUrl { id: "2".into(), url: "http://x".into() }.message(),
        "server 2 has url \"http://x\": only opc.tcp:// endpoints are supported"
    );
    assert_eq!(
        ConfigError::UnsupportedSecurityPolicy { id: "2".into(), policy: "B".into() }.message(),
        "server 2 requests security_policy \"B\", but only \"None\" is supported: secured endpoints \
         need an application instance certificate, which this gateway does not yet accept from \
         configuration"
    );
    assert_eq!(
        ConfigError::EmptyServerName { id: "2".into() }.message(),
        "server 2 needs a name for its thin-edge child device"
    );
    assert_eq!(ConfigError::NoWorkerThreads.message(), "runtime.worker_threads must be at least 1");
}

#[test]
fn defaults_and_durations() {
    let mut config = Config::default();
    assert_eq!(config.connect_timeout(), Duration::from_secs(30));
    assert_eq!(config.max_backoff(), Duration::from_secs(60));
    assert_eq!(config.server_poll_interval(), Duration::from_secs(60));
    config.gateway.server_poll_interval_secs = 0;
    assert_eq!(config.server_poll_interval(), Duration::from_secs(1));
    let m = mqtt::MqttConfig::from(&config.mqtt);
    assert_eq!(m.keep_alive, Duration::from_secs(60));
    assert_eq!(m.client_id, "c8y-opcua-gateway");
    assert_eq!(m.service_name, "opcua-gateway");
    let p = proxy::ProxyConfig::from(&config.proxy);
    assert_eq!(p.timeout, Duration::from_secs(30));
    assert_eq!(p.base_url, "http://127.0.0.1:8001/c8y");
    let s = SubscriptionParams::from(&config.subscription);
    assert_eq!(s.publishing_interval, Duration::from_millis(100));
    assert_eq!(s.lifetime_count, 600);
    assert_eq!(SubscriptionParams::default().publishing_interval, Duration::from_millis(100));
    assert!(config.needs_device_id());
    config.gateway.enabled = false;
    assert!(!config.needs_device_id());
    assert_eq!(device_id_of_output(" tedge001\n"), Some("tedge001"));
    assert_eq!(device_id_of_output("\n"), None);
}

#[test]
fn endpoints_need_both_halves_of_the_credentials() {
    let mut s = server("plc");
    s.user = Some("u".into());
    assert!(s.endpoint().user.is_none());
    s.password = Some("p".into());
    let e = s.endpoint();
    assert_eq!(e.url, "opc.tcp://localhost:4840");
    assert_eq!(e.message_security_mode, SecurityMode::Unsecured);
    let c = e.user.expect("both");
    assert_eq!((c.user.as_str(), c.password.as_str()), ("u", "p"));
    s.security_policy = "Basic256Sha256".into();
    assert_eq!(s.endpoint().message_security_mode, SecurityMode::SignAndEncrypt);
}

#[test]
fn backoff_doubles_up_to_its_limit() {
    let mut waits = vec![1u64];
    for _ in 0..8 {
        waits.push(next_backoff(*waits.last().expect("one"), 60));
    }
    assert_eq!(waits, vec![1, 2, 4, 8, 16, 32, 60, 60, 60]);
    assert_eq!(next_backoff(1, 0), 0);
    assert_eq!(next_backoff(u64::MAX, u64::MAX), u64::MAX);
}

// Servers registered in Cumulocity

fn config() -> Config {
    let mut config = Config::default();
    config.gateway.device_id = "tedge001".into();
    config
}

fn with_client_config(members: Vec<(&str, Json)>) -> Json {
    object(vec![("c8y_ua_ClientConfig", object(members))])
}

#[test]
fn a_server_object_becomes_a_runnable_server() {
    let mo = object(vec![
        ("id", text("3769051265")),
        ("name", text("opcserver")),
        ("type", text("c8y_OpcuaServer")),
        (
            "c8y_ua_ClientConfig",
            object(vec![
                ("serverUrl", text("opc.tcp://opcserver:4840")),
                ("securityMode", text("NONE")),
                ("userIdentityMode", text("Anonymous")),
                ("targetConnectionState", text("enabled")),
            ]),
        ),
    ]);
    assert!(is_server_object(&mo));
    let server = to_server_config(&config(), "3769051265", &mo).expect("runnable");

    // The local id is the managed object id, which is what `matchesServerIds` names.
    assert_eq!(server.id, "3769051265");
    assert_eq!(server.name, "opcserver");
    assert_eq!(server.url, "opc.tcp://opcserver:4840");
    assert_eq!(server.security_policy, "None");
    assert_eq!(server.topic_id(), "3769051265");
    assert_eq!(
        server.external_id.as_deref(),
        Some("tedge001:device:opcua-gateway:device:3769051265")
    );
    assert!(server.is_adopted());
}

#[test]
fn a_disabled_server_is_not_started() {
    let mo = with_client_config(vec![
        ("serverUrl", text("opc.tcp://opcserver:4840")),
        ("targetConnectionState", text("disabled")),
    ]);
    assert!(to_server_config(&config(), "1", &mo).is_none());
}

#[test]
fn a_secured_endpoint_is_reported_rather_than_half_connected() {
    let mo = with_client_config(vec![
        ("serverUrl", text("opc.tcp://opcserver:4840")),
        ("securityMode", text("SIGN_AND_ENCRYPT")),
    ]);
    assert!(to_server_config(&config(), "1", &mo).is_none());
}

#[test]
fn an_encrypted_password_cannot_be_used_here() {
    let mo = with_client_config(vec![
        ("serverUrl", text("opc.tcp://opcserver:4840")),
        ("userIdentityMode", text("UsernamePassword")),
        ("userName", text("operator")),
        ("userPassword", text("AAAA...")),
        ("passwordEncrypted", Json::Bool(true)),
    ]);
    assert!(to_server_config(&config(), "1", &mo).is_none());
}

#[test]
fn a_plain_password_is_carried_through() {
    let mo = with_client_config(vec![
        ("serverUrl", text("opc.tcp://opcserver:4840")),
        ("userIdentityMode", text("UsernamePassword")),
        ("userName", text("operator")),
        ("userPassword", text("secret")),
        ("passwordEncrypted", Json::Bool(false)),
    ]);
    let server = to_server_config(&config(), "1", &mo).expect("runnable");
    assert_eq!(server.user.as_deref(), Some("operator"));
    assert_eq!(server.password.as_deref(), Some("secret"));
}

#[test]
fn a_missing_client_config_is_skipped() {
    let mo = object(vec![("id", text("1")), ("type", text("c8y_OpcuaServer"))]);
    assert!(to_server_config(&config(), "1", &mo).is_none());
}

#[test]
fn servers_without_a_url_or_usable_credentials_are_skipped() {
    assert!(to_server_config(&config(), "1", &with_client_config(vec![("serverUrl", text(" "))])).is_none());
    assert!(to_server_config(&config(), "1", &with_client_config(vec![("serverUrl", Json::Null)])).is_none());
    let with = |user: Json, password: Json| {
        credentials(&object(vec![
            ("userIdentityMode", text("UsernamePassword")),
            ("userName", user),
            ("userPassword", password),
        ]))
    };
    assert_eq!(with(text(" "), text("p")), Err(()));
    assert_eq!(with(text("u"), text("")), Err(()));
    assert_eq!(with(Json::Null, text("p")), Err(()));
    assert_eq!(with(text("u"), text(" ")), Ok((Some("u".into()), Some(" ".into()))));
    assert_eq!(credentials(&object(vec![])), Ok((None, None)));
    let unnamed = to_server_config(&config(), "7", &with_client_config(vec![("serverUrl", text("opc.tcp://a"))]))
        .expect("runnable");
    assert_eq!(unnamed.name, "7");
}

#[test]
fn skipped_servers_have_a_reason() {
    let url = || ("serverUrl", text("opc.tcp://a"));
    let user = || ("userIdentityMode", text("UsernamePassword"));
    let cases = vec![
        (object(vec![]), Some(SkipReason::NoClientConfig)),
        (with_client_config(vec![]), Some(SkipReason::NoServerUrl)),
        (
            with_client_config(vec![url(), ("targetConnectionState", text("Disabled"))]),
            Some(SkipReason::Disabled),
        ),
        (
            with_client_config(vec![url(), ("securityMode", text("SIGN"))]),
            Some(SkipReason::SecuredEndpoint),
        ),
        (
            with_client_config(vec![url(), user(), ("passwordEncrypted", Json::Bool(true))]),
            Some(SkipReason::EncryptedPassword),
        ),
        (with_client_config(vec![url(), user()]), Some(SkipReason::NoCredentials)),
        (with_client_config(vec![url()]), None),
    ];
    for (mo, reason) in cases {
        assert_eq!(skip_reason(&mo), reason);
        assert_eq!(to_server_config(&config(), "1", &mo).is_none(), reason.is_some());
    }
}

#[test]
fn the_revision_changes_only_when_something_relevant_does() {
    let mo = |name: &str| {
        object(vec![
            ("name", text(name)),
            (
                "c8y_ua_ClientConfig",
                object(vec![("serverUrl", text("opc.tcp://a:4840"))]),
            ),
        ])
    };
    let one = to_server_config(&config(), "1", &mo("opcserver")).expect("runnable");
    let again = to_server_config(&config(), "1", &mo("opcserver")).expect("runnable");
    let other = to_server_config(&config(), "1", &mo("opcserver-2")).expect("runnable");

    assert_eq!(revision_of(std::slice::from_ref(&one)), revision_of(&[again]));
    assert_ne!(revision_of(&[one]), revision_of(&[other]));
}

#[test]
fn revisions_list_the_servers() {
    assert_eq!(revision_of(&[]), "");
    let mut s = server("a");
    s.user = Some("u".into());
    assert_eq!(
        revision_of(&[s]),
        "a\u{1}a\u{1}opc.tcp://localhost:4840\u{1}None\u{1}u\u{1}\u{2}"
    );
}

#[test]
fn child_devices_are_read_page_by_page() {
    let reference = |id: &str| object(vec![("managedObject", object(vec![("id", text(id))]))]);
    let body = object(vec![(
        "references",
        Json::Array(vec![reference("1"), object(vec![]), reference("2")]),
    )]);
    assert_eq!(
        child_references(&body),
        vec![Some("1".to_owned()), None, Some("2".to_owned())]
    );
    assert!(child_references(&object(vec![("references", Json::Null)])).is_empty());
    assert!(child_references(&Json::Null).is_empty());
    assert_eq!(next_page(1, 100), Some(2));
    assert_eq!(next_page(1, 99), None);
    assert_eq!(next_page(1, 0), None);
    assert_eq!(next_page(20, 100), None);
}

#[test]
fn external_ids_of_others_are_left_alone() {
    assert_eq!(adopt("1", Ok(Some("1".into()))), Adoption::Done);
    assert_eq!(adopt("1", Ok(Some("2".into()))), Adoption::ClaimedBy("2".into()));
    assert_eq!(adopt("1", Ok(None)), Adoption::Plant);
    assert_eq!(adopt("1", Err(ProxyError::CloudUnreachable)), Adoption::Unknown);
}

#[test]
fn looking_up_the_gateway_object_asks_for_help_once() {
    let mut poll = CloudPoll::new();
    let mut helped = Vec::new();
    let mut waits = Vec::new();
    for _ in 0..7 {
        let after = poll.looked_up(Ok(None), 8);
        helped.push(after.help);
        waits.push(after.retry_in.expect("waits"));
    }
    assert_eq!(helped, vec![false, false, false, false, true, false, false]);
    assert_eq!(waits, vec![1, 2, 4, 8, 8, 8, 8]);
    assert_eq!(poll.looked_up(Err(ProxyError::CloudUnreachable), 8).retry_in, Some(8));
    assert_eq!(poll.misses, 7);
    let found = poll.looked_up(Ok(Some("9".into())), 8);
    assert_eq!(found.retry_in, None);
    assert_eq!(poll.gateway_mo_id.as_deref(), Some("9"));
    assert_eq!((poll.misses, poll.backoff), (0, 1));
}

#[test]
fn servers_are_handed_on_when_they_change() {
    let mut poll = CloudPoll::new();
    poll.looked_up(Ok(Some("9".into())), 60);
    // Nothing registered is what was known before.
    assert!(poll.fetched(Ok(Vec::new()), 60).publish.is_none());
    assert!(poll.fetched(Ok(vec![server("a")]), 60).publish.is_some());
    assert!(poll.fetched(Ok(vec![server("a")]), 60).publish.is_none());
    let outage = poll.fetched(Err(ProxyError::CloudUnreachable), 60);
    assert!(outage.publish.is_none());
    assert_eq!(outage.retry_in, Some(1));
    assert_eq!(poll.gateway_mo_id.as_deref(), Some("9"));
    let refused = poll.fetched(Err(ProxyError::Status { url: "u".into(), status: 403 }), 60);
    assert_eq!(refused.retry_in, None);
    assert_eq!(poll.gateway_mo_id.as_deref(), Some("9"));
    poll.fetched(Err(ProxyError::Status { url: "u".into(), status: 404 }), 60);
    assert!(poll.gateway_mo_id.is_none());
    assert!(poll.fetched(Ok(Vec::new()), 60).publish.is_some());
}

// Device types

fn loaded(id: &str, origin: Origin, fingerprint: &str) -> LoadedDeviceType {
    LoadedDeviceType {
        id: id.into(),
        origin,
        fingerprint: fingerprint.into(),
        device_type: Arc::new(DeviceType {
            name: id.into(),
            description: None,
            enabled: true,
            mappings: Vec::new(),
            apply_constraints: None,
            subscription_type: None,
            overridden_subscriptions: Vec::new(),
            referenced_root_node_id: None,
            referenced_namespace_table: Vec::new(),
            referenced_server_id: None,
            referenced_server_name: None,
            ua_event_mappings: None,
        }),
    }
}

#[test]
fn device_types_survive_a_cloud_outage() {
    let mut poll = DeviceTypePoll::new();
    let first = poll.polled(Some(Ok(vec![loaded("a", Origin::Pull, "1")])), Vec::new(), 60, 4);
    assert_eq!(first.publish.expect("new").len(), 1);
    assert_eq!(first.delay, 60);
    assert_eq!(first.diff.added, vec!["a".to_owned()]);
    for wait in [1, 2, 4, 4] {
        let outage = poll.polled(Some(Err(ProxyError::CloudUnreachable)), Vec::new(), 60, 4);
        assert!(outage.publish.is_none());
        assert_eq!(outage.delay, wait);
    }
    let refused = ProxyError::Status { url: "u".into(), status: 403 };
    assert_eq!(poll.polled(Some(Err(refused)), Vec::new(), 0, 4).delay, 1);
    assert_eq!(poll.pulled.len(), 1);
    let deleted = poll.polled(Some(Ok(Vec::new())), Vec::new(), 60, 4);
    assert_eq!(deleted.diff.removed, vec!["a".to_owned()]);
    assert_eq!(poll.backoff, 1);
}

#[test]
fn shadowed_edits_are_reported_as_ignored() {
    let mut poll = DeviceTypePoll::new();
    let pulled = || Some(Ok(vec![loaded("a", Origin::Pull, "1"), loaded("b", Origin::Pull, "1")]));
    let after = poll.polled(pulled(), vec![loaded("b", Origin::Push, "1")], 60, 60);
    assert_eq!(after.ignored, vec!["b".to_owned()]);
    let merged = after.publish.expect("new");
    assert_eq!(merged[1].origin, Origin::Push);
    let again = poll.polled(pulled(), vec![loaded("b", Origin::Push, "1")], 60, 60);
    assert!(again.publish.is_none());
    assert!(again.ignored.is_empty());
    let edited = poll.polled(None, vec![loaded("b", Origin::Push, "2")], 60, 60);
    assert_eq!(edited.diff.changed, vec!["b".to_owned()]);
    assert_eq!(edited.ignored, vec!["b".to_owned()]);
}

#[test]
fn device_type_pages_end_with_the_last_one() {
    let of = |pages: u32| {
        Some(Statistics {
            total_pages: Some(pages),
            current_page: None,
            page_size: None,
        })
    };
    assert_eq!(device_types::next_page(1, 1000, of(3)), Some(2));
    assert_eq!(device_types::next_page(3, 1000, of(3)), None);
    assert_eq!(device_types::next_page(1, 999, None), None);
    assert_eq!(device_types::next_page(50, 1000, None), None);
    assert_eq!(device_types::next_page(49, 1000, None), Some(50));
}

// The gateway device and its operations

fn tedge() -> TedgeMqtt {
    TedgeMqtt::new(&mqtt::MqttConfig::default()).0
}

#[test]
fn the_gateway_device_is_registered_with_its_fragments() {
    let mut gateway = GatewayConfig::default();
    gateway.device_id = "tedge001".into();
    gateway.id = "My Gateway".into();
    assert_eq!(entity(&gateway).as_str(), "device/my-gateway//");
    let r = register(&gateway, &tedge(), "1.2.3");
    assert_eq!(r.registration.topic, "te/device/my-gateway//");
    assert!(r.registration.retain);
    let Payload::Json(body) = &r.registration.payload else {
        panic!("no document")
    };
    let member = |name: &str| body.get(name).and_then(|v| v.as_str()).expect("a text").to_owned();
    assert_eq!(member("@type"), "child-device");
    assert_eq!(member("@parent"), "device/main//");
    assert_eq!(member("@id"), "tedge001:device:My Gateway");
    assert_eq!(member("name"), "OPC UA Gateway");
    assert_eq!(member("type"), "c8y_OPCUA_Device_Agent");
    let topics: Vec<&str> = r.fragments.iter().map(|m| m.topic.as_str()).collect();
    assert_eq!(
        topics,
        vec![
            "te/device/my-gateway///twin/c8y_IsDevice",
            "te/device/my-gateway///twin/c8y_SupportedOperations",
            "te/device/my-gateway///twin/c8y_Firmware",
        ]
    );
    let Payload::Json(operations) = &r.fragments[1].payload else {
        panic!("no document")
    };
    assert_eq!(
        operations.as_array().expect("a list")[0].as_str(),
        Some("c8y_OpcuaConfiguration")
    );
    let Payload::Json(firmware) = &r.fragments[2].payload else {
        panic!("no document")
    };
    assert_eq!(firmware.get("version").and_then(|v| v.as_str()), Some("1.2.3"));
    let help = missing_object_help(&gateway);
    assert_eq!(help.external_id, "tedge001:device:My Gateway");
    assert!(help.advice.contains("`gateway.id`"));
}

fn operation() -> Json {
    object(vec![
        ("delivery", object(vec![("status", text("PENDING"))])),
        ("agentId", text("9569051262")),
        ("creationTime", text("2026-09-04T11:24:54.849Z")),
        ("deviceId", text("1069052109")),
        ("id", text("69050137")),
        ("status", text("PENDING")),
        ("c8y_OpcuaConfiguration", object(vec![("spike", Json::Integer(3))])),
        ("description", text("spike op 3")),
        (
            "externalSource",
            object(vec![
                ("externalId", text("tedge001:device:opcua-gateway")),
                ("type", text("c8y_Serial")),
            ]),
        ),
    ])
}

#[test]
fn the_operation_fragment_is_the_field_that_is_not_envelope() {
    assert_eq!(operation_fragment(&operation()), Some("c8y_OpcuaConfiguration"));
}

#[test]
fn an_envelope_only_operation_names_nothing() {
    let operation = object(vec![
        ("id", text("1")),
        ("status", text("PENDING")),
        ("deviceId", text("2")),
    ]);
    assert!(operation_fragment(&operation).is_none());
}

#[test]
fn failure_records_are_quoted() {
    assert_eq!(
        failure_record("c8y_OpcuaConfiguration", "not implemented"),
        "502,c8y_OpcuaConfiguration,\"not implemented\""
    );
    assert_eq!(
        smartrest_field("says \"no\", loudly"),
        "\"says \"\"no\"\", loudly\""
    );
}

#[test]
fn operations_for_the_gateway_are_failed_with_a_reason() {
    assert!(is_operation_topic("c8y/devicecontrol/notifications"));
    assert!(!is_operation_topic("c8y/devicecontrol"));
    let id = "tedge001:device:opcua-gateway";
    let message = answer(&tedge(), &operation(), id, &[]).expect("an answer");
    assert_eq!(message.topic, "c8y/s/us/tedge001:device:opcua-gateway");
    assert!(!message.retain);
    let Payload::Text(record) = &message.payload else {
        panic!("no record")
    };
    assert_eq!(
        record,
        "502,c8y_OpcuaConfiguration,\"c8y_OpcuaConfiguration is not implemented by c8y-opcua-gateway-rs\""
    );
}

#[test]
fn operations_for_others_are_not_answered() {
    assert!(answer(&tedge(), &operation(), "someone:else", &[]).is_none());
    // A server of ours is addressed by its own external id.
    let mut s = server("1");
    s.external_id = Some("tedge001:device:opcua-gateway".into());
    assert!(answer(&tedge(), &operation(), "someone:else", &[server("2"), s]).is_some());
    let Json::Object(mut done) = operation() else {
        panic!("no object")
    };
    done.insert("status".into(), text("SUCCESSFUL"));
    let id = "tedge001:device:opcua-gateway";
    assert!(answer(&tedge(), &Json::Object(done), id, &[]).is_none());
    assert!(answer(&tedge(), &Json::Null, id, &[]).is_none());
}

// Supervision

#[test]
fn the_running_servers_follow_the_desired_ones() {
    let mut supervisor = Supervisor::new();
    let first = supervisor.reconcile(&vec![server("a"), server("b")]);
    assert_eq!(first.started.len(), 2);
    assert_eq!(first.known_server_ids, vec!["a".to_owned(), "b".to_owned()]);
    let again = supervisor.reconcile(&vec![server("a"), server("b")]);
    assert!(again.removed.is_empty() && again.restarted.is_empty() && again.started.is_empty());
    let mut moved = server("b");
    moved.url = "opc.tcp://elsewhere:4840".into();
    let third = supervisor.reconcile(&vec![moved.clone(), server("c")]);
    assert_eq!(third.removed, vec!["a".to_owned()]);
    assert_eq!(third.restarted, vec!["b".to_owned()]);
    let started: Vec<&str> = third.started.iter().map(|s| s.id.as_str()).collect();
    assert_eq!(started, vec!["b", "c"]);
    assert_eq!(third.started[0], moved);
    let last = supervisor.reconcile(&Vec::new());
    assert_eq!(last.removed, vec!["b".to_owned(), "c".to_owned()]);
}

#[test]
fn configured_servers_win_over_registered_ones() {
    let mut local = server("a");
    local.name = "local".into();
    let desired = desired_servers(vec![server("a"), server("b")], vec![local]);
    assert_eq!(desired.len(), 2);
    assert_eq!(desired[0].name, "local");
}

#[test]
fn a_session_waits_longer_after_each_failure() {
    let mut s = ServerSession::new(3);
    let mut waits = Vec::new();
    for _ in 0..4 {
        match s.step(SessionEvent::ConnectFailed) {
            SessionStep::Pause { close, secs } => {
                assert!(!close);
                waits.push(secs);
            }
            other => panic!("{other:?}"),
        }
        assert_eq!(s.step(SessionEvent::Waited), SessionStep::Connect { close: false });
    }
    assert_eq!(waits, vec![1, 2, 3, 3]);
    assert_eq!(s.step(SessionEvent::Connected), SessionStep::Serve);
    assert_eq!(
        s.step(SessionEvent::ReaderExited),
        SessionStep::Pause { close: true, secs: 1 }
    );
}

#[test]
fn a_session_ends_when_stopped_or_removed() {
    let mut s = ServerSession::new(60);
    assert_eq!(s.step(SessionEvent::Connected), SessionStep::Serve);
    assert_eq!(
        s.step(SessionEvent::DeviceTypesChanged),
        SessionStep::Connect { close: true }
    );
    let mut removed = s;
    assert_eq!(
        removed.step(SessionEvent::Removed),
        SessionStep::End { close: false, gone: true }
    );
    assert_eq!(removed.step(SessionEvent::Connected), SessionStep::Nothing);
    assert_eq!(removed.phase, Phase::Ended);
    assert_eq!(s.step(SessionEvent::Connected), SessionStep::Serve);
    let mut closed = s;
    assert_eq!(
        closed.step(SessionEvent::DeviceTypesClosed),
        SessionStep::End { close: true, gone: false }
    );
    assert_eq!(
        s.step(SessionEvent::ReaderStopped),
        SessionStep::Connect { close: true }
    );
    assert_eq!(s.step(SessionEvent::Connected), SessionStep::Serve);
    assert_eq!(
        s.step(SessionEvent::Stopped),
        SessionStep::End { close: true, gone: false }
    );
}
