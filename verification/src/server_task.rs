//! What is done for one OPC UA server: resolve, subscribe and read, publish.
//!
//! A server gets exactly one OPC UA subscription, shared by every device type that asks for
//! monitored items. Cyclic-read nodes are grouped by schedule, so nodes read on the same interval
//! travel in one Read request.
use crate::config::{
    server_accepts, server_topic_id, Config, ServerConfig, ServerView, SubscriptionConfig,
};
use crate::conn::{
    bad_range, law_requests_say_what_items_ask_for, request_of, DataChange, ItemView,
    MonitoredItemSpec,
};
use crate::constraints::{self, device_type_applies};
use crate::gateway_device::{self, gateway_entity};
use crate::json::text_member;
use crate::model::{
    deadband_of, is_range, is_range_dimension, law_deadbands_are_as_authored,
    law_triggers_are_as_authored, non_blank_text, trigger_of, DataChangeTrigger, Deadband,
    DeviceType, SubscriptionParameters,
};
use crate::mqtt::{
    child_registration, law_registrations_say_who_and_where, Message, MessageView, PayloadView,
    TedgeMqtt, OPCUA_DEVICE_ENTITY_TYPE, OPCUA_DEVICE_MO_TYPE, OPCUA_SERVER_ENTITY_TYPE,
    OPCUA_SERVER_MO_TYPE,
};
use crate::namespace::{MappingError, MappingErrorView, NamespaceTable};
use crate::payload::BuilderView;
use crate::publish::{
    self, accepted, after_flush, flush_messages, fresh_publisher, unit_messages, NodeType,
    Publisher, PublisherView,
};
use crate::resolve::{
    self, grouped, is_node_of, is_plan_of, law_grouping_keeps_deliveries_valid,
    law_nodes_are_delivered_as_their_entries, law_planned_deliveries_are_valid, on_subscription,
    pending, planned_entries, referenced, root_of, schedule_of, units_of, with_resolved, Delivery,
    EntryView, NodeRefView, Plan, PlanView, ResolvedMapping, ResolvedMappingView, ResolvedNode,
    ResolvedNodeView,
};
use crate::source::LoadedDeviceType;
use crate::text::{self, is_blank, pieces, trimmed};
use crate::text_map::{
    lemma_finite_sets_have_an_order, ordered_keys, strictly_increasing, TextMap,
};
use crate::topic::{self, child_device_id, registration_topic_of, sanitized, EntityTopicId};
use crate::ua::{
    is_ua_dimension, is_ua_range, node_id_text, utc_now, DataValue, DateTime, NodeId, NodeIdView,
    QualifiedName, QualifiedNameView, VariantView,
};
use std::collections::HashMap;
use vstd::prelude::*;

verus! {

/// Consecutive read failures tolerated before the session is treated as lost.
const MAX_CONSECUTIVE_READ_FAILURES: u32 = 3;

// Entities ---------------------------------------------------------------------------

/// Where servers hang: below the gateway device when there is one, below the main device
/// otherwise.
pub open spec fn server_parent(config: Config) -> Seq<char> {
    if config.gateway.enabled {
        gateway_entity(config.gateway)
    } else {
        "device/main//"@
    }
}

pub fn parent_entity(config: &Config) -> (r: EntityTopicId)
    ensures
        r@ == server_parent(*config),
{
    if config.gateway.enabled {
        gateway_device::entity(&config.gateway)
    } else {
        EntityTopicId::main_device()
    }
}

/// Entity types follow the same switch: Cumulocity managed object types when the gateway device is
/// on, so the OPC UA user interface recognises the objects, and plain thin-edge types otherwise.
pub fn server_entity_type(config: &Config) -> (r: &'static str)
    ensures
        r@ == (if config.gateway.enabled {
            "c8y_OpcuaServer"@
        } else {
            "opcua-server"@
        }),
{
    if config.gateway.enabled {
        OPCUA_SERVER_MO_TYPE
    } else {
        OPCUA_SERVER_ENTITY_TYPE
    }
}

pub fn device_entity_type(config: &Config) -> (r: &'static str)
    ensures
        r@ == (if config.gateway.enabled {
            "c8y_OpcuaDevice"@
        } else {
            "opcua-device"@
        }),
{
    if config.gateway.enabled {
        OPCUA_DEVICE_MO_TYPE
    } else {
        OPCUA_DEVICE_ENTITY_TYPE
    }
}

/// The entity of a server.
pub open spec fn server_entity_of(server: ServerView) -> Seq<char> {
    child_device_id(server_topic_id(server))
}

pub fn server_entity(server: &ServerConfig) -> (r: EntityTopicId)
    ensures
        r@ == server_entity_of(server.deep_view()),
{
    let id: String = server.topic_id();
    EntityTopicId::child_device(id.as_str())
}

/// The registration of a server's entity.
pub open spec fn server_registration(config: Config, server: ServerView) -> MessageView {
    MessageView {
        topic: registration_topic_of(server_entity_of(server)),
        payload: PayloadView::Json(
            child_registration(
                server_parent(config),
                server.name,
                if config.gateway.enabled {
                    "c8y_OpcuaServer"@
                } else {
                    "opcua-server"@
                },
                server.external_id,
            ),
        ),
        retain: true,
    }
}

/// Registers a server below its parent.
pub fn register_server(mqtt: &TedgeMqtt, config: &Config, server: &ServerConfig) -> (r: Message)
    ensures
        r.deep_view() == server_registration(*config, server.deep_view()),
{
    let entity: EntityTopicId = server_entity(server);
    let parent: EntityTopicId = parent_entity(config);
    let external_id: Option<&str> = match &server.external_id {
        Some(id) => Some(id.as_str()),
        None => None,
    };
    mqtt.register_child_device(
        &entity,
        &parent,
        server.name.as_str(),
        server_entity_type(config),
        external_id,
    )
}

/// A device type applied to a server, and the thin-edge device it publishes as.
///
/// Each applied device type is its own device below the server. Without that, two device types on
/// one server share every telemetry topic: cyclic-read measurements arrive twice, subscribed
/// series overwrite each other, and their alarms collapse into one because Cumulocity dedupes by
/// source and type.
#[derive(Debug)]
pub struct AppliedDeviceType {
    pub entity: EntityTopicId,
    pub name: String,
    pub mapping: ResolvedMapping,
}

pub struct AppliedView {
    pub entity: Seq<char>,
    pub name: Seq<char>,
    pub mapping: ResolvedMappingView,
}

impl DeepView for AppliedDeviceType {
    type V = AppliedView;

    open spec fn deep_view(&self) -> AppliedView {
        AppliedView {
            entity: self.entity@,
            name: self.name@,
            mapping: self.mapping.deep_view(),
        }
    }
}

/// The entity of a device type on a server. It follows from the two ids, and so is stable across
/// restarts — it decides the device's identity in the cloud.
pub open spec fn device_entity_of(server: ServerView, device_type_id: Seq<char>) -> Seq<char> {
    child_device_id(server_topic_id(server) + "-"@ + sanitized(device_type_id))
}

/// The display name of a device: that of its device type, or the id where it has none, and the
/// root node.
pub open spec fn device_name_of(mapping: ResolvedMappingView) -> Seq<char> {
    (if is_blank(mapping.device_type_name) {
        mapping.device_type_id
    } else {
        mapping.device_type_name
    }) + " ("@ + mapping.root_node_id + ")"@
}

impl AppliedDeviceType {
    /// Build the device for one resolved device type below `server`.
    pub fn new(server: &ServerConfig, mapping: ResolvedMapping) -> (r: Self)
        ensures
            r.deep_view() == (AppliedView {
                entity: device_entity_of(server.deep_view(), mapping.deep_view().device_type_id),
                name: device_name_of(mapping.deep_view()),
                mapping: mapping.deep_view(),
            }),
    {
        let mut id: String = server.topic_id();
        let segment: String = topic::sanitize_id(mapping.device_type_id.as_str());
        id.append("-");
        id.append(segment.as_str());
        let shown: &str = if text::blank(mapping.device_type_name.as_str()) {
            mapping.device_type_id.as_str()
        } else {
            mapping.device_type_name.as_str()
        };
        let mut name: String = text::concat(shown, " (");
        name.append(mapping.root_node_id.as_str());
        name.append(")");
        AppliedDeviceType { entity: EntityTopicId::child_device(id.as_str()), name, mapping }
    }
}

/// What announces a device: its registration below the server, then its units.
pub open spec fn device_announcement(
    config: Config,
    server_entity: Seq<char>,
    device: AppliedView,
) -> Seq<MessageView> {
    seq![
        MessageView {
            topic: registration_topic_of(device.entity),
            payload: PayloadView::Json(
                child_registration(
                    server_entity,
                    device.name,
                    if config.gateway.enabled {
                        "c8y_OpcuaDevice"@
                    } else {
                        "opcua-device"@
                    },
                    None,
                ),
            ),
            retain: true,
        },
    ] + unit_messages(
        device.entity,
        ordered_keys(units_of(device.mapping.nodes).dom()),
        units_of(device.mapping.nodes),
    )
}

/// Registers a device below its server, and declares its units.
pub fn announce_device(
    mqtt: &TedgeMqtt,
    config: &Config,
    server_entity: &EntityTopicId,
    device: &AppliedDeviceType,
) -> (r: Vec<Message>)
    ensures
        r.deep_view() == device_announcement(*config, server_entity@, device.deep_view()),
{
    let mut out: Vec<Message> = Vec::new();
    out.push(
        mqtt.register_child_device(
            &device.entity,
            server_entity,
            device.name.as_str(),
            device_entity_type(config),
            None,
        ),
    );
    let ghost first = out.deep_view();
    let mut units: Vec<Message> = publish::publish_units(mqtt, &device.entity, &device.mapping);
    let ghost declared = units.deep_view();
    out.append(&mut units);
    proof {
        assert(out.deep_view() =~= first + declared);
        assert(out.deep_view() =~= device_announcement(
            *config,
            server_entity@,
            device.deep_view(),
        ));
    }
    out
}

// Resolving --------------------------------------------------------------------------

/// Whether a device type is used on a server: the server's own list lets it in, and its
/// constraints do. The list is the operator's own scoping decision and comes first.
pub open spec fn is_used(
    server: ServerView,
    known: Seq<Seq<char>>,
    uris: Seq<Seq<char>>,
    loaded: LoadedDeviceType,
) -> bool {
    server_accepts(server, loaded.id@) && device_type_applies(
        *loaded.device_type,
        server.id,
        known,
        uris,
    )
}

/// The plan of a device type, where it is used on this server and can be planned.
pub fn prepare(
    server: &ServerConfig,
    known_server_ids: &[String],
    table: &NamespaceTable,
    loaded: &LoadedDeviceType,
) -> (r: Option<Plan>)
    ensures
        r is Some == (is_used(
            server.deep_view(),
            known_server_ids@.map_values(|s: String| s@),
            table@,
            *loaded,
        ) && root_of(*loaded.device_type, table@) is Ok),
        r matches Some(plan) ==> is_plan_of(
            plan.deep_view(),
            loaded.id@,
            *loaded.device_type,
            table@,
        ),
{
    if !server.accepts_device_type(loaded.id.as_str()) {
        return None;
    }
    if !constraints::applies(
        loaded.id.as_str(),
        &loaded.device_type,
        server.id.as_str(),
        known_server_ids,
        table,
    ) {
        return None;
    }
    match resolve::plan(loaded.id.as_str(), &loaded.device_type, table) {
        Ok(plan) => Some(plan),
        Err(_) => None,
    }
}

/// Why a device type that is used on this server cannot be planned; `None` where it can be, or is
/// not used.
pub fn planning_error(
    server: &ServerConfig,
    known_server_ids: &[String],
    table: &NamespaceTable,
    loaded: &LoadedDeviceType,
) -> (r: Option<MappingError>)
    ensures
        r is Some == (is_used(
            server.deep_view(),
            known_server_ids@.map_values(|s: String| s@),
            table@,
            *loaded,
        ) && root_of(*loaded.device_type, table@) is Err),
        r matches Some(e) ==> root_of(*loaded.device_type, table@) == Err::<
            NodeIdView,
            MappingErrorView,
        >(e.deep_view()),
{
    if !server.accepts_device_type(loaded.id.as_str()) {
        return None;
    }
    if !constraints::applies(
        loaded.id.as_str(),
        &loaded.device_type,
        server.id.as_str(),
        known_server_ids,
        table,
    ) {
        return None;
    }
    match resolve::plan(loaded.id.as_str(), &loaded.device_type, table) {
        Ok(_) => None,
        Err(e) => Some(e),
    }
}

/// The entries of a plan once the first `count` pending ones have got what their browse paths
/// were translated to.
pub open spec fn with_translated(
    entries: Seq<EntryView>,
    waiting: Seq<(usize, Seq<QualifiedNameView>)>,
    resolved: Seq<Option<NodeIdView>>,
    count: nat,
) -> Seq<EntryView>
    decreases count,
{
    if count == 0 {
        entries
    } else {
        let before = with_translated(entries, waiting, resolved, (count - 1) as nat);
        match resolved[count - 1] {
            Some(node_id) => with_resolved(before, waiting[count - 1].0 as int, node_id),
            None => before,
        }
    }
}

/// The entries of a plan once its browse paths have been translated.
pub open spec fn translated(entries: Seq<EntryView>, resolved: Seq<Option<NodeIdView>>) -> Seq<
    EntryView,
> {
    let waiting = pending(entries, entries.len());
    with_translated(
        entries,
        waiting,
        resolved,
        if waiting.len() < resolved.len() {
            waiting.len()
        } else {
            resolved.len()
        },
    )
}

/// Finishes a plan with what its pending browse paths were translated to, by position. A device
/// type of which nothing was found on the server comes to nothing.
pub fn complete(plan: Plan, resolved: Vec<Option<NodeId>>) -> (r: Option<ResolvedMapping>)
    ensures
        ({
            let entries = translated(plan.deep_view().entries, resolved.deep_view());
            &&& r is Some == (grouped(entries).len() > 0)
            &&& r matches Some(mapping) ==> mapping.deep_view() == (ResolvedMappingView {
                device_type_id: plan.deep_view().device_type_id,
                device_type_name: plan.deep_view().device_type_name,
                root_node_id: crate::ua::node_id_text(plan.deep_view().root_node_id),
                nodes: grouped(entries),
            })
        }),
{
    let ghost start = plan.deep_view();
    let ghost found = resolved.deep_view();
    let mut plan: Plan = plan;
    let mut rest: Vec<Option<NodeId>> = resolved;
    let waiting: Vec<(usize, Vec<QualifiedName>)> = plan.pending_paths();
    let ghost paths = waiting.deep_view();
    let mut i: usize = 0;
    proof {
        assert(found.skip(0) =~= found);
        assert(paths.len() == waiting@.len());
    }
    while i < waiting.len() && rest.len() > 0
        invariant
            i <= waiting@.len(),
            i <= found.len(),
            paths == waiting.deep_view(),
            paths.len() == waiting@.len(),
            rest.deep_view() == found.skip(i as int),
            rest@.len() == found.len() - i,
            plan.deep_view() == (PlanView {
                entries: with_translated(start.entries, paths, found, i as nat),
                ..start
            }),
        ensures
            i == waiting@.len() || i == found.len(),
            i <= waiting@.len(),
            i <= found.len(),
            plan.deep_view() == (PlanView {
                entries: with_translated(start.entries, paths, found, i as nat),
                ..start
            }),
        decreases waiting@.len() - i,
    {
        let ghost raw = rest@;
        let ghost shown = rest.deep_view();
        let node_id: Option<NodeId> = rest.remove(0);
        proof {
            assert(shown[0] == found[i as int]);
            assert forall|k: int| 0 <= k < rest@.len() implies #[trigger] rest.deep_view()[k]
                == found.skip(i + 1)[k] by {
                assert(rest@[k] == raw[k + 1]);
                assert(shown[k + 1] == found[i + k + 1]);
            }
            assert(rest.deep_view() =~= found.skip(i + 1));
            assert(paths[i as int].0 == waiting@[i as int].0);
        }
        if let Some(node_id) = node_id {
            plan.set_resolved(waiting[i].0, node_id);
        }
        i = i + 1;
    }
    let mapping: ResolvedMapping = plan.finish();
    proof {
        assert(mapping.deep_view().nodes.len() == mapping.nodes@.len());
    }
    if mapping.nodes.len() == 0 {
        None
    } else {
        Some(mapping)
    }
}

// Subscribing ------------------------------------------------------------------------

/// Where one monitored item's notifications are published.
#[derive(Debug)]
pub struct SubscribedTarget {
    pub entity: EntityTopicId,
    pub device_type_id: String,
    pub node: ResolvedNode,
}

pub struct TargetView {
    pub entity: Seq<char>,
    pub device_type_id: Seq<char>,
    pub node: ResolvedNodeView,
}

impl DeepView for SubscribedTarget {
    type V = TargetView;

    open spec fn deep_view(&self) -> TargetView {
        TargetView {
            entity: self.entity@,
            device_type_id: self.device_type_id@,
            node: self.node.deep_view(),
        }
    }
}

/// The monitored item of a node: its parameters as authored, the configured queue size where they
/// give none.
pub open spec fn item_of(node: ResolvedNodeView, default_queue_size: u32) -> ItemView {
    match node.delivery {
        Delivery::Subscription(p) => ItemView {
            node_id: node.node_id,
            sampling_interval_ms: p.sampling_rate,
            queue_size: match p.queue_size {
                Some(size) => size,
                None => default_queue_size,
            },
            discard_oldest: p.discard_oldest != Some(false),
            data_change_trigger: trigger_of(p),
            deadband: deadband_of(p),
            index_range: non_blank_text(p.ranges.deep_view()),
        },
        Delivery::CyclicRead { .. } => ItemView {
            node_id: node.node_id,
            sampling_interval_ms: None,
            queue_size: default_queue_size,
            discard_oldest: true,
            data_change_trigger: DataChangeTrigger::StatusValue,
            deadband: None,
            index_range: None,
        },
    }
}

/// Translate a resolved node's device type parameters into a monitored item request.
pub fn item_spec(node: &ResolvedNode, config: &SubscriptionConfig) -> (r: MonitoredItemSpec)
    ensures
        r.deep_view() == item_of(node.deep_view(), config.default_queue_size),
{
    match node.subscription_parameters() {
        Some(p) => {
            let queue_size: u32 = match p.queue_size {
                Some(size) => size,
                None => config.default_queue_size,
            };
            let index_range: Option<String> = match p.index_range() {
                Some(range) => Some(range.to_owned()),
                None => None,
            };
            MonitoredItemSpec {
                node_id: node.node_id.clone(),
                sampling_interval_ms: p.sampling_rate,
                queue_size,
                discard_oldest: p.discard_oldest(),
                data_change_trigger: p.data_change_trigger(),
                deadband: p.deadband(),
                index_range,
            }
        },
        None => MonitoredItemSpec {
            node_id: node.node_id.clone(),
            sampling_interval_ms: None,
            queue_size: config.default_queue_size,
            discard_oldest: true,
            data_change_trigger: DataChangeTrigger::StatusValue,
            deadband: None,
            index_range: None,
        },
    }
}

/// The nodes of a device that are on the subscription.
pub open spec fn subscribed(nodes: Seq<ResolvedNodeView>) -> Seq<ResolvedNodeView> {
    nodes.filter(|n: ResolvedNodeView| schedule_of(n.delivery) is None)
}

/// The targets of one device.
pub open spec fn device_targets(device: AppliedView) -> Seq<TargetView> {
    subscribed(device.mapping.nodes).map_values(
        |n: ResolvedNodeView|
            TargetView {
                entity: device.entity,
                device_type_id: device.mapping.device_type_id,
                node: n,
            },
    )
}

/// The targets of all devices, one for each device and node. Two device types mapping the same
/// node are two logical devices, so they get two items rather than a merged one — and each item's
/// own parameters are honoured exactly as authored.
pub open spec fn all_targets(applied: Seq<AppliedView>) -> Seq<TargetView>
    decreases applied.len(),
{
    if applied.len() == 0 {
        Seq::empty()
    } else {
        all_targets(applied.drop_last()) + device_targets(applied.last())
    }
}

/// The items of targets.
pub open spec fn items_of(targets: Seq<TargetView>, default_queue_size: u32) -> Seq<ItemView> {
    targets.map_values(|t: TargetView| item_of(t.node, default_queue_size))
}

/// What the nodes on the subscription are, is what is on the subscription of what the nodes are.
proof fn lemma_subscribed(nodes: Seq<ResolvedNode>)
    ensures
        on_subscription(nodes).map_values(|n: ResolvedNode| n.deep_view()) == subscribed(
            nodes.map_values(|n: ResolvedNode| n.deep_view()),
        ),
    decreases nodes.len(),
{
    reveal(Seq::filter);
    let view = |n: ResolvedNode| n.deep_view();
    let a = on_subscription(nodes).map_values(view);
    let b = subscribed(nodes.map_values(view));
    if nodes.len() > 0 {
        let before = nodes.drop_last();
        lemma_subscribed(before);
        assert(nodes.map_values(view).drop_last() =~= before.map_values(view));
        assert(nodes.map_values(view).last() == nodes.last().deep_view());
        if schedule_of(nodes.last().delivery) is None {
            assert(a =~= on_subscription(before).map_values(view).push(nodes.last().deep_view()));
        } else {
            assert(a =~= on_subscription(before).map_values(view));
        }
    }
    assert(a =~= b);
}

/// The monitored items to create, and where the notifications of each are published.
#[derive(Debug)]
pub struct SubscriptionRequest {
    pub items: Vec<MonitoredItemSpec>,
    pub targets: Vec<SubscribedTarget>,
}

/// What is asked of a server's single subscription.
pub fn subscription_request(applied: &Vec<AppliedDeviceType>, config: &SubscriptionConfig) -> (r:
    SubscriptionRequest)
    ensures
        r.targets.deep_view() == all_targets(applied.deep_view()),
        r.items.deep_view() == items_of(
            all_targets(applied.deep_view()),
            config.default_queue_size,
        ),
{
    let mut items: Vec<MonitoredItemSpec> = Vec::new();
    let mut targets: Vec<SubscribedTarget> = Vec::new();
    let ghost all = applied.deep_view();
    let size: u32 = config.default_queue_size;
    let mut i: usize = 0;
    proof {
        assert(all.take(0) =~= Seq::empty());
        assert(targets.deep_view() =~= Seq::empty());
        assert(items.deep_view() =~= items_of(Seq::empty(), size));
    }
    while i < applied.len()
        invariant
            i <= applied@.len(),
            all == applied.deep_view(),
            size == config.default_queue_size,
            targets.deep_view() == all_targets(all.take(i as int)),
            items.deep_view() == items_of(all_targets(all.take(i as int)), size),
        decreases applied@.len() - i,
    {
        let device: &AppliedDeviceType = &applied[i];
        let nodes: Vec<&ResolvedNode> = device.mapping.subscribed_nodes();
        let ghost start = targets.deep_view();
        let ghost added = device_targets(device.deep_view());
        let mut k: usize = 0;
        proof {
            lemma_subscribed(device.mapping.nodes@);
            assert(device.mapping.nodes.deep_view() =~= device.mapping.nodes@.map_values(
                |n: ResolvedNode| n.deep_view(),
            ));
            assert(all.take(i + 1).drop_last() =~= all.take(i as int));
            assert(all.take(i + 1).last() == device.deep_view());
            assert(start + added.take(0) =~= start);
            assert(referenced(nodes@).len() == nodes@.len());
            assert(added.len() == nodes@.len());
        }
        while k < nodes.len()
            invariant
                k <= nodes@.len(),
                nodes@.len() == added.len(),
                size == config.default_queue_size,
                added == device_targets(device.deep_view()),
                referenced(nodes@) == on_subscription(device.mapping.nodes@),
                subscribed(device.deep_view().mapping.nodes) == on_subscription(
                    device.mapping.nodes@,
                ).map_values(|n: ResolvedNode| n.deep_view()),
                targets.deep_view() == start + added.take(k as int),
                items.deep_view() == items_of(start + added.take(k as int), size),
            decreases nodes@.len() - k,
        {
            let node: &ResolvedNode = nodes[k];
            let ghost shown = targets.deep_view();
            let ghost asked = items.deep_view();
            proof {
                assert(referenced(nodes@)[k as int] == *node);
                assert(subscribed(device.deep_view().mapping.nodes)[k as int] == node.deep_view());
                assert(added[k as int] == (TargetView {
                    entity: device.entity@,
                    device_type_id: device.mapping.device_type_id@,
                    node: node.deep_view(),
                }));
                assert(start + added.take(k + 1) =~= (start + added.take(k as int)).push(
                    added[k as int],
                ));
            }
            items.push(item_spec(node, config));
            targets.push(
                SubscribedTarget {
                    entity: device.entity.clone(),
                    device_type_id: device.mapping.device_type_id.clone(),
                    node: node.clone(),
                },
            );
            proof {
                assert(targets.deep_view() =~= shown.push(added[k as int]));
                assert(items.deep_view() =~= asked.push(item_of(node.deep_view(), size)));
                assert(items_of(shown.push(added[k as int]), size) =~= items_of(shown, size).push(
                    item_of(node.deep_view(), size),
                ));
            }
            k = k + 1;
        }
        proof {
            assert(added.take(k as int) =~= added);
        }
        i = i + 1;
    }
    proof {
        assert(all.take(i as int) =~= all);
    }
    SubscriptionRequest { items, targets }
}

/// The notifications of one server's subscription on their way to their devices.
///
/// Notifications are routed by client handle, so an item the server refused simply has no route
/// and its never-arriving values cannot be mistaken for a mapping problem later. There is one
/// publisher per device: batching groups series per measurement type, and two devices must never
/// share a batch or one would overwrite the other's series.
#[derive(Debug)]
pub struct SubscriptionFeed {
    routes: HashMap<u32, SubscribedTarget>,
    publishers: TextMap<Publisher>,
    flush_max_series: usize,
}

#[verifier::ext_equal]
pub struct FeedView {
    pub routes: Map<u32, TargetView>,
    /// The publishers by entity.
    pub publishers: Map<Seq<char>, PublisherView>,
    pub flush_max_series: usize,
}

pub open spec fn routes_view(m: Map<u32, SubscribedTarget>) -> Map<u32, TargetView> {
    m.map_values(|t: SubscribedTarget| t.deep_view())
}

pub open spec fn publishers_view(m: Map<Seq<char>, Publisher>) -> Map<Seq<char>, PublisherView> {
    m.map_values(|p: Publisher| p@)
}

impl View for SubscriptionFeed {
    type V = FeedView;

    closed spec fn view(&self) -> FeedView {
        FeedView {
            routes: routes_view(self.routes@),
            publishers: publishers_view(self.publishers@),
            flush_max_series: self.flush_max_series,
        }
    }
}

/// The feed of the first `count` items: each that was created gets a route by its handle, and its
/// device a publisher. A notification is already a change, so events are published as they arrive.
pub open spec fn feed_of(
    targets: Seq<TargetView>,
    results: Seq<Result<u32, u32>>,
    server_id: Seq<char>,
    flush_max_series: usize,
    count: nat,
) -> FeedView
    decreases count,
{
    if count == 0 {
        FeedView { routes: Map::empty(), publishers: Map::empty(), flush_max_series }
    } else {
        let before = feed_of(targets, results, server_id, flush_max_series, (count - 1) as nat);
        let target = targets[count - 1];
        match results[count - 1] {
            Ok(handle) => FeedView {
                routes: before.routes.insert(handle, target),
                publishers: if before.publishers.contains_key(target.entity) {
                    before.publishers
                } else {
                    before.publishers.insert(
                        target.entity,
                        fresh_publisher(target.entity, server_id, false),
                    )
                },
                ..before
            },
            Err(_) => before,
        }
    }
}

/// How many of the first `count` items were refused.
pub open spec fn refused_of(results: Seq<Result<u32, u32>>, count: nat) -> nat
    decreases count,
{
    if count == 0 {
        0
    } else {
        refused_of(results, (count - 1) as nat) + if results[count - 1] is Err {
            1nat
        } else {
            0nat
        }
    }
}

/// The smaller of two lengths.
pub open spec fn shorter(a: nat, b: nat) -> nat {
    if a < b {
        a
    } else {
        b
    }
}

/// The series that wait in the publishers of the given entities.
pub open spec fn waiting_series(
    entities: Seq<Seq<char>>,
    publishers: Map<Seq<char>, PublisherView>,
) -> nat
    decreases entities.len(),
{
    if entities.len() == 0 {
        0
    } else {
        waiting_series(entities.drop_last(), publishers)
            + publishers[entities.last()].pending_series as nat
    }
}

/// What flushing the publishers of the given entities publishes, in their order.
pub open spec fn flushed_entities(
    entities: Seq<Seq<char>>,
    publishers: Map<Seq<char>, PublisherView>,
) -> Seq<MessageView>
    decreases entities.len(),
{
    if entities.len() == 0 {
        Seq::empty()
    } else {
        flushed_entities(entities.drop_last(), publishers) + flush_messages(
            publishers[entities.last()],
        )
    }
}

/// What flushing a feed publishes.
pub open spec fn feed_flush(feed: FeedView) -> Seq<MessageView> {
    flushed_entities(ordered_keys(feed.publishers.dom()), feed.publishers)
}

/// A feed after a flush.
pub open spec fn feed_flushed(feed: FeedView) -> FeedView {
    FeedView { publishers: feed.publishers.map_values(|p: PublisherView| after_flush(p)), ..feed }
}

/// What a notification comes to before anything is flushed: its target's device takes it, where
/// its item has a route.
pub open spec fn feed_accepted(
    feed: FeedView,
    client_handle: u32,
    value: DataValue,
    now: DateTime,
) -> (FeedView, Seq<MessageView>) {
    let target = feed.routes[client_handle];
    if feed.routes.contains_key(client_handle) && feed.publishers.contains_key(target.entity) {
        let (publisher, messages) = accepted(
            feed.publishers[target.entity],
            target.node,
            value,
            now,
        );
        (
            FeedView { publishers: feed.publishers.insert(target.entity, publisher), ..feed },
            messages,
        )
    } else {
        (feed, Seq::empty())
    }
}

/// What a notification comes to: it is taken, and everything is flushed once enough series wait.
pub open spec fn feed_changed(
    feed: FeedView,
    client_handle: u32,
    value: DataValue,
    now: DateTime,
) -> (FeedView, Seq<MessageView>) {
    let (taken, messages) = feed_accepted(feed, client_handle, value, now);
    if waiting_series(ordered_keys(taken.publishers.dom()), taken.publishers)
        >= taken.flush_max_series {
        (feed_flushed(taken), messages + feed_flush(taken))
    } else {
        (taken, messages)
    }
}

impl SubscriptionFeed {
    /// The feed of the monitored items that the server has created, and how many it refused.
    /// `results` says what became of each item, by position.
    pub fn new(
        targets: Vec<SubscribedTarget>,
        results: &Vec<Result<u32, u32>>,
        mqtt: &TedgeMqtt,
        server_id: &str,
        config: &SubscriptionConfig,
    ) -> (r: (Self, usize))
        ensures
            r.0@ == feed_of(
                targets.deep_view(),
                results@,
                server_id@,
                config.flush_max_series,
                shorter(targets@.len(), results@.len()),
            ),
            r.1 == refused_of(results@, shorter(targets@.len(), results@.len())),
    {
        broadcast use vstd::std_specs::hash::group_hash_axioms;

        let ghost all = targets.deep_view();
        let ghost max = config.flush_max_series;
        let mut rest: Vec<SubscribedTarget> = targets;
        let mut routes: HashMap<u32, SubscribedTarget> = HashMap::new();
        let mut publishers: TextMap<Publisher> = TextMap::new();
        let mut refused: usize = 0;
        let mut i: usize = 0;
        proof {
            assert(all.skip(0) =~= all);
            assert(all.len() == rest@.len());
            assert(routes_view(routes@) =~= Map::empty());
            assert(publishers_view(publishers@) =~= Map::empty());
        }
        while i < results.len() && rest.len() > 0
            invariant
                i <= results@.len(),
                i <= all.len(),
                rest@.len() == all.len() - i,
                rest.deep_view() == all.skip(i as int),
                refused <= i,
                refused == refused_of(results@, i as nat),
                routes_view(routes@) == feed_of(all, results@, server_id@, max, i as nat).routes,
                publishers_view(publishers@) == feed_of(all, results@, server_id@, max, i as nat).publishers,
                feed_of(all, results@, server_id@, max, i as nat).flush_max_series == max,
            ensures
                i <= results@.len(),
                i <= all.len(),
                i == results@.len() || i == all.len(),
                refused == refused_of(results@, i as nat),
                routes_view(routes@) == feed_of(all, results@, server_id@, max, i as nat).routes,
                publishers_view(publishers@) == feed_of(all, results@, server_id@, max, i as nat).publishers,
                feed_of(all, results@, server_id@, max, i as nat).flush_max_series == max,
            decreases results@.len() - i,
        {
            broadcast use vstd::std_specs::hash::group_hash_axioms;

            let ghost raw = rest@;
            let ghost shown = rest.deep_view();
            let target: SubscribedTarget = rest.remove(0);
            proof {
                assert(shown[0] == all[i as int]);
                assert forall|k: int| 0 <= k < rest@.len() implies #[trigger] rest.deep_view()[k]
                    == all.skip(i + 1)[k] by {
                    assert(rest@[k] == raw[k + 1]);
                    assert(shown[k + 1] == all[i + k + 1]);
                }
                assert(rest.deep_view() =~= all.skip(i + 1));
            }
            match results[i] {
                Ok(handle) => {
                    let ghost publishers_before = publishers@;
                    let ghost routes_before = routes@;
                    if !publishers.contains(target.entity.as_str()) {
                        let publisher: Publisher = Publisher::new(
                            mqtt.clone(),
                            target.entity.clone(),
                            server_id.to_owned(),
                            false,
                        );
                        publishers.insert(target.entity.as_str().to_owned(), publisher);
                        proof {
                            assert(publishers_view(publishers@) =~= publishers_view(
                                publishers_before,
                            ).insert(target.entity@, fresh_publisher(target.entity@, server_id@, false)));
                        }
                    }
                    routes.insert(handle, target);
                    proof {
                        assert(routes_view(routes@) =~= routes_view(routes_before).insert(
                            handle,
                            target.deep_view(),
                        ));
                    }
                },
                Err(_) => {
                    refused = refused + 1;
                },
            }
            i = i + 1;
        }
        let feed = SubscriptionFeed {
            routes,
            publishers,
            flush_max_series: config.flush_max_series,
        };
        proof {
            assert(feed@ =~= feed_of(all, results@, server_id@, max, i as nat));
        }
        (feed, refused)
    }

    /// Whether no item was created, so that there is nothing to wait for.
    pub fn is_empty(&self) -> (r: bool)
        ensures
            r == self@.routes.dom().is_empty(),
    {
        broadcast use vstd::std_specs::hash::group_hash_axioms;

        proof {
            assert(self@.routes.dom() =~= self.routes@.dom());
        }
        self.routes.len() == 0
    }

    fn waiting(&self) -> (r: usize)
        ensures
            ({
                let total = waiting_series(
                    ordered_keys(self@.publishers.dom()),
                    self@.publishers,
                );
                r == (if total < usize::MAX {
                    total
                } else {
                    usize::MAX as nat
                })
            }),
    {
        let n: usize = self.publishers.len();
        let ghost keys = self.publishers.key_seq();
        let ghost model = self@.publishers;
        let mut total: usize = 0;
        let mut i: usize = 0;
        proof {
            assert(model.dom() =~= self.publishers@.dom());
            assert(keys.take(0) =~= Seq::empty());
        }
        while i < n
            invariant
                i <= n == keys.len(),
                keys == self.publishers.key_seq(),
                model == publishers_view(self.publishers@),
                total == (if waiting_series(keys.take(i as int), model) < usize::MAX {
                    waiting_series(keys.take(i as int), model)
                } else {
                    usize::MAX as nat
                }),
            decreases n - i,
        {
            proof {
                assert(keys.take(i + 1).drop_last() =~= keys.take(i as int));
                assert(keys.take(i + 1).last() == keys[i as int]);
            }
            let more: usize = self.publishers.value_at(i).pending_series();
            proof {
                assert(model[keys[i as int]].pending_series == more);
            }
            total = if more > usize::MAX - total {
                usize::MAX
            } else {
                total + more
            };
            i = i + 1;
        }
        proof {
            assert(keys.take(i as int) =~= keys);
        }
        total
    }

    /// Hands out everything that waits in the publishers, device by device.
    pub fn flush_all(&mut self) -> (r: Vec<Message>)
        ensures
            r.deep_view() == feed_flush(old(self)@),
            final(self)@ == feed_flushed(old(self)@),
    {
        let ghost start = self@;
        let ghost keys = self.publishers.key_seq();
        let n: usize = self.publishers.len();
        let mut names: Vec<String> = Vec::new();
        let mut i: usize = 0;
        proof {
            self.publishers.lemma_entries();
            assert(start.publishers.dom() =~= self.publishers@.dom());
        }
        while i < n
            invariant
                i <= n == keys.len(),
                keys == self.publishers.key_seq(),
                names@.len() == i,
                forall|j: int| 0 <= j < i ==> #[trigger] names@[j]@ == keys[j],
                self@ == start,
            decreases n - i,
        {
            names.push(self.publishers.key_at(i).clone());
            i = i + 1;
        }
        let mut out: Vec<Message> = Vec::new();
        let mut k: usize = 0;
        proof {
            assert(keys.take(0) =~= Seq::empty());
            assert(out.deep_view() =~= Seq::empty());
        }
        while k < n
            invariant
                k <= n == keys.len(),
                n == names@.len(),
                strictly_increasing(keys),
                forall|j: int| 0 <= j < n ==> #[trigger] names@[j]@ == keys[j],
                forall|j: int| 0 <= j < n ==> start.publishers.contains_key(#[trigger] keys[j]),
                self@.routes == start.routes,
                self@.flush_max_series == start.flush_max_series,
                self@.publishers.dom() == start.publishers.dom(),
                forall|j: int|
                    0 <= j < k ==> self@.publishers[#[trigger] keys[j]] == after_flush(
                        start.publishers[keys[j]],
                    ),
                forall|j: int|
                    k <= j < n ==> self@.publishers[#[trigger] keys[j]]
                        == start.publishers[keys[j]],
                out.deep_view() == flushed_entities(keys.take(k as int), start.publishers),
            decreases n - k,
        {
            let ghost before = self.publishers@;
            let ghost before_view = self@.publishers;
            let ghost sent = out.deep_view();
            proof {
                assert(keys.take(k + 1).drop_last() =~= keys.take(k as int));
                assert(keys.take(k + 1).last() == keys[k as int]);
                assert(names@[k as int]@ == keys[k as int]);
                assert(before_view.contains_key(keys[k as int]));
            }
            if let Some(mut publisher) = self.publishers.remove(names[k].as_str()) {
                let mut messages: Vec<Message> = publisher.flush();
                let ghost flushed = messages.deep_view();
                let ghost after = publisher@;
                out.append(&mut messages);
                self.publishers.insert(names[k].clone(), publisher);
                proof {
                    assert(out.deep_view() =~= sent + flushed);
                    assert(publishers_view(self.publishers@) =~= before_view.insert(
                        keys[k as int],
                        after,
                    ));
                    assert(self@.publishers.dom() =~= start.publishers.dom());
                    assert forall|j: int| 0 <= j < n && j != k implies self@.publishers[
                    #[trigger] keys[j]] == before_view[keys[j]] by {
                        if keys[j] == keys[k as int] {
                            crate::text_map::lemma_increasing_is_injective(keys, j, k as int);
                        }
                    }
                }
            }
            k = k + 1;
        }
        proof {
            assert(keys.take(k as int) =~= keys);
            let expected = start.publishers.map_values(|p: PublisherView| after_flush(p));
            assert forall|e: Seq<char>| #[trigger]
                self@.publishers.contains_key(e) implies self@.publishers[e] == expected[e] by {
                assert(keys.to_set().contains(e));
                let j = keys.index_of(e);
                assert(keys[j] == e);
            }
            assert(self@.publishers =~= expected);
            assert(self@ =~= feed_flushed(start));
        }
        out
    }

    /// Takes one notification, `now` being the current time.
    pub fn change_at(&mut self, change: &DataChange, now: DateTime) -> (r: Vec<Message>)
        ensures
            final(self)@ == feed_changed(
                old(self)@,
                change.client_handle,
                change.value,
                now,
            ).0,
            r.deep_view() == feed_changed(
                old(self)@,
                change.client_handle,
                change.value,
                now,
            ).1,
    {
        broadcast use vstd::std_specs::hash::group_hash_axioms;

        let ghost start = self@;
        let mut out: Vec<Message> = Vec::new();
        proof {
            assert(out.deep_view() =~= Seq::empty());
        }
        if let Some(target) = self.routes.get(&change.client_handle) {
            proof {
                assert(start.routes[change.client_handle] == target.deep_view());
            }
            let ghost before = self.publishers@;
            if let Some(mut publisher) = self.publishers.remove(target.entity.as_str()) {
                proof {
                    assert(start.publishers[target.entity@] == publisher@);
                }
                out = publisher.accept_at(&target.node, &change.value, now);
                let ghost after = publisher@;
                self.publishers.insert(target.entity.as_str().to_owned(), publisher);
                proof {
                    assert(publishers_view(self.publishers@) =~= start.publishers.insert(
                        target.entity@,
                        after,
                    ));
                }
            } else {
                proof {
                    assert(publishers_view(self.publishers@) =~= start.publishers);
                }
            }
        }
        let ghost taken = feed_accepted(start, change.client_handle, change.value, now);
        proof {
            assert(self@ =~= taken.0);
        }
        if self.waiting() >= self.flush_max_series {
            let mut flushed: Vec<Message> = self.flush_all();
            let ghost more = flushed.deep_view();
            let ghost sent = out.deep_view();
            out.append(&mut flushed);
            proof {
                assert(out.deep_view() =~= sent + more);
            }
        }
        out
    }

    /// Takes one notification.
    pub fn change(&mut self, change: &DataChange) -> (r: Vec<Message>)
        ensures
            exists|now: DateTime|
                #![trigger feed_changed(old(self)@, change.client_handle, change.value, now)]
                final(self)@ == feed_changed(
                    old(self)@,
                    change.client_handle,
                    change.value,
                    now,
                ).0 && r.deep_view() == feed_changed(
                    old(self)@,
                    change.client_handle,
                    change.value,
                    now,
                ).1,
    {
        let now: DateTime = utc_now();
        self.change_at(change, now)
    }
}

// Reading ----------------------------------------------------------------------------

/// The cyclic read of one group of nodes.
#[derive(Debug)]
pub struct ReadLoop {
    publisher: Publisher,
    failures: u32,
}

pub struct ReadLoopView {
    pub publisher: PublisherView,
    /// Reads in a row that failed.
    pub failures: u32,
}

impl View for ReadLoop {
    type V = ReadLoopView;

    closed spec fn view(&self) -> ReadLoopView {
        ReadLoopView { publisher: self.publisher@, failures: self.failures }
    }
}

/// What the first `count` values come to, each for the node at its position.
pub open spec fn values_accepted(
    p: PublisherView,
    nodes: Seq<ResolvedNodeView>,
    values: Seq<DataValue>,
    now: DateTime,
    count: nat,
) -> (PublisherView, Seq<MessageView>)
    decreases count,
{
    if count == 0 {
        (p, Seq::empty())
    } else {
        let before = values_accepted(p, nodes, values, now, (count - 1) as nat);
        let after = accepted(before.0, nodes[count - 1], values[count - 1], now);
        (after.0, before.1 + after.1)
    }
}

/// What a read comes to: its values, then one flush, so that every series read together lands in
/// one message per type.
pub open spec fn cycle_read(
    p: PublisherView,
    nodes: Seq<ResolvedNodeView>,
    values: Seq<DataValue>,
    now: DateTime,
) -> (PublisherView, Seq<MessageView>) {
    let (taken, messages) = values_accepted(
        p,
        nodes,
        values,
        now,
        shorter(nodes.len(), values.len()),
    );
    (after_flush(taken), messages + flush_messages(taken))
}

impl ReadLoop {
    /// A cyclic read re-delivers unchanged values, so repeated event values are suppressed.
    pub fn new(mqtt: TedgeMqtt, entity: EntityTopicId, server_id: String) -> (r: Self)
        ensures
            r@ == (ReadLoopView { publisher: fresh_publisher(entity@, server_id@, true), failures: 0 }),
    {
        ReadLoop { publisher: Publisher::new(mqtt, entity, server_id, true), failures: 0 }
    }

    /// Takes the values of one read, `now` being the current time. The values stand in the order of
    /// the nodes.
    pub fn read_at(&mut self, nodes: &Vec<ResolvedNode>, values: &Vec<DataValue>, now: DateTime) -> (
    r: Vec<Message>)
        ensures
            final(self)@ == (ReadLoopView {
                publisher: cycle_read(
                    old(self)@.publisher,
                    nodes.deep_view(),
                    values@,
                    now,
                ).0,
                failures: 0,
            }),
            r.deep_view() == cycle_read(
                old(self)@.publisher,
                nodes.deep_view(),
                values@,
                now,
            ).1,
    {
        self.failures = 0;
        let ghost start = self.publisher@;
        let ghost all = nodes.deep_view();
        let mut out: Vec<Message> = Vec::new();
        let mut i: usize = 0;
        proof {
            assert(out.deep_view() =~= Seq::empty());
            assert(all.len() == nodes@.len());
        }
        while i < nodes.len() && i < values.len()
            invariant
                i <= nodes@.len(),
                i <= values@.len(),
                all == nodes.deep_view(),
                self.failures == 0,
                self.publisher@ == values_accepted(start, all, values@, now, i as nat).0,
                out.deep_view() == values_accepted(start, all, values@, now, i as nat).1,
            decreases nodes@.len() - i,
        {
            let ghost sent = out.deep_view();
            proof {
                assert(all[i as int] == nodes@[i as int].deep_view());
            }
            let mut messages: Vec<Message> = self.publisher.accept_at(&nodes[i], &values[i], now);
            let ghost more = messages.deep_view();
            out.append(&mut messages);
            proof {
                assert(out.deep_view() =~= sent + more);
            }
            i = i + 1;
        }
        let ghost sent = out.deep_view();
        let mut flushed: Vec<Message> = self.publisher.flush();
        let ghost more = flushed.deep_view();
        out.append(&mut flushed);
        proof {
            assert(out.deep_view() =~= sent + more);
        }
        out
    }

    /// Takes the values of one read.
    pub fn read(&mut self, nodes: &Vec<ResolvedNode>, values: &Vec<DataValue>) -> (r: Vec<Message>)
        ensures
            final(self)@.failures == 0,
            exists|now: DateTime|
                #![trigger cycle_read(old(self)@.publisher, nodes.deep_view(), values@, now)]
                final(self)@.publisher == cycle_read(
                    old(self)@.publisher,
                    nodes.deep_view(),
                    values@,
                    now,
                ).0 && r.deep_view() == cycle_read(
                    old(self)@.publisher,
                    nodes.deep_view(),
                    values@,
                    now,
                ).1,
    {
        let now: DateTime = utc_now();
        self.read_at(nodes, values, now)
    }

    /// Takes a read that failed. Returns whether to give up, so that the session is treated as
    /// lost.
    pub fn failed(&mut self) -> (r: bool)
        ensures
            final(self)@.publisher == old(self)@.publisher,
            final(self)@.failures == crate::cloud_servers::one_more(old(self)@.failures),
            r == (final(self)@.failures >= 3),
    {
        if self.failures < u32::MAX {
            self.failures = self.failures + 1;
        }
        self.failures >= MAX_CONSECUTIVE_READ_FAILURES
    }
}

// Laws -------------------------------------------------------------------------------

/// Two device types on one server publish as two devices, unless their ids are the same to a
/// topic.
pub proof fn law_device_types_have_their_own_devices(
    server: ServerView,
    a: Seq<char>,
    b: Seq<char>,
)
    requires
        device_entity_of(server, a) == device_entity_of(server, b),
    ensures
        sanitized(a) == sanitized(b),
{
    let prefix = server_topic_id(server) + "-"@;
    topic::law_child_devices_are_distinct(prefix + sanitized(a), prefix + sanitized(b));
    assert((prefix + sanitized(a)).skip(prefix.len() as int) =~= sanitized(a));
    assert((prefix + sanitized(b)).skip(prefix.len() as int) =~= sanitized(b));
}

proof fn lemma_translated_deliveries(
    entries: Seq<EntryView>,
    waiting: Seq<(usize, Seq<QualifiedNameView>)>,
    resolved: Seq<Option<NodeIdView>>,
    count: nat,
)
    ensures
        with_translated(entries, waiting, resolved, count).len() == entries.len(),
        forall|i: int|
            0 <= i < entries.len() ==> (#[trigger] with_translated(
                entries,
                waiting,
                resolved,
                count,
            )[i]).delivery == entries[i].delivery,
    decreases count,
{
    if count > 0 {
        lemma_translated_deliveries(entries, waiting, resolved, (count - 1) as nat);
    }
}

/// A range within the limits of a request: ten dimensions, and ten digits for an index.
pub open spec fn fits_a_request(range: Seq<char>) -> bool {
    let dimensions = pieces(range, ',');
    dimensions.len() <= 10 && forall|i: int, j: int|
        0 <= i < dimensions.len() && 0 <= j < pieces(dimensions[i], ':').len() ==> (
        #[trigger] pieces(dimensions[i], ':')[j]).len() <= 10
}

/// Only by a range beyond the limits of a request can a node of a device type cost the others
/// their subscription: whatever its browse paths translate to, every other range of the items can
/// be asked for.
pub proof fn law_resolved_items_can_be_asked_for(
    device_type: DeviceType,
    uris: Seq<Seq<char>>,
    resolved: Seq<Option<NodeIdView>>,
    default_queue_size: u32,
    i: int,
)
    requires
        0 <= i < grouped(
            translated(
                planned_entries(device_type, uris, device_type.mappings@.len()),
                resolved,
            ),
        ).len(),
    ensures
        ({
            let item = item_of(
                grouped(
                    translated(
                        planned_entries(device_type, uris, device_type.mappings@.len()),
                        resolved,
                    ),
                )[i],
                default_queue_size,
            );
            bad_range(item) ==> !fits_a_request(item.index_range->Some_0)
        }),
{
    let planned = planned_entries(device_type, uris, device_type.mappings@.len());
    let entries = translated(planned, resolved);
    let waiting = pending(planned, planned.len());
    law_planned_deliveries_are_valid(device_type, uris, device_type.mappings@.len());
    lemma_translated_deliveries(
        planned,
        waiting,
        resolved,
        if waiting.len() < resolved.len() {
            waiting.len()
        } else {
            resolved.len()
        },
    );
    law_grouping_keeps_deliveries_valid(entries);
    let item = item_of(grouped(entries)[i], default_queue_size);
    if let Some(range) = item.index_range {
        if fits_a_request(range) {
            lemma_range_can_be_asked_for(range);
        }
    }
}

proof fn lemma_range_can_be_asked_for(range: Seq<char>)
    requires
        is_range(range),
        fits_a_request(range),
    ensures
        is_ua_range(range),
{
    let dimensions = pieces(range, ',');
    assert forall|i: int| 0 <= i < dimensions.len() implies is_ua_dimension(
        #[trigger] dimensions[i],
    ) by {
        let p = pieces(dimensions[i], ':');
        assert(is_range_dimension(dimensions[i]));
        assert(p.len() > 0 ==> p[0].len() <= 10);
        assert(p.len() > 1 ==> p[1].len() <= 10);
    }
}

/// Every route of a feed leads to a device that has a publisher.
pub open spec fn routes_lead_somewhere(feed: FeedView) -> bool {
    forall|h: u32| #[trigger]
        feed.routes.contains_key(h) ==> feed.publishers.contains_key(feed.routes[h].entity)
}

/// No notification of a created item is lost on its way to its device.
pub proof fn law_every_route_leads_to_a_publisher(
    targets: Seq<TargetView>,
    results: Seq<Result<u32, u32>>,
    server_id: Seq<char>,
    flush_max_series: usize,
    count: nat,
)
    requires
        count <= targets.len(),
        count <= results.len(),
    ensures
        routes_lead_somewhere(feed_of(targets, results, server_id, flush_max_series, count)),
    decreases count,
{
    if count > 0 {
        law_every_route_leads_to_a_publisher(
            targets,
            results,
            server_id,
            flush_max_series,
            (count - 1) as nat,
        );
        let before = feed_of(targets, results, server_id, flush_max_series, (count - 1) as nat);
        let after = feed_of(targets, results, server_id, flush_max_series, count);
        assert forall|h: u32| #[trigger]
            after.routes.contains_key(h) implies after.publishers.contains_key(
            after.routes[h].entity,
        ) by {
            if before.routes.contains_key(h) {
                assert(before.publishers.contains_key(before.routes[h].entity));
            }
        }
    }
}

/// Notifications keep the routes and the devices of a feed.
pub proof fn law_notifications_keep_the_routes(
    feed: FeedView,
    client_handle: u32,
    value: DataValue,
    now: DateTime,
)
    requires
        routes_lead_somewhere(feed),
    ensures
        feed_changed(feed, client_handle, value, now).0.routes == feed.routes,
        feed_changed(feed, client_handle, value, now).0.publishers.dom() == feed.publishers.dom(),
        routes_lead_somewhere(feed_changed(feed, client_handle, value, now).0),
{
    let after = feed_changed(feed, client_handle, value, now).0;
    let taken = feed_accepted(feed, client_handle, value, now).0;
    assert(taken.publishers.dom() =~= feed.publishers.dom());
    assert(feed_flushed(taken).publishers.dom() =~= taken.publishers.dom());
    assert forall|h: u32| #[trigger] after.routes.contains_key(h) implies after.publishers.contains_key(
        after.routes[h].entity,
    ) by {
        assert(feed.routes.contains_key(h));
        assert(feed.publishers.dom().contains(feed.routes[h].entity));
    }
}

/// A notification of one device leaves the others as they are, as long as nothing is flushed: no
/// two devices share a batch.
pub proof fn law_devices_do_not_share_a_batch(
    feed: FeedView,
    client_handle: u32,
    value: DataValue,
    now: DateTime,
    entity: Seq<char>,
)
    requires
        feed.publishers.contains_key(entity),
        !feed.routes.contains_key(client_handle) || feed.routes[client_handle].entity != entity,
    ensures
        feed_accepted(feed, client_handle, value, now).0.publishers[entity]
            == feed.publishers[entity],
{
}

/// The reads that have failed in a row, after a series of reads of which some worked.
pub open spec fn failures_after(worked: Seq<bool>) -> u32
    decreases worked.len(),
{
    if worked.len() == 0 || worked.last() {
        0
    } else {
        crate::cloud_servers::one_more(failures_after(worked.drop_last()))
    }
}

/// A loop gives up exactly when the last three reads have failed: a read that works starts the
/// counting over.
pub proof fn law_three_failures_in_a_row_end_the_loop(worked: Seq<bool>)
    ensures
        failures_after(worked) >= 3 <==> worked.len() >= 3 && !worked[worked.len() - 1]
            && !worked[worked.len() - 2] && !worked[worked.len() - 3],
{
    let n = worked.len();
    reveal_with_fuel(failures_after, 4);
    if n > 0 {
        let one = worked.drop_last();
        if n > 1 {
            assert(one.last() == worked[n - 2]);
            let two = one.drop_last();
            if n > 2 {
                assert(two.last() == worked[n - 3]);
            } else {
                assert(two.len() == 0);
            }
        } else {
            assert(one.len() == 0);
        }
    }
}

/// A monitored item is asked for as authored: the node with its sampling rate, its queue size or
/// the configured one, its deadband, its trigger and its range; the oldest values are discarded
/// unless it says otherwise.
pub proof fn law_items_are_as_authored(
    node: ResolvedNodeView,
    p: SubscriptionParameters,
    default_queue_size: u32,
)
    requires
        node.delivery == Delivery::Subscription(p),
    ensures
        ({
            let item = item_of(node, default_queue_size);
            &&& item.node_id == node.node_id
            &&& item.sampling_interval_ms == p.sampling_rate
            &&& p.queue_size matches Some(size) ==> item.queue_size == size
            &&& p.queue_size is None ==> item.queue_size == default_queue_size
            &&& p.discard_oldest == Some(false) <==> !item.discard_oldest
            &&& p.deadband_type.deep_view() == Some("Absolute"@) && p.deadband_value is Some
                ==> item.deadband == Some((Deadband::Absolute, p.deadband_value->Some_0))
            &&& p.deadband_type.deep_view() == Some("Percent"@) && p.deadband_value is Some
                ==> item.deadband == Some((Deadband::Percent, p.deadband_value->Some_0))
            &&& p.deadband_value is None || p.deadband_type is None ==> item.deadband is None
            &&& p.data_change_trigger.deep_view() == Some("Status"@) <==> item.data_change_trigger
                == DataChangeTrigger::Status
            &&& p.data_change_trigger.deep_view() == Some("StatusValueTimestamp"@)
                <==> item.data_change_trigger == DataChangeTrigger::StatusValueTimestamp
            &&& p.ranges is Some && !is_blank(p.ranges->Some_0@) ==> item.index_range == Some(
                trimmed(p.ranges->Some_0@),
            )
            &&& p.ranges is None || is_blank(p.ranges->Some_0@) ==> item.index_range is None
        }),
{
    law_deadbands_are_as_authored(p);
    law_triggers_are_as_authored(p);
}

/// A deadband of a subscribed node is in the filter of its request: type 1 for an absolute one,
/// type 2 for one in percent, with the authored value.
pub proof fn law_deadbands_reach_the_request(
    node: ResolvedNodeView,
    p: SubscriptionParameters,
    default_queue_size: u32,
)
    requires
        node.delivery == Delivery::Subscription(p),
        p.deadband_value is Some,
        p.deadband_type.deep_view() == Some("Absolute"@) || p.deadband_type.deep_view() == Some(
            "Percent"@,
        ),
    ensures
        request_of(item_of(node, default_queue_size)).filter matches Some(f) && f.deadband_value
            == p.deadband_value->Some_0 && f.deadband_type == if p.deadband_type.deep_view()
            == Some("Absolute"@) {
            1u32
        } else {
            2u32
        },
{
    law_items_are_as_authored(node, p, default_queue_size);
    law_requests_say_what_items_ask_for(item_of(node, default_queue_size));
}

proof fn lemma_device_targets(device: AppliedView, target: TargetView)
    ensures
        device_targets(device).contains(target) <==> target.entity == device.entity
            && target.device_type_id == device.mapping.device_type_id
            && device.mapping.nodes.contains(target.node) && target.node.delivery is Subscription,
{
    let f = |n: ResolvedNodeView| schedule_of(n.delivery) is None;
    let nodes = device.mapping.nodes;
    let on = subscribed(nodes);
    broadcast use vstd::seq_lib::group_filter_ensures;

    if device_targets(device).contains(target) {
        let i = device_targets(device).index_of(target);
        assert(device_targets(device)[i].node == on[i]);
        crate::seqs::lemma_filter_from(nodes, f, i);
    }
    if target.entity == device.entity && target.device_type_id == device.mapping.device_type_id
        && nodes.contains(target.node) && target.node.delivery is Subscription {
        let n = nodes.index_of(target.node);
        assert(f(nodes[n]));
        assert(nodes.filter(f).contains(nodes[n]));
        let i = on.index_of(target.node);
        assert(device_targets(device)[i].node == target.node);
        assert(device_targets(device)[i] == target);
    }
}

/// Every node of every device that is on the subscription is asked for, for that device, and
/// nothing else is.
pub proof fn law_every_subscribed_node_is_asked_for(applied: Seq<AppliedView>, target: TargetView)
    ensures
        all_targets(applied).contains(target) <==> exists|d: int|
            0 <= d < applied.len() && (#[trigger] applied[d]).entity == target.entity
                && applied[d].mapping.device_type_id == target.device_type_id
                && applied[d].mapping.nodes.contains(target.node)
                && target.node.delivery is Subscription,
    decreases applied.len(),
{
    if applied.len() > 0 {
        let first = applied.drop_last();
        let last = applied.last();
        law_every_subscribed_node_is_asked_for(first, target);
        lemma_device_targets(last, target);
        let before = all_targets(first);
        let added = device_targets(last);
        let all = all_targets(applied);
        if before.contains(target) {
            assert(all[before.index_of(target)] == target);
            let d = choose|d: int|
                0 <= d < first.len() && (#[trigger] first[d]).entity == target.entity
                    && first[d].mapping.device_type_id == target.device_type_id
                    && first[d].mapping.nodes.contains(target.node)
                    && target.node.delivery is Subscription;
            assert(applied[d] == first[d]);
        }
        if added.contains(target) {
            assert(all[before.len() + added.index_of(target)] == target);
            assert(applied[applied.len() - 1] == last);
        }
        if all.contains(target) {
            let i = all.index_of(target);
            if i < before.len() {
                assert(before[i] == target);
            } else {
                assert(added[i - before.len()] == target);
            }
        }
        if exists|d: int|
            0 <= d < applied.len() && (#[trigger] applied[d]).entity == target.entity
                && applied[d].mapping.device_type_id == target.device_type_id
                && applied[d].mapping.nodes.contains(target.node)
                && target.node.delivery is Subscription {
            let d = choose|d: int|
                0 <= d < applied.len() && (#[trigger] applied[d]).entity == target.entity
                    && applied[d].mapping.device_type_id == target.device_type_id
                    && applied[d].mapping.nodes.contains(target.node)
                    && target.node.delivery is Subscription;
            if d < first.len() {
                assert(first[d] == applied[d]);
            }
        }
    }
}

/// The items stand in the order of their targets, so that what a server says of an item belongs to
/// the target at its position.
pub proof fn law_items_stand_in_the_order_of_their_targets(
    targets: Seq<TargetView>,
    default_queue_size: u32,
    i: int,
)
    requires
        0 <= i < targets.len(),
    ensures
        items_of(targets, default_queue_size).len() == targets.len(),
        items_of(targets, default_queue_size)[i] == item_of(targets[i].node, default_queue_size),
{
}

/// Notifications that carry the handle of a created item go to that item's target, whose device
/// has a publisher that has seen nothing and publishes every event as it arrives.
pub proof fn law_notifications_go_to_the_target_of_their_item(
    targets: Seq<TargetView>,
    results: Seq<Result<u32, u32>>,
    server_id: Seq<char>,
    flush_max_series: usize,
    count: nat,
    i: int,
)
    requires
        count <= targets.len(),
        count <= results.len(),
        0 <= i < count,
        results[i] is Ok,
        forall|j: int| i < j < count ==> #[trigger] results[j] != results[i],
    ensures
        ({
            let feed = feed_of(targets, results, server_id, flush_max_series, count);
            let entity = targets[i].entity;
            &&& feed.routes.contains_key(results[i]->Ok_0)
            &&& feed.routes[results[i]->Ok_0] == targets[i]
            &&& feed.publishers.contains_key(entity)
            &&& feed.publishers[entity].entity == entity
            &&& feed.publishers[entity].server_id == server_id
            &&& !feed.publishers[entity].dedup_events
            &&& feed.publishers[entity].last_event == Map::<NodeType, VariantView>::empty()
            &&& feed.publishers[entity].last_alarm == Map::<NodeType, bool>::empty()
            &&& feed.publishers[entity].batch.dom() == Set::<Seq<char>>::empty()
            &&& feed.publishers[entity].pending_series == 0
            &&& feed.flush_max_series == flush_max_series
        }),
    decreases count,
{
    lemma_publishers_are_fresh(targets, results, server_id, flush_max_series, count);
    law_every_route_leads_to_a_publisher(targets, results, server_id, flush_max_series, count);
    let less = (count - 1) as nat;
    if i < less {
        law_notifications_go_to_the_target_of_their_item(
            targets,
            results,
            server_id,
            flush_max_series,
            less,
            i,
        );
        assert(results[count - 1] != results[i]);
    }
    let feed = feed_of(targets, results, server_id, flush_max_series, count);
    assert(feed.publishers.contains_key(targets[i].entity));
    assert(Map::<Seq<char>, BuilderView>::empty().dom() =~= Set::empty());
}

proof fn lemma_publishers_are_fresh(
    targets: Seq<TargetView>,
    results: Seq<Result<u32, u32>>,
    server_id: Seq<char>,
    flush_max_series: usize,
    count: nat,
)
    requires
        count <= targets.len(),
        count <= results.len(),
    ensures
        ({
            let feed = feed_of(targets, results, server_id, flush_max_series, count);
            &&& feed.flush_max_series == flush_max_series
            &&& forall|e: Seq<char>| #[trigger]
                feed.publishers.contains_key(e) ==> feed.publishers[e] == fresh_publisher(
                    e,
                    server_id,
                    false,
                )
        }),
    decreases count,
{
    if count > 0 {
        lemma_publishers_are_fresh(
            targets,
            results,
            server_id,
            flush_max_series,
            (count - 1) as nat,
        );
    }
}

/// Only the handles of created items have routes, and only their devices publishers.
pub proof fn law_refused_items_have_no_route(
    targets: Seq<TargetView>,
    results: Seq<Result<u32, u32>>,
    server_id: Seq<char>,
    flush_max_series: usize,
    count: nat,
    handle: u32,
)
    requires
        count <= targets.len(),
        count <= results.len(),
        forall|i: int| 0 <= i < count ==> #[trigger] results[i] != Ok::<u32, u32>(handle),
    ensures
        !feed_of(targets, results, server_id, flush_max_series, count).routes.contains_key(handle),
    decreases count,
{
    if count > 0 {
        assert(results[count - 1] != Ok::<u32, u32>(handle));
        law_refused_items_have_no_route(
            targets,
            results,
            server_id,
            flush_max_series,
            (count - 1) as nat,
            handle,
        );
    }
}

/// Every item is either created or counted as refused.
pub proof fn law_every_refusal_is_counted(results: Seq<Result<u32, u32>>, count: nat)
    requires
        count <= results.len(),
    ensures
        refused_of(results, count) == results.take(count as int).filter(
            |r: Result<u32, u32>| r is Err,
        ).len(),
    decreases count,
{
    let f = |r: Result<u32, u32>| r is Err;
    if count > 0 {
        law_every_refusal_is_counted(results, (count - 1) as nat);
        crate::seqs::lemma_filter_take(results, count - 1, f);
    } else {
        crate::seqs::lemma_filter_nothing(results, f);
    }
}

/// A notification is taken by the publisher of its target's device, for its target's node; one
/// that has no route comes to nothing.
pub proof fn law_notifications_are_taken_by_their_device(
    feed: FeedView,
    client_handle: u32,
    value: DataValue,
    now: DateTime,
)
    requires
        routes_lead_somewhere(feed),
    ensures
        feed.routes.contains_key(client_handle) ==> {
            let target = feed.routes[client_handle];
            let (taken, messages) = feed_accepted(feed, client_handle, value, now);
            &&& messages == accepted(feed.publishers[target.entity], target.node, value, now).1
            &&& taken.publishers[target.entity] == accepted(
                feed.publishers[target.entity],
                target.node,
                value,
                now,
            ).0
        },
        !feed.routes.contains_key(client_handle) ==> feed_accepted(feed, client_handle, value, now)
            == (feed, Seq::<MessageView>::empty()),
{
}

/// A feed is flushed after a notification exactly when as many series wait as are configured, and
/// what the notification itself publishes comes first.
pub proof fn law_enough_series_are_flushed(
    feed: FeedView,
    client_handle: u32,
    value: DataValue,
    now: DateTime,
)
    ensures
        ({
            let (taken, messages) = feed_accepted(feed, client_handle, value, now);
            let waiting = waiting_series(ordered_keys(taken.publishers.dom()), taken.publishers);
            let (after, published) = feed_changed(feed, client_handle, value, now);
            &&& waiting < feed.flush_max_series ==> after == taken && published == messages
            &&& waiting >= feed.flush_max_series ==> published == messages + feed_flush(taken)
                && forall|e: Seq<char>| #[trigger]
                after.publishers.contains_key(e) ==> after.publishers[e].pending_series == 0
                    && after.publishers[e].batch.dom() == Set::<Seq<char>>::empty()
        }),
{
    assert(Map::<Seq<char>, BuilderView>::empty().dom() =~= Set::empty());
}

/// The waiting series are those of all devices together.
pub proof fn law_waiting_series_add_up(
    entities: Seq<Seq<char>>,
    publishers: Map<Seq<char>, PublisherView>,
    entity: Seq<char>,
)
    ensures
        waiting_series(Seq::empty(), publishers) == 0,
        waiting_series(entities.push(entity), publishers) == waiting_series(entities, publishers)
            + publishers[entity].pending_series,
{
    assert(entities.push(entity).drop_last() =~= entities);
}

proof fn lemma_flushed_entities(
    entities: Seq<Seq<char>>,
    publishers: Map<Seq<char>, PublisherView>,
    e: int,
    m: int,
)
    requires
        0 <= e < entities.len(),
        0 <= m < flush_messages(publishers[entities[e]]).len(),
    ensures
        flushed_entities(entities, publishers).contains(
            flush_messages(publishers[entities[e]])[m],
        ),
    decreases entities.len(),
{
    let before = flushed_entities(entities.drop_last(), publishers);
    let last = flush_messages(publishers[entities.last()]);
    let all = flushed_entities(entities, publishers);
    let message = flush_messages(publishers[entities[e]])[m];
    if e < entities.len() - 1 {
        lemma_flushed_entities(entities.drop_last(), publishers, e, m);
        assert(all[before.index_of(message)] == message);
    } else {
        assert(all[before.len() + m] == message);
    }
}

/// A flush hands out what waits in every device, and leaves what is remembered of events and
/// alarms.
pub proof fn law_a_flush_leaves_no_device_out(feed: FeedView, entity: Seq<char>, m: int)
    requires
        feed.publishers.dom().finite(),
        feed.publishers.contains_key(entity),
    ensures
        0 <= m < flush_messages(feed.publishers[entity]).len() ==> feed_flush(feed).contains(
            flush_messages(feed.publishers[entity])[m],
        ),
        feed_flushed(feed).routes == feed.routes,
        feed_flushed(feed).publishers.contains_key(entity),
        feed_flushed(feed).publishers[entity].last_event == feed.publishers[entity].last_event,
        feed_flushed(feed).publishers[entity].last_alarm == feed.publishers[entity].last_alarm,
        feed_flushed(feed).publishers[entity].entity == feed.publishers[entity].entity,
        feed_flushed(feed).publishers[entity].dedup_events == feed.publishers[entity].dedup_events,
{
    let entities = ordered_keys(feed.publishers.dom());
    lemma_finite_sets_have_an_order(feed.publishers.dom());
    assert(entities.to_set().contains(entity));
    let e = entities.index_of(entity);
    if 0 <= m < flush_messages(feed.publishers[entity]).len() {
        lemma_flushed_entities(entities, feed.publishers, e, m);
    }
}

/// A read hands each value to the node at its position: reading one node takes its value, and
/// reading more nodes takes theirs after those of the first ones.
pub proof fn law_values_belong_to_nodes_by_position(
    p: PublisherView,
    nodes: Seq<ResolvedNodeView>,
    values: Seq<DataValue>,
    node: ResolvedNodeView,
    value: DataValue,
    now: DateTime,
)
    requires
        nodes.len() == values.len(),
    ensures
        ({
            let n = nodes.len();
            let first = values_accepted(p, nodes, values, now, n);
            let all = values_accepted(p, nodes.push(node), values.push(value), now, n + 1);
            let last = accepted(first.0, node, value, now);
            &&& all.0 == last.0
            &&& all.1 == first.1 + last.1
        }),
        values_accepted(p, nodes, values, now, 0) == (p, Seq::<MessageView>::empty()),
{
    lemma_values_of_a_prefix(p, nodes, values, node, value, now, nodes.len());
}

proof fn lemma_values_of_a_prefix(
    p: PublisherView,
    nodes: Seq<ResolvedNodeView>,
    values: Seq<DataValue>,
    node: ResolvedNodeView,
    value: DataValue,
    now: DateTime,
    count: nat,
)
    requires
        count <= nodes.len(),
        count <= values.len(),
    ensures
        values_accepted(p, nodes.push(node), values.push(value), now, count) == values_accepted(
            p,
            nodes,
            values,
            now,
            count,
        ),
    decreases count,
{
    if count > 0 {
        lemma_values_of_a_prefix(p, nodes, values, node, value, now, (count - 1) as nat);
    }
}

/// After a read everything is flushed: what the values publish themselves comes first, then one
/// message for each type, and nothing waits. Nodes without a value, and values without a node,
/// come to nothing.
pub proof fn law_a_read_is_flushed_at_once(
    p: PublisherView,
    nodes: Seq<ResolvedNodeView>,
    values: Seq<DataValue>,
    now: DateTime,
)
    ensures
        ({
            let n = if nodes.len() < values.len() {
                nodes.len()
            } else {
                values.len()
            };
            let taken = values_accepted(p, nodes, values, now, n);
            let (after, messages) = cycle_read(p, nodes, values, now);
            &&& messages == taken.1 + flush_messages(taken.0)
            &&& after.pending_series == 0
            &&& after.batch.dom() == Set::<Seq<char>>::empty()
            &&& after.last_event == taken.0.last_event
            &&& after.last_alarm == taken.0.last_alarm
        }),
{
    assert(Map::<Seq<char>, BuilderView>::empty().dom() =~= Set::empty());
}

/// A reading loop starts with a publisher of its device that has seen nothing and suppresses
/// repeated events, and with no failures.
pub proof fn law_reading_loops_suppress_repeated_events(
    mqtt: TedgeMqtt,
    entity: EntityTopicId,
    server_id: String,
    r: ReadLoop,
)
    requires
        call_ensures(ReadLoop::new, (mqtt, entity, server_id), r),
    ensures
        r@.publisher.dedup_events,
        r@.publisher.entity == entity@,
        r@.publisher.server_id == server_id@,
        r@.publisher.last_event == Map::<NodeType, VariantView>::empty(),
        r@.failures == 0,
{
}

/// A server hangs below the gateway device where there is one, and below the main device where
/// there is none. It is registered under its own topic, with its name and its external id, and
/// stays registered.
pub proof fn law_servers_are_registered_below_their_parent(config: Config, server: ServerView)
    ensures
        ({
            let message = server_registration(config, server);
            &&& message.retain
            &&& message.topic == "te/"@ + ("device/"@ + server_topic_id(server) + "//"@)
            &&& message.payload matches PayloadView::Json(body)
            &&& text_member(body, "@type"@) == Some("child-device"@)
            &&& text_member(body, "name"@) == Some(server.name)
            &&& text_member(body, "@id"@) == server.external_id
            &&& config.gateway.enabled ==> text_member(body, "@parent"@) == Some(
                gateway_entity(config.gateway),
            ) && text_member(body, "type"@) == Some("c8y_OpcuaServer"@)
            &&& !config.gateway.enabled ==> text_member(body, "@parent"@) == Some(
                "device/main//"@,
            ) && text_member(body, "type"@) == Some("opcua-server"@)
        }),
{
    law_registrations_say_who_and_where(
        server_parent(config),
        server.name,
        if config.gateway.enabled {
            "c8y_OpcuaServer"@
        } else {
            "opcua-server"@
        },
        server.external_id,
    );
    reveal_strlit("te");
    reveal_strlit("/");
    reveal_strlit("te/");
    assert("te"@ + "/"@ =~= "te/"@);
}

/// A device is registered below its server, with its name, before its units are declared, and
/// stays registered.
pub proof fn law_devices_are_registered_below_their_server(
    config: Config,
    server_entity: Seq<char>,
    device: AppliedView,
)
    ensures
        ({
            let messages = device_announcement(config, server_entity, device);
            &&& messages.len() == 1 + unit_messages(
                device.entity,
                ordered_keys(units_of(device.mapping.nodes).dom()),
                units_of(device.mapping.nodes),
            ).len()
            &&& messages[0].retain
            &&& messages[0].topic == "te/"@ + device.entity
            &&& messages[0].payload matches PayloadView::Json(body)
            &&& text_member(body, "@type"@) == Some("child-device"@)
            &&& text_member(body, "@parent"@) == Some(server_entity)
            &&& text_member(body, "name"@) == Some(device.name)
            &&& text_member(body, "@id"@) is None
            &&& text_member(body, "type"@) == Some(
                if config.gateway.enabled {
                    "c8y_OpcuaDevice"@
                } else {
                    "opcua-device"@
                },
            )
            &&& messages.skip(1) == unit_messages(
                device.entity,
                ordered_keys(units_of(device.mapping.nodes).dom()),
                units_of(device.mapping.nodes),
            )
        }),
{
    let type_ = if config.gateway.enabled {
        "c8y_OpcuaDevice"@
    } else {
        "opcua-device"@
    };
    law_registrations_say_who_and_where(server_entity, device.name, type_, None);
    reveal_strlit("te");
    reveal_strlit("/");
    reveal_strlit("te/");
    assert("te"@ + "/"@ =~= "te/"@);
    let messages = device_announcement(config, server_entity, device);
    assert(messages.skip(1) =~= unit_messages(
        device.entity,
        ordered_keys(units_of(device.mapping.nodes).dom()),
        units_of(device.mapping.nodes),
    ));
}

/// A device is addressed by its server and its device type, and named after its device type and
/// its root; a device type without a name is named by its id.
pub proof fn law_devices_are_named_after_their_device_type(
    server: ServerView,
    mapping: ResolvedMappingView,
)
    ensures
        device_entity_of(server, mapping.device_type_id) == "device/"@ + (server_topic_id(server)
            + "-"@ + sanitized(mapping.device_type_id)) + "//"@,
        !is_blank(mapping.device_type_name) ==> device_name_of(mapping) == mapping.device_type_name
            + " ("@ + mapping.root_node_id + ")"@,
        is_blank(mapping.device_type_name) ==> device_name_of(mapping) == mapping.device_type_id
            + " ("@ + mapping.root_node_id + ")"@,
{
}

/// A device type is used on a server where the server's own list and its constraints both let it
/// in, and is planned where its root can be read.
pub proof fn law_device_types_are_used_where_both_let_them_in(
    server: ServerConfig,
    known_server_ids: &[String],
    table: NamespaceTable,
    loaded: LoadedDeviceType,
    r: Option<Plan>,
)
    requires
        call_ensures(prepare, (&server, known_server_ids, &table, &loaded), r),
    ensures
        r is Some <==> server_accepts(server.deep_view(), loaded.id@) && device_type_applies(
            *loaded.device_type,
            server.id@,
            known_server_ids@.map_values(|s: String| s@),
            table@,
        ) && root_of(*loaded.device_type, table@) is Ok,
        r matches Some(plan) ==> plan.device_type_id@ == loaded.id@ && plan.device_type_name@
            == loaded.device_type.name@ && plan.entries.deep_view() == planned_entries(
            *loaded.device_type,
            table@,
            loaded.device_type.mappings@.len(),
        ),
{
}

proof fn lemma_pending_positions(entries: Seq<EntryView>, count: nat)
    requires
        count <= entries.len() <= usize::MAX,
    ensures
        forall|w: int|
            0 <= w < pending(entries, count).len() ==> (#[trigger] pending(entries, count)[w]).0
                < count && entries[pending(entries, count)[w].0 as int].node_ref
                == NodeRefView::Path(pending(entries, count)[w].1),
        forall|v: int, w: int|
            0 <= v < w < pending(entries, count).len() ==> (#[trigger] pending(entries, count)[v]).0
                < (#[trigger] pending(entries, count)[w]).0,
    decreases count,
{
    if count > 0 {
        lemma_pending_positions(entries, (count - 1) as nat);
    }
}

proof fn lemma_translated_entry(
    entries: Seq<EntryView>,
    waiting: Seq<(usize, Seq<QualifiedNameView>)>,
    resolved: Seq<Option<NodeIdView>>,
    count: nat,
    i: int,
)
    requires
        0 <= i < entries.len(),
        count <= waiting.len(),
        count <= resolved.len(),
        forall|v: int, w: int|
            0 <= v < w < waiting.len() ==> (#[trigger] waiting[v]).0 < (#[trigger] waiting[w]).0,
    ensures
        ({
            let after = with_translated(entries, waiting, resolved, count);
            &&& after.len() == entries.len()
            &&& after[i].name == entries[i].name
            &&& after[i].actions == entries[i].actions
            &&& after[i].delivery == entries[i].delivery
            &&& forall|w: int|
                0 <= w < count && (#[trigger] waiting[w]).0 == i ==> match resolved[w] {
                    Some(id) => after[i].node_ref == NodeRefView::Known(id),
                    None => after[i].node_ref == entries[i].node_ref,
                }
            &&& (forall|w: int| 0 <= w < count ==> (#[trigger] waiting[w]).0 != i)
                ==> after[i].node_ref == entries[i].node_ref
        }),
    decreases count,
{
    if count > 0 {
        let less = (count - 1) as nat;
        lemma_translated_entry(entries, waiting, resolved, less, i);
        let before = with_translated(entries, waiting, resolved, less);
        let after = with_translated(entries, waiting, resolved, count);
        if waiting[count - 1].0 == i {
            assert forall|w: int| 0 <= w < less implies (#[trigger] waiting[w]).0 != i by {
                assert(waiting[w].0 < waiting[count - 1].0);
            }
        } else {
            assert(after[i] == before[i]);
        }
    }
}

/// Each pending entry gets the node that its own browse path was translated to, by its position
/// among the pending ones, and stays as it is where the path led nowhere. What an entry publishes,
/// and how, does not change.
pub proof fn law_translated_paths_go_to_their_entries(
    entries: Seq<EntryView>,
    resolved: Seq<Option<NodeIdView>>,
    i: int,
    w: int,
)
    requires
        entries.len() <= usize::MAX,
        0 <= i < entries.len(),
    ensures
        ({
            let waiting = pending(entries, entries.len());
            let after = translated(entries, resolved);
            &&& after.len() == entries.len()
            &&& after[i].name == entries[i].name
            &&& after[i].actions == entries[i].actions
            &&& after[i].delivery == entries[i].delivery
            &&& entries[i].node_ref is Known ==> after[i].node_ref == entries[i].node_ref
            &&& 0 <= w < waiting.len() && waiting[w].0 == i ==> {
                &&& w < resolved.len() && resolved[w] is Some ==> after[i].node_ref
                    == NodeRefView::Known(resolved[w]->Some_0)
                &&& w >= resolved.len() || resolved[w] is None ==> after[i].node_ref
                    == entries[i].node_ref
            }
        }),
{
    let waiting = pending(entries, entries.len());
    let count = if waiting.len() < resolved.len() {
        waiting.len()
    } else {
        resolved.len()
    };
    lemma_pending_positions(entries, entries.len());
    lemma_translated_entry(entries, waiting, resolved, count, i);
    if entries[i].node_ref is Known {
        assert forall|v: int| 0 <= v < count implies (#[trigger] waiting[v]).0 != i by {}
    }
    if 0 <= w < waiting.len() && waiting[w].0 == i && w >= count {
        assert forall|v: int| 0 <= v < count implies (#[trigger] waiting[v]).0 != i by {
            assert(waiting[v].0 < waiting[w].0);
        }
    }
}

/// The pending entries are handed out in their order, each once.
pub proof fn law_pending_entries_stand_in_order(entries: Seq<EntryView>, v: int, w: int)
    requires
        entries.len() <= usize::MAX,
        0 <= v < w < pending(entries, entries.len()).len(),
    ensures
        pending(entries, entries.len())[v].0 < pending(entries, entries.len())[w].0
            < entries.len(),
{
    lemma_pending_positions(entries, entries.len());
}

/// A device type comes to something exactly when one of its entries has a node, and keeps its id,
/// its name and its root.
pub proof fn law_resolved_device_types_have_nodes(
    plan: Plan,
    resolved: Vec<Option<NodeId>>,
    r: Option<ResolvedMapping>,
)
    requires
        call_ensures(complete, (plan, resolved), r),
    ensures
        ({
            let entries = translated(plan.deep_view().entries, resolved.deep_view());
            &&& r is Some <==> exists|i: int|
                0 <= i < entries.len() && (#[trigger] entries[i]).node_ref is Known
            &&& r matches Some(mapping) ==> {
                &&& mapping.device_type_id@ == plan.device_type_id@
                &&& mapping.device_type_name@ == plan.device_type_name@
                &&& mapping.root_node_id@ == node_id_text(plan.root_node_id.deep_view())
                &&& mapping.nodes.deep_view() == grouped(entries)
            }
        }),
{
    let entries = translated(plan.deep_view().entries, resolved.deep_view());
    law_nodes_are_delivered_as_their_entries(entries);
    if grouped(entries).len() > 0 {
        assert(is_node_of(grouped(entries)[0], entries));
    }
}

/// An entry that has got its node id has it, and is otherwise as it was, as are all others.
pub proof fn law_resolving_sets_the_node_alone(
    entries: Seq<EntryView>,
    index: int,
    node_id: NodeIdView,
    i: int,
)
    requires
        0 <= i < entries.len(),
    ensures
        with_resolved(entries, index, node_id).len() == entries.len(),
        i == index ==> with_resolved(entries, index, node_id)[i] == (EntryView {
            node_ref: NodeRefView::Known(node_id),
            ..entries[i]
        }),
        i != index ==> with_resolved(entries, index, node_id)[i] == entries[i],
{
}

/// What is asked of a server's subscription are the items of all targets, target by target.
pub proof fn law_the_subscription_asks_for_all_targets(
    applied: Vec<AppliedDeviceType>,
    config: SubscriptionConfig,
    r: SubscriptionRequest,
    i: int,
)
    requires
        call_ensures(subscription_request, (&applied, &config), r),
        0 <= i < r.targets@.len(),
    ensures
        r.targets.deep_view() == all_targets(applied.deep_view()),
        r.items@.len() == r.targets@.len(),
        r.items@[i].deep_view() == item_of(
            r.targets@[i].node.deep_view(),
            config.default_queue_size,
        ),
{
    let targets = r.targets.deep_view();
    let items = r.items.deep_view();
    assert(targets.len() == r.targets@.len());
    assert(items.len() == r.items@.len());
    assert(items[i] == r.items@[i].deep_view());
    assert(targets[i] == r.targets@[i].deep_view());
    law_items_stand_in_the_order_of_their_targets(targets, config.default_queue_size, i);
}

/// A device is that of its server and its device type, and publishes the mapping as it was
/// resolved.
pub proof fn law_devices_are_those_of_their_mapping(
    server: ServerConfig,
    mapping: ResolvedMapping,
    r: AppliedDeviceType,
)
    requires
        call_ensures(AppliedDeviceType::new, (&server, mapping), r),
    ensures
        r.entity@ == device_entity_of(server.deep_view(), mapping.device_type_id@),
        r.name@ == device_name_of(mapping.deep_view()),
        r.mapping.deep_view() == mapping.deep_view(),
{
}

/// What is announced of servers and devices is what is stated of them.
pub proof fn law_servers_and_devices_are_announced(
    mqtt: TedgeMqtt,
    config: Config,
    server: ServerConfig,
    registered: Message,
    entity: EntityTopicId,
    device: AppliedDeviceType,
    announced: Vec<Message>,
)
    requires
        call_ensures(register_server, (&mqtt, &config, &server), registered),
        call_ensures(announce_device, (&mqtt, &config, &entity, &device), announced),
    ensures
        registered.deep_view() == server_registration(config, server.deep_view()),
        announced.deep_view() == device_announcement(config, entity@, device.deep_view()),
{
}

/// A device type that is used and whose root cannot be read is reported with the error, and no
/// other.
pub proof fn law_unreadable_roots_are_reported(
    server: ServerConfig,
    known_server_ids: &[String],
    table: NamespaceTable,
    loaded: LoadedDeviceType,
    planned: Option<Plan>,
    error: Option<MappingError>,
)
    requires
        call_ensures(prepare, (&server, known_server_ids, &table, &loaded), planned),
        call_ensures(planning_error, (&server, known_server_ids, &table, &loaded), error),
    ensures
        planned is None || error is None,
        planned is Some || error is Some <==> is_used(
            server.deep_view(),
            known_server_ids@.map_values(|s: String| s@),
            table@,
            loaded,
        ),
        error matches Some(e) ==> root_of(*loaded.device_type, table@) == Err::<
            NodeIdView,
            MappingErrorView,
        >(e.deep_view()),
{
}

/// A feed is made of the items that were created, counts those that were refused, and follows each
/// notification.
pub proof fn law_feeds_follow_their_notifications(
    targets: Vec<SubscribedTarget>,
    results: Vec<Result<u32, u32>>,
    mqtt: TedgeMqtt,
    server_id: &str,
    config: SubscriptionConfig,
    made: (SubscriptionFeed, usize),
    feed: &mut SubscriptionFeed,
    change: DataChange,
    now: DateTime,
    messages: Vec<Message>,
    flushed: &mut SubscriptionFeed,
    handed_out: Vec<Message>,
)
    requires
        call_ensures(SubscriptionFeed::new, (targets, &results, &mqtt, server_id, &config), made),
        call_ensures(SubscriptionFeed::change_at, (feed, &change, now), messages),
        call_ensures(SubscriptionFeed::flush_all, (flushed,), handed_out),
        targets@.len() == results@.len(),
    ensures
        made.0@ == feed_of(
            targets.deep_view(),
            results@,
            server_id@,
            config.flush_max_series,
            targets@.len(),
        ),
        made.1 == results@.filter(|r: Result<u32, u32>| r is Err).len(),
        (final(feed)@, messages.deep_view()) == feed_changed(
            old(feed)@,
            change.client_handle,
            change.value,
            now,
        ),
        final(flushed)@ == feed_flushed(old(flushed)@),
        handed_out.deep_view() == feed_flush(old(flushed)@),
{
    law_every_refusal_is_counted(results@, results@.len());
    assert(results@.take(results@.len() as int) =~= results@);
}

/// A read that works is taken and starts the counting of failures over; the third failure in a row
/// ends the loop, and no earlier one.
pub proof fn law_reading_loops_count_their_failures(
    reading: &mut ReadLoop,
    nodes: Vec<ResolvedNode>,
    values: Vec<DataValue>,
    now: DateTime,
    messages: Vec<Message>,
    failing: &mut ReadLoop,
    ended: bool,
)
    requires
        call_ensures(ReadLoop::read_at, (reading, &nodes, &values, now), messages),
        call_ensures(ReadLoop::failed, (failing,), ended),
        old(failing)@.failures < u32::MAX,
    ensures
        final(reading)@.failures == 0,
        (final(reading)@.publisher, messages.deep_view()) == cycle_read(
            old(reading)@.publisher,
            nodes.deep_view(),
            values@,
            now,
        ),
        final(failing)@.failures == old(failing)@.failures + 1,
        final(failing)@.publisher == old(failing)@.publisher,
        ended <==> old(failing)@.failures >= 2,
{
}

} // verus!
