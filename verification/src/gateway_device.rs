//! The Cumulocity gateway device.
//!
//! One more thin-edge child device of the main device, typed `c8y_OPCUA_Device_Agent`, with the
//! fragments the existing OPC UA user interface reads. Everything here goes out over MQTT:
//! thin-edge passes a child device's `type` straight through to the managed object, and
//! `twin/<fragment>` becomes an inventory fragment of that name, so no inventory is written over
//! HTTP.
//!
//! One fragment is deliberately absent: `com_cumulocity_model_Agent` would make Cumulocity treat
//! the gateway object as its own agent and route the gateway's operations to it, where they would
//! have to be polled for. Without it the operations are routed to the thin-edge agent instead and
//! arrive on the bridged `c8y/devicecontrol/notifications` topic, so there is nothing to poll. See
//! [`crate::operations`].
use crate::config::{gateway_external_id, GatewayConfig};
use crate::json::{self, empty_object, lemma_object_model, members_model, Json, JsonView};
use crate::mqtt::{
    child_registration, json_message, law_registrations_say_who_and_where, Message, MessageView,
    PayloadView, TedgeMqtt, GATEWAY_MO_TYPE,
};
use crate::text_map::TextMap;
use crate::topic::{
    self, channel_topic_of, child_device_id, registration_topic_of, sanitized, EntityTopicId,
};
use vstd::prelude::*;

verus! {

/// The entity of the gateway device.
pub open spec fn gateway_entity(gateway: GatewayConfig) -> Seq<char> {
    child_device_id(sanitized(gateway.id@))
}

/// Topic id of the gateway device.
pub fn entity(gateway: &GatewayConfig) -> (r: EntityTopicId)
    ensures
        r@ == gateway_entity(*gateway),
{
    let segment: String = topic::sanitize_id(gateway.id.as_str());
    EntityTopicId::child_device(segment.as_str())
}

/// The `c8y_Firmware` fragment.
pub open spec fn firmware_model(version: Seq<char>) -> JsonView {
    JsonView::Object(
        Map::empty().insert("name"@, JsonView::String("c8y-opcua-gateway-rs"@)).insert(
            "version"@,
            JsonView::String(version),
        ),
    )
}

/// A list of texts as JSON.
pub open spec fn texts_model(texts: Seq<Seq<char>>) -> JsonView {
    JsonView::Array(texts.map_values(|s: Seq<char>| JsonView::String(s)))
}

fn texts_json(texts: &Vec<String>) -> (r: Json)
    ensures
        r.model() == texts_model(texts.deep_view()),
{
    let mut items: Vec<Json> = Vec::new();
    let mut i: usize = 0;
    while i < texts.len()
        invariant
            i <= texts@.len(),
            items@.len() == i,
            forall|j: int|
                0 <= j < i ==> (#[trigger] items@[j]).model() == JsonView::String(texts@[j]@),
        decreases texts@.len() - i,
    {
        items.push(Json::String(texts[i].clone()));
        i = i + 1;
    }
    let r = Json::Array(items);
    proof {
        assert(r.model()->Array_0 =~= texts_model(texts.deep_view())->Array_0);
    }
    r
}

/// What registers the gateway device, and what is published once that has gone out.
#[derive(Debug)]
pub struct GatewayRegistration {
    pub registration: Message,
    pub fragments: Vec<Message>,
}

/// The fragments of the gateway device. thin-edge child devices carry no `c8y_IsDevice`, and
/// without it the object does not appear in a device list — only in the hierarchy below the main
/// device.
pub open spec fn fragment_messages(gateway: GatewayConfig, version: Seq<char>) -> Seq<
    MessageView,
> {
    let entity = gateway_entity(gateway);
    seq![
        json_message(entity, "twin/"@ + "c8y_IsDevice"@, empty_object(), true),
        json_message(
            entity,
            "twin/"@ + "c8y_SupportedOperations"@,
            texts_model(gateway.supported_operations.deep_view()),
            true,
        ),
        json_message(entity, "twin/"@ + "c8y_Firmware"@, firmware_model(version), true),
    ]
}

/// Register the gateway device and publish its fragments. Retained, before any server appears.
///
/// The external id is set explicitly rather than left to thin-edge to derive, because the same
/// value has to be recognisable when the gateway later looks its own managed object up to read
/// the servers registered on it.
///
/// Registering an entity thin-edge already knows is a no-op, and there is no safe way to undo it
/// from here — see [`missing_object_help`].
pub fn register(gateway: &GatewayConfig, mqtt: &TedgeMqtt, version: &str) -> (r:
    GatewayRegistration)
    ensures
        r.registration.deep_view() == (MessageView {
            topic: registration_topic_of(gateway_entity(*gateway)),
            payload: PayloadView::Json(
                child_registration(
                    "device/main//"@,
                    gateway.name@,
                    "c8y_OPCUA_Device_Agent"@,
                    Some(gateway_external_id(*gateway)),
                ),
            ),
            retain: true,
        }),
        r.fragments.deep_view() == fragment_messages(*gateway, version@),
{
    broadcast use lemma_object_model;

    let device: EntityTopicId = entity(gateway);
    let external_id: String = gateway.external_id();
    let parent: EntityTopicId = EntityTopicId::main_device();
    let registration: Message = mqtt.register_child_device(
        &device,
        &parent,
        gateway.name.as_str(),
        GATEWAY_MO_TYPE,
        Some(external_id.as_str()),
    );
    let mut firmware: TextMap<Json> = TextMap::new();
    proof {
        assert(members_model(firmware@) =~= Map::empty());
    }
    json::put(&mut firmware, "name", Json::text("c8y-opcua-gateway-rs"));
    json::put(&mut firmware, "version", Json::text(version));
    let mut fragments: Vec<Message> = Vec::new();
    fragments.push(mqtt.publish_twin(&device, "c8y_IsDevice", Json::empty()));
    fragments.push(
        mqtt.publish_twin(
            &device,
            "c8y_SupportedOperations",
            texts_json(&gateway.supported_operations),
        ),
    );
    fragments.push(mqtt.publish_twin(&device, "c8y_Firmware", Json::Object(firmware)));
    proof {
        assert(fragments.deep_view() =~= fragment_messages(*gateway, version@));
    }
    GatewayRegistration { registration, fragments }
}

/// What an operator is told about a gateway object that is gone.
#[derive(Debug)]
pub struct MissingObjectHelp {
    pub entity: EntityTopicId,
    pub external_id: String,
    pub advice: &'static str,
}

/// What to say of a gateway object that Cumulocity no longer has and thin-edge will not recreate.
///
/// Deleting the gateway device in Cumulocity leaves the entity registered on the device, and
/// thin-edge only creates a managed object when it first learns of an entity. Publishing the same
/// registration again is a no-op, so the object stays gone and everything below it is orphaned.
///
/// There is no fix the gateway can apply. Clearing the registration makes the agent auto-register
/// the entity from a default payload, which drops the `c8y_OPCUA_Device_Agent` type and the
/// external id; and thin-edge's entity store is append-only with no deletion records, so entities
/// removed through its HTTP API come back the next time `tedge-agent` restarts. What does work is
/// giving the gateway a topic id thin-edge has never seen, which is one line of configuration.
pub fn missing_object_help(gateway: &GatewayConfig) -> (r: MissingObjectHelp)
    ensures
        r.entity@ == gateway_entity(*gateway),
        r.external_id@ == gateway_external_id(*gateway),
        r.advice@
            == "the gateway managed object does not exist and thin-edge will not recreate it: the entity is already registered, and a repeated registration is ignored. Set a new `gateway.id` in the configuration and restart — a topic id thin-edge has not seen registers cleanly. Servers registered on the old object have to be recreated"@,
{
    MissingObjectHelp {
        entity: entity(gateway),
        external_id: gateway.external_id(),
        advice:
            "the gateway managed object does not exist and thin-edge will not recreate it: the entity is already registered, and a repeated registration is ignored. Set a new `gateway.id` in the configuration and restart — a topic id thin-edge has not seen registers cleanly. Servers registered on the old object have to be recreated",
    }
}

// Laws -----------------------------------------------------------------------------

/// The gateway device is addressed by its id and registered below the main device, with its name
/// and external id. Its fragments are retained, one for each: that it is a device, what operations
/// it supports, and what runs on it.
pub proof fn law_the_gateway_device_says_what_it_is(
    gateway: GatewayConfig,
    mqtt: TedgeMqtt,
    version: &str,
    r: GatewayRegistration,
)
    requires
        call_ensures(register, (&gateway, &mqtt, version), r),
    ensures
        ({
            let entity = "device/"@ + sanitized(gateway.id@) + "//"@;
            let fragments = r.fragments.deep_view();
            &&& r.registration.topic@ == "te"@ + "/"@ + entity
            &&& r.registration.retain
            &&& r.registration.payload.deep_view() matches PayloadView::Json(body)
            &&& json::text_member(body, "@parent"@) == Some("device/main//"@)
            &&& json::text_member(body, "name"@) == Some(gateway.name@)
            &&& json::text_member(body, "type"@) == Some("c8y_OPCUA_Device_Agent"@)
            &&& json::text_member(body, "@id"@) == Some(
                gateway.device_id@ + ":device:"@ + gateway.id@,
            )
            &&& fragments.len() == 3
            &&& forall|i: int| 0 <= i < 3 ==> (#[trigger] fragments[i]).retain
            &&& fragments[0].topic == channel_topic_of(entity, "twin/c8y_IsDevice"@)
            &&& fragments[1].topic == channel_topic_of(entity, "twin/c8y_SupportedOperations"@)
            &&& fragments[2].topic == channel_topic_of(entity, "twin/c8y_Firmware"@)
            &&& fragments[0].payload == PayloadView::Json(JsonView::Object(Map::empty()))
        }),
{
    law_registrations_say_who_and_where(
        "device/main//"@,
        gateway.name@,
        "c8y_OPCUA_Device_Agent"@,
        Some(gateway_external_id(gateway)),
    );
    reveal_strlit("twin/");
    reveal_strlit("c8y_IsDevice");
    reveal_strlit("twin/c8y_IsDevice");
    reveal_strlit("c8y_SupportedOperations");
    reveal_strlit("twin/c8y_SupportedOperations");
    reveal_strlit("c8y_Firmware");
    reveal_strlit("twin/c8y_Firmware");
    assert("twin/"@ + "c8y_IsDevice"@ =~= "twin/c8y_IsDevice"@);
    assert("twin/"@ + "c8y_SupportedOperations"@ =~= "twin/c8y_SupportedOperations"@);
    assert("twin/"@ + "c8y_Firmware"@ =~= "twin/c8y_Firmware"@);
}

/// The supported operations are those that are configured, in their order, and the firmware is
/// this gateway in its version.
pub proof fn law_fragments_hold_the_configured_operations(
    gateway: GatewayConfig,
    version: Seq<char>,
    i: int,
)
    requires
        0 <= i < gateway.supported_operations@.len(),
    ensures
        fragment_messages(gateway, version)[1].payload matches PayloadView::Json(operations) && (
        operations matches JsonView::Array(names) && names.len()
            == gateway.supported_operations@.len() && names[i] == JsonView::String(
            gateway.supported_operations@[i]@,
        )),
        fragment_messages(gateway, version)[2].payload matches PayloadView::Json(firmware)
            && json::text_member(firmware, "version"@) == Some(version) && json::text_member(
            firmware,
            "name"@,
        ) == Some("c8y-opcua-gateway-rs"@),
{
    reveal_strlit("name");
    reveal_strlit("version");
    assert("name"@.len() == 4);
    assert("version"@.len() == 7);
    assert(gateway.supported_operations.deep_view()[i] == gateway.supported_operations@[i]@);
}

} // verus!
