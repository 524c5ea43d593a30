//! What is published to the local thin-edge MQTT broker.
//!
//! Everything goes out at QoS 1. The broker's persistent queue and the thin-edge bridge
//! own store-and-forward, so there is no offline buffer here.
use crate::clock::seconds;
use crate::json::{
    self, lemma_object_model, member, members_model, text_member, Json, JsonView,
};
use crate::text;
use crate::text_map::TextMap;
use crate::topic::{channel_topic_of, main_service_id, registration_topic_of, EntityTopicId};
use std::time::Duration;
use vstd::prelude::*;

verus! {

/// Entity `type` reported for the gateway's own service entity.
const SERVICE_TYPE: &'static str = "service";

/// Entity `type` reported for each OPC UA server.
pub const OPCUA_SERVER_ENTITY_TYPE: &'static str = "opcua-server";

/// Entity `type` reported for each device type applied to a server.
pub const OPCUA_DEVICE_ENTITY_TYPE: &'static str = "opcua-device";

/// Cumulocity managed object types, used as the entity `type` when the gateway device is
/// enabled.
///
/// thin-edge passes a child device's `type` straight through to the managed object, so
/// these are what make the existing OPC UA user interface recognise the objects that are
/// registered. Nothing else about them is special.
pub const GATEWAY_MO_TYPE: &'static str = "c8y_OPCUA_Device_Agent";

pub const OPCUA_SERVER_MO_TYPE: &'static str = "c8y_OpcuaServer";

pub const OPCUA_DEVICE_MO_TYPE: &'static str = "c8y_OpcuaDevice";

/// The bridged Cumulocity topic on which operations arrive when the gateway device is
/// enabled.
///
/// Operations are delivered here rather than on a `te/…/cmd/` topic because
/// `c8y_OpcuaConfiguration` is a Cumulocity operation name with no thin-edge command
/// equivalent, and declaring one would mean writing a file below
/// `/etc/tedge/operations/c8y/` — a runtime path the gateway will not create. Reading the
/// bridged topic needs neither.
pub const C8Y_OPERATION_TOPIC: &'static str = "c8y/devicecontrol/notifications";

/// SmartREST publish topic for a child entity, addressed by external id.
pub open spec fn smartrest_topic_of(external_id: Seq<char>) -> Seq<char> {
    "c8y/s/us/"@ + external_id
}

/// One message received from the broker.
#[derive(Debug)]
pub struct IncomingMessage {
    pub topic: String,
    pub payload: Vec<u8>,
}

/// What a message carries.
#[derive(Debug)]
pub enum Payload {
    /// A JSON document.
    Json(Json),
    /// A text as it is.
    Text(String),
    /// Nothing. Retained, this clears what the topic held.
    Empty,
}

/// One message for the broker.
#[derive(Debug)]
pub struct Message {
    pub topic: String,
    pub payload: Payload,
    pub retain: bool,
}

pub enum PayloadView {
    Json(JsonView),
    Text(Seq<char>),
    Empty,
}

pub struct MessageView {
    pub topic: Seq<char>,
    pub payload: PayloadView,
    pub retain: bool,
}

impl DeepView for Payload {
    type V = PayloadView;

    open spec fn deep_view(&self) -> PayloadView {
        match self {
            Payload::Json(json) => PayloadView::Json(json.model()),
            Payload::Text(text) => PayloadView::Text(text@),
            Payload::Empty => PayloadView::Empty,
        }
    }
}

impl DeepView for Message {
    type V = MessageView;

    open spec fn deep_view(&self) -> MessageView {
        MessageView {
            topic: self.topic@,
            payload: self.payload.deep_view(),
            retain: self.retain,
        }
    }
}

/// A JSON document on a channel of an entity.
pub open spec fn json_message(
    entity: Seq<char>,
    channel: Seq<char>,
    payload: JsonView,
    retain: bool,
) -> MessageView {
    MessageView {
        topic: channel_topic_of(entity, channel),
        payload: PayloadView::Json(payload),
        retain,
    }
}

/// The message that clears a retained one.
pub open spec fn clearing_message(topic: Seq<char>) -> MessageView {
    MessageView { topic, payload: PayloadView::Empty, retain: true }
}

#[derive(Debug)]
pub struct MqttConfig {
    pub host: String,
    pub port: u16,
    pub client_id: String,
    /// Bound on in-flight publishes; also the point at which publishing back-pressures.
    pub capacity: usize,
    pub keep_alive: Duration,
    /// Service name of the gateway on the main device.
    pub service_name: String,
}

impl Default for MqttConfig {
    fn default() -> (r: Self)
        ensures
            r.host@ == "127.0.0.1"@,
            r.port == 1883,
            r.client_id@ == "c8y-opcua-gateway"@,
            r.capacity == 1024,
            r.keep_alive == seconds(60),
            r.service_name@ == "opcua-gateway"@,
    {
        MqttConfig {
            host: "127.0.0.1".to_owned(),
            port: 1883,
            client_id: "c8y-opcua-gateway".to_owned(),
            capacity: 1024,
            keep_alive: Duration::from_secs(60),
            service_name: "opcua-gateway".to_owned(),
        }
    }
}

/// What follows the last `/` of a text.
pub open spec fn last_segment(s: Seq<char>) -> Seq<char>
    decreases s.len(),
{
    if s.len() == 0 || s.last() == '/' {
        Seq::empty()
    } else {
        last_segment(s.drop_last()).push(s.last())
    }
}

fn last_segment_of(s: &str) -> (r: String)
    ensures
        r@ == last_segment(s@),
{
    let v: Vec<char> = text::chars_of(s);
    let mut from: usize = v.len();
    proof {
        assert(v@.take(from as int) =~= s@);
        assert(last_segment(s@) + v@.skip(from as int) =~= last_segment(s@));
    }
    while from > 0 && v[from - 1] != '/'
        invariant
            from <= v@.len(),
            v@ == s@,
            last_segment(v@.take(from as int)) + v@.skip(from as int) == last_segment(s@),
        decreases from,
    {
        proof {
            assert(v@.take(from as int).drop_last() =~= v@.take(from - 1));
            assert(last_segment(v@.take(from - 1)).push(v@[from - 1]) + v@.skip(from as int)
                =~= last_segment(v@.take(from - 1)) + v@.skip(from - 1));
        }
        from = from - 1;
    }
    proof {
        assert(last_segment(v@.take(from as int)) =~= Seq::empty());
        assert(v@.subrange(from as int, v@.len() as int) =~= v@.skip(from as int));
        assert(last_segment(s@) =~= v@.skip(from as int));
    }
    text::text_of(&v, from, v.len())
}

/// The registration of the gateway's service.
pub open spec fn service_registration(service: Seq<char>) -> JsonView {
    JsonView::Object(
        Map::empty().insert("@type"@, JsonView::String("service"@)).insert(
            "@parent"@,
            JsonView::String("device/main//"@),
        ).insert("name"@, JsonView::String(last_segment(service))).insert(
            "type"@,
            JsonView::String("systemd"@),
        ),
    )
}

/// The registration of a child device.
pub open spec fn child_registration(
    parent: Seq<char>,
    name: Seq<char>,
    type_: Seq<char>,
    external_id: Option<Seq<char>>,
) -> JsonView {
    let members = Map::empty().insert("@type"@, JsonView::String("child-device"@)).insert(
        "@parent"@,
        JsonView::String(parent),
    ).insert("name"@, JsonView::String(name)).insert("type"@, JsonView::String(type_));
    JsonView::Object(
        match external_id {
            Some(id) => members.insert("@id"@, JsonView::String(id)),
            None => members,
        },
    )
}

/// The health of the gateway's service.
pub open spec fn health_up(pid: u32, time: u64) -> JsonView {
    JsonView::Object(
        Map::empty().insert("status"@, JsonView::String("up"@)).insert(
            "pid"@,
            JsonView::Integer(pid as i128),
        ).insert("time"@, JsonView::Integer(time as i128)),
    )
}

/// The health that the broker reports once the gateway is gone.
pub open spec fn health_down() -> JsonView {
    JsonView::Object(Map::empty().insert("status"@, JsonView::String("down"@)))
}

/// Messages for the `te/` topics.
#[derive(Debug)]
pub struct TedgeMqtt {
    service: EntityTopicId,
}

impl View for TedgeMqtt {
    /// The gateway's service entity.
    type V = Seq<char>;

    closed spec fn view(&self) -> Seq<char> {
        self.service@
    }
}

impl Clone for TedgeMqtt {
    fn clone(&self) -> (r: Self)
        ensures
            r@ == self@,
    {
        TedgeMqtt { service: self.service.clone() }
    }
}

impl TedgeMqtt {
    /// The messages of the service that `config` names, and the last will.
    ///
    /// The last will publishes health `down` retained, so a crashed gateway does not leave
    /// a stale `up` behind.
    pub fn new(config: &MqttConfig) -> (r: (Self, Message))
        ensures
            r.0@ == main_service_id(config.service_name@),
            r.1.deep_view() == json_message(
                main_service_id(config.service_name@),
                "status/health"@,
                health_down(),
                true,
            ),
    {
        broadcast use lemma_object_model;

        let service: EntityTopicId = EntityTopicId::main_service(config.service_name.as_str());
        let mut members: TextMap<Json> = TextMap::new();
        proof {
            assert(members_model(members@) =~= Map::empty());
        }
        json::put(&mut members, "status", Json::text("down"));
        let will: Message = Message {
            topic: service.channel_topic("status/health"),
            payload: Payload::Json(Json::Object(members)),
            retain: true,
        };
        (TedgeMqtt { service }, will)
    }

    pub fn service(&self) -> (r: &EntityTopicId)
        ensures
            r@ == self@,
    {
        &self.service
    }

    /// Register the gateway as a service on the main device. Retained, before any data.
    pub fn register_service(&self) -> (r: Message)
        ensures
            r.deep_view() == (MessageView {
                topic: registration_topic_of(self@),
                payload: PayloadView::Json(service_registration(self@)),
                retain: true,
            }),
    {
        broadcast use lemma_object_model;

        let name: String = last_segment_of(self.service.as_str());
        let parent: EntityTopicId = EntityTopicId::main_device();
        let mut members: TextMap<Json> = TextMap::new();
        proof {
            assert(members_model(members@) =~= Map::empty());
        }
        json::put(&mut members, "@type", Json::text(SERVICE_TYPE));
        json::put(&mut members, "@parent", Json::text(parent.as_str()));
        json::put(&mut members, "name", Json::String(name));
        json::put(&mut members, "type", Json::text("systemd"));
        Message {
            topic: self.service.registration_topic(),
            payload: Payload::Json(Json::Object(members)),
            retain: true,
        }
    }

    /// Register a child device below `parent`. Retained, before any data.
    ///
    /// `parent` may itself be a child device: thin-edge nests entities by `@parent`, which
    /// is how a device type applied to a server becomes a device below that server.
    ///
    /// `external_id` sets `@id`. Leaving it `None` lets thin-edge derive the external id
    /// from the topic path, which is what a device-configured server wants. Setting it is
    /// how an existing managed object is adopted: the same external id is planted on that
    /// object, so Cumulocity resolves the mapper's child-device creation to the object that
    /// is already there instead of making a second one.
    pub fn register_child_device(
        &self,
        entity: &EntityTopicId,
        parent: &EntityTopicId,
        name: &str,
        type_: &str,
        external_id: Option<&str>,
    ) -> (r: Message)
        ensures
            r.deep_view() == (MessageView {
                topic: registration_topic_of(entity@),
                payload: PayloadView::Json(
                    child_registration(parent@, name@, type_@, external_id.deep_view()),
                ),
                retain: true,
            }),
    {
        broadcast use lemma_object_model;

        let mut members: TextMap<Json> = TextMap::new();
        proof {
            assert(members_model(members@) =~= Map::empty());
        }
        json::put(&mut members, "@type", Json::text("child-device"));
        json::put(&mut members, "@parent", Json::text(parent.as_str()));
        json::put(&mut members, "name", Json::text(name));
        json::put(&mut members, "type", Json::text(type_));
        if let Some(id) = external_id {
            json::put(&mut members, "@id", Json::text(id));
        }
        Message {
            topic: entity.registration_topic(),
            payload: Payload::Json(Json::Object(members)),
            retain: true,
        }
    }

    /// Retained `twin/<fragment>`, which the Cumulocity mapper turns into an inventory
    /// fragment of that name. This is how every `c8y_ua_*` fragment the user interface
    /// reads is published without writing to inventory over HTTP.
    pub fn publish_twin(
        &self,
        entity: &EntityTopicId,
        fragment: &str,
        payload: Json,
    ) -> (r: Message)
        ensures
            r.deep_view() == json_message(
                entity@,
                "twin/"@ + fragment@,
                payload.model(),
                true,
            ),
    {
        let channel: String = text::concat("twin/", fragment);
        channel_json(entity, channel.as_str(), payload, true)
    }

    /// Remove a twin fragment: an empty payload, retained.
    pub fn clear_twin(&self, entity: &EntityTopicId, fragment: &str) -> (r: Message)
        ensures
            r.deep_view() == clearing_message(
                channel_topic_of(entity@, "twin/"@ + fragment@),
            ),
    {
        let channel: String = text::concat("twin/", fragment);
        Message {
            topic: entity.channel_topic(channel.as_str()),
            payload: Payload::Empty,
            retain: true,
        }
    }

    /// Publish one SmartREST record for the entity with this external id.
    ///
    /// Used only to close out Cumulocity operations, which have no thin-edge equivalent.
    /// Telemetry never goes this way — it goes on `te/` topics so the mapper and bridge own
    /// it.
    pub fn publish_smartrest(&self, external_id: &str, record: &str) -> (r: Message)
        ensures
            r.deep_view() == (MessageView {
                topic: smartrest_topic_of(external_id@),
                payload: PayloadView::Text(record@),
                retain: false,
            }),
    {
        Message {
            topic: smartrest_topic(external_id),
            payload: Payload::Text(record.to_owned()),
            retain: false,
        }
    }

    /// Publish health `up`. Retained, on startup.
    pub fn publish_health_up(&self, pid: u32, unix_time: u64) -> (r: Message)
        ensures
            r.deep_view() == json_message(
                self@,
                "status/health"@,
                health_up(pid, unix_time),
                true,
            ),
    {
        broadcast use lemma_object_model;

        let mut members: TextMap<Json> = TextMap::new();
        proof {
            assert(members_model(members@) =~= Map::empty());
        }
        json::put(&mut members, "status", Json::text("up"));
        json::put(&mut members, "pid", Json::Integer(pid as i128));
        json::put(&mut members, "time", Json::Integer(unix_time as i128));
        channel_json(&self.service, "status/health", Json::Object(members), true)
    }

    pub fn publish_measurement(&self, entity: &EntityTopicId, type_: &str, payload: Json) -> (r:
        Message)
        ensures
            r.deep_view() == json_message(entity@, "m/"@ + type_@, payload.model(), false),
    {
        let channel: String = text::concat("m/", type_);
        channel_json(entity, channel.as_str(), payload, false)
    }

    /// Retained `m/<type>/meta`, declaring the unit of each series.
    pub fn publish_measurement_meta(
        &self,
        entity: &EntityTopicId,
        type_: &str,
        payload: Json,
    ) -> (r: Message)
        ensures
            r.deep_view() == json_message(
                entity@,
                "m/"@ + type_@ + "/meta"@,
                payload.model(),
                true,
            ),
    {
        let mut channel: String = text::concat("m/", type_);
        channel.append("/meta");
        channel_json(entity, channel.as_str(), payload, true)
    }

    pub fn publish_event(&self, entity: &EntityTopicId, type_: &str, payload: Json) -> (r: Message)
        ensures
            r.deep_view() == json_message(entity@, "e/"@ + type_@, payload.model(), false),
    {
        let channel: String = text::concat("e/", type_);
        channel_json(entity, channel.as_str(), payload, false)
    }

    pub fn raise_alarm(&self, entity: &EntityTopicId, type_: &str, payload: Json) -> (r: Message)
        ensures
            r.deep_view() == json_message(entity@, "a/"@ + type_@, payload.model(), false),
    {
        let channel: String = text::concat("a/", type_);
        channel_json(entity, channel.as_str(), payload, false)
    }

    /// Clear an alarm: an empty payload, retained.
    pub fn clear_alarm(&self, entity: &EntityTopicId, type_: &str) -> (r: Message)
        ensures
            r.deep_view() == clearing_message(channel_topic_of(entity@, "a/"@ + type_@)),
    {
        let channel: String = text::concat("a/", type_);
        Message {
            topic: entity.channel_topic(channel.as_str()),
            payload: Payload::Empty,
            retain: true,
        }
    }
}

fn smartrest_topic(external_id: &str) -> (r: String)
    ensures
        r@ == smartrest_topic_of(external_id@),
{
    text::concat("c8y/s/us/", external_id)
}

fn channel_json(entity: &EntityTopicId, channel: &str, payload: Json, retain: bool) -> (r: Message)
    ensures
        r.deep_view() == json_message(entity@, channel@, payload.model(), retain),
{
    Message { topic: entity.channel_topic(channel), payload: Payload::Json(payload), retain }
}

// The connection -------------------------------------------------------------------

/// What the connection to the broker reports.
#[derive(Debug)]
pub enum ConnectionEvent {
    /// The broker has accepted the connection.
    Connected,
    /// A message has arrived.
    Received(IncomingMessage),
    /// Anything else that needs no answer.
    Other,
    /// The connection failed. `protocol` is set where the MQTT protocol state was at
    /// fault, as it is again and again while no connection can be made.
    Lost { protocol: bool },
}

/// What is to be done about it.
#[derive(Debug)]
pub enum ConnectionStep {
    /// Subscribe to every topic again: the client does not replay subscriptions.
    Subscribe,
    /// Hand the message on.
    Forward(IncomingMessage),
    /// Wait for the next event.
    Continue,
    /// Wait before the next attempt, and say so where `report` is set.
    Pause { report: bool },
}

/// The connection to the broker. The client reconnects on its own; this only decides what
/// follows each event, so that a broker outage is visible without being fatal.
#[derive(Debug, Clone, Copy, PartialEq, Eq, Structural)]
pub struct BrokerConnection {
    pub connected: bool,
}

impl BrokerConnection {
    pub fn new() -> (r: Self)
        ensures
            !r.connected,
    {
        BrokerConnection { connected: false }
    }

    /// Decides what follows an event.
    ///
    /// `forwarding` tells whether somebody takes incoming messages.
    pub fn step(&mut self, event: ConnectionEvent, forwarding: bool) -> (r: ConnectionStep)
        ensures
            final(self).connected == (match event {
                ConnectionEvent::Connected => true,
                ConnectionEvent::Lost { .. } => false,
                _ => old(self).connected,
            }),
            r == (match event {
                ConnectionEvent::Connected => ConnectionStep::Subscribe,
                ConnectionEvent::Received(message) => if forwarding {
                    ConnectionStep::Forward(message)
                } else {
                    ConnectionStep::Continue
                },
                ConnectionEvent::Other => ConnectionStep::Continue,
                ConnectionEvent::Lost { protocol } => ConnectionStep::Pause {
                    report: old(self).connected || !protocol,
                },
            }),
    {
        match event {
            ConnectionEvent::Connected => {
                self.connected = true;
                ConnectionStep::Subscribe
            },
            ConnectionEvent::Received(message) => if forwarding {
                ConnectionStep::Forward(message)
            } else {
                ConnectionStep::Continue
            },
            ConnectionEvent::Other => ConnectionStep::Continue,
            ConnectionEvent::Lost { protocol } => {
                let report: bool = self.connected || !protocol;
                self.connected = false;
                ConnectionStep::Pause { report }
            },
        }
    }
}

// Laws -----------------------------------------------------------------------------

/// A registration says what is registered and below what: a child device, its parent, its name and
/// its type, and its external id where it has one.
pub proof fn law_registrations_say_who_and_where(
    parent: Seq<char>,
    name: Seq<char>,
    type_: Seq<char>,
    external_id: Option<Seq<char>>,
)
    ensures
        text_member(child_registration(parent, name, type_, external_id), "@type"@) == Some(
            "child-device"@,
        ),
        text_member(child_registration(parent, name, type_, external_id), "@parent"@) == Some(
            parent,
        ),
        text_member(child_registration(parent, name, type_, external_id), "name"@) == Some(name),
        text_member(child_registration(parent, name, type_, external_id), "type"@) == Some(type_),
        text_member(child_registration(parent, name, type_, external_id), "@id"@) == external_id,
{
    lemma_registration_names();
}

proof fn lemma_registration_names()
    ensures
        "@type"@ != "@parent"@,
        "@type"@ != "name"@,
        "@type"@ != "type"@,
        "@type"@ != "@id"@,
        "@parent"@ != "name"@,
        "@parent"@ != "type"@,
        "@parent"@ != "@id"@,
        "name"@ != "type"@,
        "name"@ != "@id"@,
        "type"@ != "@id"@,
{
    reveal_strlit("@type");
    reveal_strlit("@parent");
    reveal_strlit("name");
    reveal_strlit("type");
    reveal_strlit("@id");
    assert("@type"@.len() == 5);
    assert("@parent"@.len() == 7);
    assert("name"@[0] == 'n');
    assert("type"@[0] == 't');
    assert("@id"@.len() == 3);
    assert("name"@.len() == 4);
    assert("type"@.len() == 4);
}

/// The gateway's service hangs below the main device and is named by the last part of its topic.
pub proof fn law_the_service_is_registered_below_the_main_device(name: Seq<char>)
    requires
        !name.contains('/'),
    ensures
        ({
            let body = service_registration(main_service_id(name));
            &&& text_member(body, "@type"@) == Some("service"@)
            &&& text_member(body, "@parent"@) == Some("device/main//"@)
            &&& text_member(body, "name"@) == Some(name)
            &&& text_member(body, "type"@) == Some("systemd"@)
        }),
{
    lemma_registration_names();
    reveal_strlit("device/main/service/");
    lemma_last_segment("device/main/service/"@, name);
}

proof fn lemma_last_segment(path: Seq<char>, name: Seq<char>)
    requires
        path.len() > 0,
        path.last() == '/',
        !name.contains('/'),
    ensures
        last_segment(path + name) == name,
    decreases name.len(),
{
    let s = path + name;
    if name.len() == 0 {
        assert(s =~= path);
        assert(name =~= Seq::empty());
    } else {
        let less = name.drop_last();
        assert forall|i: int| 0 <= i < less.len() implies less[i] != '/' by {
            assert(name[i] == less[i]);
        }
        lemma_last_segment(path, less);
        assert(s.drop_last() =~= path + less);
        assert(s.last() == name.last());
        assert(name[name.len() - 1] != '/');
        assert(less.push(name.last()) =~= name);
    }
}

/// The health of the service is up, with its process and the time, while it runs, and down once it
/// is gone.
pub proof fn law_health_is_up_or_down(pid: u32, time: u64)
    ensures
        text_member(health_up(pid, time), "status"@) == Some("up"@),
        member(health_up(pid, time), "pid"@) == Some(JsonView::Integer(pid as i128)),
        member(health_up(pid, time), "time"@) == Some(JsonView::Integer(time as i128)),
        text_member(health_down(), "status"@) == Some("down"@),
{
    reveal_strlit("status");
    reveal_strlit("pid");
    reveal_strlit("time");
    assert("status"@.len() == 6);
    assert("pid"@.len() == 3);
    assert("time"@.len() == 4);
}

/// Where messages of an entity go, and whether they stay: measurements, events and raised alarms
/// are passed on, while units, fragments and cleared alarms are retained.
pub proof fn law_messages_go_to_their_topic(
    mqtt: TedgeMqtt,
    entity: EntityTopicId,
    type_: &str,
    payload: Json,
    measurement: Message,
    meta: Message,
    event: Message,
    raised: Message,
    cleared: Message,
    twin: Message,
)
    requires
        call_ensures(TedgeMqtt::publish_measurement, (&mqtt, &entity, type_, payload), measurement),
        call_ensures(TedgeMqtt::publish_measurement_meta, (&mqtt, &entity, type_, payload), meta),
        call_ensures(TedgeMqtt::publish_event, (&mqtt, &entity, type_, payload), event),
        call_ensures(TedgeMqtt::raise_alarm, (&mqtt, &entity, type_, payload), raised),
        call_ensures(TedgeMqtt::clear_alarm, (&mqtt, &entity, type_), cleared),
        call_ensures(TedgeMqtt::publish_twin, (&mqtt, &entity, type_, payload), twin),
    ensures
        measurement.topic@ == "te/"@ + entity@ + "/m/"@ + type_@ && !measurement.retain,
        meta.topic@ == "te/"@ + entity@ + "/m/"@ + type_@ + "/meta"@ && meta.retain,
        event.topic@ == "te/"@ + entity@ + "/e/"@ + type_@ && !event.retain,
        raised.topic@ == "te/"@ + entity@ + "/a/"@ + type_@ && !raised.retain,
        cleared.topic@ == "te/"@ + entity@ + "/a/"@ + type_@ && cleared.retain,
        twin.topic@ == "te/"@ + entity@ + "/twin/"@ + type_@ && twin.retain,
        measurement.payload.deep_view() == PayloadView::Json(payload.model()),
        meta.payload.deep_view() == PayloadView::Json(payload.model()),
        event.payload.deep_view() == PayloadView::Json(payload.model()),
        raised.payload.deep_view() == PayloadView::Json(payload.model()),
        twin.payload.deep_view() == PayloadView::Json(payload.model()),
        cleared.payload.deep_view() is Empty,
{
    reveal_strlit("te");
    reveal_strlit("/");
    reveal_strlit("te/");
    reveal_strlit("m/");
    reveal_strlit("/m/");
    reveal_strlit("e/");
    reveal_strlit("/e/");
    reveal_strlit("a/");
    reveal_strlit("/a/");
    reveal_strlit("twin/");
    reveal_strlit("/twin/");
    let e = entity@;
    let t = type_@;
    assert("te"@ + "/"@ =~= "te/"@);
    assert("te/"@ + e + "/"@ + ("m/"@ + t) =~= "te/"@ + e + "/m/"@ + t);
    assert("te/"@ + e + "/"@ + ("m/"@ + t + "/meta"@) =~= "te/"@ + e + "/m/"@ + t + "/meta"@);
    assert("te/"@ + e + "/"@ + ("e/"@ + t) =~= "te/"@ + e + "/e/"@ + t);
    assert("te/"@ + e + "/"@ + ("a/"@ + t) =~= "te/"@ + e + "/a/"@ + t);
    assert("te/"@ + e + "/"@ + ("twin/"@ + t) =~= "te/"@ + e + "/twin/"@ + t);
}

/// A connection asks for its subscriptions whenever it comes up, hands on what it receives while
/// that is wanted, and pauses when it is lost. A loss is reported, unless the broker refuses a
/// connection that was never up.
pub proof fn law_connections_subscribe_when_they_come_up(
    c: &mut BrokerConnection,
    event: ConnectionEvent,
    forwarding: bool,
    r: ConnectionStep,
)
    requires
        call_ensures(BrokerConnection::step, (c, event, forwarding), r),
    ensures
        event is Connected ==> r is Subscribe && final(c).connected,
        event is Lost ==> !final(c).connected && r is Pause,
        event matches ConnectionEvent::Lost { protocol } ==> (r->Pause_report <==> old(c).connected
            || !protocol),
        event matches ConnectionEvent::Received(message) ==> final(c).connected == old(c).connected
            && (forwarding ==> r == ConnectionStep::Forward(message)) && (!forwarding ==> r is Continue),
        event is Other ==> r is Continue && final(c).connected == old(c).connected,
{
}

/// The gateway's service is registered and its health told on its own topics, and stays there; once
/// the connection is gone the broker says that it is down.
pub proof fn law_the_service_tells_its_health(
    config: MqttConfig,
    made: (TedgeMqtt, Message),
    mqtt: TedgeMqtt,
    registered: Message,
    pid: u32,
    time: u64,
    up: Message,
)
    requires
        call_ensures(TedgeMqtt::new, (&config,), made),
        call_ensures(TedgeMqtt::register_service, (&mqtt,), registered),
        call_ensures(TedgeMqtt::publish_health_up, (&mqtt, pid, time), up),
    ensures
        made.0@ == "device/main/service/"@ + config.service_name@,
        made.1.topic@ == channel_topic_of(made.0@, "status/health"@),
        made.1.retain,
        made.1.payload.deep_view() == PayloadView::Json(health_down()),
        registered.topic@ == registration_topic_of(mqtt@),
        registered.retain,
        registered.payload.deep_view() == PayloadView::Json(service_registration(mqtt@)),
        up.topic@ == channel_topic_of(mqtt@, "status/health"@),
        up.retain,
        up.payload.deep_view() == PayloadView::Json(health_up(pid, time)),
{
}

/// A record goes to the object that it is for, by its external id; a fragment is cleared by an
/// empty retained message.
pub proof fn law_records_go_to_their_object(
    mqtt: TedgeMqtt,
    external_id: &str,
    record: &str,
    sent: Message,
    entity: EntityTopicId,
    fragment: &str,
    cleared: Message,
)
    requires
        call_ensures(TedgeMqtt::publish_smartrest, (&mqtt, external_id, record), sent),
        call_ensures(TedgeMqtt::clear_twin, (&mqtt, &entity, fragment), cleared),
    ensures
        sent.topic@ == "c8y/s/us/"@ + external_id@,
        sent.payload.deep_view() == PayloadView::Text(record@),
        !sent.retain,
        cleared.topic@ == channel_topic_of(entity@, "twin/"@ + fragment@),
        cleared.payload.deep_view() is Empty,
        cleared.retain,
{
}

} // verus!
