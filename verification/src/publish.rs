//! Turning OPC UA values into thin-edge messages.
//!
//! Shared by both delivery paths so a value produces the same message whether it arrived
//! from a cyclic read or from a monitored item. Measurements are batched — one message per
//! measurement type, holding every series accumulated since the last flush — because
//! publishing each data change on its own would drown the local broker and the mapper on a
//! fast server.
use crate::json::{member, text_member, Json, JsonView};
use crate::model::{
    fragment_name_of, series_name_of, AlarmCreation, AlarmView, EventCreation, EventView,
    MeasurementCreation, MeasurementView,
};
use crate::mqtt::{
    clearing_message, json_message, Message, MessageView, PayloadView, TedgeMqtt,
};
use crate::payload::{
    self, alarm_model, empty_builder, event_model, law_messages_hold_their_series,
    law_the_first_number_dates_the_message, law_the_latest_value_of_a_series_counts,
    measurement_model, meta_members, number_of_value, series_at, text_of_event, units_seq,
    variant_of, with_value, BuilderView, MeasurementBuilder,
};
use crate::resolve::{
    self, has_unit, law_every_unit_is_declared, measurement_type_of, unit_pair, unit_type, units_at,
    units_of, units_view, Action, ActionView, ResolvedMapping, ResolvedNode, ResolvedNodeView,
    Units,
};
use crate::text::{self, is_blank, trimmed};
use crate::text_map::{
    lemma_finite_sets_have_an_order, lemma_increasing_is_injective, lemma_zipped_at, ordered_keys,
    strictly_increasing, zipped, TextMap,
};
use crate::topic::{channel_topic_of, law_channel_topics_are_distinct, EntityTopicId};
use crate::ua::{utc_now, DataValue, DateTime, Number, Variant, VariantView};
use crate::value::{self, flag_of, is_bad_value, number_of};
use vstd::prelude::*;

verus! {

// Maps keyed by a node and a type ----------------------------------------------------

/// A node and the type of an event or alarm.
pub type NodeType = (Seq<char>, Seq<char>);

/// What a map of maps holds, by both keys.
pub open spec fn by_both<V>(m: Map<Seq<char>, TextMap<V>>) -> Map<NodeType, V> {
    Map::new(
        |k: NodeType| m.contains_key(k.0) && m[k.0]@.contains_key(k.1),
        |k: NodeType| m[k.0]@[k.1],
    )
}

fn get_at<'a, V>(m: &'a TextMap<TextMap<V>>, node_id: &str, type_: &str) -> (r: Option<&'a V>)
    ensures
        r is Some == by_both(m@).contains_key((node_id@, type_@)),
        r matches Some(v) ==> *v == by_both(m@)[(node_id@, type_@)],
{
    match m.get(node_id) {
        Some(inner) => inner.get(type_),
        None => None,
    }
}

fn put_at<V>(m: &mut TextMap<TextMap<V>>, node_id: &str, type_: &str, value: V)
    ensures
        by_both(final(m)@) == by_both(old(m)@).insert((node_id@, type_@), value),
{
    let ghost before = m@;
    let mut inner: TextMap<V> = match m.remove(node_id) {
        Some(inner) => inner,
        None => TextMap::new(),
    };
    inner.insert(type_.to_owned(), value);
    m.insert(node_id.to_owned(), inner);
    proof {
        let a = by_both(m@);
        let b = by_both(before).insert((node_id@, type_@), value);
        assert forall|k: NodeType| #[trigger] a.contains_key(k) == b.contains_key(k) by {}
        assert forall|k: NodeType| #[trigger] a.contains_key(k) implies a[k] == b[k] by {}
        assert(a =~= b);
    }
}

// The publisher ----------------------------------------------------------------------

/// Accumulates measurements, and makes messages of events and alarms as they happen.
#[derive(Debug)]
pub struct Publisher {
    mqtt: TedgeMqtt,
    entity: EntityTopicId,
    server_id: String,
    /// Whether repeated identical event values should be suppressed. A cyclic read
    /// re-delivers the same value every tick, so publishing an event each time would flood
    /// the mapper; a subscription notification, by contrast, already *is* a change.
    dedup_events: bool,
    last_event: TextMap<TextMap<Variant>>,
    last_alarm: TextMap<TextMap<bool>>,
    batch: TextMap<MeasurementBuilder>,
    pending_series: usize,
}

/// What a publisher remembers.
#[verifier::ext_equal]
pub struct PublisherView {
    pub entity: Seq<char>,
    pub server_id: Seq<char>,
    pub dedup_events: bool,
    /// The value of the last event, where repeated ones are suppressed.
    pub last_event: Map<NodeType, VariantView>,
    /// Whether the alarm was last active.
    pub last_alarm: Map<NodeType, bool>,
    /// The measurements since the last flush, by type.
    pub batch: Map<Seq<char>, BuilderView>,
    pub pending_series: usize,
}

pub open spec fn values_view(m: Map<NodeType, Variant>) -> Map<NodeType, VariantView> {
    m.map_values(|v: Variant| v.deep_view())
}

pub open spec fn batch_view(m: Map<Seq<char>, MeasurementBuilder>) -> Map<Seq<char>, BuilderView> {
    m.map_values(|b: MeasurementBuilder| b@)
}

impl View for Publisher {
    type V = PublisherView;

    closed spec fn view(&self) -> PublisherView {
        PublisherView {
            entity: self.entity@,
            server_id: self.server_id@,
            dedup_events: self.dedup_events,
            last_event: values_view(by_both(self.last_event@)),
            last_alarm: by_both(self.last_alarm@),
            batch: batch_view(self.batch@),
            pending_series: self.pending_series,
        }
    }
}

/// A publisher that has seen nothing.
pub open spec fn fresh_publisher(
    entity: Seq<char>,
    server_id: Seq<char>,
    dedup_events: bool,
) -> PublisherView {
    PublisherView {
        entity,
        server_id,
        dedup_events,
        last_event: Map::empty(),
        last_alarm: Map::empty(),
        batch: Map::empty(),
        pending_series: 0,
    }
}

/// One more, as far as a `usize` counts.
pub open spec fn counted(n: usize) -> usize {
    if n < usize::MAX {
        (n + 1) as usize
    } else {
        n
    }
}

/// Whether an event would repeat the value of the last one of its node and type, `seen` being the
/// values of the last events.
pub open spec fn repeats(
    seen: Map<NodeType, VariantView>,
    node_id: Seq<char>,
    action: ActionView,
    value: DataValue,
) -> bool {
    action matches ActionView::Event(creation) && creation.type_ matches Some(type_)
        && seen.contains_key((node_id, type_)) && seen[(node_id, type_)] == variant_of(
        value,
    ).deep_view()
}

/// Whether an event would say the same as the last one of its type among the actions before it,
/// `earlier`, which were given the same value.
pub open spec fn echoes(earlier: Seq<ActionView>, action: ActionView, value: DataValue) -> bool
    decreases earlier.len(),
{
    if earlier.len() == 0 {
        false
    } else {
        match (earlier.last(), action) {
            (
                ActionView::Event(last),
                ActionView::Event(creation),
            ) if last.type_ is Some && last.type_ == creation.type_ => text_of_event(last, value)
                == text_of_event(creation, value),
            _ => echoes(earlier.drop_last(), action, value),
        }
    }
}

/// Whether an event has nothing new to say of a value, `seen` being the values of the last events
/// before the value came and `earlier` the actions of the node before this one.
pub open spec fn was_told(
    seen: Map<NodeType, VariantView>,
    node_id: Seq<char>,
    earlier: Seq<ActionView>,
    action: ActionView,
    value: DataValue,
) -> bool {
    repeats(seen, node_id, action, value) || echoes(earlier, action, value)
}

/// The flag that a data value holds for an alarm.
pub open spec fn flag_of_value(value: DataValue) -> Option<bool> {
    match value.value {
        Some(variant) => flag_of(variant),
        None => None,
    }
}

/// What one action of a node makes of a good value: the publisher after it, and what is to
/// be published.
///
/// A measurement is kept for the next flush. An event is published, unless events are
/// deduplicated and this one `was_told`. An alarm is raised or cleared when its flag is not the
/// last one of the node and type.
pub open spec fn acted(
    p: PublisherView,
    told: bool,
    node_id: Seq<char>,
    action: ActionView,
    value: DataValue,
    now: DateTime,
) -> (PublisherView, Seq<MessageView>) {
    match action {
        ActionView::Measurement(creation) => match measurement_type_of(creation) {
            None => (p, Seq::empty()),
            Some(type_) => {
                let builder = if p.batch.contains_key(type_) {
                    p.batch[type_]
                } else {
                    empty_builder()
                };
                (
                    PublisherView {
                        batch: p.batch.insert(
                            type_,
                            with_value(builder, creation, node_id, value, now),
                        ),
                        pending_series: if number_of_value(value) is Some {
                            counted(p.pending_series)
                        } else {
                            p.pending_series
                        },
                        ..p
                    },
                    Seq::empty(),
                )
            },
        },
        ActionView::Event(creation) => match creation.type_ {
            None => (p, Seq::empty()),
            Some(type_) => {
                let message = json_message(
                    p.entity,
                    "e/"@ + type_,
                    event_model(creation, node_id, value, now),
                    false,
                );
                if !p.dedup_events {
                    (p, seq![message])
                } else if told {
                    (p, Seq::empty())
                } else {
                    (
                        PublisherView {
                            last_event: p.last_event.insert(
                                (node_id, type_),
                                variant_of(value).deep_view(),
                            ),
                            ..p
                        },
                        seq![message],
                    )
                }
            },
        },
        ActionView::Alarm(creation) => match (creation.type_, flag_of_value(value)) {
            (Some(type_), Some(active)) => {
                if p.last_alarm.contains_key((node_id, type_)) && p.last_alarm[(node_id, type_)]
                    == active {
                    (p, Seq::empty())
                } else {
                    (
                        PublisherView {
                            last_alarm: p.last_alarm.insert((node_id, type_), active),
                            ..p
                        },
                        seq![
                            if active {
                                json_message(
                                    p.entity,
                                    "a/"@ + type_,
                                    alarm_model(creation, node_id, value, now),
                                    false,
                                )
                            } else {
                                clearing_message(channel_topic_of(p.entity, "a/"@ + type_))
                            },
                        ],
                    )
                }
            },
            _ => (p, Seq::empty()),
        },
    }
}

/// What the actions of a node make of a good value, one after the other, `seen` being the values
/// of the last events before this value came.
pub open spec fn all_acted(
    p: PublisherView,
    seen: Map<NodeType, VariantView>,
    node_id: Seq<char>,
    actions: Seq<ActionView>,
    value: DataValue,
    now: DateTime,
) -> (PublisherView, Seq<MessageView>)
    decreases actions.len(),
{
    if actions.len() == 0 {
        (p, Seq::empty())
    } else {
        let before = all_acted(p, seen, node_id, actions.drop_last(), value, now);
        let told = was_told(seen, node_id, actions.drop_last(), actions.last(), value);
        let after = acted(before.0, told, node_id, actions.last(), value, now);
        (after.0, before.1 + after.1)
    }
}

/// What a value of a node comes to. A bad one comes to nothing.
pub open spec fn accepted(
    p: PublisherView,
    node: ResolvedNodeView,
    value: DataValue,
    now: DateTime,
) -> (PublisherView, Seq<MessageView>) {
    if is_bad_value(value) {
        (p, Seq::empty())
    } else {
        all_acted(p, p.last_event, node.node_id_str, node.actions, value, now)
    }
}

/// The messages of the batched measurements of the given types, in their order. A type to
/// which nothing was added has none.
pub open spec fn flushed(
    entity: Seq<char>,
    types: Seq<Seq<char>>,
    batch: Map<Seq<char>, BuilderView>,
) -> Seq<MessageView>
    decreases types.len(),
{
    if types.len() == 0 {
        Seq::empty()
    } else {
        let before = flushed(entity, types.drop_last(), batch);
        let builder = batch[types.last()];
        match builder.time {
            Some(time) => before.push(
                json_message(
                    entity,
                    "m/"@ + types.last(),
                    measurement_model(builder.fragments, time),
                    false,
                ),
            ),
            None => before,
        }
    }
}

/// What a flush publishes: the batched measurements, in the order of their types.
pub open spec fn flush_messages(p: PublisherView) -> Seq<MessageView> {
    flushed(p.entity, ordered_keys(p.batch.dom()), p.batch)
}

/// A publisher after a flush.
pub open spec fn after_flush(p: PublisherView) -> PublisherView {
    PublisherView { batch: Map::empty(), pending_series: 0, ..p }
}

/// Only an event with a type can echo another.
proof fn lemma_only_typed_events_echo(
    earlier: Seq<ActionView>,
    action: ActionView,
    value: DataValue,
)
    requires
        action matches ActionView::Event(creation) ==> creation.type_ is None,
    ensures
        !echoes(earlier, action, value),
    decreases earlier.len(),
{
    if earlier.len() > 0 {
        lemma_only_typed_events_echo(earlier.drop_last(), action, value);
    }
}

/// Whether an event would say the same as the last one of its type among the first `n` actions.
fn said_before(
    actions: &Vec<Action>,
    n: usize,
    creation: &EventCreation,
    data_value: &DataValue,
) -> (r: bool)
    requires
        n <= actions@.len(),
    ensures
        r == echoes(
            actions.deep_view().take(n as int),
            ActionView::Event(creation.deep_view()),
            *data_value,
        ),
{
    let type_: &str = match &creation.type_ {
        Some(type_) => type_.as_str(),
        None => {
            proof {
                lemma_only_typed_events_echo(
                    actions.deep_view().take(n as int),
                    ActionView::Event(creation.deep_view()),
                    *data_value,
                );
            }
            return false;
        },
    };
    let ghost all = actions.deep_view();
    let ghost action = ActionView::Event(creation.deep_view());
    let mut i: usize = n;
    while i > 0
        invariant
            i <= n <= actions@.len(),
            all == actions.deep_view(),
            action == ActionView::Event(creation.deep_view()),
            creation.type_.deep_view() == Some(type_@),
            echoes(all.take(n as int), action, *data_value) == echoes(
                all.take(i as int),
                action,
                *data_value,
            ),
        decreases i,
    {
        proof {
            assert(all.take(i as int).drop_last() =~= all.take(i - 1));
            assert(all.take(i as int).last() == actions@[i - 1].deep_view());
        }
        i = i - 1;
        if let Action::Event(last) = &actions[i] {
            if let Some(last_type) = &last.type_ {
                if text::same(last_type.as_str(), type_) {
                    let said: String = payload::event_text(last, data_value);
                    let says: String = payload::event_text(creation, data_value);
                    return text::same(said.as_str(), says.as_str());
                }
            }
        }
    }
    false
}

impl Publisher {
    pub fn new(mqtt: TedgeMqtt, entity: EntityTopicId, server_id: String, dedup_events: bool) -> (r:
        Self)
        ensures
            r@ == fresh_publisher(entity@, server_id@, dedup_events),
    {
        let r = Publisher {
            mqtt,
            entity,
            server_id,
            dedup_events,
            last_event: TextMap::new(),
            last_alarm: TextMap::new(),
            batch: TextMap::new(),
            pending_series: 0,
        };
        proof {
            assert(r@.last_event =~= Map::empty());
            assert(r@.last_alarm =~= Map::empty());
            assert(r@.batch =~= Map::empty());
        }
        r
    }

    /// Number of measurement series waiting to be flushed.
    pub fn pending_series(&self) -> (r: usize)
        ensures
            r == self@.pending_series,
    {
        self.pending_series
    }

    /// The server that the values come from, for log fields.
    pub fn server_id(&self) -> (r: &str)
        ensures
            r@ == self@.server_id,
    {
        self.server_id.as_str()
    }

    /// Which of a node's actions are events that have nothing new to say, by position.
    fn told_events(&self, node: &ResolvedNode, data_value: &DataValue) -> (r: Vec<bool>)
        ensures
            r@.len() == node.actions@.len(),
            forall|i: int|
                0 <= i < r@.len() ==> #[trigger] r@[i] == was_told(
                    self@.last_event,
                    node.node_id_str@,
                    node.actions.deep_view().take(i),
                    node.actions@[i].deep_view(),
                    *data_value,
                ),
    {
        let node_id: &str = node.node_id_str.as_str();
        let empty: Variant = Variant::Empty;
        let value: &Variant = match &data_value.value {
            Some(variant) => variant,
            None => &empty,
        };
        let mut out: Vec<bool> = Vec::new();
        let mut i: usize = 0;
        while i < node.actions.len()
            invariant
                i <= node.actions@.len(),
                out@.len() == i,
                node_id@ == node.node_id_str@,
                *value == variant_of(*data_value),
                forall|j: int|
                    0 <= j < i ==> #[trigger] out@[j] == was_told(
                        self@.last_event,
                        node_id@,
                        node.actions.deep_view().take(j),
                        node.actions@[j].deep_view(),
                        *data_value,
                    ),
            decreases node.actions@.len() - i,
        {
            let told: bool = match &node.actions[i] {
                Action::Event(creation) => {
                    let again: bool = match &creation.type_ {
                        Some(type_) => match get_at(&self.last_event, node_id, type_.as_str()) {
                            Some(last) => last.same(value),
                            None => false,
                        },
                        None => false,
                    };
                    again || said_before(&node.actions, i, creation, data_value)
                },
                _ => {
                    proof {
                        lemma_only_typed_events_echo(
                            node.actions.deep_view().take(i as int),
                            node.actions@[i as int].deep_view(),
                            *data_value,
                        );
                    }
                    false
                },
            };
            out.push(told);
            i = i + 1;
        }
        out
    }

    fn measure(
        &mut self,
        creation: &MeasurementCreation,
        node_id: &str,
        data_value: &DataValue,
        now: DateTime,
        Ghost(told): Ghost<bool>,
    )
        ensures
            final(self)@ == acted(
                old(self)@,
                told,
                node_id@,
                ActionView::Measurement(creation.deep_view()),
                *data_value,
                now,
            ).0,
    {
        if let Some(type_) = resolve::measurement_type(creation) {
            let ghost before = self.batch@;
            let ghost start = self@;
            let mut builder: MeasurementBuilder = match self.batch.remove(type_) {
                Some(builder) => builder,
                None => MeasurementBuilder::new(),
            };
            let added: bool = builder.add_at(creation, node_id, data_value, now);
            let ghost built = builder@;
            self.batch.insert(type_.to_owned(), builder);
            proof {
                assert(batch_view(self.batch@) =~= batch_view(before).insert(type_@, built));
            }
            if added && self.pending_series < usize::MAX {
                self.pending_series = self.pending_series + 1;
            }
            proof {
                assert(self@ =~= acted(
                    start,
                    told,
                    node_id@,
                    ActionView::Measurement(creation.deep_view()),
                    *data_value,
                    now,
                ).0);
            }
        }
    }

    fn report(
        &mut self,
        creation: &EventCreation,
        node_id: &str,
        data_value: &DataValue,
        now: DateTime,
        told: bool,
        out: &mut Vec<Message>,
    )
        ensures
            final(self)@ == acted(
                old(self)@,
                told,
                node_id@,
                ActionView::Event(creation.deep_view()),
                *data_value,
                now,
            ).0,
            final(out).deep_view() == old(out).deep_view() + acted(
                old(self)@,
                told,
                node_id@,
                ActionView::Event(creation.deep_view()),
                *data_value,
                now,
            ).1,
    {
        let ghost sent = out.deep_view();
        proof {
            assert(sent + Seq::<MessageView>::empty() =~= sent);
        }
        if let Some(type_) = &creation.type_ {
            if self.dedup_events {
                if told {
                    return;
                }
                let ghost before = by_both(self.last_event@);
                let seen_value: Variant = match &data_value.value {
                    Some(variant) => variant.clone(),
                    None => Variant::Empty,
                };
                put_at(&mut self.last_event, node_id, type_.as_str(), seen_value);
                proof {
                    assert(values_view(by_both(self.last_event@)) =~= values_view(before).insert(
                        (node_id@, type_@),
                        variant_of(*data_value).deep_view(),
                    ));
                }
            }
            let body: Json = payload::event_at(creation, node_id, data_value, now);
            out.push(self.mqtt.publish_event(&self.entity, type_.as_str(), body));
            proof {
                assert(out.deep_view() =~= sent + acted(
                    old(self)@,
                    told,
                    node_id@,
                    ActionView::Event(creation.deep_view()),
                    *data_value,
                    now,
                ).1);
            }
        }
    }

    fn signal(
        &mut self,
        creation: &AlarmCreation,
        node_id: &str,
        data_value: &DataValue,
        now: DateTime,
        out: &mut Vec<Message>,
        Ghost(told): Ghost<bool>,
    )
        ensures
            final(self)@ == acted(
                old(self)@,
                told,
                node_id@,
                ActionView::Alarm(creation.deep_view()),
                *data_value,
                now,
            ).0,
            final(out).deep_view() == old(out).deep_view() + acted(
                old(self)@,
                told,
                node_id@,
                ActionView::Alarm(creation.deep_view()),
                *data_value,
                now,
            ).1,
    {
        let ghost sent = out.deep_view();
        proof {
            assert(sent + Seq::<MessageView>::empty() =~= sent);
        }
        let type_: &str = match &creation.type_ {
            Some(type_) => type_.as_str(),
            None => {
                return;
            },
        };
        let active: bool = match &data_value.value {
            Some(variant) => match value::as_bool(variant) {
                Some(active) => active,
                None => {
                    return;
                },
            },
            None => {
                return;
            },
        };
        // Only transitions are published: re-raising an already active alarm on every
        // notification would churn the broker for no new information.
        if let Some(last) = get_at(&self.last_alarm, node_id, type_) {
            if *last == active {
                return;
            }
        }
        put_at(&mut self.last_alarm, node_id, type_, active);
        if active {
            let body: Json = payload::alarm_at(creation, node_id, data_value, now);
            out.push(self.mqtt.raise_alarm(&self.entity, type_, body));
        } else {
            out.push(self.mqtt.clear_alarm(&self.entity, type_));
        }
        proof {
            assert(out.deep_view() =~= sent + acted(
                old(self)@,
                told,
                node_id@,
                ActionView::Alarm(creation.deep_view()),
                *data_value,
                now,
            ).1);
        }
    }

    /// Handle one value, `now` being the current time: batch its measurements, and return
    /// its events and alarms to be published.
    pub fn accept_at(&mut self, node: &ResolvedNode, data_value: &DataValue, now: DateTime) -> (r:
        Vec<Message>)
        ensures
            final(self)@ == accepted(old(self)@, node.deep_view(), *data_value, now).0,
            r.deep_view() == accepted(old(self)@, node.deep_view(), *data_value, now).1,
    {
        let mut out: Vec<Message> = Vec::new();
        proof {
            assert(out.deep_view() =~= Seq::empty());
        }
        if value::is_bad(data_value) {
            return out;
        }
        let ghost start = self@;
        let ghost seen = self@.last_event;
        let told: Vec<bool> = self.told_events(node, data_value);
        let ghost actions = node.actions.deep_view();
        let node_id: &str = node.node_id_str.as_str();
        let mut i: usize = 0;
        proof {
            assert(actions.take(0) =~= Seq::empty());
        }
        while i < node.actions.len()
            invariant
                i <= node.actions@.len(),
                actions == node.actions.deep_view(),
                node_id@ == node.node_id_str@,
                told@.len() == node.actions@.len(),
                forall|j: int|
                    0 <= j < told@.len() ==> #[trigger] told@[j] == was_told(
                        seen,
                        node_id@,
                        actions.take(j),
                        node.actions@[j].deep_view(),
                        *data_value,
                    ),
                self@ == all_acted(
                    start,
                    seen,
                    node_id@,
                    actions.take(i as int),
                    *data_value,
                    now,
                ).0,
                out.deep_view() == all_acted(
                    start,
                    seen,
                    node_id@,
                    actions.take(i as int),
                    *data_value,
                    now,
                ).1,
            decreases node.actions@.len() - i,
        {
            let ghost sent = out.deep_view();
            proof {
                assert(actions.take(i + 1).drop_last() =~= actions.take(i as int));
                assert(actions.take(i + 1).last() == node.actions@[i as int].deep_view());
                assert(sent + Seq::<MessageView>::empty() =~= sent);
            }
            let again: bool = told[i];
            match &node.actions[i] {
                Action::Measurement(creation) => {
                    self.measure(creation, node_id, data_value, now, Ghost(again));
                },
                Action::Event(creation) => {
                    self.report(creation, node_id, data_value, now, again, &mut out);
                },
                Action::Alarm(creation) => {
                    self.signal(creation, node_id, data_value, now, &mut out, Ghost(again));
                },
            }
            i = i + 1;
        }
        proof {
            assert(actions.take(i as int) =~= actions);
        }
        out
    }

    /// Handle one value: batch its measurements, and return its events and alarms to be
    /// published.
    pub fn accept(&mut self, node: &ResolvedNode, data_value: &DataValue) -> (r: Vec<Message>)
        ensures
            exists|now: DateTime|
                #![trigger accepted(old(self)@, node.deep_view(), *data_value, now)]
                final(self)@ == accepted(old(self)@, node.deep_view(), *data_value, now).0
                    && r.deep_view() == accepted(
                    old(self)@,
                    node.deep_view(),
                    *data_value,
                    now,
                ).1,
    {
        let now: DateTime = utc_now();
        self.accept_at(node, data_value, now)
    }

    /// Hand out every batched measurement, one message per measurement type.
    pub fn flush(&mut self) -> (r: Vec<Message>)
        ensures
            r.deep_view() == flush_messages(old(self)@),
            final(self)@ == after_flush(old(self)@),
    {
        let ghost start = self@;
        let mut batch: TextMap<MeasurementBuilder> = TextMap::new();
        std::mem::swap(&mut self.batch, &mut batch);
        self.pending_series = 0;
        let ghost types = batch.key_seq();
        let ghost builders = batch@;
        let ghost values = batch.value_seq();
        let entity: &EntityTopicId = &self.entity;
        let mut out: Vec<Message> = Vec::new();
        let n: usize = batch.len();
        let mut names: Vec<String> = Vec::new();
        let mut i: usize = 0;
        while i < n
            invariant
                i <= n == types.len(),
                types == batch.key_seq(),
                names@.len() == i,
                forall|j: int| 0 <= j < i ==> #[trigger] names@[j]@ == types[j],
            decreases n - i,
        {
            names.push(batch.key_at(i).clone());
            i = i + 1;
        }
        proof {
            batch.lemma_entries();
            assert(batch_view(builders).dom() =~= builders.dom());
            assert(types.take(0) =~= Seq::empty());
            assert(out.deep_view() =~= Seq::empty());
        }
        let mut rest: Vec<MeasurementBuilder> = batch.into_values();
        let mut k: usize = 0;
        while k < n
            invariant
                k <= n == types.len(),
                n == values.len(),
                n == names@.len(),
                strictly_increasing(types),
                builders == zipped(types, values),
                forall|j: int| 0 <= j < n ==> #[trigger] names@[j]@ == types[j],
                rest@ == values.skip(k as int),
                entity@ == start.entity,
                start.batch == batch_view(builders),
                out.deep_view() == flushed(start.entity, types.take(k as int), start.batch),
            decreases n - k,
        {
            let ghost sent = out.deep_view();
            let builder: MeasurementBuilder = rest.remove(0);
            proof {
                lemma_zipped_at(types, values, k as int);
                assert(builder == values[k as int]);
                assert(start.batch[types[k as int]] == builder@);
                assert(rest@ =~= values.skip(k + 1));
                assert(types.take(k + 1).drop_last() =~= types.take(k as int));
                assert(types.take(k + 1).last() == types[k as int]);
            }
            if let Some(body) = builder.build() {
                out.push(self.mqtt.publish_measurement(entity, names[k].as_str(), body));
                proof {
                    assert(out.deep_view() =~= sent.push(
                        json_message(
                            start.entity,
                            "m/"@ + types[k as int],
                            body.model(),
                            false,
                        ),
                    ));
                }
            }
            k = k + 1;
        }
        proof {
            assert(types.take(k as int) =~= types);
            assert(self@.batch =~= Map::empty());
        }
        out
    }
}

// Units ------------------------------------------------------------------------------

/// The retained unit declarations of the given measurement types, in their order.
pub open spec fn unit_messages(
    entity: Seq<char>,
    types: Seq<Seq<char>>,
    units: Units,
) -> Seq<MessageView>
    decreases types.len(),
{
    if types.len() == 0 {
        Seq::empty()
    } else {
        let before = unit_messages(entity, types.drop_last(), units);
        let series = units[types.last()];
        if series.len() == 0 {
            before
        } else {
            before.push(
                json_message(
                    entity,
                    "m/"@ + types.last() + "/meta"@,
                    JsonView::Object(meta_members(series)),
                    true,
                ),
            )
        }
    }
}

/// The retained `m/<type>/meta` messages declaring each series' unit, for one device.
pub fn publish_units(mqtt: &TedgeMqtt, entity: &EntityTopicId, mapping: &ResolvedMapping) -> (r: Vec<
    Message,
>)
    ensures
        r.deep_view() == unit_messages(
            entity@,
            ordered_keys(units_of(mapping.deep_view().nodes).dom()),
            units_of(mapping.deep_view().nodes),
        ),
{
    let units: TextMap<Vec<(String, String)>> = mapping.measurement_units();
    let ghost model = units_view(units@);
    let ghost types = units.key_seq();
    let n: usize = units.len();
    let mut out: Vec<Message> = Vec::new();
    let mut i: usize = 0;
    proof {
        units.lemma_entries();
        assert(model.dom() =~= units@.dom());
        assert(types.take(0) =~= Seq::empty());
        assert(out.deep_view() =~= Seq::empty());
    }
    while i < n
        invariant
            i <= n == types.len(),
            types == units.key_seq(),
            strictly_increasing(types),
            model == units_view(units@),
            out.deep_view() == unit_messages(entity@, types.take(i as int), model),
        decreases n - i,
    {
        let ghost sent = out.deep_view();
        let series: &Vec<(String, String)> = units.value_at(i);
        let type_: &String = units.key_at(i);
        proof {
            assert(types.take(i + 1).drop_last() =~= types.take(i as int));
            assert(types.take(i + 1).last() == type_@);
            assert(model[type_@] == series.deep_view());
            assert(units_seq(series@) =~= series.deep_view());
        }
        if let Some(meta) = payload::measurement_meta(series.as_slice()) {
            out.push(mqtt.publish_measurement_meta(entity, type_.as_str(), meta));
            proof {
                assert(out.deep_view() =~= sent.push(
                    json_message(
                        entity@,
                        "m/"@ + type_@ + "/meta"@,
                        JsonView::Object(meta_members(model[type_@])),
                        true,
                    ),
                ));
            }
        }
        i = i + 1;
    }
    proof {
        assert(types.take(i as int) =~= types);
    }
    out
}

// Laws -------------------------------------------------------------------------------

/// A value of bad quality changes nothing and publishes nothing.
pub proof fn law_bad_values_are_dropped(
    p: PublisherView,
    node: ResolvedNodeView,
    value: DataValue,
    now: DateTime,
)
    requires
        is_bad_value(value),
    ensures
        accepted(p, node, value, now) == (p, Seq::<MessageView>::empty()),
{
}

/// Where events are deduplicated, a value that is delivered a second time in a row publishes
/// nothing more: neither its events nor its alarms.
pub proof fn law_repeated_values_publish_nothing(
    p: PublisherView,
    node: ResolvedNodeView,
    value: DataValue,
    first: DateTime,
    second: DateTime,
)
    requires
        p.dedup_events,
    ensures
        accepted(accepted(p, node, value, first).0, node, value, second).1 == Seq::<
            MessageView,
        >::empty(),
{
    if !is_bad_value(value) {
        let q = accepted(p, node, value, first).0;
        lemma_acted_settles(p, p.last_event, node.node_id_str, node.actions, value, first);
        lemma_settled_stays_silent(q, node.node_id_str, node.actions, value, second);
    }
}

/// What an action has to say of a value was said last.
pub open spec fn is_settled(
    p: PublisherView,
    node_id: Seq<char>,
    action: ActionView,
    value: DataValue,
) -> bool {
    match action {
        ActionView::Measurement(_) => true,
        ActionView::Event(creation) => creation.type_ is Some ==> repeats(
            p.last_event,
            node_id,
            action,
            value,
        ),
        ActionView::Alarm(creation) => match (creation.type_, flag_of_value(value)) {
            (Some(type_), Some(active)) => p.last_alarm.contains_key((node_id, type_))
                && p.last_alarm[(node_id, type_)] == active,
            _ => true,
        },
    }
}

/// The values seen before and those remembered since agree, but for what this value has changed.
spec fn remembers(
    p: PublisherView,
    seen: Map<NodeType, VariantView>,
    value: DataValue,
) -> bool {
    forall|k: NodeType| #[trigger]
        seen.contains_key(k) && seen[k] == variant_of(value).deep_view() ==> p.last_event.contains_key(
            k,
        ) && p.last_event[k] == variant_of(value).deep_view()
}

proof fn lemma_acted_settles(
    p: PublisherView,
    seen: Map<NodeType, VariantView>,
    node_id: Seq<char>,
    actions: Seq<ActionView>,
    value: DataValue,
    now: DateTime,
)
    requires
        p.dedup_events,
        remembers(p, seen, value),
    ensures
        all_acted(p, seen, node_id, actions, value, now).0.dedup_events,
        remembers(all_acted(p, seen, node_id, actions, value, now).0, seen, value),
        forall|i: int|
            0 <= i < actions.len() ==> is_settled(
                all_acted(p, seen, node_id, actions, value, now).0,
                node_id,
                #[trigger] actions[i],
                value,
            ),
    decreases actions.len(),
{
    if actions.len() > 0 {
        let first = actions.drop_last();
        lemma_acted_settles(p, seen, node_id, first, value, now);
        let before = all_acted(p, seen, node_id, first, value, now).0;
        let after = all_acted(p, seen, node_id, actions, value, now).0;
        if echoes(first, actions.last(), value) {
            lemma_echo_is_settled(before, node_id, first, actions.last(), value);
        }
        assert forall|i: int| 0 <= i < actions.len() implies is_settled(
            after,
            node_id,
            #[trigger] actions[i],
            value,
        ) by {
            if i < first.len() {
                assert(is_settled(before, node_id, first[i], value));
            }
        }
    }
}

proof fn lemma_echo_is_settled(
    p: PublisherView,
    node_id: Seq<char>,
    earlier: Seq<ActionView>,
    action: ActionView,
    value: DataValue,
)
    requires
        echoes(earlier, action, value),
        forall|i: int|
            0 <= i < earlier.len() ==> is_settled(p, node_id, #[trigger] earlier[i], value),
    ensures
        action is Event,
        is_settled(p, node_id, action, value),
    decreases earlier.len(),
{
    let first = earlier.drop_last();
    assert(is_settled(p, node_id, earlier[earlier.len() - 1], value));
    assert forall|i: int| 0 <= i < first.len() implies is_settled(
        p,
        node_id,
        #[trigger] first[i],
        value,
    ) by {
        assert(first[i] == earlier[i]);
    }
    if echoes(first, action, value) {
        lemma_echo_is_settled(p, node_id, first, action, value);
    }
}

proof fn lemma_settled_stays_silent(
    p: PublisherView,
    node_id: Seq<char>,
    actions: Seq<ActionView>,
    value: DataValue,
    now: DateTime,
)
    requires
        p.dedup_events,
        forall|i: int|
            0 <= i < actions.len() ==> is_settled(p, node_id, #[trigger] actions[i], value),
    ensures
        all_acted(p, p.last_event, node_id, actions, value, now).1 == Seq::<
            MessageView,
        >::empty(),
        all_acted(p, p.last_event, node_id, actions, value, now).0.last_event == p.last_event,
        all_acted(p, p.last_event, node_id, actions, value, now).0.last_alarm == p.last_alarm,
        all_acted(p, p.last_event, node_id, actions, value, now).0.dedup_events,
    decreases actions.len(),
{
    if actions.len() > 0 {
        let first = actions.drop_last();
        assert forall|i: int| 0 <= i < first.len() implies is_settled(
            p,
            node_id,
            #[trigger] first[i],
            value,
        ) by {
            assert(first[i] == actions[i]);
        }
        lemma_settled_stays_silent(p, node_id, first, value, now);
        assert(is_settled(p, node_id, actions[actions.len() - 1], value));
        assert(Seq::<MessageView>::empty() + Seq::<MessageView>::empty() =~= Seq::empty());
    }
}

/// Only what was told is suppressed: where the value is not that of the last event of the node and
/// type, and no event said the same of this value just before, the event is published.
pub proof fn law_changed_values_are_published(
    p: PublisherView,
    seen: Map<NodeType, VariantView>,
    node_id: Seq<char>,
    earlier: Seq<ActionView>,
    action: ActionView,
    value: DataValue,
    now: DateTime,
)
    requires
        action matches ActionView::Event(creation) && creation.type_ is Some,
        !repeats(seen, node_id, action, value),
        !echoes(earlier, action, value),
    ensures
        acted(p, was_told(seen, node_id, earlier, action, value), node_id, action, value, now).1
            == seq![
            json_message(
                p.entity,
                "e/"@ + action->Event_0.type_->Some_0,
                event_model(action->Event_0, node_id, value, now),
                false,
            ),
        ],
{
}

/// Where events are deduplicated, an event that says the same as the last one of its type among
/// the actions before it adds nothing to what they publish, and leaves the publisher as they do.
pub proof fn law_an_event_is_published_once_for_a_value(
    p: PublisherView,
    seen: Map<NodeType, VariantView>,
    node_id: Seq<char>,
    earlier: Seq<ActionView>,
    action: ActionView,
    value: DataValue,
    now: DateTime,
)
    requires
        p.dedup_events,
        echoes(earlier, action, value),
    ensures
        all_acted(p, seen, node_id, earlier.push(action), value, now) == all_acted(
            p,
            seen,
            node_id,
            earlier,
            value,
            now,
        ),
{
    lemma_dedup_is_kept(p, seen, node_id, earlier, value, now);
    if !(action matches ActionView::Event(creation) && creation.type_ is Some) {
        lemma_only_typed_events_echo(earlier, action, value);
    }
    let before = all_acted(p, seen, node_id, earlier, value, now);
    assert(earlier.push(action).drop_last() =~= earlier);
    assert(before.1 + Seq::<MessageView>::empty() =~= before.1);
}

/// Whether events are deduplicated does not change.
proof fn lemma_dedup_is_kept(
    p: PublisherView,
    seen: Map<NodeType, VariantView>,
    node_id: Seq<char>,
    actions: Seq<ActionView>,
    value: DataValue,
    now: DateTime,
)
    ensures
        all_acted(p, seen, node_id, actions, value, now).0.dedup_events == p.dedup_events,
    decreases actions.len(),
{
    if actions.len() > 0 {
        lemma_dedup_is_kept(p, seen, node_id, actions.drop_last(), value, now);
    }
}

/// Where events are not deduplicated, every delivery of a typed event is published.
pub proof fn law_changes_are_all_events(
    p: PublisherView,
    told: bool,
    node_id: Seq<char>,
    action: ActionView,
    value: DataValue,
    now: DateTime,
)
    requires
        !p.dedup_events,
        action matches ActionView::Event(creation) && creation.type_ is Some,
    ensures
        acted(p, told, node_id, action, value, now).0 == p,
        acted(p, told, node_id, action, value, now).1.len() == 1,
{
}

/// Alarms are published on transitions only: the flag that was last published is not
/// published again, whatever value carries it.
pub proof fn law_alarms_are_published_on_transitions(
    p: PublisherView,
    told: bool,
    node_id: Seq<char>,
    action: ActionView,
    value: DataValue,
    again: DataValue,
    first: DateTime,
    second: DateTime,
)
    requires
        action is Alarm,
        flag_of_value(value) is Some,
        flag_of_value(again) == flag_of_value(value),
    ensures
        acted(acted(p, told, node_id, action, value, first).0, told, node_id, action, again, second) == (
            acted(p, told, node_id, action, value, first).0,
            Seq::<MessageView>::empty(),
        ),
{
}

/// A change of the flag is published, exactly once: raised with a payload, or cleared with
/// an empty retained message.
pub proof fn law_alarm_transitions_are_published(
    p: PublisherView,
    told: bool,
    node_id: Seq<char>,
    action: ActionView,
    value: DataValue,
    now: DateTime,
)
    requires
        action matches ActionView::Alarm(creation) && creation.type_ is Some,
        flag_of_value(value) is Some,
        !p.last_alarm.contains_key((node_id, action->Alarm_0.type_->Some_0)) || p.last_alarm[(
            node_id,
            action->Alarm_0.type_->Some_0,
        )] != flag_of_value(value)->Some_0,
    ensures
        acted(p, told, node_id, action, value, now).1.len() == 1,
        acted(p, told, node_id, action, value, now).1[0].topic == channel_topic_of(
            p.entity,
            "a/"@ + action->Alarm_0.type_->Some_0,
        ),
        acted(p, told, node_id, action, value, now).1[0].retain == !flag_of_value(value)->Some_0,
        acted(p, told, node_id, action, value, now).1[0].payload is Empty
            == !flag_of_value(value)->Some_0,
{
}

/// A publisher whose count says that nothing is pending has no series waiting.
pub open spec fn counts_series(p: PublisherView) -> bool {
    p.pending_series == 0 ==> forall|t: Seq<char>| #[trigger]
        p.batch.contains_key(t) ==> p.batch[t].time is None
}

/// The count of pending series says whether there is anything to flush, from the start and
/// after every value.
pub proof fn law_pending_count_is_kept(
    p: PublisherView,
    node: ResolvedNodeView,
    value: DataValue,
    now: DateTime,
)
    requires
        counts_series(p),
    ensures
        counts_series(accepted(p, node, value, now).0),
{
    if !is_bad_value(value) {
        lemma_count_is_kept(p, p.last_event, node.node_id_str, node.actions, value, now);
    }
}

proof fn lemma_count_is_kept(
    p: PublisherView,
    seen: Map<NodeType, VariantView>,
    node_id: Seq<char>,
    actions: Seq<ActionView>,
    value: DataValue,
    now: DateTime,
)
    requires
        counts_series(p),
    ensures
        counts_series(all_acted(p, seen, node_id, actions, value, now).0),
    decreases actions.len(),
{
    if actions.len() > 0 {
        lemma_count_is_kept(p, seen, node_id, actions.drop_last(), value, now);
        let before = all_acted(p, seen, node_id, actions.drop_last(), value, now).0;
        let after = all_acted(p, seen, node_id, actions, value, now).0;
        if after.pending_series == 0 {
            assert forall|t: Seq<char>| #[trigger]
                after.batch.contains_key(t) implies after.batch[t].time is None by {
                if before.batch.contains_key(t) {
                    assert(before.batch[t].time is None);
                }
            }
        }
    }
}

/// With nothing pending, a flush publishes nothing.
pub proof fn law_nothing_pending_flushes_nothing(p: PublisherView, types: Seq<Seq<char>>)
    requires
        counts_series(p),
        p.pending_series == 0,
        types.to_set().subset_of(p.batch.dom()),
    ensures
        flushed(p.entity, types, p.batch) == Seq::<MessageView>::empty(),
    decreases types.len(),
{
    if types.len() > 0 {
        assert(types.to_set().contains(types.last()));
        assert(p.batch.contains_key(types.last()));
        assert(types.drop_last().to_set().subset_of(p.batch.dom())) by {
            assert forall|t: Seq<char>| types.drop_last().to_set().contains(
                t,
            ) implies p.batch.dom().contains(t) by {
                let i = types.drop_last().index_of(t);
                assert(types[i] == t);
                assert(types.to_set().contains(t));
            }
        }
        law_nothing_pending_flushes_nothing(p, types.drop_last());
    }
}

/// A flush is complete: each measurement type that got a number has exactly the message of
/// its own topic.
pub proof fn law_flush_publishes_every_batched_type(
    entity: Seq<char>,
    types: Seq<Seq<char>>,
    batch: Map<Seq<char>, BuilderView>,
    i: int,
)
    requires
        0 <= i < types.len(),
        batch[types[i]].time is Some,
    ensures
        flushed(entity, types, batch).contains(
            json_message(
                entity,
                "m/"@ + types[i],
                measurement_model(batch[types[i]].fragments, batch[types[i]].time->Some_0),
                false,
            ),
        ),
    decreases types.len(),
{
    let message = json_message(
        entity,
        "m/"@ + types[i],
        measurement_model(batch[types[i]].fragments, batch[types[i]].time->Some_0),
        false,
    );
    let before = flushed(entity, types.drop_last(), batch);
    let now = flushed(entity, types, batch);
    if i == types.len() - 1 {
        assert(now[now.len() - 1] == message);
    } else {
        law_flush_publishes_every_batched_type(entity, types.drop_last(), batch, i);
        let k = before.index_of(message);
        assert(now[k] == message);
    }
}

/// Measurements are batched, never published one by one.
pub proof fn law_measurements_wait_for_the_flush(
    p: PublisherView,
    told: bool,
    node_id: Seq<char>,
    action: ActionView,
    value: DataValue,
    now: DateTime,
)
    requires
        action is Measurement,
    ensures
        acted(p, told, node_id, action, value, now).1 == Seq::<MessageView>::empty(),
{
}

/// A value produces the same message whether it arrived from a cyclic read or from a monitored
/// item: publishers of one device may differ in whether they publish, not in what.
pub proof fn law_both_paths_publish_the_same(
    p: PublisherView,
    told: bool,
    q: PublisherView,
    told_by_q: bool,
    node_id: Seq<char>,
    action: ActionView,
    value: DataValue,
    now: DateTime,
)
    requires
        p.entity == q.entity,
    ensures
        acted(p, told, node_id, action, value, now).1.len() > 0 && acted(
            q,
            told_by_q,
            node_id,
            action,
            value,
            now,
        ).1.len() > 0 ==> acted(p, told, node_id, action, value, now).1 == acted(
            q,
            told_by_q,
            node_id,
            action,
            value,
            now,
        ).1,
{
}

/// A batched message goes to the topic of one of the types.
proof fn lemma_flush_topics(
    entity: Seq<char>,
    types: Seq<Seq<char>>,
    batch: Map<Seq<char>, BuilderView>,
    i: int,
)
    requires
        0 <= i < flushed(entity, types, batch).len(),
    ensures
        exists|t: int|
            0 <= t < types.len() && flushed(entity, types, batch)[i].topic == channel_topic_of(
                entity,
                "m/"@ + #[trigger] types[t],
            ),
    decreases types.len(),
{
    let before = flushed(entity, types.drop_last(), batch);
    let now = flushed(entity, types, batch);
    if i < before.len() {
        lemma_flush_topics(entity, types.drop_last(), batch, i);
        let t = choose|t: int|
            0 <= t < types.drop_last().len() && before[i].topic == channel_topic_of(
                entity,
                "m/"@ + #[trigger] types.drop_last()[t],
            );
        assert(types[t] == types.drop_last()[t]);
        assert(now[i] == before[i]);
    } else {
        assert(types[types.len() - 1] == types.last());
    }
}

/// A flush is one message per measurement type: no two go to the same topic.
pub proof fn law_flush_has_one_message_per_type(
    entity: Seq<char>,
    types: Seq<Seq<char>>,
    batch: Map<Seq<char>, BuilderView>,
    i: int,
    j: int,
)
    requires
        strictly_increasing(types),
        0 <= i < j < flushed(entity, types, batch).len(),
    ensures
        flushed(entity, types, batch)[i].topic != flushed(entity, types, batch)[j].topic,
    decreases types.len(),
{
    let first = types.drop_last();
    let before = flushed(entity, first, batch);
    let now = flushed(entity, types, batch);
    assert(strictly_increasing(first)) by {
        assert forall|a: int, b: int| 0 <= a < b < first.len() implies text::text_lt(
            #[trigger] first[a],
            #[trigger] first[b],
        ) by {
            assert(first[a] == types[a] && first[b] == types[b]);
        }
    }
    assert(now[i] == before[i]);
    if j < before.len() {
        law_flush_has_one_message_per_type(entity, first, batch, i, j);
        assert(now[j] == before[j]);
    } else {
        lemma_flush_topics(entity, first, batch, i);
        let t = choose|t: int|
            0 <= t < first.len() && before[i].topic == channel_topic_of(
                entity,
                "m/"@ + #[trigger] first[t],
            );
        if now[i].topic == now[j].topic {
            law_channel_topics_are_distinct(entity, "m/"@ + first[t], "m/"@ + types.last());
            assert(("m/"@ + first[t]).skip("m/"@.len() as int) =~= first[t]);
            assert(("m/"@ + types.last()).skip("m/"@.len() as int) =~= types.last());
            assert(types[t] == types[types.len() - 1]);
            lemma_increasing_is_injective(types, t, types.len() - 1);
        }
    }
}

/// A measurement with a type and a number waits under its type, with its series set to the number,
/// and counts as waiting. What waits under other types, and what is remembered of events and
/// alarms, stays.
pub proof fn law_measurements_wait_under_their_type(
    p: PublisherView,
    told: bool,
    node_id: Seq<char>,
    m: MeasurementView,
    value: DataValue,
    now: DateTime,
    other: Seq<char>,
)
    requires
        m.type_ matches Some(t) && !is_blank(t),
        number_of_value(value) is Some,
    ensures
        ({
            let type_ = trimmed(m.type_->Some_0);
            let after = acted(p, told, node_id, ActionView::Measurement(m), value, now).0;
            &&& after.batch.contains_key(type_)
            &&& series_at(
                after.batch[type_].fragments,
                fragment_name_of(m, node_id),
                series_name_of(m, node_id),
            ) == number_of_value(value)
            &&& after.batch[type_].time is Some
            &&& p.batch.contains_key(type_) && p.batch[type_].time is Some
                ==> after.batch[type_].time == p.batch[type_].time
            &&& p.pending_series < usize::MAX ==> after.pending_series == p.pending_series + 1
            &&& other != type_ ==> after.batch.contains_key(other) == p.batch.contains_key(other)
                && (p.batch.contains_key(other) ==> after.batch[other] == p.batch[other])
            &&& after.last_event == p.last_event
            &&& after.last_alarm == p.last_alarm
        }),
{
    let type_ = trimmed(m.type_->Some_0);
    let builder = if p.batch.contains_key(type_) {
        p.batch[type_]
    } else {
        empty_builder()
    };
    law_the_latest_value_of_a_series_counts(
        builder,
        m,
        node_id,
        value,
        now,
        fragment_name_of(m, node_id),
        series_name_of(m, node_id),
    );
    law_the_first_number_dates_the_message(builder, m, node_id, value, now);
}

/// The other series that wait under a measurement's type are not touched by it.
pub proof fn law_series_of_a_type_wait_together(
    p: PublisherView,
    told: bool,
    node_id: Seq<char>,
    m: MeasurementView,
    value: DataValue,
    now: DateTime,
    fragment: Seq<char>,
    series: Seq<char>,
)
    requires
        m.type_ matches Some(t) && !is_blank(t),
        number_of_value(value) is Some,
        p.batch.contains_key(trimmed(m.type_->Some_0)),
        fragment != fragment_name_of(m, node_id) || series != series_name_of(m, node_id),
    ensures
        series_at(
            acted(p, told, node_id, ActionView::Measurement(m), value, now).0.batch[trimmed(
                m.type_->Some_0,
            )].fragments,
            fragment,
            series,
        ) == series_at(p.batch[trimmed(m.type_->Some_0)].fragments, fragment, series),
{
    law_the_latest_value_of_a_series_counts(
        p.batch[trimmed(m.type_->Some_0)],
        m,
        node_id,
        value,
        now,
        fragment,
        series,
    );
}

/// A value that is no number adds nothing to a measurement, and neither is anything added without
/// a type.
pub proof fn law_only_numbers_are_measured(
    p: PublisherView,
    told: bool,
    node_id: Seq<char>,
    m: MeasurementView,
    value: DataValue,
    now: DateTime,
)
    ensures
        m.type_ is None || is_blank(m.type_->Some_0) ==> acted(
            p,
            told,
            node_id,
            ActionView::Measurement(m),
            value,
            now,
        ).0 == p,
        number_of_value(value) is None ==> acted(
            p,
            told,
            node_id,
            ActionView::Measurement(m),
            value,
            now,
        ).0.pending_series == p.pending_series,
        number_of_value(value) == (match value.value {
            Some(variant) => number_of(variant),
            None => None,
        }),
        flag_of_value(value) == (match value.value {
            Some(variant) => flag_of(variant),
            None => None,
        }),
{
}

proof fn lemma_nothing_echoed(earlier: Seq<ActionView>, creation: EventView, value: DataValue)
    requires
        forall|i: int|
            0 <= i < earlier.len() ==> !(#[trigger] earlier[i] is Event
                && earlier[i]->Event_0.type_ == creation.type_ && text_of_event(
                earlier[i]->Event_0,
                value,
            ) == text_of_event(creation, value)),
    ensures
        !echoes(earlier, ActionView::Event(creation), value),
    decreases earlier.len(),
{
    if earlier.len() > 0 {
        let first = earlier.drop_last();
        assert forall|i: int| 0 <= i < first.len() implies !(#[trigger] first[i] is Event
            && first[i]->Event_0.type_ == creation.type_ && text_of_event(
            first[i]->Event_0,
            value,
        ) == text_of_event(creation, value)) by {
            assert(first[i] == earlier[i]);
        }
        lemma_nothing_echoed(first, creation, value);
        assert(!(earlier[earlier.len() - 1] is Event && earlier[earlier.len() - 1]->Event_0.type_
            == creation.type_ && text_of_event(earlier[earlier.len() - 1]->Event_0, value)
            == text_of_event(creation, value)));
    }
}

/// An event is published for every value that its node did not have at the last event of its type,
/// whatever other nodes and types have published, unless an event of that type has just said the
/// same; then the value is remembered.
pub proof fn law_events_are_published_for_new_values(
    p: PublisherView,
    seen: Map<NodeType, VariantView>,
    node_id: Seq<char>,
    earlier: Seq<ActionView>,
    creation: EventView,
    value: DataValue,
    now: DateTime,
)
    requires
        creation.type_ is Some,
        !seen.contains_key((node_id, creation.type_->Some_0)) || seen[(
            node_id,
            creation.type_->Some_0,
        )] != variant_of(value).deep_view(),
        forall|i: int|
            0 <= i < earlier.len() ==> !(#[trigger] earlier[i] is Event
                && earlier[i]->Event_0.type_ == creation.type_ && text_of_event(
                earlier[i]->Event_0,
                value,
            ) == text_of_event(creation, value)),
    ensures
        ({
            let action = ActionView::Event(creation);
            let (after, messages) = acted(
                p,
                was_told(seen, node_id, earlier, action, value),
                node_id,
                action,
                value,
                now,
            );
            let type_ = creation.type_->Some_0;
            &&& messages.len() == 1
            &&& messages[0].topic == channel_topic_of(p.entity, "e/"@ + type_)
            &&& messages[0].payload == PayloadView::Json(event_model(creation, node_id, value, now))
            &&& !messages[0].retain
            &&& p.dedup_events ==> after.last_event == p.last_event.insert(
                (node_id, type_),
                variant_of(value).deep_view(),
            )
            &&& after.last_alarm == p.last_alarm && after.batch == p.batch
        }),
{
    lemma_nothing_echoed(earlier, creation, value);
}

/// Where events are deduplicated, an event of the value that its node had at the last event of its
/// type is not published, whatever its text; nor is one that says what the event before it said.
pub proof fn law_told_events_are_not_published(
    p: PublisherView,
    seen: Map<NodeType, VariantView>,
    node_id: Seq<char>,
    earlier: Seq<ActionView>,
    creation: EventView,
    value: DataValue,
    now: DateTime,
)
    requires
        p.dedup_events,
        creation.type_ is Some,
        ({
            ||| seen.contains_key((node_id, creation.type_->Some_0)) && seen[(
                node_id,
                creation.type_->Some_0,
            )] == variant_of(value).deep_view()
            ||| earlier.len() > 0 && earlier.last() is Event && earlier.last()->Event_0.type_
                == creation.type_ && text_of_event(earlier.last()->Event_0, value) == text_of_event(
                creation,
                value,
            )
        }),
    ensures
        acted(
            p,
            was_told(seen, node_id, earlier, ActionView::Event(creation), value),
            node_id,
            ActionView::Event(creation),
            value,
            now,
        ) == (p, Seq::<MessageView>::empty()),
{
}

/// An alarm that is raised says what happened, under its type; one that is cleared leaves its topic
/// empty. What was last published is remembered for its node and type alone.
pub proof fn law_raised_alarms_say_what_happened(
    p: PublisherView,
    told: bool,
    node_id: Seq<char>,
    creation: AlarmView,
    value: DataValue,
    now: DateTime,
)
    requires
        creation.type_ is Some,
        flag_of_value(value) is Some,
        !p.last_alarm.contains_key((node_id, creation.type_->Some_0)) || p.last_alarm[(
            node_id,
            creation.type_->Some_0,
        )] != flag_of_value(value)->Some_0,
    ensures
        ({
            let (after, messages) = acted(
                p,
                told,
                node_id,
                ActionView::Alarm(creation),
                value,
                now,
            );
            let active = flag_of_value(value)->Some_0;
            let key = (node_id, creation.type_->Some_0);
            &&& messages.len() == 1
            &&& active ==> messages[0].payload == PayloadView::Json(
                alarm_model(creation, node_id, value, now),
            )
            &&& !active ==> messages[0].payload is Empty
            &&& after.last_alarm == p.last_alarm.insert(key, active)
            &&& after.last_event == p.last_event && after.batch == p.batch
        }),
{
}

/// A value that is no flag, and an alarm without a type, change nothing.
pub proof fn law_only_flags_are_alarms(
    p: PublisherView,
    told: bool,
    node_id: Seq<char>,
    creation: AlarmView,
    value: DataValue,
    now: DateTime,
)
    requires
        creation.type_ is None || flag_of_value(value) is None,
    ensures
        acted(p, told, node_id, ActionView::Alarm(creation), value, now) == (
            p,
            Seq::<MessageView>::empty(),
        ),
{
}

/// Every action of a node is carried out for a good value, in order, and what each publishes is
/// published.
pub proof fn law_every_action_is_carried_out(
    p: PublisherView,
    node: ResolvedNodeView,
    more: ActionView,
    value: DataValue,
    now: DateTime,
)
    requires
        !is_bad_value(value),
    ensures
        ({
            let first = accepted(p, node, value, now);
            let all = accepted(
                p,
                ResolvedNodeView { actions: node.actions.push(more), ..node },
                value,
                now,
            );
            let last = acted(
                first.0,
                was_told(p.last_event, node.node_id_str, node.actions, more, value),
                node.node_id_str,
                more,
                value,
                now,
            );
            &&& all.0 == last.0
            &&& all.1 == first.1 + last.1
        }),
        node.actions.len() == 0 ==> accepted(p, node, value, now) == (
            p,
            Seq::<MessageView>::empty(),
        ),
{
    assert(node.actions.push(more).drop_last() =~= node.actions);
}

/// A flush hands out a message for every type that waits with a number, with all that waits under
/// it, and leaves nothing waiting. What is remembered of events and alarms stays.
pub proof fn law_a_flush_hands_out_what_waits(p: PublisherView, type_: Seq<char>)
    requires
        p.batch.dom().finite(),
        p.batch.contains_key(type_),
        p.batch[type_].time is Some,
    ensures
        flush_messages(p).contains(
            MessageView {
                topic: channel_topic_of(p.entity, "m/"@ + type_),
                payload: PayloadView::Json(
                    measurement_model(p.batch[type_].fragments, p.batch[type_].time->Some_0),
                ),
                retain: false,
            },
        ),
        after_flush(p).pending_series == 0,
        !after_flush(p).batch.contains_key(type_),
        after_flush(p).last_event == p.last_event,
        after_flush(p).last_alarm == p.last_alarm,
        after_flush(p).entity == p.entity,
        after_flush(p).dedup_events == p.dedup_events,
{
    let types = ordered_keys(p.batch.dom());
    lemma_finite_sets_have_an_order(p.batch.dom());
    assert(types.to_set().contains(type_));
    let i = types.index_of(type_);
    law_flush_publishes_every_batched_type(p.entity, types, p.batch, i);
}

/// What is published of a measurement: once its value is taken and everything is flushed, there is
/// a message of its type, in which its series of its fragment has the value's number.
pub proof fn law_flushed_measurements_have_the_latest_value(
    p: PublisherView,
    told: bool,
    node_id: Seq<char>,
    m: MeasurementView,
    value: DataValue,
    now: DateTime,
)
    requires
        p.batch.dom().finite(),
        m.type_ matches Some(t) && !is_blank(t),
        number_of_value(value) is Some,
        fragment_name_of(m, node_id) != "time"@,
    ensures
        some_holds_number(
            flush_messages(acted(p, told, node_id, ActionView::Measurement(m), value, now).0),
            channel_topic_of(p.entity, "m/"@ + trimmed(m.type_->Some_0)),
            fragment_name_of(m, node_id),
            series_name_of(m, node_id),
            number_of_value(value)->Some_0,
        ),
{
    let type_ = trimmed(m.type_->Some_0);
    let after = acted(p, told, node_id, ActionView::Measurement(m), value, now).0;
    let fragment = fragment_name_of(m, node_id);
    let series = series_name_of(m, node_id);
    law_measurements_wait_under_their_type(p, told, node_id, m, value, now, type_);
    assert(after.batch.dom() =~= p.batch.dom().insert(type_));
    law_a_flush_hands_out_what_waits(after, type_);
    let waiting = after.batch[type_];
    law_messages_hold_their_series(waiting.fragments, waiting.time->Some_0, fragment, series);
    let message = MessageView {
        topic: channel_topic_of(p.entity, "m/"@ + type_),
        payload: PayloadView::Json(
            measurement_model(waiting.fragments, waiting.time->Some_0),
        ),
        retain: false,
    };
    let i = flush_messages(after).index_of(message);
    assert(holds_number(
        flush_messages(after)[i],
        channel_topic_of(p.entity, "m/"@ + type_),
        fragment,
        series,
        number_of_value(value)->Some_0,
    ));
}

/// A message of a topic in which a series of a fragment has a number.
pub open spec fn holds_number(
    message: MessageView,
    topic: Seq<char>,
    fragment: Seq<char>,
    series: Seq<char>,
    number: Number,
) -> bool {
    &&& message.topic == topic
    &&& message.payload matches PayloadView::Json(body)
    &&& member(body, fragment) matches Some(of_fragment)
    &&& member(of_fragment, series) == Some(JsonView::Number(number))
}

/// One of the messages is of a topic and has a number for a series of a fragment.
pub open spec fn some_holds_number(
    messages: Seq<MessageView>,
    topic: Seq<char>,
    fragment: Seq<char>,
    series: Seq<char>,
    number: Number,
) -> bool {
    exists|i: int|
        0 <= i < messages.len() && holds_number(
            #[trigger] messages[i],
            topic,
            fragment,
            series,
            number,
        )
}

/// Each type with units has a retained message that declares them.
pub proof fn law_units_are_declared_for_every_type(
    entity: Seq<char>,
    types: Seq<Seq<char>>,
    units: Units,
    i: int,
)
    requires
        0 <= i < types.len(),
        units[types[i]].len() > 0,
    ensures
        unit_messages(entity, types, units).contains(
            MessageView {
                topic: channel_topic_of(entity, "m/"@ + types[i] + "/meta"@),
                payload: PayloadView::Json(JsonView::Object(meta_members(units[types[i]]))),
                retain: true,
            },
        ),
    decreases types.len(),
{
    let before = unit_messages(entity, types.drop_last(), units);
    let all = unit_messages(entity, types, units);
    let message = MessageView {
        topic: channel_topic_of(entity, "m/"@ + types[i] + "/meta"@),
        payload: PayloadView::Json(JsonView::Object(meta_members(units[types[i]]))),
        retain: true,
    };
    if i == types.len() - 1 {
        assert(all[all.len() - 1] == message);
    } else {
        law_units_are_declared_for_every_type(entity, types.drop_last(), units, i);
        assert(all[before.index_of(message)] == message);
    }
}

/// A retained message of a topic that declares a unit for a series.
pub open spec fn declares_series(
    message: MessageView,
    topic: Seq<char>,
    series: Seq<char>,
) -> bool {
    &&& message.topic == topic
    &&& message.retain
    &&& message.payload matches PayloadView::Json(body)
    &&& member(body, series) matches Some(of_series)
    &&& text_member(of_series, "unit"@) is Some
}

/// One of the messages is of a topic and declares a unit for a series.
pub open spec fn some_declares_series(
    messages: Seq<MessageView>,
    topic: Seq<char>,
    series: Seq<char>,
) -> bool {
    exists|i: int|
        0 <= i < messages.len() && declares_series(#[trigger] messages[i], topic, series)
}

/// Every series that a node measures with a unit is declared, on the retained topic of its type.
pub proof fn law_every_measured_unit_is_published(
    entity: Seq<char>,
    nodes: Seq<ResolvedNodeView>,
    n: int,
    a: int,
)
    requires
        0 <= n < nodes.len(),
        0 <= a < nodes[n].actions.len(),
        has_unit(nodes[n].actions[a]),
    ensures
        some_declares_series(
            unit_messages(entity, ordered_keys(units_of(nodes).dom()), units_of(nodes)),
            channel_topic_of(entity, "m/"@ + unit_type(nodes[n].actions[a]) + "/meta"@),
            unit_pair(nodes[n].actions[a], nodes[n].node_id_str).0,
        ),
{
    let action = nodes[n].actions[a];
    let type_ = unit_type(action);
    let pair = unit_pair(action, nodes[n].node_id_str);
    let units = units_of(nodes);
    let types = ordered_keys(units.dom());
    law_every_unit_is_declared(nodes, type_, pair);
    assert(units_at(units, type_).contains(pair));
    lemma_units_are_finite(nodes);
    lemma_finite_sets_have_an_order(units.dom());
    assert(types.to_set().contains(type_));
    let t = types.index_of(type_);
    law_units_are_declared_for_every_type(entity, types, units, t);
    lemma_declared_members(units[type_], units[type_].index_of(pair));
    let message = MessageView {
        topic: channel_topic_of(entity, "m/"@ + type_ + "/meta"@),
        payload: PayloadView::Json(JsonView::Object(meta_members(units[type_]))),
        retain: true,
    };
    let messages = unit_messages(entity, types, units);
    let i = messages.index_of(message);
    assert(declares_series(
        messages[i],
        channel_topic_of(entity, "m/"@ + type_ + "/meta"@),
        pair.0,
    ));
}

proof fn lemma_units_are_finite(nodes: Seq<ResolvedNodeView>)
    ensures
        units_of(nodes).dom().finite(),
    decreases nodes.len(),
{
    if nodes.len() > 0 {
        lemma_units_are_finite(nodes.drop_last());
        lemma_units_stay_finite(
            units_of(nodes.drop_last()),
            nodes.last().node_id_str,
            nodes.last().actions,
        );
    } else {
        assert(units_of(nodes).dom() =~= Set::empty());
    }
}

proof fn lemma_units_stay_finite(units: Units, node_id: Seq<char>, actions: Seq<ActionView>)
    requires
        units.dom().finite(),
    ensures
        resolve::with_units(units, node_id, actions).dom().finite(),
    decreases actions.len(),
{
    if actions.len() > 0 {
        lemma_units_stay_finite(units, node_id, actions.drop_last());
    }
}

proof fn lemma_declared_members(units: Seq<(Seq<char>, Seq<char>)>, i: int)
    requires
        0 <= i < units.len(),
    ensures
        meta_members(units).contains_key(units[i].0),
        text_member(meta_members(units)[units[i].0], "unit"@) is Some,
    decreases units.len(),
{
    if i < units.len() - 1 && units.last().0 != units[i].0 {
        lemma_declared_members(units.drop_last(), i);
    }
}

/// A publisher takes a value as it is stated of it, and a bad one not at all; a flush hands out
/// what waits.
pub proof fn law_publishers_take_values_and_flush(
    taking: &mut Publisher,
    node: ResolvedNode,
    value: DataValue,
    now: DateTime,
    taken: Vec<Message>,
    flushing: &mut Publisher,
    messages: Vec<Message>,
)
    requires
        call_ensures(Publisher::accept_at, (taking, &node, &value, now), taken),
        call_ensures(Publisher::flush, (flushing,), messages),
    ensures
        is_bad_value(value) ==> taken@.len() == 0 && final(taking)@ == old(taking)@,
        (final(taking)@, taken.deep_view()) == accepted(old(taking)@, node.deep_view(), value, now),
        messages.deep_view() == flush_messages(old(flushing)@),
        final(flushing)@ == after_flush(old(flushing)@),
{
    assert(taken.deep_view().len() == taken@.len());
}

} // verus!
