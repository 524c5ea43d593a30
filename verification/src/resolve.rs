//! Node resolution: device type mapping entries to concrete node ids and a delivery
//! mode.
//!
//! A device type records the root it was authored against (`referencedRootNodeId`),
//! so every mapping entry is either an absolute `referencedNodeId` or one
//! `TranslateBrowsePathsToNodeIds` lookup away — no tree walk, nothing cached.
use crate::model::{
    self, default_parameters, non_blank_text, series_name_of, subscription_kind, valid_parameters,
    AlarmCreation, AlarmView, DeviceType, EventCreation, EventView, MappingEntry,
    MeasurementCreation, MeasurementView, OverriddenSubscription, SubscriptionKind,
    SubscriptionParameters, SubscriptionType,
};
use crate::namespace::{
    self, is_regex_segment, parsed_node_id, qualified_name, qualified_names, MappingError, MappingErrorView,
    NamespaceTable,
};
use crate::seqs::{lemma_filter_from, lemma_filter_take};
use crate::text::{self, is_blank, trimmed};
use crate::text_map::TextMap;
use crate::ua::{
    copy_path, node_id_text, same_path, Identifier, IdentifierView, NodeId, NodeIdView,
    QualifiedName, QualifiedNameView,
};
use vstd::prelude::*;

verus! {

/// Default cyclic read rate when a cyclic-read device type does not specify one.
pub const DEFAULT_READ_RATE_MS: u64 = 5_000;

/// What to publish when a node's value arrives.
#[derive(Debug)]
pub enum Action {
    Measurement(MeasurementCreation),
    Event(EventCreation),
    Alarm(AlarmCreation),
}

pub enum ActionView {
    Measurement(MeasurementView),
    Event(EventView),
    Alarm(AlarmView),
}

impl DeepView for Action {
    type V = ActionView;

    open spec fn deep_view(&self) -> ActionView {
        match self {
            Action::Measurement(m) => ActionView::Measurement(m.deep_view()),
            Action::Event(e) => ActionView::Event(e.deep_view()),
            Action::Alarm(a) => ActionView::Alarm(a.deep_view()),
        }
    }
}

impl Clone for Action {
    fn clone(&self) -> (r: Self)
        ensures
            r.deep_view() == self.deep_view(),
    {
        match self {
            Action::Measurement(m) => Action::Measurement(m.clone()),
            Action::Event(e) => Action::Event(e.clone()),
            Action::Alarm(a) => Action::Alarm(a.clone()),
        }
    }
}

/// How a node's values reach the gateway.
#[derive(Debug)]
pub enum Delivery {
    /// A monitored item on the server's subscription.
    Subscription(SubscriptionParameters),
    /// A periodic Read, grouped with every other node on the same schedule. Both
    /// times are in milliseconds.
    CyclicRead { rate_ms: u64, max_age: u64 },
}

impl Clone for Delivery {
    fn clone(&self) -> (r: Self)
        ensures
            r == *self,
    {
        match self {
            Delivery::Subscription(params) => Delivery::Subscription(params.clone()),
            Delivery::CyclicRead { rate_ms, max_age } => Delivery::CyclicRead {
                rate_ms: *rate_ms,
                max_age: *max_age,
            },
        }
    }
}

/// Cyclic read groups are keyed by their schedule, so nodes read together share one
/// request.
#[derive(Debug, Clone, Copy, PartialEq, Eq, PartialOrd, Ord, Structural)]
pub struct ReadSchedule {
    pub rate_ms: u64,
    /// `maxAge` in milliseconds.
    pub max_age_ms: u64,
}

/// The read schedule of a cyclic delivery.
pub open spec fn schedule_of(delivery: Delivery) -> Option<ReadSchedule> {
    match delivery {
        Delivery::CyclicRead { rate_ms, max_age } => Some(
            ReadSchedule { rate_ms, max_age_ms: max_age },
        ),
        Delivery::Subscription(_) => None,
    }
}

fn read_schedule_of(delivery: &Delivery) -> (r: Option<ReadSchedule>)
    ensures
        r == schedule_of(*delivery),
{
    match delivery {
        Delivery::CyclicRead { rate_ms, max_age } => Some(
            ReadSchedule { rate_ms: *rate_ms, max_age_ms: *max_age },
        ),
        Delivery::Subscription(_) => None,
    }
}

/// A node whose node id is known, with everything to publish for it.
#[derive(Debug)]
pub struct ResolvedNode {
    pub node_id: NodeId,
    /// Text form used in payload fragments and log fields.
    pub node_id_str: String,
    pub actions: Vec<Action>,
    pub delivery: Delivery,
}

pub struct ResolvedNodeView {
    pub node_id: NodeIdView,
    pub node_id_str: Seq<char>,
    pub actions: Seq<ActionView>,
    pub delivery: Delivery,
}

impl DeepView for ResolvedNode {
    type V = ResolvedNodeView;

    open spec fn deep_view(&self) -> ResolvedNodeView {
        ResolvedNodeView {
            node_id: self.node_id.deep_view(),
            node_id_str: self.node_id_str@,
            actions: self.actions.deep_view(),
            delivery: self.delivery,
        }
    }
}

impl Clone for ResolvedNode {
    fn clone(&self) -> (r: Self)
        ensures
            r.deep_view() == self.deep_view(),
    {
        let mut actions: Vec<Action> = Vec::new();
        let mut i: usize = 0;
        while i < self.actions.len()
            invariant
                i <= self.actions@.len(),
                actions@.len() == i,
                forall|j: int|
                    0 <= j < i ==> #[trigger] actions@[j].deep_view()
                        == self.actions@[j].deep_view(),
            decreases self.actions@.len() - i,
        {
            actions.push(self.actions[i].clone());
            i = i + 1;
        }
        proof {
            assert(actions.deep_view() =~= self.actions.deep_view());
        }
        ResolvedNode {
            node_id: self.node_id.clone(),
            node_id_str: self.node_id_str.clone(),
            actions,
            delivery: self.delivery.clone(),
        }
    }
}

impl ResolvedNode {
    /// The read schedule of a cyclic-read node.
    pub fn read_schedule(&self) -> (r: Option<ReadSchedule>)
        ensures
            r == schedule_of(self.delivery),
    {
        read_schedule_of(&self.delivery)
    }

    pub fn subscription_parameters(&self) -> (r: Option<&SubscriptionParameters>)
        ensures
            r is Some == schedule_of(self.delivery) is None,
            r matches Some(params) ==> self.delivery == Delivery::Subscription(*params),
    {
        match &self.delivery {
            Delivery::Subscription(params) => Some(params),
            Delivery::CyclicRead { .. } => None,
        }
    }
}

// Planning -------------------------------------------------------------------------

/// How an entry's node id is obtained.
#[derive(Debug)]
pub enum NodeRef {
    Known(NodeId),
    Path(Vec<QualifiedName>),
}

/// A mapping entry that will be resolved.
#[derive(Debug)]
pub struct Entry {
    pub name: String,
    pub actions: Vec<Action>,
    pub node_ref: NodeRef,
    pub delivery: Delivery,
}

/// Why an entry that would publish something is left out.
#[derive(Debug, Clone, Copy, PartialEq, Eq, Structural)]
pub enum EntryProblem {
    /// Its browse path uses `regex(...)`, which needs an address space scan.
    Regex,
    /// Its `referencedNodeId` cannot be read.
    UnusableNodeId,
    /// It has neither `referencedNodeId` nor `browsePath`.
    NoNode,
    /// There is no usable `subscriptionType` for it.
    NoDelivery,
}

/// A device type prepared for resolution against a live session.
#[derive(Debug)]
pub struct Plan {
    pub device_type_id: String,
    pub device_type_name: String,
    pub root_node_id: NodeId,
    pub entries: Vec<Entry>,
    /// The entries that are left out, by name, so that none is dropped for a reason the operator
    /// cannot see.
    pub problems: Vec<(String, EntryProblem)>,
}

pub enum NodeRefView {
    Known(NodeIdView),
    Path(Seq<QualifiedNameView>),
}

pub struct EntryView {
    pub name: Seq<char>,
    pub actions: Seq<ActionView>,
    pub node_ref: NodeRefView,
    pub delivery: Delivery,
}

pub struct PlanView {
    pub device_type_id: Seq<char>,
    pub device_type_name: Seq<char>,
    pub root_node_id: NodeIdView,
    pub entries: Seq<EntryView>,
    pub problems: Seq<(Seq<char>, EntryProblem)>,
}

impl DeepView for NodeRef {
    type V = NodeRefView;

    open spec fn deep_view(&self) -> NodeRefView {
        match self {
            NodeRef::Known(id) => NodeRefView::Known(id.deep_view()),
            NodeRef::Path(path) => NodeRefView::Path(path.deep_view()),
        }
    }
}

impl DeepView for Entry {
    type V = EntryView;

    open spec fn deep_view(&self) -> EntryView {
        EntryView {
            name: self.name@,
            actions: self.actions.deep_view(),
            node_ref: self.node_ref.deep_view(),
            delivery: self.delivery,
        }
    }
}

impl DeepView for Plan {
    type V = PlanView;

    open spec fn deep_view(&self) -> PlanView {
        PlanView {
            device_type_id: self.device_type_id@,
            device_type_name: self.device_type_name@,
            root_node_id: self.root_node_id.deep_view(),
            entries: self.entries.deep_view(),
            problems: problems_view(self.problems@),
        }
    }
}

pub open spec fn problems_view(problems: Seq<(String, EntryProblem)>) -> Seq<
    (Seq<char>, EntryProblem),
> {
    problems.map_values(|p: (String, EntryProblem)| (p.0@, p.1))
}

/// The type of a measurement, which becomes a topic segment.
pub open spec fn measurement_type_of(m: MeasurementView) -> Option<Seq<char>> {
    non_blank_text(m.type_)
}

/// Measurement type, which becomes the `m/<type>` topic segment.
pub fn measurement_type(m: &MeasurementCreation) -> (r: Option<&str>)
    ensures
        r is Some == measurement_type_of(m.deep_view()) is Some,
        r matches Some(t) ==> measurement_type_of(m.deep_view()) == Some(t@),
{
    model::non_blank(model::as_text(&m.type_))
}

/// One action, where it has a type.
pub open spec fn if_typed(action: ActionView) -> Seq<ActionView> {
    let type_ = match action {
        ActionView::Measurement(m) => m.type_,
        ActionView::Event(e) => e.type_,
        ActionView::Alarm(a) => a.type_,
    };
    if non_blank_text(type_) is Some {
        seq![action]
    } else {
        Seq::empty()
    }
}

/// What an entry publishes: a measurement, an event and an alarm, each where it is
/// configured and has a type.
pub open spec fn entry_actions(entry: MappingEntry) -> Seq<ActionView> {
    (match entry.measurement_creation {
        Some(m) => if_typed(ActionView::Measurement(m.deep_view())),
        None => Seq::empty(),
    }) + (match entry.event_creation {
        Some(e) => if_typed(ActionView::Event(e.deep_view())),
        None => Seq::empty(),
    }) + (match entry.alarm_creation {
        Some(a) => if_typed(ActionView::Alarm(a.deep_view())),
        None => Seq::empty(),
    })
}

fn actions_of(entry: &MappingEntry) -> (r: Vec<Action>)
    ensures
        r.deep_view() == entry_actions(*entry),
{
    let mut actions: Vec<Action> = Vec::new();
    if let Some(m) = &entry.measurement_creation {
        if measurement_type(m).is_some() {
            actions.push(Action::Measurement(m.clone()));
        }
    }
    let ghost first = actions.deep_view();
    if let Some(e) = &entry.event_creation {
        if model::non_blank(model::as_text(&e.type_)).is_some() {
            actions.push(Action::Event(e.clone()));
        }
    }
    let ghost second = actions.deep_view();
    if let Some(a) = &entry.alarm_creation {
        if model::non_blank(model::as_text(&a.type_)).is_some() {
            actions.push(Action::Alarm(a.clone()));
        }
    }
    proof {
        assert(actions.deep_view() =~= entry_actions(*entry));
    }
    actions
}

/// The delivery mode that a subscription type asks for, where it is usable.
pub open spec fn delivery_for(subscription_type: Option<SubscriptionType>) -> Option<Delivery> {
    match subscription_type {
        None => None,
        Some(s) => match subscription_kind(s.type_.deep_view()) {
            SubscriptionKind::Subscription => {
                let params = match s.subscription_parameters {
                    Some(params) => params,
                    None => default_parameters(),
                };
                if valid_parameters(params) {
                    Some(Delivery::Subscription(params))
                } else {
                    None
                }
            },
            SubscriptionKind::CyclicRead => Some(
                Delivery::CyclicRead {
                    rate_ms: match s.cyclic_read_parameters {
                        Some(p) if p.rate matches Some(rate) && rate > 0 => p.rate->Some_0,
                        _ => DEFAULT_READ_RATE_MS,
                    },
                    max_age: match s.cyclic_read_parameters {
                        Some(p) if p.max_age is Some => p.max_age->Some_0,
                        _ => 0,
                    },
                },
            ),
            SubscriptionKind::NoDelivery => None,
        },
    }
}

/// Turn a `subscriptionType` into a delivery mode.
fn delivery_of(subscription_type: &Option<SubscriptionType>) -> (r: Option<Delivery>)
    ensures
        r == delivery_for(*subscription_type),
{
    match subscription_type {
        None => None,
        Some(s) => match s.kind() {
            SubscriptionKind::Subscription => {
                let params: SubscriptionParameters = match &s.subscription_parameters {
                    Some(params) => params.clone(),
                    None => SubscriptionParameters::default(),
                };
                if !params.is_valid() {
                    return None;
                }
                Some(Delivery::Subscription(params))
            },
            SubscriptionKind::CyclicRead => {
                let (rate_ms, max_age): (u64, u64) = match &s.cyclic_read_parameters {
                    Some(p) => (
                        match p.rate_ms() {
                            Some(rate) => rate,
                            None => DEFAULT_READ_RATE_MS,
                        },
                        p.max_age(),
                    ),
                    None => (DEFAULT_READ_RATE_MS, 0),
                };
                Some(Delivery::CyclicRead { rate_ms, max_age })
            },
            SubscriptionKind::NoDelivery => None,
        },
    }
}

/// `overriddenSubscriptions` as delivery modes by browse path; one without a path
/// counts for nothing.
pub open spec fn path_overrides(
    overrides: Seq<OverriddenSubscription>,
    uris: Seq<Seq<char>>,
) -> Seq<(Seq<QualifiedNameView>, Option<Delivery>)>
    decreases overrides.len(),
{
    if overrides.len() == 0 {
        Seq::empty()
    } else {
        let before = path_overrides(overrides.drop_last(), uris);
        let o = overrides.last();
        if o.browse_path@.len() == 0 {
            before
        } else {
            before.push(
                (
                    qualified_names(uris, o.browse_path.deep_view()),
                    delivery_for(o.subscription_type),
                ),
            )
        }
    }
}

/// A copy of a delivery mode, where there is one.
fn copy_delivery(delivery: &Option<Delivery>) -> (r: Option<Delivery>)
    ensures
        r == *delivery,
{
    match delivery {
        Some(d) => Some(d.clone()),
        None => None,
    }
}

spec fn overrides_view(v: Seq<(Vec<QualifiedName>, Option<Delivery>)>) -> Seq<
    (Seq<QualifiedNameView>, Option<Delivery>),
> {
    v.map_values(|o: (Vec<QualifiedName>, Option<Delivery>)| (o.0.deep_view(), o.1))
}

/// Read `overriddenSubscriptions` into browse-path-keyed delivery modes.
fn overrides_of(device_type: &DeviceType, table: &NamespaceTable) -> (r: Vec<
    (Vec<QualifiedName>, Option<Delivery>),
>)
    ensures
        overrides_view(r@) == path_overrides(device_type.overridden_subscriptions@, table@),
{
    let overrides: &Vec<OverriddenSubscription> = &device_type.overridden_subscriptions;
    let mut out: Vec<(Vec<QualifiedName>, Option<Delivery>)> = Vec::new();
    let mut i: usize = 0;
    proof {
        assert(overrides_view(out@) =~= path_overrides(overrides@.take(0), table@));
    }
    while i < overrides.len()
        invariant
            i <= overrides@.len(),
            overrides_view(out@) == path_overrides(overrides@.take(i as int), table@),
        decreases overrides@.len() - i,
    {
        let o: &OverriddenSubscription = &overrides[i];
        let ghost before = overrides_view(out@);
        proof {
            assert(overrides@.take(i + 1).drop_last() =~= overrides@.take(i as int));
        }
        if o.browse_path.len() > 0 {
            let path: Vec<QualifiedName> = namespace::to_qualified_names(
                table,
                o.browse_path.as_slice(),
            );
            let delivery: Option<Delivery> = delivery_of(&o.subscription_type);
            out.push((path, delivery));
            proof {
                assert(o.browse_path@.map_values(|s: String| s@) =~= o.browse_path.deep_view());
                assert(overrides_view(out@) =~= before.push((path.deep_view(), delivery)));
            }
        }
        i = i + 1;
    }
    proof {
        assert(overrides@.take(i as int) =~= overrides@);
    }
    out
}

/// The delivery mode at a browse path: the first override for that path, else the
/// given default.
pub open spec fn delivery_at(
    overrides: Seq<(Seq<QualifiedNameView>, Option<Delivery>)>,
    path: Seq<QualifiedNameView>,
    default_delivery: Option<Delivery>,
    from: int,
) -> Option<Delivery>
    decreases overrides.len() - from,
{
    if from < 0 || from >= overrides.len() {
        default_delivery
    } else if overrides[from].0 == path {
        overrides[from].1
    } else {
        delivery_at(overrides, path, default_delivery, from + 1)
    }
}

fn choose_delivery(
    overrides: &Vec<(Vec<QualifiedName>, Option<Delivery>)>,
    path: &Vec<QualifiedName>,
    default_delivery: &Option<Delivery>,
) -> (r: Option<Delivery>)
    ensures
        r == delivery_at(overrides_view(overrides@), path.deep_view(), *default_delivery, 0),
{
    let ghost model = overrides_view(overrides@);
    let mut i: usize = 0;
    while i < overrides.len()
        invariant
            i <= overrides@.len(),
            model == overrides_view(overrides@),
            model.len() == overrides@.len(),
            delivery_at(model, path.deep_view(), *default_delivery, i as int) == delivery_at(
                model,
                path.deep_view(),
                *default_delivery,
                0,
            ),
        decreases overrides@.len() - i,
    {
        proof {
            assert(model[i as int] == (overrides@[i as int].0.deep_view(), overrides@[i as int].1));
        }
        if same_path(&overrides[i].0, path) {
            return copy_delivery(&overrides[i].1);
        }
        i = i + 1;
    }
    copy_delivery(default_delivery)
}

/// Some segment of a browse path is a regular expression.
pub open spec fn has_regex(path: Seq<Seq<char>>) -> bool {
    exists|i: int| 0 <= i < path.len() && is_regex_segment(#[trigger] path[i])
}

fn any_regex(path: &Vec<String>) -> (r: bool)
    ensures
        r == has_regex(path.deep_view()),
{
    let mut i: usize = 0;
    while i < path.len()
        invariant
            i <= path@.len(),
            forall|j: int| 0 <= j < i ==> !is_regex_segment(#[trigger] path.deep_view()[j]),
        decreases path@.len() - i,
    {
        if namespace::is_regex(path[i].as_str()) {
            proof {
                assert(is_regex_segment(path.deep_view()[i as int]));
            }
            return true;
        }
        i = i + 1;
    }
    false
}

/// How an entry names its node: by a node id, where it has one that can be read, or
/// by its browse path.
pub open spec fn node_ref_of(entry: MappingEntry, uris: Seq<Seq<char>>) -> Option<NodeRefView> {
    match entry.referenced_node_id.deep_view() {
        Some(node_id) if node_id.len() > 0 => match parsed_node_id(uris, node_id) {
            Ok(id) => Some(NodeRefView::Known(id)),
            Err(_) => None,
        },
        _ => if entry.browse_path@.len() == 0 {
            None
        } else {
            Some(NodeRefView::Path(qualified_names(uris, entry.browse_path.deep_view())))
        },
    }
}

/// How an entry is delivered: as overridden for its browse path, or as the device type says.
pub open spec fn entry_delivery(
    device_type: DeviceType,
    entry: MappingEntry,
    uris: Seq<Seq<char>>,
) -> Option<Delivery> {
    delivery_at(
        path_overrides(device_type.overridden_subscriptions@, uris),
        qualified_names(uris, entry.browse_path.deep_view()),
        delivery_for(device_type.subscription_type),
        0,
    )
}

/// The name of an entry in messages.
pub open spec fn entry_label(entry: MappingEntry) -> Seq<char> {
    match entry.name {
        Some(name) => name@,
        None => "<unnamed>"@,
    }
}

/// Why an entry is left out, where it would publish something: its browse path needs an address
/// space scan, it names no node, or nothing says how its values are delivered.
pub open spec fn entry_problem(
    device_type: DeviceType,
    entry: MappingEntry,
    uris: Seq<Seq<char>>,
) -> Option<EntryProblem> {
    if entry_actions(entry).len() == 0 {
        None
    } else if has_regex(entry.browse_path.deep_view()) {
        Some(EntryProblem::Regex)
    } else if node_ref_of(entry, uris) is None {
        if entry.referenced_node_id matches Some(id) && id@.len() > 0 {
            Some(EntryProblem::UnusableNodeId)
        } else {
            Some(EntryProblem::NoNode)
        }
    } else if entry_delivery(device_type, entry, uris) is None {
        Some(EntryProblem::NoDelivery)
    } else {
        None
    }
}

/// What becomes of a mapping entry: it is planned, unless it publishes nothing or has a problem.
pub open spec fn planned_entry(
    device_type: DeviceType,
    entry: MappingEntry,
    uris: Seq<Seq<char>>,
) -> Option<EntryView> {
    if entry_actions(entry).len() == 0 || entry_problem(device_type, entry, uris) is Some {
        None
    } else {
        Some(
            EntryView {
                name: entry_label(entry),
                actions: entry_actions(entry),
                node_ref: node_ref_of(entry, uris)->Some_0,
                delivery: entry_delivery(device_type, entry, uris)->Some_0,
            },
        )
    }
}

/// What becomes of the first `count` mapping entries.
pub open spec fn planned_entries(
    device_type: DeviceType,
    uris: Seq<Seq<char>>,
    count: nat,
) -> Seq<EntryView>
    decreases count,
{
    if count == 0 {
        Seq::empty()
    } else {
        let before = planned_entries(device_type, uris, (count - 1) as nat);
        match planned_entry(device_type, device_type.mappings@[count - 1], uris) {
            Some(entry) => before.push(entry),
            None => before,
        }
    }
}

/// The problems of the first `count` mapping entries.
pub open spec fn planned_problems(
    device_type: DeviceType,
    uris: Seq<Seq<char>>,
    count: nat,
) -> Seq<(Seq<char>, EntryProblem)>
    decreases count,
{
    if count == 0 {
        Seq::empty()
    } else {
        let before = planned_problems(device_type, uris, (count - 1) as nat);
        let entry = device_type.mappings@[count - 1];
        match entry_problem(device_type, entry, uris) {
            Some(problem) => before.push((entry_label(entry), problem)),
            None => before,
        }
    }
}

/// The root that a device type was authored against; the root folder of the address
/// space where it names none.
pub open spec fn root_of(device_type: DeviceType, uris: Seq<Seq<char>>) -> Result<
    NodeIdView,
    MappingErrorView,
> {
    match device_type.referenced_root_node_id.deep_view() {
        Some(root) => parsed_node_id(uris, root),
        None => Ok(NodeIdView { namespace: 0, identifier: IdentifierView::Numeric(84) }),
    }
}

/// One mapping entry, prepared.
#[derive(Debug)]
enum Prepared {
    Entry(Entry),
    /// It publishes nothing.
    Idle,
    Problem(EntryProblem),
}

fn plan_entry(
    entry: &MappingEntry,
    table: &NamespaceTable,
    overrides: &Vec<(Vec<QualifiedName>, Option<Delivery>)>,
    default_delivery: &Option<Delivery>,
    Ghost(device_type): Ghost<DeviceType>,
) -> (r: Prepared)
    requires
        overrides_view(overrides@) == path_overrides(
            device_type.overridden_subscriptions@,
            table@,
        ),
        *default_delivery == delivery_for(device_type.subscription_type),
    ensures
        match r {
            Prepared::Entry(e) => planned_entry(device_type, *entry, table@) == Some(
                e.deep_view(),
            ) && entry_problem(device_type, *entry, table@) is None,
            Prepared::Idle => planned_entry(device_type, *entry, table@) is None && entry_problem(
                device_type,
                *entry,
                table@,
            ) is None,
            Prepared::Problem(problem) => planned_entry(device_type, *entry, table@) is None
                && entry_problem(device_type, *entry, table@) == Some(problem),
        },
{
    let actions: Vec<Action> = actions_of(entry);
    proof {
        assert(actions.deep_view().len() == actions@.len());
    }
    if actions.len() == 0 {
        return Prepared::Idle;
    }
    if any_regex(&entry.browse_path) {
        return Prepared::Problem(EntryProblem::Regex);
    }
    let path: Vec<QualifiedName> = namespace::to_qualified_names(
        table,
        entry.browse_path.as_slice(),
    );
    proof {
        assert(entry.browse_path@.map_values(|s: String| s@) =~= entry.browse_path.deep_view());
    }
    let referenced: Option<&str> = match &entry.referenced_node_id {
        Some(node_id) => if text::is_empty(node_id.as_str()) {
            None
        } else {
            Some(node_id.as_str())
        },
        None => None,
    };
    // An overridden subscription whose browse path matches wins over the device type's own, which
    // is exactly what the field is for.
    let delivery: Option<Delivery> = choose_delivery(overrides, &path, default_delivery);
    let node_ref: NodeRef = match referenced {
        Some(node_id) => match namespace::parse_node_id(table, node_id) {
            Ok(id) => NodeRef::Known(id),
            Err(_) => {
                return Prepared::Problem(EntryProblem::UnusableNodeId);
            },
        },
        None => {
            if entry.browse_path.len() == 0 {
                return Prepared::Problem(EntryProblem::NoNode);
            }
            NodeRef::Path(path)
        },
    };
    match delivery {
        Some(delivery) => Prepared::Entry(
            Entry { name: label_of(entry), actions, node_ref, delivery },
        ),
        None => Prepared::Problem(EntryProblem::NoDelivery),
    }
}

fn label_of(entry: &MappingEntry) -> (r: String)
    ensures
        r@ == entry_label(*entry),
{
    match &entry.name {
        Some(name) => name.clone(),
        None => "<unnamed>".to_owned(),
    }
}

/// Prepare a device type for resolution against a server's namespace table.
///
/// Entries this gateway cannot support are left out and named in the plan; the rest of the device
/// type still applies. Returns `Err` only when the device type itself is unusable.
pub fn plan(device_type_id: &str, device_type: &DeviceType, table: &NamespaceTable) -> (r: Result<
    Plan,
    MappingError,
>)
    ensures
        r is Ok == root_of(*device_type, table@) is Ok,
        r matches Ok(plan) ==> is_plan_of(plan.deep_view(), device_type_id@, *device_type, table@),
        r matches Err(e) ==> root_of(*device_type, table@) == Err::<NodeIdView, MappingErrorView>(
            e.deep_view(),
        ),
{
    let root_node_id: NodeId = match &device_type.referenced_root_node_id {
        Some(root) => match namespace::parse_node_id(table, root.as_str()) {
            Ok(id) => id,
            Err(e) => {
                return Err(e);
            },
        },
        None => NodeId::new(0, Identifier::Numeric(84)),
    };
    let default_delivery: Option<Delivery> = delivery_of(&device_type.subscription_type);
    let overrides: Vec<(Vec<QualifiedName>, Option<Delivery>)> = overrides_of(device_type, table);
    let mut entries: Vec<Entry> = Vec::new();
    let mut problems: Vec<(String, EntryProblem)> = Vec::new();
    let mut i: usize = 0;
    proof {
        assert(entries.deep_view() =~= Seq::<EntryView>::empty());
        assert(problems_view(problems@) =~= Seq::empty());
    }
    while i < device_type.mappings.len()
        invariant
            i <= device_type.mappings@.len(),
            overrides_view(overrides@) == path_overrides(
                device_type.overridden_subscriptions@,
                table@,
            ),
            default_delivery == delivery_for(device_type.subscription_type),
            entries.deep_view() == planned_entries(*device_type, table@, i as nat),
            problems_view(problems@) == planned_problems(*device_type, table@, i as nat),
        decreases device_type.mappings@.len() - i,
    {
        let ghost before = entries.deep_view();
        let ghost problems_before = problems_view(problems@);
        match plan_entry(
            &device_type.mappings[i],
            table,
            &overrides,
            &default_delivery,
            Ghost(*device_type),
        ) {
            Prepared::Entry(entry) => {
                entries.push(entry);
                proof {
                    assert(entries.deep_view() =~= before.push(entry.deep_view()));
                }
            },
            Prepared::Idle => {},
            Prepared::Problem(problem) => {
                let label: String = label_of(&device_type.mappings[i]);
                problems.push((label, problem));
                proof {
                    assert(problems_view(problems@) =~= problems_before.push((label@, problem)));
                }
            },
        }
        i = i + 1;
    }
    Ok(
        Plan {
            device_type_id: device_type_id.to_owned(),
            device_type_name: device_type.name.clone(),
            root_node_id,
            entries,
            problems,
        },
    )
}

/// The plan of a device type: its root, and what becomes of each of its mapping entries.
pub open spec fn is_plan_of(
    plan: PlanView,
    device_type_id: Seq<char>,
    device_type: DeviceType,
    uris: Seq<Seq<char>>,
) -> bool {
    &&& root_of(device_type, uris) == Ok::<NodeIdView, MappingErrorView>(plan.root_node_id)
    &&& plan.device_type_id == device_type_id
    &&& plan.device_type_name == device_type.name@
    &&& plan.entries == planned_entries(device_type, uris, device_type.mappings@.len())
    &&& plan.problems == planned_problems(device_type, uris, device_type.mappings@.len())
}

// Resolving ------------------------------------------------------------------------

/// The entries among the first `count` that still need a browse path translated, by
/// their index.
pub open spec fn pending(entries: Seq<EntryView>, count: nat) -> Seq<
    (usize, Seq<QualifiedNameView>),
>
    decreases count,
{
    if count == 0 {
        Seq::empty()
    } else {
        let before = pending(entries, (count - 1) as nat);
        match entries[count - 1].node_ref {
            NodeRefView::Path(path) => before.push(((count - 1) as usize, path)),
            NodeRefView::Known(_) => before,
        }
    }
}

/// The entries after one of them has got its node id.
pub open spec fn with_resolved(
    entries: Seq<EntryView>,
    index: int,
    node_id: NodeIdView,
) -> Seq<EntryView> {
    if 0 <= index < entries.len() {
        entries.update(
            index,
            EntryView { node_ref: NodeRefView::Known(node_id), ..entries[index] },
        )
    } else {
        entries
    }
}

/// An entry may join a node that has the same node id and the same delivery mode: on
/// the subscription both, or on the same read schedule.
pub open spec fn shares(node: ResolvedNodeView, node_id: NodeIdView, delivery: Delivery) -> bool {
    node.node_id == node_id && schedule_of(node.delivery) == schedule_of(delivery)
}

/// The position of the first node at or behind `from` that an entry may join; the
/// number of nodes where there is none.
pub open spec fn joinable(
    nodes: Seq<ResolvedNodeView>,
    node_id: NodeIdView,
    delivery: Delivery,
    from: int,
) -> int
    decreases nodes.len() - from,
{
    if from < 0 || from >= nodes.len() {
        nodes.len() as int
    } else if shares(nodes[from], node_id, delivery) {
        from
    } else {
        joinable(nodes, node_id, delivery, from + 1)
    }
}

/// The nodes once an entry has been added: nothing changes where its browse path is
/// unresolved; else its actions go to the node that it may join, or to a new one.
pub open spec fn with_entry(nodes: Seq<ResolvedNodeView>, entry: EntryView) -> Seq<
    ResolvedNodeView,
> {
    match entry.node_ref {
        NodeRefView::Path(_) => nodes,
        NodeRefView::Known(node_id) => {
            let i = joinable(nodes, node_id, entry.delivery, 0);
            if 0 <= i < nodes.len() {
                nodes.update(
                    i,
                    ResolvedNodeView { actions: nodes[i].actions + entry.actions, ..nodes[i] },
                )
            } else {
                nodes.push(
                    ResolvedNodeView {
                        node_id,
                        node_id_str: node_id_text(node_id),
                        actions: entry.actions,
                        delivery: entry.delivery,
                    },
                )
            }
        },
    }
}

/// The nodes that entries come to: each is added in turn.
pub open spec fn grouped(entries: Seq<EntryView>) -> Seq<ResolvedNodeView>
    decreases entries.len(),
{
    if entries.len() == 0 {
        Seq::empty()
    } else {
        with_entry(grouped(entries.drop_last()), entries.last())
    }
}

fn find_joinable(nodes: &Vec<ResolvedNode>, node_id: &NodeId, delivery: &Delivery) -> (r: usize)
    ensures
        r <= nodes@.len(),
        r == joinable(nodes.deep_view(), node_id.deep_view(), *delivery, 0),
{
    let ghost model = nodes.deep_view();
    let mut i: usize = 0;
    while i < nodes.len()
        invariant
            i <= nodes@.len(),
            model == nodes.deep_view(),
            model.len() == nodes@.len(),
            joinable(model, node_id.deep_view(), *delivery, i as int) == joinable(
                model,
                node_id.deep_view(),
                *delivery,
                0,
            ),
        decreases nodes@.len() - i,
    {
        proof {
            assert(model[i as int] == nodes@[i as int].deep_view());
        }
        if nodes[i].node_id.same(node_id) && nodes[i].read_schedule() == read_schedule_of(
            delivery,
        ) {
            return i;
        }
        i = i + 1;
    }
    i
}

impl Plan {
    /// Entries still needing a `TranslateBrowsePathsToNodeIds` round trip, by entry
    /// index.
    pub fn pending_paths(&self) -> (r: Vec<(usize, Vec<QualifiedName>)>)
        ensures
            r.deep_view() == pending(self.deep_view().entries, self.deep_view().entries.len()),
    {
        let mut out: Vec<(usize, Vec<QualifiedName>)> = Vec::new();
        let ghost entries = self.deep_view().entries;
        let mut i: usize = 0;
        proof {
            assert(out.deep_view() =~= pending(entries, 0));
            assert(entries.len() == self.entries@.len());
        }
        while i < self.entries.len()
            invariant
                i <= self.entries@.len(),
                entries == self.entries.deep_view(),
                entries.len() == self.entries@.len(),
                out.deep_view() == pending(entries, i as nat),
            decreases self.entries@.len() - i,
        {
            let ghost before = out.deep_view();
            proof {
                assert(entries[i as int] == self.entries@[i as int].deep_view());
            }
            if let NodeRef::Path(path) = &self.entries[i].node_ref {
                let copy: Vec<QualifiedName> = copy_path(path);
                out.push((i, copy));
                proof {
                    assert(out.deep_view() =~= before.push((i, path.deep_view())));
                }
            }
            i = i + 1;
        }
        out
    }

    /// Record the node id a translation produced for one entry.
    pub fn set_resolved(&mut self, index: usize, node_id: NodeId)
        ensures
            final(self).deep_view() == (PlanView {
                entries: with_resolved(
                    old(self).deep_view().entries,
                    index as int,
                    node_id.deep_view(),
                ),
                ..old(self).deep_view()
            }),
    {
        let ghost before = self.deep_view().entries;
        if index < self.entries.len() {
            self.entries[index].node_ref = NodeRef::Known(node_id);
            proof {
                assert(self.entries.deep_view() =~= with_resolved(
                    before,
                    index as int,
                    node_id.deep_view(),
                ));
            }
        }
    }

    /// Name of the entry at `index`, for log fields.
    pub fn entry_name(&self, index: usize) -> (r: &str)
        ensures
            r@ == (if index < self.deep_view().entries.len() {
                self.deep_view().entries[index as int].name
            } else {
                "<unknown>"@
            }),
    {
        if index < self.entries.len() {
            self.entries[index].name.as_str()
        } else {
            "<unknown>"
        }
    }

    /// Drop still-unresolved entries and group the rest by node id and delivery mode.
    ///
    /// Two entries share a node only when they also share a delivery mode: the same
    /// node read cyclically and monitored would otherwise collapse into one arbitrary
    /// mode.
    pub fn finish(self) -> (r: ResolvedMapping)
        ensures
            r.deep_view() == (ResolvedMappingView {
                device_type_id: self.deep_view().device_type_id,
                device_type_name: self.deep_view().device_type_name,
                root_node_id: node_id_text(self.deep_view().root_node_id),
                nodes: grouped(self.deep_view().entries),
            }),
    {
        let ghost all = self.entries.deep_view();
        let mut entries: Vec<Entry> = self.entries;
        let mut nodes: Vec<ResolvedNode> = Vec::new();
        let ghost mut done: int = 0;
        proof {
            assert(all.skip(0) =~= all);
            assert(nodes.deep_view() =~= grouped(all.take(0)));
        }
        while entries.len() > 0
            invariant
                0 <= done <= all.len(),
                entries@.len() == all.len() - done,
                entries.deep_view() == all.skip(done),
                nodes.deep_view() == grouped(all.take(done)),
            ensures
                done == all.len(),
                nodes.deep_view() == grouped(all.take(done)),
            decreases entries@.len(),
        {
            let ghost rest = entries.deep_view();
            let ghost raw = entries@;
            let ghost before = nodes.deep_view();
            let entry: Entry = entries.remove(0);
            proof {
                assert(rest.len() == all.len() - done);
                assert(rest[0] == all[done]);
                assert(entry.deep_view() == all[done]);
                assert forall|k: int| 0 <= k < entries@.len() implies #[trigger] entries.deep_view()[k]
                    == all.skip(done + 1)[k] by {
                    assert(entries@[k] == raw[k + 1]);
                    assert(rest[k + 1] == all[done + k + 1]);
                }
                assert(entries.deep_view() =~= all.skip(done + 1));
                assert(all.take(done + 1).drop_last() =~= all.take(done));
                assert(all.take(done + 1).last() == all[done]);
                done = done + 1;
            }
            let ghost view = entry.deep_view();
            if let NodeRef::Known(node_id) = entry.node_ref {
                let i: usize = find_joinable(&nodes, &node_id, &entry.delivery);
                let mut actions: Vec<Action> = entry.actions;
                let ghost added = actions.deep_view();
                if i < nodes.len() {
                    let ghost old_actions = nodes@[i as int].actions@;
                    nodes[i].actions.append(&mut actions);
                    proof {
                        assert(nodes@[i as int].actions.deep_view() =~= before[i as int].actions
                            + added);
                        assert(nodes.deep_view() =~= with_entry(before, view));
                    }
                } else {
                    let node_id_str: String = namespace::node_id_to_text(&node_id);
                    nodes.push(
                        ResolvedNode { node_id, node_id_str, actions, delivery: entry.delivery },
                    );
                    proof {
                        assert(nodes.deep_view() =~= with_entry(before, view));
                    }
                }
            }
        }
        proof {
            assert(all.take(done) =~= all);
        }
        ResolvedMapping {
            device_type_id: self.device_type_id,
            device_type_name: self.device_type_name,
            root_node_id: namespace::node_id_to_text(&self.root_node_id),
            nodes,
        }
    }
}

/// A device type resolved against one server.
#[derive(Debug)]
pub struct ResolvedMapping {
    pub device_type_id: String,
    pub device_type_name: String,
    /// The root this device type was authored against, part of the device's display
    /// name.
    pub root_node_id: String,
    pub nodes: Vec<ResolvedNode>,
}

pub struct ResolvedMappingView {
    pub device_type_id: Seq<char>,
    pub device_type_name: Seq<char>,
    pub root_node_id: Seq<char>,
    pub nodes: Seq<ResolvedNodeView>,
}

impl DeepView for ResolvedMapping {
    type V = ResolvedMappingView;

    open spec fn deep_view(&self) -> ResolvedMappingView {
        ResolvedMappingView {
            device_type_id: self.device_type_id@,
            device_type_name: self.device_type_name@,
            root_node_id: self.root_node_id@,
            nodes: self.nodes.deep_view(),
        }
    }
}

// What a resolved device type delivers ----------------------------------------------

/// The units of measurement series, by measurement type.
pub type Units = Map<Seq<char>, Seq<(Seq<char>, Seq<char>)>>;

/// The units once an action of a node has been looked at: a measurement with a type
/// and a unit adds its series.
pub open spec fn with_unit(units: Units, node_id: Seq<char>, action: ActionView) -> Units {
    match action {
        ActionView::Measurement(m) => match (non_blank_text(m.unit), measurement_type_of(m)) {
            (Some(unit), Some(type_)) => units.insert(
                type_,
                (if units.contains_key(type_) {
                    units[type_]
                } else {
                    Seq::empty()
                }).push((series_name_of(m, node_id), unit)),
            ),
            _ => units,
        },
        _ => units,
    }
}

pub open spec fn with_units(units: Units, node_id: Seq<char>, actions: Seq<ActionView>) -> Units
    decreases actions.len(),
{
    if actions.len() == 0 {
        units
    } else {
        with_unit(with_units(units, node_id, actions.drop_last()), node_id, actions.last())
    }
}

/// The units of all measurements of some nodes, in the order in which they stand.
pub open spec fn units_of(nodes: Seq<ResolvedNodeView>) -> Units
    decreases nodes.len(),
{
    if nodes.len() == 0 {
        Map::empty()
    } else {
        with_units(units_of(nodes.drop_last()), nodes.last().node_id_str, nodes.last().actions)
    }
}

/// What a map of series and units is.
pub open spec fn units_view(m: Map<Seq<char>, Vec<(String, String)>>) -> Units {
    m.map_values(|v: Vec<(String, String)>| v.deep_view())
}

fn add_unit(out: &mut TextMap<Vec<(String, String)>>, node_id: &str, action: &Action)
    ensures
        units_view(final(out)@) == with_unit(units_view(old(out)@), node_id@, action.deep_view()),
{
    if let Action::Measurement(m) = action {
        if let Some(unit) = model::non_blank(model::as_text(&m.unit)) {
            if let Some(type_) = measurement_type(m) {
                let ghost before = out@;
                let mut series: Vec<(String, String)> = match out.remove(type_) {
                    Some(series) => series,
                    None => Vec::new(),
                };
                let ghost old_series = series.deep_view();
                proof {
                    assert(old_series =~= (if units_view(before).contains_key(type_@) {
                        units_view(before)[type_@]
                    } else {
                        Seq::empty()
                    }));
                }
                series.push((m.series_name(node_id), unit.to_owned()));
                proof {
                    assert(series.deep_view() =~= old_series.push(
                        (series_name_of(m.deep_view(), node_id@), unit@),
                    ));
                }
                out.insert(type_.to_owned(), series);
                proof {
                    assert(units_view(out@) =~= with_unit(
                        units_view(before),
                        node_id@,
                        action.deep_view(),
                    ));
                }
            }
        }
    }
}

/// The order of read schedules: by rate, then by age.
pub open spec fn schedule_lt(a: ReadSchedule, b: ReadSchedule) -> bool {
    a.rate_ms < b.rate_ms || (a.rate_ms == b.rate_ms && a.max_age_ms < b.max_age_ms)
}

fn schedule_less(a: ReadSchedule, b: ReadSchedule) -> (r: bool)
    ensures
        r == schedule_lt(a, b),
{
    a.rate_ms < b.rate_ms || (a.rate_ms == b.rate_ms && a.max_age_ms < b.max_age_ms)
}

/// The nodes that are read on a schedule.
pub open spec fn on_schedule(nodes: Seq<ResolvedNode>, schedule: ReadSchedule) -> Seq<
    ResolvedNode,
> {
    nodes.filter(|n: ResolvedNode| schedule_of(n.delivery) == Some(schedule))
}

/// The nodes that are on the subscription.
pub open spec fn on_subscription(nodes: Seq<ResolvedNode>) -> Seq<ResolvedNode> {
    nodes.filter(|n: ResolvedNode| schedule_of(n.delivery) is None)
}

/// The nodes behind references to them.
pub open spec fn referenced(nodes: Seq<&ResolvedNode>) -> Seq<ResolvedNode> {
    nodes.map_values(|n: &ResolvedNode| *n)
}

pub type ReadGroups<'a> = Seq<(ReadSchedule, Vec<&'a ResolvedNode>)>;

/// The cyclically read nodes by schedule: the schedules in order, each with its nodes,
/// and every schedule that a node has.
pub open spec fn are_read_groups(groups: ReadGroups<'_>, nodes: Seq<ResolvedNode>) -> bool {
    &&& forall|i: int, j: int|
        0 <= i < j < groups.len() ==> schedule_lt(
            (#[trigger] groups[i]).0,
            (#[trigger] groups[j]).0,
        )
    &&& forall|i: int|
        0 <= i < groups.len() ==> referenced((#[trigger] groups[i]).1@) == on_schedule(
            nodes,
            groups[i].0,
        )
    &&& forall|i: int| 0 <= i < groups.len() ==> (#[trigger] groups[i]).1@.len() > 0
    &&& forall|n: int|
        0 <= n < nodes.len() && schedule_of((#[trigger] nodes[n]).delivery) is Some ==> has_group(
            groups,
            schedule_of(nodes[n].delivery)->Some_0,
        )
}

pub open spec fn has_group(groups: ReadGroups<'_>, schedule: ReadSchedule) -> bool {
    exists|i: int| 0 <= i < groups.len() && (#[trigger] groups[i]).0 == schedule
}

impl ResolvedMapping {
    /// Every `(series, unit)` pair per measurement type, for the retained
    /// `m/<type>/meta` topics.
    pub fn measurement_units(&self) -> (r: TextMap<Vec<(String, String)>>)
        ensures
            units_view(r@) == units_of(self.deep_view().nodes),
    {
        let mut out: TextMap<Vec<(String, String)>> = TextMap::new();
        let ghost nodes = self.nodes.deep_view();
        let mut i: usize = 0;
        proof {
            assert(units_view(out@) =~= units_of(nodes.take(0)));
        }
        while i < self.nodes.len()
            invariant
                i <= self.nodes@.len(),
                nodes == self.nodes.deep_view(),
                units_view(out@) == units_of(nodes.take(i as int)),
            decreases self.nodes@.len() - i,
        {
            let node: &ResolvedNode = &self.nodes[i];
            let ghost before = units_view(out@);
            let ghost actions = node.actions.deep_view();
            let mut j: usize = 0;
            proof {
                assert(actions.take(0) =~= Seq::empty());
                assert(nodes.take(i + 1).drop_last() =~= nodes.take(i as int));
                assert(nodes.take(i + 1).last() == node.deep_view());
            }
            while j < node.actions.len()
                invariant
                    j <= node.actions@.len(),
                    actions == node.actions.deep_view(),
                    units_view(out@) == with_units(
                        before,
                        node.node_id_str@,
                        actions.take(j as int),
                    ),
                decreases node.actions@.len() - j,
            {
                proof {
                    assert(actions.take(j + 1).drop_last() =~= actions.take(j as int));
                    assert(actions.take(j + 1).last() == node.actions@[j as int].deep_view());
                }
                add_unit(&mut out, node.node_id_str.as_str(), &node.actions[j]);
                j = j + 1;
            }
            proof {
                assert(actions.take(j as int) =~= actions);
            }
            i = i + 1;
        }
        proof {
            assert(nodes.take(i as int) =~= nodes);
        }
        out
    }

    /// Cyclic-read nodes grouped by schedule.
    pub fn read_groups(&self) -> (r: Vec<(ReadSchedule, Vec<&ResolvedNode>)>)
        ensures
            are_read_groups(r@, self.nodes@),
    {
        let mut out: Vec<(ReadSchedule, Vec<&ResolvedNode>)> = Vec::new();
        let ghost nodes = self.nodes@;
        let mut i: usize = 0;
        while i < self.nodes.len()
            invariant
                i <= self.nodes@.len(),
                nodes == self.nodes@,
                are_read_groups(out@, nodes.take(i as int)),
            decreases self.nodes@.len() - i,
        {
            let node: &ResolvedNode = &self.nodes[i];
            match node.read_schedule() {
                Some(schedule) => {
                    add_to_group(&mut out, node, schedule, Ghost(nodes), Ghost(i as int));
                },
                None => {
                    proof {
                        assert forall|k: int| 0 <= k < out@.len() implies referenced(
                            (#[trigger] out@[k]).1@,
                        ) == on_schedule(nodes.take(i + 1), out@[k].0) by {
                            lemma_filter_take(
                                nodes,
                                i as int,
                                |n: ResolvedNode| schedule_of(n.delivery) == Some(out@[k].0),
                            );
                        }
                        assert forall|n: int|
                            0 <= n < i + 1 && schedule_of(
                                (#[trigger] nodes.take(i + 1)[n]).delivery,
                            ) is Some implies has_group(
                            out@,
                            schedule_of(nodes.take(i + 1)[n].delivery)->Some_0,
                        ) by {
                            assert(nodes.take(i as int)[n] == nodes[n]);
                        }
                    }
                },
            }
            i = i + 1;
        }
        proof {
            assert(nodes.take(i as int) =~= nodes);
        }
        out
    }

    /// Nodes delivered by subscription.
    pub fn subscribed_nodes(&self) -> (r: Vec<&ResolvedNode>)
        ensures
            referenced(r@) == on_subscription(self.nodes@),
    {
        let mut out: Vec<&ResolvedNode> = Vec::new();
        let ghost nodes = self.nodes@;
        let mut i: usize = 0;
        proof {
            reveal(Seq::filter);
            assert(referenced(out@) =~= on_subscription(nodes.take(0)));
        }
        while i < self.nodes.len()
            invariant
                i <= self.nodes@.len(),
                nodes == self.nodes@,
                referenced(out@) == on_subscription(nodes.take(i as int)),
            decreases self.nodes@.len() - i,
        {
            let node: &ResolvedNode = &self.nodes[i];
            let ghost before = referenced(out@);
            proof {
                lemma_filter_take(
                    nodes,
                    i as int,
                    |n: ResolvedNode| schedule_of(n.delivery) is None,
                );
            }
            if node.read_schedule().is_none() {
                out.push(node);
                proof {
                    assert(referenced(out@) =~= before.push(*node));
                }
            }
            i = i + 1;
        }
        proof {
            assert(nodes.take(i as int) =~= nodes);
        }
        out
    }
}

/// Adds the node at `at`, read on `schedule`, to the groups of the nodes before it.
fn add_to_group<'a>(
    groups: &mut Vec<(ReadSchedule, Vec<&'a ResolvedNode>)>,
    node: &'a ResolvedNode,
    schedule: ReadSchedule,
    Ghost(nodes): Ghost<Seq<ResolvedNode>>,
    Ghost(at): Ghost<int>,
)
    requires
        0 <= at < nodes.len(),
        nodes[at] == *node,
        schedule_of(node.delivery) == Some(schedule),
        are_read_groups(old(groups)@, nodes.take(at)),
    ensures
        are_read_groups(final(groups)@, nodes.take(at + 1)),
{
    let ghost before = groups@;
    let mut k: usize = 0;
    while k < groups.len() && schedule_less(groups[k].0, schedule)
        invariant
            k <= groups@.len(),
            groups@ == before,
            forall|j: int| 0 <= j < k ==> schedule_lt((#[trigger] groups@[j]).0, schedule),
        decreases groups@.len() - k,
    {
        k = k + 1;
    }
    proof {
        assert forall|s: ReadSchedule| #[trigger]
            on_schedule(nodes.take(at + 1), s) == if s == schedule {
                on_schedule(nodes.take(at), s).push(*node)
            } else {
                on_schedule(nodes.take(at), s)
            } by {
            lemma_filter_take(
                nodes,
                at,
                |n: ResolvedNode| schedule_of(n.delivery) == Some(s),
            );
        }
    }
    if k < groups.len() && groups[k].0 == schedule {
        groups[k].1.push(node);
        proof {
            assert(referenced(groups@[k as int].1@) =~= referenced(before[k as int].1@).push(
                *node,
            ));
            assert forall|j: int| 0 <= j < groups@.len() && j != k implies groups@[j]
                == before[j] by {}
            assert(groups@[k as int].0 == schedule);
            assert(has_group(groups@, schedule));
            assert forall|n: int|
                0 <= n < at + 1 && schedule_of(
                    (#[trigger] nodes.take(at + 1)[n]).delivery,
                ) is Some implies has_group(
                groups@,
                schedule_of(nodes.take(at + 1)[n].delivery)->Some_0,
            ) by {
                if n < at {
                    assert(nodes.take(at)[n] == nodes[n]);
                    let s = schedule_of(nodes[n].delivery)->Some_0;
                    assert(has_group(before, s));
                    let j = choose|j: int| 0 <= j < before.len() && (#[trigger] before[j]).0 == s;
                    assert(groups@[j].0 == s);
                }
            }
        }
    } else {
        let mut members: Vec<&'a ResolvedNode> = Vec::new();
        members.push(node);
        proof {
            // No earlier node is on this schedule.
            assert(on_schedule(nodes.take(at), schedule) =~= Seq::empty()) by {
                lemma_absent_schedule(before, nodes.take(at), schedule, k as int);
            }
            assert(referenced(members@) =~= seq![*node]);
        }
        groups.insert(k, (schedule, members));
        proof {
            let ins = groups@;
            assert(ins == before.insert(k as int, (schedule, members)));
            assert(ins[k as int].0 == schedule);
            assert forall|a: int, b: int| 0 <= a < b < ins.len() implies schedule_lt(
                (#[trigger] ins[a]).0,
                (#[trigger] ins[b]).0,
            ) by {
                if a < k && b > k {
                    assert(ins[b] == before[b - 1]);
                    assert(ins[a] == before[a]);
                } else if a > k {
                    assert(ins[a] == before[a - 1]);
                    assert(ins[b] == before[b - 1]);
                } else if a == k {
                    assert(ins[b] == before[b - 1]);
                    assert(schedule_lt(schedule, before[k as int].0));
                }
            }
            assert forall|a: int| 0 <= a < ins.len() implies referenced((#[trigger] ins[a]).1@)
                == on_schedule(nodes.take(at + 1), ins[a].0) && ins[a].1@.len() > 0 by {
                if a < k {
                    assert(ins[a] == before[a]);
                } else if a > k {
                    assert(ins[a] == before[a - 1]);
                    assert(schedule_lt(schedule, before[k as int].0));
                } else {
                    assert(on_schedule(nodes.take(at), schedule).push(*node) =~= seq![*node]);
                }
            }
            assert forall|n: int|
                0 <= n < at + 1 && schedule_of(
                    (#[trigger] nodes.take(at + 1)[n]).delivery,
                ) is Some implies has_group(
                ins,
                schedule_of(nodes.take(at + 1)[n].delivery)->Some_0,
            ) by {
                if n < at {
                    assert(nodes.take(at)[n] == nodes[n]);
                    let s = schedule_of(nodes[n].delivery)->Some_0;
                    assert(has_group(before, s));
                    let j = choose|j: int| 0 <= j < before.len() && (#[trigger] before[j]).0 == s;
                    if j < k {
                        assert(ins[j].0 == s);
                    } else {
                        assert(ins[j + 1].0 == s);
                    }
                }
            }
        }
    }
}

/// Where a schedule would stand between its neighbours, no node is on it.
proof fn lemma_absent_schedule(
    groups: ReadGroups<'_>,
    nodes: Seq<ResolvedNode>,
    schedule: ReadSchedule,
    k: int,
)
    requires
        are_read_groups(groups, nodes),
        0 <= k <= groups.len(),
        forall|j: int| 0 <= j < k ==> schedule_lt((#[trigger] groups[j]).0, schedule),
        k < groups.len() ==> schedule_lt(schedule, groups[k].0),
    ensures
        on_schedule(nodes, schedule) == Seq::<ResolvedNode>::empty(),
{
    let f = |n: ResolvedNode| schedule_of(n.delivery) == Some(schedule);
    let found = on_schedule(nodes, schedule);
    if found.len() > 0 {
        let n = found[0];
        lemma_filter_from(nodes, f, 0);
        let i = nodes.index_of(n);
        assert(has_group(groups, schedule));
        let j = choose|j: int| 0 <= j < groups.len() && (#[trigger] groups[j]).0 == schedule;
        if j > k {
            assert(schedule_lt(groups[k].0, groups[j].0));
        }
    }
    assert(found =~= Seq::empty());
}

// Laws -----------------------------------------------------------------------------

/// No two nodes could be joined.
pub open spec fn all_apart(nodes: Seq<ResolvedNodeView>) -> bool {
    forall|i: int, j: int|
        0 <= i < j < nodes.len() ==> !shares(
            #[trigger] nodes[j],
            (#[trigger] nodes[i]).node_id,
            nodes[i].delivery,
        )
}

proof fn lemma_joinable(
    nodes: Seq<ResolvedNodeView>,
    node_id: NodeIdView,
    delivery: Delivery,
    from: int,
)
    requires
        0 <= from <= nodes.len(),
    ensures
        from <= joinable(nodes, node_id, delivery, from) <= nodes.len(),
        joinable(nodes, node_id, delivery, from) < nodes.len() ==> shares(
            nodes[joinable(nodes, node_id, delivery, from)],
            node_id,
            delivery,
        ),
        forall|i: int|
            from <= i < joinable(nodes, node_id, delivery, from) ==> !shares(
                #[trigger] nodes[i],
                node_id,
                delivery,
            ),
    decreases nodes.len() - from,
{
    if from < nodes.len() && !shares(nodes[from], node_id, delivery) {
        lemma_joinable(nodes, node_id, delivery, from + 1);
    }
}

/// A node occurs at most once per delivery mode in a resolved device type: on the
/// subscription, and on each read schedule.
pub proof fn law_a_node_occurs_once_per_delivery_mode(entries: Seq<EntryView>)
    ensures
        all_apart(grouped(entries)),
    decreases entries.len(),
{
    if entries.len() > 0 {
        let before = grouped(entries.drop_last());
        let entry = entries.last();
        law_a_node_occurs_once_per_delivery_mode(entries.drop_last());
        if let NodeRefView::Known(node_id) = entry.node_ref {
            lemma_joinable(before, node_id, entry.delivery, 0);
            let after = grouped(entries);
            assert forall|i: int, j: int| 0 <= i < j < after.len() implies !shares(
                #[trigger] after[j],
                (#[trigger] after[i]).node_id,
                after[i].delivery,
            ) by {
                if j < before.len() {
                    assert(after[j].node_id == before[j].node_id);
                    assert(after[i].node_id == before[i].node_id);
                    assert(after[j].delivery == before[j].delivery);
                    assert(after[i].delivery == before[i].delivery);
                    assert(!shares(before[j], before[i].node_id, before[i].delivery));
                } else {
                    assert(!shares(before[i], node_id, entry.delivery));
                }
            }
        }
    }
}

/// Entries whose browse path did not resolve cost only themselves: the nodes are those
/// of the other entries.
pub proof fn law_unresolved_entries_are_dropped(entries: Seq<EntryView>)
    ensures
        grouped(entries) == grouped(entries.filter(|e: EntryView| e.node_ref is Known)),
    decreases entries.len(),
{
    reveal(Seq::filter);
    let f = |e: EntryView| e.node_ref is Known;
    if entries.len() > 0 {
        let before = entries.drop_last();
        law_unresolved_entries_are_dropped(before);
        if f(entries.last()) {
            assert(entries.filter(f).drop_last() =~= before.filter(f));
        }
    }
}

/// Some node of the given id and delivery mode has the action.
pub open spec fn publishes(
    nodes: Seq<ResolvedNodeView>,
    node_id: NodeIdView,
    delivery: Delivery,
    action: ActionView,
) -> bool {
    exists|k: int|
        0 <= k < nodes.len() && shares(#[trigger] nodes[k], node_id, delivery)
            && nodes[k].actions.contains(action)
}

/// Nothing is lost in grouping: every action of a resolved entry belongs to a node with
/// the entry's node id and delivery mode.
pub proof fn law_resolved_actions_are_kept(entries: Seq<EntryView>, i: int, a: int)
    requires
        0 <= i < entries.len(),
        entries[i].node_ref is Known,
        0 <= a < entries[i].actions.len(),
    ensures
        publishes(
            grouped(entries),
            entries[i].node_ref->Known_0,
            entries[i].delivery,
            entries[i].actions[a],
        ),
    decreases entries.len(),
{
    let before = grouped(entries.drop_last());
    let after = grouped(entries);
    let last = entries.last();
    let id = entries[i].node_ref->Known_0;
    let delivery = entries[i].delivery;
    let action = entries[i].actions[a];
    if let NodeRefView::Known(node_id) = last.node_ref {
        lemma_joinable(before, node_id, last.delivery, 0);
    }
    if i == entries.len() - 1 {
        let k = joinable(before, id, delivery, 0);
        if k < before.len() {
            assert(after[k].actions[before[k].actions.len() + a] == action);
        } else {
            assert(after[k].actions[a] == action);
        }
        assert(shares(after[k], id, delivery));
    } else {
        law_resolved_actions_are_kept(entries.drop_last(), i, a);
        let k = choose|k: int|
            0 <= k < before.len() && shares(#[trigger] before[k], id, delivery)
                && before[k].actions.contains(action);
        let m = before[k].actions.index_of(action);
        assert(after[k].actions[m] == action);
        assert(shares(after[k], id, delivery));
    }
}

/// No entry is left out in silence: one that would publish something is planned or has a problem.
pub proof fn law_no_entry_is_left_out_in_silence(
    device_type: DeviceType,
    entry: MappingEntry,
    uris: Seq<Seq<char>>,
)
    requires
        entry_actions(entry).len() > 0,
    ensures
        planned_entry(device_type, entry, uris) is Some <==> entry_problem(
            device_type,
            entry,
            uris,
        ) is None,
{
}

/// A browse path with a regular expression is never planned.
pub proof fn law_regex_paths_are_never_planned(
    device_type: DeviceType,
    entry: MappingEntry,
    uris: Seq<Seq<char>>,
)
    requires
        has_regex(entry.browse_path.deep_view()),
    ensures
        planned_entry(device_type, entry, uris) is None,
{
}

/// A delivery mode that the OPC UA services accept.
pub open spec fn valid_delivery(delivery: Delivery) -> bool {
    delivery matches Delivery::Subscription(p) ==> valid_parameters(p)
}

proof fn lemma_overrides_are_valid(
    overrides: Seq<OverriddenSubscription>,
    uris: Seq<Seq<char>>,
    i: int,
)
    requires
        0 <= i < path_overrides(overrides, uris).len(),
    ensures
        path_overrides(overrides, uris)[i].1 matches Some(d) ==> valid_delivery(d),
    decreases overrides.len(),
{
    if i < path_overrides(overrides.drop_last(), uris).len() {
        lemma_overrides_are_valid(overrides.drop_last(), uris, i);
    }
}

proof fn lemma_chosen_delivery_is_valid(
    overrides: Seq<OverriddenSubscription>,
    uris: Seq<Seq<char>>,
    path: Seq<QualifiedNameView>,
    default_delivery: Option<Delivery>,
    from: int,
)
    requires
        0 <= from,
        default_delivery matches Some(d) ==> valid_delivery(d),
    ensures
        delivery_at(path_overrides(overrides, uris), path, default_delivery, from) matches Some(d)
            ==> valid_delivery(d),
    decreases path_overrides(overrides, uris).len() - from,
{
    if from < path_overrides(overrides, uris).len() {
        lemma_overrides_are_valid(overrides, uris, from);
        lemma_chosen_delivery_is_valid(overrides, uris, path, default_delivery, from + 1);
    }
}

/// No entry is planned with parameters that the OPC UA services would refuse.
pub proof fn law_planned_deliveries_are_valid(
    device_type: DeviceType,
    uris: Seq<Seq<char>>,
    count: nat,
)
    ensures
        forall|i: int|
            0 <= i < planned_entries(device_type, uris, count).len() ==> valid_delivery(
                (#[trigger] planned_entries(device_type, uris, count)[i]).delivery,
            ),
    decreases count,
{
    if count > 0 {
        law_planned_deliveries_are_valid(device_type, uris, (count - 1) as nat);
        let entry = device_type.mappings@[count - 1];
        lemma_chosen_delivery_is_valid(
            device_type.overridden_subscriptions@,
            uris,
            qualified_names(uris, entry.browse_path.deep_view()),
            delivery_for(device_type.subscription_type),
            0,
        );
    }
}

/// Grouping keeps every delivery mode one that the OPC UA services accept.
pub proof fn law_grouping_keeps_deliveries_valid(entries: Seq<EntryView>)
    requires
        forall|i: int| 0 <= i < entries.len() ==> valid_delivery((#[trigger] entries[i]).delivery),
    ensures
        forall|i: int|
            0 <= i < grouped(entries).len() ==> valid_delivery(
                (#[trigger] grouped(entries)[i]).delivery,
            ),
    decreases entries.len(),
{
    if entries.len() > 0 {
        let first = entries.drop_last();
        assert forall|i: int| 0 <= i < first.len() implies valid_delivery(
            (#[trigger] first[i]).delivery,
        ) by {
            assert(first[i] == entries[i]);
        }
        law_grouping_keeps_deliveries_valid(first);
        let before = grouped(first);
        let after = grouped(entries);
        assert(valid_delivery(entries[entries.len() - 1].delivery));
        assert forall|i: int| 0 <= i < after.len() implies valid_delivery(
            (#[trigger] after[i]).delivery,
        ) by {
            if i < before.len() {
                assert(after[i].delivery == before[i].delivery);
            }
        }
    }
}

/// An override for an entry's browse path decides how the entry is delivered, whatever
/// the device type's own subscription type.
pub proof fn law_override_wins(
    a: DeviceType,
    b: DeviceType,
    entry: MappingEntry,
    uris: Seq<Seq<char>>,
    i: int,
)
    requires
        a == (DeviceType { subscription_type: a.subscription_type, ..b }),
        0 <= i < path_overrides(a.overridden_subscriptions@, uris).len(),
        path_overrides(a.overridden_subscriptions@, uris)[i].0 == qualified_names(
            uris,
            entry.browse_path.deep_view(),
        ),
    ensures
        planned_entry(a, entry, uris) == planned_entry(b, entry, uris),
{
    lemma_delivery_at(
        path_overrides(a.overridden_subscriptions@, uris),
        qualified_names(uris, entry.browse_path.deep_view()),
        delivery_for(a.subscription_type),
        delivery_for(b.subscription_type),
        0,
        i,
    );
}

proof fn lemma_delivery_at(
    overrides: Seq<(Seq<QualifiedNameView>, Option<Delivery>)>,
    path: Seq<QualifiedNameView>,
    a: Option<Delivery>,
    b: Option<Delivery>,
    from: int,
    i: int,
)
    requires
        0 <= from <= i < overrides.len(),
        overrides[i].0 == path,
    ensures
        delivery_at(overrides, path, a, from) == delivery_at(overrides, path, b, from),
    decreases i - from,
{
    if overrides[from].0 != path {
        lemma_delivery_at(overrides, path, a, b, from + 1, i);
    }
}

/// The pending entries are those that are known by their browse path alone.
pub proof fn law_pending_entries_are_the_unresolved(
    entries: Seq<EntryView>,
    i: int,
    path: Seq<QualifiedNameView>,
)
    requires
        entries.len() <= usize::MAX,
        0 <= i < entries.len(),
    ensures
        pending(entries, entries.len()).contains((i as usize, path)) <==> entries[i].node_ref
            == NodeRefView::Path(path),
{
    lemma_pending(entries, entries.len(), i, path);
}

proof fn lemma_pending(
    entries: Seq<EntryView>,
    count: nat,
    i: int,
    path: Seq<QualifiedNameView>,
)
    requires
        count <= entries.len() <= usize::MAX,
        0 <= i < entries.len(),
    ensures
        pending(entries, count).contains((i as usize, path)) <==> i < count && entries[i].node_ref
            == NodeRefView::Path(path),
    decreases count,
{
    if count > 0 {
        let before = pending(entries, (count - 1) as nat);
        let now = pending(entries, count);
        let x = (i as usize, path);
        lemma_pending(entries, (count - 1) as nat, i, path);
        if before.contains(x) {
            let k = before.index_of(x);
            assert(now[k] == x);
        }
        if let NodeRefView::Path(p) = entries[count - 1].node_ref {
            assert(now[now.len() - 1] == ((count - 1) as usize, p));
            if now.contains(x) && !before.contains(x) {
                let k = now.index_of(x);
                if k < before.len() {
                    assert(before[k] == x);
                }
            }
        }
    }
}

/// An entry that has got its node id is no longer pending, and every other entry is
/// pending exactly when it was.
pub proof fn law_resolving_an_entry_settles_it_alone(
    entries: Seq<EntryView>,
    index: int,
    node_id: NodeIdView,
    i: int,
    path: Seq<QualifiedNameView>,
)
    requires
        entries.len() <= usize::MAX,
        0 <= index < entries.len(),
        0 <= i < entries.len(),
    ensures
        pending(with_resolved(entries, index, node_id), entries.len()).contains((i as usize, path))
            <==> i != index && pending(entries, entries.len()).contains((i as usize, path)),
{
    lemma_pending(entries, entries.len(), i, path);
    lemma_pending(with_resolved(entries, index, node_id), entries.len(), i, path);
}

/// A node is delivered in exactly one way: it is on the subscription, or in the read
/// group of its schedule and in no other.
pub proof fn law_every_node_is_delivered_in_one_way(
    nodes: Seq<ResolvedNode>,
    groups: ReadGroups<'_>,
    n: int,
)
    requires
        are_read_groups(groups, nodes),
        0 <= n < nodes.len(),
    ensures
        on_subscription(nodes).contains(nodes[n]) <==> !exists|i: int|
            0 <= i < groups.len() && referenced((#[trigger] groups[i]).1@).contains(nodes[n]),
        forall|i: int, j: int|
            0 <= i < groups.len() && 0 <= j < groups.len() && referenced(
                (#[trigger] groups[i]).1@,
            ).contains(nodes[n]) && referenced((#[trigger] groups[j]).1@).contains(nodes[n])
                ==> i == j,
{
    let node = nodes[n];
    let subscribed = |m: ResolvedNode| schedule_of(m.delivery) is None;
    assert forall|i: int| 0 <= i < groups.len() && referenced((#[trigger] groups[i]).1@).contains(
        node,
    ) implies schedule_of(node.delivery) == Some(groups[i].0) by {
        let f = |m: ResolvedNode| schedule_of(m.delivery) == Some(groups[i].0);
        let k = on_schedule(nodes, groups[i].0).index_of(node);
        lemma_filter_from(nodes, f, k);
    }
    if on_subscription(nodes).contains(node) {
        lemma_filter_from(nodes, subscribed, on_subscription(nodes).index_of(node));
    }
    broadcast use vstd::seq_lib::group_filter_ensures;

    match schedule_of(node.delivery) {
        None => {
            assert(subscribed(node));
            assert(nodes.filter(subscribed).contains(nodes[n]));
        },
        Some(s) => {
            assert(has_group(groups, s));
            let i = choose|i: int| 0 <= i < groups.len() && (#[trigger] groups[i]).0 == s;
            let f = |m: ResolvedNode| schedule_of(m.delivery) == Some(s);
            assert(f(node));
            assert(nodes.filter(f).contains(nodes[n]));
            assert(referenced(groups[i].1@).contains(node));
        },
    }
}

/// The type of something that may be published says something.
pub open spec fn is_typed(type_: Option<Seq<char>>) -> bool {
    type_ matches Some(t) && !is_blank(t)
}

/// One for what is there, none for what is not.
pub open spec fn count_if(there: bool) -> nat {
    if there {
        1
    } else {
        0
    }
}

/// An entry publishes each of its measurement, event and alarm that has a type, whatever else it
/// is configured with, and nothing more.
pub proof fn law_everything_with_a_type_is_published(entry: MappingEntry)
    ensures
        entry.measurement_creation matches Some(m) && is_typed(m.type_.deep_view())
            ==> entry_actions(entry).contains(
            ActionView::Measurement(entry.measurement_creation->Some_0.deep_view()),
        ),
        entry.event_creation matches Some(e) && is_typed(e.type_.deep_view()) ==> entry_actions(
            entry,
        ).contains(ActionView::Event(entry.event_creation->Some_0.deep_view())),
        entry.alarm_creation matches Some(a) && is_typed(a.type_.deep_view()) ==> entry_actions(
            entry,
        ).contains(ActionView::Alarm(entry.alarm_creation->Some_0.deep_view())),
        entry_actions(entry).len() == count_if(
            entry.measurement_creation matches Some(m) && is_typed(m.type_.deep_view()),
        ) + count_if(
            entry.event_creation matches Some(e) && is_typed(e.type_.deep_view()),
        ) + count_if(entry.alarm_creation matches Some(a) && is_typed(a.type_.deep_view())),
        forall|i: int, j: int|
            0 <= i < j < entry_actions(entry).len() ==> match (
                #[trigger] entry_actions(entry)[i],
                #[trigger] entry_actions(entry)[j],
            ) {
                (ActionView::Measurement(_), ActionView::Measurement(_)) => false,
                (ActionView::Measurement(_), _) => true,
                (ActionView::Event(_), ActionView::Alarm(_)) => true,
                _ => false,
            },
{
    let first = if let Some(m) = entry.measurement_creation {
        if_typed(ActionView::Measurement(m.deep_view()))
    } else {
        Seq::empty()
    };
    let second = if let Some(e) = entry.event_creation {
        if_typed(ActionView::Event(e.deep_view()))
    } else {
        Seq::empty()
    };
    let third = if let Some(a) = entry.alarm_creation {
        if_typed(ActionView::Alarm(a.deep_view()))
    } else {
        Seq::empty()
    };
    let all = entry_actions(entry);
    assert(all =~= first + second + third);
    if first.len() > 0 {
        assert(all[0] == first[0]);
    }
    if second.len() > 0 {
        assert(all[first.len() as int] == second[0]);
    }
    if third.len() > 0 {
        assert(all[(first.len() + second.len()) as int] == third[0]);
    }
}

/// A planned entry publishes what its mapping entry is configured to, and has its name.
pub proof fn law_planned_entries_publish_what_is_configured(
    device_type: DeviceType,
    entry: MappingEntry,
    uris: Seq<Seq<char>>,
)
    requires
        planned_entry(device_type, entry, uris) is Some,
    ensures
        ({
            let planned = planned_entry(device_type, entry, uris)->Some_0;
            let typed = |type_: Option<Seq<char>>| is_typed(type_);
            &&& entry.measurement_creation matches Some(m) ==> (typed(m.type_.deep_view())
                <==> planned.actions.contains(ActionView::Measurement(m.deep_view())))
            &&& entry.event_creation matches Some(e) ==> (typed(e.type_.deep_view())
                <==> planned.actions.contains(ActionView::Event(e.deep_view())))
            &&& entry.alarm_creation matches Some(a) ==> (typed(a.type_.deep_view())
                <==> planned.actions.contains(ActionView::Alarm(a.deep_view())))
            &&& planned.actions.len() == count_if(
                entry.measurement_creation matches Some(m) && is_typed(m.type_.deep_view()),
            ) + count_if(
                entry.event_creation matches Some(e) && is_typed(e.type_.deep_view()),
            ) + count_if(entry.alarm_creation matches Some(a) && is_typed(a.type_.deep_view()))
            &&& entry.name matches Some(name) ==> planned.name == name@
            &&& entry.name is None ==> planned.name == "<unnamed>"@
        }),
{
    law_everything_with_a_type_is_published(entry);
    let all = entry_actions(entry);
    if let Some(m) = entry.measurement_creation {
        if all.contains(ActionView::Measurement(m.deep_view())) && !is_typed(m.type_.deep_view()) {
            let i = all.index_of(ActionView::Measurement(m.deep_view()));
            assert(all[i] is Measurement);
        }
    }
    if let Some(e) = entry.event_creation {
        if all.contains(ActionView::Event(e.deep_view())) && !is_typed(e.type_.deep_view()) {
            let i = all.index_of(ActionView::Event(e.deep_view()));
            assert(all[i] is Event);
        }
    }
    if let Some(a) = entry.alarm_creation {
        if all.contains(ActionView::Alarm(a.deep_view())) && !is_typed(a.type_.deep_view()) {
            let i = all.index_of(ActionView::Alarm(a.deep_view()));
            assert(all[i] is Alarm);
        }
    }
}

/// A device type that is subscribed has the authored parameters, or none where none are authored;
/// with parameters that are invalid it is not delivered.
pub proof fn law_subscriptions_have_the_authored_parameters(s: SubscriptionType)
    requires
        subscription_kind(s.type_.deep_view()) == SubscriptionKind::Subscription,
    ensures
        s.subscription_parameters matches Some(p) && valid_parameters(p) ==> delivery_for(Some(s))
            == Some(Delivery::Subscription(s.subscription_parameters->Some_0)),
        s.subscription_parameters matches Some(p) && !valid_parameters(p) ==> delivery_for(
            Some(s),
        ) is None,
        s.subscription_parameters is None ==> {
            &&& delivery_for(Some(s)) matches Some(Delivery::Subscription(p))
            &&& p.sampling_rate is None && p.queue_size is None && p.deadband_type is None
            &&& p.deadband_value is None && p.ranges is None && p.data_change_trigger is None
            &&& p.discard_oldest is None
        },
{
    if s.subscription_parameters is None {
        model::law_parameters_are_refused_for_a_reason(default_parameters());
    }
}

/// A device type that is read has the authored rate, or five seconds where none above zero is
/// authored, and takes values of the authored age, or fresh ones.
pub proof fn law_reads_have_the_authored_schedule(s: SubscriptionType)
    requires
        subscription_kind(s.type_.deep_view()) == SubscriptionKind::CyclicRead,
    ensures
        delivery_for(Some(s)) matches Some(d) && {
            let (rate, age) = match s.cyclic_read_parameters {
                Some(p) => (p.rate, p.max_age),
                None => (None, None),
            };
            &&& d is CyclicRead
            &&& rate is Some && rate->Some_0 > 0 ==> d->CyclicRead_rate_ms == rate->Some_0
            &&& rate is None || rate->Some_0 == 0 ==> d->CyclicRead_rate_ms == 5000
            &&& age is Some ==> d->CyclicRead_max_age == age->Some_0
            &&& age is None ==> d->CyclicRead_max_age == 0
        },
{
}

/// Without a subscription type, and with one of no known word, nothing is delivered.
pub proof fn law_nothing_is_delivered_unasked(subscription_type: Option<SubscriptionType>)
    requires
        subscription_type is None || subscription_kind(
            subscription_type->Some_0.type_.deep_view(),
        ) == SubscriptionKind::NoDelivery,
    ensures
        delivery_for(subscription_type) is None,
{
}

proof fn lemma_delivery_of_more(
    overrides: Seq<(Seq<QualifiedNameView>, Option<Delivery>)>,
    more: (Seq<QualifiedNameView>, Option<Delivery>),
    path: Seq<QualifiedNameView>,
    default_delivery: Option<Delivery>,
    from: int,
)
    requires
        0 <= from <= overrides.len(),
    ensures
        delivery_at(overrides.push(more), path, default_delivery, from) == delivery_at(
            overrides,
            path,
            if more.0 == path {
                more.1
            } else {
                default_delivery
            },
            from,
        ),
    decreases overrides.len() - from,
{
    let all = overrides.push(more);
    if from == overrides.len() {
        assert(all[from] == more);
        assert(delivery_at(all, path, default_delivery, from + 1) == default_delivery);
    } else {
        assert(all[from] == overrides[from]);
        lemma_delivery_of_more(overrides, more, path, default_delivery, from + 1);
    }
}

/// Whether an override is one for a browse path.
pub open spec fn overrides_path(
    o: OverriddenSubscription,
    path: Seq<QualifiedNameView>,
    uris: Seq<Seq<char>>,
) -> bool {
    o.browse_path@.len() > 0 && o.browse_path@.len() == path.len() && forall|i: int|
        0 <= i < path.len() ==> qualified_name(uris, o.browse_path@[i]@) == #[trigger] path[i]
}

proof fn lemma_overrides_path(
    o: OverriddenSubscription,
    path: Seq<QualifiedNameView>,
    uris: Seq<Seq<char>>,
)
    ensures
        overrides_path(o, path, uris) <==> o.browse_path@.len() > 0 && qualified_names(
            uris,
            o.browse_path.deep_view(),
        ) == path,
{
    let names = qualified_names(uris, o.browse_path.deep_view());
    assert(names.len() == o.browse_path@.len());
    assert forall|i: int| 0 <= i < names.len() implies names[i] == qualified_name(
        uris,
        o.browse_path@[i]@,
    ) by {}
    if overrides_path(o, path, uris) {
        assert(names =~= path);
    }
}

proof fn lemma_first_override(
    overrides: Seq<OverriddenSubscription>,
    path: Seq<QualifiedNameView>,
    uris: Seq<Seq<char>>,
    default_delivery: Option<Delivery>,
    k: int,
)
    requires
        0 <= k <= overrides.len(),
        forall|j: int| 0 <= j < k ==> !overrides_path(#[trigger] overrides[j], path, uris),
        k < overrides.len() ==> overrides_path(overrides[k], path, uris),
    ensures
        delivery_at(path_overrides(overrides, uris), path, default_delivery, 0) == if k
            < overrides.len() {
            delivery_for(overrides[k].subscription_type)
        } else {
            default_delivery
        },
    decreases overrides.len(),
{
    if overrides.len() > 0 {
        let first = overrides.drop_last();
        let o = overrides.last();
        let more = (
            qualified_names(uris, o.browse_path.deep_view()),
            delivery_for(o.subscription_type),
        );
        lemma_overrides_path(o, path, uris);
        let rest = if o.browse_path@.len() > 0 && more.0 == path {
            more.1
        } else {
            default_delivery
        };
        if o.browse_path@.len() > 0 {
            lemma_delivery_of_more(path_overrides(first, uris), more, path, default_delivery, 0);
        }
        assert forall|j: int| 0 <= j < k && j < first.len() implies !overrides_path(
            #[trigger] first[j],
            path,
            uris,
        ) by {
            assert(first[j] == overrides[j]);
        }
        if k < first.len() {
            assert(first[k] == overrides[k]);
            lemma_first_override(first, path, uris, rest, k);
        } else {
            if k == overrides.len() {
                assert(!overrides_path(overrides[overrides.len() - 1], path, uris));
            }
            lemma_first_override(first, path, uris, rest, first.len() as int);
        }
    }
}

/// The first override for an entry's browse path says how the entry is delivered; without one the
/// device type says it. An override without a path is for no entry.
pub proof fn law_the_first_override_for_the_path_decides(
    device_type: DeviceType,
    entry: MappingEntry,
    uris: Seq<Seq<char>>,
    k: int,
)
    requires
        0 <= k <= device_type.overridden_subscriptions@.len(),
        forall|j: int|
            0 <= j < k ==> !overrides_path(
                #[trigger] device_type.overridden_subscriptions@[j],
                qualified_names(uris, entry.browse_path.deep_view()),
                uris,
            ),
        k < device_type.overridden_subscriptions@.len() ==> overrides_path(
            device_type.overridden_subscriptions@[k],
            qualified_names(uris, entry.browse_path.deep_view()),
            uris,
        ),
    ensures
        k < device_type.overridden_subscriptions@.len() ==> entry_delivery(device_type, entry, uris)
            == delivery_for(device_type.overridden_subscriptions@[k].subscription_type),
        k == device_type.overridden_subscriptions@.len() ==> entry_delivery(
            device_type,
            entry,
            uris,
        ) == delivery_for(device_type.subscription_type),
{
    lemma_first_override(
        device_type.overridden_subscriptions@,
        qualified_names(uris, entry.browse_path.deep_view()),
        uris,
        delivery_for(device_type.subscription_type),
        k,
    );
}

/// An entry names its node by a node id where it has one, else by its browse path, segment for
/// segment. It is planned with that node and its delivery mode, unless its browse path holds a
/// regular expression.
pub proof fn law_entries_are_planned_with_their_node(
    device_type: DeviceType,
    entry: MappingEntry,
    uris: Seq<Seq<char>>,
)
    requires
        entry_actions(entry).len() > 0,
        entry_delivery(device_type, entry, uris) is Some,
        forall|i: int|
            0 <= i < entry.browse_path@.len() ==> !is_regex_segment(
                #[trigger] entry.browse_path@[i]@,
            ),
    ensures
        entry.referenced_node_id matches Some(id) && id@.len() > 0 ==> match parsed_node_id(
            uris,
            entry.referenced_node_id->Some_0@,
        ) {
            Ok(node_id) => planned_entry(device_type, entry, uris) matches Some(planned)
                && planned.node_ref == NodeRefView::Known(node_id) && Some(planned.delivery)
                == entry_delivery(device_type, entry, uris),
            Err(_) => planned_entry(device_type, entry, uris) is None && entry_problem(
                device_type,
                entry,
                uris,
            ) == Some(EntryProblem::UnusableNodeId),
        },
        entry.referenced_node_id is None || entry.referenced_node_id->Some_0@.len() == 0 ==> if
            entry.browse_path@.len() > 0 {
            planned_entry(device_type, entry, uris) matches Some(planned)
                && planned.node_ref matches NodeRefView::Path(path) && path.len()
                == entry.browse_path@.len() && (forall|i: int|
                0 <= i < path.len() ==> #[trigger] path[i] == qualified_name(
                    uris,
                    entry.browse_path@[i]@,
                )) && Some(planned.delivery) == entry_delivery(device_type, entry, uris)
        } else {
            planned_entry(device_type, entry, uris) is None && entry_problem(
                device_type,
                entry,
                uris,
            ) == Some(EntryProblem::NoNode)
        },
{
    let path = entry.browse_path.deep_view();
    assert forall|i: int| 0 <= i < path.len() implies !is_regex_segment(#[trigger] path[i]) by {
        assert(path[i] == entry.browse_path@[i]@);
    }
    assert(path.len() == entry.browse_path@.len());
}

/// An entry that publishes something is left out for the reason that is reported: a segment of its
/// path is a regular expression, it has no node, or it has no delivery mode. One that publishes
/// nothing is no problem.
pub proof fn law_problems_say_what_is_wrong(
    device_type: DeviceType,
    entry: MappingEntry,
    uris: Seq<Seq<char>>,
)
    ensures
        entry_actions(entry).len() == 0 ==> entry_problem(device_type, entry, uris) is None
            && planned_entry(device_type, entry, uris) is None,
        entry_problem(device_type, entry, uris) == Some(EntryProblem::Regex) <==> entry_actions(
            entry,
        ).len() > 0 && exists|i: int|
            0 <= i < entry.browse_path@.len() && is_regex_segment(
                #[trigger] entry.browse_path@[i]@,
            ),
        entry_problem(device_type, entry, uris) == Some(EntryProblem::NoNode) ==> entry.browse_path@.len()
            == 0,
        entry_problem(device_type, entry, uris) == Some(EntryProblem::NoDelivery)
            ==> entry_delivery(device_type, entry, uris) is None,
        entry_problem(device_type, entry, uris) == Some(EntryProblem::UnusableNodeId) ==> (
        entry.referenced_node_id matches Some(id) && parsed_node_id(uris, id@) is Err),
{
    let path = entry.browse_path.deep_view();
    assert(path.len() == entry.browse_path@.len());
    if has_regex(path) {
        let i = choose|i: int| 0 <= i < path.len() && is_regex_segment(#[trigger] path[i]);
        assert(is_regex_segment(entry.browse_path@[i]@));
    }
    if exists|i: int|
        0 <= i < entry.browse_path@.len() && is_regex_segment(#[trigger] entry.browse_path@[i]@) {
        let i = choose|i: int|
            0 <= i < entry.browse_path@.len() && is_regex_segment(
                #[trigger] entry.browse_path@[i]@,
            );
        assert(is_regex_segment(path[i]));
    }
}

/// Every mapping entry that can be planned is in the plan, and every problem of one is reported
/// under its name; nothing else is.
pub proof fn law_the_plan_holds_every_entry(
    device_type: DeviceType,
    uris: Seq<Seq<char>>,
    count: nat,
)
    requires
        count <= device_type.mappings@.len(),
    ensures
        forall|k: int|
            0 <= k < count ==> {
                &&& planned_entry(device_type, #[trigger] device_type.mappings@[k], uris) matches Some(
                    planned,
                ) ==> planned_entries(device_type, uris, count).contains(planned)
                &&& entry_problem(device_type, device_type.mappings@[k], uris) matches Some(problem)
                    ==> planned_problems(device_type, uris, count).contains(
                    (entry_label(device_type.mappings@[k]), problem),
                )
            },
        forall|i: int|
            0 <= i < planned_entries(device_type, uris, count).len() ==> exists|k: int|
                0 <= k < count && planned_entry(
                    device_type,
                    #[trigger] device_type.mappings@[k],
                    uris,
                ) == Some(#[trigger] planned_entries(device_type, uris, count)[i]),
        planned_entries(device_type, uris, count).len() + planned_problems(
            device_type,
            uris,
            count,
        ).len() + idle_entries(device_type, count) == count,
    decreases count,
{
    if count > 0 {
        let less = (count - 1) as nat;
        law_the_plan_holds_every_entry(device_type, uris, less);
        let entry = device_type.mappings@[count - 1];
        let before = planned_entries(device_type, uris, less);
        let after = planned_entries(device_type, uris, count);
        let problems_before = planned_problems(device_type, uris, less);
        let problems = planned_problems(device_type, uris, count);
        assert forall|k: int| 0 <= k < count implies {
            &&& planned_entry(device_type, #[trigger] device_type.mappings@[k], uris) matches Some(
                planned,
            ) ==> after.contains(planned)
            &&& entry_problem(device_type, device_type.mappings@[k], uris) matches Some(problem)
                ==> problems.contains((entry_label(device_type.mappings@[k]), problem))
        } by {
            if let Some(planned) = planned_entry(device_type, device_type.mappings@[k], uris) {
                if k < less {
                    let i = before.index_of(planned);
                    assert(after[i] == planned);
                } else {
                    assert(after[after.len() - 1] == planned);
                }
            }
            if let Some(problem) = entry_problem(device_type, device_type.mappings@[k], uris) {
                let named = (entry_label(device_type.mappings@[k]), problem);
                if k < less {
                    let i = problems_before.index_of(named);
                    assert(problems[i] == named);
                } else {
                    assert(problems[problems.len() - 1] == named);
                }
            }
        }
        assert forall|i: int| 0 <= i < after.len() implies exists|k: int|
            0 <= k < count && planned_entry(
                device_type,
                #[trigger] device_type.mappings@[k],
                uris,
            ) == Some(#[trigger] after[i]) by {
            if i < before.len() {
                let k = choose|k: int|
                    0 <= k < less && planned_entry(
                        device_type,
                        #[trigger] device_type.mappings@[k],
                        uris,
                    ) == Some(before[i]);
                assert(planned_entry(device_type, device_type.mappings@[k], uris) == Some(
                    after[i],
                ));
            } else {
                assert(planned_entry(device_type, entry, uris) == Some(after[i]));
            }
        }
    }
}

/// How many of the first `count` mapping entries publish nothing.
pub open spec fn idle_entries(device_type: DeviceType, count: nat) -> nat
    decreases count,
{
    if count == 0 {
        0
    } else {
        idle_entries(device_type, (count - 1) as nat) + count_if(
            entry_actions(device_type.mappings@[count - 1]).len() == 0,
        )
    }
}

/// The root that paths start from is the one that the device type names, and the root folder,
/// node 84, where it names none.
pub proof fn law_paths_start_from_the_authored_root(device_type: DeviceType, uris: Seq<Seq<char>>)
    ensures
        device_type.referenced_root_node_id matches Some(root) ==> root_of(device_type, uris)
            == parsed_node_id(uris, root@),
        device_type.referenced_root_node_id is None ==> {
            &&& root_of(device_type, uris) matches Ok(id)
            &&& id.namespace == 0 && id.identifier == IdentifierView::Numeric(84)
        },
{
}

/// Two delivery modes in which a node's values come together: both on the subscription, or both
/// read at the same rate with the same age.
pub open spec fn come_together(a: Delivery, b: Delivery) -> bool {
    match (a, b) {
        (Delivery::Subscription(_), Delivery::Subscription(_)) => true,
        (
            Delivery::CyclicRead { rate_ms: r, max_age: m },
            Delivery::CyclicRead { rate_ms: s, max_age: n },
        ) => r == s && m == n,
        _ => false,
    }
}

/// No two nodes are the same node, delivered together.
pub open spec fn are_different_nodes(nodes: Seq<ResolvedNodeView>) -> bool {
    forall|i: int, j: int|
        0 <= i < j < nodes.len() ==> (#[trigger] nodes[i]).node_id != (#[trigger] nodes[j]).node_id
            || !come_together(nodes[i].delivery, nodes[j].delivery)
}

/// A node has the id and the delivery mode of one of the entries, and the text of its id.
pub open spec fn is_node_of(node: ResolvedNodeView, entries: Seq<EntryView>) -> bool {
    node.node_id_str == node_id_text(node.node_id) && exists|i: int|
        0 <= i < entries.len() && (#[trigger] entries[i]).node_ref == NodeRefView::Known(
            node.node_id,
        ) && entries[i].delivery == node.delivery
}

/// Some node has the id of an entry and is delivered together with it.
pub open spec fn has_node(nodes: Seq<ResolvedNodeView>, entry: EntryView) -> bool {
    exists|k: int|
        0 <= k < nodes.len() && NodeRefView::Known((#[trigger] nodes[k]).node_id) == entry.node_ref
            && come_together(nodes[k].delivery, entry.delivery)
}

/// Grouping makes one node of the entries with the same node id that are delivered together, and
/// of no others: no two nodes could be one, each has the delivery mode of an entry of its own, and
/// each entry whose node is known has its node.
pub proof fn law_nodes_are_delivered_as_their_entries(entries: Seq<EntryView>)
    ensures
        are_different_nodes(grouped(entries)),
        forall|k: int|
            0 <= k < grouped(entries).len() ==> is_node_of(
                #[trigger] grouped(entries)[k],
                entries,
            ),
        forall|i: int|
            0 <= i < entries.len() && (#[trigger] entries[i]).node_ref is Known ==> has_node(
                grouped(entries),
                entries[i],
            ),
    decreases entries.len(),
{
    let after = grouped(entries);
    law_a_node_occurs_once_per_delivery_mode(entries);
    assert forall|i: int, j: int| 0 <= i < j < after.len() implies (#[trigger] after[i]).node_id
        != (#[trigger] after[j]).node_id || !come_together(after[i].delivery, after[j].delivery) by {
        assert(!shares(after[j], after[i].node_id, after[i].delivery));
    }
    if entries.len() > 0 {
        let first = entries.drop_last();
        law_nodes_are_delivered_as_their_entries(first);
        let before = grouped(first);
        let last = entries.last();
        if let NodeRefView::Known(node_id) = last.node_ref {
            lemma_joinable(before, node_id, last.delivery, 0);
        }
        assert forall|k: int| 0 <= k < after.len() implies is_node_of(
            #[trigger] after[k],
            entries,
        ) by {
            if k < before.len() {
                assert(is_node_of(before[k], first));
                lemma_node_of_more(before[k], after[k], entries);
            } else {
                assert(entries[entries.len() - 1].node_ref == NodeRefView::Known(after[k].node_id));
            }
        }
        assert forall|i: int|
            0 <= i < entries.len() && (#[trigger] entries[i]).node_ref is Known implies has_node(
            after,
            entries[i],
        ) by {
            if i < first.len() {
                assert(first[i] == entries[i]);
                assert(has_node(before, first[i]));
                let k = choose|k: int|
                    0 <= k < before.len() && NodeRefView::Known((#[trigger] before[k]).node_id)
                        == first[i].node_ref && come_together(
                        before[k].delivery,
                        first[i].delivery,
                    );
                assert(after[k].node_id == before[k].node_id);
                assert(after[k].delivery == before[k].delivery);
            } else {
                let k = joinable(before, last.node_ref->Known_0, last.delivery, 0);
                assert(after[k].node_id == last.node_ref->Known_0);
                assert(schedule_of(after[k].delivery) == schedule_of(last.delivery));
            }
        }
    }
}

proof fn lemma_node_of_more(
    before: ResolvedNodeView,
    after: ResolvedNodeView,
    entries: Seq<EntryView>,
)
    requires
        entries.len() > 0,
        is_node_of(before, entries.drop_last()),
        after.node_id == before.node_id,
        after.node_id_str == before.node_id_str,
        after.delivery == before.delivery,
    ensures
        is_node_of(after, entries),
{
    let first = entries.drop_last();
    let i = choose|i: int|
        0 <= i < first.len() && (#[trigger] first[i]).node_ref == NodeRefView::Known(
            before.node_id,
        ) && first[i].delivery == before.delivery;
    assert(entries[i] == first[i]);
}

/// The actions of all nodes.
pub open spec fn node_actions(nodes: Seq<ResolvedNodeView>) -> nat
    decreases nodes.len(),
{
    if nodes.len() == 0 {
        0
    } else {
        node_actions(nodes.drop_last()) + nodes.last().actions.len()
    }
}

/// The actions of all entries that have a node.
pub open spec fn resolved_entry_actions(entries: Seq<EntryView>) -> nat
    decreases entries.len(),
{
    if entries.len() == 0 {
        0
    } else {
        resolved_entry_actions(entries.drop_last()) + if entries.last().node_ref is Known {
            entries.last().actions.len()
        } else {
            0
        }
    }
}

proof fn lemma_node_actions_of_update(nodes: Seq<ResolvedNodeView>, k: int, node: ResolvedNodeView)
    requires
        0 <= k < nodes.len(),
    ensures
        node_actions(nodes.update(k, node)) + nodes[k].actions.len() == node_actions(nodes)
            + node.actions.len(),
    decreases nodes.len(),
{
    let after = nodes.update(k, node);
    if k == nodes.len() - 1 {
        assert(after.drop_last() =~= nodes.drop_last());
    } else {
        lemma_node_actions_of_update(nodes.drop_last(), k, node);
        assert(after.drop_last() =~= nodes.drop_last().update(k, node));
    }
}

/// An action of a node belongs to an entry of that node that is delivered together with it.
pub open spec fn comes_from(
    action: ActionView,
    node: ResolvedNodeView,
    entries: Seq<EntryView>,
) -> bool {
    exists|i: int|
        0 <= i < entries.len() && (#[trigger] entries[i]).node_ref == NodeRefView::Known(
            node.node_id,
        ) && come_together(entries[i].delivery, node.delivery) && entries[i].actions.contains(
            action,
        )
}

/// Grouping neither loses nor invents an action: there are as many as the resolved entries have,
/// and each belongs to an entry of its node that is delivered with it.
pub proof fn law_grouping_invents_no_action(entries: Seq<EntryView>)
    ensures
        node_actions(grouped(entries)) == resolved_entry_actions(entries),
        forall|k: int, a: int|
            0 <= k < grouped(entries).len() && 0 <= a < grouped(entries)[k].actions.len()
                ==> comes_from(
                #[trigger] grouped(entries)[k].actions[a],
                grouped(entries)[k],
                entries,
            ),
    decreases entries.len(),
{
    if entries.len() > 0 {
        let first = entries.drop_last();
        law_grouping_invents_no_action(first);
        let before = grouped(first);
        let after = grouped(entries);
        let last = entries.last();
        if let NodeRefView::Known(node_id) = last.node_ref {
            lemma_joinable(before, node_id, last.delivery, 0);
            let at = joinable(before, node_id, last.delivery, 0);
            if at < before.len() {
                lemma_node_actions_of_update(before, at, after[at]);
            } else {
                assert(after.drop_last() =~= before);
            }
        }
        assert forall|k: int, a: int|
            0 <= k < after.len() && 0 <= a < after[k].actions.len() implies comes_from(
            #[trigger] after[k].actions[a],
            after[k],
            entries,
        ) by {
            let action = after[k].actions[a];
            if k < before.len() && a < before[k].actions.len() {
                assert(before[k].actions[a] == action);
                assert(comes_from(before[k].actions[a], before[k], first));
                let i = choose|i: int|
                    0 <= i < first.len() && (#[trigger] first[i]).node_ref == NodeRefView::Known(
                        before[k].node_id,
                    ) && come_together(first[i].delivery, before[k].delivery)
                        && first[i].actions.contains(action);
                assert(entries[i] == first[i]);
            } else {
                let l = entries.len() - 1;
                if k < before.len() {
                    assert(action == last.actions[a - before[k].actions.len()]);
                } else {
                    assert(action == last.actions[a]);
                }
                assert(entries[l].actions.contains(action));
                assert(schedule_of(after[k].delivery) == schedule_of(last.delivery));
                assert(entries[l].node_ref == NodeRefView::Known(after[k].node_id));
            }
        }
    }
}

/// A node is read with the others of its rate and age: the groups are in order of their rates and
/// ages, no two alike, and each holds the nodes that are read at its rate with its age.
pub proof fn law_read_groups_hold_the_nodes_of_their_schedule(
    nodes: Seq<ResolvedNode>,
    groups: ReadGroups<'_>,
    g: int,
    n: int,
)
    requires
        are_read_groups(groups, nodes),
        0 <= g < groups.len(),
        0 <= n < nodes.len(),
    ensures
        referenced(groups[g].1@).contains(nodes[n]) <==> nodes[n].delivery == (
        Delivery::CyclicRead {
            rate_ms: groups[g].0.rate_ms,
            max_age: groups[g].0.max_age_ms,
        }),
        forall|h: int|
            g < h < groups.len() ==> groups[g].0.rate_ms < (#[trigger] groups[h]).0.rate_ms || (
            groups[g].0.rate_ms == groups[h].0.rate_ms && groups[g].0.max_age_ms
                < groups[h].0.max_age_ms),
        nodes[n].delivery is CyclicRead ==> exists|h: int|
            0 <= h < groups.len() && referenced((#[trigger] groups[h]).1@).contains(nodes[n]),
        nodes[n].delivery is Subscription <==> on_subscription(nodes).contains(nodes[n]),
{
    law_every_node_is_delivered_in_one_way(nodes, groups, n);
    let node = nodes[n];
    let schedule = groups[g].0;
    let f = |m: ResolvedNode| schedule_of(m.delivery) == Some(schedule);
    let subscribed = |m: ResolvedNode| schedule_of(m.delivery) is None;
    if referenced(groups[g].1@).contains(node) {
        let k = on_schedule(nodes, schedule).index_of(node);
        lemma_filter_from(nodes, f, k);
    }
    if on_subscription(nodes).contains(node) {
        lemma_filter_from(nodes, subscribed, on_subscription(nodes).index_of(node));
    }
    broadcast use vstd::seq_lib::group_filter_ensures;

    if f(node) {
        assert(nodes.filter(f).contains(nodes[n]));
    }
    if subscribed(node) {
        assert(nodes.filter(subscribed).contains(nodes[n]));
    }
}

/// A measurement that has a unit and a type.
pub open spec fn has_unit(action: ActionView) -> bool {
    action matches ActionView::Measurement(m) && is_typed(m.type_) && is_typed(m.unit)
}

/// What the units of a measurement's type say of it: its series, and its unit.
pub open spec fn unit_pair(action: ActionView, node_id: Seq<char>) -> (Seq<char>, Seq<char>) {
    (
        series_name_of(action->Measurement_0, node_id),
        trimmed(action->Measurement_0.unit->Some_0),
    )
}

/// The type that a measurement's unit is declared for.
pub open spec fn unit_type(action: ActionView) -> Seq<char> {
    trimmed(action->Measurement_0.type_->Some_0)
}

/// The units declared for a type; none where it is not there.
pub open spec fn units_at(units: Units, type_: Seq<char>) -> Seq<(Seq<char>, Seq<char>)> {
    if units.contains_key(type_) {
        units[type_]
    } else {
        Seq::empty()
    }
}

proof fn lemma_units_of_actions(
    units: Units,
    node_id: Seq<char>,
    actions: Seq<ActionView>,
    type_: Seq<char>,
    pair: (Seq<char>, Seq<char>),
)
    ensures
        units_at(with_units(units, node_id, actions), type_).contains(pair) <==> units_at(
            units,
            type_,
        ).contains(pair) || exists|a: int|
            0 <= a < actions.len() && has_unit(#[trigger] actions[a]) && unit_type(actions[a])
                == type_ && unit_pair(actions[a], node_id) == pair,
    decreases actions.len(),
{
    if actions.len() > 0 {
        let first = actions.drop_last();
        let last = actions.last();
        lemma_units_of_actions(units, node_id, first, type_, pair);
        let before = with_units(units, node_id, first);
        let after = with_units(units, node_id, actions);
        assert(units_at(after, type_).contains(pair) <==> units_at(before, type_).contains(pair)
            || (has_unit(last) && unit_type(last) == type_ && unit_pair(last, node_id) == pair)) by {
            let old_pairs = units_at(before, type_);
            let pairs = units_at(after, type_);
            if has_unit(last) && unit_type(last) == type_ {
                assert(pairs == old_pairs.push(unit_pair(last, node_id)));
                assert(pairs[old_pairs.len() as int] == unit_pair(last, node_id));
                if old_pairs.contains(pair) {
                    assert(pairs[old_pairs.index_of(pair)] == pair);
                }
                if pairs.contains(pair) {
                    let i = pairs.index_of(pair);
                    if i < old_pairs.len() {
                        assert(old_pairs[i] == pair);
                    }
                }
            } else {
                assert(pairs == old_pairs);
            }
        }
        if exists|a: int|
            0 <= a < first.len() && has_unit(#[trigger] first[a]) && unit_type(first[a]) == type_
                && unit_pair(first[a], node_id) == pair {
            let a = choose|a: int|
                0 <= a < first.len() && has_unit(#[trigger] first[a]) && unit_type(first[a])
                    == type_ && unit_pair(first[a], node_id) == pair;
            assert(actions[a] == first[a]);
        }
        if exists|a: int|
            0 <= a < actions.len() && has_unit(#[trigger] actions[a]) && unit_type(actions[a])
                == type_ && unit_pair(actions[a], node_id) == pair {
            let a = choose|a: int|
                0 <= a < actions.len() && has_unit(#[trigger] actions[a]) && unit_type(actions[a])
                    == type_ && unit_pair(actions[a], node_id) == pair;
            if a < first.len() {
                assert(first[a] == actions[a]);
            }
        }
        if has_unit(last) && unit_type(last) == type_ && unit_pair(last, node_id) == pair {
            assert(actions[actions.len() - 1] == last);
        }
    }
}

/// Whether an action of some node declares a unit for a type.
pub open spec fn declares(
    nodes: Seq<ResolvedNodeView>,
    type_: Seq<char>,
    pair: (Seq<char>, Seq<char>),
) -> bool {
    exists|n: int, a: int|
        0 <= n < nodes.len() && 0 <= a < nodes[n].actions.len() && has_unit(
            #[trigger] nodes[n].actions[a],
        ) && unit_type(nodes[n].actions[a]) == type_ && unit_pair(
            nodes[n].actions[a],
            nodes[n].node_id_str,
        ) == pair
}

/// Every unit of a measurement that has a type is declared, for its series, and nothing else is:
/// the units of a type hold a series with a unit exactly when a node has a measurement of that
/// type with that series and that unit.
pub proof fn law_every_unit_is_declared(
    nodes: Seq<ResolvedNodeView>,
    type_: Seq<char>,
    pair: (Seq<char>, Seq<char>),
)
    ensures
        units_at(units_of(nodes), type_).contains(pair) <==> declares(nodes, type_, pair),
    decreases nodes.len(),
{
    if nodes.len() > 0 {
        let first = nodes.drop_last();
        let last = nodes.last();
        law_every_unit_is_declared(first, type_, pair);
        lemma_units_of_actions(
            units_of(first),
            last.node_id_str,
            last.actions,
            type_,
            pair,
        );
        if declares(first, type_, pair) {
            let (n, a) = choose|n: int, a: int|
                0 <= n < first.len() && 0 <= a < first[n].actions.len() && has_unit(
                    #[trigger] first[n].actions[a],
                ) && unit_type(first[n].actions[a]) == type_ && unit_pair(
                    first[n].actions[a],
                    first[n].node_id_str,
                ) == pair;
            assert(nodes[n].actions[a] == first[n].actions[a]);
        }
        if exists|a: int|
            0 <= a < last.actions.len() && has_unit(#[trigger] last.actions[a]) && unit_type(
                last.actions[a],
            ) == type_ && unit_pair(last.actions[a], last.node_id_str) == pair {
            let a = choose|a: int|
                0 <= a < last.actions.len() && has_unit(#[trigger] last.actions[a]) && unit_type(
                    last.actions[a],
                ) == type_ && unit_pair(last.actions[a], last.node_id_str) == pair;
            assert(nodes[nodes.len() - 1].actions[a] == last.actions[a]);
        }
        if declares(nodes, type_, pair) {
            let (n, a) = choose|n: int, a: int|
                0 <= n < nodes.len() && 0 <= a < nodes[n].actions.len() && has_unit(
                    #[trigger] nodes[n].actions[a],
                ) && unit_type(nodes[n].actions[a]) == type_ && unit_pair(
                    nodes[n].actions[a],
                    nodes[n].node_id_str,
                ) == pair;
            if n < first.len() {
                assert(first[n].actions[a] == nodes[n].actions[a]);
            }
        }
    }
}

/// The actions of the entries that have a node and are delivered together with it, one entry after
/// the other.
pub open spec fn gathered(
    entries: Seq<EntryView>,
    node_id: NodeIdView,
    delivery: Delivery,
) -> Seq<ActionView>
    decreases entries.len(),
{
    if entries.len() == 0 {
        Seq::empty()
    } else {
        let before = gathered(entries.drop_last(), node_id, delivery);
        let last = entries.last();
        if last.node_ref == NodeRefView::Known(node_id) && come_together(last.delivery, delivery) {
            before + last.actions
        } else {
            before
        }
    }
}

/// A node publishes what its entries publish, in their order.
pub proof fn law_nodes_publish_what_their_entries_do(entries: Seq<EntryView>, k: int)
    requires
        0 <= k < grouped(entries).len(),
    ensures
        grouped(entries)[k].actions == gathered(
            entries,
            grouped(entries)[k].node_id,
            grouped(entries)[k].delivery,
        ),
    decreases entries.len(),
{
    let first = entries.drop_last();
    let before = grouped(first);
    let after = grouped(entries);
    let last = entries.last();
    law_a_node_occurs_once_per_delivery_mode(entries);
    law_a_node_occurs_once_per_delivery_mode(first);
    let node = after[k];
    if k < before.len() {
        law_nodes_publish_what_their_entries_do(first, k);
    }
    if let NodeRefView::Known(node_id) = last.node_ref {
        lemma_joinable(before, node_id, last.delivery, 0);
        let at = joinable(before, node_id, last.delivery, 0);
        if k < before.len() {
            if k == at {
                assert(come_together(last.delivery, node.delivery));
            } else if node.node_id == node_id && come_together(last.delivery, node.delivery) {
                assert(shares(before[k], node_id, last.delivery));
                if at < before.len() {
                    if at < k {
                        assert(!shares(before[k], before[at].node_id, before[at].delivery));
                    } else {
                        assert(!shares(before[at], before[k].node_id, before[k].delivery));
                    }
                }
            }
        } else {
            lemma_nothing_gathered(first, node_id, last.delivery);
            assert(Seq::<ActionView>::empty() + last.actions =~= last.actions);
        }
    }
}

proof fn lemma_nothing_gathered(entries: Seq<EntryView>, node_id: NodeIdView, delivery: Delivery)
    requires
        forall|k: int|
            0 <= k < grouped(entries).len() ==> !shares(
                #[trigger] grouped(entries)[k],
                node_id,
                delivery,
            ),
    ensures
        gathered(entries, node_id, delivery) == Seq::<ActionView>::empty(),
    decreases entries.len(),
{
    if entries.len() > 0 {
        let first = entries.drop_last();
        let before = grouped(first);
        let after = grouped(entries);
        let last = entries.last();
        if let NodeRefView::Known(id) = last.node_ref {
            lemma_joinable(before, id, last.delivery, 0);
            let at = joinable(before, id, last.delivery, 0);
            if id == node_id && come_together(last.delivery, delivery) {
                assert(shares(after[at], node_id, delivery));
            }
        }
        assert forall|k: int| 0 <= k < before.len() implies !shares(
            #[trigger] before[k],
            node_id,
            delivery,
        ) by {
            assert(!shares(after[k], node_id, delivery));
        }
        lemma_nothing_gathered(first, node_id, delivery);
    }
}

/// A plan is made exactly when the root of the device type can be read, and is that of the device
/// type: under its id, with its name, its root, and what becomes of all its entries.
pub proof fn law_plans_are_those_of_their_device_type(
    device_type_id: &str,
    device_type: DeviceType,
    table: NamespaceTable,
    r: Result<Plan, MappingError>,
)
    requires
        call_ensures(plan, (device_type_id, &device_type, &table), r),
    ensures
        r is Ok <==> device_type.referenced_root_node_id is None || parsed_node_id(
            table@,
            device_type.referenced_root_node_id->Some_0@,
        ) is Ok,
        r matches Ok(plan) ==> {
            &&& plan.device_type_id@ == device_type_id@
            &&& plan.device_type_name@ == device_type.name@
            &&& root_of(device_type, table@) == Ok::<NodeIdView, MappingErrorView>(
                plan.root_node_id.deep_view(),
            )
            &&& plan.entries.deep_view() == planned_entries(
                device_type,
                table@,
                device_type.mappings@.len(),
            )
            &&& problems_view(plan.problems@) == planned_problems(
                device_type,
                table@,
                device_type.mappings@.len(),
            )
        },
{
}

/// The units that are handed out hold every unit of a measurement that has a type, under its type,
/// for its series.
pub proof fn law_units_are_handed_out(
    mapping: ResolvedMapping,
    r: TextMap<Vec<(String, String)>>,
    n: int,
    a: int,
)
    requires
        call_ensures(ResolvedMapping::measurement_units, (&mapping,), r),
        0 <= n < mapping.nodes@.len(),
        0 <= a < mapping.nodes@[n].actions@.len(),
        has_unit(mapping.nodes@[n].actions@[a].deep_view()),
    ensures
        ({
            let action = mapping.nodes@[n].actions@[a].deep_view();
            &&& r@.contains_key(unit_type(action))
            &&& r@[unit_type(action)].deep_view().contains(
                unit_pair(action, mapping.nodes@[n].node_id_str@),
            )
        }),
{
    let nodes = mapping.deep_view().nodes;
    let action = mapping.nodes@[n].actions@[a].deep_view();
    let type_ = unit_type(action);
    let pair = unit_pair(action, mapping.nodes@[n].node_id_str@);
    assert(nodes[n].actions[a] == action);
    assert(nodes[n].node_id_str == mapping.nodes@[n].node_id_str@);
    law_every_unit_is_declared(nodes, type_, pair);
    assert(declares(nodes, type_, pair));
    assert(units_at(units_of(nodes), type_).contains(pair));
}

/// Each node that is read is in the group of its rate and age, and no node is in a group of
/// another.
pub proof fn law_nodes_are_read_at_their_rate(
    mapping: ResolvedMapping,
    r: Vec<(ReadSchedule, Vec<&ResolvedNode>)>,
    g: int,
    n: int,
)
    requires
        call_ensures(ResolvedMapping::read_groups, (&mapping,), r),
        0 <= g < r@.len(),
        0 <= n < mapping.nodes@.len(),
    ensures
        referenced(r@[g].1@).contains(mapping.nodes@[n]) <==> mapping.nodes@[n].delivery == (
        Delivery::CyclicRead { rate_ms: r@[g].0.rate_ms, max_age: r@[g].0.max_age_ms }),
        mapping.nodes@[n].delivery is CyclicRead ==> exists|h: int|
            0 <= h < r@.len() && referenced((#[trigger] r@[h]).1@).contains(mapping.nodes@[n]),
{
    law_read_groups_hold_the_nodes_of_their_schedule(mapping.nodes@, r@, g, n);
}

} // verus!
