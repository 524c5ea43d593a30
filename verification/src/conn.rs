//! What is asked of an OPC UA server, and what is made of its answers.
use crate::clock::milliseconds;
use crate::model::{DataChangeTrigger, Deadband};
use crate::text::{self, decimal};
use crate::ua::{
    is_good, is_ua_range, parses_as_range, status_is_good, DataValue, Double, Identifier,
    IdentifierView, NodeId, NodeIdView, QualifiedName, QualifiedNameView,
};
use std::time::Duration;
use vstd::prelude::*;

verus! {

/// Reference type used to walk a browse path: `HierarchicalReferences`, subtypes included.
const HIERARCHICAL_REFERENCES: u32 = 33;

/// `remaining_path_index` value a server reports for a fully resolved browse path.
const PATH_FULLY_RESOLVED: u32 = 0xffff_ffff;

/// Status of a monitored item that the server's answer does not mention.
pub const BAD_UNEXPECTED_ERROR: u32 = 0x8001_0000;

/// Seconds between two "notifications dropped" warnings.
const DROP_REPORT_INTERVAL_SECS: u64 = 30;

// Endpoints --------------------------------------------------------------------------

/// Whether messages are secured.
#[derive(Debug, Clone, Copy, PartialEq, Eq, Structural)]
pub enum SecurityMode {
    Unsecured,
    SignAndEncrypt,
}

/// How to reach and authenticate against one OPC UA server.
#[derive(Debug)]
pub struct ServerEndpoint {
    /// Server id as used in device types (`referencedServerId`).
    pub id: String,
    pub url: String,
    /// `None`, `Basic256Sha256`, … — the OPC UA security policy short name.
    pub security_policy: String,
    pub message_security_mode: SecurityMode,
    pub user: Option<Credentials>,
}

#[derive(Debug)]
pub struct Credentials {
    pub user: String,
    pub password: String,
}

#[derive(Debug, PartialEq, Eq)]
pub enum ConnError {
    Config(String),
    Request(String),
    NoNamespaceArray,
    /// After how many seconds.
    ConnectTimeout(u64),
    InvalidRange(String),
}

impl ConnError {
    /// The error in words.
    pub fn message(&self) -> (r: String)
        ensures
            r@ == (match self {
                ConnError::Config(s) => "invalid OPC UA client configuration: "@ + s@,
                ConnError::Request(s) => "OPC UA request failed: "@ + s@,
                ConnError::NoNamespaceArray => "server did not return a namespace array"@,
                ConnError::ConnectTimeout(secs) => "timed out after "@ + decimal(*secs as nat)
                    + "s waiting for the OPC UA session to activate"@,
                ConnError::InvalidRange(s) => "invalid numeric range `"@ + s@ + "`"@,
            }),
    {
        match self {
            ConnError::Config(s) => text::concat(
                "invalid OPC UA client configuration: ",
                s.as_str(),
            ),
            ConnError::Request(s) => text::concat("OPC UA request failed: ", s.as_str()),
            ConnError::NoNamespaceArray => "server did not return a namespace array".to_owned(),
            ConnError::ConnectTimeout(secs) => {
                let digits: String = text::decimal_text(*secs as u128);
                let mut out: String = text::concat("timed out after ", digits.as_str());
                out.append("s waiting for the OPC UA session to activate");
                out
            },
            ConnError::InvalidRange(s) => {
                let mut out: String = text::concat("invalid numeric range `", s.as_str());
                out.append("`");
                out
            },
        }
    }
}

// The namespace array ----------------------------------------------------------------

/// An element of the namespace array: a text, or anything else by its debug notation.
#[derive(Debug)]
pub enum NamespaceEntry {
    Uri(String),
    Other(String),
}

pub open spec fn entry_text(entry: NamespaceEntry) -> Seq<char> {
    match entry {
        NamespaceEntry::Uri(s) => s@,
        NamespaceEntry::Other(s) => s@,
    }
}

/// The namespace URIs that a server has answered with. `array` is `None` where it answered
/// with anything but an array.
pub fn namespace_array(array: Option<Vec<NamespaceEntry>>) -> (r: Result<Vec<String>, ConnError>)
    ensures
        r is Ok == array is Some,
        r matches Ok(uris) ==> uris.deep_view() == array->Some_0@.map_values(
            |e: NamespaceEntry| entry_text(e),
        ),
        r matches Err(e) ==> e == ConnError::NoNamespaceArray,
{
    let entries: Vec<NamespaceEntry> = match array {
        Some(entries) => entries,
        None => {
            return Err(ConnError::NoNamespaceArray);
        },
    };
    let mut out: Vec<String> = Vec::new();
    let mut i: usize = 0;
    while i < entries.len()
        invariant
            i <= entries@.len(),
            out@.len() == i,
            forall|j: int| 0 <= j < i ==> #[trigger] out@[j]@ == entry_text(entries@[j]),
        decreases entries@.len() - i,
    {
        let uri: String = match &entries[i] {
            NamespaceEntry::Uri(s) => s.clone(),
            NamespaceEntry::Other(s) => s.clone(),
        };
        out.push(uri);
        i = i + 1;
    }
    proof {
        assert(out.deep_view() =~= entries@.map_values(|e: NamespaceEntry| entry_text(e)));
    }
    Ok(out)
}

// Browse paths -----------------------------------------------------------------------

/// One step of a browse path request.
#[derive(Debug)]
pub struct PathElement {
    pub reference_type_id: NodeId,
    pub is_inverse: bool,
    pub include_subtypes: bool,
    pub target_name: QualifiedName,
}

/// A step to the child of the given name.
pub open spec fn is_step(element: PathElement, name: QualifiedNameView) -> bool {
    &&& element.reference_type_id.deep_view() == (NodeIdView {
        namespace: 0,
        identifier: IdentifierView::Numeric(33),
    })
    &&& !element.is_inverse
    &&& element.include_subtypes
    &&& element.target_name.deep_view() == name
}

/// The steps of a browse path: down the hierarchy, name by name.
pub fn relative_path(path: &Vec<QualifiedName>) -> (r: Vec<PathElement>)
    ensures
        r@.len() == path@.len(),
        forall|i: int| 0 <= i < r@.len() ==> is_step(#[trigger] r@[i], path@[i].deep_view()),
{
    let mut out: Vec<PathElement> = Vec::new();
    let mut i: usize = 0;
    while i < path.len()
        invariant
            i <= path@.len(),
            out@.len() == i,
            forall|j: int| 0 <= j < i ==> is_step(#[trigger] out@[j], path@[j].deep_view()),
        decreases path@.len() - i,
    {
        out.push(
            PathElement {
                reference_type_id: NodeId::new(0, Identifier::Numeric(HIERARCHICAL_REFERENCES)),
                is_inverse: false,
                include_subtypes: true,
                target_name: path[i].clone(),
            },
        );
        i = i + 1;
    }
    out
}

/// A node that a browse path leads to.
#[derive(Debug)]
pub struct BrowseTarget {
    pub node_id: NodeId,
    /// Empty where the server expressed the namespace by its index.
    pub namespace_uri: String,
    pub remaining_path_index: u32,
}

/// What a server says about one browse path.
#[derive(Debug)]
pub struct BrowseResult {
    pub status: u32,
    pub targets: Vec<BrowseTarget>,
}

/// The position of the first target at or behind `from` that the whole path leads to; the
/// number of targets where there is none.
pub open spec fn resolved_target(targets: Seq<BrowseTarget>, from: int) -> int
    decreases targets.len() - from,
{
    if from < 0 || from >= targets.len() {
        targets.len() as int
    } else if targets[from].remaining_path_index == 0xffff_ffff {
        from
    } else {
        resolved_target(targets, from + 1)
    }
}

/// The node that a browse path is bound to: the first that the whole path leads to, where the
/// answer is good and that node's namespace is given by its index.
pub open spec fn bound_to(result: BrowseResult) -> Option<NodeIdView> {
    let i = resolved_target(result.targets@, 0);
    if is_good(result.status) && 0 <= i < result.targets@.len()
        && result.targets@[i].namespace_uri@.len() == 0 {
        Some(result.targets@[i].node_id.deep_view())
    } else {
        None
    }
}

/// The node that each of `count` browse paths is bound to, by position; a path that the answer
/// does not reach is bound to none.
pub open spec fn all_bound_to(count: nat, results: Seq<BrowseResult>) -> Seq<Option<NodeIdView>> {
    Seq::new(
        count,
        |i: int|
            if i < results.len() {
                bound_to(results[i])
            } else {
                None
            },
    )
}

/// A target node id is only usable when the server expressed it by namespace index.
fn to_node_id(target: &BrowseTarget) -> (r: Option<NodeId>)
    ensures
        r.deep_view() == if target.namespace_uri@.len() == 0 {
            Some(target.node_id.deep_view())
        } else {
            None
        },
{
    if text::is_empty(target.namespace_uri.as_str()) {
        Some(target.node_id.clone())
    } else {
        None
    }
}

/// The node that one browse path is bound to.
pub fn bind_target(result: &BrowseResult) -> (r: Option<NodeId>)
    ensures
        r.deep_view() == bound_to(*result),
{
    if !status_is_good(result.status) {
        return None;
    }
    let targets: &Vec<BrowseTarget> = &result.targets;
    let mut i: usize = 0;
    while i < targets.len() && targets[i].remaining_path_index != PATH_FULLY_RESOLVED
        invariant
            i <= targets@.len(),
            resolved_target(targets@, i as int) == resolved_target(targets@, 0),
        decreases targets@.len() - i,
    {
        i = i + 1;
    }
    if i < targets.len() {
        to_node_id(&targets[i])
    } else {
        None
    }
}

/// The nodes that browse paths are bound to, by position.
///
/// A path that the server could not resolve comes back as `None` rather than failing the
/// whole batch.
pub fn translate_browse_paths(count: usize, results: &Vec<BrowseResult>) -> (r: Vec<Option<NodeId>>)
    ensures
        r.deep_view() == all_bound_to(count as nat, results@),
{
    let mut out: Vec<Option<NodeId>> = Vec::new();
    let mut i: usize = 0;
    while i < count
        invariant
            i <= count,
            out@.len() == i,
            forall|j: int|
                0 <= j < i ==> #[trigger] out@[j].deep_view() == all_bound_to(
                    count as nat,
                    results@,
                )[j],
        decreases count - i,
    {
        let bound: Option<NodeId> = if i < results.len() {
            bind_target(&results[i])
        } else {
            None
        };
        out.push(bound);
        i = i + 1;
    }
    proof {
        assert(out.deep_view() =~= all_bound_to(count as nat, results@));
    }
    out
}

/// How many targets the whole path leads to.
pub open spec fn resolved_count(targets: Seq<BrowseTarget>) -> nat
    decreases targets.len(),
{
    if targets.len() == 0 {
        0
    } else {
        resolved_count(targets.drop_last()) + if targets.last().remaining_path_index
            == 0xffff_ffff {
            1nat
        } else {
            0nat
        }
    }
}

/// Whether a good answer leaves a choice: a browse path may lead to several nodes, of which
/// one is bound. That usually means that the path is less specific than its author intended,
/// so it is worth saying out loud.
pub fn is_ambiguous(result: &BrowseResult) -> (r: bool)
    ensures
        r == (is_good(result.status) && resolved_count(result.targets@) > 1),
{
    let targets: &Vec<BrowseTarget> = &result.targets;
    let mut found: usize = 0;
    let mut i: usize = 0;
    proof {
        assert(targets@.take(0) =~= Seq::empty());
    }
    while i < targets.len()
        invariant
            i <= targets@.len(),
            found <= i,
            found == resolved_count(targets@.take(i as int)),
        decreases targets@.len() - i,
    {
        proof {
            assert(targets@.take(i + 1).drop_last() =~= targets@.take(i as int));
        }
        if targets[i].remaining_path_index == PATH_FULLY_RESOLVED {
            found = found + 1;
        }
        i = i + 1;
    }
    proof {
        assert(targets@.take(i as int) =~= targets@);
    }
    status_is_good(result.status) && found > 1
}

// Subscriptions ----------------------------------------------------------------------

/// Subscription-level parameters, shared by every monitored item on a server.
///
/// One subscription per server; only the monitored items differ per device type.
#[derive(Debug, Clone, Copy)]
pub struct SubscriptionParams {
    pub publishing_interval: Duration,
    pub lifetime_count: u32,
    pub max_keep_alive_count: u32,
    pub max_notifications_per_publish: u32,
    pub priority: u8,
}

impl Default for SubscriptionParams {
    fn default() -> (r: Self)
        ensures
            r.publishing_interval == milliseconds(100),
            r.lifetime_count == 600,
            r.max_keep_alive_count == 200,
            r.max_notifications_per_publish == 500,
            r.priority == 0,
    {
        SubscriptionParams {
            publishing_interval: Duration::from_millis(100),
            lifetime_count: 600,
            max_keep_alive_count: 200,
            max_notifications_per_publish: 500,
            priority: 0,
        }
    }
}

/// One monitored item to create.
#[derive(Debug)]
pub struct MonitoredItemSpec {
    pub node_id: NodeId,
    /// Requested sampling interval in milliseconds; `None` lets the server pick.
    pub sampling_interval_ms: Option<Double>,
    pub queue_size: u32,
    pub discard_oldest: bool,
    pub data_change_trigger: DataChangeTrigger,
    /// Deadband filter. `None` subscribes without one.
    pub deadband: Option<(Deadband, Double)>,
    /// OPC UA numeric range, for monitoring a slice of an array node.
    pub index_range: Option<String>,
}

pub struct ItemView {
    pub node_id: NodeIdView,
    pub sampling_interval_ms: Option<Double>,
    pub queue_size: u32,
    pub discard_oldest: bool,
    pub data_change_trigger: DataChangeTrigger,
    pub deadband: Option<(Deadband, Double)>,
    pub index_range: Option<Seq<char>>,
}

impl DeepView for MonitoredItemSpec {
    type V = ItemView;

    open spec fn deep_view(&self) -> ItemView {
        ItemView {
            node_id: self.node_id.deep_view(),
            sampling_interval_ms: self.sampling_interval_ms,
            queue_size: self.queue_size,
            discard_oldest: self.discard_oldest,
            data_change_trigger: self.data_change_trigger,
            deadband: self.deadband,
            index_range: self.index_range.deep_view(),
        }
    }
}

/// A filter on data changes. The deadband type is 0 for none, 1 for an absolute and 2 for a
/// relative deadband.
#[derive(Debug, Clone, Copy, PartialEq, Eq, Structural)]
pub struct DataChangeFilter {
    pub trigger: DataChangeTrigger,
    pub deadband_type: u32,
    pub deadband_value: Double,
}

/// The filter of an item, where it needs one.
pub open spec fn filter_of(item: ItemView) -> Option<DataChangeFilter> {
    match item.deadband {
        Some((kind, value)) => Some(
            DataChangeFilter {
                trigger: item.data_change_trigger,
                deadband_type: match kind {
                    Deadband::Absolute => 1,
                    Deadband::Percent => 2,
                },
                deadband_value: value,
            },
        ),
        None => if item.data_change_trigger == DataChangeTrigger::StatusValue {
            None
        } else {
            Some(
                DataChangeFilter {
                    trigger: item.data_change_trigger,
                    deadband_type: 0,
                    deadband_value: Double { bits: 0 },
                },
            )
        },
    }
}

/// The item's filter, or `None` when no filter is needed.
///
/// A `StatusValue` trigger with no deadband is the OPC UA default, so sending no filter at all
/// keeps the request smaller and avoids servers that reject filters they consider redundant.
pub fn data_change_filter(item: &MonitoredItemSpec) -> (r: Option<DataChangeFilter>)
    ensures
        r == filter_of(item.deep_view()),
{
    match item.deadband {
        Some((kind, value)) => {
            let deadband_type: u32 = match kind {
                Deadband::Absolute => 1,
                Deadband::Percent => 2,
            };
            Some(
                DataChangeFilter {
                    trigger: item.data_change_trigger,
                    deadband_type,
                    deadband_value: value,
                },
            )
        },
        None => if item.data_change_trigger == DataChangeTrigger::StatusValue {
            None
        } else {
            Some(
                DataChangeFilter {
                    trigger: item.data_change_trigger,
                    deadband_type: 0,
                    deadband_value: Double { bits: 0 },
                },
            )
        },
    }
}

/// What is asked of a server for one monitored item.
#[derive(Debug)]
pub struct ItemRequest {
    pub node_id: NodeId,
    pub index_range: Option<String>,
    pub sampling_interval: Option<Double>,
    pub filter: Option<DataChangeFilter>,
    pub queue_size: u32,
    pub discard_oldest: bool,
}

pub struct ItemRequestView {
    pub node_id: NodeIdView,
    pub index_range: Option<Seq<char>>,
    pub sampling_interval: Option<Double>,
    pub filter: Option<DataChangeFilter>,
    pub queue_size: u32,
    pub discard_oldest: bool,
}

impl DeepView for ItemRequest {
    type V = ItemRequestView;

    open spec fn deep_view(&self) -> ItemRequestView {
        ItemRequestView {
            node_id: self.node_id.deep_view(),
            index_range: self.index_range.deep_view(),
            sampling_interval: self.sampling_interval,
            filter: self.filter,
            queue_size: self.queue_size,
            discard_oldest: self.discard_oldest,
        }
    }
}

/// The request for one item.
pub open spec fn request_of(item: ItemView) -> ItemRequestView {
    ItemRequestView {
        node_id: item.node_id,
        index_range: item.index_range,
        sampling_interval: item.sampling_interval_ms,
        filter: filter_of(item),
        queue_size: item.queue_size,
        discard_oldest: item.discard_oldest,
    }
}

/// The range of an item that cannot be asked for: it is none, or beyond what a request takes.
pub open spec fn bad_range(item: ItemView) -> bool {
    item.index_range matches Some(range) && !is_ua_range(range)
}

/// The requests for monitored items, by position; the first range that cannot be asked for is an
/// error.
pub fn item_requests(items: &Vec<MonitoredItemSpec>) -> (r: Result<Vec<ItemRequest>, ConnError>)
    ensures
        r is Ok == (forall|i: int| 0 <= i < items@.len() ==> !bad_range(#[trigger] items@[i].deep_view())),
        r matches Ok(requests) ==> requests.deep_view() == items.deep_view().map_values(
            |item: ItemView| request_of(item),
        ),
        r matches Err(e) ==> exists|i: int|
            #![trigger items@[i]]
            0 <= i < items@.len() && bad_range(items@[i].deep_view()) && (forall|j: int|
                0 <= j < i ==> !bad_range(#[trigger] items@[j].deep_view())) && e
                == ConnError::InvalidRange(items@[i].index_range->Some_0),
{
    let mut out: Vec<ItemRequest> = Vec::new();
    let mut i: usize = 0;
    while i < items.len()
        invariant
            i <= items@.len(),
            out@.len() == i,
            forall|j: int| 0 <= j < i ==> !bad_range(#[trigger] items@[j].deep_view()),
            forall|j: int|
                0 <= j < i ==> #[trigger] out@[j].deep_view() == request_of(items@[j].deep_view()),
        decreases items@.len() - i,
    {
        let item: &MonitoredItemSpec = &items[i];
        if let Some(range) = &item.index_range {
            if !parses_as_range(range.as_str()) {
                proof {
                    assert(bad_range(items@[i as int].deep_view()));
                }
                return Err(ConnError::InvalidRange(range.clone()));
            }
        }
        out.push(
            ItemRequest {
                node_id: item.node_id.clone(),
                index_range: text::copy_text_option(&item.index_range),
                sampling_interval: item.sampling_interval_ms,
                filter: data_change_filter(item),
                queue_size: item.queue_size,
                discard_oldest: item.discard_oldest,
            },
        );
        i = i + 1;
    }
    proof {
        assert(out.deep_view() =~= items.deep_view().map_values(
            |item: ItemView| request_of(item),
        ));
    }
    Ok(out)
}

/// What a server says about one monitored item.
#[derive(Debug, Clone, Copy)]
pub struct CreatedItem {
    pub status: u32,
    pub client_handle: u32,
}

/// What became of the item at a position: the handle that its notifications will carry, or the
/// status with which it was refused.
pub open spec fn item_outcome(created: Seq<CreatedItem>, i: int) -> Result<u32, u32> {
    if i < created.len() {
        if is_good(created[i].status) {
            Ok(created[i].client_handle)
        } else {
            Err(created[i].status)
        }
    } else {
        Err(BAD_UNEXPECTED_ERROR)
    }
}

/// What became of `count` monitored items, by position.
///
/// A created item yields the client handle its notifications will carry, and an item the
/// server refused yields its status code, so one bad node cannot cost the whole device type
/// its subscription.
pub fn create_monitored_items(count: usize, created: &Vec<CreatedItem>) -> (r: Vec<
    Result<u32, u32>,
>)
    ensures
        r@ == Seq::new(count as nat, |i: int| item_outcome(created@, i)),
{
    let mut out: Vec<Result<u32, u32>> = Vec::new();
    let mut i: usize = 0;
    while i < count
        invariant
            i <= count,
            out@.len() == i,
            forall|j: int| 0 <= j < i ==> #[trigger] out@[j] == item_outcome(created@, j),
        decreases count - i,
    {
        let outcome: Result<u32, u32> = if i < created.len() {
            if status_is_good(created[i].status) {
                Ok(created[i].client_handle)
            } else {
                Err(created[i].status)
            }
        } else {
            Err(BAD_UNEXPECTED_ERROR)
        };
        out.push(outcome);
        i = i + 1;
    }
    proof {
        assert(out@ =~= Seq::new(count as nat, |i: int| item_outcome(created@, i)));
    }
    out
}

/// A value delivered by a subscription.
#[derive(Debug)]
pub struct DataChange {
    /// Handle of the monitored item that produced this value.
    ///
    /// The handle, not the node id, identifies the item: several monitored items may watch the
    /// same node — one per device type that maps it — and each belongs to a different thin-edge
    /// device.
    pub client_handle: u32,
    pub node_id: NodeId,
    pub value: DataValue,
}

/// Notifications that were dropped because the publisher cannot keep up, since that was last
/// reported.
#[derive(Debug, Clone, Copy, PartialEq, Eq, Structural)]
pub struct DroppedNotifications {
    pub dropped: u64,
}

impl DroppedNotifications {
    pub fn new() -> (r: Self)
        ensures
            r.dropped == 0,
    {
        DroppedNotifications { dropped: 0 }
    }

    /// Counts one more, `secs_since_report` seconds after the last report. Returns the count to
    /// be reported, and starts over, when a report is due.
    pub fn record(&mut self, secs_since_report: u64) -> (r: Option<u64>)
        ensures
            ({
                let count = if old(self).dropped < u64::MAX {
                    (old(self).dropped + 1) as u64
                } else {
                    u64::MAX
                };
                if secs_since_report >= 30 {
                    r == Some(count) && final(self).dropped == 0
                } else {
                    r is None && final(self).dropped == count
                }
            }),
    {
        if self.dropped < u64::MAX {
            self.dropped = self.dropped + 1;
        }
        if secs_since_report >= DROP_REPORT_INTERVAL_SECS {
            let count: u64 = self.dropped;
            self.dropped = 0;
            Some(count)
        } else {
            None
        }
    }
}

// Laws -----------------------------------------------------------------------------

/// The request for an item says what the item asks for: its node, sampling interval, queue size,
/// discarding and range as they are; an absolute deadband as type 1 and one in percent as type 2,
/// with its value; and its trigger wherever there is a filter. There is none exactly where neither
/// a deadband nor a trigger other than the usual one is asked for.
pub proof fn law_requests_say_what_items_ask_for(item: ItemView)
    ensures
        request_of(item).node_id == item.node_id,
        request_of(item).sampling_interval == item.sampling_interval_ms,
        request_of(item).queue_size == item.queue_size,
        request_of(item).discard_oldest == item.discard_oldest,
        request_of(item).index_range == item.index_range,
        item.deadband matches Some((kind, value)) ==> {
            &&& request_of(item).filter matches Some(f)
            &&& f.deadband_value == value
            &&& kind == Deadband::Absolute ==> f.deadband_type == 1
            &&& kind == Deadband::Percent ==> f.deadband_type == 2
        },
        item.deadband is None ==> (request_of(item).filter matches Some(f) ==> f.deadband_type == 0),
        request_of(item).filter matches Some(f) ==> f.trigger == item.data_change_trigger,
        request_of(item).filter is None <==> item.deadband is None && item.data_change_trigger
            == DataChangeTrigger::StatusValue,
{
}

/// Whether the whole path leads to a target.
pub open spec fn is_reached(target: BrowseTarget) -> bool {
    target.remaining_path_index == u32::MAX
}

proof fn lemma_resolved_target(targets: Seq<BrowseTarget>, from: int)
    requires
        0 <= from <= targets.len(),
    ensures
        from <= resolved_target(targets, from) <= targets.len(),
        resolved_target(targets, from) < targets.len() ==> is_reached(
            targets[resolved_target(targets, from)],
        ),
        forall|i: int|
            from <= i < resolved_target(targets, from) ==> !is_reached(#[trigger] targets[i]),
    decreases targets.len() - from,
{
    if from < targets.len() && !is_reached(targets[from]) {
        lemma_resolved_target(targets, from + 1);
    }
}

/// A browse path is bound to the first target that the whole path leads to. It is bound to none
/// where there is no such target, where that target's namespace is given by a URI, and where the
/// answer is not good.
pub proof fn law_paths_are_bound_to_their_first_target(result: BrowseResult, i: int)
    requires
        0 <= i <= result.targets@.len(),
        forall|j: int| 0 <= j < i ==> !is_reached(#[trigger] result.targets@[j]),
        i < result.targets@.len() ==> is_reached(result.targets@[i]),
    ensures
        i < result.targets@.len() && result.status < 0x4000_0000
            && result.targets@[i].namespace_uri@.len() == 0 ==> bound_to(result) == Some(
            result.targets@[i].node_id.deep_view(),
        ),
        i == result.targets@.len() ==> bound_to(result) is None,
        i < result.targets@.len() && result.targets@[i].namespace_uri@.len() > 0 ==> bound_to(
            result,
        ) is None,
        result.status >= 0x4000_0000 ==> bound_to(result) is None,
{
    lemma_resolved_target(result.targets@, 0);
    let k = resolved_target(result.targets@, 0);
    if k < i {
        assert(!is_reached(result.targets@[k]));
    }
}

/// Each path gets what the answer at its own position says; one that the answer does not reach
/// gets none.
pub proof fn law_answers_belong_to_paths_by_position(
    count: nat,
    results: Seq<BrowseResult>,
    i: int,
)
    requires
        0 <= i < count,
    ensures
        all_bound_to(count, results).len() == count,
        i < results.len() ==> all_bound_to(count, results)[i] == bound_to(results[i]),
        i >= results.len() ==> all_bound_to(count, results)[i] is None,
{
}

proof fn lemma_resolved_count(targets: Seq<BrowseTarget>)
    ensures
        resolved_count(targets) > 0 <==> exists|i: int|
            0 <= i < targets.len() && is_reached(#[trigger] targets[i]),
        resolved_count(targets) > 1 <==> exists|i: int, j: int|
            0 <= i < j < targets.len() && is_reached(#[trigger] targets[i]) && is_reached(
                #[trigger] targets[j],
            ),
    decreases targets.len(),
{
    if targets.len() > 0 {
        let first = targets.drop_last();
        let l = targets.len() - 1;
        lemma_resolved_count(first);
        if resolved_count(first) > 0 {
            let i = choose|i: int| 0 <= i < first.len() && is_reached(#[trigger] first[i]);
            assert(targets[i] == first[i]);
            if is_reached(targets[l]) {
                assert(is_reached(targets[i]) && is_reached(targets[l]));
            }
        }
        if resolved_count(first) > 1 {
            let (i, j) = choose|i: int, j: int|
                0 <= i < j < first.len() && is_reached(#[trigger] first[i]) && is_reached(
                    #[trigger] first[j],
                );
            assert(targets[i] == first[i] && targets[j] == first[j]);
        }
        if exists|i: int| 0 <= i < targets.len() && is_reached(#[trigger] targets[i]) {
            let i = choose|i: int| 0 <= i < targets.len() && is_reached(#[trigger] targets[i]);
            if i < l {
                assert(first[i] == targets[i]);
            }
        }
        if exists|i: int, j: int|
            0 <= i < j < targets.len() && is_reached(#[trigger] targets[i]) && is_reached(
                #[trigger] targets[j],
            ) {
            let (i, j) = choose|i: int, j: int|
                0 <= i < j < targets.len() && is_reached(#[trigger] targets[i]) && is_reached(
                    #[trigger] targets[j],
                );
            assert(first[i] == targets[i]);
            if j < l {
                assert(first[j] == targets[j]);
            }
        }
        if is_reached(targets[l]) {
            assert(is_reached(targets[targets.len() - 1]));
        }
    }
}

/// A good answer is ambiguous exactly when the whole path leads to more than one target.
pub proof fn law_two_targets_are_ambiguous(result: BrowseResult, r: bool)
    requires
        call_ensures(is_ambiguous, (&result,), r),
    ensures
        r <==> result.status < 0x4000_0000 && exists|i: int, j: int|
            0 <= i < j < result.targets@.len() && is_reached(#[trigger] result.targets@[i])
                && is_reached(#[trigger] result.targets@[j]),
{
    lemma_resolved_count(result.targets@);
}

/// A path is followed name by name, from a node to its children: along hierarchical references
/// and their subtypes, never backwards.
pub proof fn law_paths_are_followed_name_by_name(
    path: Vec<QualifiedName>,
    r: Vec<PathElement>,
    i: int,
)
    requires
        call_ensures(relative_path, (&path,), r),
        0 <= i < path@.len(),
    ensures
        r@.len() == path@.len(),
        r@[i].target_name.namespace_index == path@[i].namespace_index,
        r@[i].target_name.name@ == path@[i].name@,
        !r@[i].is_inverse,
        r@[i].include_subtypes,
        r@[i].reference_type_id.namespace == 0,
        r@[i].reference_type_id.identifier.deep_view() == IdentifierView::Numeric(33),
{
    assert(is_step(r@[i], path@[i].deep_view()));
}

/// The namespace table is what the server answered with, entry by entry; without an array there is
/// none.
pub proof fn law_namespaces_are_those_of_the_server(
    array: Option<Vec<NamespaceEntry>>,
    r: Result<Vec<String>, ConnError>,
)
    requires
        call_ensures(namespace_array, (array,), r),
    ensures
        r is Err <==> array is None,
        r matches Ok(uris) ==> uris@.len() == array->Some_0@.len() && forall|i: int|
            0 <= i < uris@.len() ==> match array->Some_0@[i] {
                NamespaceEntry::Uri(s) => (#[trigger] uris@[i])@ == s@,
                NamespaceEntry::Other(s) => uris@[i]@ == s@,
            },
{
    if let Ok(uris) = r {
        let texts = array->Some_0@.map_values(|e: NamespaceEntry| entry_text(e));
        assert(uris.deep_view() == texts);
        assert forall|i: int| 0 <= i < uris@.len() implies match array->Some_0@[i] {
            NamespaceEntry::Uri(s) => (#[trigger] uris@[i])@ == s@,
            NamespaceEntry::Other(s) => uris@[i]@ == s@,
        } by {
            assert(uris.deep_view()[i] == uris@[i]@);
            assert(texts[i] == entry_text(array->Some_0@[i]));
        }
        assert(uris.deep_view().len() == uris@.len());
    }
}

/// An item that was created has the handle that the server gave it; one that was refused has its
/// status, and one that the answer does not reach an error of its own.
pub proof fn law_items_have_what_the_server_gave_them(created: Seq<CreatedItem>, i: int)
    requires
        0 <= i,
    ensures
        i < created.len() && created[i].status < 0x4000_0000 ==> item_outcome(created, i) == Ok::<
            u32,
            u32,
        >(created[i].client_handle),
        i < created.len() && created[i].status >= 0x4000_0000 ==> item_outcome(created, i) == Err::<
            u32,
            u32,
        >(created[i].status),
        i >= created.len() ==> item_outcome(created, i) is Err,
{
}

/// Every dropped notification is counted, and the count is reported after half a minute and then
/// starts over.
pub proof fn law_dropped_notifications_are_counted(
    d: &mut DroppedNotifications,
    secs_since_report: u64,
    r: Option<u64>,
)
    requires
        call_ensures(DroppedNotifications::record, (d, secs_since_report), r),
        old(d).dropped < u64::MAX,
    ensures
        secs_since_report < 30 ==> r is None && final(d).dropped == old(d).dropped + 1,
        secs_since_report >= 30 ==> r is Some && r->Some_0 == old(d).dropped + 1 && final(d).dropped
            == 0,
{
}

/// The requests of items are those of the items, one by one, where all their ranges can be asked
/// for; else the first range that cannot is reported.
pub proof fn law_items_are_requested_one_by_one(
    items: Vec<MonitoredItemSpec>,
    r: Result<Vec<ItemRequest>, ConnError>,
)
    requires
        call_ensures(item_requests, (&items,), r),
    ensures
        r is Ok <==> forall|i: int|
            0 <= i < items@.len() ==> (#[trigger] items@[i]).index_range is None || is_ua_range(
                items@[i].index_range->Some_0@,
            ),
        r matches Ok(requests) ==> requests@.len() == items@.len() && forall|i: int|
            0 <= i < items@.len() ==> (#[trigger] requests@[i]).deep_view() == request_of(
                items@[i].deep_view(),
            ),
        r matches Err(e) ==> exists|i: int|
            0 <= i < items@.len() && (#[trigger] items@[i]).index_range is Some && e
                == ConnError::InvalidRange(items@[i].index_range->Some_0),
{
    assert forall|i: int| 0 <= i < items@.len() implies (bad_range(
        (#[trigger] items@[i]).deep_view(),
    ) <==> items@[i].index_range is Some && !is_ua_range(items@[i].index_range->Some_0@)) by {}
    if let Ok(requests) = r {
        let expected = items.deep_view().map_values(|item: ItemView| request_of(item));
        assert(requests.deep_view() == expected);
        assert(requests.deep_view().len() == requests@.len());
        assert forall|i: int| 0 <= i < items@.len() implies (
        #[trigger] requests@[i]).deep_view() == request_of(items@[i].deep_view()) by {
            assert(requests.deep_view()[i] == expected[i]);
        }
    }
}

/// What a server answers is handed on by position, for paths and for items alike.
pub proof fn law_answers_are_handed_on_by_position(
    count: usize,
    results: Vec<BrowseResult>,
    nodes: Vec<Option<NodeId>>,
    created: Vec<CreatedItem>,
    items: Vec<Result<u32, u32>>,
    i: int,
)
    requires
        call_ensures(translate_browse_paths, (count, &results), nodes),
        call_ensures(create_monitored_items, (count, &created), items),
        0 <= i < count,
    ensures
        nodes@.len() == count,
        i < results@.len() ==> nodes@[i].deep_view() == bound_to(results@[i]),
        i >= results@.len() ==> nodes@[i] is None,
        items@.len() == count,
        items@[i] == item_outcome(created@, i),
{
    law_answers_belong_to_paths_by_position(count as nat, results@, i);
    assert(nodes.deep_view().len() == nodes@.len());
    assert(nodes.deep_view()[i] == nodes@[i].deep_view());
}

} // verus!
