//! The two mapping sources, reduced to one internal type.
//!
//! Both produce [`LoadedDeviceType`]; nothing downstream knows which source a device
//! type came from. Pushed files win on conflict, because a file on the device is a
//! deliberate local override of whatever inventory says.
use crate::model::{DeviceType, ManagedObject};
use crate::seqs::{lemma_filter_from, lemma_filter_nothing, lemma_filter_take};
use crate::text::{self, decimal, lemma_text_lt_irreflexive, lemma_text_lt_transitive, text_lt};
use crate::text_map::{
    lemma_finite_sets_have_an_order, lemma_zipped_at, ordered_keys, strictly_increasing, zipped,
    TextMap,
};
use std::sync::Arc;
use vstd::prelude::*;

verus! {

/// Where a device type was loaded from.
#[derive(Debug, Clone, Copy, PartialEq, Eq, Structural)]
pub enum Origin {
    /// Fetched from Cumulocity inventory through the thin-edge proxy.
    Pull,
    /// Read from a mapping file delivered by thin-edge configuration management.
    Push,
}

#[derive(Debug)]
pub struct LoadedDeviceType {
    pub id: String,
    pub origin: Origin,
    /// Cheap change marker: inventory `lastUpdated` for a pulled type, file size and
    /// modification time for a pushed one. Comparing these is how a reload is detected
    /// without comparing whole models.
    pub fingerprint: String,
    pub device_type: Arc<DeviceType>,
}

/// The `Clone` of `std::sync::Arc`: another handle on the same value.
#[verifier::external_body]
pub(crate) fn share(device_type: &Arc<DeviceType>) -> (r: Arc<DeviceType>)
    ensures
        r == *device_type,
{
    device_type.clone()
}

impl Clone for LoadedDeviceType {
    fn clone(&self) -> (r: Self)
        ensures
            r == *self,
    {
        LoadedDeviceType {
            id: self.id.clone(),
            origin: self.origin,
            fingerprint: self.fingerprint.clone(),
            device_type: share(&self.device_type),
        }
    }
}

/// A copy of a list of device types.
pub fn copy_loaded(loaded: &Vec<LoadedDeviceType>) -> (r: Vec<LoadedDeviceType>)
    ensures
        r@ == loaded@,
{
    let mut out: Vec<LoadedDeviceType> = Vec::new();
    let mut i: usize = 0;
    while i < loaded.len()
        invariant
            i <= loaded@.len(),
            out@ == loaded@.take(i as int),
        decreases loaded@.len() - i,
    {
        out.push(loaded[i].clone());
        proof {
            assert(loaded@.take(i + 1) =~= loaded@.take(i as int).push(loaded@[i as int]));
        }
        i = i + 1;
    }
    proof {
        assert(loaded@.take(i as int) =~= loaded@);
    }
    out
}

/// Take a managed object fetched from inventory and keep it only if it carries a device
/// type.
pub fn from_managed_object(mo: ManagedObject) -> (r: Option<LoadedDeviceType>)
    ensures
        r is Some == mo.device_type is Some,
        r matches Some(l) ==> {
            &&& l.id == mo.id
            &&& l.origin == Origin::Pull
            &&& l.fingerprint@ == (match mo.last_updated {
                Some(t) => t@,
                None => Seq::empty(),
            })
            &&& Some(*l.device_type) == mo.device_type
        },
{
    match mo.device_type {
        Some(device_type) => Some(
            LoadedDeviceType {
                id: mo.id,
                origin: Origin::Pull,
                fingerprint: match mo.last_updated {
                    Some(t) => t,
                    None => String::new(),
                },
                device_type: Arc::new(device_type),
            },
        ),
        None => None,
    }
}

/// What is known of a file besides its contents: its length, and when it was modified
/// in milliseconds since the Unix epoch.
#[derive(Debug, Clone, Copy)]
pub struct FileStamp {
    pub len: u64,
    pub modified_ms: Option<u128>,
}

/// The change marker of a file: length and modification time.
pub open spec fn stamp_text(stamp: Option<FileStamp>) -> Seq<char> {
    match stamp {
        Some(s) => decimal(s.len as nat) + ":"@ + decimal(
            match s.modified_ms {
                Some(ms) => ms as nat,
                None => 0,
            },
        ),
        None => Seq::empty(),
    }
}

/// The id of a device type that does not bring one: the name of its file.
pub open spec fn fallback_id(stem: Option<Seq<char>>) -> Seq<char> {
    match stem {
        Some(stem) => stem,
        None => "unnamed"@,
    }
}

/// The device type that a mapping file holds.
///
/// A file holds either a whole managed object as exported from Cumulocity, or just the
/// device type fragment: `managed_object` and `fragment` are the file read as the one
/// and as the other, where that is possible. Accepting both means that a mapping
/// authored in the OPC UA UI can be pushed to a device verbatim.
pub fn from_file(
    managed_object: Option<ManagedObject>,
    fragment: Option<DeviceType>,
    stamp: Option<FileStamp>,
    stem: Option<&str>,
) -> (r: Option<LoadedDeviceType>)
    ensures
        r is Some == ((managed_object matches Some(mo) && mo.device_type is Some)
            || fragment is Some),
        r matches Some(l) ==> {
            &&& l.origin == Origin::Push
            &&& l.fingerprint@ == stamp_text(stamp)
            &&& if managed_object matches Some(mo) && mo.device_type is Some {
                &&& l.id@ == (if managed_object->Some_0.id@.len() == 0 {
                    fallback_id(stem.deep_view())
                } else {
                    managed_object->Some_0.id@
                })
                &&& Some(*l.device_type) == managed_object->Some_0.device_type
            } else {
                &&& l.id@ == fallback_id(stem.deep_view())
                &&& Some(*l.device_type) == fragment
            }
        },
{
    let fingerprint: String = match stamp {
        Some(s) => {
            let modified: u128 = match s.modified_ms {
                Some(ms) => ms,
                None => 0,
            };
            let mut out: String = text::decimal_text(s.len as u128);
            out.append(":");
            let modified_text: String = text::decimal_text(modified);
            out.append(modified_text.as_str());
            out
        },
        None => String::new(),
    };
    let fallback: String = match stem {
        Some(stem) => stem.to_owned(),
        None => "unnamed".to_owned(),
    };
    if let Some(mo) = managed_object {
        if let Some(device_type) = mo.device_type {
            let id: String = if text::is_empty(mo.id.as_str()) {
                fallback
            } else {
                mo.id
            };
            return Some(
                LoadedDeviceType {
                    id,
                    origin: Origin::Push,
                    fingerprint,
                    device_type: Arc::new(device_type),
                },
            );
        }
    }
    match fragment {
        Some(device_type) => Some(
            LoadedDeviceType {
                id: fallback,
                origin: Origin::Push,
                fingerprint,
                device_type: Arc::new(device_type),
            },
        ),
        None => None,
    }
}

// Order ----------------------------------------------------------------------------

/// The position behind the first `count` elements, less those at their end whose id
/// comes after `id`.
pub open spec fn slot(sorted: Seq<LoadedDeviceType>, id: Seq<char>, count: int) -> int
    decreases count,
{
    if 0 < count <= sorted.len() && text_lt(id, sorted[count - 1].id@) {
        slot(sorted, id, count - 1)
    } else {
        count
    }
}

/// The device types by id, those with equal ids in the order in which they stood.
pub open spec fn sorted_by_id(loaded: Seq<LoadedDeviceType>) -> Seq<LoadedDeviceType>
    decreases loaded.len(),
{
    if loaded.len() == 0 {
        Seq::empty()
    } else {
        let before = sorted_by_id(loaded.drop_last());
        let x = loaded.last();
        before.insert(slot(before, x.id@, before.len() as int), x)
    }
}

proof fn lemma_slot_bounds(sorted: Seq<LoadedDeviceType>, id: Seq<char>, count: int)
    requires
        0 <= count <= sorted.len(),
    ensures
        0 <= slot(sorted, id, count) <= count,
        forall|i: int|
            slot(sorted, id, count) <= i < count ==> text_lt(id, (#[trigger] sorted[i]).id@),
        slot(sorted, id, count) > 0 ==> !text_lt(id, sorted[slot(sorted, id, count) - 1].id@),
    decreases count,
{
    if 0 < count && text_lt(id, sorted[count - 1].id@) {
        lemma_slot_bounds(sorted, id, count - 1);
    }
}

/// Orders device types by id.
pub fn sort_by_id(loaded: Vec<LoadedDeviceType>) -> (r: Vec<LoadedDeviceType>)
    ensures
        r@ == sorted_by_id(loaded@),
{
    let mut out: Vec<LoadedDeviceType> = Vec::new();
    let ghost all = loaded@;
    let mut rest: Vec<LoadedDeviceType> = loaded;
    let ghost mut done: int = 0;
    proof {
        assert(all.skip(0) =~= all);
        assert(out@ =~= sorted_by_id(all.take(0)));
    }
    while rest.len() > 0
        invariant
            0 <= done <= all.len(),
            rest@ == all.skip(done),
            rest@.len() == all.len() - done,
            out@ == sorted_by_id(all.take(done)),
        ensures
            done == all.len(),
            out@ == sorted_by_id(all.take(done)),
        decreases rest@.len(),
    {
        let x: LoadedDeviceType = rest.remove(0);
        proof {
            assert(x == all[done]);
            assert(rest@ =~= all.skip(done + 1));
            assert(all.take(done + 1).drop_last() =~= all.take(done));
            assert(all.take(done + 1).last() == x);
            done = done + 1;
        }
        let mut at: usize = out.len();
        while at > 0 && text::less(x.id.as_str(), out[at - 1].id.as_str())
            invariant
                at <= out@.len(),
                slot(out@, x.id@, at as int) == slot(out@, x.id@, out@.len() as int),
            decreases at,
        {
            at = at - 1;
        }
        out.insert(at, x);
    }
    proof {
        assert(all.take(done) =~= all);
    }
    out
}

// Revisions ------------------------------------------------------------------------

/// Every loaded device type's change marker, keyed by id.
pub type Revision = TextMap<(Origin, String)>;

/// What a revision is.
pub open spec fn revision_view(m: Map<Seq<char>, (Origin, String)>) -> Map<
    Seq<char>,
    (Origin, Seq<char>),
> {
    m.map_values(|v: (Origin, String)| (v.0, v.1@))
}

/// The change markers of device types by id; the last one counts where an id occurs
/// twice.
pub open spec fn markers(loaded: Seq<LoadedDeviceType>) -> Map<Seq<char>, (Origin, Seq<char>)>
    decreases loaded.len(),
{
    if loaded.len() == 0 {
        Map::empty()
    } else {
        let l = loaded.last();
        markers(loaded.drop_last()).insert(l.id@, (l.origin, l.fingerprint@))
    }
}

/// Change marker for a whole set, used to decide whether a reload is needed.
pub fn revision(loaded: &[LoadedDeviceType]) -> (r: Revision)
    ensures
        revision_view(r@) == markers(loaded@),
{
    let mut out: Revision = TextMap::new();
    let mut i: usize = 0;
    proof {
        assert(revision_view(out@) =~= markers(loaded@.take(0)));
    }
    while i < loaded.len()
        invariant
            i <= loaded@.len(),
            revision_view(out@) == markers(loaded@.take(i as int)),
        decreases loaded@.len() - i,
    {
        let l: &LoadedDeviceType = &loaded[i];
        let ghost before = out@;
        out.insert(l.id.clone(), (l.origin, l.fingerprint.clone()));
        proof {
            assert(loaded@.take(i + 1).drop_last() =~= loaded@.take(i as int));
            assert(loaded@.take(i + 1).last() == *l);
            assert(revision_view(out@) =~= revision_view(before).insert(
                l.id@,
                (l.origin, l.fingerprint@),
            ));
        }
        i = i + 1;
    }
    proof {
        assert(loaded@.take(i as int) =~= loaded@);
    }
    out
}

/// What changed between two revisions, so a reload can say which device type caused it.
///
/// Without this the only signal is "something changed", which is impossible to attribute
/// when a device type is edited in Cumulocity and a mapping file is pushed at about the
/// same time — or when an edit lands on a device type that a pushed file shadows and
/// therefore has no effect.
#[derive(Debug, PartialEq, Eq)]
pub struct RevisionDiff {
    pub added: Vec<String>,
    pub removed: Vec<String>,
    /// Ids whose fingerprint moved, or whose winning source changed.
    pub changed: Vec<String>,
}

/// What a revision is: the origin and fingerprint of each device type.
pub type Markers = Map<Seq<char>, (Origin, Seq<char>)>;

/// The ids that only the later revision has, in order.
pub open spec fn added_ids(before: Markers, after: Markers) -> Seq<Seq<char>> {
    absent_from(ordered_keys(after.dom()), before)
}

/// The ids that only the earlier revision has, in order.
pub open spec fn removed_ids(before: Markers, after: Markers) -> Seq<Seq<char>> {
    absent_from(ordered_keys(before.dom()), after)
}

/// The ids that both revisions have with different markers, in order.
pub open spec fn changed_ids(before: Markers, after: Markers) -> Seq<Seq<char>> {
    differing(ordered_keys(after.dom()), before, after)
}

/// Those of `keys` that the other revision does not have.
pub open spec fn absent_from(
    keys: Seq<Seq<char>>,
    other: Map<Seq<char>, (Origin, Seq<char>)>,
) -> Seq<Seq<char>> {
    keys.filter(|k: Seq<char>| !other.contains_key(k))
}

/// Those of `keys` that both revisions have, with different markers.
pub open spec fn differing(
    keys: Seq<Seq<char>>,
    before: Map<Seq<char>, (Origin, Seq<char>)>,
    after: Map<Seq<char>, (Origin, Seq<char>)>,
) -> Seq<Seq<char>> {
    keys.filter(|k: Seq<char>| before.contains_key(k) && before[k] != after[k])
}

impl RevisionDiff {
    pub fn between(before: &Revision, after: &Revision) -> (r: Self)
        ensures
            r.added.deep_view() == added_ids(revision_view(before@), revision_view(after@)),
            r.changed.deep_view() == changed_ids(revision_view(before@), revision_view(after@)),
            r.removed.deep_view() == removed_ids(revision_view(before@), revision_view(after@)),
            (r.added@.len() == 0 && r.removed@.len() == 0 && r.changed@.len() == 0)
                <==> revision_view(before@) == revision_view(after@),
    {
        let mut added: Vec<String> = Vec::new();
        let mut changed: Vec<String> = Vec::new();
        let mut removed: Vec<String> = Vec::new();
        let ghost old_view = revision_view(before@);
        let ghost new_view = revision_view(after@);
        let ghost is_new = |k: Seq<char>| !old_view.contains_key(k);
        let ghost moved = |k: Seq<char>| old_view.contains_key(k) && old_view[k] != new_view[k];
        let ghost is_gone = |k: Seq<char>| !new_view.contains_key(k);
        let ghost keys = after.key_seq();
        let n: usize = after.len();
        proof {
            assert(new_view.dom() =~= after@.dom());
            assert(old_view.dom() =~= before@.dom());
        }
        let mut i: usize = 0;
        proof {
            lemma_filter_nothing(keys, is_new);
            lemma_filter_nothing(keys, moved);
            assert(added.deep_view() =~= Seq::empty());
            assert(changed.deep_view() =~= Seq::empty());
        }
        while i < n
            invariant
                i <= n == keys.len(),
                keys == after.key_seq(),
                strictly_increasing(keys),
                old_view == revision_view(before@),
                new_view == revision_view(after@),
                is_new == (|k: Seq<char>| !old_view.contains_key(k)),
                moved == (|k: Seq<char>|
                    old_view.contains_key(k) && old_view[k] != new_view[k]),
                added.deep_view() == keys.take(i as int).filter(is_new),
                changed.deep_view() == keys.take(i as int).filter(moved),
            decreases n - i,
        {
            let id: &String = after.key_at(i);
            let marker: &(Origin, String) = after.value_at(i);
            let ghost added_before = added.deep_view();
            let ghost changed_before = changed.deep_view();
            proof {
                lemma_filter_take(keys, i as int, is_new);
                lemma_filter_take(keys, i as int, moved);
                assert(new_view[id@] == (marker.0, marker.1@));
            }
            match before.get(id.as_str()) {
                None => {
                    added.push(id.clone());
                    proof {
                        assert(added.deep_view() =~= added_before.push(id@));
                    }
                },
                Some(previous) => {
                    proof {
                        assert(old_view[id@] == (previous.0, previous.1@));
                    }
                    if previous.0 != marker.0 || !text::same(
                        previous.1.as_str(),
                        marker.1.as_str(),
                    ) {
                        changed.push(id.clone());
                        proof {
                            assert(changed.deep_view() =~= changed_before.push(id@));
                        }
                    }
                },
            }
            i = i + 1;
        }
        proof {
            assert(keys.take(i as int) =~= keys);
        }
        let ghost old_keys = before.key_seq();
        let m: usize = before.len();
        let mut j: usize = 0;
        proof {
            lemma_filter_nothing(old_keys, is_gone);
            assert(removed.deep_view() =~= Seq::empty());
        }
        while j < m
            invariant
                j <= m == old_keys.len(),
                old_keys == before.key_seq(),
                new_view == revision_view(after@),
                is_gone == (|k: Seq<char>| !new_view.contains_key(k)),
                removed.deep_view() == old_keys.take(j as int).filter(is_gone),
            decreases m - j,
        {
            let id: &String = before.key_at(j);
            let ghost removed_before = removed.deep_view();
            proof {
                lemma_filter_take(old_keys, j as int, is_gone);
            }
            if !after.contains(id.as_str()) {
                removed.push(id.clone());
                proof {
                    assert(removed.deep_view() =~= removed_before.push(id@));
                }
            }
            j = j + 1;
        }
        proof {
            assert(old_keys.take(j as int) =~= old_keys);
        }
        proof {
            law_no_difference_means_equal(*before, *after);
            assert(added.deep_view().len() == added@.len());
            assert(removed.deep_view().len() == removed@.len());
            assert(changed.deep_view().len() == changed@.len());
        }
        RevisionDiff { added, removed, changed }
    }

    pub fn is_empty(&self) -> (r: bool)
        ensures
            r == (self.added@.len() == 0 && self.removed@.len() == 0 && self.changed@.len() == 0),
    {
        self.added.len() == 0 && self.removed.len() == 0 && self.changed.len() == 0
    }
}

// Merging --------------------------------------------------------------------------

/// A pushed device type of the given id is among `merged`.
pub open spec fn is_pushed(merged: Seq<LoadedDeviceType>, id: Seq<char>) -> bool {
    exists|i: int|
        0 <= i < merged.len() && (#[trigger] merged[i]).id@ == id && merged[i].origin
            == Origin::Push
}

/// The ids of the device types that a pushed one shadows.
pub open spec fn shadowed_ids(
    pulled: Seq<LoadedDeviceType>,
    merged: Seq<LoadedDeviceType>,
) -> Seq<Seq<char>> {
    pulled.map_values(|l: LoadedDeviceType| l.id@).filter(|id: Seq<char>| is_pushed(merged, id))
}

/// Ids that were fetched from Cumulocity but discarded because a pushed file wins.
///
/// An edit made in the OPC UA user interface to one of these has no effect on the
/// device, which is worth saying out loud rather than leaving as silence.
pub fn shadowed(pulled: &[LoadedDeviceType], merged: &[LoadedDeviceType]) -> (r: Vec<String>)
    ensures
        r.deep_view() == shadowed_ids(pulled@, merged@),
{
    let mut out: Vec<String> = Vec::new();
    let ghost ids = pulled@.map_values(|l: LoadedDeviceType| l.id@);
    let ghost f = |id: Seq<char>| is_pushed(merged@, id);
    let mut i: usize = 0;
    proof {
        lemma_filter_nothing(ids, f);
        assert(out.deep_view() =~= Seq::empty());
    }
    while i < pulled.len()
        invariant
            i <= pulled@.len(),
            ids == pulled@.map_values(|l: LoadedDeviceType| l.id@),
            f == (|id: Seq<char>| is_pushed(merged@, id)),
            out.deep_view() == ids.take(i as int).filter(f),
        decreases pulled@.len() - i,
    {
        let ghost before = out.deep_view();
        proof {
            lemma_filter_take(ids, i as int, f);
        }
        if has_pushed(merged, pulled[i].id.as_str()) {
            out.push(pulled[i].id.clone());
            proof {
                assert(out.deep_view() =~= before.push(pulled@[i as int].id@));
            }
        }
        i = i + 1;
    }
    proof {
        assert(ids.take(i as int) =~= ids);
    }
    out
}

fn has_pushed(merged: &[LoadedDeviceType], id: &str) -> (r: bool)
    ensures
        r == is_pushed(merged@, id@),
{
    let mut i: usize = 0;
    while i < merged.len()
        invariant
            i <= merged@.len(),
            forall|j: int|
                0 <= j < i ==> !((#[trigger] merged@[j]).id@ == id@ && merged@[j].origin
                    == Origin::Push),
        decreases merged@.len() - i,
    {
        if merged[i].origin == Origin::Push && text::same(merged[i].id.as_str(), id) {
            return true;
        }
        i = i + 1;
    }
    false
}

/// Device types by id, `loaded` put over what is there; the last one counts where an id
/// occurs twice.
pub open spec fn put_by_id(
    by_id: Map<Seq<char>, LoadedDeviceType>,
    loaded: Seq<LoadedDeviceType>,
) -> Map<Seq<char>, LoadedDeviceType>
    decreases loaded.len(),
{
    if loaded.len() == 0 {
        by_id
    } else {
        put_by_id(by_id, loaded.drop_last()).insert(loaded.last().id@, loaded.last())
    }
}

pub open spec fn ids_of(loaded: Seq<LoadedDeviceType>) -> Seq<Seq<char>> {
    loaded.map_values(|l: LoadedDeviceType| l.id@)
}

/// The device types of both sources by id.
pub open spec fn merged_by_id(
    pulled: Seq<LoadedDeviceType>,
    pushed: Seq<LoadedDeviceType>,
) -> Map<Seq<char>, LoadedDeviceType> {
    put_by_id(put_by_id(Map::empty(), pulled), pushed)
}

/// Puts device types into a map by their ids.
fn put_all(by_id: &mut TextMap<LoadedDeviceType>, loaded: Vec<LoadedDeviceType>)
    requires
        forall|k: Seq<char>| #[trigger] old(by_id)@.contains_key(k) ==> old(by_id)@[k].id@ == k,
    ensures
        final(by_id)@ == put_by_id(old(by_id)@, loaded@),
        forall|k: Seq<char>| #[trigger]
            final(by_id)@.contains_key(k) ==> final(by_id)@[k].id@ == k,
{
    let ghost start = by_id@;
    let ghost all = loaded@;
    let mut rest: Vec<LoadedDeviceType> = loaded;
    let ghost mut done: int = 0;
    proof {
        assert(all.skip(0) =~= all);
        assert(all.take(0) =~= Seq::empty());
    }
    while rest.len() > 0
        invariant
            0 <= done <= all.len(),
            rest@ == all.skip(done),
            rest@.len() == all.len() - done,
            by_id@ == put_by_id(start, all.take(done)),
            forall|k: Seq<char>| #[trigger] by_id@.contains_key(k) ==> by_id@[k].id@ == k,
        ensures
            done == all.len(),
            by_id@ == put_by_id(start, all.take(done)),
            forall|k: Seq<char>| #[trigger] by_id@.contains_key(k) ==> by_id@[k].id@ == k,
        decreases rest@.len(),
    {
        let l: LoadedDeviceType = rest.remove(0);
        proof {
            assert(l == all[done]);
            assert(rest@ =~= all.skip(done + 1));
            assert(all.take(done + 1).drop_last() =~= all.take(done));
            assert(all.take(done + 1).last() == l);
            done = done + 1;
        }
        by_id.insert(l.id.clone(), l);
    }
    proof {
        assert(all.take(done) =~= all);
    }
}

/// Merge both sources into one set keyed by device type id, pushed files winning.
pub fn merge(pulled: Vec<LoadedDeviceType>, pushed: Vec<LoadedDeviceType>) -> (r: Vec<
    LoadedDeviceType,
>)
    ensures
        strictly_increasing(ids_of(r@)),
        zipped(ids_of(r@), r@) == merged_by_id(pulled@, pushed@),
{
    let mut by_id: TextMap<LoadedDeviceType> = TextMap::new();
    put_all(&mut by_id, pulled);
    put_all(&mut by_id, pushed);
    let ghost keys = by_id.key_seq();
    let ghost map = by_id@;
    let ghost values = by_id.value_seq();
    let out: Vec<LoadedDeviceType> = by_id.into_values();
    proof {
        assert forall|i: int| 0 <= i < keys.len() implies keys[i] == #[trigger] ids_of(out@)[i] by {
            lemma_zipped_at(keys, values, i);
        }
        assert(ids_of(out@) =~= keys);
    }
    out
}

// Laws -----------------------------------------------------------------------------

/// What stands at an id after `loaded` was put over it.
proof fn lemma_put_by_id(
    by_id: Map<Seq<char>, LoadedDeviceType>,
    loaded: Seq<LoadedDeviceType>,
    id: Seq<char>,
)
    ensures
        ids_of(loaded).contains(id) ==> put_by_id(by_id, loaded).contains_key(id)
            && loaded.contains(put_by_id(by_id, loaded)[id]) && put_by_id(by_id, loaded)[id].id@
            == id,
        !ids_of(loaded).contains(id) ==> put_by_id(by_id, loaded).contains_key(id)
            == by_id.contains_key(id) && (by_id.contains_key(id) ==> put_by_id(by_id, loaded)[id]
            == by_id[id]),
    decreases loaded.len(),
{
    if loaded.len() > 0 {
        let before = loaded.drop_last();
        lemma_put_by_id(by_id, before, id);
        assert(loaded[loaded.len() - 1] == loaded.last());
        assert(ids_of(loaded)[loaded.len() - 1] == loaded.last().id@);
        if loaded.last().id@ != id {
            if ids_of(before).contains(id) {
                let i = ids_of(before).index_of(id);
                assert(ids_of(loaded)[i] == id);
                let x = put_by_id(by_id, before)[id];
                let j = before.index_of(x);
                assert(loaded[j] == x);
            } else if ids_of(loaded).contains(id) {
                let i = ids_of(loaded).index_of(id);
                assert(ids_of(before)[i] == id);
            }
        }
    }
}

/// Pushed files win: an id that a pushed file has is served by a pushed file.
pub proof fn law_pushed_wins(
    pulled: Seq<LoadedDeviceType>,
    pushed: Seq<LoadedDeviceType>,
    id: Seq<char>,
)
    requires
        ids_of(pushed).contains(id),
    ensures
        merged_by_id(pulled, pushed).contains_key(id),
        pushed.contains(merged_by_id(pulled, pushed)[id]),
        merged_by_id(pulled, pushed)[id].id@ == id,
{
    lemma_put_by_id(put_by_id(Map::empty(), pulled), pushed, id);
}

/// An id that no pushed file has is served as if there were no pushed files.
pub proof fn law_pulled_is_kept_unless_pushed(
    pulled: Seq<LoadedDeviceType>,
    pushed: Seq<LoadedDeviceType>,
    id: Seq<char>,
)
    requires
        !ids_of(pushed).contains(id),
    ensures
        merged_by_id(pulled, pushed).contains_key(id) == ids_of(pulled).contains(id),
        ids_of(pulled).contains(id) ==> pulled.contains(merged_by_id(pulled, pushed)[id])
            && merged_by_id(pulled, pushed)[id] == merged_by_id(pulled, Seq::empty())[id],
{
    let first = put_by_id(Map::empty(), pulled);
    lemma_put_by_id(Map::empty(), pulled, id);
    lemma_put_by_id(first, pushed, id);
}

/// An id is shadowed exactly when it was pulled and a pushed file has it, where the two
/// sources are what they say.
pub proof fn law_shadowed_is_pulled_and_pushed(
    pulled: Seq<LoadedDeviceType>,
    pushed: Seq<LoadedDeviceType>,
    merged: Seq<LoadedDeviceType>,
    id: Seq<char>,
)
    requires
        forall|i: int| 0 <= i < pulled.len() ==> (#[trigger] pulled[i]).origin == Origin::Pull,
        forall|i: int| 0 <= i < pushed.len() ==> (#[trigger] pushed[i]).origin == Origin::Push,
        strictly_increasing(ids_of(merged)),
        zipped(ids_of(merged), merged) == merged_by_id(pulled, pushed),
    ensures
        shadowed_ids(pulled, merged).contains(id) <==> ids_of(pulled).contains(id) && ids_of(
            pushed,
        ).contains(id),
{
    let f = |k: Seq<char>| is_pushed(merged, k);
    let by_id = merged_by_id(pulled, pushed);
    let ids = ids_of(pulled);
    assert(is_pushed(merged, id) <==> ids_of(pushed).contains(id)) by {
        if ids_of(pushed).contains(id) {
            law_pushed_wins(pulled, pushed, id);
            assert(zipped(ids_of(merged), merged).contains_key(id));
            let k = ids_of(merged).index_of(id);
            assert(ids_of(merged)[k] == id);
            lemma_zipped_at(ids_of(merged), merged, k);
            let j = pushed.index_of(by_id[id]);
            assert(pushed[j].origin == Origin::Push);
            assert(merged[k].origin == Origin::Push);
        } else if is_pushed(merged, id) {
            let k = choose|k: int|
                0 <= k < merged.len() && (#[trigger] merged[k]).id@ == id && merged[k].origin
                    == Origin::Push;
            assert(ids_of(merged)[k] == id);
            lemma_zipped_at(ids_of(merged), merged, k);
            law_pulled_is_kept_unless_pushed(pulled, pushed, id);
            assert(by_id.contains_key(id));
            let j = pulled.index_of(by_id[id]);
            assert(pulled[j].origin == Origin::Pull);
        }
    }
    broadcast use vstd::seq_lib::group_filter_ensures;

    let shadow = ids.filter(f);
    assert(shadowed_ids(pulled, merged) == shadow);
    if shadow.contains(id) {
        let k = shadow.index_of(id);
        assert(f(shadow[k]));
        lemma_filter_from(ids, f, k);
    }
    if ids.contains(id) && f(id) {
        let k = ids.index_of(id);
        assert(shadow.contains(ids[k]));
    }
}

/// There is nothing to report between two revisions exactly when they are the same.
pub proof fn law_no_difference_means_equal(before: Revision, after: Revision)
    requires
        strictly_increasing(before.key_seq()),
        strictly_increasing(after.key_seq()),
    ensures
        (added_ids(revision_view(before@), revision_view(after@)).len() == 0 && removed_ids(
            revision_view(before@),
            revision_view(after@),
        ).len() == 0 && changed_ids(revision_view(before@), revision_view(after@)).len() == 0)
            <==> revision_view(before@) == revision_view(after@),
{
    let old_view = revision_view(before@);
    let new_view = revision_view(after@);
    before.lemma_entries();
    after.lemma_entries();
    assert(old_view.dom() =~= before@.dom());
    assert(new_view.dom() =~= after@.dom());
    let keys = after.key_seq();
    let old_keys = before.key_seq();
    let is_new = |k: Seq<char>| !old_view.contains_key(k);
    let moved = |k: Seq<char>| old_view.contains_key(k) && old_view[k] != new_view[k];
    let is_gone = |k: Seq<char>| !new_view.contains_key(k);
    broadcast use vstd::seq_lib::group_filter_ensures;

    if old_view == new_view {
        if keys.filter(is_new).len() > 0 {
            lemma_filter_from(keys, is_new, 0);
            assert(after@.contains_key(keys.filter(is_new)[0]));
        }
        if old_keys.filter(is_gone).len() > 0 {
            lemma_filter_from(old_keys, is_gone, 0);
            assert(before@.contains_key(old_keys.filter(is_gone)[0]));
        }
        if keys.filter(moved).len() > 0 {
            lemma_filter_from(keys, moved, 0);
        }
    } else if keys.filter(is_new).len() == 0 && old_keys.filter(is_gone).len() == 0 && keys.filter(
        moved,
    ).len() == 0 {
        assert forall|k: Seq<char>| #[trigger] new_view.contains_key(k) implies old_view.contains_key(
            k,
        ) && old_view[k] == new_view[k] by {
            let i = keys.index_of(k);
            assert(keys[i] == k);
            if !old_view.contains_key(k) {
                assert(is_new(keys[i]));
                assert(keys.filter(is_new).contains(keys[i]));
            } else if old_view[k] != new_view[k] {
                assert(moved(keys[i]));
                assert(keys.filter(moved).contains(keys[i]));
            }
        }
        assert forall|k: Seq<char>| #[trigger] old_view.contains_key(k) implies new_view.contains_key(
            k,
        ) by {
            let i = old_keys.index_of(k);
            assert(old_keys[i] == k);
            if !new_view.contains_key(k) {
                assert(is_gone(old_keys[i]));
                assert(old_keys.filter(is_gone).contains(old_keys[i]));
            }
        }
        assert(old_view =~= new_view);
    }
}

/// Sorting puts the ids in order.
pub proof fn law_sorted_ids_are_in_order(loaded: Seq<LoadedDeviceType>)
    ensures
        forall|i: int, j: int|
            0 <= i < j < sorted_by_id(loaded).len() ==> !text_lt(
                (#[trigger] sorted_by_id(loaded)[j]).id@,
                (#[trigger] sorted_by_id(loaded)[i]).id@,
            ),
    decreases loaded.len(),
{
    if loaded.len() > 0 {
        let before = sorted_by_id(loaded.drop_last());
        let x = loaded.last();
        law_sorted_ids_are_in_order(loaded.drop_last());
        let at = slot(before, x.id@, before.len() as int);
        lemma_slot_bounds(before, x.id@, before.len() as int);
        let after = sorted_by_id(loaded);
        assert forall|i: int, j: int| 0 <= i < j < after.len() implies !text_lt(
            (#[trigger] after[j]).id@,
            (#[trigger] after[i]).id@,
        ) by {
            let i1 = if i < at {
                i
            } else {
                i - 1
            };
            let j1 = if j < at {
                j
            } else {
                j - 1
            };
            if i != at {
                assert(after[i] == before[i1]);
            }
            if j != at {
                assert(after[j] == before[j1]);
            }
            if i == at {
                // Everything behind the new element comes after it.
                if text_lt(before[j1].id@, x.id@) {
                    lemma_text_lt_transitive(x.id@, before[j1].id@, x.id@);
                    lemma_text_lt_irreflexive(x.id@);
                }
            } else if j == at {
                // Nothing before the new element comes after it.
                if text_lt(x.id@, before[i].id@) && i < at - 1 {
                    lemma_less_or_equal(x.id@, before[i].id@, before[at - 1].id@);
                }
            }
        }
    }
}

/// What comes before `b` comes before everything that is not before `b`.
proof fn lemma_less_or_equal(a: Seq<char>, b: Seq<char>, c: Seq<char>)
    requires
        text_lt(a, b),
        !text_lt(c, b),
    ensures
        text_lt(a, c),
{
    text::lemma_text_lt_total(b, c);
    if b != c {
        lemma_text_lt_transitive(a, b, c);
    }
}

/// A device type from inventory is pulled under the id of its object, and changes when the object
/// was updated; an object without one gives none.
pub proof fn law_inventory_objects_are_pulled(mo: ManagedObject, r: Option<LoadedDeviceType>)
    requires
        call_ensures(from_managed_object, (mo,), r),
    ensures
        r is Some <==> mo.device_type is Some,
        r matches Some(l) ==> {
            &&& l.id@ == mo.id@
            &&& l.origin == Origin::Pull
            &&& *l.device_type == mo.device_type->Some_0
            &&& mo.last_updated matches Some(t) ==> l.fingerprint@ == t@
            &&& mo.last_updated is None ==> l.fingerprint@.len() == 0
        },
{
}

/// A device type from a file is pushed, whether the file holds a whole object or a device type
/// alone; its id is that of the object, or the name of the file where there is none.
pub proof fn law_mapping_files_are_pushed(
    managed_object: Option<ManagedObject>,
    fragment: Option<DeviceType>,
    stamp: Option<FileStamp>,
    stem: Option<&str>,
    r: Option<LoadedDeviceType>,
)
    requires
        call_ensures(from_file, (managed_object, fragment, stamp, stem), r),
    ensures
        r is None <==> fragment is None && !(managed_object matches Some(mo)
            && mo.device_type is Some),
        r matches Some(l) ==> l.origin == Origin::Push && l.fingerprint@ == stamp_text(stamp),
        managed_object matches Some(mo) && mo.device_type is Some ==> {
            &&& r matches Some(l)
            &&& *l.device_type == managed_object->Some_0.device_type->Some_0
            &&& managed_object->Some_0.id@.len() > 0 ==> l.id@ == managed_object->Some_0.id@
            &&& managed_object->Some_0.id@.len() == 0 && stem is Some ==> l.id@ == stem->Some_0@
        },
        !(managed_object matches Some(mo) && mo.device_type is Some) && fragment is Some ==> {
            &&& r matches Some(l)
            &&& *l.device_type == fragment->Some_0
            &&& stem is Some ==> l.id@ == stem->Some_0@
        },
{
}

proof fn lemma_stamp_parts(a: Seq<char>, x: Seq<char>, b: Seq<char>, y: Seq<char>)
    requires
        text::all_digits(a),
        text::all_digits(b),
        a + ":"@ + x == b + ":"@ + y,
    ensures
        a == b,
        x == y,
{
    reveal_strlit(":");
    let s = a + ":"@ + x;
    assert(s[a.len() as int] == ':');
    assert((b + ":"@ + y)[b.len() as int] == ':');
    if a.len() < b.len() {
        assert(s[a.len() as int] == b[a.len() as int]);
        assert(text::is_digit(b[a.len() as int]));
    }
    if b.len() < a.len() {
        assert(s[b.len() as int] == a[b.len() as int]);
        assert(text::is_digit(a[b.len() as int]));
    }
    assert(s.take(a.len() as int) =~= a);
    assert(s.take(a.len() as int) =~= b);
    assert(s.skip(a.len() as int + 1) =~= x);
    assert(s.skip(a.len() as int + 1) =~= y);
}

/// A file is seen to have changed when its length or its time of modification has.
pub proof fn law_changed_files_have_another_marker(a: FileStamp, b: FileStamp)
    requires
        a.modified_ms is Some,
        b.modified_ms is Some,
    ensures
        stamp_text(Some(a)) == stamp_text(Some(b)) <==> a.len == b.len && a.modified_ms
            == b.modified_ms,
        stamp_text(Some(a)).len() > 0,
        stamp_text(None).len() == 0,
{
    text::lemma_decimal(a.len as nat);
    text::lemma_decimal(b.len as nat);
    text::lemma_decimal(a.modified_ms->Some_0 as nat);
    text::lemma_decimal(b.modified_ms->Some_0 as nat);
    if stamp_text(Some(a)) == stamp_text(Some(b)) {
        lemma_stamp_parts(
            decimal(a.len as nat),
            decimal(a.modified_ms->Some_0 as nat),
            decimal(b.len as nat),
            decimal(b.modified_ms->Some_0 as nat),
        );
    }
}

/// A revision holds of each id where it comes from and when it has changed; the last one counts
/// where an id occurs twice, and an id that does not occur is not there.
pub proof fn law_revisions_hold_every_id(loaded: Seq<LoadedDeviceType>, i: int, id: Seq<char>)
    ensures
        0 <= i < loaded.len() && (forall|j: int|
            i < j < loaded.len() ==> (#[trigger] loaded[j]).id@ != loaded[i].id@) ==> {
            &&& markers(loaded).contains_key(loaded[i].id@)
            &&& markers(loaded)[loaded[i].id@].0 == loaded[i].origin
            &&& markers(loaded)[loaded[i].id@].1 == loaded[i].fingerprint@
        },
        (forall|j: int| 0 <= j < loaded.len() ==> (#[trigger] loaded[j]).id@ != id) ==> !markers(
            loaded,
        ).contains_key(id),
    decreases loaded.len(),
{
    if loaded.len() > 0 {
        let first = loaded.drop_last();
        law_revisions_hold_every_id(first, i, id);
        if 0 <= i < first.len() && (forall|j: int|
            i < j < loaded.len() ==> (#[trigger] loaded[j]).id@ != loaded[i].id@) {
            assert(loaded[loaded.len() - 1].id@ != loaded[i].id@);
            assert forall|j: int| i < j < first.len() implies (#[trigger] first[j]).id@
                != first[i].id@ by {
                assert(loaded[j].id@ != loaded[i].id@);
            }
        }
        if forall|j: int| 0 <= j < loaded.len() ==> (#[trigger] loaded[j]).id@ != id {
            assert(loaded[loaded.len() - 1].id@ != id);
            assert forall|j: int| 0 <= j < first.len() implies (#[trigger] first[j]).id@ != id by {
                assert(loaded[j].id@ != id);
            }
        }
    }
}

/// Between two revisions an id is added, removed or changed as it is in one, in the other, or in
/// both with different markers.
pub proof fn law_differences_are_told_by_id(before: Markers, after: Markers, id: Seq<char>)
    requires
        before.dom().finite(),
        after.dom().finite(),
    ensures
        added_ids(before, after).contains(id) <==> after.contains_key(id) && !before.contains_key(
            id,
        ),
        removed_ids(before, after).contains(id) <==> before.contains_key(id)
            && !after.contains_key(id),
        changed_ids(before, after).contains(id) <==> before.contains_key(id)
            && after.contains_key(id) && before[id] != after[id],
{
    let old_keys = ordered_keys(before.dom());
    let new_keys = ordered_keys(after.dom());
    lemma_finite_sets_have_an_order(before.dom());
    lemma_finite_sets_have_an_order(after.dom());
    assert(old_keys.to_set().contains(id) == before.contains_key(id));
    assert(new_keys.to_set().contains(id) == after.contains_key(id));
    lemma_filter_contains(new_keys, |k: Seq<char>| !before.contains_key(k), id);
    lemma_filter_contains(old_keys, |k: Seq<char>| !after.contains_key(k), id);
    lemma_filter_contains(
        new_keys,
        |k: Seq<char>| before.contains_key(k) && before[k] != after[k],
        id,
    );
}

proof fn lemma_filter_contains(keys: Seq<Seq<char>>, f: spec_fn(Seq<char>) -> bool, id: Seq<char>)
    ensures
        keys.filter(f).contains(id) <==> keys.contains(id) && f(id),
{
    broadcast use vstd::seq_lib::group_filter_ensures;

    if keys.filter(f).contains(id) {
        lemma_filter_from(keys, f, keys.filter(f).index_of(id));
    }
    if keys.contains(id) && f(id) {
        let i = keys.index_of(id);
        assert(keys.filter(f).contains(keys[i]));
    }
}

/// Sorting loses and invents nothing.
pub proof fn law_sorting_keeps_every_device_type(loaded: Seq<LoadedDeviceType>)
    ensures
        sorted_by_id(loaded).to_multiset() == loaded.to_multiset(),
        sorted_by_id(loaded).len() == loaded.len(),
    decreases loaded.len(),
{
    broadcast use vstd::seq_lib::group_to_multiset_ensures;

    if loaded.len() > 0 {
        let first = loaded.drop_last();
        let x = loaded.last();
        law_sorting_keeps_every_device_type(first);
        let before = sorted_by_id(first);
        lemma_slot_bounds(before, x.id@, before.len() as int);
        assert(loaded =~= first.push(x));
        let at = slot(before, x.id@, before.len() as int);
        assert(before.insert(at, x).to_multiset() =~= before.to_multiset().insert(x));
    } else {
        assert(sorted_by_id(loaded) =~= loaded);
    }
}

/// A pushed device type is used as it is, whatever was pulled under its id; where an id is pushed
/// twice the last one counts.
pub proof fn law_the_last_pushed_device_type_counts(
    pulled: Seq<LoadedDeviceType>,
    pushed: Seq<LoadedDeviceType>,
    i: int,
)
    requires
        0 <= i < pushed.len(),
        forall|j: int| i < j < pushed.len() ==> (#[trigger] pushed[j]).id@ != pushed[i].id@,
    ensures
        merged_by_id(pulled, pushed).contains_key(pushed[i].id@),
        merged_by_id(pulled, pushed)[pushed[i].id@] == pushed[i],
{
    lemma_last_put_counts(put_by_id(Map::empty(), pulled), pushed, i);
}

proof fn lemma_last_put_counts(
    by_id: Map<Seq<char>, LoadedDeviceType>,
    loaded: Seq<LoadedDeviceType>,
    i: int,
)
    requires
        0 <= i < loaded.len(),
        forall|j: int| i < j < loaded.len() ==> (#[trigger] loaded[j]).id@ != loaded[i].id@,
    ensures
        put_by_id(by_id, loaded).contains_key(loaded[i].id@),
        put_by_id(by_id, loaded)[loaded[i].id@] == loaded[i],
    decreases loaded.len(),
{
    if i < loaded.len() - 1 {
        let first = loaded.drop_last();
        assert(loaded[loaded.len() - 1].id@ != loaded[i].id@);
        assert forall|j: int| i < j < first.len() implies (#[trigger] first[j]).id@
            != first[i].id@ by {
            assert(loaded[j].id@ != loaded[i].id@);
        }
        lemma_last_put_counts(by_id, first, i);
    }
}

/// A pulled device type whose id is not pushed is used as it is; where an id is pulled twice the
/// last one counts.
pub proof fn law_the_last_pulled_device_type_counts(
    pulled: Seq<LoadedDeviceType>,
    pushed: Seq<LoadedDeviceType>,
    i: int,
)
    requires
        0 <= i < pulled.len(),
        forall|j: int| i < j < pulled.len() ==> (#[trigger] pulled[j]).id@ != pulled[i].id@,
        forall|j: int| 0 <= j < pushed.len() ==> (#[trigger] pushed[j]).id@ != pulled[i].id@,
    ensures
        merged_by_id(pulled, pushed).contains_key(pulled[i].id@),
        merged_by_id(pulled, pushed)[pulled[i].id@] == pulled[i],
{
    lemma_last_put_counts(Map::empty(), pulled, i);
    let id = pulled[i].id@;
    if ids_of(pushed).contains(id) {
        let j = ids_of(pushed).index_of(id);
        assert(pushed[j].id@ == id);
    }
    lemma_put_by_id(put_by_id(Map::empty(), pulled), pushed, id);
}

} // verus!
