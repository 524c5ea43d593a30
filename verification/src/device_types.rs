//! The device-type provider: both mapping sources, polled into one set.
//!
//! Nothing is written to disk. Everything here lives in memory and is rebuilt on restart, so a
//! cold start with no proxy comes up unmapped and simply waits — it never exits, and it never
//! stops OPC UA collection for the servers it can already reach.
use crate::clock::{doubled, next_backoff};
use crate::config::{at_least_one, one_or_more};
use crate::model::Statistics;
use crate::proxy::{transient, ProxyError};
use crate::seqs::{lemma_filter_nothing, lemma_filter_take};
use crate::source::{
    self, added_ids, changed_ids, ids_of, law_the_last_pulled_device_type_counts,
    law_the_last_pushed_device_type_counts, markers, merged_by_id, removed_ids, revision_view,
    shadowed_ids, LoadedDeviceType, Markers, Origin, Revision, RevisionDiff,
};
use crate::text;
use crate::text_map::{
    lemma_increasing_is_injective, lemma_zipped_at, strictly_increasing, zipped, TextMap,
};
use vstd::prelude::*;

verus! {

/// Inventory page size.
pub const PAGE_SIZE: u32 = 1000;

/// Upper bound on pages fetched per poll, so a misbehaving tenant cannot spin us forever.
pub const MAX_PAGES: u32 = 50;

/// The page is the last one, or a later one.
pub open spec fn is_last(page: u32, statistics: Option<Statistics>) -> bool {
    statistics matches Some(s) && s.total_pages matches Some(total) && page >= total
}

/// The page to fetch after `page`, which held `count` objects: none behind the last one or one that
/// is not full, and none behind the last that may be fetched.
pub fn next_page(page: u32, count: usize, statistics: Option<Statistics>) -> (r: Option<u32>)
    ensures
        r == (if is_last(page, statistics) || count < 1000 || page >= 50 {
            None
        } else {
            Some((page + 1) as u32)
        }),
{
    let last_page: bool = match statistics {
        Some(s) => match s.total_pages {
            Some(total) => page >= total,
            None => false,
        },
        None => false,
    };
    if last_page || count < PAGE_SIZE as usize || page >= MAX_PAGES {
        None
    } else {
        Some(page + 1)
    }
}

/// The state of the poll for device types.
#[derive(Debug)]
pub struct DeviceTypePoll {
    /// Device types already fetched survive a cloud outage: they are only replaced by a good
    /// fetch.
    pub pulled: Vec<LoadedDeviceType>,
    /// The change markers of what was handed on last.
    pub revision: Revision,
    /// Seconds to wait after the next failure.
    pub backoff: u64,
}

/// What follows a poll.
#[derive(Debug)]
pub struct AfterPoll {
    /// The device types to hand on, where they have changed.
    pub publish: Option<Vec<LoadedDeviceType>>,
    /// What has changed.
    pub diff: RevisionDiff,
    /// Which of the added and changed device types are served by a pushed mapping file, so that
    /// the version in Cumulocity is ignored. An edit in Cumulocity to one of these changes nothing
    /// on the device; saying so is the difference between "no effect" and "no idea".
    pub ignored: Vec<String>,
    /// Seconds to wait before the next poll.
    pub delay: u64,
}

/// The change marker of one device type.
pub open spec fn marker(l: LoadedDeviceType) -> (Origin, Seq<char>) {
    (l.origin, l.fingerprint@)
}

/// The change markers of device types by id.
pub open spec fn markers_of(by_id: Map<Seq<char>, LoadedDeviceType>) -> Markers {
    by_id.map_values(|l: LoadedDeviceType| marker(l))
}

proof fn lemma_markers_at(loaded: Seq<LoadedDeviceType>, i: int)
    requires
        strictly_increasing(ids_of(loaded)),
        0 <= i < loaded.len(),
    ensures
        markers(loaded).contains_key(loaded[i].id@),
        markers(loaded)[loaded[i].id@] == marker(loaded[i]),
    decreases loaded.len(),
{
    let before = loaded.drop_last();
    if i < before.len() {
        assert forall|a: int, b: int| 0 <= a < b < ids_of(before).len() implies text::text_lt(
            #[trigger] ids_of(before)[a],
            #[trigger] ids_of(before)[b],
        ) by {
            assert(ids_of(before)[a] == ids_of(loaded)[a]);
            assert(ids_of(before)[b] == ids_of(loaded)[b]);
        }
        lemma_markers_at(before, i);
        if loaded.last().id@ == loaded[i].id@ {
            assert(ids_of(loaded)[i] == ids_of(loaded)[loaded.len() - 1]);
            lemma_increasing_is_injective(ids_of(loaded), i, loaded.len() - 1);
        }
    }
}

proof fn lemma_markers_keys(loaded: Seq<LoadedDeviceType>, id: Seq<char>)
    requires
        markers(loaded).contains_key(id),
    ensures
        ids_of(loaded).contains(id),
    decreases loaded.len(),
{
    if loaded.len() > 0 {
        if loaded.last().id@ == id {
            assert(ids_of(loaded)[loaded.len() - 1] == id);
        } else {
            lemma_markers_keys(loaded.drop_last(), id);
            let i = ids_of(loaded.drop_last()).index_of(id);
            assert(ids_of(loaded)[i] == id);
        }
    }
}

/// The markers of device types in order of their ids are those of the map that they make.
proof fn lemma_markers(loaded: Seq<LoadedDeviceType>)
    requires
        strictly_increasing(ids_of(loaded)),
    ensures
        markers(loaded) == markers_of(zipped(ids_of(loaded), loaded)),
{
    let ids = ids_of(loaded);
    let by_id = zipped(ids, loaded);
    let a = markers(loaded);
    let b = markers_of(by_id);
    assert forall|k: Seq<char>| #[trigger] a.contains_key(k) == b.contains_key(k) by {
        if a.contains_key(k) {
            lemma_markers_keys(loaded, k);
        }
        if b.contains_key(k) {
            let i = ids.index_of(k);
            assert(ids[i] == k);
            lemma_markers_at(loaded, i);
        }
    }
    assert forall|k: Seq<char>| #[trigger] a.contains_key(k) implies a[k] == b[k] by {
        lemma_markers_keys(loaded, k);
        let i = ids.index_of(k);
        assert(ids[i] == k);
        lemma_markers_at(loaded, i);
        lemma_zipped_at(ids, loaded, i);
    }
    assert(a =~= b);
}

/// Those of `ids` that are among `wanted`.
fn among(ids: &Vec<String>, wanted: &Vec<String>, out: &mut Vec<String>)
    ensures
        final(out).deep_view() == old(out).deep_view() + ids.deep_view().filter(
            |id: Seq<char>| wanted.deep_view().contains(id),
        ),
{
    let ghost all = ids.deep_view();
    let ghost start = out.deep_view();
    let ghost f = |id: Seq<char>| wanted.deep_view().contains(id);
    let mut i: usize = 0;
    proof {
        lemma_filter_nothing(all, f);
        assert(start + Seq::<Seq<char>>::empty() =~= start);
    }
    while i < ids.len()
        invariant
            i <= ids@.len(),
            all == ids.deep_view(),
            f == (|id: Seq<char>| wanted.deep_view().contains(id)),
            out.deep_view() == start + all.take(i as int).filter(f),
        decreases ids@.len() - i,
    {
        let ghost before = out.deep_view();
        proof {
            lemma_filter_take(all, i as int, f);
            assert(all[i as int] == ids@[i as int]@);
        }
        let wanted_here: bool = text::is_one_of(ids[i].as_str(), wanted.as_slice());
        proof {
            if wanted_here {
                let j = choose|j: int|
                    0 <= j < wanted@.len() && #[trigger] wanted@[j]@ == ids@[i as int]@;
                assert(wanted.deep_view()[j] == ids@[i as int]@);
            } else if wanted.deep_view().contains(ids@[i as int]@) {
                let j = wanted.deep_view().index_of(ids@[i as int]@);
                assert(wanted@[j]@ == ids@[i as int]@);
            }
        }
        if wanted_here {
            out.push(ids[i].clone());
            proof {
                assert(out.deep_view() =~= before.push(ids@[i as int]@));
                assert(start + all.take(i as int).filter(f).push(all[i as int]) =~= (start
                    + all.take(i as int).filter(f)).push(all[i as int]));
            }
        }
        i = i + 1;
    }
    proof {
        assert(all.take(i as int) =~= all);
    }
}

impl DeviceTypePoll {
    pub fn new() -> (r: Self)
        ensures
            r.pulled@.len() == 0,
            revision_view(r.revision@) == Map::<Seq<char>, (Origin, Seq<char>)>::empty(),
            r.backoff == 1,
    {
        let r = DeviceTypePoll { pulled: Vec::new(), revision: TextMap::new(), backoff: 1 };
        proof {
            assert(revision_view(r.revision@) =~= Map::empty());
        }
        r
    }

    /// Takes what both sources have: `fetched` is what came from Cumulocity, where it was asked,
    /// and `pushed` what the mapping directory holds.
    ///
    /// Everything is fetched each time rather than tracking `lastUpdated` incrementally. It costs
    /// one request per poll, and it detects deletions for free.
    pub fn polled(
        &mut self,
        fetched: Option<Result<Vec<LoadedDeviceType>, ProxyError>>,
        pushed: Vec<LoadedDeviceType>,
        poll_interval_secs: u64,
        max_backoff: u64,
    ) -> (r: AfterPoll)
        ensures
            final(self).pulled@ == (match fetched {
                Some(Ok(fresh)) => fresh@,
                _ => old(self).pulled@,
            }),
            final(self).backoff == (match fetched {
                Some(Ok(_)) => 1,
                Some(Err(error)) => if transient(error) {
                    doubled(old(self).backoff, max_backoff)
                } else {
                    old(self).backoff
                },
                None => old(self).backoff,
            }),
            r.delay == (match fetched {
                Some(Err(error)) if transient(error) => old(self).backoff,
                _ => at_least_one(poll_interval_secs),
            }),
            revision_view(final(self).revision@) == markers_of(
                merged_by_id(final(self).pulled@, pushed@),
            ),
            r.publish is Some <==> revision_view(old(self).revision@) != revision_view(
                final(self).revision@,
            ),
            r.publish matches Some(merged) ==> {
                &&& strictly_increasing(ids_of(merged@))
                &&& zipped(ids_of(merged@), merged@) == merged_by_id(final(self).pulled@, pushed@)
                &&& r.ignored.deep_view() == r.diff.added.deep_view().filter(
                    |id: Seq<char>| shadowed_ids(final(self).pulled@, merged@).contains(id),
                ) + r.diff.changed.deep_view().filter(
                    |id: Seq<char>| shadowed_ids(final(self).pulled@, merged@).contains(id),
                )
            },
            r.publish is None ==> r.ignored@.len() == 0,
            r.diff.added.deep_view() == added_ids(
                revision_view(old(self).revision@),
                revision_view(final(self).revision@),
            ),
            r.diff.removed.deep_view() == removed_ids(
                revision_view(old(self).revision@),
                revision_view(final(self).revision@),
            ),
            r.diff.changed.deep_view() == changed_ids(
                revision_view(old(self).revision@),
                revision_view(final(self).revision@),
            ),
    {
        let mut delay: u64 = one_or_more(poll_interval_secs);
        match fetched {
            Some(Ok(fresh)) => {
                self.pulled = fresh;
                self.backoff = 1;
            },
            Some(Err(error)) => {
                if error.is_transient() {
                    delay = self.backoff;
                    self.backoff = next_backoff(delay, max_backoff);
                }
            },
            None => {},
        }
        let ghost by_id = merged_by_id(self.pulled@, pushed@);
        let merged: Vec<LoadedDeviceType> = source::merge(
            source::copy_loaded(&self.pulled),
            pushed,
        );
        let fresh_revision: Revision = source::revision(merged.as_slice());
        proof {
            lemma_markers(merged@);
        }
        let diff: RevisionDiff = RevisionDiff::between(&self.revision, &fresh_revision);
        let mut ignored: Vec<String> = Vec::new();
        if diff.is_empty() {
            return AfterPoll { publish: None, diff, ignored, delay };
        }
        let hidden: Vec<String> = source::shadowed(self.pulled.as_slice(), merged.as_slice());
        proof {
            assert(ignored.deep_view() =~= Seq::empty());
        }
        among(&diff.added, &hidden, &mut ignored);
        among(&diff.changed, &hidden, &mut ignored);
        proof {
            assert(Seq::<Seq<char>>::empty() + diff.added.deep_view().filter(
                |id: Seq<char>| hidden.deep_view().contains(id),
            ) =~= diff.added.deep_view().filter(
                |id: Seq<char>| hidden.deep_view().contains(id),
            ));
        }
        self.revision = fresh_revision;
        AfterPoll { publish: Some(merged), diff, ignored, delay }
    }
}

// Laws -----------------------------------------------------------------------------

/// Pages are asked for one after the other, until the last, until one is not full, or until as
/// many were read as are looked at.
pub proof fn law_pages_follow_each_other(
    page: u32,
    count: usize,
    statistics: Option<Statistics>,
    r: Option<u32>,
)
    requires
        call_ensures(next_page, (page, count, statistics), r),
    ensures
        count < 1000 ==> r is None,
        page >= 50 ==> r is None,
        (statistics matches Some(s) && s.total_pages matches Some(total) && page >= total)
            ==> r is None,
        count >= 1000 && page < 50 && !(statistics matches Some(s)
            && s.total_pages matches Some(total) && page >= total) ==> r is Some && r->Some_0 == page
            + 1,
{
}

/// Device types that were fetched survive an outage: only a good fetch replaces them. After an
/// error that may pass the next poll comes after the wait that is due, which doubles up to the
/// longest; otherwise it comes after the interval.
pub proof fn law_fetched_device_types_survive_an_outage(
    poll: &mut DeviceTypePoll,
    fetched: Option<Result<Vec<LoadedDeviceType>, ProxyError>>,
    pushed: Vec<LoadedDeviceType>,
    poll_interval_secs: u64,
    max_backoff: u64,
    r: AfterPoll,
)
    requires
        call_ensures(
            DeviceTypePoll::polled,
            (poll, fetched, pushed, poll_interval_secs, max_backoff),
            r,
        ),
    ensures
        fetched matches Some(Ok(fresh)) ==> final(poll).pulled@ == fresh@ && final(poll).backoff
            == 1,
        !(fetched is Some && fetched->Some_0 is Ok) ==> final(poll).pulled@ == old(poll).pulled@,
        ({
            let passing = fetched is Some && fetched->Some_0 is Err && transient(
                fetched->Some_0->Err_0,
            );
            &&& passing ==> {
                &&& r.delay == old(poll).backoff
                &&& old(poll).backoff + old(poll).backoff <= max_backoff ==> final(poll).backoff
                    == old(poll).backoff + old(poll).backoff
                &&& old(poll).backoff + old(poll).backoff > max_backoff ==> final(poll).backoff
                    == max_backoff
            }
            &&& !passing && poll_interval_secs > 0 ==> r.delay == poll_interval_secs
            &&& !passing && poll_interval_secs == 0 ==> r.delay == 1
        }),
{
}

/// Device types are handed on exactly when one was added, removed or changed, and then all of
/// them: those that were pushed, and those that were pulled and not pushed.
pub proof fn law_changed_device_types_are_handed_on(
    poll: &mut DeviceTypePoll,
    fetched: Option<Result<Vec<LoadedDeviceType>, ProxyError>>,
    pushed: Vec<LoadedDeviceType>,
    poll_interval_secs: u64,
    max_backoff: u64,
    r: AfterPoll,
    i: int,
)
    requires
        call_ensures(
            DeviceTypePoll::polled,
            (poll, fetched, pushed, poll_interval_secs, max_backoff),
            r,
        ),
    ensures
        r.publish is Some <==> revision_view(old(poll).revision@) != revision_view(
            final(poll).revision@,
        ),
        r.publish matches Some(merged) ==> {
            &&& 0 <= i < pushed@.len() && (forall|j: int|
                i < j < pushed@.len() ==> (#[trigger] pushed@[j]).id@ != pushed@[i].id@)
                ==> merged@.contains(pushed@[i])
            &&& 0 <= i < final(poll).pulled@.len() && (forall|j: int|
                i < j < final(poll).pulled@.len() ==> (#[trigger] final(poll).pulled@[j]).id@
                    != final(poll).pulled@[i].id@) && (forall|j: int|
                0 <= j < pushed@.len() ==> (#[trigger] pushed@[j]).id@
                    != final(poll).pulled@[i].id@) ==> merged@.contains(final(poll).pulled@[i])
        },
{
    if let Some(merged) = r.publish {
        let pulled = final(poll).pulled@;
        if 0 <= i < pushed@.len() && (forall|j: int|
            i < j < pushed@.len() ==> (#[trigger] pushed@[j]).id@ != pushed@[i].id@) {
            law_the_last_pushed_device_type_counts(pulled, pushed@, i);
            lemma_zipped_has(merged@, pushed@[i].id@);
        }
        if 0 <= i < pulled.len() && (forall|j: int|
            i < j < pulled.len() ==> (#[trigger] pulled[j]).id@ != pulled[i].id@) && (forall|
            j: int,
        | 0 <= j < pushed@.len() ==> (#[trigger] pushed@[j]).id@ != pulled[i].id@) {
            law_the_last_pulled_device_type_counts(pulled, pushed@, i);
            lemma_zipped_has(merged@, pulled[i].id@);
        }
    }
}

proof fn lemma_zipped_has(merged: Seq<LoadedDeviceType>, id: Seq<char>)
    requires
        zipped(ids_of(merged), merged).contains_key(id),
    ensures
        merged.contains(zipped(ids_of(merged), merged)[id]),
{
    let k = ids_of(merged).index_of(id);
    assert(zipped(ids_of(merged), merged)[id] == merged[k]);
}

/// A revision tells each device type by where it comes from and when it has changed.
pub proof fn law_markers_tell_origin_and_change(
    by_id: Map<Seq<char>, LoadedDeviceType>,
    id: Seq<char>,
)
    ensures
        markers_of(by_id).contains_key(id) == by_id.contains_key(id),
        by_id.contains_key(id) ==> markers_of(by_id)[id] == (
            by_id[id].origin,
            by_id[id].fingerprint@,
        ),
{
}

/// What has changed is told by id, and an edit in the cloud that changes nothing is reported: the
/// added and changed device types that were pulled and that a pushed file serves.
pub proof fn law_ignored_edits_are_reported(
    poll: &mut DeviceTypePoll,
    fetched: Option<Result<Vec<LoadedDeviceType>, ProxyError>>,
    pushed: Vec<LoadedDeviceType>,
    poll_interval_secs: u64,
    max_backoff: u64,
    r: AfterPoll,
    id: Seq<char>,
)
    requires
        call_ensures(
            DeviceTypePoll::polled,
            (poll, fetched, pushed, poll_interval_secs, max_backoff),
            r,
        ),
    ensures
        ({
            let before = revision_view(old(poll).revision@);
            let after = revision_view(final(poll).revision@);
            &&& r.diff.added.deep_view() == added_ids(before, after)
            &&& r.diff.changed.deep_view() == changed_ids(before, after)
            &&& r.diff.removed.deep_view() == removed_ids(before, after)
            &&& after == markers_of(merged_by_id(final(poll).pulled@, pushed@))
        }),
        r.publish matches Some(merged) ==> (r.ignored.deep_view().contains(id) <==> (
        r.diff.added.deep_view().contains(id) || r.diff.changed.deep_view().contains(id))
            && shadowed_ids(final(poll).pulled@, merged@).contains(id)),
        r.publish is None ==> r.ignored@.len() == 0,
{
    if let Some(merged) = r.publish {
        let f = |k: Seq<char>| shadowed_ids(final(poll).pulled@, merged@).contains(k);
        let added = r.diff.added.deep_view();
        let changed = r.diff.changed.deep_view();
        lemma_filtered_has(added, f, id);
        lemma_filtered_has(changed, f, id);
        let first = added.filter(f);
        let second = changed.filter(f);
        let all = first + second;
        assert(r.ignored.deep_view() == all);
        if first.contains(id) {
            assert(all[first.index_of(id)] == id);
        }
        if second.contains(id) {
            assert(all[first.len() + second.index_of(id)] == id);
        }
        if all.contains(id) {
            let i = all.index_of(id);
            if i < first.len() {
                assert(first[i] == id);
            } else {
                assert(second[i - first.len()] == id);
            }
        }
    }
}

proof fn lemma_filtered_has(keys: Seq<Seq<char>>, f: spec_fn(Seq<char>) -> bool, id: Seq<char>)
    ensures
        keys.filter(f).contains(id) <==> keys.contains(id) && f(id),
{
    broadcast use vstd::seq_lib::group_filter_ensures;

    if keys.filter(f).contains(id) {
        crate::seqs::lemma_filter_from(keys, f, keys.filter(f).index_of(id));
    }
    if keys.contains(id) && f(id) {
        let i = keys.index_of(id);
        assert(keys.filter(f).contains(keys[i]));
    }
}

} // verus!
