//! One server task per configured server, started and stopped as the server set changes.
//!
//! A server created in the user interface arrives while the process is running, so the set is
//! dynamic and something has to own the difference.
//!
//! Removal is not the same as shutdown: a server that is gone is reported as such, while a server
//! whose process is stopping, or which is merely being restarted with new settings, is not.
use crate::config::{self, merged_servers, ServerConfig, ServerView};
use crate::seqs::{lemma_filter_from, lemma_filter_nothing, lemma_filter_take};
use crate::text;
use crate::text_map::{lemma_finite_sets_have_an_order, ordered_keys, TextMap};
use vstd::prelude::*;

verus! {

/// The servers whose tasks are running, by id.
#[derive(Debug)]
pub struct Supervisor {
    running: TextMap<ServerConfig>,
}

pub open spec fn running_view(m: Map<Seq<char>, ServerConfig>) -> Map<Seq<char>, ServerView> {
    m.map_values(|s: ServerConfig| s.deep_view())
}

impl View for Supervisor {
    type V = Map<Seq<char>, ServerView>;

    closed spec fn view(&self) -> Map<Seq<char>, ServerView> {
        running_view(self.running@)
    }
}

/// What has to be done so that the running servers are the desired ones, in this order.
#[derive(Debug)]
pub struct Reconciliation {
    /// Servers that are gone from the desired set.
    pub removed: Vec<String>,
    /// Servers that are still wanted, but with different settings. They are stopped here and
    /// started again below.
    pub restarted: Vec<String>,
    /// Servers to be started.
    pub started: Vec<ServerConfig>,
    /// Every server that is wanted.
    pub known_server_ids: Vec<String>,
}

pub open spec fn ids_of(desired: Seq<ServerView>) -> Seq<Seq<char>> {
    desired.map_values(|s: ServerView| s.id)
}

/// The running servers that are not wanted, in order.
pub open spec fn to_remove(running: Map<Seq<char>, ServerView>, desired: Seq<ServerView>) -> Seq<
    Seq<char>,
> {
    ordered_keys(running.dom()).filter(|id: Seq<char>| !ids_of(desired).contains(id))
}

/// A running server is wanted with other settings.
pub open spec fn is_changed(running: Map<Seq<char>, ServerView>, server: ServerView) -> bool {
    running.contains_key(server.id) && running[server.id] != server
}

/// The wanted servers that run with other settings.
pub open spec fn to_restart(running: Map<Seq<char>, ServerView>, desired: Seq<ServerView>) -> Seq<
    Seq<char>,
> {
    ids_of(desired.filter(|s: ServerView| is_changed(running, s)))
}

/// The servers that keep running once `ids` have been stopped.
pub open spec fn without(running: Map<Seq<char>, ServerView>, ids: Seq<Seq<char>>) -> Map<
    Seq<char>,
    ServerView,
>
    decreases ids.len(),
{
    if ids.len() == 0 {
        running
    } else {
        without(running, ids.drop_last()).remove(ids.last())
    }
}

/// The servers that run once the missing ones of `desired` have been started.
pub open spec fn with_started(running: Map<Seq<char>, ServerView>, desired: Seq<ServerView>) -> Map<
    Seq<char>,
    ServerView,
>
    decreases desired.len(),
{
    if desired.len() == 0 {
        running
    } else {
        let before = with_started(running, desired.drop_last());
        if before.contains_key(desired.last().id) {
            before
        } else {
            before.insert(desired.last().id, desired.last())
        }
    }
}

/// The servers of `desired` that have to be started.
pub open spec fn to_start(running: Map<Seq<char>, ServerView>, desired: Seq<ServerView>) -> Seq<
    ServerView,
>
    decreases desired.len(),
{
    if desired.len() == 0 {
        Seq::empty()
    } else {
        let before = to_start(running, desired.drop_last());
        if with_started(running, desired.drop_last()).contains_key(desired.last().id) {
            before
        } else {
            before.push(desired.last())
        }
    }
}

/// The servers that keep running.
pub open spec fn kept(running: Map<Seq<char>, ServerView>, desired: Seq<ServerView>) -> Map<
    Seq<char>,
    ServerView,
> {
    without(without(running, to_remove(running, desired)), to_restart(running, desired))
}

/// The servers that run afterwards.
pub open spec fn reconciled(running: Map<Seq<char>, ServerView>, desired: Seq<ServerView>) -> Map<
    Seq<char>,
    ServerView,
> {
    with_started(kept(running, desired), desired)
}

/// Takes servers out.
fn stop_all(running: &mut TextMap<ServerConfig>, ids: &Vec<String>)
    ensures
        running_view(final(running)@) == without(running_view(old(running)@), ids.deep_view()),
{
    let ghost start = running_view(running@);
    let ghost all = ids.deep_view();
    let mut i: usize = 0;
    proof {
        assert(all.take(0) =~= Seq::empty());
    }
    while i < ids.len()
        invariant
            i <= ids@.len(),
            all == ids.deep_view(),
            running_view(running@) == without(start, all.take(i as int)),
        decreases ids@.len() - i,
    {
        let ghost before = running@;
        proof {
            assert(all.take(i + 1).drop_last() =~= all.take(i as int));
            assert(all.take(i + 1).last() == ids@[i as int]@);
        }
        let _stopped: Option<ServerConfig> = running.remove(ids[i].as_str());
        proof {
            assert(running_view(running@) =~= running_view(before).remove(ids@[i as int]@));
        }
        i = i + 1;
    }
    proof {
        assert(all.take(i as int) =~= all);
    }
}

fn is_desired(desired: &Vec<ServerConfig>, id: &str) -> (r: bool)
    ensures
        r == ids_of(desired.deep_view()).contains(id@),
{
    let ghost ids = ids_of(desired.deep_view());
    let mut i: usize = 0;
    while i < desired.len()
        invariant
            i <= desired@.len(),
            ids == ids_of(desired.deep_view()),
            forall|j: int| 0 <= j < i ==> ids[j] != id@,
        decreases desired@.len() - i,
    {
        proof {
            assert(ids[i as int] == desired@[i as int].id@);
        }
        if text::same(desired[i].id.as_str(), id) {
            return true;
        }
        i = i + 1;
    }
    false
}

impl Supervisor {
    pub fn new() -> (r: Self)
        ensures
            r@ == Map::<Seq<char>, ServerView>::empty(),
            r@.dom().finite(),
    {
        let r = Supervisor { running: TextMap::new() };
        proof {
            assert(r@ =~= Map::empty());
        }
        r
    }

    /// Finitely many servers run.
    pub proof fn lemma_finite(&self)
        ensures
            self@.dom().finite(),
    {
        self.running.lemma_finite();
        assert(self@.dom() =~= self.running@.dom());
    }

    fn find_removed(&self, desired: &Vec<ServerConfig>) -> (r: Vec<String>)
        ensures
            r.deep_view() == to_remove(self@, desired.deep_view()),
    {
        let mut out: Vec<String> = Vec::new();
        let n: usize = self.running.len();
        let ghost keys = self.running.key_seq();
        let ghost f = |id: Seq<char>| !ids_of(desired.deep_view()).contains(id);
        let mut i: usize = 0;
        proof {
            assert(self@.dom() =~= self.running@.dom());
            lemma_filter_nothing(keys, f);
            assert(out.deep_view() =~= Seq::empty());
        }
        while i < n
            invariant
                i <= n == keys.len(),
                keys == self.running.key_seq(),
                f == (|id: Seq<char>| !ids_of(desired.deep_view()).contains(id)),
                out.deep_view() == keys.take(i as int).filter(f),
            decreases n - i,
        {
            let ghost before = out.deep_view();
            let id: &String = self.running.key_at(i);
            proof {
                lemma_filter_take(keys, i as int, f);
            }
            if !is_desired(desired, id.as_str()) {
                out.push(id.clone());
                proof {
                    assert(out.deep_view() =~= before.push(id@));
                }
            }
            i = i + 1;
        }
        proof {
            assert(keys.take(i as int) =~= keys);
        }
        out
    }

    fn find_restarted(&self, desired: &Vec<ServerConfig>) -> (r: Vec<String>)
        ensures
            r.deep_view() == to_restart(self@, desired.deep_view()),
    {
        let mut out: Vec<String> = Vec::new();
        let ghost all = desired.deep_view();
        let ghost f = |s: ServerView| is_changed(self@, s);
        let mut i: usize = 0;
        proof {
            lemma_filter_nothing(all, f);
            assert(out.deep_view() =~= ids_of(all.take(0).filter(f)));
        }
        while i < desired.len()
            invariant
                i <= desired@.len(),
                all == desired.deep_view(),
                f == (|s: ServerView| is_changed(self@, s)),
                out.deep_view() == ids_of(all.take(i as int).filter(f)),
            decreases desired@.len() - i,
        {
            let server: &ServerConfig = &desired[i];
            let ghost before = all.take(i as int).filter(f);
            let ghost shown = out.deep_view();
            proof {
                lemma_filter_take(all, i as int, f);
                assert(all[i as int] == server.deep_view());
            }
            let changed: bool = match self.running.get(server.id.as_str()) {
                Some(task) => !task.same(server),
                None => false,
            };
            proof {
                assert(changed == is_changed(self@, server.deep_view()));
            }
            if changed {
                out.push(server.id.clone());
                proof {
                    assert(out.deep_view() =~= shown.push(server.id@));
                    assert(ids_of(before.push(server.deep_view())) =~= ids_of(before).push(
                        server.id@,
                    ));
                }
            }
            i = i + 1;
        }
        proof {
            assert(all.take(i as int) =~= all);
        }
        out
    }

    /// Start what is missing, stop what is gone or changed.
    pub fn reconcile(&mut self, desired: &Vec<ServerConfig>) -> (r: Reconciliation)
        ensures
            r.removed.deep_view() == to_remove(old(self)@, desired.deep_view()),
            r.restarted.deep_view() == to_restart(old(self)@, desired.deep_view()),
            r.started.deep_view() == to_start(
                kept(old(self)@, desired.deep_view()),
                desired.deep_view(),
            ),
            r.known_server_ids.deep_view() == ids_of(desired.deep_view()),
            final(self)@ == reconciled(old(self)@, desired.deep_view()),
            old(self)@.dom().finite(),
            final(self)@.dom().finite(),
    {
        proof {
            self.lemma_finite();
        }
        let removed: Vec<String> = self.find_removed(desired);
        let restarted: Vec<String> = self.find_restarted(desired);
        stop_all(&mut self.running, &removed);
        stop_all(&mut self.running, &restarted);
        let ghost start = running_view(self.running@);
        let ghost all = desired.deep_view();
        let mut started: Vec<ServerConfig> = Vec::new();
        let mut known_server_ids: Vec<String> = Vec::new();
        let mut i: usize = 0;
        proof {
            assert(all.take(0) =~= Seq::empty());
            assert(started.deep_view() =~= Seq::empty());
        }
        while i < desired.len()
            invariant
                i <= desired@.len(),
                all == desired.deep_view(),
                known_server_ids@.len() == i,
                forall|j: int| 0 <= j < i ==> #[trigger] known_server_ids@[j]@ == desired@[j].id@,
                running_view(self.running@) == with_started(start, all.take(i as int)),
                started.deep_view() == to_start(start, all.take(i as int)),
            decreases desired@.len() - i,
        {
            let server: &ServerConfig = &desired[i];
            let ghost before = self.running@;
            let ghost shown = started.deep_view();
            proof {
                assert(all.take(i + 1).drop_last() =~= all.take(i as int));
                assert(all.take(i + 1).last() == server.deep_view());
            }
            known_server_ids.push(server.id.clone());
            if !self.running.contains(server.id.as_str()) {
                let task: ServerConfig = server.clone();
                started.push(server.clone());
                self.running.insert(server.id.clone(), task);
                proof {
                    assert(running_view(self.running@) =~= running_view(before).insert(
                        server.id@,
                        server.deep_view(),
                    ));
                    assert(started.deep_view() =~= shown.push(server.deep_view()));
                }
            }
            i = i + 1;
        }
        proof {
            assert(all.take(i as int) =~= all);
            assert(known_server_ids.deep_view() =~= ids_of(all));
        }
        proof {
            self.lemma_finite();
        }
        Reconciliation { removed, restarted, started, known_server_ids }
    }
}

/// The servers to run: servers configured on the device win over servers registered in
/// Cumulocity, the same way a pushed mapping file wins over a pulled device type. The operator
/// standing next to the hardware gets the last word.
pub fn desired_servers(cloud: Vec<ServerConfig>, configured: Vec<ServerConfig>) -> (r: Vec<
    ServerConfig,
>)
    ensures
        r@ == merged_servers(cloud@, configured@),
{
    config::merge_servers(cloud, configured)
}

// Laws -------------------------------------------------------------------------------

/// No two servers share an id.
pub open spec fn distinct(desired: Seq<ServerView>) -> bool {
    forall|i: int, j: int|
        0 <= i < j < desired.len() ==> (#[trigger] desired[i]).id != (#[trigger] desired[j]).id
}

proof fn lemma_without(running: Map<Seq<char>, ServerView>, ids: Seq<Seq<char>>, k: Seq<char>)
    ensures
        without(running, ids).contains_key(k) == (running.contains_key(k) && !ids.contains(k)),
        without(running, ids).contains_key(k) ==> without(running, ids)[k] == running[k],
    decreases ids.len(),
{
    if ids.len() > 0 {
        lemma_without(running, ids.drop_last(), k);
        if ids.drop_last().contains(k) {
            let i = ids.drop_last().index_of(k);
            assert(ids[i] == k);
        }
        if k == ids.last() {
            assert(ids[ids.len() - 1] == k);
        } else if ids.contains(k) {
            let i = ids.index_of(k);
            assert(ids.drop_last()[i] == k);
        }
    }
}

proof fn lemma_with_started(
    running: Map<Seq<char>, ServerView>,
    desired: Seq<ServerView>,
    k: Seq<char>,
)
    ensures
        with_started(running, desired).contains_key(k) == (running.contains_key(k) || ids_of(
            desired,
        ).contains(k)),
        running.contains_key(k) ==> with_started(running, desired)[k] == running[k],
    decreases desired.len(),
{
    if desired.len() > 0 {
        let before = desired.drop_last();
        lemma_with_started(running, before, k);
        if ids_of(before).contains(k) {
            let i = ids_of(before).index_of(k);
            assert(ids_of(desired)[i] == k);
        }
        if desired.last().id == k {
            assert(ids_of(desired)[desired.len() - 1] == k);
        } else if ids_of(desired).contains(k) {
            let i = ids_of(desired).index_of(k);
            assert(ids_of(before)[i] == k);
        }
    }
}

proof fn lemma_started_as_desired(
    running: Map<Seq<char>, ServerView>,
    desired: Seq<ServerView>,
    i: int,
)
    requires
        distinct(desired),
        0 <= i < desired.len(),
        !running.contains_key(desired[i].id),
    ensures
        with_started(running, desired)[desired[i].id] == desired[i],
    decreases desired.len(),
{
    let before = desired.drop_last();
    assert(distinct(before)) by {
        assert forall|a: int, b: int| 0 <= a < b < before.len() implies (#[trigger] before[a]).id
            != (#[trigger] before[b]).id by {
            assert(before[a] == desired[a] && before[b] == desired[b]);
        }
    }
    let k = desired[i].id;
    lemma_with_started(running, before, k);
    if i < before.len() {
        lemma_started_as_desired(running, before, i);
        assert(desired[i].id != desired[desired.len() - 1].id);
    } else if ids_of(before).contains(k) {
        let j = ids_of(before).index_of(k);
        assert(desired[j].id == k);
    }
}

/// A server keeps running exactly when it is wanted and every wanted server of its id has the
/// settings that it runs with.
proof fn lemma_kept(running: Map<Seq<char>, ServerView>, desired: Seq<ServerView>, k: Seq<char>)
    requires
        running.dom().finite(),
    ensures
        kept(running, desired).contains_key(k) <==> running.contains_key(k) && ids_of(
            desired,
        ).contains(k) && forall|i: int|
            0 <= i < desired.len() && (#[trigger] desired[i]).id == k ==> desired[i] == running[k],
        kept(running, desired).contains_key(k) ==> kept(running, desired)[k] == running[k],
{
    let gone = to_remove(running, desired);
    let changed = to_restart(running, desired);
    let keys = ordered_keys(running.dom());
    let f = |id: Seq<char>| !ids_of(desired).contains(id);
    let g = |s: ServerView| is_changed(running, s);
    crate::text_map::lemma_finite_sets_have_an_order(running.dom());
    lemma_without(running, gone, k);
    lemma_without(without(running, gone), changed, k);
    broadcast use vstd::seq_lib::group_filter_ensures;

    // Removed are those that are not wanted.
    if running.contains_key(k) {
        assert(keys.to_set().contains(k));
        let p = keys.index_of(k);
        assert(keys[p] == k);
        if f(k) {
            assert(keys.filter(f).contains(keys[p]));
        }
        if gone.contains(k) {
            let q = gone.index_of(k);
            assert(f(keys.filter(f)[q]));
        }
    }
    // Restarted are those that are wanted with other settings.
    if changed.contains(k) {
        let q = changed.index_of(k);
        let s = desired.filter(g)[q];
        lemma_filter_from(desired, g, q);
        assert(s.id == k);
        let i = desired.index_of(s);
        assert(desired[i] == s);
    }
    if running.contains_key(k) {
        assert forall|i: int| 0 <= i < desired.len() && (#[trigger] desired[i]).id == k
            && desired[i] != running[k] implies changed.contains(k) by {
            assert(g(desired[i]));
            assert(desired.filter(g).contains(desired[i]));
            let q = desired.filter(g).index_of(desired[i]);
            assert(changed[q] == k);
        }
    }
}

/// After reconciling, exactly the wanted servers run.
pub proof fn law_running_servers_are_the_desired_ones(
    running: Map<Seq<char>, ServerView>,
    desired: Seq<ServerView>,
)
    requires
        running.dom().finite(),
    ensures
        reconciled(running, desired).dom() == ids_of(desired).to_set(),
{
    assert forall|k: Seq<char>| reconciled(running, desired).dom().contains(k) == #[trigger] ids_of(
        desired,
    ).to_set().contains(k) by {
        lemma_kept(running, desired, k);
        lemma_with_started(kept(running, desired), desired, k);
    }
    assert(reconciled(running, desired).dom() =~= ids_of(desired).to_set());
}

/// After reconciling, every server runs with the settings that are wanted.
pub proof fn law_running_servers_have_the_desired_settings(
    running: Map<Seq<char>, ServerView>,
    desired: Seq<ServerView>,
    i: int,
)
    requires
        running.dom().finite(),
        distinct(desired),
        0 <= i < desired.len(),
    ensures
        reconciled(running, desired).contains_key(desired[i].id),
        reconciled(running, desired)[desired[i].id] == desired[i],
{
    let k = desired[i].id;
    assert(ids_of(desired)[i] == k);
    lemma_kept(running, desired, k);
    lemma_with_started(kept(running, desired), desired, k);
    if kept(running, desired).contains_key(k) {
        assert(desired[i] == running[k]);
    } else {
        lemma_started_as_desired(kept(running, desired), desired, i);
    }
}

/// A server whose settings have not changed is left alone: it is neither stopped nor started.
pub proof fn law_unchanged_servers_are_left_alone(
    running: Map<Seq<char>, ServerView>,
    desired: Seq<ServerView>,
    i: int,
)
    requires
        running.dom().finite(),
        distinct(desired),
        0 <= i < desired.len(),
        running.contains_key(desired[i].id),
        running[desired[i].id] == desired[i],
    ensures
        kept(running, desired).contains_key(desired[i].id),
        !to_start(kept(running, desired), desired).contains(desired[i]),
{
    let k = desired[i].id;
    assert(ids_of(desired)[i] == k);
    assert forall|j: int| 0 <= j < desired.len() && (#[trigger] desired[j]).id == k implies desired[j]
        == running[k] by {
        if j != i {
            assert(desired[j].id != desired[i].id);
        }
    }
    lemma_kept(running, desired, k);
    lemma_not_started(kept(running, desired), desired, desired[i]);
}

proof fn lemma_not_started(
    running: Map<Seq<char>, ServerView>,
    desired: Seq<ServerView>,
    server: ServerView,
)
    requires
        running.contains_key(server.id),
    ensures
        !to_start(running, desired).contains(server),
    decreases desired.len(),
{
    if desired.len() > 0 {
        let before = to_start(running, desired.drop_last());
        let now = to_start(running, desired);
        lemma_not_started(running, desired.drop_last(), server);
        lemma_with_started(running, desired.drop_last(), server.id);
        if now.contains(server) {
            let q = now.index_of(server);
            if q < before.len() {
                assert(before[q] == server);
            }
        }
    }
}

/// A running server is stopped for good exactly when it is no longer wanted.
pub proof fn law_unwanted_servers_are_removed(
    running: Map<Seq<char>, ServerView>,
    desired: Seq<ServerView>,
    id: Seq<char>,
)
    requires
        running.dom().finite(),
    ensures
        to_remove(running, desired).contains(id) <==> running.contains_key(id) && forall|i: int|
            0 <= i < desired.len() ==> (#[trigger] desired[i]).id != id,
{
    let keys = ordered_keys(running.dom());
    let f = |k: Seq<char>| !ids_of(desired).contains(k);
    lemma_finite_sets_have_an_order(running.dom());
    assert(keys.to_set().contains(id) == running.contains_key(id));
    broadcast use vstd::seq_lib::group_filter_ensures;

    if keys.filter(f).contains(id) {
        lemma_filter_from(keys, f, keys.filter(f).index_of(id));
        assert forall|i: int| 0 <= i < desired.len() implies (#[trigger] desired[i]).id != id by {
            assert(ids_of(desired)[i] == desired[i].id);
        }
    }
    if running.contains_key(id) && forall|i: int|
        0 <= i < desired.len() ==> (#[trigger] desired[i]).id != id {
        if ids_of(desired).contains(id) {
            let i = ids_of(desired).index_of(id);
            assert(desired[i].id == id);
        }
        let k = keys.index_of(id);
        assert(f(keys[k]));
        assert(keys.filter(f).contains(keys[k]));
    }
}

/// A running server is restarted exactly when it is wanted with other settings.
pub proof fn law_changed_servers_are_restarted(
    running: Map<Seq<char>, ServerView>,
    desired: Seq<ServerView>,
    id: Seq<char>,
)
    ensures
        to_restart(running, desired).contains(id) <==> running.contains_key(id) && exists|i: int|
            0 <= i < desired.len() && (#[trigger] desired[i]).id == id && desired[i] != running[id],
{
    let f = |s: ServerView| is_changed(running, s);
    let changed = desired.filter(f);
    broadcast use vstd::seq_lib::group_filter_ensures;

    if to_restart(running, desired).contains(id) {
        let k = to_restart(running, desired).index_of(id);
        assert(changed[k].id == id);
        lemma_filter_from(desired, f, k);
        let i = desired.index_of(changed[k]);
        assert(desired[i].id == id);
    }
    if running.contains_key(id) && exists|i: int|
        0 <= i < desired.len() && (#[trigger] desired[i]).id == id && desired[i] != running[id] {
        let i = choose|i: int|
            0 <= i < desired.len() && (#[trigger] desired[i]).id == id && desired[i] != running[id];
        assert(f(desired[i]));
        assert(desired.filter(f).contains(desired[i]));
        let k = changed.index_of(desired[i]);
        assert(to_restart(running, desired)[k] == id);
    }
}

/// A server is started exactly when it is wanted and does not keep running.
pub proof fn law_missing_servers_are_started(
    running: Map<Seq<char>, ServerView>,
    desired: Seq<ServerView>,
    i: int,
)
    requires
        distinct(desired),
        0 <= i < desired.len(),
    ensures
        to_start(running, desired).contains(desired[i]) <==> !running.contains_key(desired[i].id),
    decreases desired.len(),
{
    let first = desired.drop_last();
    let last = desired.last();
    let before = to_start(running, first);
    let after = to_start(running, desired);
    assert(distinct(first)) by {
        assert forall|a: int, b: int| 0 <= a < b < first.len() implies (#[trigger] first[a]).id != (
        #[trigger] first[b]).id by {
            assert(desired[a].id != desired[b].id);
        }
    }
    if running.contains_key(desired[i].id) {
        lemma_not_started(running, desired, desired[i]);
    } else if i < first.len() {
        law_missing_servers_are_started(running, first, i);
        let k = before.index_of(desired[i]);
        assert(after[k] == desired[i]);
    } else {
        lemma_with_started(running, first, last.id);
        if ids_of(first).contains(last.id) {
            let j = ids_of(first).index_of(last.id);
            assert(desired[j].id != desired[desired.len() - 1].id);
        }
        assert(after[after.len() - 1] == last);
    }
}

/// Servers that are configured on the device win over those from the cloud, and every other cloud
/// server is wanted too.
pub proof fn law_configured_servers_win_over_the_cloud(
    cloud: Vec<ServerConfig>,
    configured: Vec<ServerConfig>,
    r: Vec<ServerConfig>,
    i: int,
)
    requires
        call_ensures(desired_servers, (cloud, configured), r),
        config::unique_ids(cloud@),
        config::unique_ids(configured@),
    ensures
        0 <= i < configured@.len() ==> r@.contains(configured@[i]),
        0 <= i < cloud@.len() && (forall|j: int|
            0 <= j < configured@.len() ==> (#[trigger] configured@[j]).id@ != cloud@[i].id@)
            ==> r@.contains(cloud@[i]),
        config::unique_ids(r@),
{
    if 0 <= i < configured@.len() {
        config::law_pushed_server_wins(cloud@, configured@, i);
    }
    config::law_merged_servers_are_inline_or_pushed(cloud@, configured@, i);
    config::law_merging_keeps_ids_unique(cloud@, configured@);
    if 0 <= i < cloud@.len() && (forall|j: int|
        0 <= j < configured@.len() ==> (#[trigger] configured@[j]).id@ != cloud@[i].id@) {
        assert(r@[i] == cloud@[i]);
    }
}

/// What reconciling reports is what it does: the unwanted are removed, the changed restarted, and
/// whatever is wanted and does not keep running is started; every wanted server is known.
pub proof fn law_reconciling_reports_what_it_does(
    supervisor: &mut Supervisor,
    desired: Vec<ServerConfig>,
    r: Reconciliation,
)
    requires
        call_ensures(Supervisor::reconcile, (supervisor, &desired), r),
    ensures
        r.removed.deep_view() == to_remove(old(supervisor)@, desired.deep_view()),
        r.restarted.deep_view() == to_restart(old(supervisor)@, desired.deep_view()),
        r.started.deep_view() == to_start(
            kept(old(supervisor)@, desired.deep_view()),
            desired.deep_view(),
        ),
        r.known_server_ids@.len() == desired@.len(),
        forall|i: int|
            0 <= i < desired@.len() ==> (#[trigger] r.known_server_ids@[i])@ == desired@[i].id@,
        final(supervisor)@.dom() == ids_of(desired.deep_view()).to_set(),
{
    law_running_servers_are_the_desired_ones(old(supervisor)@, desired.deep_view());
    let known = r.known_server_ids.deep_view();
    assert(known.len() == r.known_server_ids@.len());
    assert forall|i: int| 0 <= i < desired@.len() implies (#[trigger] r.known_server_ids@[i])@
        == desired@[i].id@ by {
        assert(known[i] == r.known_server_ids@[i]@);
        assert(ids_of(desired.deep_view())[i] == desired.deep_view()[i].id);
    }
}

} // verus!
