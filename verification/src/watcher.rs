//! The decisions of a vault's file watcher: which file changes matter, and
//! when a change is reported. A change to a note is reported once the note
//! has been quiet for the debounce interval; a later change to the same note
//! replaces the earlier one.
use vstd::prelude::*;
use crate::paths::{is_tracked_note, is_tracked_note_path};
use crate::text::views;

verus! {

/// How long a note must stay unchanged before its change is reported, in
/// milliseconds.
pub const DEBOUNCE_MS: u64 = 2000;

/// How long the watcher waits for a file event before it looks at what is
/// pending, in milliseconds.
pub const POLL_MS: u64 = 500;

/// The kind of a file change.
#[derive(Clone, Copy, Debug, PartialEq, Eq)]
pub enum ChangeKind {
    Create,
    Modify,
    Delete,
}

/// The label of a change kind in the events sent to the front end.
pub open spec fn kind_label(k: ChangeKind) -> Seq<char> {
    match k {
        ChangeKind::Create => seq!['c', 'r', 'e', 'a', 't', 'e'],
        ChangeKind::Modify => seq!['m', 'o', 'd', 'i', 'f', 'y'],
        ChangeKind::Delete => seq!['d', 'e', 'l', 'e', 't', 'e'],
    }
}

/// The label of a change kind: `create`, `modify` or `delete`.
pub fn change_kind_label(k: ChangeKind) -> (r: String)
    ensures
        r@ == kind_label(k),
{
    match k {
        ChangeKind::Create => {
            let s = "create";
            proof {
                reveal_strlit("create");
            }
            s.to_owned()
        },
        ChangeKind::Modify => {
            let s = "modify";
            proof {
                reveal_strlit("modify");
            }
            s.to_owned()
        },
        ChangeKind::Delete => {
            let s = "delete";
            proof {
                reveal_strlit("delete");
            }
            s.to_owned()
        },
    }
}

/// A change reported to the front end.
#[derive(Debug, PartialEq, Eq)]
pub struct FileChangeEvent {
    pub vault_name: String,
    pub path: String,
    /// `create`, `modify` or `delete`.
    pub kind: String,
}

/// The view of a `FileChangeEvent`.
pub struct FileChangeEventView {
    pub vault_name: Seq<char>,
    pub path: Seq<char>,
    pub kind: Seq<char>,
}

impl View for FileChangeEvent {
    type V = FileChangeEventView;

    open spec fn view(&self) -> FileChangeEventView {
        FileChangeEventView { vault_name: self.vault_name@, path: self.path@, kind: self.kind@ }
    }
}

/// The views of events.
pub open spec fn event_views(v: Seq<FileChangeEvent>) -> Seq<FileChangeEventView> {
    v.map_values(|e: FileChangeEvent| e@)
}

/// What the watcher hears from the file system.
#[derive(Debug)]
pub enum WatchInput {
    /// Files were created, modified or removed.
    Change(ChangeKind, Vec<String>),
    /// Files changed in some other way (access, metadata, ...).
    OtherChange,
    /// No event came within the poll interval.
    Timeout,
}

/// A change that waits to be reported.
#[derive(Debug)]
struct PendingChange {
    path: String,
    kind: ChangeKind,
    at_ms: u64,
}

/// The view of a pending change: its path, kind and time.
pub type PendingView = (Seq<char>, ChangeKind, u64);

/// The views of pending changes.
spec fn pendings(v: Seq<PendingChange>) -> Seq<PendingView> {
    v.map_values(|c: PendingChange| (c.path@, c.kind, c.at_ms))
}

/// The debounce state of one vault's watcher.
pub struct Debouncer {
    vault_name: String,
    pending: Vec<PendingChange>,
}

/// The view of a `Debouncer`: its vault and its pending changes, oldest
/// first, at most one per path, each of a tracked note.
pub struct DebouncerView {
    pub vault_name: Seq<char>,
    pub pending: Seq<PendingView>,
}

/// No path is pending twice.
pub open spec fn paths_distinct(p: Seq<PendingView>) -> bool {
    forall|i: int, j: int| 0 <= i < j < p.len() ==> (#[trigger] p[i]).0 != (#[trigger] p[j]).0
}

/// The index of the pending change of `path`, or `-1`.
pub open spec fn pending_index(p: Seq<PendingView>, path: Seq<char>) -> int {
    if exists|i: int| 0 <= i < p.len() && (#[trigger] p[i]).0 == path {
        choose|i: int| 0 <= i < p.len() && (#[trigger] p[i]).0 == path
    } else {
        -1
    }
}

/// The pending changes after a change of `path`: the path's earlier change
/// is replaced, or the change is added.
pub open spec fn upsert(p: Seq<PendingView>, path: Seq<char>, kind: ChangeKind, t: u64) -> Seq<PendingView> {
    let k = pending_index(p, path);
    if k >= 0 {
        p.update(k, (path, kind, t))
    } else {
        p.push((path, kind, t))
    }
}

/// The pending changes after a change of `kind` to `paths` at time `t`;
/// paths that are not tracked notes are ignored.
pub open spec fn observe_paths(p: Seq<PendingView>, kind: ChangeKind, paths: Seq<Seq<char>>, t: u64) -> Seq<
    PendingView,
>
    decreases paths.len(),
{
    if paths.len() == 0 {
        p
    } else {
        let p2 = if is_tracked_note_path(paths[0]) {
            upsert(p, paths[0], kind, t)
        } else {
            p
        };
        observe_paths(p2, kind, paths.drop_first(), t)
    }
}

/// A pending change is due at `now`: it has been quiet for the debounce
/// interval.
pub open spec fn is_due(c: PendingView, now: u64) -> bool {
    now >= c.2 && now - c.2 >= DEBOUNCE_MS
}

/// The pending changes that are due, in order.
pub open spec fn due_of(p: Seq<PendingView>, now: u64) -> Seq<PendingView>
    decreases p.len(),
{
    if p.len() == 0 {
        p
    } else if is_due(p.last(), now) {
        due_of(p.drop_last(), now).push(p.last())
    } else {
        due_of(p.drop_last(), now)
    }
}

/// The pending changes that are not due, in order.
pub open spec fn waiting_of(p: Seq<PendingView>, now: u64) -> Seq<PendingView>
    decreases p.len(),
{
    if p.len() == 0 {
        p
    } else if is_due(p.last(), now) {
        waiting_of(p.drop_last(), now)
    } else {
        waiting_of(p.drop_last(), now).push(p.last())
    }
}

/// The event that reports a pending change.
pub open spec fn report(vault: Seq<char>, c: PendingView) -> FileChangeEventView {
    FileChangeEventView { vault_name: vault, path: c.0, kind: kind_label(c.1) }
}

/// The events that report the due changes.
pub open spec fn reports(vault: Seq<char>, due: Seq<PendingView>) -> Seq<FileChangeEventView> {
    due.map_values(|c: PendingView| report(vault, c))
}

impl View for Debouncer {
    type V = DebouncerView;

    closed spec fn view(&self) -> DebouncerView {
        DebouncerView {
            vault_name: self.vault_name@,
            pending: pendings(self.pending@),
        }
    }
}

impl Debouncer {
    #[verifier::type_invariant]
    closed spec fn inv(self) -> bool {
        &&& paths_distinct(pendings(self.pending@))
        &&& all_tracked(pendings(self.pending@))
    }

    /// A watcher state for the vault `vault_name`, with nothing pending.
    pub fn new(vault_name: String) -> (r: Self)
        ensures
            r@.vault_name == vault_name@,
            r@.pending == Seq::<PendingView>::empty(),
    {
        let d = Debouncer { vault_name, pending: Vec::new() };
        proof {
            assert(pendings(d.pending@) =~= Seq::<
                PendingView,
            >::empty());
        }
        d
    }

    /// The number of pending changes.
    pub fn pending_len(&self) -> (n: usize)
        ensures
            n == self@.pending.len(),
    {
        self.pending.len()
    }

    /// Records a change of `path` at time `now`.
    fn upsert_change(&mut self, path: &String, kind: ChangeKind, now: u64)
        requires
            is_tracked_note_path(path@),
        ensures
            final(self)@.vault_name == old(self)@.vault_name,
            final(self)@.pending == upsert(old(self)@.pending, path@, kind, now),
    {
        proof {
            use_type_invariant(&*self);
        }
        let ghost pv = self@.pending;
        let mut pend: Vec<PendingChange> = Vec::new();
        std::mem::swap(&mut pend, &mut self.pending);
        assert(pendings(pend@) == pv);
        let mut i: usize = 0;
        while i < pend.len()
            invariant
                0 <= i <= pend@.len(),
                pendings(pend@) == pv,
                paths_distinct(pv),
                pv == old(self)@.pending,
                all_tracked(pv),
                is_tracked_note_path(path@),
                self.vault_name == old(self).vault_name,
                forall|j: int| 0 <= j < i ==> (#[trigger] pv[j]).0 != path@,
            decreases pend@.len() - i,
        {
            if pend[i].path == *path {
                proof {
                    assert(pv[i as int].0 == path@);
                    let k = choose|k: int| 0 <= k < pv.len() && (#[trigger] pv[k]).0 == path@;
                    if k < i {
                        assert(pv[k].0 != pv[i as int].0);
                    } else if k > i {
                        assert(pv[i as int].0 != pv[k].0);
                    }
                    assert(pending_index(pv, path@) == i);
                }
                let _old = pend.remove(i);
                pend.insert(i, PendingChange { path: path.clone(), kind, at_ms: now });
                proof {
                    assert(pendings(pend@) =~= pv.update(i as int, (path@, kind, now)));
                    let q = pendings(pend@);
                    assert forall|a: int, b: int| 0 <= a < b < q.len() implies (#[trigger] q[a]).0 != (#[trigger] q[b]).0 by {
                        assert(q[a].0 == pv[a].0);
                        assert(q[b].0 == pv[b].0);
                    }
                    assert forall|a: int| 0 <= a < q.len() implies is_tracked_note_path(#[trigger] q[a].0) by {
                        if a != i {
                            assert(q[a] == pv[a]);
                        }
                    }
                }
                self.pending = pend;
                return;
            }
            proof {
                assert(pv[i as int].0 != path@);
            }
            i = i + 1;
        }
        proof {
            assert(pending_index(pv, path@) == -1);
        }
        pend.push(PendingChange { path: path.clone(), kind, at_ms: now });
        proof {
            assert(pendings(pend@) =~= pv.push((path@, kind, now)));
            let q = pendings(pend@);
            assert forall|a: int, b: int| 0 <= a < b < q.len() implies (#[trigger] q[a]).0 != (#[trigger] q[b]).0 by {
                assert(q[a] == pv[a]);
                if b < pv.len() {
                    assert(q[b] == pv[b]);
                }
            }
            assert forall|a: int| 0 <= a < q.len() implies is_tracked_note_path(#[trigger] q[a].0) by {
                if a < pv.len() {
                    assert(q[a] == pv[a]);
                }
            }
        }
        self.pending = pend;
    }

    /// Records a change of `kind` to `paths` at time `now`; paths that are
    /// not tracked notes are ignored.
    pub fn observe(&mut self, kind: ChangeKind, paths: &Vec<String>, now: u64)
        ensures
            final(self)@.vault_name == old(self)@.vault_name,
            final(self)@.pending == observe_paths(old(self)@.pending, kind, views(paths@), now),
            all_tracked(final(self)@.pending),
    {
        let ghost target = observe_paths(self@.pending, kind, views(paths@), now);
        let ghost pv = views(paths@);
        let mut i: usize = 0;
        proof {
            assert(pv.skip(0) =~= pv);
        }
        while i < paths.len()
            invariant
                0 <= i <= paths@.len(),
                pv == views(paths@),
                self@.vault_name == old(self)@.vault_name,
                observe_paths(self@.pending, kind, pv.skip(i as int), now) == target,
            decreases paths@.len() - i,
        {
            proof {
                let s = pv.skip(i as int);
                assert(s[0] == paths@[i as int]@);
                assert(s.drop_first() =~= pv.skip(i as int + 1));
            }
            if is_tracked_note(paths[i].as_str()) {
                self.upsert_change(&paths[i], kind, now);
            }
            i = i + 1;
        }
        proof {
            assert(pv.skip(i as int) =~= Seq::<Seq<char>>::empty());
            use_type_invariant(&*self);
        }
    }

    /// Reports the changes that are due at `now`, oldest first, and keeps the
    /// others pending.
    pub fn flush(&mut self, now: u64) -> (events: Vec<FileChangeEvent>)
        ensures
            final(self)@.vault_name == old(self)@.vault_name,
            final(self)@.pending == waiting_of(old(self)@.pending, now),
            event_views(events@) == reports(old(self)@.vault_name, due_of(old(self)@.pending, now)),
            all_tracked(final(self)@.pending),
    {
        proof {
            use_type_invariant(&*self);
        }
        let ghost pv = self@.pending;
        let ghost vn = self@.vault_name;
        let mut pend: Vec<PendingChange> = Vec::new();
        std::mem::swap(&mut pend, &mut self.pending);
        assert(pendings(pend@) == pv);
        let mut keep: Vec<PendingChange> = Vec::new();
        let mut events: Vec<FileChangeEvent> = Vec::new();
        let mut i: usize = 0;
        proof {
            assert(pv.take(0) =~= Seq::<PendingView>::empty());
            assert(pendings(keep@) =~= Seq::<PendingView>::empty());
            assert(event_views(events@) =~= Seq::<FileChangeEventView>::empty());
        }
        while i < pend.len()
            invariant
                0 <= i <= pend@.len(),
                pendings(pend@) == pv,
                vn == self.vault_name@,
                pendings(keep@) == waiting_of(pv.take(i as int), now),
                event_views(events@) == reports(vn, due_of(pv.take(i as int), now)),
            decreases pend@.len() - i,
        {
            let c = &pend[i];
            proof {
                assert(pv.take(i as int + 1).drop_last() =~= pv.take(i as int));
                assert(pv.take(i as int + 1).last() == pv[i as int]);
                assert(pv[i as int] == (c.path@, c.kind, c.at_ms));
            }
            if now >= c.at_ms && now - c.at_ms >= DEBOUNCE_MS {
                let ghost before = events@;
                events.push(
                    FileChangeEvent {
                        vault_name: self.vault_name.clone(),
                        path: c.path.clone(),
                        kind: change_kind_label(c.kind),
                    },
                );
                proof {
                    assert(event_views(events@) =~= event_views(before).push(report(vn, pv[i as int])));
                    assert(reports(vn, due_of(pv.take(i as int), now).push(pv[i as int])) =~= reports(
                        vn,
                        due_of(pv.take(i as int), now),
                    ).push(report(vn, pv[i as int])));
                }
            } else {
                let ghost before = keep@;
                keep.push(PendingChange { path: c.path.clone(), kind: c.kind, at_ms: c.at_ms });
                proof {
                    assert(pendings(keep@) =~= pendings(before).push(pv[i as int]));
                }
            }
            i = i + 1;
        }
        proof {
            assert(pv.take(pend@.len() as int) =~= pv);
            lemma_waiting_distinct(pv, now);
            lemma_kept_tracked(pv, now);
        }
        self.pending = keep;
        proof {
            use_type_invariant(&*self);
        }
        events
    }

    /// The step of the watcher on one input at time `now`: a change of
    /// tracked notes is recorded and the due changes are reported; another
    /// kind of change is ignored, reporting nothing; a timeout reports the due
    /// changes. Only tracked notes are ever pending.
    pub fn step(&mut self, input: WatchInput, now: u64) -> (events: Vec<FileChangeEvent>)
        ensures
            final(self)@.vault_name == old(self)@.vault_name,
            all_tracked(final(self)@.pending),
            match input {
                WatchInput::Change(kind, paths) => {
                    let p = observe_paths(old(self)@.pending, kind, views(paths@), now);
                    &&& final(self)@.pending == waiting_of(p, now)
                    &&& event_views(events@) == reports(old(self)@.vault_name, due_of(p, now))
                },
                WatchInput::OtherChange => final(self)@.pending == old(self)@.pending && events@.len() == 0,
                WatchInput::Timeout => {
                    &&& final(self)@.pending == waiting_of(old(self)@.pending, now)
                    &&& event_views(events@) == reports(
                        old(self)@.vault_name,
                        due_of(old(self)@.pending, now),
                    )
                },
            },
    {
        match input {
            WatchInput::Change(kind, paths) => {
                self.observe(kind, &paths, now);
                self.flush(now)
            },
            WatchInput::OtherChange => {
                proof {
                    use_type_invariant(&*self);
                }
                Vec::new()
            },
            WatchInput::Timeout => self.flush(now),
        }
    }
}

/// Keeping part of a list of changes with distinct paths keeps them distinct.
proof fn lemma_waiting_distinct(p: Seq<PendingView>, now: u64)
    requires
        paths_distinct(p),
    ensures
        paths_distinct(waiting_of(p, now)),
        forall|x: PendingView| waiting_of(p, now).contains(x) ==> p.contains(x),
    decreases p.len(),
{
    if p.len() > 0 {
        let init = p.drop_last();
        assert(paths_distinct(init)) by {
            assert forall|i: int, j: int| 0 <= i < j < init.len() implies (#[trigger] init[i]).0 != (#[trigger] init[j]).0 by {
                assert(init[i] == p[i] && init[j] == p[j]);
            }
        }
        lemma_waiting_distinct(init, now);
        let w = waiting_of(init, now);
        assert forall|x: PendingView| waiting_of(p, now).contains(x) implies p.contains(x) by {
            if w.contains(x) {
                assert(init.contains(x));
                let k = choose|k: int| 0 <= k < init.len() && init[k] == x;
                assert(p[k] == x);
            } else {
                assert(x == p.last());
                assert(p[p.len() - 1] == x);
            }
        }
        if !is_due(p.last(), now) {
            let w2 = w.push(p.last());
            assert forall|i: int, j: int| 0 <= i < j < w2.len() implies (#[trigger] w2[i]).0 != (#[trigger] w2[j]).0 by {
                if j == w.len() {
                    assert(w[i] == w2[i]);
                    assert(w.contains(w2[i]));
                    assert(init.contains(w2[i]));
                    let k = choose|k: int| 0 <= k < init.len() && init[k] == w2[i];
                    assert(p[k] == init[k]);
                    assert(p[k].0 != p[p.len() - 1].0);
                }
            }
        }
    }
}

/// A flush splits the pending changes: every change is either reported or
/// kept, and none that is kept is due.
pub proof fn lemma_flush_partition(p: Seq<PendingView>, now: u64)
    ensures
        due_of(p, now).len() + waiting_of(p, now).len() == p.len(),
        forall|i: int| 0 <= i < waiting_of(p, now).len() ==> !is_due(#[trigger] waiting_of(p, now)[i], now),
        forall|i: int| 0 <= i < due_of(p, now).len() ==> is_due(#[trigger] due_of(p, now)[i], now),
    decreases p.len(),
{
    if p.len() > 0 {
        lemma_flush_partition(p.drop_last(), now);
        let w = waiting_of(p.drop_last(), now);
        let d = due_of(p.drop_last(), now);
        if is_due(p.last(), now) {
            assert forall|i: int| 0 <= i < d.push(p.last()).len() implies is_due(#[trigger] d.push(p.last())[i], now) by {
                if i < d.len() {
                    assert(d.push(p.last())[i] == d[i]);
                }
            }
        } else {
            assert forall|i: int| 0 <= i < w.push(p.last()).len() implies !is_due(#[trigger] w.push(p.last())[i], now) by {
                if i < w.len() {
                    assert(w.push(p.last())[i] == w[i]);
                }
            }
        }
    }
}

/// Every pending change is of a tracked note.
pub open spec fn all_tracked(p: Seq<PendingView>) -> bool {
    forall|i: int| 0 <= i < p.len() ==> is_tracked_note_path(#[trigger] p[i].0)
}

/// Only tracked notes are ever pending: observing keeps it so, and so does
/// a flush; so only tracked notes are reported.
pub proof fn lemma_only_tracked_notes(p: Seq<PendingView>, kind: ChangeKind, paths: Seq<Seq<char>>, t: u64, now: u64)
    requires
        all_tracked(p),
    ensures
        all_tracked(observe_paths(p, kind, paths, t)),
        all_tracked(waiting_of(p, now)),
        all_tracked(due_of(p, now)),
    decreases paths.len(),
{
    if paths.len() > 0 {
        let p2 = if is_tracked_note_path(paths[0]) {
            upsert(p, paths[0], kind, t)
        } else {
            p
        };
        assert(all_tracked(p2)) by {
            if is_tracked_note_path(paths[0]) {
                let k = pending_index(p, paths[0]);
                assert forall|i: int| 0 <= i < p2.len() implies is_tracked_note_path(#[trigger] p2[i].0) by {
                    if k >= 0 {
                        if i != k {
                            assert(p2[i] == p[i]);
                        }
                    } else if i < p.len() {
                        assert(p2[i] == p[i]);
                    }
                }
            }
        }
        lemma_only_tracked_notes(p2, kind, paths.drop_first(), t, now);
    }
    lemma_kept_tracked(p, now);
}

proof fn lemma_kept_tracked(p: Seq<PendingView>, now: u64)
    requires
        all_tracked(p),
    ensures
        all_tracked(waiting_of(p, now)),
        all_tracked(due_of(p, now)),
    decreases p.len(),
{
    if p.len() > 0 {
        assert(all_tracked(p.drop_last())) by {
            assert forall|i: int| 0 <= i < p.drop_last().len() implies is_tracked_note_path(#[trigger] p.drop_last()[i].0) by {
                assert(p.drop_last()[i] == p[i]);
            }
        }
        lemma_kept_tracked(p.drop_last(), now);
        assert(is_tracked_note_path(p[p.len() - 1].0));
        let w = waiting_of(p.drop_last(), now);
        let d = due_of(p.drop_last(), now);
        assert forall|i: int| 0 <= i < w.push(p.last()).len() implies is_tracked_note_path(#[trigger] w.push(p.last())[i].0) by {
            if i < w.len() {
                assert(w.push(p.last())[i] == w[i]);
            }
        }
        assert forall|i: int| 0 <= i < d.push(p.last()).len() implies is_tracked_note_path(#[trigger] d.push(p.last())[i].0) by {
            if i < d.len() {
                assert(d.push(p.last())[i] == d[i]);
            }
        }
    }
}

/// After a change is observed, each tracked note it names is pending with
/// the change's kind and time: a later change of a note replaces an earlier
/// one.
pub proof fn lemma_observed_change_pending(p: Seq<PendingView>, kind: ChangeKind, paths: Seq<Seq<char>>, t: u64)
    requires
        paths_distinct(p),
    ensures
        paths_distinct(observe_paths(p, kind, paths, t)),
        forall|q: int|
            0 <= q < paths.len() && is_tracked_note_path(#[trigger] paths[q]) ==> observe_paths(
                p,
                kind,
                paths,
                t,
            ).contains((paths[q], kind, t)),
        forall|c: PendingView|
            #[trigger] p.contains(c) && !paths.contains(c.0) ==> observe_paths(p, kind, paths, t).contains(c),
    decreases paths.len(),
{
    if paths.len() > 0 {
        let x = paths[0];
        let p2 = if is_tracked_note_path(x) {
            upsert(p, x, kind, t)
        } else {
            p
        };
        lemma_upsert(p, x, kind, t);
        let rest = paths.drop_first();
        lemma_observed_change_pending(p2, kind, rest, t);
        let r = observe_paths(p, kind, paths, t);
        assert(r == observe_paths(p2, kind, rest, t));
        assert forall|q: int| 0 <= q < paths.len() && is_tracked_note_path(#[trigger] paths[q]) implies r.contains((paths[q], kind, t)) by {
            if q > 0 {
                assert(rest[q - 1] == paths[q]);
            } else {
                // the first path is pending after the upsert, and later
                // changes of it set the same kind and time
                if rest.contains(x) {
                    let j = choose|j: int| 0 <= j < rest.len() && rest[j] == x;
                    assert(is_tracked_note_path(rest[j]));
                } else {
                    assert(p2.contains((x, kind, t)));
                }
            }
        }
        assert forall|c: PendingView| #[trigger] p.contains(c) && !paths.contains(c.0) implies r.contains(c) by {
            assert(c.0 != x) by {
                assert(paths[0] == x);
            }
            assert(p2.contains(c));
            if rest.contains(c.0) {
                let j = choose|j: int| 0 <= j < rest.len() && rest[j] == c.0;
                assert(paths[j + 1] == c.0);
            }
        }
    }
}

proof fn lemma_upsert(p: Seq<PendingView>, x: Seq<char>, kind: ChangeKind, t: u64)
    requires
        paths_distinct(p),
    ensures
        paths_distinct(upsert(p, x, kind, t)),
        upsert(p, x, kind, t).contains((x, kind, t)),
        forall|c: PendingView| #[trigger] p.contains(c) && c.0 != x ==> upsert(p, x, kind, t).contains(c),
{
    let u = upsert(p, x, kind, t);
    let k = pending_index(p, x);
    if k >= 0 {
        assert(u[k] == (x, kind, t));
        assert forall|a: int, b: int| 0 <= a < b < u.len() implies (#[trigger] u[a]).0 != (#[trigger] u[b]).0 by {
            assert(u[a].0 == p[a].0);
            assert(u[b].0 == p[b].0);
        }
        assert forall|c: PendingView| #[trigger] p.contains(c) && c.0 != x implies u.contains(c) by {
            let j = choose|j: int| 0 <= j < p.len() && p[j] == c;
            assert(j != k);
            assert(u[j] == c);
        }
    } else {
        assert(u[p.len() as int] == (x, kind, t));
        assert forall|a: int, b: int| 0 <= a < b < u.len() implies (#[trigger] u[a]).0 != (#[trigger] u[b]).0 by {
            if b == p.len() {
                assert(u[a] == p[a]);
                assert(!(0 <= a < p.len() && p[a].0 == x));
            } else {
                assert(u[a] == p[a] && u[b] == p[b]);
            }
        }
        assert forall|c: PendingView| #[trigger] p.contains(c) && c.0 != x implies u.contains(c) by {
            let j = choose|j: int| 0 <= j < p.len() && p[j] == c;
            assert(u[j] == c);
        }
    }
}

} // verus!
