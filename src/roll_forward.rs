//! Planning a roll-forward of a live dataset to one of its snapshots.
use vstd::prelude::*;
use crate::path::{FsPath, is_prefix, paths_view, str_eq, lemma_paths_push};
use crate::diff::{DiffEvent, DiffType, DiffKind, EventView, events_view, depth_order, depth_order_of};
use crate::hard_links::contains_path;
use crate::text::find_char;
use crate::mounts::ProcMount;

verus! {

/// The hidden directory under a ZFS mount that holds its snapshots, as two components.
pub open spec fn snap_dir() -> Seq<Seq<char>> {
    seq![seq!['.', 'z', 'f', 's'], seq!['s', 'n', 'a', 'p', 's', 'h', 'o', 't']]
}

/// The root of snapshot `snap` of the dataset mounted at `mount`.
pub open spec fn snap_root(mount: Seq<Seq<char>>, snap: Seq<char>) -> Seq<Seq<char>> {
    mount + snap_dir().push(snap)
}

/// The snapshot copy of live path `p`, where `p` lies in the dataset.
pub open spec fn snap_of(mount: Seq<Seq<char>>, snap: Seq<char>, p: Seq<Seq<char>>) -> Option<
    Seq<Seq<char>>,
> {
    if is_prefix(mount, p) {
        Some(snap_root(mount, snap) + p.skip(mount.len() as int))
    } else {
        None
    }
}

/// The live path of snapshot path `p`, where `p` lies in the snapshot.
pub open spec fn live_of(mount: Seq<Seq<char>>, snap: Seq<char>, p: Seq<Seq<char>>) -> Option<
    Seq<Seq<char>>,
> {
    if is_prefix(snap_root(mount, snap), p) {
        Some(mount + p.skip(mount.len() + 3int))
    } else {
        None
    }
}

/// Going from a live path to its snapshot copy and back gives the live path again.
pub proof fn lemma_snap_live_round_trip(mount: Seq<Seq<char>>, snap: Seq<char>, p: Seq<Seq<char>>)
    requires
        is_prefix(mount, p),
    ensures
        snap_of(mount, snap, p) is Some,
        live_of(mount, snap, snap_of(mount, snap, p)->0) == Some(p),
{
    let s = snap_of(mount, snap, p)->0;
    let root = snap_root(mount, snap);
    assert(s.take(root.len() as int) =~= root);
    assert(mount + s.skip(mount.len() + 3int) =~= p) by {
        assert(s.skip(mount.len() + 3int) =~= p.skip(mount.len() as int));
        assert(p.take(mount.len() as int) == mount);
    }
}

/// The dataset and the snapshot that a roll-forward works on.
pub struct RollForward {
    pub dataset_name: String,
    pub snap_name: String,
    pub proximate_dataset_mount: FsPath,
}

/// Why a roll-forward could not be set up.
#[derive(Debug, Clone, Copy, PartialEq, Eq, Structural)]
pub enum RollForwardError {
    /// The name holds no `@` between dataset and snapshot.
    NoSnapSeparator,
    /// No mounted dataset has the named source.
    UnknownDataset,
}

/// The parts of `s` before and after its first `c`.
pub open spec fn split_at(s: Seq<char>, c: char) -> Option<(Seq<char>, Seq<char>)> {
    if s.contains(c) {
        let i = choose|i: int| 0 <= i < s.len() && s[i] == c && forall|k: int| 0 <= k < i ==> s[k] != c;
        Some((s.take(i), s.skip(i + 1)))
    } else {
        None
    }
}

/// The parts of `s` before and after its first `@`.
pub open spec fn split_at_sign(s: Seq<char>) -> Option<(Seq<char>, Seq<char>)> {
    split_at(s, '@')
}

pub open spec fn pair_view(p: (String, String)) -> (Seq<char>, Seq<char>) {
    (p.0@, p.1@)
}

/// Splits `dataset@snap` at its first `@`.
pub fn split_snap_name(full: &str) -> (r: Option<(String, String)>)
    ensures
        r is Some <==> split_at_sign(full@) is Some,
        r is Some ==> split_at_sign(full@) == Some(pair_view(r->0)),
{
    split_at_char(full, '@')
}

/// Splits `full` at its first `c`.
pub fn split_at_char(full: &str, c: char) -> (r: Option<(String, String)>)
    ensures
        r is Some <==> split_at(full@, c) is Some,
        r is Some ==> split_at(full@, c) == Some(pair_view(r->0)),
{
    match find_char(full, c) {
        None => None,
        Some(at) => {
            let ghost i = choose|i: int|
                0 <= i < full@.len() && full@[i] == c && forall|k: int| 0 <= k < i ==> full@[k] != c;
            proof {
                assert(full@.contains(c));
                if i < at {
                    assert(full@[i] != c);
                }
                if at < i {
                    assert(full@[at as int] != c);
                }
            }
            let n = full.unicode_len();
            let a = String::from_str(full.substring_char(0, at));
            let b = String::from_str(full.substring_char(at + 1, n));
            proof {
                assert(a@ =~= full@.take(at as int));
                assert(b@ =~= full@.skip(at + 1));
            }
            Some((a, b))
        },
    }
}

/// Whether `m` is the mount of a dataset named `dataset`.
pub open spec fn mount_named(m: ProcMount, dataset: Seq<char>) -> bool {
    m.dataset@ == dataset
}

impl RollForward {
    /// Sets up a roll-forward to `full_snap_name` (`dataset@snap`), finding the dataset's mount
    /// among `mounts`: the first whose source is the dataset.
    pub fn new(full_snap_name: &str, mounts: &Vec<ProcMount>) -> (r: Result<RollForward, RollForwardError>)
        ensures
            split_at_sign(full_snap_name@) is None ==> r == Err::<RollForward, _>(
                RollForwardError::NoSnapSeparator,
            ),
            split_at_sign(full_snap_name@) is Some ==> ({
                let (d, s) = split_at_sign(full_snap_name@)->0;
                &&& (forall|i: int| 0 <= i < mounts@.len() ==> !mount_named(#[trigger] mounts@[i], d))
                    ==> r == Err::<RollForward, _>(RollForwardError::UnknownDataset)
                &&& (exists|i: int| 0 <= i < mounts@.len() && mount_named(#[trigger] mounts@[i], d)) ==> ({
                    &&& r is Ok
                    &&& r->Ok_0.dataset_name@ == d
                    &&& r->Ok_0.snap_name@ == s
                    &&& exists|i: int|
                        0 <= i < mounts@.len() && mount_named(#[trigger] mounts@[i], d)
                            && r->Ok_0.proximate_dataset_mount@ == mounts@[i].mount_point@ && forall|j: int|
                            0 <= j < i ==> !mount_named(#[trigger] mounts@[j], d)
                })
            }),
    {
        let (dataset_name, snap_name) = match split_snap_name(full_snap_name) {
            None => return Err(RollForwardError::NoSnapSeparator),
            Some(parts) => parts,
        };
        let mut i: usize = 0;
        while i < mounts.len()
            invariant
                i <= mounts@.len(),
                split_at_sign(full_snap_name@) == Some((dataset_name@, snap_name@)),
                forall|j: int| 0 <= j < i ==> !mount_named(#[trigger] mounts@[j], dataset_name@),
            decreases mounts@.len() - i,
        {
            if str_eq(mounts[i].dataset.as_str(), dataset_name.as_str()) {
                let proximate_dataset_mount = mounts[i].mount_point.copy();
                proof {
                    assert(mount_named(mounts@[i as int], dataset_name@));
                }
                return Ok(RollForward { dataset_name, snap_name, proximate_dataset_mount });
            }
            i = i + 1;
        }
        Err(RollForwardError::UnknownDataset)
    }
}

/// Why a `zfs diff` stream gave nothing to roll forward.
#[derive(Debug, Clone, Copy, PartialEq, Eq, Structural)]
pub enum DiffStreamError {
    /// No events and nothing on stderr: the dataset has not changed since the snapshot.
    NoChanges,
    /// No events, and the command reported an error on stderr.
    CommandFailed,
}

/// What an empty or non-empty `zfs diff` stream means: events go on to be applied; an empty
/// stream is "no changes" when stderr is empty, and a failure of the command otherwise.
pub fn diff_stream_status(has_events: bool, stderr_text: &str) -> (r: Result<(), DiffStreamError>)
    ensures
        has_events ==> r is Ok,
        !has_events && stderr_text@.len() == 0 ==> r == Err::<(), _>(DiffStreamError::NoChanges),
        !has_events && stderr_text@.len() > 0 ==> r == Err::<(), _>(DiffStreamError::CommandFailed),
{
    if has_events {
        Ok(())
    } else if stderr_text.unicode_len() == 0 {
        Err(DiffStreamError::NoChanges)
    } else {
        Err(DiffStreamError::CommandFailed)
    }
}

/// Which precautionary snapshot is taken: before a roll-forward, or after one to the named
/// snapshot.
pub enum PrecautionarySnapType {
    PreRollForward,
    PostRollForward(String),
}

pub open spec fn guard_word() -> Seq<char> {
    seq!['h', 't', 't', 'm', 'S', 'n', 'a', 'p', 'G', 'u', 'a', 'r', 'd']
}

/// The name of a guard snapshot: `<dataset>@httmSnapGuard-<timestamp>-pre` before, and
/// `...-post-<snap>` after a roll-forward to `snap`.
pub open spec fn guard_name_spec(dataset: Seq<char>, timestamp: Seq<char>, after: Option<Seq<char>>) -> Seq<
    char,
> {
    let base = dataset + seq!['@'] + guard_word() + seq!['-'] + timestamp + seq!['-'];
    match after {
        None => base + seq!['p', 'r', 'e'],
        Some(snap) => base + seq!['p', 'o', 's', 't', '-'] + snap,
    }
}

/// The name of the guard snapshot of `dataset` taken at `timestamp`.
pub fn guard_snapshot_name(dataset: &str, timestamp: &str, kind: &PrecautionarySnapType) -> (r: String)
    ensures
        r@ == guard_name_spec(
            dataset@,
            timestamp@,
            match kind {
                PrecautionarySnapType::PreRollForward => None,
                PrecautionarySnapType::PostRollForward(s) => Some(s@),
            },
        ),
{
    proof {
        reveal_strlit("@httmSnapGuard-");
        reveal_strlit("-");
        reveal_strlit("pre");
        reveal_strlit("post-");
    }
    let mut r = String::from_str(dataset);
    r.append("@httmSnapGuard-");
    r.append(timestamp);
    r.append("-");
    match kind {
        PrecautionarySnapType::PreRollForward => {
            r.append("pre");
        },
        PrecautionarySnapType::PostRollForward(snap) => {
            r.append("post-");
            r.append(snap.as_str());
        },
    }
    proof {
        assert("@httmSnapGuard-"@ =~= seq!['@'] + guard_word() + seq!['-']);
        assert(r@ =~= guard_name_spec(
            dataset@,
            timestamp@,
            match kind {
                PrecautionarySnapType::PreRollForward => None,
                PrecautionarySnapType::PostRollForward(s) => Some(s@),
            },
        ));
    }
    r
}

/// What roll-forward does to one live path.
pub enum Action {
    /// Copy the snapshot version over the live path.
    Copy { live: FsPath, snap: FsPath },
    /// Copy the snapshot version where it exists; else remove the live path.
    OverwriteOrRemove { live: FsPath, snap: FsPath },
    /// Copy the snapshot version only where it exists.
    CopyIfPresent { live: FsPath, snap: FsPath },
}

/// An action as a value: its tag (0 copy, 1 overwrite-or-remove, 2 copy-if-present), the live
/// path and the snapshot path.
pub open spec fn action_view(a: Action) -> (nat, Seq<Seq<char>>, Seq<Seq<char>>) {
    match a {
        Action::Copy { live, snap } => (0, live@, snap@),
        Action::OverwriteOrRemove { live, snap } => (1, live@, snap@),
        Action::CopyIfPresent { live, snap } => (2, live@, snap@),
    }
}

/// The views of a sequence of actions.
pub open spec fn actions_view(v: Seq<Action>) -> Seq<(nat, Seq<Seq<char>>, Seq<Seq<char>>)> {
    v.map_values(|a: Action| action_view(a))
}

/// The actions that undo event `e` of a dataset mounted at `mount`, rolled to `snap`: a
/// removal or a change is copied back; a creation is overwritten or removed; a rename has its
/// new name overwritten or removed, then its old name copied back where the snapshot has it.
/// `None` where a path lies outside the dataset.
pub open spec fn plan_spec(
    mount: Seq<Seq<char>>,
    snap: Seq<char>,
    path: Seq<Seq<char>>,
    kind: DiffKind,
) -> Option<Seq<(nat, Seq<Seq<char>>, Seq<Seq<char>>)>> {
    match snap_of(mount, snap, path) {
        None => None,
        Some(sp) => match kind {
            DiffKind::Removed => Some(seq![(0nat, path, sp)]),
            DiffKind::Modified => Some(seq![(0nat, path, sp)]),
            DiffKind::Created => Some(seq![(1nat, path, sp)]),
            DiffKind::Renamed(np) => match snap_of(mount, snap, np) {
                None => None,
                Some(snp) => Some(seq![(1nat, np, snp), (2nat, path, sp)]),
            },
        },
    }
}

impl RollForward {
    /// The root of the snapshot rolled to.
    pub fn snap_dataset(&self) -> (r: FsPath)
        ensures
            r@ == snap_root(self.proximate_dataset_mount@, self.snap_name@),
    {
        proof {
            reveal_strlit(".zfs");
            reveal_strlit("snapshot");
        }
        let a = self.proximate_dataset_mount.child(".zfs");
        let b = a.child("snapshot");
        let r = b.child(self.snap_name.as_str());
        proof {
            assert(".zfs"@ =~= seq!['.', 'z', 'f', 's']);
            assert("snapshot"@ =~= seq!['s', 'n', 'a', 'p', 's', 'h', 'o', 't']);
            assert(r@ =~= snap_root(self.proximate_dataset_mount@, self.snap_name@));
        }
        r
    }

    /// The snapshot copy of live path `p`.
    pub fn snap_path(&self, p: &FsPath) -> (r: Option<FsPath>)
        ensures
            r is Some <==> snap_of(self.proximate_dataset_mount@, self.snap_name@, p@) is Some,
            r is Some ==> r->0@ == snap_of(self.proximate_dataset_mount@, self.snap_name@, p@)->0,
    {
        match p.strip_prefix(&self.proximate_dataset_mount) {
            None => None,
            Some(rel) => {
                let root = self.snap_dataset();
                Some(root.join(&rel))
            },
        }
    }

    /// The live path of snapshot path `p`.
    pub fn live_path(&self, p: &FsPath) -> (r: Option<FsPath>)
        ensures
            r is Some <==> live_of(self.proximate_dataset_mount@, self.snap_name@, p@) is Some,
            r is Some ==> r->0@ == live_of(self.proximate_dataset_mount@, self.snap_name@, p@)->0,
    {
        let root = self.snap_dataset();
        match p.strip_prefix(&root) {
            None => None,
            Some(rel) => {
                let r = self.proximate_dataset_mount.join(&rel);
                proof {
                    assert(p@.skip(root@.len() as int) =~= p@.skip(
                        self.proximate_dataset_mount@.len() + 3int,
                    ));
                }
                Some(r)
            },
        }
    }

    /// The actions that undo `event`.
    pub fn plan_event(&self, event: &DiffEvent) -> (r: Option<Vec<Action>>)
        ensures
            r is Some <==> plan_spec(
                self.proximate_dataset_mount@,
                self.snap_name@,
                event.path@,
                event.diff_type@,
            ) is Some,
            r is Some ==> actions_view(r->0@) == plan_spec(
                self.proximate_dataset_mount@,
                self.snap_name@,
                event.path@,
                event.diff_type@,
            )->0,
    {
        let sp = match self.snap_path(&event.path) {
            None => return None,
            Some(sp) => sp,
        };
        let mut out: Vec<Action> = Vec::new();
        match &event.diff_type {
            DiffType::Removed | DiffType::Modified => {
                out.push(Action::Copy { live: event.path.copy(), snap: sp });
            },
            DiffType::Created => {
                out.push(Action::OverwriteOrRemove { live: event.path.copy(), snap: sp });
            },
            DiffType::Renamed(np) => {
                let snp = match self.snap_path(np) {
                    None => return None,
                    Some(x) => x,
                };
                out.push(Action::OverwriteOrRemove { live: np.copy(), snap: snp });
                out.push(Action::CopyIfPresent { live: event.path.copy(), snap: sp });
            },
        }
        proof {
            assert(actions_view(out@) =~= plan_spec(
                self.proximate_dataset_mount@,
                self.snap_name@,
                event.path@,
                event.diff_type@,
            )->0);
        }
        Some(out)
    }
}

/// Whether event `e` is left to the hard-link stage: its path, or the new name of a rename, is
/// excluded.
pub open spec fn excluded_event(e: EventView, excl: Seq<Seq<Seq<char>>>) -> bool {
    excl.contains(e.path) || match e.kind {
        DiffKind::Renamed(np) => excl.contains(np),
        _ => false,
    }
}

/// The actions for the events at `order[..n]`, skipping excluded ones; `None` where a path lies
/// outside the dataset.
pub open spec fn plan_all_spec(
    mount: Seq<Seq<char>>,
    snap: Seq<char>,
    ev: Seq<EventView>,
    order: Seq<usize>,
    excl: Seq<Seq<Seq<char>>>,
    n: nat,
) -> Option<Seq<(nat, Seq<Seq<char>>, Seq<Seq<char>>)>>
    decreases n,
{
    if n == 0 {
        Some(Seq::empty())
    } else {
        match plan_all_spec(mount, snap, ev, order, excl, (n - 1) as nat) {
            None => None,
            Some(acc) => {
                let e = ev[order[n - 1] as int];
                if excluded_event(e, excl) {
                    Some(acc)
                } else {
                    match plan_spec(mount, snap, e.path, e.kind) {
                        None => None,
                        Some(more) => Some(acc + more),
                    }
                }
            },
        }
    }
}

impl RollForward {
    /// The actions that undo `events`, taken in `order`, leaving out those whose path (or new
    /// name) the hard-link stage handles.
    pub fn plan_events(
        &self,
        events: &Vec<DiffEvent>,
        order: &Vec<usize>,
        excluded: &Vec<FsPath>,
    ) -> (r: Option<Vec<Action>>)
        requires
            forall|k: int| 0 <= k < order@.len() ==> #[trigger] order@[k] < events@.len(),
        ensures
            r is Some <==> plan_all_spec(
                self.proximate_dataset_mount@,
                self.snap_name@,
                events_view(events@),
                order@,
                paths_view(excluded@),
                order@.len() as nat,
            ) is Some,
            r is Some ==> Some(actions_view(r->0@)) == plan_all_spec(
                self.proximate_dataset_mount@,
                self.snap_name@,
                events_view(events@),
                order@,
                paths_view(excluded@),
                order@.len() as nat,
            ),
    {
        let ghost ev = events_view(events@);
        let ghost ex = paths_view(excluded@);
        let mut out: Vec<Action> = Vec::new();
        let mut k: usize = 0;
        proof {
            assert(actions_view(out@) =~= Seq::<(nat, Seq<Seq<char>>, Seq<Seq<char>>)>::empty());
        }
        while k < order.len()
            invariant
                k <= order@.len(),
                forall|j: int| 0 <= j < order@.len() ==> #[trigger] order@[j] < events@.len(),
                ev == events_view(events@),
                ex == paths_view(excluded@),
                plan_all_spec(self.proximate_dataset_mount@, self.snap_name@, ev, order@, ex, k as nat)
                    == Some(actions_view(out@)),
            decreases order@.len() - k,
        {
            let e = &events[order[k]];
            proof {
                assert(ev[order@[k as int] as int] == e@);
            }
            let skip = contains_path(excluded, &e.path) || match &e.diff_type {
                DiffType::Renamed(np) => contains_path(excluded, np),
                _ => false,
            };
            if !skip {
                match self.plan_event(e) {
                    None => {
                        proof {
                            lemma_plan_all_none(
                                self.proximate_dataset_mount@,
                                self.snap_name@,
                                ev,
                                order@,
                                ex,
                                k as nat + 1,
                                order@.len() as nat,
                            );
                        }
                        return None;
                    },
                    Some(more) => {
                        let ghost before = actions_view(out@);
                        let mut more = more;
                        let ghost mv = actions_view(more@);
                        out.append(&mut more);
                        proof {
                            assert(actions_view(out@) =~= before + mv);
                        }
                    },
                }
            }
            k = k + 1;
        }
        Some(out)
    }
}

proof fn lemma_plan_all_none(
    mount: Seq<Seq<char>>,
    snap: Seq<char>,
    ev: Seq<EventView>,
    order: Seq<usize>,
    excl: Seq<Seq<Seq<char>>>,
    k: nat,
    n: nat,
)
    requires
        k <= n,
        plan_all_spec(mount, snap, ev, order, excl, k) is None,
    ensures
        plan_all_spec(mount, snap, ev, order, excl, n) is None,
    decreases n - k,
{
    if k < n {
        lemma_plan_all_none(mount, snap, ev, order, excl, k + 1, n);
    }
}

/// The live path that an action changes.
pub open spec fn action_target(a: Action) -> Seq<Seq<char>> {
    action_view(a).1
}

/// The live paths that a sequence of actions changes.
pub open spec fn action_targets(v: Seq<Action>) -> Seq<Seq<Seq<char>>> {
    v.map_values(|a: Action| action_target(a))
}

/// The order in which to carry out `actions`: every index once, the deepest live path first, so
/// that no action changes a directory before every action on what lies below it.
pub fn action_order(actions: &Vec<Action>) -> (r: Vec<usize>)
    ensures
        depth_order(action_targets(actions@), r@),
        forall|a: int, b: int|
            0 <= a < b < r@.len() ==> !(is_prefix(
                action_targets(actions@)[r@[a] as int],
                action_targets(actions@)[r@[b] as int],
            ) && action_targets(actions@)[r@[a] as int] != action_targets(actions@)[r@[b] as int]),
{
    let ghost tv = action_targets(actions@);
    let mut paths: Vec<FsPath> = Vec::new();
    let mut i: usize = 0;
    while i < actions.len()
        invariant
            i <= actions@.len(),
            tv == action_targets(actions@),
            paths_view(paths@) == tv.take(i as int),
        decreases actions@.len() - i,
    {
        let c = match &actions[i] {
            Action::Copy { live, .. } => live.copy(),
            Action::OverwriteOrRemove { live, .. } => live.copy(),
            Action::CopyIfPresent { live, .. } => live.copy(),
        };
        let ghost prev = paths@;
        paths.push(c);
        proof {
            lemma_paths_push(prev, c);
            assert(tv[i as int] == c@);
            assert(tv.take(i + 1) =~= tv.take(i as int).push(c@));
        }
        i = i + 1;
    }
    proof {
        assert(tv.take(i as int) =~= tv);
    }
    depth_order_of(&paths)
}

} // verus!
