//! The mount topology and the resolution of a live path to its dataset and snapshot roots.
use vstd::prelude::*;
use crate::path::{FsPath, is_prefix, paths_view, lemma_paths_push};

verus! {

/// The kind of a copy-on-write filesystem.
#[derive(Debug, Clone, Copy, PartialEq, Eq, Structural)]
pub enum FilesystemType {
    Zfs,
    Btrfs,
}

/// A mounted dataset, with the roots of its snapshots.
pub struct MountRecord {
    pub mount_point: FsPath,
    pub source: String,
    pub fs_type: FilesystemType,
    pub snap_roots: Vec<FsPath>,
}

/// A mounted dataset as a value.
pub struct MountView {
    pub mount_point: Seq<Seq<char>>,
    pub source: Seq<char>,
    pub fs_type: FilesystemType,
    pub snap_roots: Seq<Seq<Seq<char>>>,
}

impl View for MountRecord {
    type V = MountView;

    open spec fn view(&self) -> MountView {
        MountView {
            mount_point: self.mount_point@,
            source: self.source@,
            fs_type: self.fs_type,
            snap_roots: paths_view(self.snap_roots@),
        }
    }
}

/// A local directory that stands for a directory of a dataset.
pub struct Alias {
    pub local_dir: FsPath,
    pub remote_dir: FsPath,
}

/// The topology: mounted datasets, unique on their mount points, and aliases.
pub struct FilesystemInfo {
    pub mounts: Vec<MountRecord>,
    pub aliases: Vec<Alias>,
}

/// The views of a sequence of mount records.
pub open spec fn mounts_view(v: Seq<MountRecord>) -> Seq<MountView> {
    v.map_values(|m: MountRecord| m@)
}

pub open spec fn aliases_view(v: Seq<Alias>) -> Seq<(Seq<Seq<char>>, Seq<Seq<char>>)> {
    v.map_values(|a: Alias| (a.local_dir@, a.remote_dir@))
}

/// No two datasets share a mount point.
pub open spec fn unique_mounts(ms: Seq<MountView>) -> bool {
    forall|i: int, j: int|
        0 <= i < ms.len() && 0 <= j < ms.len() && i != j ==> ms[i].mount_point != ms[j].mount_point
}

/// No remote directory lies within or above a local directory, so that a rewritten path is
/// never rewritten again.
pub open spec fn aliases_disjoint(al: Seq<(Seq<Seq<char>>, Seq<Seq<char>>)>) -> bool {
    forall|i: int, j: int|
        0 <= i < al.len() && 0 <= j < al.len() ==> !is_prefix(al[j].0, al[i].1) && !is_prefix(
            al[i].1,
            al[j].0,
        )
}

/// The path that `p` stands for: under the first alias whose local directory holds it, the
/// remote directory followed by the rest of `p`; else `p`.
pub open spec fn alias_applied(al: Seq<(Seq<Seq<char>>, Seq<Seq<char>>)>, p: Seq<Seq<char>>) -> Seq<
    Seq<char>,
>
    decreases al.len(),
{
    if al.len() == 0 {
        p
    } else if is_prefix(al[0].0, p) {
        al[0].1 + p.skip(al[0].0.len() as int)
    } else {
        alias_applied(al.drop_first(), p)
    }
}

/// Whether dataset `i` is the proximate dataset of `q`: its mount point is the longest that is
/// an ancestor of `q` or `q` itself.
pub open spec fn is_proximate(ms: Seq<MountView>, q: Seq<Seq<char>>, i: int) -> bool {
    &&& 0 <= i < ms.len()
    &&& is_prefix(ms[i].mount_point, q)
    &&& forall|j: int|
        0 <= j < ms.len() && is_prefix(#[trigger] ms[j].mount_point, q) ==> ms[j].mount_point.len()
            <= ms[i].mount_point.len()
}

/// Whether some dataset holds `q`.
pub open spec fn under_some(ms: Seq<MountView>, q: Seq<Seq<char>>) -> bool {
    exists|j: int| 0 <= j < ms.len() && is_prefix(#[trigger] ms[j].mount_point, q)
}

/// A path resolved against the topology.
pub struct Resolution {
    pub proximate_mount: FsPath,
    pub relative: FsPath,
    pub snap_mounts: Vec<FsPath>,
}

/// A resolved path as a value.
pub struct ResolutionView {
    pub proximate_mount: Seq<Seq<char>>,
    pub relative: Seq<Seq<char>>,
    pub snap_mounts: Seq<Seq<Seq<char>>>,
}

impl View for Resolution {
    type V = ResolutionView;

    open spec fn view(&self) -> ResolutionView {
        ResolutionView {
            proximate_mount: self.proximate_mount@,
            relative: self.relative@,
            snap_mounts: paths_view(self.snap_mounts@),
        }
    }
}

/// Why a path could not be resolved.
#[derive(Debug, Clone, Copy, PartialEq, Eq, Structural)]
pub enum ResolveError {
    /// No dataset's mount point is an ancestor of the path.
    NotUnderKnownDataset,
}

/// What resolving `p` gives: the proximate dataset of the aliased path, the rest of that path
/// below it, and the dataset's snapshot roots.
pub open spec fn resolve_spec(ms: Seq<MountView>, al: Seq<(Seq<Seq<char>>, Seq<Seq<char>>)>, p: Seq<
    Seq<char>,
>) -> Option<ResolutionView> {
    let q = alias_applied(al, p);
    if under_some(ms, q) {
        let i = choose|i: int| is_proximate(ms, q, i);
        Some(
            ResolutionView {
                proximate_mount: ms[i].mount_point,
                relative: q.skip(ms[i].mount_point.len() as int),
                snap_mounts: ms[i].snap_roots,
            },
        )
    } else {
        None
    }
}

/// Two proximate datasets of one path are the same dataset.
pub proof fn lemma_proximate_unique(ms: Seq<MountView>, q: Seq<Seq<char>>, i: int, j: int)
    requires
        unique_mounts(ms),
        is_proximate(ms, q, i),
        is_proximate(ms, q, j),
    ensures
        i == j,
{
    assert(ms[i].mount_point.len() == ms[j].mount_point.len());
    assert(ms[i].mount_point =~= q.take(ms[i].mount_point.len() as int));
    assert(ms[j].mount_point =~= q.take(ms[j].mount_point.len() as int));
}

/// A path that some dataset holds has a proximate dataset.
pub proof fn lemma_proximate_exists(ms: Seq<MountView>, q: Seq<Seq<char>>)
    requires
        under_some(ms, q),
    ensures
        exists|i: int| is_proximate(ms, q, i),
{
    let j0 = choose|j: int| 0 <= j < ms.len() && is_prefix(#[trigger] ms[j].mount_point, q);
    lemma_max_prefix(ms, q, j0, 0);
}

proof fn lemma_max_prefix(ms: Seq<MountView>, q: Seq<Seq<char>>, best: int, k: int)
    requires
        0 <= best < ms.len(),
        0 <= k <= ms.len(),
        is_prefix(ms[best].mount_point, q),
        forall|j: int|
            0 <= j < k && is_prefix(#[trigger] ms[j].mount_point, q) ==> ms[j].mount_point.len()
                <= ms[best].mount_point.len(),
    ensures
        exists|i: int| is_proximate(ms, q, i),
    decreases ms.len() - k,
{
    if k == ms.len() {
        assert(is_proximate(ms, q, best));
    } else if is_prefix(ms[k].mount_point, q) && ms[k].mount_point.len() > ms[best].mount_point.len() {
        lemma_max_prefix(ms, q, k, k + 1);
    } else {
        lemma_max_prefix(ms, q, best, k + 1);
    }
}

/// Under disjoint aliases, a path that aliasing gave is left as it is.
pub proof fn lemma_alias_stable(al: Seq<(Seq<Seq<char>>, Seq<Seq<char>>)>, p: Seq<Seq<char>>)
    requires
        aliases_disjoint(al),
    ensures
        alias_applied(al, alias_applied(al, p)) == alias_applied(al, p),
{
    lemma_alias_cases(al, p);
    let q = alias_applied(al, p);
    if exists|i: int| 0 <= i < al.len() && is_prefix(al[i].1, q) {
        let i = choose|i: int| 0 <= i < al.len() && is_prefix(al[i].1, q);
        lemma_not_under_local(al, q, i);
    }
    lemma_alias_none(al, q);
}

/// Aliasing either leaves `p` as it is, or puts it under some remote directory.
proof fn lemma_alias_cases(al: Seq<(Seq<Seq<char>>, Seq<Seq<char>>)>, p: Seq<Seq<char>>)
    ensures
        alias_applied(al, p) == p && (forall|j: int|
            0 <= j < al.len() ==> !is_prefix(#[trigger] al[j].0, p)) || exists|i: int|
            0 <= i < al.len() && is_prefix(al[i].1, alias_applied(al, p)),
    decreases al.len(),
{
    if al.len() > 0 {
        lemma_alias_cases(al.drop_first(), p);
        if is_prefix(al[0].0, p) {
            let q = alias_applied(al, p);
            assert(q.take(al[0].1.len() as int) =~= al[0].1);
            assert(is_prefix(al[0].1, q));
        } else {
            let rest = al.drop_first();
            if alias_applied(rest, p) == p && (forall|j: int|
                0 <= j < rest.len() ==> !is_prefix(#[trigger] rest[j].0, p)) {
                assert forall|j: int| 0 <= j < al.len() implies !is_prefix(#[trigger] al[j].0, p) by {
                    if j > 0 {
                        assert(al[j] == rest[j - 1]);
                    }
                }
            } else {
                let i = choose|i: int| 0 <= i < rest.len() && is_prefix(rest[i].1, alias_applied(rest, p));
                assert(al[i + 1] == rest[i]);
            }
        }
    }
}

/// A path under a remote directory is under no local directory.
proof fn lemma_not_under_local(al: Seq<(Seq<Seq<char>>, Seq<Seq<char>>)>, q: Seq<Seq<char>>, i: int)
    requires
        aliases_disjoint(al),
        0 <= i < al.len(),
        is_prefix(al[i].1, q),
    ensures
        forall|j: int| 0 <= j < al.len() ==> !is_prefix(#[trigger] al[j].0, q),
{
    assert forall|j: int| 0 <= j < al.len() implies !is_prefix(#[trigger] al[j].0, q) by {
        let l = al[j].0;
        let r = al[i].1;
        if is_prefix(l, q) {
            if l.len() <= r.len() {
                assert(r.take(l.len() as int) =~= q.take(l.len() as int));
                assert(is_prefix(l, r));
            } else {
                assert(l.take(r.len() as int) =~= q.take(r.len() as int));
                assert(is_prefix(r, l));
            }
        }
    }
}

/// A path under no local directory is left as it is.
proof fn lemma_alias_none(al: Seq<(Seq<Seq<char>>, Seq<Seq<char>>)>, q: Seq<Seq<char>>)
    requires
        forall|j: int| 0 <= j < al.len() ==> !is_prefix(#[trigger] al[j].0, q),
    ensures
        alias_applied(al, q) == q,
    decreases al.len(),
{
    if al.len() > 0 {
        assert(!is_prefix(al[0].0, q));
        let rest = al.drop_first();
        assert forall|j: int| 0 <= j < rest.len() implies !is_prefix(#[trigger] rest[j].0, q) by {
            assert(rest[j] == al[j + 1]);
        }
        lemma_alias_none(rest, q);
    }
}

/// Resolving the proximate mount joined with the relative path gives the same resolution as
/// resolving the original path.
pub proof fn lemma_proximate_idempotent(
    ms: Seq<MountView>,
    al: Seq<(Seq<Seq<char>>, Seq<Seq<char>>)>,
    p: Seq<Seq<char>>,
)
    requires
        unique_mounts(ms),
        aliases_disjoint(al),
        resolve_spec(ms, al, p) is Some,
    ensures
        ({
            let r = resolve_spec(ms, al, p)->0;
            resolve_spec(ms, al, r.proximate_mount + r.relative) == Some(r)
        }),
{
    let q = alias_applied(al, p);
    let i = choose|i: int| is_proximate(ms, q, i);
    lemma_proximate_exists(ms, q);
    let r = resolve_spec(ms, al, p)->0;
    assert(r.proximate_mount + r.relative =~= q) by {
        assert(q.take(ms[i].mount_point.len() as int) == ms[i].mount_point);
    }
    lemma_alias_stable(al, p);
}

/// The places where other datasets of the same filesystem type would hold the relative path
/// `rel` of dataset `i`: the dataset itself first, then each other one of that type, in order.
pub open spec fn alt_candidates(ms: Seq<MountView>, i: int, rel: Seq<Seq<char>>, upto: int) -> Seq<
    Seq<Seq<char>>,
>
    decreases upto,
{
    if upto <= 0 {
        seq![ms[i].mount_point + rel]
    } else if upto - 1 != i && ms[upto - 1].fs_type == ms[i].fs_type {
        alt_candidates(ms, i, rel, upto - 1).push(ms[upto - 1].mount_point + rel)
    } else {
        alt_candidates(ms, i, rel, upto - 1)
    }
}

impl FilesystemInfo {
    /// The paths at which the datasets of the same type as dataset `i` would hold `rel`; the
    /// caller keeps those that exist.
    pub fn alt_replicated(&self, i: usize, rel: &FsPath) -> (r: Vec<FsPath>)
        requires
            i < self.mounts@.len(),
        ensures
            paths_view(r@) == alt_candidates(mounts_view(self.mounts@), i as int, rel@, self.mounts@.len() as int),
    {
        let ghost ms = mounts_view(self.mounts@);
        let first = self.mounts[i].mount_point.join(rel);
        let mut out: Vec<FsPath> = Vec::new();
        let ghost empty = out@;
        out.push(first);
        proof {
            lemma_paths_push(empty, first);
            assert(paths_view(empty) =~= Seq::<Seq<Seq<char>>>::empty());
            assert(paths_view(out@) =~= alt_candidates(ms, i as int, rel@, 0));
        }
        let mut k: usize = 0;
        while k < self.mounts.len()
            invariant
                i < self.mounts@.len(),
                k <= self.mounts@.len(),
                ms == mounts_view(self.mounts@),
                paths_view(out@) == alt_candidates(ms, i as int, rel@, k as int),
            decreases self.mounts@.len() - k,
        {
            proof {
                assert(ms[k as int] == self.mounts@[k as int]@);
                assert(ms[i as int] == self.mounts@[i as int]@);
            }
            if k != i && self.mounts[k].fs_type == self.mounts[i].fs_type {
                let c = self.mounts[k].mount_point.join(rel);
                let ghost prev = out@;
                out.push(c);
                proof {
                    lemma_paths_push(prev, c);
                }
            }
            k = k + 1;
        }
        out
    }

    /// No two datasets share a mount point.
    pub open spec fn wf(&self) -> bool {
        unique_mounts(mounts_view(self.mounts@))
    }

    /// The path that `p` stands for after the aliases.
    pub fn apply_aliases(&self, p: &FsPath) -> (r: FsPath)
        ensures
            r@ == alias_applied(aliases_view(self.aliases@), p@),
    {
        let ghost al = aliases_view(self.aliases@);
        let mut i: usize = 0;
        proof {
            assert(al.skip(0) =~= al);
        }
        while i < self.aliases.len()
            invariant
                i <= self.aliases.len(),
                al == aliases_view(self.aliases@),
                alias_applied(al, p@) == alias_applied(al.skip(i as int), p@),
            decreases self.aliases.len() - i,
        {
            proof {
                assert(al.skip(i as int).drop_first() =~= al.skip(i + 1));
                assert(al.skip(i as int)[0] == al[i as int]);
            }
            let a = &self.aliases[i];
            match p.strip_prefix(&a.local_dir) {
                Some(rest) => {
                    return a.remote_dir.join(&rest);
                },
                None => {},
            }
            i = i + 1;
        }
        p.copy()
    }

    /// Index of the proximate dataset of `q`, if any dataset holds it.
    pub fn proximate_index(&self, q: &FsPath) -> (r: Option<usize>)
        requires
            self.wf(),
        ensures
            r is Some <==> under_some(mounts_view(self.mounts@), q@),
            r is Some ==> is_proximate(mounts_view(self.mounts@), q@, r->0 as int),
    {
        let ghost ms = mounts_view(self.mounts@);
        let mut best: Option<usize> = None;
        let mut i: usize = 0;
        while i < self.mounts.len()
            invariant
                i <= self.mounts.len(),
                ms == mounts_view(self.mounts@),
                best is None ==> forall|j: int| 0 <= j < i ==> !is_prefix(#[trigger] ms[j].mount_point, q@),
                best is Some ==> best->0 < i && is_prefix(ms[best->0 as int].mount_point, q@) && forall|
                    j: int,
                | 0 <= j < i && is_prefix(#[trigger] ms[j].mount_point, q@) ==> ms[j].mount_point.len()
                    <= ms[best->0 as int].mount_point.len(),
            decreases self.mounts.len() - i,
        {
            let m = &self.mounts[i];
            if q.starts_with(&m.mount_point) {
                match best {
                    None => {
                        best = Some(i);
                    },
                    Some(b) => {
                        if m.mount_point.depth() > self.mounts[b].mount_point.depth() {
                            best = Some(i);
                        }
                    },
                }
            }
            i = i + 1;
        }
        best
    }

    /// Resolves `p`: aliases first, then its proximate dataset, the rest of the path below it,
    /// and that dataset's snapshot roots.
    pub fn resolve(&self, p: &FsPath) -> (r: Result<Resolution, ResolveError>)
        requires
            self.wf(),
        ensures
            r is Ok <==> resolve_spec(mounts_view(self.mounts@), aliases_view(self.aliases@), p@) is Some,
            r is Ok ==> r->Ok_0@ == resolve_spec(mounts_view(self.mounts@), aliases_view(self.aliases@), p@)->0,
            r is Err ==> r->Err_0 == ResolveError::NotUnderKnownDataset,
    {
        let ghost ms = mounts_view(self.mounts@);
        let q = self.apply_aliases(p);
        match self.proximate_index(&q) {
            None => Err(ResolveError::NotUnderKnownDataset),
            Some(i) => {
                let m = &self.mounts[i];
                let proximate_mount = m.mount_point.copy();
                let relative = match q.strip_prefix(&m.mount_point) {
                    Some(rel) => rel,
                    None => FsPath::root(),
                };
                let mut snap_mounts: Vec<FsPath> = Vec::new();
                let mut k: usize = 0;
                while k < m.snap_roots.len()
                    invariant
                        k <= m.snap_roots.len(),
                        paths_view(snap_mounts@) == paths_view(m.snap_roots@).take(k as int),
                    decreases m.snap_roots.len() - k,
                {
                    let c = m.snap_roots[k].copy();
                    let ghost prev = snap_mounts@;
                    snap_mounts.push(c);
                    proof {
                        lemma_paths_push(prev, c);
                        assert(paths_view(snap_mounts@) =~= paths_view(m.snap_roots@).take(k + 1));
                    }
                    k = k + 1;
                }
                proof {
                    assert(paths_view(m.snap_roots@).take(k as int) =~= paths_view(m.snap_roots@));
                    let c = choose|c: int| is_proximate(ms, q@, c);
                    lemma_proximate_exists(ms, q@);
                    lemma_proximate_unique(ms, q@, c, i as int);
                    assert(ms[i as int] == m@);
                }
                Ok(Resolution { proximate_mount, relative, snap_mounts })
            },
        }
    }
}

} // verus!
