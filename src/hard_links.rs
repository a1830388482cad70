//! Grouping the files of a dataset by inode, to keep its hard links.
use vstd::prelude::*;
use crate::path::{FsPath, paths_view, lemma_paths_push};
use crate::roll_forward::{RollForward, live_of};

verus! {

/// A regular file found by a walk: its inode number and path.
pub struct FileEntry {
    pub ino: u64,
    pub path: FsPath,
}

/// The (inode, path) views of walk entries.
pub open spec fn entries_view(v: Seq<FileEntry>) -> Seq<(u64, Seq<Seq<char>>)> {
    v.map_values(|e: FileEntry| (e.ino, e.path@))
}

/// The paths of the entries with inode `ino`, in order.
pub open spec fn with_ino(es: Seq<(u64, Seq<Seq<char>>)>, ino: u64) -> Seq<Seq<Seq<char>>>
    decreases es.len(),
{
    if es.len() == 0 {
        Seq::empty()
    } else if es.last().0 == ino {
        with_ino(es.drop_last(), ino).push(es.last().1)
    } else {
        with_ino(es.drop_last(), ino)
    }
}

/// The paths of the entries of `es` whose inode occurs once in `all`, in order.
pub open spec fn singles(es: Seq<(u64, Seq<Seq<char>>)>, all: Seq<(u64, Seq<Seq<char>>)>) -> Seq<
    Seq<Seq<char>>,
>
    decreases es.len(),
{
    if es.len() == 0 {
        Seq::empty()
    } else if with_ino(all, es.last().0).len() == 1 {
        singles(es.drop_last(), all).push(es.last().1)
    } else {
        singles(es.drop_last(), all)
    }
}

/// The paths that share one inode.
pub struct LinkGroup {
    pub ino: u64,
    pub paths: Vec<FsPath>,
}

/// The files of a dataset: groups of two or more paths per inode, and the paths whose inode
/// no other path has.
pub struct HardLinkMap {
    pub link_map: Vec<LinkGroup>,
    pub remainder: Vec<FsPath>,
}

/// `m` is the hard-link map of `es`: one group per inode that two or more entries share,
/// listing those entries' paths in order, and the other entries' paths as the remainder.
pub open spec fn is_link_map(es: Seq<(u64, Seq<Seq<char>>)>, m: HardLinkMap) -> bool {
    &&& forall|g: int|
        0 <= g < m.link_map@.len() ==> paths_view((#[trigger] m.link_map@[g]).paths@) == with_ino(
            es,
            m.link_map@[g].ino,
        ) && m.link_map@[g].paths@.len() >= 2
    &&& forall|a: int, b: int|
        0 <= a < b < m.link_map@.len() ==> m.link_map@[a].ino != m.link_map@[b].ino
    &&& forall|k: int|
        0 <= k < es.len() && with_ino(es, (#[trigger] es[k]).0).len() >= 2 ==> has_group(
            m.link_map@,
            m.link_map@.len() as int,
            es[k].0,
        )
    &&& paths_view(m.remainder@) == singles(es, es)
}

/// Some group before position `g` has inode `ino`.
pub open spec fn has_group(groups: Seq<LinkGroup>, g: int, ino: u64) -> bool {
    exists|m: int| 0 <= m < g && #[trigger] groups[m].ino == ino
}

/// Paths grouped by inode number, in a hashbrown map.
#[verifier::external_body]
pub struct InodeMap {
    map: hashbrown::HashMap<u64, Vec<FsPath>>,
}

/// The groups that an inode map holds: for each inode, the views of its paths.
pub uninterp spec fn inode_groups(m: InodeMap) -> Map<u64, Seq<Seq<Seq<char>>>>;

/// The contents of an empty inode map.
pub open spec fn no_groups() -> Map<u64, Seq<Seq<Seq<char>>>> {
    Map::empty()
}

impl InodeMap {
    /// Relies on hashbrown's `HashMap::new`: a new map holds nothing.
    #[verifier::external_body]
    pub(crate) fn new() -> (r: InodeMap)
        ensures
            inode_groups(r) == no_groups(),
    {
        InodeMap { map: hashbrown::HashMap::new() }
    }

    /// Relies on hashbrown's `HashMap::remove`: the group of `ino` leaves the map and is returned,
    /// if the map has one.
    #[verifier::external_body]
    pub(crate) fn remove(&mut self, ino: u64) -> (r: Option<Vec<FsPath>>)
        ensures
            inode_groups(*old(self)).contains_key(ino) ==> r is Some && paths_view(r->0@) == inode_groups(
                *old(self),
            )[ino],
            !inode_groups(*old(self)).contains_key(ino) ==> r is None,
            inode_groups(*final(self)) == inode_groups(*old(self)).remove(ino),
    {
        self.map.remove(&ino)
    }

    /// Relies on hashbrown's `HashMap::insert`: afterwards `ino` maps to `paths`, the other
    /// inodes as before.
    #[verifier::external_body]
    pub(crate) fn insert(&mut self, ino: u64, paths: Vec<FsPath>)
        ensures
            inode_groups(*final(self)) == inode_groups(*old(self)).insert(ino, paths_view(paths@)),
    {
        let _ = self.map.insert(ino, paths);
    }

    /// Relies on hashbrown's `HashMap::into_iter`: every group once, in an order the map
    /// chooses.
    #[verifier::external_body]
    pub(crate) fn into_groups(self) -> (r: Vec<(u64, Vec<FsPath>)>)
        ensures
            forall|a: int, b: int| 0 <= a < b < r@.len() ==> r@[a].0 != r@[b].0,
            forall|a: int|
                0 <= a < r@.len() ==> inode_groups(self).contains_key(#[trigger] r@[a].0) && paths_view(
                    r@[a].1@,
                ) == inode_groups(self)[r@[a].0],
            forall|x: u64| #[trigger] inode_groups(self).contains_key(x) ==> exists|a: int|
                0 <= a < r@.len() && r@[a].0 == x,
    {
        self.map.into_iter().collect()
    }
}

proof fn lemma_with_ino_step(es: Seq<(u64, Seq<Seq<char>>)>, i: int, ino: u64)
    requires
        0 <= i < es.len(),
    ensures
        with_ino(es.take(i + 1), ino) == if es[i].0 == ino {
            with_ino(es.take(i), ino).push(es[i].1)
        } else {
            with_ino(es.take(i), ino)
        },
{
    assert(es.take(i + 1).drop_last() =~= es.take(i));
}

proof fn lemma_with_ino_member(es: Seq<(u64, Seq<Seq<char>>)>, k: int)
    requires
        0 <= k < es.len(),
    ensures
        with_ino(es, es[k].0).len() >= 1,
    decreases es.len(),
{
    if k < es.len() - 1 {
        lemma_with_ino_member(es.drop_last(), k);
    }
}

fn copy_paths(v: &Vec<FsPath>) -> (r: Vec<FsPath>)
    ensures
        paths_view(r@) == paths_view(v@),
{
    let mut out: Vec<FsPath> = Vec::new();
    let mut i: usize = 0;
    while i < v.len()
        invariant
            i <= v.len(),
            paths_view(out@) == paths_view(v@).take(i as int),
        decreases v.len() - i,
    {
        let c = v[i].copy();
        let ghost prev = out@;
        out.push(c);
        proof {
            lemma_paths_push(prev, c);
            assert(paths_view(v@).take(i + 1) =~= paths_view(v@).take(i as int).push(c@));
        }
        i = i + 1;
    }
    proof {
        assert(paths_view(v@).take(i as int) =~= paths_view(v@));
    }
    out
}

impl HardLinkMap {
    /// Groups `entries` by inode.
    pub fn new(entries: &Vec<FileEntry>) -> (r: HardLinkMap)
        ensures
            is_link_map(entries_view(entries@), r),
    {
        let ghost es = entries_view(entries@);
        let mut by_ino = InodeMap::new();
        let mut i: usize = 0;
        while i < entries.len()
            invariant
                i <= entries.len(),
                es == entries_view(entries@),
                forall|x: u64|
                    #[trigger] inode_groups(by_ino).contains_key(x) <==> with_ino(es.take(i as int), x).len() >= 1,
                forall|x: u64|
                    #[trigger] inode_groups(by_ino).contains_key(x) ==> inode_groups(by_ino)[x] == with_ino(
                        es.take(i as int),
                        x,
                    ),
            decreases entries.len() - i,
        {
            let e = &entries[i];
            proof {
                assert(es[i as int] == (e.ino, e.path@));
                assert forall|x: u64| true implies #[trigger] with_ino(es.take(i + 1), x) == if es[i as int].0 == x {
                    with_ino(es.take(i as int), x).push(es[i as int].1)
                } else {
                    with_ino(es.take(i as int), x)
                } by {
                    lemma_with_ino_step(es, i as int, x);
                }
            }
            let ghost before = inode_groups(by_ino);
            let mut paths = match by_ino.remove(e.ino) {
                Some(v) => v,
                None => Vec::new(),
            };
            let ghost prev = paths@;
            let p = e.path.copy();
            paths.push(p);
            proof {
                lemma_paths_push(prev, p);
                if !before.contains_key(e.ino) {
                    assert(paths_view(prev) =~= Seq::<Seq<Seq<char>>>::empty());
                    assert(with_ino(es.take(i as int), e.ino) =~= Seq::<Seq<Seq<char>>>::empty());
                }
            }
            by_ino.insert(e.ino, paths);
            i = i + 1;
        }
        proof {
            assert(es.take(i as int) =~= es);
        }
        let pairs = by_ino.into_groups();
        let mut groups: Vec<LinkGroup> = Vec::new();
        let mut g: usize = 0;
        let ghost m = inode_groups(by_ino);
        while g < pairs.len()
            invariant
                g <= pairs@.len(),
                es == entries_view(entries@),
                forall|x: u64| #[trigger] m.contains_key(x) <==> with_ino(es, x).len() >= 1,
                forall|x: u64| #[trigger] m.contains_key(x) ==> m[x] == with_ino(es, x),
                forall|a: int, b: int| 0 <= a < b < pairs@.len() ==> pairs@[a].0 != pairs@[b].0,
                forall|a: int|
                    0 <= a < pairs@.len() ==> m.contains_key(#[trigger] pairs@[a].0) && paths_view(pairs@[a].1@)
                        == m[pairs@[a].0],
                groups@.len() == g,
                forall|h: int|
                    0 <= h < g ==> (#[trigger] groups@[h]).ino == pairs@[h].0 && paths_view(groups@[h].paths@)
                        == paths_view(pairs@[h].1@),
            decreases pairs@.len() - g,
        {
            let paths = copy_paths(&pairs[g].1);
            groups.push(LinkGroup { ino: pairs[g].0, paths });
            g = g + 1;
        }
        proof {
            assert forall|h: int| 0 <= h < groups@.len() implies paths_view((#[trigger] groups@[h]).paths@)
                == with_ino(es, groups@[h].ino) && groups@[h].paths@.len() >= 1 by {
                assert(m.contains_key(pairs@[h].0));
            }
            assert forall|x: u64| #[trigger] with_ino(es, x).len() >= 1 implies exists|h: int|
                0 <= h < groups@.len() && #[trigger] groups@[h].ino == x by {
                assert(m.contains_key(x));
                let a = choose|a: int| 0 <= a < pairs@.len() && pairs@[a].0 == x;
                assert(groups@[a].ino == x);
            }
        }
        let mut link_map: Vec<LinkGroup> = Vec::new();
        let mut remainder_inos: Vec<u64> = Vec::new();
        let mut g: usize = 0;
        while g < groups.len()
            invariant
                g <= groups@.len(),
                es == entries_view(entries@),
                forall|h: int|
                    0 <= h < groups@.len() ==> paths_view((#[trigger] groups@[h]).paths@) == with_ino(
                        es,
                        groups@[h].ino,
                    ) && groups@[h].paths@.len() >= 1,
                forall|a: int, b: int| 0 <= a < b < groups@.len() ==> groups@[a].ino != groups@[b].ino,
                forall|h: int|
                    0 <= h < link_map@.len() ==> paths_view((#[trigger] link_map@[h]).paths@) == with_ino(
                        es,
                        link_map@[h].ino,
                    ) && link_map@[h].paths@.len() >= 2,
                forall|h: int| 0 <= h < link_map@.len() ==> has_group(groups@, g as int, #[trigger] link_map@[h].ino),
                forall|a: int, b: int| 0 <= a < b < link_map@.len() ==> link_map@[a].ino != link_map@[b].ino,
                forall|m: int|
                    0 <= m < g && (#[trigger] groups@[m]).paths@.len() >= 2 ==> exists|h: int|
                        0 <= h < link_map@.len() && link_map@[h].ino == groups@[m].ino,
            decreases groups.len() - g,
        {
            if groups[g].paths.len() >= 2 {
                let ghost before = link_map@;
                let paths = copy_paths(&groups[g].paths);
                let ng = LinkGroup { ino: groups[g].ino, paths };
                link_map.push(ng);
                proof {
                    assert forall|a: int, b: int| 0 <= a < b < link_map@.len() implies link_map@[a].ino
                        != link_map@[b].ino by {
                        if b == before.len() {
                            assert(link_map@[a] == before[a]);
                            assert(has_group(groups@, g as int, before[a].ino));
                            let m = choose|m: int| 0 <= m < g && #[trigger] groups@[m].ino == before[a].ino;
                        }
                    }
                    assert forall|h: int| 0 <= h < link_map@.len() implies has_group(
                        groups@,
                        g + 1,
                        #[trigger] link_map@[h].ino,
                    ) by {
                        if h == before.len() {
                            assert(groups@[g as int].ino == link_map@[h].ino);
                        } else {
                            assert(link_map@[h] == before[h]);
                            assert(has_group(groups@, g as int, before[h].ino));
                            let m = choose|m: int| 0 <= m < g && #[trigger] groups@[m].ino == before[h].ino;
                            assert(groups@[m].ino == link_map@[h].ino);
                        }
                    }
                    assert forall|m: int|
                        0 <= m < g + 1 && (#[trigger] groups@[m]).paths@.len() >= 2 implies exists|h: int|
                        0 <= h < link_map@.len() && link_map@[h].ino == groups@[m].ino by {
                        if m == g {
                            assert(link_map@[before.len() as int].ino == groups@[m].ino);
                        } else {
                            let h = choose|h: int| 0 <= h < before.len() && before[h].ino == groups@[m].ino;
                            assert(link_map@[h] == before[h]);
                        }
                    }
                }
            }
            g = g + 1;
        }
        let mut remainder: Vec<FsPath> = Vec::new();
        let mut i: usize = 0;
        while i < entries.len()
            invariant
                i <= entries.len(),
                es == entries_view(entries@),
                forall|h: int|
                    0 <= h < groups@.len() ==> paths_view((#[trigger] groups@[h]).paths@) == with_ino(
                        es,
                        groups@[h].ino,
                    ),
                forall|x: u64|
                    #[trigger] with_ino(es, x).len() >= 1 ==> exists|m: int|
                        0 <= m < groups@.len() && #[trigger] groups@[m].ino == x,
                paths_view(remainder@) == singles(es.take(i as int), es),
                forall|m: int|
                    0 <= m < groups@.len() && (#[trigger] groups@[m]).paths@.len() >= 2 ==> exists|h: int|
                        0 <= h < link_map@.len() && link_map@[h].ino == groups@[m].ino,
            decreases entries.len() - i,
        {
            let e = &entries[i];
            proof {
                assert(es[i as int] == (e.ino, e.path@));
                assert(es.take(i + 1).drop_last() =~= es.take(i as int));
                lemma_with_ino_member(es, i as int);
            }
            let mut g: usize = 0;
            while g < groups.len() && groups[g].ino != e.ino
                invariant
                    g <= groups@.len(),
                    forall|m: int| 0 <= m < g ==> groups@[m].ino != e.ino,
                decreases groups.len() - g,
            {
                g = g + 1;
            }
            proof {
                let m = choose|m: int| 0 <= m < groups@.len() && #[trigger] groups@[m].ino == e.ino;
                assert(g < groups@.len());
                assert(with_ino(es, e.ino).len() == groups@[g as int].paths@.len());
            }
            if groups[g].paths.len() == 1 {
                let p = e.path.copy();
                let ghost prev = remainder@;
                remainder.push(p);
                proof {
                    lemma_paths_push(prev, p);
                }
            }
            i = i + 1;
        }
        proof {
            assert(es.take(i as int) =~= es);
            let r = HardLinkMap { link_map, remainder };
            assert forall|k: int|
                0 <= k < es.len() && with_ino(es, (#[trigger] es[k]).0).len() >= 2 implies has_group(
                link_map@,
                link_map@.len() as int,
                es[k].0,
            ) by {
                lemma_with_ino_member(es, k);
                let m = choose|m: int| 0 <= m < groups@.len() && #[trigger] groups@[m].ino == es[k].0;
                assert(paths_view(groups@[m].paths@) == with_ino(es, groups@[m].ino));
                assert(groups@[m].paths@.len() >= 2);
                let h = choose|h: int| 0 <= h < link_map@.len() && link_map@[h].ino == groups@[m].ino;
                assert(link_map@[h].ino == es[k].0);
            }
        }
        HardLinkMap { link_map, remainder }
    }
}

/// The paths of `a` that `b` lacks (`keep` false) or holds (`keep` true), in the order of `a`.
pub open spec fn select(a: Seq<Seq<Seq<char>>>, b: Seq<Seq<Seq<char>>>, keep: bool) -> Seq<
    Seq<Seq<char>>,
>
    decreases a.len(),
{
    if a.len() == 0 {
        Seq::empty()
    } else if b.contains(a.last()) == keep {
        select(a.drop_last(), b, keep).push(a.last())
    } else {
        select(a.drop_last(), b, keep)
    }
}

/// Whether `x` is one of `v`.
pub fn contains_path(v: &Vec<FsPath>, x: &FsPath) -> (r: bool)
    ensures
        r == paths_view(v@).contains(x@),
{
    let mut i: usize = 0;
    while i < v.len()
        invariant
            i <= v.len(),
            forall|k: int| 0 <= k < i ==> paths_view(v@)[k] != x@,
        decreases v.len() - i,
    {
        if v[i].same(x) {
            proof {
                assert(paths_view(v@)[i as int] == x@);
            }
            return true;
        }
        i = i + 1;
    }
    false
}

/// The paths of `a` that `b` lacks (`keep` false) or holds (`keep` true).
pub fn select_paths(a: &Vec<FsPath>, b: &Vec<FsPath>, keep: bool) -> (r: Vec<FsPath>)
    ensures
        paths_view(r@) == select(paths_view(a@), paths_view(b@), keep),
{
    let ghost av = paths_view(a@);
    let mut out: Vec<FsPath> = Vec::new();
    let mut i: usize = 0;
    while i < a.len()
        invariant
            i <= a.len(),
            av == paths_view(a@),
            paths_view(out@) == select(av.take(i as int), paths_view(b@), keep),
        decreases a.len() - i,
    {
        proof {
            assert(av.take(i + 1).drop_last() =~= av.take(i as int));
            assert(av.take(i + 1).last() == a@[i as int]@);
        }
        if contains_path(b, &a[i]) == keep {
            let c = a[i].copy();
            let ghost prev = out@;
            out.push(c);
            proof {
                lemma_paths_push(prev, c);
            }
        }
        i = i + 1;
    }
    proof {
        assert(av.take(i as int) =~= av);
    }
    out
}

/// The paths of all groups of `m`, group after group.
pub open spec fn group_paths(groups: Seq<LinkGroup>) -> Seq<Seq<Seq<char>>>
    decreases groups.len(),
{
    if groups.len() == 0 {
        Seq::empty()
    } else {
        group_paths(groups.drop_last()) + paths_view(groups.last().paths@)
    }
}

/// Every path of the map's groups, group after group.
pub fn linked_paths(m: &HardLinkMap) -> (r: Vec<FsPath>)
    ensures
        paths_view(r@) == group_paths(m.link_map@),
{
    let mut out: Vec<FsPath> = Vec::new();
    let mut g: usize = 0;
    while g < m.link_map.len()
        invariant
            g <= m.link_map@.len(),
            paths_view(out@) == group_paths(m.link_map@.take(g as int)),
        decreases m.link_map@.len() - g,
    {
        let grp = &m.link_map[g];
        let ghost start = paths_view(out@);
        let mut i: usize = 0;
        while i < grp.paths.len()
            invariant
                i <= grp.paths@.len(),
                paths_view(out@) == start + paths_view(grp.paths@).take(i as int),
            decreases grp.paths@.len() - i,
        {
            let c = grp.paths[i].copy();
            let ghost prev = out@;
            out.push(c);
            proof {
                lemma_paths_push(prev, c);
                assert(start + paths_view(grp.paths@).take(i + 1) =~= (start + paths_view(grp.paths@).take(
                    i as int,
                )).push(c@));
            }
            i = i + 1;
        }
        proof {
            assert(paths_view(grp.paths@).take(i as int) =~= paths_view(grp.paths@));
            assert(m.link_map@.take(g + 1).drop_last() =~= m.link_map@.take(g as int));
        }
        g = g + 1;
    }
    proof {
        assert(m.link_map@.take(g as int) =~= m.link_map@);
    }
    out
}

/// The live paths of snapshot paths `ps`, where every one lies in the snapshot.
pub open spec fn all_live(rf_mount: Seq<Seq<char>>, snap: Seq<char>, ps: Seq<Seq<Seq<char>>>) -> Option<
    Seq<Seq<Seq<char>>>,
>
    decreases ps.len(),
{
    if ps.len() == 0 {
        Some(Seq::empty())
    } else {
        match (all_live(rf_mount, snap, ps.drop_last()), live_of(rf_mount, snap, ps.last())) {
            (Some(a), Some(b)) => Some(a.push(b)),
            _ => None,
        }
    }
}

/// The live paths of snapshot paths `ps`; `None` where one lies outside the snapshot.
pub fn to_live_paths(rf: &RollForward, ps: &Vec<FsPath>) -> (r: Option<Vec<FsPath>>)
    ensures
        r is Some <==> all_live(rf.proximate_dataset_mount@, rf.snap_name@, paths_view(ps@)) is Some,
        r is Some ==> paths_view(r->0@) == all_live(
            rf.proximate_dataset_mount@,
            rf.snap_name@,
            paths_view(ps@),
        )->0,
{
    let ghost pv = paths_view(ps@);
    let mut out: Vec<FsPath> = Vec::new();
    let mut i: usize = 0;
    while i < ps.len()
        invariant
            i <= ps.len(),
            pv == paths_view(ps@),
            all_live(rf.proximate_dataset_mount@, rf.snap_name@, pv.take(i as int)) == Some(
                paths_view(out@),
            ),
        decreases ps.len() - i,
    {
        proof {
            assert(pv.take(i + 1).drop_last() =~= pv.take(i as int));
            assert(pv.take(i + 1).last() == ps@[i as int]@);
        }
        match rf.live_path(&ps[i]) {
            None => {
                proof {
                    lemma_all_live_none(rf.proximate_dataset_mount@, rf.snap_name@, pv, i as int + 1);
                }
                return None;
            },
            Some(lp) => {
                let ghost prev = out@;
                out.push(lp);
                proof {
                    lemma_paths_push(prev, lp);
                }
            },
        }
        i = i + 1;
    }
    proof {
        assert(pv.take(i as int) =~= pv);
    }
    Some(out)
}

proof fn lemma_all_live_none(m: Seq<Seq<char>>, snap: Seq<char>, ps: Seq<Seq<Seq<char>>>, k: int)
    requires
        0 <= k <= ps.len(),
        all_live(m, snap, ps.take(k)) is None,
    ensures
        all_live(m, snap, ps) is None,
    decreases ps.len() - k,
{
    if k < ps.len() {
        assert(ps.take(k + 1).drop_last() =~= ps.take(k));
        lemma_all_live_none(m, snap, ps, k + 1);
    } else {
        assert(ps.take(k) =~= ps);
    }
}

/// What keeping one group of snapshot links does to a live path.
pub enum LinkAction {
    /// Copy the snapshot file over the live path.
    CopyFromSnap { live: FsPath, snap: FsPath },
    /// Make `link` a hard link to `original`.
    Link { original: FsPath, link: FsPath },
}

pub open spec fn link_action_view(a: LinkAction) -> (bool, Seq<Seq<char>>, Seq<Seq<char>>) {
    match a {
        LinkAction::CopyFromSnap { live, snap } => (true, live@, snap@),
        LinkAction::Link { original, link } => (false, original@, link@),
    }
}

pub open spec fn link_actions_view(v: Seq<LinkAction>) -> Seq<(bool, Seq<Seq<char>>, Seq<Seq<char>>)> {
    v.map_values(|a: LinkAction| link_action_view(a))
}

/// The first of `live` whose `exists` flag is set.
pub open spec fn first_existing(live: Seq<Seq<Seq<char>>>, exists: Seq<bool>) -> Option<Seq<Seq<char>>>
    decreases live.len(),
{
    if live.len() == 0 || exists.len() == 0 {
        None
    } else if exists[0] {
        Some(live[0])
    } else {
        first_existing(live.drop_first(), exists.drop_first())
    }
}

/// The plan for the first `n` paths of a group, and the original that later paths link to:
/// each path whose snapshot copy exists is copied if it is the original or no original is
/// known yet (it then becomes the original), and linked to the original otherwise.
pub open spec fn link_plan(
    live: Seq<Seq<Seq<char>>>,
    snap: Seq<Seq<Seq<char>>>,
    snap_exists: Seq<bool>,
    start: Option<Seq<Seq<char>>>,
    n: nat,
) -> (Seq<(bool, Seq<Seq<char>>, Seq<Seq<char>>)>, Option<Seq<Seq<char>>>)
    decreases n,
{
    if n == 0 {
        (Seq::empty(), start)
    } else {
        let (acts, orig) = link_plan(live, snap, snap_exists, start, (n - 1) as nat);
        let k = n - 1;
        if !snap_exists[k] {
            (acts, orig)
        } else {
            match orig {
                Some(o) => if o == live[k] {
                    (acts.push((true, live[k], snap[k])), orig)
                } else {
                    (acts.push((false, o, live[k])), orig)
                },
                None => (acts.push((true, live[k], snap[k])), Some(live[k])),
            }
        }
    }
}

/// Every link that the plan for a group makes points at one original, the one the plan ends
/// with, and every member whose snapshot copy exists is copied or linked: so the group's live
/// paths end up as links to a single inode.
pub proof fn lemma_group_single_original(
    live: Seq<Seq<Seq<char>>>,
    snap: Seq<Seq<Seq<char>>>,
    snap_exists: Seq<bool>,
    start: Option<Seq<Seq<char>>>,
    n: nat,
)
    requires
        n <= live.len(),
        n <= snap.len(),
        n <= snap_exists.len(),
    ensures
        ({
            let (acts, orig) = link_plan(live, snap, snap_exists, start, n);
            &&& forall|j: int| 0 <= j < acts.len() && !(#[trigger] acts[j]).0 ==> orig == Some(acts[j].1)
            &&& forall|k: int|
                0 <= k < n && #[trigger] snap_exists[k] ==> exists|j: int|
                    0 <= j < acts.len() && ((acts[j].0 && acts[j].1 == live[k]) || (!acts[j].0 && acts[j].2
                        == live[k]))
        }),
    decreases n,
{
    if n > 0 {
        lemma_group_single_original(live, snap, snap_exists, start, (n - 1) as nat);
        let (acts, orig) = link_plan(live, snap, snap_exists, start, (n - 1) as nat);
        let (acts2, orig2) = link_plan(live, snap, snap_exists, start, n);
        let k = n - 1;
        if snap_exists[k] {
            assert(acts2 == acts.push(acts2.last()));
            assert forall|j: int| 0 <= j < acts2.len() && !(#[trigger] acts2[j]).0 implies orig2 == Some(
                acts2[j].1,
            ) by {
                if j < acts.len() {
                    assert(acts2[j] == acts[j]);
                }
            }
            assert forall|m: int| 0 <= m < n && #[trigger] snap_exists[m] implies exists|j: int|
                0 <= j < acts2.len() && ((acts2[j].0 && acts2[j].1 == live[m]) || (!acts2[j].0 && acts2[j].2
                    == live[m])) by {
                if m < k {
                    let j = choose|j: int|
                        0 <= j < acts.len() && ((acts[j].0 && acts[j].1 == live[m]) || (!acts[j].0 && acts[j].2
                            == live[m]));
                    assert(acts2[j] == acts[j]);
                } else {
                    assert(acts2[acts.len() as int] == acts2.last());
                }
            }
        }
    }
}

/// Plans how to keep the links of one snapshot group: `live[k]` and `snap[k]` are the live and
/// snapshot paths of its `k`-th member, and the flags tell which of them exist.
pub fn plan_group_links(
    live: &Vec<FsPath>,
    snap: &Vec<FsPath>,
    live_exists: &Vec<bool>,
    snap_exists: &Vec<bool>,
) -> (r: Vec<LinkAction>)
    requires
        snap@.len() == live@.len(),
        live_exists@.len() == live@.len(),
        snap_exists@.len() == live@.len(),
    ensures
        link_actions_view(r@) == link_plan(
            paths_view(live@),
            paths_view(snap@),
            snap_exists@,
            first_existing(paths_view(live@), live_exists@),
            live@.len() as nat,
        ).0,
{
    let ghost lv = paths_view(live@);
    let ghost sv = paths_view(snap@);
    let mut j: usize = 0;
    let mut original: Option<usize> = None;
    let ghost mut lrest = lv;
    let ghost mut erest = live_exists@;
    proof {
        assert(lrest =~= lv.skip(0));
        assert(erest =~= live_exists@.skip(0));
    }
    while j < live.len() && !live_exists[j]
        invariant
            j <= live@.len(),
            live_exists@.len() == live@.len(),
            lv == paths_view(live@),
            lrest == lv.skip(j as int),
            erest == live_exists@.skip(j as int),
            first_existing(lv, live_exists@) == first_existing(lrest, erest),
        decreases live@.len() - j,
    {
        proof {
            assert(lrest.drop_first() =~= lv.skip(j + 1));
            assert(erest.drop_first() =~= live_exists@.skip(j + 1));
            assert(erest[0] == live_exists@[j as int]);
        }
        j = j + 1;
        proof {
            lrest = lv.skip(j as int);
            erest = live_exists@.skip(j as int);
        }
    }
    if j < live.len() {
        original = Some(j);
        proof {
            assert(erest[0] == live_exists@[j as int]);
            assert(lrest[0] == lv[j as int]);
        }
    }
    let ghost start = first_existing(lv, live_exists@);
    proof {
        if j == live.len() {
            assert(lrest.len() == 0);
        }
    }
    let mut out: Vec<LinkAction> = Vec::new();
    let mut k: usize = 0;
    while k < live.len()
        invariant
            k <= live@.len(),
            snap@.len() == live@.len(),
            snap_exists@.len() == live@.len(),
            lv == paths_view(live@),
            sv == paths_view(snap@),
            original is Some ==> original->0 < live@.len(),
            link_plan(lv, sv, snap_exists@, start, k as nat).1 == (match original {
                Some(o) => Some(lv[o as int]),
                None => None::<Seq<Seq<char>>>,
            }),
            link_actions_view(out@) == link_plan(lv, sv, snap_exists@, start, k as nat).0,
        decreases live@.len() - k,
    {
        if snap_exists[k] {
            let ghost prev = out@;
            match original {
                Some(o) => {
                    if live[o].same(&live[k]) {
                        out.push(LinkAction::CopyFromSnap { live: live[k].copy(), snap: snap[k].copy() });
                    } else {
                        out.push(LinkAction::Link { original: live[o].copy(), link: live[k].copy() });
                    }
                },
                None => {
                    out.push(LinkAction::CopyFromSnap { live: live[k].copy(), snap: snap[k].copy() });
                    original = Some(k);
                },
            }
            proof {
                assert(link_actions_view(out@) =~= link_actions_view(prev).push(link_action_view(out@.last())));
            }
        }
        k = k + 1;
    }
    out
}

/// The live paths that keeping hard links handles itself, so that no diff event touches them
/// again: the orphans that only one side has, the linked paths that both sides have, and every
/// linked path of either side.
pub open spec fn exclusions_spec(
    live_remainder: Seq<Seq<Seq<char>>>,
    snap_remainder_live: Seq<Seq<Seq<char>>>,
    live_linked: Seq<Seq<Seq<char>>>,
    snap_linked_live: Seq<Seq<Seq<char>>>,
) -> Seq<Seq<Seq<char>>> {
    select(live_remainder, snap_remainder_live, false) + select(snap_remainder_live, live_remainder, false)
        + select(live_linked, snap_linked_live, true) + live_linked + snap_linked_live
}

fn append_paths(out: &mut Vec<FsPath>, v: &Vec<FsPath>)
    ensures
        paths_view(final(out)@) == paths_view(old(out)@) + paths_view(v@),
{
    let ghost start = paths_view(out@);
    let mut i: usize = 0;
    while i < v.len()
        invariant
            i <= v.len(),
            paths_view(out@) == start + paths_view(v@).take(i as int),
        decreases v.len() - i,
    {
        let c = v[i].copy();
        let ghost prev = out@;
        out.push(c);
        proof {
            lemma_paths_push(prev, c);
            assert(start + paths_view(v@).take(i + 1) =~= (start + paths_view(v@).take(i as int)).push(c@));
        }
        i = i + 1;
    }
    proof {
        assert(paths_view(v@).take(i as int) =~= paths_view(v@));
    }
}

/// The exclusion set of a roll-forward, from the live paths of both sides' remainders and
/// linked files.
pub fn exclusions(
    live_remainder: &Vec<FsPath>,
    snap_remainder_live: &Vec<FsPath>,
    live_linked: &Vec<FsPath>,
    snap_linked_live: &Vec<FsPath>,
) -> (r: Vec<FsPath>)
    ensures
        paths_view(r@) == exclusions_spec(
            paths_view(live_remainder@),
            paths_view(snap_remainder_live@),
            paths_view(live_linked@),
            paths_view(snap_linked_live@),
        ),
{
    let a = select_paths(live_remainder, snap_remainder_live, false);
    let b = select_paths(snap_remainder_live, live_remainder, false);
    let c = select_paths(live_linked, snap_linked_live, true);
    let mut out: Vec<FsPath> = Vec::new();
    proof {
        assert(paths_view(out@) =~= Seq::<Seq<Seq<char>>>::empty());
    }
    append_paths(&mut out, &a);
    append_paths(&mut out, &b);
    append_paths(&mut out, &c);
    append_paths(&mut out, live_linked);
    append_paths(&mut out, snap_linked_live);
    proof {
        assert(paths_view(out@) =~= exclusions_spec(
            paths_view(live_remainder@),
            paths_view(snap_remainder_live@),
            paths_view(live_linked@),
            paths_view(snap_linked_live@),
        ));
    }
    out
}

} // verus!
