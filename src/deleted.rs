//! Finding the entries of a directory that only its snapshots still hold.
use vstd::prelude::*;
use crate::path::{FsPath, str_eq, copy_string};
use crate::versions::{PathDescriptor, DescriptorView, descs_view, lemma_descs_push};

verus! {

/// Which entries a walk for deleted files shows.
#[derive(Debug, Clone, Copy, PartialEq, Eq, Structural)]
pub enum DeletedMode {
    /// Live entries and deleted ones, but nothing below a deleted directory.
    DepthOfOne,
    /// Live entries and all deleted ones.
    All,
    /// Deleted entries alone.
    Only,
}

pub open spec fn names_view(v: Seq<String>) -> Seq<Seq<char>> {
    v.map_values(|s: String| s@)
}

/// Whether `x` is among the names of some snapshot listing.
pub open spec fn in_some_snap(snaps: Seq<Seq<Seq<char>>>, x: Seq<char>) -> bool {
    exists|s: int| 0 <= s < snaps.len() && (#[trigger] snaps[s]).contains(x)
}

/// `r` lists once each name that some snapshot listing holds and the live listing lacks.
pub open spec fn deleted_set(live: Seq<Seq<char>>, snaps: Seq<Seq<Seq<char>>>, r: Seq<Seq<char>>) -> bool {
    &&& forall|a: int, b: int| 0 <= a < b < r.len() ==> r[a] != r[b]
    &&& forall|x: Seq<char>| #[trigger] r.contains(x) <==> (in_some_snap(snaps, x) && !live.contains(x))
}

/// Whether `x` is one of `v`.
pub fn contains_name(v: &Vec<String>, x: &String) -> (r: bool)
    ensures
        r == names_view(v@).contains(x@),
{
    let ghost vv = names_view(v@);
    let mut i: usize = 0;
    while i < v.len()
        invariant
            i <= v.len(),
            vv == names_view(v@),
            forall|k: int| 0 <= k < i ==> vv[k] != x@,
        decreases v.len() - i,
    {
        if str_eq(v[i].as_str(), x.as_str()) {
            proof {
                assert(vv[i as int] == x@);
            }
            return true;
        }
        i = i + 1;
    }
    false
}

/// The names that some snapshot's copy of a directory holds and the live directory does not,
/// each once, in the order first seen.
pub fn deleted_names(live: &Vec<String>, snaps: &Vec<Vec<String>>) -> (r: Vec<String>)
    ensures
        deleted_set(
            names_view(live@),
            snaps@.map_values(|v: Vec<String>| names_view(v@)),
            names_view(r@),
        ),
{
    let ghost sv = snaps@.map_values(|v: Vec<String>| names_view(v@));
    let ghost lv = names_view(live@);
    let mut out: Vec<String> = Vec::new();
    let mut s: usize = 0;
    while s < snaps.len()
        invariant
            s <= snaps.len(),
            sv == snaps@.map_values(|v: Vec<String>| names_view(v@)),
            lv == names_view(live@),
            forall|a: int, b: int| 0 <= a < b < names_view(out@).len() ==> names_view(out@)[a] != names_view(out@)[b],
            forall|x: Seq<char>|
                #[trigger] names_view(out@).contains(x) <==> (in_some_snap(sv.take(s as int), x)
                    && !lv.contains(x)),
        decreases snaps.len() - s,
    {
        let listing = &snaps[s];
        proof {
            assert(sv[s as int] == names_view(listing@));
        }
        let mut i: usize = 0;
        while i < listing.len()
            invariant
                s < snaps.len(),
                i <= listing.len(),
                listing == &snaps@[s as int],
                sv == snaps@.map_values(|v: Vec<String>| names_view(v@)),
                lv == names_view(live@),
                forall|a: int, b: int|
                    0 <= a < b < names_view(out@).len() ==> names_view(out@)[a] != names_view(out@)[b],
                forall|x: Seq<char>|
                    #[trigger] names_view(out@).contains(x) <==> ((in_some_snap(sv.take(s as int), x)
                        || names_view(listing@).take(i as int).contains(x)) && !lv.contains(x)),
            decreases listing.len() - i,
        {
            let name = &listing[i];
            proof {
                assert(names_view(listing@)[i as int] == name@);
                assert(names_view(listing@).take(i + 1) =~= names_view(listing@).take(i as int).push(name@));
            }
            let ghost pre = names_view(listing@).take(i as int);
            let ghost ov = names_view(out@);
            proof {
                assert forall|x: Seq<char>| pre.push(name@).contains(x) <==> (pre.contains(x) || x == name@) by {
                    if pre.push(name@).contains(x) {
                        let k = choose|k: int| 0 <= k < pre.len() + 1 && pre.push(name@)[k] == x;
                        if k < pre.len() {
                            assert(pre[k] == x);
                        }
                    }
                    if pre.contains(x) {
                        let k = choose|k: int| 0 <= k < pre.len() && pre[k] == x;
                        assert(pre.push(name@)[k] == x);
                    }
                    if x == name@ {
                        assert(pre.push(name@)[pre.len() as int] == x);
                    }
                }
            }
            let in_live = contains_name(live, name);
            let in_out = contains_name(&out, name);
            if !in_live && !in_out {
                let c = copy_string(name);
                let ghost prev = out@;
                out.push(c);
                proof {
                    assert(names_view(out@) =~= ov.push(c@));
                    assert forall|x: Seq<char>| ov.push(c@).contains(x) <==> (ov.contains(x) || x == c@) by {
                        if ov.push(c@).contains(x) {
                            let k = choose|k: int| 0 <= k < ov.len() + 1 && ov.push(c@)[k] == x;
                            if k < ov.len() {
                                assert(ov[k] == x);
                            }
                        }
                        if ov.contains(x) {
                            let k = choose|k: int| 0 <= k < ov.len() && ov[k] == x;
                            assert(ov.push(c@)[k] == x);
                        }
                        if x == c@ {
                            assert(ov.push(c@)[ov.len() as int] == x);
                        }
                    }
                    assert forall|a: int, b: int|
                        0 <= a < b < names_view(out@).len() implies names_view(out@)[a] != names_view(out@)[b] by {
                        if b == ov.len() {
                            assert(ov[a] == names_view(out@)[a]);
                            assert(ov.contains(ov[a]));
                        }
                    }
                }
            }
            proof {
                assert(names_view(listing@).take(i + 1) == pre.push(name@));
                assert forall|x: Seq<char>| #[trigger] names_view(out@).contains(x) <==> ((in_some_snap(
                    sv.take(s as int),
                    x,
                ) || pre.push(name@).contains(x)) && !lv.contains(x)) by {
                    assert(ov.contains(x) <==> ((in_some_snap(sv.take(s as int), x) || pre.contains(x))
                        && !lv.contains(x)));
                    assert(ov.contains(name@) <==> ((in_some_snap(sv.take(s as int), name@) || pre.contains(name@))
                        && !lv.contains(name@)));
                    if !in_live && !in_out {
                        assert(names_view(out@) == ov.push(name@));
                    } else {
                        assert(names_view(out@) == ov);
                    }
                }
            }
            i = i + 1;
        }
        proof {
            assert(names_view(listing@).take(i as int) =~= names_view(listing@));
            assert forall|x: Seq<char>| in_some_snap(sv.take(s + 1), x) <==> (in_some_snap(sv.take(s as int), x)
                || names_view(listing@).contains(x)) by {
                if in_some_snap(sv.take(s + 1), x) {
                    let t = choose|t: int| 0 <= t < s + 1 && (#[trigger] sv.take(s + 1)[t]).contains(x);
                    if t < s {
                        assert(sv.take(s as int)[t] == sv.take(s + 1)[t]);
                    }
                }
                if in_some_snap(sv.take(s as int), x) {
                    let t = choose|t: int| 0 <= t < s && (#[trigger] sv.take(s as int)[t]).contains(x);
                    assert(sv.take(s + 1)[t] == sv.take(s as int)[t]);
                }
                if names_view(listing@).contains(x) {
                    assert(sv.take(s + 1)[s as int] == names_view(listing@));
                }
            }
        }
        s = s + 1;
    }
    proof {
        assert(sv.take(s as int) =~= sv);
    }
    out
}

/// The phantom descriptors for `names` under `dir`.
pub fn phantoms(dir: &FsPath, names: &Vec<String>) -> (r: Vec<PathDescriptor>)
    ensures
        r@.len() == names@.len(),
        forall|j: int|
            0 <= j < r@.len() ==> (#[trigger] r@[j]).metadata is None && r@[j].path@ == dir@.push(
                names@[j]@,
            ),
{
    let mut out: Vec<PathDescriptor> = Vec::new();
    let mut i: usize = 0;
    while i < names.len()
        invariant
            i <= names.len(),
            out@.len() == i,
            forall|j: int|
                0 <= j < i ==> (#[trigger] out@[j]).metadata is None && out@[j].path@ == dir@.push(
                    names@[j]@,
                ),
        decreases names.len() - i,
    {
        let p = dir.child(names[i].as_str());
        out.push(PathDescriptor { path: p, metadata: None });
        i = i + 1;
    }
    out
}

/// What a walk shows for one directory: the live entries unless only deleted ones are asked
/// for, then the phantoms, unless the directory is itself deleted and the mode stops at the
/// first deleted level.
pub open spec fn shown(
    mode: DeletedMode,
    dir_is_phantom: bool,
    live: Seq<DescriptorView>,
    ph: Seq<DescriptorView>,
) -> Seq<DescriptorView> {
    match mode {
        DeletedMode::Only => ph,
        DeletedMode::All => live + ph,
        DeletedMode::DepthOfOne => if dir_is_phantom {
            live
        } else {
            live + ph
        },
    }
}

fn append_copies(out: &mut Vec<PathDescriptor>, v: &Vec<PathDescriptor>)
    ensures
        descs_view(final(out)@) == descs_view(old(out)@) + descs_view(v@),
{
    let ghost start = descs_view(out@);
    let mut i: usize = 0;
    while i < v.len()
        invariant
            i <= v.len(),
            descs_view(out@) == start + descs_view(v@).take(i as int),
        decreases v.len() - i,
    {
        let d = v[i].copy();
        let ghost prev = out@;
        out.push(d);
        proof {
            lemma_descs_push(prev, d);
            assert(start + descs_view(v@).take(i + 1) =~= (start + descs_view(v@).take(i as int)).push(d@));
        }
        i = i + 1;
    }
    proof {
        assert(descs_view(v@).take(i as int) =~= descs_view(v@));
    }
}

/// The entries to show for one directory of a walk for deleted files.
pub fn entries_to_show(
    mode: DeletedMode,
    dir_is_phantom: bool,
    live: &Vec<PathDescriptor>,
    phantom_entries: &Vec<PathDescriptor>,
) -> (r: Vec<PathDescriptor>)
    ensures
        descs_view(r@) == shown(mode, dir_is_phantom, descs_view(live@), descs_view(phantom_entries@)),
{
    let mut out: Vec<PathDescriptor> = Vec::new();
    proof {
        assert(descs_view(out@) =~= Seq::<DescriptorView>::empty());
    }
    match mode {
        DeletedMode::Only => {
            append_copies(&mut out, phantom_entries);
            proof {
                assert(descs_view(out@) =~= descs_view(phantom_entries@));
            }
        },
        DeletedMode::All => {
            append_copies(&mut out, live);
            append_copies(&mut out, phantom_entries);
            proof {
                assert(descs_view(out@) =~= descs_view(live@) + descs_view(phantom_entries@));
            }
        },
        DeletedMode::DepthOfOne => {
            append_copies(&mut out, live);
            if !dir_is_phantom {
                append_copies(&mut out, phantom_entries);
            }
            proof {
                assert(descs_view(out@) =~= shown(
                    mode,
                    dir_is_phantom,
                    descs_view(live@),
                    descs_view(phantom_entries@),
                ));
            }
        },
    }
    out
}

/// Which entries a walk for deleted files lists and enters.
#[derive(Debug, Clone, Copy, PartialEq, Eq, Structural)]
pub struct WalkPolicy {
    /// Stay on the filesystem of the starting directory.
    pub one_filesystem: bool,
    /// Do not follow symlinks to directories.
    pub no_traverse: bool,
    /// Leave out names that begin with a dot.
    pub no_hidden: bool,
}

/// Whether a name is hidden: it begins with a dot.
pub open spec fn is_hidden(name: Seq<char>) -> bool {
    name.len() > 0 && name[0] == '.'
}

impl WalkPolicy {
    /// Whether the entry `name` is listed.
    pub fn keep_entry(&self, name: &str) -> (r: bool)
        ensures
            r == !(self.no_hidden && is_hidden(name@)),
    {
        if self.no_hidden && name.unicode_len() > 0 && name.get_char(0) == '.' {
            false
        } else {
            true
        }
    }

    /// Whether the walk enters an entry: a directory (or a symlink to one, unless symlinks are
    /// not followed) on the starting filesystem when asked to stay on it.
    pub fn enter(&self, is_dir: bool, is_symlink: bool, dev: u64, root_dev: u64) -> (r: bool)
        ensures
            r == (is_dir && !(self.no_traverse && is_symlink) && !(self.one_filesystem && dev != root_dev)),
    {
        is_dir && !(self.no_traverse && is_symlink) && !(self.one_filesystem && dev != root_dev)
    }
}

/// Whether the walk goes on below a deleted directory: in every mode but the one that stops at
/// the first deleted level.
pub fn descend_into_phantom(mode: DeletedMode) -> (r: bool)
    ensures
        r == (mode != DeletedMode::DepthOfOne),
{
    match mode {
        DeletedMode::DepthOfOne => false,
        _ => true,
    }
}

} // verus!
