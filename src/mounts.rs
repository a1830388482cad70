//! Reading the mount table and the btrfs subvolume list into datasets and snapshot roots.
use vstd::prelude::*;
use crate::path::{FsPath, split_path, str_eq};
use crate::resolve::FilesystemType;
use crate::text::{has_sub, occurs_at, first_occurrence, find_str, split_once_str, strip_prefix_str};

verus! {

pub open spec fn zfs_word() -> Seq<char> {
    seq!['z', 'f', 's']
}

pub open spec fn btrfs_word() -> Seq<char> {
    seq!['b', 't', 'r', 'f', 's']
}

/// The segment that marks a path inside a ZFS snapshot.
pub open spec fn snapshot_segment() -> Seq<char> {
    seq!['.', 'z', 'f', 's', '/', 's', 'n', 'a', 'p', 's', 'h', 'o', 't']
}

/// What a line of `mount` output gives: for a ZFS dataset that is no snapshot, the text before
/// ` type` (GNU) or ` (` (BSD, Busybox), split at ` on ` into source and mount point.
pub open spec fn mount_line_spec(line: Seq<char>) -> Option<(Seq<char>, Seq<Seq<char>>)> {
    if !has_sub(line, zfs_word()) || has_sub(line, snapshot_segment()) {
        None
    } else {
        let cut = if has_sub(line, seq!['t', 'y', 'p', 'e']) {
            seq![' ', 't', 'y', 'p', 'e']
        } else {
            seq![' ', '(']
        };
        match first_occurrence(line, cut) {
            None => None,
            Some(i) => {
                let head = line.take(i);
                match first_occurrence(head, seq![' ', 'o', 'n', ' ']) {
                    None => None,
                    Some(j) => Some((head.take(j), split_path(head.skip(j + 4)))),
                }
            },
        }
    }
}

/// Reads one line of `mount` output.
pub fn parse_mount_cmd_line(line: &str) -> (r: Option<(String, FsPath)>)
    ensures
        r is Some <==> mount_line_spec(line@) is Some,
        r is Some ==> ({
            let (a, b) = r->0;
            mount_line_spec(line@) == Some((a@, b@))
        }),
{
    proof {
        reveal_strlit("zfs");
        reveal_strlit(".zfs/snapshot");
        reveal_strlit("type");
        reveal_strlit(" type");
        reveal_strlit(" (");
        reveal_strlit(" on ");
        assert("zfs"@ =~= zfs_word());
        assert(".zfs/snapshot"@ =~= snapshot_segment());
        assert("type"@ =~= seq!['t', 'y', 'p', 'e']);
        assert(" type"@ =~= seq![' ', 't', 'y', 'p', 'e']);
        assert(" ("@ =~= seq![' ', '(']);
        assert(" on "@ =~= seq![' ', 'o', 'n', ' ']);
    }
    if find_str(line, "zfs").is_none() || find_str(line, ".zfs/snapshot").is_some() {
        return None;
    }
    let cut = if find_str(line, "type").is_some() {
        " type"
    } else {
        " ("
    };
    let head = match split_once_str(line, cut) {
        None => return None,
        Some(parts) => parts.0,
    };
    match split_once_str(head.as_str(), " on ") {
        None => None,
        Some(parts) => {
            let (source, mount) = parts;
            let p = FsPath::parse(mount.as_str());
            Some((source, p))
        },
    }
}

/// The key of a mount option `key=value`: the text before its first `=`.
pub open spec fn option_key(o: Seq<char>) -> Seq<char> {
    o.take(first_occurrence(o, seq!['='])->0)
}

/// The value of a mount option `key=value`: the text after its first `=`.
pub open spec fn option_value(o: Seq<char>) -> Seq<char> {
    o.skip(first_occurrence(o, seq!['='])->0 + 1)
}

pub open spec fn subvol_word() -> Seq<char> {
    seq!['s', 'u', 'b', 'v', 'o', 'l']
}

/// The value of the last `subvol=` option, if any.
pub open spec fn subvol_of(opts: Seq<Seq<char>>) -> Option<Seq<char>>
    decreases opts.len(),
{
    if opts.len() == 0 {
        None
    } else if has_sub(opts.last(), seq!['=']) && option_key(opts.last()) == subvol_word() {
        Some(option_value(opts.last()))
    } else {
        subvol_of(opts.drop_last())
    }
}

/// A dataset read from the kernel mount table.
pub struct ProcMount {
    pub mount_point: FsPath,
    pub dataset: String,
    pub fs_type: FilesystemType,
}

pub open spec fn proc_mount_view(m: ProcMount) -> (Seq<Seq<char>>, Seq<char>, FilesystemType) {
    (m.mount_point@, m.dataset@, m.fs_type)
}

/// What an entry of the kernel mount table gives: nothing unless it is a ZFS or btrfs mount
/// outside any snapshot; a ZFS dataset is named by its source, a btrfs one by its `subvol=`
/// option, or by its source where it has none.
pub open spec fn proc_mount_spec(
    source: Seq<char>,
    dest: Seq<char>,
    fstype: Seq<char>,
    options: Seq<Seq<char>>,
) -> Option<(Seq<Seq<char>>, Seq<char>, FilesystemType)> {
    if !(has_sub(fstype, btrfs_word()) || has_sub(fstype, zfs_word())) || has_sub(
        dest,
        snapshot_segment(),
    ) {
        None
    } else if fstype == zfs_word() {
        Some((split_path(dest), source, FilesystemType::Zfs))
    } else if fstype == btrfs_word() {
        Some(
            (
                split_path(dest),
                match subvol_of(options) {
                    Some(v) => v,
                    None => source,
                },
                FilesystemType::Btrfs,
            ),
        )
    } else {
        None
    }
}

/// Classifies one entry of the kernel mount table.
pub fn classify_proc_mount(source: &str, dest: &str, fstype: &str, options: &Vec<String>) -> (r: Option<
    ProcMount,
>)
    ensures
        r is Some <==> proc_mount_spec(
            source@,
            dest@,
            fstype@,
            options@.map_values(|o: String| o@),
        ) is Some,
        r is Some ==> Some(proc_mount_view(r->0)) == proc_mount_spec(
            source@,
            dest@,
            fstype@,
            options@.map_values(|o: String| o@),
        ),
{
    proof {
        reveal_strlit("zfs");
        reveal_strlit("btrfs");
        reveal_strlit(".zfs/snapshot");
        assert("zfs"@ =~= zfs_word());
        assert("btrfs"@ =~= btrfs_word());
        assert(".zfs/snapshot"@ =~= snapshot_segment());
    }
    if !(find_str(fstype, "btrfs").is_some() || find_str(fstype, "zfs").is_some()) || find_str(
        dest,
        ".zfs/snapshot",
    ).is_some() {
        return None;
    }
    let mount_point = FsPath::parse(dest);
    if str_eq(fstype, "zfs") {
        return Some(
            ProcMount {
                mount_point,
                dataset: String::from_str(source),
                fs_type: FilesystemType::Zfs,
            },
        );
    }
    if str_eq(fstype, "btrfs") {
        let dataset = match subvol_option(options) {
            Some(v) => v,
            None => String::from_str(source),
        };
        return Some(ProcMount { mount_point, dataset, fs_type: FilesystemType::Btrfs });
    }
    None
}

/// The value of the last `subvol=` option.
pub fn subvol_option(options: &Vec<String>) -> (r: Option<String>)
    ensures
        r is Some <==> subvol_of(options@.map_values(|o: String| o@)) is Some,
        r is Some ==> r->0@ == subvol_of(options@.map_values(|o: String| o@))->0,
{
    let ghost ov = options@.map_values(|o: String| o@);
    let mut i: usize = options.len();
    proof {
        reveal_strlit("=");
        reveal_strlit("subvol");
        assert("="@ =~= seq!['=']);
        assert("subvol"@ =~= subvol_word());
        assert(ov.take(i as int) =~= ov);
    }
    while i > 0
        invariant
            i <= options@.len(),
            ov == options@.map_values(|o: String| o@),
            subvol_of(ov) == subvol_of(ov.take(i as int)),
        decreases i,
    {
        let o = options[i - 1].as_str();
        proof {
            reveal_strlit("=");
            reveal_strlit("subvol");
            assert("="@ =~= seq!['=']);
            assert("subvol"@ =~= subvol_word());
            assert(ov.take(i as int).drop_last() =~= ov.take(i - 1));
            assert(ov.take(i as int).last() == o@);
        }
        match split_once_str(o, "=") {
            Some(parts) => {
                let (key, value) = parts;
                if str_eq(key.as_str(), "subvol") {
                    return Some(value);
                }
            },
            None => {},
        }
        i = i - 1;
    }
    None
}

/// The mount point of the btrfs dataset whose subvolume is `/`: the first such in `mounts`.
pub fn root_mount_path(mounts: &Vec<ProcMount>) -> (r: Option<FsPath>)
    ensures
        r is None <==> forall|i: int| 0 <= i < mounts@.len() ==> (#[trigger] mounts@[i]).dataset@ != seq!['/'],
        r is Some ==> exists|i: int|
            0 <= i < mounts@.len() && (#[trigger] mounts@[i]).dataset@ == seq!['/'] && r->0@
                == mounts@[i].mount_point@ && forall|j: int| 0 <= j < i ==> (#[trigger] mounts@[j]).dataset@ != seq!['/'],
{
    let mut i: usize = 0;
    while i < mounts.len()
        invariant
            i <= mounts@.len(),
            forall|j: int| 0 <= j < i ==> (#[trigger] mounts@[j]).dataset@ != seq!['/'],
        decreases mounts@.len() - i,
    {
        proof {
            reveal_strlit("/");
            assert("/"@ =~= seq!['/']);
        }
        if str_eq(mounts[i].dataset.as_str(), "/") {
            return Some(mounts[i].mount_point.copy());
        }
        i = i + 1;
    }
    None
}

pub open spec fn fs_tree_prefix() -> Seq<char> {
    seq!['<', 'F', 'S', '_', 'T', 'R', 'E', 'E', '>', '/']
}

/// What a line of `btrfs subvolume list -a -s` gives: the text after `path `, either under
/// `<FS_TREE>/`, resolved against the mount whose subvolume is `/`, or relative to the queried
/// mount once its first component (the subvolume's own name) is dropped.
pub open spec fn btrfs_line_spec(
    line: Seq<char>,
    mount: Seq<Seq<char>>,
    root: Option<Seq<Seq<char>>>,
) -> Option<Seq<Seq<char>>> {
    match first_occurrence(line, seq!['p', 'a', 't', 'h', ' ']) {
        None => None,
        Some(i) => {
            let after = line.skip(i + 5);
            if occurs_at(after, fs_tree_prefix(), 0) {
                match root {
                    None => None,
                    Some(r) => Some(r + split_path(after.skip(10))),
                }
            } else if split_path(after).len() == 0 {
                Some(mount)
            } else {
                Some(mount + split_path(after).skip(1))
            }
        },
    }
}

/// Reads one line of `btrfs subvolume list -a -s` output for the mount `mount`.
pub fn parse_btrfs_line(line: &str, mount: &FsPath, root: &Option<FsPath>) -> (r: Option<FsPath>)
    ensures
        r is Some <==> btrfs_line_spec(
            line@,
            mount@,
            match root {
                Some(p) => Some(p@),
                None => None,
            },
        ) is Some,
        r is Some ==> Some(r->0@) == btrfs_line_spec(
            line@,
            mount@,
            match root {
                Some(p) => Some(p@),
                None => None,
            },
        ),
{
    proof {
        reveal_strlit("path ");
        reveal_strlit("<FS_TREE>/");
        assert("path "@ =~= seq!['p', 'a', 't', 'h', ' ']);
        assert("<FS_TREE>/"@ =~= fs_tree_prefix());
    }
    let after = match split_once_str(line, "path ") {
        None => return None,
        Some(parts) => parts.1,
    };
    match strip_prefix_str(after.as_str(), "<FS_TREE>/") {
        Some(rest) => match root {
            None => None,
            Some(r) => {
                let tail = FsPath::parse(rest.as_str());
                Some(r.join(&tail))
            },
        },
        None => {
            let all = FsPath::parse(after.as_str());
            let tail = if all.depth() == 0 {
                FsPath::root()
            } else {
                all.suffix(1)
            };
            proof {
                if all@.len() == 0 {
                    assert(mount@ + tail@ =~= mount@);
                }
            }
            Some(mount.join(&tail))
        },
    }
}

} // verus!
