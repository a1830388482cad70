use httm::diff::{ingest_by_line, DiffParseError, DiffTime, DiffType};
use httm::mounts::{classify_proc_mount, parse_btrfs_line, parse_mount_cmd_line};
use httm::path::{find_common_path, make_tmp_path, FsPath};
use httm::resolve::FilesystemType;
use httm::roll_forward::{split_snap_name, RollForward};
use httm::text::{parse_u64, split_fields};

fn p(s: &str) -> FsPath {
    FsPath::parse(s)
}

#[test]
fn path_parse_and_render() {
    let a = p("//tank///home/");
    assert_eq!(a.comps, vec!["tank".to_string(), "home".to_string()]);
    assert_eq!(a.to_text(), "/tank/home");
    assert_eq!(p("/").to_text(), "/");
    assert_eq!(p("").depth(), 0);
}

#[test]
fn tmp_path() {
    assert_eq!(make_tmp_path(&p("/a/b.txt")).to_text(), "/a/b.txt.tmp");
    assert_eq!(make_tmp_path(&p("/")).to_text(), "/.tmp");
}

#[test]
fn common_path() {
    let v = vec![p("/tank/home/a"), p("/tank/home/b/c"), p("/tank/home")];
    assert_eq!(find_common_path(&v).unwrap().to_text(), "/tank/home");
    let w = vec![p("/tank/a"), p("/usr/b")];
    assert!(find_common_path(&w).is_none());
    assert!(find_common_path(&vec![]).is_none());
    assert_eq!(find_common_path(&vec![p("/x/y")]).unwrap().to_text(), "/x/y");
}

#[test]
fn numbers() {
    assert_eq!(parse_u64("0"), Some(0));
    assert_eq!(parse_u64("+42"), Some(42));
    assert_eq!(parse_u64("18446744073709551615"), Some(u64::MAX));
    assert_eq!(parse_u64("18446744073709551616"), None);
    assert_eq!(parse_u64(""), None);
    assert_eq!(parse_u64("+"), None);
    assert_eq!(parse_u64("12a"), None);
}

#[test]
fn fields_keep_empty_pieces() {
    assert_eq!(split_fields("a\t\tb", '\t'), vec!["a".to_string(), "".to_string(), "b".to_string()]);
    assert_eq!(split_fields("", '\t'), vec!["".to_string()]);
}

#[test]
fn diff_time() {
    let t = DiffTime::parse("1700000000.123456789").unwrap();
    assert_eq!(t.secs, 1700000000);
    assert_eq!(t.nanos, 123456789);
    assert!(DiffTime::parse("17").is_none());
    assert!(DiffTime::parse("x.1").is_none());
    let a = DiffTime { secs: 1, nanos: 9 };
    let b = DiffTime { secs: 2, nanos: 0 };
    assert!(a.before(&b));
    assert!(!b.before(&a));
}

#[test]
fn diff_lines() {
    let e = ingest_by_line("1.2\t-\t/tank/home/x").ok().unwrap();
    assert!(matches!(e.diff_type, DiffType::Removed));
    assert_eq!(e.path.to_text(), "/tank/home/x");
    assert_eq!(e.time, DiffTime { secs: 1, nanos: 2 });
    let r = ingest_by_line("1.2\tR\t/tank/home/x\t/tank/home/y").ok().unwrap();
    match r.diff_type {
        DiffType::Renamed(n) => assert_eq!(n.to_text(), "/tank/home/y"),
        _ => panic!("expected a rename"),
    }
}

#[test]
fn diff_line_errors() {
    assert_eq!(ingest_by_line("1.2\t-").err(), Some(DiffParseError::MissingPath));
    assert_eq!(ingest_by_line("1.2\tR\t/x").err(), Some(DiffParseError::MissingNewName));
    assert_eq!(ingest_by_line("1.2\tQ\t/x").err(), Some(DiffParseError::UnknownKind));
    assert_eq!(ingest_by_line("12\tM\t/x").err(), Some(DiffParseError::BadTime));
}

#[test]
fn mount_command_lines() {
    let (src, mnt) = parse_mount_cmd_line("rpool/home on /home type zfs (rw,xattr)").unwrap();
    assert_eq!(src, "rpool/home");
    assert_eq!(mnt.to_text(), "/home");
    let (src, mnt) = parse_mount_cmd_line("tank/data on /data (zfs, local, noatime)").unwrap();
    assert_eq!(src, "tank/data");
    assert_eq!(mnt.to_text(), "/data");
    assert!(parse_mount_cmd_line("/dev/sda1 on / type ext4 (rw)").is_none());
    assert!(parse_mount_cmd_line("tank@s on /tank/.zfs/snapshot/s type zfs (ro)").is_none());
}

#[test]
fn proc_mount_entries() {
    let z = classify_proc_mount("rpool/home", "/home", "zfs", &vec!["rw".to_string()]).unwrap();
    assert_eq!(z.fs_type, FilesystemType::Zfs);
    assert_eq!(z.dataset, "rpool/home");
    assert_eq!(z.mount_point.to_text(), "/home");
    let opts = vec!["rw".to_string(), "subvol=/@home".to_string(), "space_cache".to_string()];
    let b = classify_proc_mount("/dev/sda2", "/home", "btrfs", &opts).unwrap();
    assert_eq!(b.fs_type, FilesystemType::Btrfs);
    assert_eq!(b.dataset, "/@home");
    let plain = classify_proc_mount("/dev/sda2", "/", "btrfs", &vec!["rw".to_string()]).unwrap();
    assert_eq!(plain.dataset, "/dev/sda2");
    assert!(classify_proc_mount("/dev/sda1", "/", "ext4", &vec![]).is_none());
    assert!(classify_proc_mount("tank@s", "/tank/.zfs/snapshot/s", "zfs", &vec![]).is_none());
}

#[test]
fn btrfs_subvolume_lines() {
    let root = Some(p("/"));
    let a = parse_btrfs_line("ID 259 gen 10 top level 5 path <FS_TREE>/@snapshots/1/snapshot", &p("/home"), &root).unwrap();
    assert_eq!(a.to_text(), "/@snapshots/1/snapshot");
    let b = parse_btrfs_line("ID 260 gen 11 top level 256 path @home/.snapshots/2/snapshot", &p("/home"), &None).unwrap();
    assert_eq!(b.to_text(), "/home/.snapshots/2/snapshot");
    assert!(parse_btrfs_line("ID 259 gen 10 top level 5 path <FS_TREE>/x", &p("/home"), &None).is_none());
    assert!(parse_btrfs_line("no such field", &p("/home"), &root).is_none());
}

#[test]
fn snap_names_and_paths() {
    let (d, s) = split_snap_name("tank/home@snap1").unwrap();
    assert_eq!(d, "tank/home");
    assert_eq!(s, "snap1");
    assert!(split_snap_name("tank/home").is_none());
    let rf = RollForward { dataset_name: d, snap_name: s, proximate_dataset_mount: p("/tank/home") };
    assert_eq!(rf.snap_dataset().to_text(), "/tank/home/.zfs/snapshot/snap1");
    let sp = rf.snap_path(&p("/tank/home/a/b")).unwrap();
    assert_eq!(sp.to_text(), "/tank/home/.zfs/snapshot/snap1/a/b");
    assert_eq!(rf.live_path(&sp).unwrap().to_text(), "/tank/home/a/b");
    assert!(rf.snap_path(&p("/other/a")).is_none());
    assert!(rf.live_path(&p("/tank/home/a")).is_none());
}
