use httm::date::{date_string, date_string_format, utc_suffixed};
use httm::utility::DateFormat;
use httm::config::{parse_alias_pairs, AliasError};
use httm::roll_forward::{guard_snapshot_name, PrecautionarySnapType};
use httm::resolve::{FilesystemInfo, MountRecord};
use httm::hard_links::exclusions;
use httm::config::{ListSnapsFilters, SnapFilterError};
use httm::mounts::{root_mount_path, ProcMount};
use httm::path::FsPath;
use httm::resolve::FilesystemType;
use httm::roll_forward::{diff_stream_status, DiffStreamError, RollForward, RollForwardError};
use httm::text::{trim_end_string, trim_string};
use httm::utility::{check_zfs_allow, split_input_paths, ZfsAllowError};

fn strings(v: &[&str]) -> Vec<String> {
    v.iter().map(|s| s.to_string()).collect()
}

fn mount(dir: &str, dataset: &str) -> ProcMount {
    ProcMount { mount_point: FsPath::parse(dir), dataset: dataset.to_string(), fs_type: FilesystemType::Zfs }
}

#[test]
fn snap_filters_count_only() {
    let f = ListSnapsFilters::snap_filters("3  ", true).ok().unwrap();
    assert!(f.select_mode);
    assert_eq!(f.omit_num_snaps, 3);
    assert!(f.name_filters.is_none());
}

#[test]
fn snap_filters_names() {
    let f = ListSnapsFilters::snap_filters("0,daily,weekly", false).ok().unwrap();
    assert_eq!(f.name_filters.unwrap(), strings(&["daily", "weekly"]));
    let n = ListSnapsFilters::snap_filters("2,none", false).ok().unwrap();
    assert!(n.name_filters.is_none());
    let v = ListSnapsFilters::snap_filters("1,native", false).ok().unwrap();
    assert_eq!(v.name_filters.unwrap(), strings(&["ounceSnapFileMount", "httmSnapFileMount"]));
}

#[test]
fn snap_filters_bad_count() {
    assert_eq!(ListSnapsFilters::snap_filters("x,daily", false).err(), Some(SnapFilterError::InvalidMaxSnaps));
    assert_eq!(ListSnapsFilters::snap_filters("", false).err(), Some(SnapFilterError::InvalidMaxSnaps));
}

#[test]
fn zfs_allow_output() {
    let out = "---- Permissions on tank/home ----\nLocal+Descendent permissions:\n\tuser alice mount,snapshot\n";
    assert_eq!(check_zfs_allow(out, "", "alice"), Ok(()));
    assert_eq!(check_zfs_allow(out, "", "bob"), Err(ZfsAllowError::NotAllowed));
    assert_eq!(check_zfs_allow("user alice mount", "", "alice"), Err(ZfsAllowError::NotAllowed));
    assert_eq!(check_zfs_allow(out, "cannot open 'x'\n", "alice"), Err(ZfsAllowError::CommandError));
    assert_eq!(check_zfs_allow(out, "  \n", "alice"), Ok(()));
}

#[test]
fn input_paths() {
    assert_eq!(split_input_paths("/a b\n/c\n\n"), strings(&["/a b", "/c"]));
    assert_eq!(split_input_paths("/a\0/b"), strings(&["/a", "/b"]));
    assert_eq!(split_input_paths("\"/a b\" \"/c\""), strings(&["/a b", "/c"]));
    assert_eq!(split_input_paths("  /a   /b "), strings(&["/a", "/b"]));
    assert!(split_input_paths("").is_empty());
}

#[test]
fn trimming() {
    assert_eq!(trim_end_string("ab \t\n"), "ab");
    assert_eq!(trim_string("\u{3000} ab c \u{a0}"), "ab c");
    assert_eq!(trim_string("   "), "");
}

#[test]
fn roll_forward_setup() {
    let mounts = vec![mount("/tank", "tank"), mount("/tank/home", "tank/home")];
    let rf = RollForward::new("tank/home@s1", &mounts).ok().unwrap();
    assert_eq!(rf.dataset_name, "tank/home");
    assert_eq!(rf.snap_name, "s1");
    assert_eq!(rf.proximate_dataset_mount.to_text(), "/tank/home");
    assert_eq!(RollForward::new("tank/home", &mounts).err(), Some(RollForwardError::NoSnapSeparator));
    assert_eq!(RollForward::new("other@s1", &mounts).err(), Some(RollForwardError::UnknownDataset));
}

#[test]
fn diff_stream_outcomes() {
    assert_eq!(diff_stream_status(true, "warning"), Ok(()));
    assert_eq!(diff_stream_status(false, ""), Err(DiffStreamError::NoChanges));
    assert_eq!(diff_stream_status(false, "cannot open"), Err(DiffStreamError::CommandFailed));
}

#[test]
fn btrfs_root_mount() {
    let mounts = vec![mount("/home", "/@home"), mount("/", "/")];
    assert_eq!(root_mount_path(&mounts).unwrap().to_text(), "/");
    assert!(root_mount_path(&vec![mount("/home", "/@home")]).is_none());
}

#[test]
fn guard_names() {
    assert_eq!(
        guard_snapshot_name("tank/home", "2024-01-02-03:04:05_UTC", &PrecautionarySnapType::PreRollForward),
        "tank/home@httmSnapGuard-2024-01-02-03:04:05_UTC-pre"
    );
    assert_eq!(
        guard_snapshot_name("tank/home", "T", &PrecautionarySnapType::PostRollForward("s1".to_string())),
        "tank/home@httmSnapGuard-T-post-s1"
    );
}

#[test]
fn alt_replicated_candidates() {
    let rec = |d: &str, t: FilesystemType| MountRecord {
        mount_point: FsPath::parse(d),
        source: d.to_string(),
        fs_type: t,
        snap_roots: vec![],
    };
    let info = FilesystemInfo {
        mounts: vec![rec("/tank", FilesystemType::Zfs), rec("/backup", FilesystemType::Zfs), rec("/b", FilesystemType::Btrfs)],
        aliases: vec![],
    };
    let got: Vec<String> = info.alt_replicated(0, &FsPath::parse("/x/y")).iter().map(|p| p.to_text()).collect();
    assert_eq!(got, strings(&["/tank/x/y", "/backup/x/y"]));
}

#[test]
fn exclusion_set() {
    let v = |s: &[&str]| s.iter().map(|x| FsPath::parse(x)).collect::<Vec<FsPath>>();
    let got: Vec<String> = exclusions(&v(&["/a", "/b"]), &v(&["/b", "/c"]), &v(&["/x", "/y"]), &v(&["/y", "/z"]))
        .iter()
        .map(|p| p.to_text())
        .collect();
    assert_eq!(got, strings(&["/a", "/c", "/y", "/x", "/y", "/y", "/z"]));
}

#[test]
fn dates() {
    assert_eq!(date_string(0, 0, DateFormat::Timestamp).unwrap(), "1970-01-01-00:00:00_UTC");
    assert_eq!(date_string(0, 0, DateFormat::Display).unwrap(), "Thu Jan 01 00:00:00 1970 UTC");
    assert_eq!(date_string(1_000_000_000, 3600, DateFormat::Timestamp).unwrap(), "1970-01-01-01:00:01");
    assert_eq!(utc_suffixed("x".to_string(), 0, DateFormat::Timestamp), "x_UTC");
    assert_eq!(utc_suffixed("x".to_string(), 0, DateFormat::Display), "x UTC");
    assert_eq!(utc_suffixed("x".to_string(), -3600, DateFormat::Display), "x");
    assert_eq!(date_string_format(&DateFormat::Timestamp), "[year]-[month]-[day]-[hour]:[minute]:[second]");
}

#[test]
fn alias_pairs() {
    let pairs = parse_alias_pairs("/Users/me:/Volumes/Home,/a:/b").ok().unwrap();
    assert_eq!(pairs, vec![("/Users/me".to_string(), "/Volumes/Home".to_string()), ("/a".to_string(), "/b".to_string())]);
    assert_eq!(parse_alias_pairs("/Users/me").err(), Some(AliasError::MissingSeparator));
    assert_eq!(parse_alias_pairs("/a:/b,/c").err(), Some(AliasError::MissingSeparator));
    assert_eq!(parse_alias_pairs("/a:/b,").ok().unwrap(), vec![("/a".to_string(), "/b".to_string())]);
    assert!(parse_alias_pairs("").ok().unwrap().is_empty());
    assert_eq!(parse_alias_pairs("/a:/b,,").err(), Some(AliasError::MissingSeparator));
}
