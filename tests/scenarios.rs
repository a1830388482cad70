use httm::deleted::{deleted_names, descend_into_phantom, entries_to_show, phantoms, DeletedMode, WalkPolicy};
use httm::diff::{apply_order, collapse, ingest_by_line, DiffType};
use httm::hard_links::{plan_group_links, FileEntry, HardLinkMap, LinkAction};
use httm::path::FsPath;
use httm::resolve::{Alias, FilesystemInfo, FilesystemType, MountRecord, ResolveError};
use httm::roll_forward::{action_order, Action, RollForward};
use httm::versions::{keep_all, unique_metadata, PathDescriptor, PathMetadata};

fn p(s: &str) -> FsPath {
    FsPath::parse(s)
}

fn text(path: &FsPath) -> String {
    path.to_text()
}

fn desc(s: &str, size: u64, time: u64) -> PathDescriptor {
    PathDescriptor { path: p(s), metadata: Some(PathMetadata { size, modify_time: time }) }
}

fn names(v: &[&str]) -> Vec<String> {
    v.iter().map(|s| s.to_string()).collect()
}

#[test]
fn basic_version_list() {
    let candidates = vec![
        desc("/tank/home/.zfs/snapshot/s1/a.txt", 10, 100),
        desc("/tank/home/.zfs/snapshot/s2/a.txt", 20, 200),
        desc("/tank/home/.zfs/snapshot/s3/a.txt", 20, 200),
    ];
    let unique = unique_metadata(&candidates);
    assert_eq!(unique.len(), 2);
    assert_eq!(unique[0].metadata.unwrap().size, 10);
    assert_eq!(unique[1].metadata.unwrap().size, 20);
    let all = keep_all(&candidates);
    assert_eq!(all.len(), 3);
}

#[test]
fn phantom_detection() {
    let live = names(&["a"]);
    let snaps = vec![names(&["gone.txt", "a"])];
    let gone = deleted_names(&live, &snaps);
    assert_eq!(gone, names(&["gone.txt"]));
    let dir = p("/tank/home");
    let ph = phantoms(&dir, &gone);
    let live_entries = vec![desc("/tank/home/a", 1, 1)];
    let shown = entries_to_show(DeletedMode::Only, false, &live_entries, &ph);
    assert_eq!(shown.len(), 1);
    assert!(shown[0].metadata.is_none());
    assert_eq!(text(&shown[0].path), "/tank/home/gone.txt");
}

fn home_info() -> FilesystemInfo {
    FilesystemInfo {
        mounts: vec![MountRecord {
            mount_point: p("/Volumes/Home"),
            source: "tank/home".to_string(),
            fs_type: FilesystemType::Zfs,
            snap_roots: vec![p("/Volumes/Home/.zfs/snapshot/s1")],
        }],
        aliases: vec![Alias { local_dir: p("/Users/me"), remote_dir: p("/Volumes/Home") }],
    }
}

#[test]
fn alias_rewrite() {
    let info = home_info();
    let r = info.resolve(&p("/Users/me/doc")).ok().unwrap();
    assert_eq!(text(&r.proximate_mount), "/Volumes/Home");
    assert_eq!(text(&r.relative), "/doc");
    assert_eq!(r.relative.comps, names(&["doc"]));
    assert_eq!(r.snap_mounts.len(), 1);
    assert_eq!(text(&r.snap_mounts[0]), "/Volumes/Home/.zfs/snapshot/s1");
}

#[test]
fn path_not_under_dataset() {
    let info = home_info();
    assert!(matches!(info.resolve(&p("/etc/passwd")), Err(ResolveError::NotUnderKnownDataset)));
}

#[test]
fn proximate_idempotence_example() {
    let info = home_info();
    let r = info.resolve(&p("/Users/me/a/b")).ok().unwrap();
    let again = info.resolve(&r.proximate_mount.join(&r.relative)).ok().unwrap();
    assert_eq!(text(&again.proximate_mount), text(&r.proximate_mount));
    assert_eq!(text(&again.relative), text(&r.relative));
}

#[test]
fn longest_mount_wins() {
    let info = FilesystemInfo {
        mounts: vec![
            MountRecord { mount_point: p("/tank"), source: "tank".to_string(), fs_type: FilesystemType::Zfs, snap_roots: vec![] },
            MountRecord { mount_point: p("/tank/home"), source: "tank/home".to_string(), fs_type: FilesystemType::Zfs, snap_roots: vec![] },
        ],
        aliases: vec![],
    };
    let r = info.resolve(&p("/tank/home/x")).ok().unwrap();
    assert_eq!(text(&r.proximate_mount), "/tank/home");
    assert_eq!(text(&r.relative), "/x");
}

fn home_roll() -> RollForward {
    RollForward {
        dataset_name: "tank/home".to_string(),
        snap_name: "s1".to_string(),
        proximate_dataset_mount: p("/tank/home"),
    }
}

#[test]
fn roll_forward_rename() {
    let rf = home_roll();
    let ev = ingest_by_line("1700000000.5\tR\t/tank/home/b\t/tank/home/a").ok().unwrap();
    let plan = rf.plan_event(&ev).unwrap();
    assert_eq!(plan.len(), 2);
    match &plan[0] {
        Action::OverwriteOrRemove { live, snap } => {
            assert_eq!(text(live), "/tank/home/a");
            assert_eq!(text(snap), "/tank/home/.zfs/snapshot/s1/a");
        }
        _ => panic!("expected overwrite-or-remove"),
    }
    match &plan[1] {
        Action::CopyIfPresent { live, snap } => {
            assert_eq!(text(live), "/tank/home/b");
            assert_eq!(text(snap), "/tank/home/.zfs/snapshot/s1/b");
        }
        _ => panic!("expected copy-if-present"),
    }
}

#[test]
fn modified_and_created_plans() {
    let rf = home_roll();
    let m = ingest_by_line("1.0\tM\t/tank/home/f").ok().unwrap();
    assert!(matches!(rf.plan_event(&m).unwrap()[0], Action::Copy { .. }));
    let c = ingest_by_line("1.0\t+\t/tank/home/f").ok().unwrap();
    assert!(matches!(rf.plan_event(&c).unwrap()[0], Action::OverwriteOrRemove { .. }));
    let outside = ingest_by_line("1.0\t-\t/elsewhere/f").ok().unwrap();
    assert!(rf.plan_event(&outside).is_none());
}

#[test]
fn hard_link_restore() {
    let live = vec![p("/tank/home/x"), p("/tank/home/y")];
    let snap = vec![p("/tank/home/.zfs/snapshot/s1/x"), p("/tank/home/.zfs/snapshot/s1/y")];
    let plan = plan_group_links(&live, &snap, &vec![true, false], &vec![true, true]);
    assert_eq!(plan.len(), 2);
    match &plan[0] {
        LinkAction::CopyFromSnap { live, snap } => {
            assert_eq!(text(live), "/tank/home/x");
            assert_eq!(text(snap), "/tank/home/.zfs/snapshot/s1/x");
        }
        _ => panic!("expected a copy of the original"),
    }
    match &plan[1] {
        LinkAction::Link { original, link } => {
            assert_eq!(text(original), "/tank/home/x");
            assert_eq!(text(link), "/tank/home/y");
        }
        _ => panic!("expected a link"),
    }
}

#[test]
fn hard_link_first_copy_becomes_original() {
    let live = vec![p("/d/x"), p("/d/y")];
    let snap = vec![p("/s/x"), p("/s/y")];
    let plan = plan_group_links(&live, &snap, &vec![false, false], &vec![true, true]);
    assert!(matches!(&plan[0], LinkAction::CopyFromSnap { .. }));
    match &plan[1] {
        LinkAction::Link { original, link } => {
            assert_eq!(text(original), "/d/x");
            assert_eq!(text(link), "/d/y");
        }
        _ => panic!("expected a link"),
    }
}

#[test]
fn hard_link_map_groups_by_inode() {
    let entries = vec![
        FileEntry { ino: 7, path: p("/d/x") },
        FileEntry { ino: 9, path: p("/d/z") },
        FileEntry { ino: 7, path: p("/d/y") },
    ];
    let m = HardLinkMap::new(&entries);
    assert_eq!(m.link_map.len(), 1);
    assert_eq!(m.link_map[0].ino, 7);
    let paths: Vec<String> = m.link_map[0].paths.iter().map(text).collect();
    assert_eq!(paths, names(&["/d/x", "/d/y"]));
    assert_eq!(m.remainder.len(), 1);
    assert_eq!(text(&m.remainder[0]), "/d/z");
}

#[test]
fn collapse_keeps_latest_event() {
    let events = vec![
        ingest_by_line("10.5\tM\t/tank/home/f").ok().unwrap(),
        ingest_by_line("10.7\t-\t/tank/home/f").ok().unwrap(),
        ingest_by_line("9.0\t+\t/tank/home/g").ok().unwrap(),
        ingest_by_line("10.6\t+\t/tank/home/f").ok().unwrap(),
    ];
    let kept = collapse(&events);
    assert_eq!(kept.len(), 2);
    assert_eq!(text(&kept[0].path), "/tank/home/f");
    assert_eq!(kept[0].time.secs, 10);
    assert_eq!(kept[0].time.nanos, 7);
    assert!(matches!(kept[0].diff_type, DiffType::Removed));
    assert_eq!(text(&kept[1].path), "/tank/home/g");
}

#[test]
fn collapse_tie_prefers_modification() {
    let events = vec![
        ingest_by_line("5.5\tM\t/a").ok().unwrap(),
        ingest_by_line("5.5\t-\t/a").ok().unwrap(),
    ];
    let kept = collapse(&events);
    assert_eq!(kept.len(), 1);
    assert!(matches!(kept[0].diff_type, DiffType::Modified));
}

#[test]
fn apply_order_puts_children_first() {
    let events = vec![
        ingest_by_line("1.0\tM\t/tank/home").ok().unwrap(),
        ingest_by_line("1.0\tM\t/tank/home/d/f").ok().unwrap(),
        ingest_by_line("1.0\tM\t/tank/home/d").ok().unwrap(),
    ];
    let order = apply_order(&events);
    assert_eq!(order, vec![1, 2, 0]);
}

#[test]
fn planned_events_skip_exclusions_and_go_deepest_first() {
    let rf = home_roll();
    let events = vec![
        ingest_by_line("1.0\tM\t/tank/home/d").ok().unwrap(),
        ingest_by_line("1.0\t-\t/tank/home/d/f").ok().unwrap(),
        ingest_by_line("1.0\tM\t/tank/home/linked").ok().unwrap(),
        ingest_by_line("1.0\tR\t/tank/home/old\t/tank/home/linked2").ok().unwrap(),
    ];
    let order = apply_order(&events);
    let excluded = vec![p("/tank/home/linked"), p("/tank/home/linked2")];
    let plan = rf.plan_events(&events, &order, &excluded).unwrap();
    assert_eq!(plan.len(), 2);
    match &plan[0] {
        Action::Copy { live, .. } => assert_eq!(text(live), "/tank/home/d/f"),
        _ => panic!("expected a copy"),
    }
    match &plan[1] {
        Action::Copy { live, .. } => assert_eq!(text(live), "/tank/home/d"),
        _ => panic!("expected a copy"),
    }
}

#[test]
fn walk_policy() {
    let strict = WalkPolicy { one_filesystem: true, no_traverse: true, no_hidden: true };
    let loose = WalkPolicy { one_filesystem: false, no_traverse: false, no_hidden: false };
    assert!(!strict.keep_entry(".git"));
    assert!(strict.keep_entry("src"));
    assert!(loose.keep_entry(".git"));
    assert!(strict.enter(true, false, 1, 1));
    assert!(!strict.enter(true, false, 2, 1));
    assert!(!strict.enter(true, true, 1, 1));
    assert!(loose.enter(true, true, 2, 1));
    assert!(!loose.enter(false, false, 1, 1));
    assert!(!descend_into_phantom(DeletedMode::DepthOfOne));
    assert!(descend_into_phantom(DeletedMode::All));
    assert!(descend_into_phantom(DeletedMode::Only));
}

#[test]
fn actions_directory_last_with_renames() {
    let rf = home_roll();
    let events = vec![
        ingest_by_line("1.0\tM\t/tank/home/d").ok().unwrap(),
        ingest_by_line("1.0\tR\t/tank/home/x\t/tank/home/d/e/f").ok().unwrap(),
    ];
    let order = apply_order(&events);
    let plan = rf.plan_events(&events, &order, &vec![]).unwrap();
    let targets: Vec<String> = action_order(&plan)
        .into_iter()
        .map(|i| match &plan[i] {
            Action::Copy { live, .. } | Action::OverwriteOrRemove { live, .. } | Action::CopyIfPresent { live, .. } => text(live),
        })
        .collect();
    assert_eq!(targets, vec!["/tank/home/d/e/f".to_string(), "/tank/home/d".to_string(), "/tank/home/x".to_string()]);
}
