use httm::deleted::{entries_to_show, DeletedMode};
use httm::display::{format_version_line, pad_left, pad_right, BulkExclusion, DisplaySet, DisplaySetType, PaddingCollection, PrintAsMap, VersionsDisplayWrapper, VersionsEntry};
use httm::hard_links::select_paths;
use httm::path::FsPath;
use httm::resolve::FilesystemType;
use httm::utility::{delimiter, fs_type_from_hidden_dir, is_metadata_same, preserve_recursive, LastInTimeSet, MetadataMismatch, PrintMode};
use httm::versions::{last_version, omit_ditto, unique_contents, PathDescriptor, PathMetadata};

fn p(s: &str) -> FsPath {
    FsPath::parse(s)
}

fn desc(s: &str, md: Option<(u64, u64)>) -> PathDescriptor {
    PathDescriptor { path: p(s), metadata: md.map(|(size, modify_time)| PathMetadata { size, modify_time }) }
}

fn sample_map() -> PrintAsMap {
    PrintAsMap {
        inner: vec![
            ("/a".to_string(), vec!["/s1/a".to_string(), "/s2/a".to_string()]),
            ("/bb".to_string(), vec![]),
        ],
    }
}

#[test]
fn map_padding_is_longest_key_plus_quotes() {
    assert_eq!(sample_map().map_padding(), 5);
    assert_eq!(PrintAsMap { inner: vec![] }.map_padding(), 2);
}

#[test]
fn map_format_pretty() {
    let s = sample_map().format(PrintMode::FormattedDefault, false);
    assert_eq!(s, "\"/a\"  : \"/s1/a\"\n      : \"/s2/a\"\n");
}

#[test]
fn map_format_not_pretty() {
    let s = sample_map().format(PrintMode::FormattedNotPretty, false);
    assert_eq!(s, "/a:\t/s1/a\t/s2/a\n/bb:\n");
    let t = sample_map().format(PrintMode::FormattedNotPretty, true);
    assert_eq!(t, "/a:\t/s1/a\t/s2/a\n");
}

#[test]
fn padding_and_borders() {
    assert_eq!(pad_right("ab", 4), "ab  ");
    assert_eq!(pad_right("abcdef", 4), "abcdef");
    assert_eq!(PaddingCollection::fancy_border_string(3, None), "───\n");
    assert_eq!(PaddingCollection::fancy_border_string(5, Some(2)), "──\n");
    assert_eq!(PaddingCollection::fancy_border_string(2, Some(80)), "──\n");
}

#[test]
fn display_set_types() {
    assert_eq!(DisplaySetType::from_index(0), DisplaySetType::IsSnap);
    assert_eq!(DisplaySetType::from_index(1), DisplaySetType::IsLive);
    assert!(!DisplaySetType::IsLive.filter_bulk_exclusions(Some(BulkExclusion::NoLive)));
    assert!(DisplaySetType::IsSnap.filter_bulk_exclusions(Some(BulkExclusion::NoLive)));
    assert!(!DisplaySetType::IsSnap.filter_bulk_exclusions(Some(BulkExclusion::NoSnap)));
    assert!(DisplaySetType::IsLive.filter_bulk_exclusions(None));
}

#[test]
fn delimiters() {
    assert_eq!(delimiter(PrintMode::RawZero), '\0');
    assert_eq!(delimiter(PrintMode::RawNewline), '\n');
    assert_eq!(delimiter(PrintMode::FormattedDefault), '\n');
}

#[test]
fn hidden_dirs() {
    assert_eq!(fs_type_from_hidden_dir(true, true), Some(FilesystemType::Zfs));
    assert_eq!(fs_type_from_hidden_dir(false, true), Some(FilesystemType::Btrfs));
    assert_eq!(fs_type_from_hidden_dir(false, false), None);
}

#[test]
fn metadata_comparison() {
    let a = Some(PathMetadata { size: 1, modify_time: 2 });
    let b = Some(PathMetadata { size: 1, modify_time: 3 });
    let none: Vec<(String, Vec<u8>)> = vec![];
    assert_eq!(is_metadata_same(None, a, false, &None, &None, &none, &none), Err(MetadataMismatch::NotFound));
    assert_eq!(is_metadata_same(a, a, false, &None, &None, &none, &none), Ok(()));
    assert_eq!(is_metadata_same(a, b, false, &None, &None, &none, &none), Err(MetadataMismatch::Metadata));
    let t1 = Some("x".to_string());
    let t2 = Some("y".to_string());
    assert_eq!(is_metadata_same(a, a, true, &t1, &t2, &none, &none), Err(MetadataMismatch::SymlinkTarget));
    assert_eq!(is_metadata_same(a, a, true, &t1, &t1.clone(), &none, &none), Ok(()));
}

#[test]
fn metadata_comparison_extended_attributes() {
    let a = Some(PathMetadata { size: 1, modify_time: 2 });
    let x = vec![("user.tag".to_string(), vec![1u8, 2])];
    let y = vec![("user.tag".to_string(), vec![1u8, 3])];
    let z = vec![("user.other".to_string(), vec![1u8, 2])];
    let none: Vec<(String, Vec<u8>)> = vec![];
    assert_eq!(is_metadata_same(a, a, false, &None, &None, &x, &x.clone()), Ok(()));
    assert_eq!(is_metadata_same(a, a, false, &None, &None, &x, &y), Err(MetadataMismatch::ExtendedAttributes));
    assert_eq!(is_metadata_same(a, a, false, &None, &None, &x, &z), Err(MetadataMismatch::ExtendedAttributes));
    assert_eq!(is_metadata_same(a, a, false, &None, &None, &x, &none), Err(MetadataMismatch::ExtendedAttributes));
}

#[test]
fn preserve_pairs_walk_up_to_dataset() {
    let pairs = preserve_recursive(&p("/s/a/b"), &p("/tank/home/a/b"), &p("/tank/home")).unwrap();
    let got: Vec<(String, String)> = pairs.iter().map(|(x, y)| (x.to_text(), y.to_text())).collect();
    assert_eq!(got, vec![("/s/a/b".to_string(), "/tank/home/a/b".to_string()), ("/s/a".to_string(), "/tank/home/a".to_string())]);
    assert!(preserve_recursive(&p("/s/a"), &p("/other/a"), &p("/tank/home")).is_err());
}

#[test]
fn ditto_and_contents() {
    let v = vec![desc("/s1/f", Some((1, 1))), desc("/s2/f", Some((2, 2)))];
    let live = PathMetadata { size: 2, modify_time: 2 };
    let kept = omit_ditto(&v, &live);
    assert_eq!(kept.len(), 1);
    assert_eq!(kept[0].path.to_text(), "/s1/f");
    let c = vec![desc("/s1/f", Some((5, 1))), desc("/s2/f", None), desc("/s3/f", Some((5, 2))), desc("/s4/f", Some((6, 3)))];
    let ids = vec![10u64, 11, 10, 12];
    assert_eq!(unique_contents(&c, &ids), vec![0, 3]);
}

#[test]
fn last_in_time() {
    let c = vec![desc("/s1/f", Some((1, 5))), desc("/s2/f", Some((9, 7))), desc("/s3/f", None), desc("/s4/f", Some((3, 7)))];
    let last = last_version(&c).unwrap();
    assert_eq!(last.path.to_text(), "/s2/f");
    let same = LastInTimeSet::get_last_version(&c).unwrap();
    assert_eq!(same.path.to_text(), "/s2/f");
    assert!(last_version(&vec![desc("/s/f", None)]).is_none());
    let set = LastInTimeSet { inner: vec![last.path] };
    assert_eq!(set.inner.len(), 1);
}

#[test]
fn deleted_modes() {
    let live = vec![desc("/d/a", Some((1, 1)))];
    let ph = vec![desc("/d/gone", None)];
    assert_eq!(entries_to_show(DeletedMode::All, false, &live, &ph).len(), 2);
    assert_eq!(entries_to_show(DeletedMode::DepthOfOne, true, &live, &ph).len(), 1);
    assert_eq!(entries_to_show(DeletedMode::DepthOfOne, false, &live, &ph).len(), 2);
}

#[test]
fn orphan_differences() {
    let live = vec![p("/d/a"), p("/d/b")];
    let snap = vec![p("/d/b"), p("/d/c")];
    let only_live: Vec<String> = select_paths(&live, &snap, false).iter().map(|x| x.to_text()).collect();
    assert_eq!(only_live, vec!["/d/a".to_string()]);
    let both: Vec<String> = select_paths(&live, &snap, true).iter().map(|x| x.to_text()).collect();
    assert_eq!(both, vec!["/d/b".to_string()]);
}

#[test]
fn version_lines() {
    assert_eq!(pad_left("ab", 4), "  ab");
    assert_eq!(format_version_line(true, "D", "1 KiB", "/p", 9), "D\t1 KiB\t/p\n");
    assert_eq!(format_version_line(false, "D", "1 KiB", "/p", 7), "D    1 KiB  \"/p     \"\n");
}

#[test]
fn padding_collection_widths() {
    let lines = vec![
        ("Mon".to_string(), "10 bytes".to_string(), "/a".to_string()),
        ("Tue".to_string(), "1.5 KiB".to_string(), "/abc".to_string()),
    ];
    let pc = PaddingCollection::new(&lines, "xxxxx", "yyy", None);
    assert_eq!(pc.size_padding_len, 8);
    assert_eq!(pc.fancy_border_string, format!("{}\n", "─".repeat(21)));
    assert_eq!(pc.phantom_date_pad_str, "     ");
    assert_eq!(pc.phantom_size_pad_str, "   ");
    let narrow = PaddingCollection::new(&lines, "", "", Some(4));
    assert_eq!(narrow.fancy_border_string, "────\n");
}

#[test]
fn display_set_text() {
    let set = DisplaySet { snaps: "S\n".to_string(), live: "L\n".to_string() };
    assert_eq!(set.format(PrintMode::FormattedDefault, None, "--\n"), "--\nS\n--\nL\n--\n");
    assert_eq!(set.format(PrintMode::FormattedNotPretty, None, "--\n"), "S\nL\n");
    assert_eq!(set.format(PrintMode::FormattedDefault, Some(BulkExclusion::NoLive), "--\n"), "--\nS\n--\n");
    let empty = DisplaySet { snaps: String::new(), live: "L\n".to_string() };
    assert_eq!(empty.format(PrintMode::FormattedDefault, None, "--\n"), "--\nL\n--\n");
}

fn listing() -> VersionsDisplayWrapper {
    VersionsDisplayWrapper {
        inner: vec![VersionsEntry {
            snaps: vec![("D1".to_string(), "10 bytes".to_string(), "/s/a".to_string())],
            live: ("D2".to_string(), "20 bytes".to_string(), "/a".to_string()),
        }],
    }
}

#[test]
fn versions_listing_pretty() {
    let border = format!("{}\n", "─".repeat(20));
    let expected = format!("{border}D1  10 bytes  \"/s/a    \"\n{border}D2  20 bytes  \"/a      \"\n{border}");
    assert_eq!(listing().format(PrintMode::FormattedDefault, None, "", "", None), expected);
}

#[test]
fn versions_listing_raw() {
    assert_eq!(listing().format(PrintMode::RawNewline, None, "", "", None), "/s/a\n/a\n");
    assert_eq!(listing().format(PrintMode::RawZero, Some(BulkExclusion::NoSnap), "", "", None), "/a\0");
    assert_eq!(listing().format(PrintMode::FormattedNotPretty, None, "", "", None), "D1\t10 bytes\t/s/a\nD2\t20 bytes\t/a\n");
}

#[test]
fn last_in_time_set_for_a_deleted_file() {
    let candidates = vec![vec![desc("/tank/home/.zfs/snapshot/s1/gone.txt", Some((4, 9)))]];
    let set = LastInTimeSet::new(&candidates);
    let got: Vec<String> = set.inner.iter().map(|p| p.to_text()).collect();
    assert_eq!(got, vec!["/tank/home/.zfs/snapshot/s1/gone.txt".to_string()]);
    let none = LastInTimeSet::new(&vec![vec![desc("/tank/home/.zfs/snapshot/s1/x", None)]]);
    assert!(none.inner.is_empty());
}

#[test]
fn last_version_prefers_later_on_ties() {
    let c = vec![
        desc("/tank/home/.zfs/snapshot/s1/a.txt", Some((10, 100))),
        desc("/tank/home/.zfs/snapshot/s2/a.txt", Some((20, 200))),
        desc("/tank/home/.zfs/snapshot/s3/a.txt", Some((20, 200))),
    ];
    assert_eq!(last_version(&c).unwrap().path.to_text(), "/tank/home/.zfs/snapshot/s3/a.txt");
}

#[test]
fn raw_listing_of_all_versions() {
    let line = |p: &str| (String::new(), String::new(), p.to_string());
    let w = VersionsDisplayWrapper {
        inner: vec![VersionsEntry {
            snaps: vec![
                line("/tank/home/.zfs/snapshot/s1/a.txt"),
                line("/tank/home/.zfs/snapshot/s2/a.txt"),
                line("/tank/home/.zfs/snapshot/s3/a.txt"),
            ],
            live: line("/tank/home/a.txt"),
        }],
    };
    assert_eq!(
        w.format(PrintMode::RawNewline, None, "", "", None),
        "/tank/home/.zfs/snapshot/s1/a.txt\n/tank/home/.zfs/snapshot/s2/a.txt\n/tank/home/.zfs/snapshot/s3/a.txt\n/tank/home/a.txt\n"
    );
}
