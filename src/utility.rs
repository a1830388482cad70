//! Small decisions shared by the display and restore paths.
use vstd::prelude::*;
use crate::path::{FsPath, is_prefix, str_eq, lemma_view_push, paths_view, lemma_paths_push};
use crate::text::{has_sub, trim_spec, trim_string, contains_str, split_on, split_fields};
use crate::resolve::FilesystemType;
use crate::versions::{PathDescriptor, PathMetadata, DescriptorView, last_version, latest_index, key_lt, descs_view};

verus! {

/// How results are printed.
#[derive(Debug, Clone, Copy, PartialEq, Eq, Structural)]
pub enum PrintMode {
    FormattedDefault,
    FormattedNotPretty,
    RawNewline,
    RawZero,
}

/// The character that ends each raw result: NUL in zero-delimited mode, else a newline.
pub fn delimiter(print_mode: PrintMode) -> (r: char)
    ensures
        r == (if print_mode == PrintMode::RawZero { '\0' } else { '\n' }),
{
    match print_mode {
        PrintMode::RawZero => '\0',
        _ => '\n',
    }
}

/// The filesystem of a dataset root, told by which hidden snapshot directory it holds: ZFS's
/// first, then snapper's.
pub fn fs_type_from_hidden_dir(has_zfs_snapshot_dir: bool, has_snapper_dir: bool) -> (r: Option<
    FilesystemType,
>)
    ensures
        has_zfs_snapshot_dir ==> r == Some(FilesystemType::Zfs),
        !has_zfs_snapshot_dir && has_snapper_dir ==> r == Some(FilesystemType::Btrfs),
        !has_zfs_snapshot_dir && !has_snapper_dir ==> r is None,
{
    if has_zfs_snapshot_dir {
        Some(FilesystemType::Zfs)
    } else if has_snapper_dir {
        Some(FilesystemType::Btrfs)
    } else {
        None
    }
}

/// How a file and its restored copy differ.
#[derive(Debug, Clone, Copy, PartialEq, Eq, Structural)]
pub enum MetadataMismatch {
    /// The source has no metadata.
    NotFound,
    /// The source is a symlink whose target differs from the copy's.
    SymlinkTarget,
    /// Sizes or modification times differ.
    Metadata,
    /// The extended attributes differ.
    ExtendedAttributes,
}

/// The (name, value) views of a list of extended attributes.
pub open spec fn xattrs_view(v: Seq<(String, Vec<u8>)>) -> Seq<(Seq<char>, Seq<u8>)> {
    v.map_values(|a: (String, Vec<u8>)| (a.0@, a.1@))
}

/// Whether two byte strings are equal.
pub fn bytes_eq(a: &Vec<u8>, b: &Vec<u8>) -> (r: bool)
    ensures
        r == (a@ == b@),
{
    if a.len() != b.len() {
        return false;
    }
    let mut i: usize = 0;
    while i < a.len()
        invariant
            a@.len() == b@.len(),
            i <= a@.len(),
            a@.take(i as int) == b@.take(i as int),
        decreases a@.len() - i,
    {
        if a[i] != b[i] {
            proof {
                assert(a@.take(a@.len() as int)[i as int] != b@.take(b@.len() as int)[i as int]);
                assert(a@.take(a@.len() as int) =~= a@);
                assert(b@.take(b@.len() as int) =~= b@);
            }
            return false;
        }
        proof {
            assert(a@.take(i + 1) =~= a@.take(i as int).push(a@[i as int]));
            assert(b@.take(i + 1) =~= b@.take(i as int).push(b@[i as int]));
        }
        i = i + 1;
    }
    proof {
        assert(a@.take(i as int) =~= a@);
        assert(b@.take(i as int) =~= b@);
    }
    true
}

/// Whether two lists of extended attributes are equal, name for name and value for value.
pub fn xattrs_eq(a: &Vec<(String, Vec<u8>)>, b: &Vec<(String, Vec<u8>)>) -> (r: bool)
    ensures
        r == (xattrs_view(a@) == xattrs_view(b@)),
{
    let ghost av = xattrs_view(a@);
    let ghost bv = xattrs_view(b@);
    if a.len() != b.len() {
        proof {
            assert(av.len() != bv.len());
        }
        return false;
    }
    let mut i: usize = 0;
    while i < a.len()
        invariant
            a@.len() == b@.len(),
            i <= a@.len(),
            av == xattrs_view(a@),
            bv == xattrs_view(b@),
            av.take(i as int) == bv.take(i as int),
        decreases a@.len() - i,
    {
        let same = str_eq(a[i].0.as_str(), b[i].0.as_str()) && bytes_eq(&a[i].1, &b[i].1);
        proof {
            assert(av[i as int] == (a@[i as int].0@, a@[i as int].1@));
            assert(bv[i as int] == (b@[i as int].0@, b@[i as int].1@));
        }
        if !same {
            proof {
                assert(av.take(av.len() as int)[i as int] != bv.take(bv.len() as int)[i as int]);
                assert(av.take(av.len() as int) =~= av);
                assert(bv.take(bv.len() as int) =~= bv);
            }
            return false;
        }
        proof {
            assert(av.take(i + 1) =~= av.take(i as int).push(av[i as int]));
            assert(bv.take(i + 1) =~= bv.take(i as int).push(bv[i as int]));
        }
        i = i + 1;
    }
    proof {
        assert(av.take(i as int) =~= av);
        assert(bv.take(i as int) =~= bv);
    }
    true
}

/// Whether a restored copy matches its source: the source must have metadata, a symlink must
/// point where the source's does, the size and modification time must be equal, and so must the
/// extended attributes (each list as read, name by name, in the same order).
pub fn is_metadata_same(
    src_metadata: Option<PathMetadata>,
    dst_metadata: Option<PathMetadata>,
    src_is_symlink: bool,
    src_link_target: &Option<String>,
    dst_link_target: &Option<String>,
    src_xattrs: &Vec<(String, Vec<u8>)>,
    dst_xattrs: &Vec<(String, Vec<u8>)>,
) -> (r: Result<(), MetadataMismatch>)
    ensures
        src_metadata is None ==> r == Err::<(), _>(MetadataMismatch::NotFound),
        src_metadata is Some && src_is_symlink && opt_text(src_link_target) != opt_text(
            dst_link_target,
        ) ==> r == Err::<(), _>(MetadataMismatch::SymlinkTarget),
        src_metadata is Some && !(src_is_symlink && opt_text(src_link_target) != opt_text(
            dst_link_target,
        )) && src_metadata != dst_metadata ==> r == Err::<(), _>(MetadataMismatch::Metadata),
        src_metadata is Some && !(src_is_symlink && opt_text(src_link_target) != opt_text(
            dst_link_target,
        )) && src_metadata == dst_metadata ==> r == if xattrs_view(src_xattrs@) == xattrs_view(
            dst_xattrs@,
        ) {
            Ok::<(), MetadataMismatch>(())
        } else {
            Err(MetadataMismatch::ExtendedAttributes)
        },
{
    if src_metadata.is_none() {
        return Err(MetadataMismatch::NotFound);
    }
    if src_is_symlink {
        let same = match (src_link_target, dst_link_target) {
            (None, None) => true,
            (Some(a), Some(b)) => str_eq(a.as_str(), b.as_str()),
            _ => false,
        };
        if !same {
            return Err(MetadataMismatch::SymlinkTarget);
        }
    }
    if src_metadata != dst_metadata {
        return Err(MetadataMismatch::Metadata);
    }
    if !xattrs_eq(src_xattrs, dst_xattrs) {
        return Err(MetadataMismatch::ExtendedAttributes);
    }
    Ok(())
}

/// The characters of an optional string.
pub open spec fn opt_text(s: &Option<String>) -> Option<Seq<char>> {
    match s {
        Some(x) => Some(x@),
        None => None,
    }
}

/// The pairs of (source, destination) directories whose attributes are copied when restoring
/// `src` to `dst`: the two paths, then their parents, and so on, as many as `dst` has
/// components below its dataset `mount`, and no more than each path has ancestors.
pub open spec fn preserve_pairs(
    src: Seq<Seq<char>>,
    dst: Seq<Seq<char>>,
    mount: Seq<Seq<char>>,
) -> Seq<(Seq<Seq<char>>, Seq<Seq<char>>)> {
    let n: int = dst.len() - mount.len();
    let m: int = if n <= src.len() + 1 {
        n
    } else {
        src.len() + 1int
    };
    Seq::new(m as nat, |k: int| (src.take(src.len() - k), dst.take(dst.len() - k)))
}

pub open spec fn path_pair_view(p: (FsPath, FsPath)) -> (Seq<Seq<char>>, Seq<Seq<char>>) {
    (p.0@, p.1@)
}

/// Why attributes could not be preserved.
#[derive(Debug, Clone, Copy, PartialEq, Eq, Structural)]
pub enum PreserveError {
    /// The destination is not under its dataset mount.
    NotUnderDataset,
}

/// The (source, destination) ancestor pairs to copy attributes between when restoring `src`
/// to `dst`, whose dataset is mounted at `mount`.
pub fn preserve_recursive(src: &FsPath, dst: &FsPath, mount: &FsPath) -> (r: Result<
    Vec<(FsPath, FsPath)>,
    PreserveError,
>)
    ensures
        r is Err <==> !is_prefix(mount@, dst@),
        r is Ok ==> r->Ok_0@.map_values(|p: (FsPath, FsPath)| path_pair_view(p)) == preserve_pairs(
            src@,
            dst@,
            mount@,
        ),
{
    if !dst.starts_with(mount) {
        return Err(PreserveError::NotUnderDataset);
    }
    let n = dst.depth() - mount.depth();
    let m = if n <= src.depth() {
        n
    } else {
        src.depth() + 1
    };
    let ghost spec = preserve_pairs(src@, dst@, mount@);
    let mut out: Vec<(FsPath, FsPath)> = Vec::new();
    let mut k: usize = 0;
    while k < m
        invariant
            k <= m,
            m == spec.len(),
            m <= dst@.len() + 1,
            m <= src@.len() + 1,
            spec == preserve_pairs(src@, dst@, mount@),
            out@.len() == k,
            out@.map_values(|p: (FsPath, FsPath)| path_pair_view(p)) == spec.take(k as int),
        decreases m - k,
    {
        let a = ancestor(src, src.depth() - k);
        let b = ancestor(dst, dst.depth() - k);
        let ghost prev = out@;
        let ghost pa = a@;
        let ghost pb = b@;
        out.push((a, b));
        proof {
            assert(spec[k as int] == (pa, pb));
            assert(out@ == prev.push((a, b)));
            assert(out@[k as int] == (a, b));
            assert(out@.map_values(|p: (FsPath, FsPath)| path_pair_view(p))[k as int] == (pa, pb));
            assert(out@.map_values(|p: (FsPath, FsPath)| path_pair_view(p)) =~= spec.take(k + 1));
        }
        k = k + 1;
    }
    proof {
        assert(spec.take(k as int) =~= spec);
    }
    Ok(out)
}

/// The ancestor of `p` with its first `n` components.
fn ancestor(p: &FsPath, n: usize) -> (r: FsPath)
    requires
        n <= p@.len(),
    ensures
        r@ == p@.take(n as int),
{
    let mut r = p.copy();
    while r.comps.len() > n
        invariant
            n <= r@.len() <= p@.len(),
            r@ == p@.take(r@.len() as int),
        decreases r@.len(),
    {
        r.comps.pop();
        proof {
            assert(r@ =~= p@.take(r@.len() as int));
        }
    }
    r
}

/// How a timestamp is written.
#[derive(Debug, Clone, Copy, PartialEq, Eq, Structural)]
pub enum DateFormat {
    Display,
    Timestamp,
}

/// The last snapshot version of each requested path that has one.
pub struct LastInTimeSet {
    pub inner: Vec<FsPath>,
}

/// The candidate lists of several requested paths, as values.
pub open spec fn candidate_lists(v: Seq<Vec<PathDescriptor>>) -> Seq<Seq<DescriptorView>> {
    v.map_values(|c: Vec<PathDescriptor>| descs_view(c@))
}

/// For each list in turn that has an existing candidate, the path of its latest one.
pub open spec fn last_paths(ls: Seq<Seq<DescriptorView>>) -> Seq<Seq<Seq<char>>>
    decreases ls.len(),
{
    if ls.len() == 0 {
        Seq::empty()
    } else {
        match latest_index(ls.last()) {
            None => last_paths(ls.drop_last()),
            Some(k) => last_paths(ls.drop_last()).push(ls.last()[k].path),
        }
    }
}

/// The latest existing candidate is an existing candidate that no other exceeds.
pub proof fn lemma_latest_is_latest(c: Seq<DescriptorView>)
    ensures
        latest_index(c) is None <==> forall|k: int| 0 <= k < c.len() ==> (#[trigger] c[k]).metadata is None,
        latest_index(c) is Some ==> ({
            let b = latest_index(c)->0;
            &&& 0 <= b < c.len()
            &&& c[b].metadata is Some
            &&& forall|k: int| 0 <= k < c.len() && (#[trigger] c[k]).metadata is Some ==> !key_lt(
                c[b].metadata->0,
                c[k].metadata->0,
            )
        }),
    decreases c.len(),
{
    if c.len() > 0 {
        let d = c.drop_last();
        lemma_latest_is_latest(d);
        let n = c.len() - 1;
        assert forall|k: int| 0 <= k < d.len() implies #[trigger] d[k] == c[k] by {}
        if latest_index(c) is Some {
            let b = latest_index(c)->0;
            assert forall|k: int| 0 <= k < c.len() && (#[trigger] c[k]).metadata is Some implies !key_lt(
                c[b].metadata->0,
                c[k].metadata->0,
            ) by {
                if k < n {
                    assert(d[k] == c[k]);
                    if latest_index(d) is Some {
                        let b0 = latest_index(d)->0;
                        assert(d[b0] == c[b0]);
                    }
                }
            }
        } else {
            assert forall|k: int| 0 <= k < c.len() implies (#[trigger] c[k]).metadata is None by {
                if k < n {
                    assert(d[k] == c[k]);
                }
            }
        }
        if forall|k: int| 0 <= k < c.len() ==> (#[trigger] c[k]).metadata is None {
            assert(c[n].metadata is None);
            assert forall|k: int| 0 <= k < d.len() implies (#[trigger] d[k]).metadata is None by {
                assert(d[k] == c[k]);
            }
        }
    }
}

/// Whether `p` is the path of an existing candidate in one of the lists.
pub open spec fn existing_in(ls: Seq<Seq<DescriptorView>>, p: Seq<Seq<char>>) -> bool {
    exists|i: int, k: int| 0 <= i < ls.len() && 0 <= k < ls[i].len() && ls[i][k].metadata is Some && ls[i][k].path == p
}

/// Every path of the set is the path of an existing candidate of some requested path, and the
/// set has at most one path per requested path.
pub proof fn lemma_last_paths_existing(ls: Seq<Seq<DescriptorView>>)
    ensures
        last_paths(ls).len() <= ls.len(),
        forall|j: int| 0 <= j < last_paths(ls).len() ==> existing_in(ls, #[trigger] last_paths(ls)[j]),
    decreases ls.len(),
{
    if ls.len() > 0 {
        let d = ls.drop_last();
        lemma_last_paths_existing(d);
        lemma_latest_is_latest(ls.last());
        assert forall|j: int| 0 <= j < last_paths(ls).len() implies existing_in(ls, #[trigger] last_paths(ls)[j]) by {
            if j < last_paths(d).len() {
                assert(existing_in(d, last_paths(d)[j]));
                let (i, k) = choose|i: int, k: int|
                    0 <= i < d.len() && 0 <= k < d[i].len() && d[i][k].metadata is Some && d[i][k].path
                        == last_paths(d)[j];
                assert(ls[i] == d[i]);
            } else {
                let k = latest_index(ls.last())->0;
                assert(ls[ls.len() - 1] == ls.last());
                assert(ls[ls.len() - 1][k].path == last_paths(ls)[j]);
            }
        }
    }
}

impl LastInTimeSet {
    /// The latest snapshot version among `candidates`: the existing one with the greatest
    /// (modification time, size), the later one on a tie.
    pub fn get_last_version(candidates: &Vec<PathDescriptor>) -> (r: Option<PathDescriptor>)
        ensures
            r is Some <==> latest_index(descs_view(candidates@)) is Some,
            r is Some ==> r->0@ == descs_view(candidates@)[latest_index(descs_view(candidates@))->0],
    {
        last_version(candidates)
    }

    /// The set of latest versions, from the snapshot candidates of each requested path in turn.
    pub fn new(candidates: &Vec<Vec<PathDescriptor>>) -> (r: LastInTimeSet)
        ensures
            paths_view(r.inner@) == last_paths(candidate_lists(candidates@)),
    {
        let ghost ls = candidate_lists(candidates@);
        let mut inner: Vec<FsPath> = Vec::new();
        let mut i: usize = 0;
        while i < candidates.len()
            invariant
                i <= candidates@.len(),
                ls == candidate_lists(candidates@),
                paths_view(inner@) == last_paths(ls.take(i as int)),
            decreases candidates@.len() - i,
        {
            proof {
                assert(ls.take(i + 1).drop_last() =~= ls.take(i as int));
                assert(ls.take(i + 1).last() == descs_view(candidates@[i as int]@));
            }
            match Self::get_last_version(&candidates[i]) {
                None => {},
                Some(d) => {
                    let ghost prev = inner@;
                    let p = d.path;
                    inner.push(p);
                    proof {
                        lemma_paths_push(prev, p);
                    }
                },
            }
            i = i + 1;
        }
        proof {
            assert(ls.take(i as int) =~= ls);
        }
        LastInTimeSet { inner }
    }
}

/// Why the `zfs allow` check refused.
#[derive(Debug, Clone, Copy, PartialEq, Eq, Structural)]
pub enum ZfsAllowError {
    /// The command wrote an error.
    CommandError,
    /// The delegations do not give the user both `mount` and `snapshot`.
    NotAllowed,
}

pub open spec fn mount_word() -> Seq<char> {
    seq!['m', 'o', 'u', 'n', 't']
}

pub open spec fn snapshot_word() -> Seq<char> {
    seq!['s', 'n', 'a', 'p', 's', 'h', 'o', 't']
}

/// Whether the output of `zfs allow <dataset>` lets `user` mount and snapshot: nothing on
/// stderr once trimmed, and stdout naming the user, `mount` and `snapshot`.
pub fn check_zfs_allow(stdout_text: &str, stderr_text: &str, user: &str) -> (r: Result<(), ZfsAllowError>)
    ensures
        trim_spec(stderr_text@).len() > 0 ==> r == Err::<(), _>(ZfsAllowError::CommandError),
        trim_spec(stderr_text@).len() == 0 && !(has_sub(trim_spec(stdout_text@), user@) && has_sub(
            trim_spec(stdout_text@),
            mount_word(),
        ) && has_sub(trim_spec(stdout_text@), snapshot_word())) ==> r == Err::<(), _>(
            ZfsAllowError::NotAllowed,
        ),
        trim_spec(stderr_text@).len() == 0 && has_sub(trim_spec(stdout_text@), user@) && has_sub(
            trim_spec(stdout_text@),
            mount_word(),
        ) && has_sub(trim_spec(stdout_text@), snapshot_word()) ==> r is Ok,
{
    let err = trim_string(stderr_text);
    if err.as_str().unicode_len() > 0 {
        return Err(ZfsAllowError::CommandError);
    }
    let out = trim_string(stdout_text);
    proof {
        reveal_strlit("mount");
        reveal_strlit("snapshot");
        assert("mount"@ =~= mount_word());
        assert("snapshot"@ =~= snapshot_word());
    }
    if !contains_str(out.as_str(), user) || !contains_str(out.as_str(), "mount") || !contains_str(
        out.as_str(),
        "snapshot",
    ) {
        return Err(ZfsAllowError::NotAllowed);
    }
    Ok(())
}

/// Whether `c` separates paths read from input: newline or NUL where `lines`, else ASCII
/// white space.
pub open spec fn sep_of(lines: bool, c: char) -> bool {
    if lines {
        c == '\n' || c == '\0'
    } else {
        c == ' ' || c == '\t' || c == '\n' || c == '\u{c}' || c == '\r'
    }
}

fn is_sep(lines: bool, c: char) -> (r: bool)
    ensures
        r == sep_of(lines, c),
{
    if lines {
        c == '\n' || c == '\0'
    } else {
        c == ' ' || c == '\t' || c == '\n' || c == '\u{c}' || c == '\r'
    }
}

/// Characters since the last separator.
pub open spec fn open_run(s: Seq<char>, lines: bool) -> Seq<char>
    decreases s.len(),
{
    if s.len() == 0 || sep_of(lines, s.last()) {
        Seq::empty()
    } else {
        open_run(s.drop_last(), lines).push(s.last())
    }
}

/// Runs closed by a separator.
pub open spec fn closed_runs(s: Seq<char>, lines: bool) -> Seq<Seq<char>>
    decreases s.len(),
{
    if s.len() == 0 {
        Seq::empty()
    } else if sep_of(lines, s.last()) && open_run(s.drop_last(), lines).len() > 0 {
        closed_runs(s.drop_last(), lines).push(open_run(s.drop_last(), lines))
    } else {
        closed_runs(s.drop_last(), lines)
    }
}

/// The non-empty runs of non-separators of `s`.
pub open spec fn runs(s: Seq<char>, lines: bool) -> Seq<Seq<char>> {
    if open_run(s, lines).len() > 0 {
        closed_runs(s, lines).push(open_run(s, lines))
    } else {
        closed_runs(s, lines)
    }
}

/// The trimmed pieces that are not empty.
pub open spec fn nonempty_trimmed(pieces: Seq<Seq<char>>) -> Seq<Seq<char>>
    decreases pieces.len(),
{
    if pieces.len() == 0 {
        Seq::empty()
    } else if trim_spec(pieces.last()).len() > 0 {
        nonempty_trimmed(pieces.drop_last()).push(trim_spec(pieces.last()))
    } else {
        nonempty_trimmed(pieces.drop_last())
    }
}

/// The paths that input text names: split at newlines and NULs where it has any; else at
/// double quotes, each piece trimmed, where it has any; else at white space. Empty pieces are
/// dropped.
pub open spec fn input_paths_spec(s: Seq<char>) -> Seq<Seq<char>> {
    if s.contains('\n') || s.contains('\0') {
        runs(s, true)
    } else if s.contains('"') {
        nonempty_trimmed(split_on(s, '"'))
    } else {
        runs(s, false)
    }
}

fn split_runs(s: &str, lines: bool) -> (r: Vec<String>)
    ensures
        r@.map_values(|x: String| x@) == runs(s@, lines),
{
    let n = s.unicode_len();
    let mut out: Vec<String> = Vec::new();
    let mut start: usize = 0;
    let mut i: usize = 0;
    while i < n
        invariant
            n == s@.len(),
            start <= i <= n,
            out@.map_values(|x: String| x@) == closed_runs(s@.take(i as int), lines),
            open_run(s@.take(i as int), lines) == s@.subrange(start as int, i as int),
        decreases n - i,
    {
        let ch = s.get_char(i);
        proof {
            assert(s@.take(i + 1).drop_last() =~= s@.take(i as int));
            assert(s@.take(i + 1).last() == ch);
        }
        if is_sep(lines, ch) {
            if start < i {
                let piece = String::from_str(s.substring_char(start, i));
                let ghost prev = out@;
                out.push(piece);
                proof {
                    lemma_view_push(prev, piece);
                }
            }
            start = i + 1;
            proof {
                assert(s@.subrange(start as int, start as int) =~= Seq::<char>::empty());
            }
        } else {
            proof {
                assert(s@.subrange(start as int, i + 1) =~= s@.subrange(start as int, i as int).push(ch));
            }
        }
        i = i + 1;
    }
    if start < n {
        let piece = String::from_str(s.substring_char(start, n));
        let ghost prev = out@;
        out.push(piece);
        proof {
            lemma_view_push(prev, piece);
        }
    }
    proof {
        assert(s@.take(n as int) =~= s@);
    }
    out
}

/// The paths named by input text.
pub fn split_input_paths(s: &str) -> (r: Vec<String>)
    ensures
        r@.map_values(|x: String| x@) == input_paths_spec(s@),
{
    proof {
        reveal_strlit("\n");
        reveal_strlit("\0");
        reveal_strlit("\"");
    }
    let has_lines = crate::text::find_char(s, '\n').is_some() || crate::text::find_char(s, '\0').is_some();
    if has_lines {
        return split_runs(s, true);
    }
    if crate::text::find_char(s, '"').is_none() {
        return split_runs(s, false);
    }
    let pieces = split_fields(s, '"');
    let ghost pv = split_on(s@, '"');
    let mut out: Vec<String> = Vec::new();
    let mut i: usize = 0;
    while i < pieces.len()
        invariant
            i <= pieces@.len(),
            pv == pieces@.map_values(|x: String| x@),
            out@.map_values(|x: String| x@) == nonempty_trimmed(pv.take(i as int)),
        decreases pieces@.len() - i,
    {
        proof {
            assert(pv.take(i + 1).drop_last() =~= pv.take(i as int));
            assert(pv.take(i + 1).last() == pieces@[i as int]@);
        }
        let t = trim_string(pieces[i].as_str());
        if t.as_str().unicode_len() > 0 {
            let ghost prev = out@;
            out.push(t);
            proof {
                lemma_view_push(prev, t);
            }
        }
        i = i + 1;
    }
    proof {
        assert(pv.take(i as int) =~= pv);
    }
    out
}

} // verus!
