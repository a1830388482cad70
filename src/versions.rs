//! Building the list of versions of a file from its snapshot candidates.
use vstd::prelude::*;
use crate::path::FsPath;

verus! {

/// Size and modification time (nanoseconds since the epoch) of a file.
#[derive(Debug, Clone, Copy, PartialEq, Eq, Structural)]
pub struct PathMetadata {
    pub size: u64,
    pub modify_time: u64,
}

/// A path with its metadata; `None` marks a phantom, a path with no live file.
pub struct PathDescriptor {
    pub path: FsPath,
    pub metadata: Option<PathMetadata>,
}

/// A descriptor as a value.
pub struct DescriptorView {
    pub path: Seq<Seq<char>>,
    pub metadata: Option<PathMetadata>,
}

impl View for PathDescriptor {
    type V = DescriptorView;

    open spec fn view(&self) -> DescriptorView {
        DescriptorView { path: self.path@, metadata: self.metadata }
    }
}

/// The views of a sequence of descriptors.
pub open spec fn descs_view(v: Seq<PathDescriptor>) -> Seq<DescriptorView> {
    v.map_values(|d: PathDescriptor| d@)
}

/// The views grow by one view when a descriptor is pushed.
pub proof fn lemma_descs_push(v: Seq<PathDescriptor>, d: PathDescriptor)
    ensures
        descs_view(v.push(d)) == descs_view(v).push(d@),
{
    assert(descs_view(v.push(d)) =~= descs_view(v).push(d@));
}

impl PathDescriptor {
    /// A copy of this descriptor.
    pub fn copy(&self) -> (r: PathDescriptor)
        ensures
            r@ == self@,
    {
        PathDescriptor { path: self.path.copy(), metadata: self.metadata }
    }

    /// Whether this descriptor is a phantom.
    pub fn is_phantom(&self) -> (r: bool)
        ensures
            r == (self.metadata is None),
    {
        self.metadata.is_none()
    }
}

/// Which snapshot versions count as distinct.
#[derive(Debug, Clone, Copy, PartialEq, Eq, Structural)]
pub enum ListSnapsOfType {
    /// Every version.
    All,
    /// One version per modification time and size.
    UniqueMetadata,
    /// One version per content.
    UniqueContents,
}

/// Whether metadata `a` orders strictly before `b`: by modification time, then size.
pub open spec fn key_lt(a: PathMetadata, b: PathMetadata) -> bool {
    a.modify_time < b.modify_time || (a.modify_time == b.modify_time && a.size < b.size)
}

/// Whether metadata `a` orders strictly before `b`.
pub fn key_before(a: &PathMetadata, b: &PathMetadata) -> (r: bool)
    ensures
        r == key_lt(*a, *b),
{
    a.modify_time < b.modify_time || (a.modify_time == b.modify_time && a.size < b.size)
}

/// Whether the candidate `d` is one of `c`.
pub open spec fn from_candidates(c: Seq<DescriptorView>, d: DescriptorView) -> bool {
    exists|k: int| 0 <= k < c.len() && #[trigger] c[k] == d
}

/// Versions one per metadata: `r` holds only candidates that exist, in strictly increasing
/// order of (modification time, size), and one of each such key that a candidate has.
pub open spec fn unique_by_metadata(c: Seq<DescriptorView>, r: Seq<DescriptorView>) -> bool {
    &&& forall|j: int| 0 <= j < r.len() ==> #[trigger] r[j].metadata is Some && from_candidates(c, r[j])
    &&& forall|a: int, b: int|
        0 <= a < b < r.len() ==> key_lt(r[a].metadata->0, r[b].metadata->0)
    &&& forall|k: int|
        0 <= k < c.len() && (#[trigger] c[k]).metadata is Some ==> exists|j: int|
            0 <= j < r.len() && r[j].metadata == c[k].metadata
}

/// Versions kept one per metadata never share a (size, modification time): no two of them
/// have equal metadata.
pub proof fn lemma_unique_metadata_distinct(c: Seq<DescriptorView>, r: Seq<DescriptorView>, a: int, b: int)
    requires
        unique_by_metadata(c, r),
        0 <= a < r.len(),
        0 <= b < r.len(),
        a != b,
    ensures
        r[a].metadata != r[b].metadata,
{
    if a < b {
        assert(key_lt(r[a].metadata->0, r[b].metadata->0));
    } else {
        assert(key_lt(r[b].metadata->0, r[a].metadata->0));
    }
}

/// Versions kept one per content never share a content class.
pub proof fn lemma_unique_contents_distinct(c: Seq<DescriptorView>, ids: Seq<u64>, r: Seq<usize>, a: int, b: int)
    requires
        first_of_class(c, ids, r),
        0 <= a < r.len(),
        0 <= b < r.len(),
        a != b,
    ensures
        ids[r[a] as int] != ids[r[b] as int],
{
}

/// The candidates that exist, in their order.
pub open spec fn existing(c: Seq<DescriptorView>) -> Seq<DescriptorView>
    decreases c.len(),
{
    if c.len() == 0 {
        Seq::empty()
    } else if c.last().metadata is Some {
        existing(c.drop_last()).push(c.last())
    } else {
        existing(c.drop_last())
    }
}

/// The candidates whose metadata differs from `live`, in their order.
pub open spec fn not_ditto(c: Seq<DescriptorView>, live: PathMetadata) -> Seq<DescriptorView>
    decreases c.len(),
{
    if c.len() == 0 {
        Seq::empty()
    } else if c.last().metadata != Some(live) {
        not_ditto(c.drop_last(), live).push(c.last())
    } else {
        not_ditto(c.drop_last(), live)
    }
}

/// Indices of versions one per content: `r` lists, in increasing order, each candidate that
/// exists and whose content class no earlier existing candidate has.
pub open spec fn first_of_class(c: Seq<DescriptorView>, ids: Seq<u64>, r: Seq<usize>) -> bool {
    &&& forall|j: int| 0 <= j < r.len() ==> #[trigger] r[j] < c.len() && c[r[j] as int].metadata is Some
    &&& forall|a: int, b: int| 0 <= a < b < r.len() ==> r[a] < r[b]
    &&& forall|a: int, b: int| 0 <= a < b < r.len() ==> ids[r[a] as int] != ids[r[b] as int]
    &&& forall|k: int|
        0 <= k < c.len() && (#[trigger] c[k]).metadata is Some ==> exists|j: int|
            0 <= j < r.len() && r[j] <= k && ids[r[j] as int] == ids[k]
}

/// Keeps every candidate that exists, in snapshot order.
pub fn keep_all(candidates: &Vec<PathDescriptor>) -> (r: Vec<PathDescriptor>)
    ensures
        descs_view(r@) == existing(descs_view(candidates@)),
{
    let ghost c = descs_view(candidates@);
    let mut out: Vec<PathDescriptor> = Vec::new();
    let mut i: usize = 0;
    while i < candidates.len()
        invariant
            i <= candidates.len(),
            c == descs_view(candidates@),
            descs_view(out@) == existing(c.take(i as int)),
        decreases candidates.len() - i,
    {
        proof {
            assert(c.take(i + 1).drop_last() =~= c.take(i as int));
            assert(c.take(i + 1).last() == candidates@[i as int]@);
        }
        if candidates[i].metadata.is_some() {
            let d = candidates[i].copy();
            let ghost prev = out@;
            out.push(d);
            proof {
                lemma_descs_push(prev, d);
            }
        }
        i = i + 1;
    }
    proof {
        assert(c.take(i as int) =~= c);
    }
    out
}

/// Drops the versions whose metadata equals that of the live file.
pub fn omit_ditto(versions: &Vec<PathDescriptor>, live: &PathMetadata) -> (r: Vec<PathDescriptor>)
    ensures
        descs_view(r@) == not_ditto(descs_view(versions@), *live),
{
    let ghost c = descs_view(versions@);
    let mut out: Vec<PathDescriptor> = Vec::new();
    let mut i: usize = 0;
    while i < versions.len()
        invariant
            i <= versions.len(),
            c == descs_view(versions@),
            descs_view(out@) == not_ditto(c.take(i as int), *live),
        decreases versions.len() - i,
    {
        proof {
            assert(c.take(i + 1).drop_last() =~= c.take(i as int));
            assert(c.take(i + 1).last() == versions@[i as int]@);
        }
        if versions[i].metadata != Some(*live) {
            let d = versions[i].copy();
            let ghost prev = out@;
            out.push(d);
            proof {
                lemma_descs_push(prev, d);
            }
        }
        i = i + 1;
    }
    proof {
        assert(c.take(i as int) =~= c);
    }
    out
}

/// Indices of the candidates kept when versions are told apart by content: the first existing
/// candidate of each content class, where `content_ids[k]` names the class of the bytes of
/// candidate `k`.
pub fn unique_contents(candidates: &Vec<PathDescriptor>, content_ids: &Vec<u64>) -> (r: Vec<usize>)
    requires
        content_ids.len() == candidates.len(),
    ensures
        first_of_class(descs_view(candidates@), content_ids@, r@),
{
    let ghost c = descs_view(candidates@);
    let mut out: Vec<usize> = Vec::new();
    let mut i: usize = 0;
    while i < candidates.len()
        invariant
            i <= candidates.len(),
            content_ids.len() == candidates.len(),
            c == descs_view(candidates@),
            forall|j: int| 0 <= j < out@.len() ==> #[trigger] out@[j] < i && c[out@[j] as int].metadata is Some,
            forall|a: int, b: int| 0 <= a < b < out@.len() ==> out@[a] < out@[b],
            forall|a: int, b: int|
                0 <= a < b < out@.len() ==> content_ids@[out@[a] as int] != content_ids@[out@[b] as int],
            forall|k: int|
                0 <= k < i && (#[trigger] c[k]).metadata is Some ==> exists|j: int|
                    0 <= j < out@.len() && out@[j] <= k && content_ids@[out@[j] as int] == content_ids@[k],
        decreases candidates.len() - i,
    {
        proof {
            assert(c[i as int] == candidates@[i as int]@);
        }
        if candidates[i].metadata.is_some() {
            let mut j: usize = 0;
            while j < out.len() && content_ids[out[j]] != content_ids[i]
                invariant
                    j <= out@.len(),
                    content_ids.len() == candidates.len(),
                    forall|m: int| 0 <= m < out@.len() ==> #[trigger] out@[m] < i,
                    i < candidates.len(),
                    forall|m: int| 0 <= m < j ==> content_ids@[#[trigger] out@[m] as int] != content_ids@[i as int],
                decreases out.len() - j,
            {
                j = j + 1;
            }
            if j == out.len() {
                let ghost prev = out@;
                out.push(i);
                proof {
                    assert forall|k: int|
                        0 <= k < i + 1 && (#[trigger] c[k]).metadata is Some implies exists|m: int|
                        0 <= m < out@.len() && out@[m] <= k && content_ids@[out@[m] as int] == content_ids@[k] by {
                        if k < i {
                            let m = choose|m: int|
                                0 <= m < prev.len() && prev[m] <= k && content_ids@[prev[m] as int] == content_ids@[k];
                            assert(out@[m] == prev[m]);
                        } else {
                            assert(out@[prev.len() as int] == i);
                        }
                    }
                    assert forall|a: int, b: int| 0 <= a < b < out@.len() implies content_ids@[out@[a] as int]
                        != content_ids@[out@[b] as int] by {
                        if b == prev.len() {
                            assert(out@[a] == prev[a]);
                        }
                    }
                }
            } else {
                proof {
                    assert(out@[j as int] <= i);
                }
            }
        }
        i = i + 1;
    }
    out
}

/// The index of the latest existing candidate: the greatest (modification time, size), the
/// later candidate on a tie; `None` where no candidate exists.
pub open spec fn latest_index(c: Seq<DescriptorView>) -> Option<int>
    decreases c.len(),
{
    if c.len() == 0 {
        None
    } else {
        let prev = latest_index(c.drop_last());
        match c.last().metadata {
            None => prev,
            Some(md) => match prev {
                None => Some(c.len() - 1),
                Some(b) => if key_lt(md, c[b].metadata->0) {
                    prev
                } else {
                    Some(c.len() - 1)
                },
            },
        }
    }
}

/// The latest version among `candidates`: an existing candidate whose (modification time, size)
/// no other existing candidate exceeds; on a tie the later candidate.
pub fn last_version(candidates: &Vec<PathDescriptor>) -> (r: Option<PathDescriptor>)
    ensures
        r is Some <==> latest_index(descs_view(candidates@)) is Some,
        r is Some ==> r->0@ == descs_view(candidates@)[latest_index(descs_view(candidates@))->0],
        r is Some <==> exists|k: int|
            0 <= k < candidates@.len() && (#[trigger] candidates@[k]).metadata is Some,
        r is Some ==> r->0.metadata is Some && from_candidates(descs_view(candidates@), r->0@)
            && forall|k: int|
            0 <= k < candidates@.len() && (#[trigger] candidates@[k]).metadata is Some ==> !key_lt(
                r->0.metadata->0,
                candidates@[k].metadata->0,
            ),
{
    let ghost c = descs_view(candidates@);
    let mut best: Option<usize> = None;
    let mut i: usize = 0;
    while i < candidates.len()
        invariant
            i <= candidates.len(),
            c == descs_view(candidates@),
            latest_index(c.take(i as int)) == (match best {
                None => None::<int>,
                Some(b) => Some(b as int),
            }),
            best is None ==> forall|k: int| 0 <= k < i ==> (#[trigger] candidates@[k]).metadata is None,
            best is Some ==> best->0 < i && candidates@[best->0 as int].metadata is Some && forall|k: int|
                0 <= k < i && (#[trigger] candidates@[k]).metadata is Some ==> !key_lt(
                    candidates@[best->0 as int].metadata->0,
                    candidates@[k].metadata->0,
                ),
        decreases candidates.len() - i,
    {
        proof {
            assert(c.take(i + 1).drop_last() =~= c.take(i as int));
            assert(c.take(i + 1).last() == candidates@[i as int]@);
            if best is Some {
                assert(c.take(i + 1)[best->0 as int] == candidates@[best->0 as int]@);
            }
        }
        match candidates[i].metadata {
            None => {},
            Some(md) => {
                match best {
                    None => {
                        best = Some(i);
                    },
                    Some(b) => {
                        if !key_before(&md, &candidates[b].metadata.unwrap()) {
                            best = Some(i);
                        }
                    },
                }
            },
        }
        i = i + 1;
    }
    proof {
        assert(c.take(i as int) =~= c);
    }
    match best {
        None => None,
        Some(b) => {
            let d = candidates[b].copy();
            proof {
                assert(c[b as int] == d@);
            }
            Some(d)
        },
    }
}

/// Keeps one candidate per (modification time, size), ordered by that key.
pub fn unique_metadata(candidates: &Vec<PathDescriptor>) -> (r: Vec<PathDescriptor>)
    ensures
        unique_by_metadata(descs_view(candidates@), descs_view(r@)),
{
    let ghost c = descs_view(candidates@);
    let mut out: Vec<PathDescriptor> = Vec::new();
    let mut i: usize = 0;
    while i < candidates.len()
        invariant
            i <= candidates.len(),
            c == descs_view(candidates@),
            forall|j: int|
                0 <= j < out@.len() ==> (#[trigger] out@[j]).metadata is Some && from_candidates(
                    c,
                    out@[j]@,
                ),
            forall|a: int, b: int|
                0 <= a < b < out@.len() ==> key_lt(out@[a]@.metadata->0, out@[b]@.metadata->0),
            forall|k: int|
                0 <= k < i && (#[trigger] c[k]).metadata is Some ==> exists|j: int|
                    0 <= j < out@.len() && out@[j]@.metadata == c[k].metadata,
        decreases candidates.len() - i,
    {
        let d = &candidates[i];
        proof {
            assert(c[i as int] == d@);
        }
        match d.metadata {
            None => {},
            Some(md) => {
                let mut pos: usize = 0;
                while pos < out.len() && key_before(&out[pos].metadata.unwrap(), &md)
                    invariant
                        pos <= out@.len(),
                        forall|j: int| 0 <= j < out@.len() ==> (#[trigger] out@[j]).metadata is Some,
                        forall|j: int| 0 <= j < pos ==> key_lt((#[trigger] out@[j]).metadata->0, md),
                    decreases out.len() - pos,
                {
                    pos = pos + 1;
                }
                let ghost before = out@;
                let nd = d.copy();
                if pos < out.len() && out[pos].metadata == Some(md) {
                    out.set(pos, nd);
                    proof {
                        assert forall|k: int|
                            0 <= k < i + 1 && (#[trigger] c[k]).metadata is Some implies exists|j: int|
                            0 <= j < out@.len() && out@[j]@.metadata == c[k].metadata by {
                            if k < i {
                                let j = choose|j: int|
                                    0 <= j < before.len() && before[j]@.metadata == c[k].metadata;
                                assert(out@[j]@.metadata == c[k].metadata);
                            } else {
                                assert(out@[pos as int]@.metadata == c[k].metadata);
                            }
                        }
                        assert forall|j: int| 0 <= j < out@.len() implies (#[trigger] out@[j]).metadata is Some
                            && from_candidates(c, out@[j]@) by {
                            if j == pos {
                                assert(c[i as int] == out@[j]@);
                            }
                        }
                    }
                } else {
                    out.insert(pos, nd);
                    proof {
                        assert forall|k: int|
                            0 <= k < i + 1 && (#[trigger] c[k]).metadata is Some implies exists|j: int|
                            0 <= j < out@.len() && out@[j]@.metadata == c[k].metadata by {
                            if k < i {
                                let j = choose|j: int|
                                    0 <= j < before.len() && before[j]@.metadata == c[k].metadata;
                                if j < pos {
                                    assert(out@[j]@.metadata == c[k].metadata);
                                } else {
                                    assert(out@[j + 1]@.metadata == c[k].metadata);
                                }
                            } else {
                                assert(out@[pos as int]@.metadata == c[k].metadata);
                            }
                        }
                        assert forall|j: int| 0 <= j < out@.len() implies (#[trigger] out@[j]).metadata is Some
                            && from_candidates(c, out@[j]@) by {
                            if j == pos {
                                assert(c[i as int] == out@[j]@);
                            } else if j < pos {
                                assert(out@[j] == before[j]);
                            } else {
                                assert(out@[j] == before[j - 1]);
                            }
                        }
                        assert forall|a: int, b: int|
                            0 <= a < b < out@.len() implies key_lt(out@[a]@.metadata->0, out@[b]@.metadata->0) by {
                            if pos < before.len() {
                                assert(key_lt(md, before[pos as int].metadata->0));
                            }
                            if a < pos {
                                assert(out@[a] == before[a]);
                                assert(key_lt(before[a].metadata->0, md));
                            }
                            if a > pos {
                                assert(out@[a] == before[a - 1]);
                            }
                            if b > pos {
                                assert(out@[b] == before[b - 1]);
                                if b - 1 > pos {
                                    assert(key_lt(before[pos as int].metadata->0, before[b - 1].metadata->0));
                                }
                            }
                            if b < pos {
                                assert(out@[b] == before[b]);
                            }
                        }
                    }
                }
            },
        }
        i = i + 1;
    }
    proof {
        let rv = descs_view(out@);
        assert forall|j: int| 0 <= j < rv.len() implies #[trigger] rv[j].metadata is Some
            && from_candidates(c, rv[j]) by {
            assert(rv[j] == out@[j]@);
        }
        assert forall|a: int, b: int| 0 <= a < b < rv.len() implies key_lt(
            rv[a].metadata->0,
            rv[b].metadata->0,
        ) by {
            assert(rv[a] == out@[a]@);
            assert(rv[b] == out@[b]@);
        }
        assert forall|k: int| 0 <= k < c.len() && (#[trigger] c[k]).metadata is Some implies exists|
            j: int,
        | 0 <= j < rv.len() && rv[j].metadata == c[k].metadata by {
            let j = choose|j: int| 0 <= j < out@.len() && out@[j]@.metadata == c[k].metadata;
            assert(rv[j] == out@[j]@);
        }
    }
    out
}

} // verus!
