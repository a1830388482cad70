//! Events of a snapshot diff stream: parsing one line, keeping the latest event per path, and
//! the order in which events are applied.
use vstd::prelude::*;
use crate::path::{FsPath, split_path, is_prefix, paths_view, lemma_paths_push};
use crate::text::{split_on, split_fields, lemma_split_nonempty, find_char, parse_u64, parse_u64_spec};

verus! {

/// When a diff event happened: seconds and nanoseconds, ordered lexicographically.
#[derive(Debug, Clone, Copy, PartialEq, Eq, Structural)]
pub struct DiffTime {
    pub secs: u64,
    pub nanos: u64,
}

/// The `secs.nanos` text of a time, split at the first `.`.
pub open spec fn time_spec(s: Seq<char>) -> Option<DiffTime> {
    if !s.contains('.') {
        None
    } else {
        let i = choose|i: int| 0 <= i < s.len() && s[i] == '.' && forall|k: int| 0 <= k < i ==> s[k] != '.';
        match (parse_u64_spec(s.take(i)), parse_u64_spec(s.skip(i + 1))) {
            (Some(a), Some(b)) => Some(DiffTime { secs: a as u64, nanos: b as u64 }),
            _ => None,
        }
    }
}

/// Whether time `a` comes strictly before time `b`.
pub open spec fn time_lt(a: DiffTime, b: DiffTime) -> bool {
    a.secs < b.secs || (a.secs == b.secs && a.nanos < b.nanos)
}

impl DiffTime {
    /// Reads a time written `secs.nanos`.
    pub fn parse(s: &str) -> (r: Option<DiffTime>)
        ensures
            r is Some <==> time_spec(s@) is Some,
            r is Some ==> r == time_spec(s@),
    {
        let dot = match find_char(s, '.') {
            None => return None,
            Some(d) => d,
        };
        let ghost i = choose|i: int|
            0 <= i < s@.len() && s@[i] == '.' && forall|k: int| 0 <= k < i ==> s@[k] != '.';
        proof {
            assert(s@.contains('.'));
            if i < dot {
                assert(s@[i] != '.');
            }
            if dot < i {
                assert(s@[dot as int] != '.');
            }
            assert(i == dot);
        }
        let n = s.unicode_len();
        let secs_text = s.substring_char(0, dot);
        let nanos_text = s.substring_char(dot + 1, n);
        proof {
            assert(secs_text@ =~= s@.take(dot as int));
            assert(nanos_text@ =~= s@.skip(dot + 1));
        }
        let secs = match parse_u64(secs_text) {
            None => return None,
            Some(v) => v,
        };
        let nanos = match parse_u64(nanos_text) {
            None => return None,
            Some(v) => v,
        };
        Some(DiffTime { secs, nanos })
    }

    /// Whether this time comes strictly before `o`.
    pub fn before(&self, o: &DiffTime) -> (r: bool)
        ensures
            r == time_lt(*self, *o),
    {
        self.secs < o.secs || (self.secs == o.secs && self.nanos < o.nanos)
    }
}

/// What happened to a path.
pub enum DiffType {
    Removed,
    Created,
    Modified,
    /// The path was renamed to the path held.
    Renamed(FsPath),
}

/// What happened to a path, as a value of components.
pub enum DiffKind {
    Removed,
    Created,
    Modified,
    Renamed(Seq<Seq<char>>),
}

impl View for DiffType {
    type V = DiffKind;

    open spec fn view(&self) -> DiffKind {
        match self {
            DiffType::Removed => DiffKind::Removed,
            DiffType::Created => DiffKind::Created,
            DiffType::Modified => DiffKind::Modified,
            DiffType::Renamed(p) => DiffKind::Renamed(p@),
        }
    }
}

/// Rank of a kind among events of one path at one instant: a modification wins, then a
/// creation, then a rename, then a removal.
pub open spec fn kind_rank(k: DiffKind) -> nat {
    match k {
        DiffKind::Modified => 3,
        DiffKind::Created => 2,
        DiffKind::Renamed(_) => 1,
        DiffKind::Removed => 0,
    }
}

impl DiffType {
    /// The rank of this kind among events of one path at one instant.
    pub fn rank(&self) -> (r: u8)
        ensures
            r as nat == kind_rank(self@),
    {
        match self {
            DiffType::Modified => 3,
            DiffType::Created => 2,
            DiffType::Renamed(_) => 1,
            DiffType::Removed => 0,
        }
    }

    /// A copy of this kind.
    pub fn copy(&self) -> (r: DiffType)
        ensures
            r@ == self@,
    {
        match self {
            DiffType::Removed => DiffType::Removed,
            DiffType::Created => DiffType::Created,
            DiffType::Modified => DiffType::Modified,
            DiffType::Renamed(p) => DiffType::Renamed(p.copy()),
        }
    }
}

/// One event of a diff stream.
pub struct DiffEvent {
    pub path: FsPath,
    pub diff_type: DiffType,
    pub time: DiffTime,
}

/// A diff event as a value.
pub struct EventView {
    pub path: Seq<Seq<char>>,
    pub kind: DiffKind,
    pub time: DiffTime,
}

impl View for DiffEvent {
    type V = EventView;

    open spec fn view(&self) -> EventView {
        EventView { path: self.path@, kind: self.diff_type@, time: self.time }
    }
}

/// Whether event `a` is superseded by event `b`: `b` is later, or at the same instant of a kind
/// that ranks at least as high.
pub open spec fn supersedes(b: EventView, a: EventView) -> bool {
    time_lt(a.time, b.time) || (a.time == b.time && kind_rank(a.kind) <= kind_rank(b.kind))
}

impl DiffEvent {
    /// A copy of this event.
    pub fn copy(&self) -> (r: DiffEvent)
        ensures
            r@ == self@,
    {
        DiffEvent { path: self.path.copy(), diff_type: self.diff_type.copy(), time: self.time }
    }
}

/// Why a diff line could not be read.
#[derive(Debug, Clone, Copy, PartialEq, Eq, Structural)]
pub enum DiffParseError {
    /// Fewer than three tab-separated fields.
    MissingPath,
    /// A rename without a fourth field.
    MissingNewName,
    /// A second field other than `-`, `+`, `M` or `R`.
    UnknownKind,
    /// A first field that is not `secs.nanos`.
    BadTime,
}

/// The kind that a diff line's second field names, before a rename's target is read.
pub open spec fn kind_code(f: Seq<char>) -> Option<nat> {
    if f == seq!['-'] {
        Some(0)
    } else if f == seq!['+'] {
        Some(2)
    } else if f == seq!['M'] {
        Some(3)
    } else if f == seq!['R'] {
        Some(1)
    } else {
        None
    }
}

/// What a line of `zfs diff -H -t -h` output reads as: `time<TAB>kind<TAB>path[<TAB>new_path]`.
pub open spec fn line_spec(line: Seq<char>) -> Result<EventView, DiffParseError> {
    let f = split_on(line, '\t');
    if f.len() < 3 {
        Err(DiffParseError::MissingPath)
    } else if kind_code(f[1]) is None {
        Err(DiffParseError::UnknownKind)
    } else if kind_code(f[1]) == Some(1nat) && f.len() < 4 {
        Err(DiffParseError::MissingNewName)
    } else if time_spec(f[0]) is None {
        Err(DiffParseError::BadTime)
    } else {
        let kind = if kind_code(f[1]) == Some(0nat) {
            DiffKind::Removed
        } else if kind_code(f[1]) == Some(2nat) {
            DiffKind::Created
        } else if kind_code(f[1]) == Some(3nat) {
            DiffKind::Modified
        } else {
            DiffKind::Renamed(split_path(f[3]))
        };
        Ok(
            EventView {
                path: split_path(f[2]),
                kind,
                time: time_spec(f[0])->0,
            },
        )
    }
}

/// Whether `s` is the one character `c`.
fn is_single(s: &str, c: char) -> (r: bool)
    ensures
        r == (s@ == seq![c]),
{
    if s.unicode_len() != 1 {
        return false;
    }
    let r = s.get_char(0) == c;
    proof {
        if r {
            assert(s@ =~= seq![c]);
        }
    }
    r
}

/// Reads one line of a diff stream.
pub fn ingest_by_line(line: &str) -> (r: Result<DiffEvent, DiffParseError>)
    ensures
        r is Ok <==> line_spec(line@) is Ok,
        r is Ok ==> r->Ok_0@ == line_spec(line@)->Ok_0,
        r is Err ==> r->Err_0 == line_spec(line@)->Err_0,
{
    let fields = split_fields(line, '\t');
    let ghost f = split_on(line@, '\t');
    proof {
        lemma_split_nonempty(line@, '\t');
        assert(forall|i: int| 0 <= i < fields@.len() ==> fields@[i]@ == f[i]);
    }
    if fields.len() < 3 {
        return Err(DiffParseError::MissingPath);
    }
    let code = fields[1].as_str();
    proof {
        reveal_strlit("-");
    }
    let kind = if is_single(code, '-') {
        DiffType::Removed
    } else if is_single(code, '+') {
        DiffType::Created
    } else if is_single(code, 'M') {
        DiffType::Modified
    } else if is_single(code, 'R') {
        if fields.len() < 4 {
            return Err(DiffParseError::MissingNewName);
        }
        DiffType::Renamed(FsPath::parse(fields[3].as_str()))
    } else {
        return Err(DiffParseError::UnknownKind);
    };
    let time = match DiffTime::parse(fields[0].as_str()) {
        None => return Err(DiffParseError::BadTime),
        Some(t) => t,
    };
    let path = FsPath::parse(fields[2].as_str());
    let r = DiffEvent { path, diff_type: kind, time };
    proof {
        assert(r@ == line_spec(line@)->Ok_0);
    }
    Ok(r)
}

impl DiffEvent {
    /// Whether this event supersedes `o`.
    pub fn supersedes(&self, o: &DiffEvent) -> (r: bool)
        ensures
            r == supersedes(self@, o@),
    {
        o.time.before(&self.time) || (o.time == self.time && o.diff_type.rank()
            <= self.diff_type.rank())
    }
}

/// The views of a sequence of events.
pub open spec fn events_view(v: Seq<DiffEvent>) -> Seq<EventView> {
    v.map_values(|e: DiffEvent| e@)
}

/// Whether `r` holds an event on the path of `e` that supersedes it.
pub open spec fn kept(r: Seq<EventView>, e: EventView) -> bool {
    exists|j: int| 0 <= j < r.len() && r[j].path == e.path && supersedes(r[j], e)
}

/// `r` holds, for each path of `ev`, one event of `ev` on that path which supersedes every
/// event of `ev` on that path, and nothing else.
pub open spec fn collapsed(ev: Seq<EventView>, r: Seq<EventView>) -> bool {
    &&& forall|j: int| 0 <= j < r.len() ==> ev.contains(#[trigger] r[j])
    &&& forall|k: int| 0 <= k < ev.len() ==> kept(r, #[trigger] ev[k])
    &&& forall|j1: int, j2: int|
        0 <= j1 < r.len() && 0 <= j2 < r.len() && j1 != j2 ==> r[j1].path != r[j2].path
}

/// Keeps, for each path, only the latest of its events; at one instant the kind decides
/// (a modification, then a creation, a rename, a removal), and after that the later in `events`.
pub fn collapse(events: &Vec<DiffEvent>) -> (r: Vec<DiffEvent>)
    ensures
        collapsed(events_view(events@), events_view(r@)),
{
    let ghost ev = events_view(events@);
    let mut out: Vec<DiffEvent> = Vec::new();
    let ghost mut src: Seq<int> = Seq::empty();
    let ghost mut dst: Seq<int> = Seq::empty();
    let mut i: usize = 0;
    while i < events.len()
        invariant
            i <= events.len(),
            ev == events_view(events@),
            src.len() == out.len(),
            dst.len() == i,
            forall|j: int|
                0 <= j < out.len() ==> 0 <= #[trigger] src[j] < i && out@[j]@ == ev[src[j]],
            forall|k: int|
                0 <= k < i ==> 0 <= #[trigger] dst[k] < out.len() && out@[dst[k]]@.path == ev[k].path
                    && supersedes(out@[dst[k]]@, ev[k]),
            forall|j1: int, j2: int|
                0 <= j1 < out.len() && 0 <= j2 < out.len() && j1 != j2 ==> out@[j1]@.path
                    != out@[j2]@.path,
        decreases events.len() - i,
    {
        let e = &events[i];
        let mut j: usize = 0;
        while j < out.len() && !out[j].path.same(&e.path)
            invariant
                j <= out.len(),
                forall|m: int| 0 <= m < j ==> out@[m]@.path != e@.path,
            decreases out.len() - j,
        {
            j = j + 1;
        }
        let found = j < out.len();
        if !found {
            let c = e.copy();
            out.push(c);
            proof {
                src = src.push(i as int);
                dst = dst.push(out.len() - 1);
            }
        } else {
            if e.supersedes(&out[j]) {
                let c = e.copy();
                out.set(j, c);
                proof {
                    src = src.update(j as int, i as int);
                }
            }
            proof {
                dst = dst.push(j as int);
            }
        }
        i = i + 1;
    }
    proof {
        let rv = events_view(out@);
        assert forall|j: int| 0 <= j < rv.len() implies ev.contains(#[trigger] rv[j]) by {
            assert(rv[j] == ev[src[j]]);
        }
        assert forall|k: int| 0 <= k < ev.len() implies kept(rv, #[trigger] ev[k]) by {
            assert(rv[dst[k]] == out@[dst[k]]@);
        }
        assert forall|j1: int, j2: int|
            0 <= j1 < rv.len() && 0 <= j2 < rv.len() && j1 != j2 implies rv[j1].path
            != rv[j2].path by {
            assert(rv[j1] == out@[j1]@);
            assert(rv[j2] == out@[j2]@);
        }
        assert(collapsed(ev, rv));
    }
    out
}

/// `order` lists every index of `paths` once, deepest paths first.
pub open spec fn depth_order(paths: Seq<Seq<Seq<char>>>, order: Seq<usize>) -> bool {
    &&& forall|a: int| 0 <= a < order.len() ==> #[trigger] order[a] < paths.len()
    &&& forall|a: int, b: int| 0 <= a < b < order.len() ==> order[a] != order[b]
    &&& forall|k: usize| k < paths.len() ==> #[trigger] order.contains(k)
    &&& forall|a: int, b: int|
        0 <= a < b < order.len() ==> paths[order[a] as int].len() >= paths[order[b] as int].len()
}

/// In an order that puts deeper paths first, no path comes after one of its own descendants:
/// a directory is reached only once everything below it has been.
pub proof fn lemma_descendants_first(paths: Seq<Seq<Seq<char>>>, order: Seq<usize>, a: int, b: int)
    requires
        depth_order(paths, order),
        0 <= a < b < order.len(),
    ensures
        !(is_prefix(paths[order[a] as int], paths[order[b] as int]) && paths[order[a] as int]
            != paths[order[b] as int]),
{
    let p = paths[order[a] as int];
    let q = paths[order[b] as int];
    if is_prefix(p, q) && p != q {
        if q.len() == p.len() {
            assert(q.take(p.len() as int) =~= q);
        }
    }
}

/// The paths of `events`.
pub open spec fn event_paths(v: Seq<DiffEvent>) -> Seq<Seq<Seq<char>>> {
    v.map_values(|e: DiffEvent| e.path@)
}

/// An order of `paths`: every index once, deepest first, so that no path comes after one of
/// its own descendants.
pub fn depth_order_of(paths: &Vec<FsPath>) -> (r: Vec<usize>)
    ensures
        depth_order(paths_view(paths@), r@),
        forall|a: int, b: int|
            0 <= a < b < r@.len() ==> !(is_prefix(
                paths_view(paths@)[r@[a] as int],
                paths_view(paths@)[r@[b] as int],
            ) && paths_view(paths@)[r@[a] as int] != paths_view(paths@)[r@[b] as int]),
{
    let ghost ps = paths_view(paths@);
    let n = paths.len();
    let mut maxd: usize = 0;
    let mut i: usize = 0;
    while i < n
        invariant
            n == paths.len(),
            i <= n,
            ps == paths_view(paths@),
            forall|k: int| 0 <= k < i ==> ps[k].len() <= maxd,
        decreases n - i,
    {
        if paths[i].depth() > maxd {
            maxd = paths[i].depth();
        }
        i = i + 1;
    }
    let mut r: Vec<usize> = Vec::new();
    let mut d: usize = maxd;
    let mut more = true;
    while more
        invariant
            n == paths.len(),
            ps == paths_view(paths@),
            d <= maxd,
            forall|k: int| 0 <= k < n ==> ps[k].len() <= maxd,
            forall|a: int| 0 <= a < r@.len() ==> #[trigger] r@[a] < n && ps[r@[a] as int].len() >= d,
            forall|a: int, b: int| 0 <= a < b < r@.len() ==> r@[a] != r@[b],
            forall|k: usize| k < n ==> (#[trigger] r@.contains(k) <==> (ps[k as int].len() > d || !more)),
            forall|a: int, b: int|
                0 <= a < b < r@.len() ==> ps[r@[a] as int].len() >= ps[r@[b] as int].len(),
        decreases d + (if more { 1int } else { 0int }),
    {
        let mut i: usize = 0;
        while i < n
            invariant
                n == paths.len(),
                ps == paths_view(paths@),
                i <= n,
                d <= maxd,
                forall|k: int| 0 <= k < n ==> ps[k].len() <= maxd,
                forall|a: int| 0 <= a < r@.len() ==> #[trigger] r@[a] < n && ps[r@[a] as int].len() >= d,
                forall|a: int, b: int| 0 <= a < b < r@.len() ==> r@[a] != r@[b],
                forall|k: usize|
                    k < n ==> (#[trigger] r@.contains(k) <==> (ps[k as int].len() > d || (
                    ps[k as int].len() == d && k < i))),
                forall|a: int, b: int|
                    0 <= a < b < r@.len() ==> ps[r@[a] as int].len() >= ps[r@[b] as int].len(),
            decreases n - i,
        {
            if paths[i].depth() == d {
                proof {
                    assert(!r@.contains(i));
                    assert forall|k: usize| k < n implies (#[trigger] r@.push(i).contains(k) <==> (
                    ps[k as int].len() > d || (ps[k as int].len() == d && k < i + 1))) by {
                        if r@.contains(k) {
                            let a = choose|a: int| 0 <= a < r@.len() && r@[a] == k;
                            assert(r@.push(i)[a] == k);
                        }
                        if k == i {
                            assert(r@.push(i)[r@.len() as int] == i);
                        }
                    }
                }
                r.push(i);
            }
            i = i + 1;
        }
        if d == 0 {
            more = false;
        } else {
            d = d - 1;
        }
    }
    proof {
        assert forall|a: int, b: int| 0 <= a < b < r@.len() implies !(is_prefix(ps[r@[a] as int], ps[r@[b] as int])
            && ps[r@[a] as int] != ps[r@[b] as int]) by {
            lemma_descendants_first(ps, r@, a, b);
        }
    }
    r
}

/// The order in which to apply `events`: every index once, deepest paths first.
pub fn apply_order(events: &Vec<DiffEvent>) -> (r: Vec<usize>)
    ensures
        depth_order(event_paths(events@), r@),
{
    let mut paths: Vec<FsPath> = Vec::new();
    let mut i: usize = 0;
    while i < events.len()
        invariant
            i <= events@.len(),
            paths_view(paths@) == event_paths(events@).take(i as int),
        decreases events@.len() - i,
    {
        let c = events[i].path.copy();
        let ghost prev = paths@;
        paths.push(c);
        proof {
            lemma_paths_push(prev, c);
            assert(event_paths(events@).take(i + 1) =~= event_paths(events@).take(i as int).push(c@));
        }
        i = i + 1;
    }
    proof {
        assert(event_paths(events@).take(i as int) =~= event_paths(events@));
    }
    depth_order_of(&paths)
}

} // verus!
