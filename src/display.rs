//! Text layout of path maps and version listings.
use vstd::prelude::*;
use crate::path::copy_string;
use crate::utility::PrintMode;

verus! {

/// The width added to a key for the quotation marks around it.
pub const QUOTATION_MARKS_LEN: usize = 2;

/// `n` spaces.
pub open spec fn spaces(n: nat) -> Seq<char> {
    Seq::new(n, |i: int| ' ')
}

/// `s` followed by spaces up to `w` characters.
pub open spec fn pad_spec(s: Seq<char>, w: nat) -> Seq<char> {
    if s.len() >= w {
        s
    } else {
        s + spaces((w - s.len()) as nat)
    }
}

/// `s` followed by spaces up to `width` characters.
pub fn pad_right(s: &str, width: usize) -> (r: String)
    ensures
        r@ == pad_spec(s@, width as nat),
{
    let mut r = String::from_str(s);
    let mut n = s.unicode_len();
    proof {
        reveal_strlit(" ");
        assert(s@ + spaces(0) =~= s@);
    }
    while n < width
        invariant
            s@.len() <= n <= width || (n == s@.len() && n >= width),
            r@ == s@ + spaces((n - s@.len()) as nat),
        decreases width - n,
    {
        r.append(" ");
        proof {
            reveal_strlit(" ");
            assert(s@ + spaces((n + 1 - s@.len()) as nat) =~= s@ + spaces((n - s@.len()) as nat) + " "@);
        }
        n = n + 1;
    }
    proof {
        if s@.len() >= width {
            assert(r@ =~= s@);
        }
    }
    r
}

/// Spaces before `s` up to `w` characters.
pub open spec fn pad_left_spec(s: Seq<char>, w: nat) -> Seq<char> {
    if s.len() >= w {
        s
    } else {
        spaces((w - s.len()) as nat) + s
    }
}

/// Spaces before `s` up to `width` characters.
pub fn pad_left(s: &str, width: usize) -> (r: String)
    ensures
        r@ == pad_left_spec(s@, width as nat),
{
    let n = s.unicode_len();
    let mut r = String::new();
    let mut k: usize = n;
    proof {
        assert(r@ =~= spaces(0));
    }
    while k < width
        invariant
            n == s@.len(),
            n <= k,
            k <= width || k == n,
            r@ == spaces((k - n) as nat),
        decreases width - k,
    {
        r.append(" ");
        proof {
            reveal_strlit(" ");
            assert(r@ =~= spaces((k + 1 - n) as nat));
        }
        k = k + 1;
    }
    r.append(s);
    proof {
        if n >= width {
            assert(r@ =~= s@);
        } else {
            assert(r@ =~= spaces((width - n) as nat) + s@);
        }
    }
    r
}

/// One line of a version listing: date, size and path, tab-separated when not pretty, else
/// two spaces apart with the size right-aligned and the path quoted and left-aligned, both to
/// `width`.
pub open spec fn version_line_spec(
    not_pretty: bool,
    date: Seq<char>,
    size: Seq<char>,
    path: Seq<char>,
    width: nat,
) -> Seq<char> {
    if not_pretty {
        date + seq!['\t'] + size + seq!['\t'] + path + seq!['\n']
    } else {
        date + seq![' ', ' '] + pad_left_spec(size, width) + seq![' ', ' '] + seq!['"'] + pad_spec(path, width)
            + seq!['"', '\n']
    }
}

/// Lays out one line of a version listing.
pub fn format_version_line(not_pretty: bool, date: &str, size: &str, path: &str, width: usize) -> (r: String)
    ensures
        r@ == version_line_spec(not_pretty, date@, size@, path@, width as nat),
{
    proof {
        reveal_strlit("\t");
        reveal_strlit("\n");
        reveal_strlit("  ");
        reveal_strlit("\"");
        reveal_strlit("\"\n");
    }
    let mut r = String::from_str(date);
    if not_pretty {
        r.append("\t");
        r.append(size);
        r.append("\t");
        r.append(path);
        r.append("\n");
        proof {
            assert(r@ =~= version_line_spec(not_pretty, date@, size@, path@, width as nat));
        }
    } else {
        let sized = pad_left(size, width);
        let pathed = pad_right(path, width);
        r.append("  ");
        r.append(sized.as_str());
        r.append("  ");
        r.append("\"");
        r.append(pathed.as_str());
        r.append("\"\n");
        proof {
            assert(r@ =~= version_line_spec(not_pretty, date@, size@, path@, width as nat));
        }
    }
    r
}

/// Keys with their values, in key order.
pub struct PrintAsMap {
    pub inner: Vec<(String, Vec<String>)>,
}

pub open spec fn strings_view(v: Seq<String>) -> Seq<Seq<char>> {
    v.map_values(|s: String| s@)
}

pub open spec fn entries_view(v: Seq<(String, Vec<String>)>) -> Seq<(Seq<char>, Seq<Seq<char>>)> {
    v.map_values(|e: (String, Vec<String>)| (e.0@, strings_view(e.1@)))
}

/// The width of the key column: the longest key plus its quotation marks.
pub open spec fn padding_spec(keys: Seq<(Seq<char>, Seq<Seq<char>>)>) -> nat
    decreases keys.len(),
{
    if keys.len() == 0 {
        QUOTATION_MARKS_LEN as nat
    } else {
        let rest = padding_spec(keys.drop_last());
        let here: nat = keys.last().0.len() + QUOTATION_MARKS_LEN as nat;
        if here > rest {
            here
        } else {
            rest
        }
    }
}

/// `"` + `s` + `"`.
pub open spec fn quoted(s: Seq<char>) -> Seq<char> {
    seq!['"'] + s + seq!['"']
}

/// One line of a pretty map: the key column, then ` : "value"`.
pub open spec fn pretty_line(head: Seq<char>, width: nat, v: Seq<char>) -> Seq<char> {
    pad_spec(head, width) + seq![' ', ':', ' ', '"'] + v + seq!['"', '\n']
}

/// The pretty lines of one key: the quoted key beside the first value, blanks beside the rest.
pub open spec fn pretty_values(key: Seq<char>, width: nat, vs: Seq<Seq<char>>) -> Seq<char>
    decreases vs.len(),
{
    if vs.len() == 0 {
        Seq::empty()
    } else {
        let head = if vs.len() == 1 {
            quoted(key)
        } else {
            Seq::empty()
        };
        pretty_values(key, width, vs.drop_last()) + pretty_line(head, width, vs.last())
    }
}

/// The values of one key in tab-separated form.
pub open spec fn tabbed_values(vs: Seq<Seq<char>>) -> Seq<char>
    decreases vs.len(),
{
    if vs.len() == 0 {
        Seq::empty()
    } else {
        tabbed_values(vs.drop_last()) + seq!['\t'] + vs.last()
    }
}

/// The text of one key and its values.
pub open spec fn entry_text(not_pretty: bool, width: nat, key: Seq<char>, vs: Seq<Seq<char>>) -> Seq<
    char,
> {
    if not_pretty {
        key + seq![':'] + tabbed_values(vs) + seq!['\n']
    } else {
        pretty_values(key, width, vs)
    }
}

/// The text of the map: each key in turn, leaving out keys without values when asked.
pub open spec fn map_text(
    not_pretty: bool,
    skip_empty: bool,
    width: nat,
    es: Seq<(Seq<char>, Seq<Seq<char>>)>,
) -> Seq<char>
    decreases es.len(),
{
    if es.len() == 0 {
        Seq::empty()
    } else if skip_empty && es.last().1.len() == 0 {
        map_text(not_pretty, skip_empty, width, es.drop_last())
    } else {
        map_text(not_pretty, skip_empty, width, es.drop_last()) + entry_text(
            not_pretty,
            width,
            es.last().0,
            es.last().1,
        )
    }
}

impl PrintAsMap {
    /// The width of the key column.
    pub fn map_padding(&self) -> (r: usize)
        requires
            forall|i: int| 0 <= i < self.inner@.len() ==> (#[trigger] self.inner@[i]).0@.len() < usize::MAX - 2,
        ensures
            r as nat == padding_spec(entries_view(self.inner@)),
    {
        let ghost es = entries_view(self.inner@);
        let mut best: usize = QUOTATION_MARKS_LEN;
        let mut i: usize = 0;
        while i < self.inner.len()
            invariant
                i <= self.inner@.len(),
                es == entries_view(self.inner@),
                forall|i: int| 0 <= i < self.inner@.len() ==> (#[trigger] self.inner@[i]).0@.len() < usize::MAX - 2,
                best as nat == padding_spec(es.take(i as int)),
            decreases self.inner@.len() - i,
        {
            proof {
                assert(es.take(i + 1).drop_last() =~= es.take(i as int));
                assert(es.take(i + 1).last() == es[i as int]);
                assert(es[i as int].0 == self.inner@[i as int].0@);
            }
            let here = self.inner[i].0.as_str().unicode_len() + QUOTATION_MARKS_LEN;
            if here > best {
                best = here;
            }
            i = i + 1;
        }
        proof {
            assert(es.take(i as int) =~= es);
        }
        best
    }

    /// The text of the map in a formatted print mode: tab-separated when not pretty, else
    /// aligned in a key column; keys without values are left out when `skip_empty`.
    pub fn format(&self, print_mode: PrintMode, skip_empty: bool) -> (r: String)
        requires
            forall|i: int| 0 <= i < self.inner@.len() ==> (#[trigger] self.inner@[i]).0@.len() < usize::MAX - 2,
        ensures
            r@ == map_text(
                print_mode == PrintMode::FormattedNotPretty,
                skip_empty,
                padding_spec(entries_view(self.inner@)),
                entries_view(self.inner@),
            ),
    {
        let ghost es = entries_view(self.inner@);
        let not_pretty = print_mode == PrintMode::FormattedNotPretty;
        let padding = self.map_padding();
        let mut out = String::new();
        let mut i: usize = 0;
        while i < self.inner.len()
            invariant
                i <= self.inner@.len(),
                es == entries_view(self.inner@),
                out@ == map_text(not_pretty, skip_empty, padding as nat, es.take(i as int)),
            decreases self.inner@.len() - i,
        {
            proof {
                assert(es.take(i + 1).drop_last() =~= es.take(i as int));
                assert(es.take(i + 1).last() == es[i as int]);
            }
            let key = &self.inner[i].0;
            let values = &self.inner[i].1;
            proof {
                assert(es[i as int].0 == key@);
                assert(es[i as int].1 == strings_view(values@));
            }
            if !(skip_empty && values.len() == 0) {
                let text = entry_text_of(not_pretty, padding, key, values);
                out.append(text.as_str());
            }
            i = i + 1;
        }
        proof {
            assert(es.take(i as int) =~= es);
        }
        out
    }
}

/// The text of one key and its values.
fn entry_text_of(not_pretty: bool, width: usize, key: &String, values: &Vec<String>) -> (r: String)
    ensures
        r@ == entry_text(not_pretty, width as nat, key@, strings_view(values@)),
{
    let ghost vs = strings_view(values@);
    proof {
        reveal_strlit(":");
        reveal_strlit("\t");
        reveal_strlit("\n");
        reveal_strlit("\"");
        reveal_strlit(" : \"");
        reveal_strlit("\"\n");
        reveal_strlit("");
    }
    if not_pretty {
        let mut r = copy_string(key);
        r.append(":");
        let ghost head = r@;
        let mut i: usize = 0;
        proof {
            assert(head + tabbed_values(vs.take(0)) =~= head);
        }
        while i < values.len()
            invariant
                i <= values@.len(),
                vs == strings_view(values@),
                r@ == head + tabbed_values(vs.take(i as int)),
            decreases values@.len() - i,
        {
            proof {
                assert(vs.take(i + 1).drop_last() =~= vs.take(i as int));
                assert(vs.take(i + 1).last() == values@[i as int]@);
            }
            r.append("\t");
            r.append(values[i].as_str());
            proof {
                reveal_strlit("\t");
                assert(r@ =~= head + tabbed_values(vs.take(i + 1)));
            }
            i = i + 1;
        }
        r.append("\n");
        proof {
            assert(vs.take(i as int) =~= vs);
            assert(r@ =~= key@ + seq![':'] + tabbed_values(vs) + seq!['\n']);
        }
        r
    } else {
        let mut r = String::new();
        let mut i: usize = 0;
        let mut q = String::from_str("\"");
        q.append(key.as_str());
        q.append("\"");
        proof {
            assert(q@ =~= quoted(key@));
        }
        while i < values.len()
            invariant
                i <= values@.len(),
                vs == strings_view(values@),
                q@ == quoted(key@),
                r@ == pretty_values(key@, width as nat, vs.take(i as int)),
            decreases values@.len() - i,
        {
            proof {
                assert(vs.take(i + 1).drop_last() =~= vs.take(i as int));
                assert(vs.take(i + 1).last() == values@[i as int]@);
            }
            let head = if i == 0 {
                pad_right(q.as_str(), width)
            } else {
                pad_right("", width)
            };
            r.append(head.as_str());
            r.append(" : \"");
            r.append(values[i].as_str());
            r.append("\"\n");
            proof {
                reveal_strlit(" : \"");
                reveal_strlit("\"\n");
                reveal_strlit("");
                assert(" : \""@ =~= seq![' ', ':', ' ', '"']);
                assert("\"\n"@ =~= seq!['"', '\n']);
                assert(""@ =~= Seq::<char>::empty());
                assert(r@ =~= pretty_values(key@, width as nat, vs.take(i + 1)));
            }
            i = i + 1;
        }
        proof {
            assert(vs.take(i as int) =~= vs);
        }
        r
    }
}

/// Which half of a display set: the snapshot versions or the live file.
#[derive(Debug, Clone, Copy, PartialEq, Eq, Structural)]
pub enum DisplaySetType {
    IsLive,
    IsSnap,
}

/// Which half of a listing a user asked to leave out.
#[derive(Debug, Clone, Copy, PartialEq, Eq, Structural)]
pub enum BulkExclusion {
    NoLive,
    NoSnap,
}

impl DisplaySetType {
    /// The half at position `idx` of a display set: the snapshots first, then the live file.
    pub fn from_index(idx: usize) -> (r: DisplaySetType)
        requires
            idx < 2,
        ensures
            r == (if idx == 0 { DisplaySetType::IsSnap } else { DisplaySetType::IsLive }),
    {
        if idx == 0 {
            DisplaySetType::IsSnap
        } else {
            DisplaySetType::IsLive
        }
    }

    /// Whether this half is shown under the exclusion asked for.
    pub fn filter_bulk_exclusions(&self, exclusion: Option<BulkExclusion>) -> (r: bool)
        ensures
            r == !((*self == DisplaySetType::IsLive && exclusion == Some(BulkExclusion::NoLive)) || (*self
                == DisplaySetType::IsSnap && exclusion == Some(BulkExclusion::NoSnap))),
    {
        match (self, exclusion) {
            (DisplaySetType::IsLive, Some(BulkExclusion::NoLive)) => false,
            (DisplaySetType::IsSnap, Some(BulkExclusion::NoSnap)) => false,
            _ => true,
        }
    }
}

/// The text of one half of a display set after the text `acc` of the halves before it: added
/// as it is when not pretty; a snapshot half after a border, with a border after it where it is
/// not empty; a live half followed by a border.
pub open spec fn half_text(not_pretty: bool, t: DisplaySetType, component: Seq<char>, border: Seq<char>) -> Seq<char> {
    if not_pretty {
        component
    } else if t == DisplaySetType::IsSnap {
        if component.len() == 0 {
            border
        } else {
            border + component + border
        }
    } else {
        component + border
    }
}

/// The text of a display set: its snapshot half, then its live half, each unless excluded.
pub open spec fn display_set_spec(
    not_pretty: bool,
    exclusion: Option<BulkExclusion>,
    snaps: Seq<char>,
    live: Seq<char>,
    border: Seq<char>,
) -> Seq<char> {
    let a = if exclusion == Some(BulkExclusion::NoSnap) {
        Seq::empty()
    } else {
        half_text(not_pretty, DisplaySetType::IsSnap, snaps, border)
    };
    let b = if exclusion == Some(BulkExclusion::NoLive) {
        Seq::empty()
    } else {
        half_text(not_pretty, DisplaySetType::IsLive, live, border)
    };
    a + b
}

/// The snapshot versions and the live version of one file, as their formatted lines.
pub struct DisplaySet {
    pub snaps: String,
    pub live: String,
}

impl DisplaySet {
    /// The text of the set, framed by `border` unless not pretty.
    pub fn format(&self, print_mode: PrintMode, exclusion: Option<BulkExclusion>, border: &str) -> (r: String)
        ensures
            r@ == display_set_spec(
                print_mode == PrintMode::FormattedNotPretty,
                exclusion,
                self.snaps@,
                self.live@,
                border@,
            ),
    {
        let not_pretty = print_mode == PrintMode::FormattedNotPretty;
        let mut r = String::new();
        let mut idx: usize = 0;
        proof {
            assert(r@ =~= Seq::<char>::empty());
        }
        while idx < 2
            invariant
                idx <= 2,
                not_pretty == (print_mode == PrintMode::FormattedNotPretty),
                r@ == (if idx == 0 {
                    Seq::<char>::empty()
                } else {
                    let a = if exclusion == Some(BulkExclusion::NoSnap) {
                        Seq::empty()
                    } else {
                        half_text(not_pretty, DisplaySetType::IsSnap, self.snaps@, border@)
                    };
                    if idx == 1 {
                        a
                    } else {
                        display_set_spec(not_pretty, exclusion, self.snaps@, self.live@, border@)
                    }
                }),
            decreases 2 - idx,
        {
            let t = DisplaySetType::from_index(idx);
            if t.filter_bulk_exclusions(exclusion) {
                let component = if idx == 0 {
                    self.snaps.as_str()
                } else {
                    self.live.as_str()
                };
                if not_pretty {
                    r.append(component);
                } else if idx == 0 {
                    r.append(border);
                    if component.unicode_len() > 0 {
                        r.append(component);
                        r.append(border);
                    }
                } else {
                    r.append(component);
                    r.append(border);
                }
            }
            proof {
                if idx == 0 {
                    assert(r@ =~= (if exclusion == Some(BulkExclusion::NoSnap) {
                        Seq::empty()
                    } else {
                        half_text(not_pretty, DisplaySetType::IsSnap, self.snaps@, border@)
                    }));
                } else {
                    assert(r@ =~= display_set_spec(not_pretty, exclusion, self.snaps@, self.live@, border@));
                }
            }
            idx = idx + 1;
        }
        r
    }
}

/// The texts of one listed file: its snapshot versions and its live version, each as
/// (date, size, path).
pub struct VersionsEntry {
    pub snaps: Vec<(String, String, String)>,
    pub live: (String, String, String),
}

/// The files of a listing with their versions.
pub struct VersionsDisplayWrapper {
    pub inner: Vec<VersionsEntry>,
}

pub type LineView = (Seq<char>, Seq<char>, Seq<char>);

/// The views of lines grow by one view when a line is pushed.
pub proof fn lemma_lines_push(v: Seq<(String, String, String)>, c: (String, String, String))
    ensures
        lines_view(v.push(c)) == lines_view(v).push((c.0@, c.1@, c.2@)),
{
    assert(lines_view(v.push(c)) =~= lines_view(v).push((c.0@, c.1@, c.2@)));
}

/// The lines of one listed file: its snapshot versions, then its live version.
pub open spec fn entry_lines(e: VersionsEntry) -> Seq<LineView> {
    lines_view(e.snaps@).push((e.live.0@, e.live.1@, e.live.2@))
}

/// All lines of the listing, file after file, each file's snapshots before its live version.
pub open spec fn all_lines(es: Seq<VersionsEntry>) -> Seq<LineView>
    decreases es.len(),
{
    if es.len() == 0 {
        Seq::empty()
    } else {
        all_lines(es.drop_last()) + entry_lines(es.last())
    }
}

/// The formatted lines of `ls`, one after another.
pub open spec fn lines_text(not_pretty: bool, ls: Seq<LineView>, width: nat) -> Seq<char>
    decreases ls.len(),
{
    if ls.len() == 0 {
        Seq::empty()
    } else {
        lines_text(not_pretty, ls.drop_last(), width) + version_line_spec(
            not_pretty,
            ls.last().0,
            ls.last().1,
            ls.last().2,
            width,
        )
    }
}

/// The paths of `ls`, each followed by `delim`.
pub open spec fn raw_text(ls: Seq<LineView>, delim: char) -> Seq<char>
    decreases ls.len(),
{
    if ls.len() == 0 {
        Seq::empty()
    } else {
        raw_text(ls.drop_last(), delim) + ls.last().2 + seq![delim]
    }
}

/// The text of one file of a listing.
pub open spec fn entry_text_spec(
    mode: PrintMode,
    exclusion: Option<BulkExclusion>,
    e: VersionsEntry,
    width: nat,
    border: Seq<char>,
) -> Seq<char> {
    let live = seq![(e.live.0@, e.live.1@, e.live.2@)];
    if mode == PrintMode::RawNewline || mode == PrintMode::RawZero {
        let d = if mode == PrintMode::RawZero { '\0' } else { '\n' };
        (if exclusion == Some(BulkExclusion::NoSnap) {
            Seq::empty()
        } else {
            raw_text(lines_view(e.snaps@), d)
        }) + (if exclusion == Some(BulkExclusion::NoLive) {
            Seq::empty()
        } else {
            raw_text(live, d)
        })
    } else {
        let np = mode == PrintMode::FormattedNotPretty;
        display_set_spec(
            np,
            exclusion,
            lines_text(np, lines_view(e.snaps@), width),
            lines_text(np, live, width),
            border,
        )
    }
}

/// The text of the listing: each file in turn.
pub open spec fn listing_text(
    mode: PrintMode,
    exclusion: Option<BulkExclusion>,
    es: Seq<VersionsEntry>,
    width: nat,
    border: Seq<char>,
) -> Seq<char>
    decreases es.len(),
{
    if es.len() == 0 {
        Seq::empty()
    } else {
        listing_text(mode, exclusion, es.drop_last(), width, border) + entry_text_spec(
            mode,
            exclusion,
            es.last(),
            width,
            border,
        )
    }
}

fn lines_of(
    not_pretty: bool,
    raw: Option<char>,
    ls: &Vec<(String, String, String)>,
    width: usize,
) -> (r: String)
    requires
        raw is Some ==> (raw->0 == '\0' || raw->0 == '\n'),
    ensures
        raw is None ==> r@ == lines_text(not_pretty, lines_view(ls@), width as nat),
        raw is Some ==> r@ == raw_text(lines_view(ls@), raw->0),
{
    let ghost lv = lines_view(ls@);
    let mut r = String::new();
    let mut i: usize = 0;
    proof {
        assert(r@ =~= Seq::<char>::empty());
    }
    while i < ls.len()
        invariant
            i <= ls@.len(),
            lv == lines_view(ls@),
            raw is Some ==> (raw->0 == '\0' || raw->0 == '\n'),
            raw is None ==> r@ == lines_text(not_pretty, lv.take(i as int), width as nat),
            raw is Some ==> r@ == raw_text(lv.take(i as int), raw->0),
        decreases ls@.len() - i,
    {
        proof {
            assert(lv.take(i + 1).drop_last() =~= lv.take(i as int));
            assert(lv.take(i + 1).last() == lv[i as int]);
        }
        let l = &ls[i];
        match raw {
            None => {
                let t = format_version_line(not_pretty, l.0.as_str(), l.1.as_str(), l.2.as_str(), width);
                r.append(t.as_str());
            },
            Some(d) => {
                r.append(l.2.as_str());
                let ghost before = r@;
                let ds = char_text(d);
                r.append(ds.as_str());
                proof {
                    assert(r@ =~= before + seq![d]);
                }
            },
        }
        i = i + 1;
    }
    proof {
        assert(lv.take(i as int) =~= lv);
    }
    r
}

/// The one-character text of a delimiter.
fn char_text(d: char) -> (r: String)
    requires
        d == '\0' || d == '\n',
    ensures
        r@ == seq![d],
{
    proof {
        reveal_strlit("\0");
        reveal_strlit("\n");
    }
    if d == '\0' {
        String::from_str("\0")
    } else {
        String::from_str("\n")
    }
}

impl VersionsDisplayWrapper {
    /// The text of the listing: in a raw mode each path followed by the delimiter; else each
    /// file's display set, with sizes and paths aligned across the whole listing.
    pub fn format(
        &self,
        mode: PrintMode,
        exclusion: Option<BulkExclusion>,
        phantom_date: &str,
        phantom_size: &str,
        terminal_width: Option<usize>,
    ) -> (r: String)
        requires
            forall|i: int|
                0 <= i < all_lines(self.inner@).len() ==> (#[trigger] all_lines(self.inner@)[i]).0.len()
                    + all_lines(self.inner@)[i].1.len() + all_lines(self.inner@)[i].2.len() < 0x1000_0000,
            all_lines(self.inner@).len() < 0x1000_0000,
        ensures
            ({
                let w = widths_spec(all_lines(self.inner@));
                let border = border_spec(
                    match terminal_width {
                        Some(t) => if t < w.1 {
                            t as nat
                        } else {
                            w.1
                        },
                        None => w.1,
                    },
                );
                r@ == listing_text(mode, exclusion, self.inner@, w.0, border)
            }),
    {
        let mut all: Vec<(String, String, String)> = Vec::new();
        let mut k: usize = 0;
        proof {
            assert(lines_view(all@) =~= all_lines(self.inner@.take(0)));
        }
        while k < self.inner.len()
            invariant
                k <= self.inner@.len(),
                lines_view(all@) == all_lines(self.inner@.take(k as int)),
            decreases self.inner@.len() - k,
        {
            let e = &self.inner[k];
            let mut j: usize = 0;
            let ghost start = lines_view(all@);
            while j < e.snaps.len()
                invariant
                    j <= e.snaps@.len(),
                    lines_view(all@) == start + lines_view(e.snaps@).take(j as int),
                decreases e.snaps@.len() - j,
            {
                let l = &e.snaps[j];
                let c = (copy_string(&l.0), copy_string(&l.1), copy_string(&l.2));
                let ghost prev = all@;
                all.push(c);
                proof {
                    lemma_lines_push(prev, c);
                    assert(lines_view(e.snaps@)[j as int] == (l.0@, l.1@, l.2@));
                    assert(start + lines_view(e.snaps@).take(j + 1) =~= (start + lines_view(e.snaps@).take(
                        j as int,
                    )).push((l.0@, l.1@, l.2@)));
                }
                j = j + 1;
            }
            let c = (copy_string(&e.live.0), copy_string(&e.live.1), copy_string(&e.live.2));
            let ghost prev = all@;
            all.push(c);
            proof {
                lemma_lines_push(prev, c);
                assert(self.inner@.take(k + 1).drop_last() =~= self.inner@.take(k as int));
                assert(lines_view(e.snaps@).take(j as int) =~= lines_view(e.snaps@));
                assert(lines_view(all@) =~= all_lines(self.inner@.take(k + 1)));
            }
            k = k + 1;
        }
        proof {
            assert(self.inner@.take(k as int) =~= self.inner@);
            assert forall|i: int| 0 <= i < all@.len() implies (#[trigger] all@[i]).0@.len() + all@[i].1@.len()
                + all@[i].2@.len() < 0x1000_0000 by {
                assert(lines_view(all@)[i] == all_lines(self.inner@)[i]);
            }
        }
        let padding = PaddingCollection::new(&all, phantom_date, phantom_size, terminal_width);
        let width = padding.size_padding_len;
        let border = &padding.fancy_border_string;
        let raw = match mode {
            PrintMode::RawZero => Some('\0'),
            PrintMode::RawNewline => Some('\n'),
            _ => None,
        };
        let not_pretty = mode == PrintMode::FormattedNotPretty;
        let mut r = String::new();
        let mut k: usize = 0;
        proof {
            assert(r@ =~= Seq::<char>::empty());
        }
        while k < self.inner.len()
            invariant
                k <= self.inner@.len(),
                not_pretty == (mode == PrintMode::FormattedNotPretty),
                raw == (if mode == PrintMode::RawZero {
                    Some('\0')
                } else if mode == PrintMode::RawNewline {
                    Some('\n')
                } else {
                    None
                }),
                r@ == listing_text(mode, exclusion, self.inner@.take(k as int), width as nat, border@),
            decreases self.inner@.len() - k,
        {
            let e = &self.inner[k];
            let snaps_text = lines_of(not_pretty, raw, &e.snaps, width);
            let live_line = vec![(copy_string(&e.live.0), copy_string(&e.live.1), copy_string(&e.live.2))];
            let live_text = lines_of(not_pretty, raw, &live_line, width);
            proof {
                assert(lines_view(live_line@) =~= seq![(e.live.0@, e.live.1@, e.live.2@)]);
                assert(self.inner@.take(k + 1).drop_last() =~= self.inner@.take(k as int));
                assert(self.inner@.take(k + 1).last() == *e);
            }
            match raw {
                Some(_) => {
                    if exclusion != Some(BulkExclusion::NoSnap) {
                        r.append(snaps_text.as_str());
                    }
                    if exclusion != Some(BulkExclusion::NoLive) {
                        r.append(live_text.as_str());
                    }
                },
                None => {
                    let set = DisplaySet { snaps: snaps_text, live: live_text };
                    let t = set.format(mode, exclusion, border.as_str());
                    r.append(t.as_str());
                },
            }
            proof {
                assert(r@ =~= listing_text(mode, exclusion, self.inner@.take(k + 1), width as nat, border@));
            }
            k = k + 1;
        }
        proof {
            assert(self.inner@.take(k as int) =~= self.inner@);
        }
        r
    }
}

/// `n` copies of the border character, then a newline.
pub open spec fn border_spec(n: nat) -> Seq<char> {
    Seq::new(n, |i: int| '─').push('\n')
}

/// Widths and fillers shared by the lines of a version listing.
pub struct PaddingCollection {
    pub size_padding_len: usize,
    pub fancy_border_string: String,
    pub phantom_date_pad_str: String,
    pub phantom_size_pad_str: String,
}

/// The widths of a listing of `lines` (date, size, path): the widest size, and the longest
/// line with its paddings and quotation marks, each size right-aligned to the widest size of the
/// lines before it.
pub open spec fn widths_spec(lines: Seq<(Seq<char>, Seq<char>, Seq<char>)>) -> (nat, nat)
    decreases lines.len(),
{
    if lines.len() == 0 {
        (0, 0)
    } else {
        let (size_w, border_w) = widths_spec(lines.drop_last());
        let (d, sz, p) = lines.last();
        let line_len: nat = d.len() + pad_left_spec(sz, size_w).len() + p.len() + 4 + QUOTATION_MARKS_LEN as nat;
        (
            if sz.len() > size_w { sz.len() } else { size_w },
            if line_len > border_w { line_len } else { border_w },
        )
    }
}

/// The views of listing lines.
pub open spec fn lines_view(v: Seq<(String, String, String)>) -> Seq<(Seq<char>, Seq<char>, Seq<char>)> {
    v.map_values(|l: (String, String, String)| (l.0@, l.1@, l.2@))
}

impl PaddingCollection {
    /// The paddings of a listing of `lines`, each a date, a size and a path; phantoms are
    /// padded to the width of the texts `phantom_date` and `phantom_size`.
    pub fn new(
        lines: &Vec<(String, String, String)>,
        phantom_date: &str,
        phantom_size: &str,
        terminal_width: Option<usize>,
    ) -> (r: PaddingCollection)
        requires
            forall|i: int|
                0 <= i < lines@.len() ==> (#[trigger] lines@[i]).0@.len() + lines@[i].1@.len() + lines@[i].2@.len()
                    < 0x1000_0000,
            lines@.len() < 0x1000_0000,
        ensures
            r.size_padding_len as nat == widths_spec(lines_view(lines@)).0,
            r.fancy_border_string@ == border_spec(
                match terminal_width {
                    Some(w) => if w < widths_spec(lines_view(lines@)).1 {
                        w as nat
                    } else {
                        widths_spec(lines_view(lines@)).1
                    },
                    None => widths_spec(lines_view(lines@)).1,
                },
            ),
            r.phantom_date_pad_str@ == spaces(phantom_date@.len()),
            r.phantom_size_pad_str@ == spaces(phantom_size@.len()),
    {
        let ghost lv = lines_view(lines@);
        let mut size_w: usize = 0;
        let mut border_w: usize = 0;
        let mut i: usize = 0;
        while i < lines.len()
            invariant
                i <= lines@.len(),
                lv == lines_view(lines@),
                forall|i: int|
                    0 <= i < lines@.len() ==> (#[trigger] lines@[i]).0@.len() + lines@[i].1@.len()
                        + lines@[i].2@.len() < 0x1000_0000,
                (size_w as nat, border_w as nat) == widths_spec(lv.take(i as int)),
                size_w < 0x1000_0000,
                border_w < 0x3000_0000,
            decreases lines@.len() - i,
        {
            proof {
                assert(lv.take(i + 1).drop_last() =~= lv.take(i as int));
                assert(lv.take(i + 1).last() == lv[i as int]);
            }
            let (d, sz, p) = (&lines[i].0, &lines[i].1, &lines[i].2);
            let sized = pad_left(sz.as_str(), size_w);
            let line_len = d.as_str().unicode_len() + sized.as_str().unicode_len() + p.as_str().unicode_len() + 4
                + QUOTATION_MARKS_LEN;
            let sz_len = sz.as_str().unicode_len();
            if sz_len > size_w {
                size_w = sz_len;
            }
            if line_len > border_w {
                border_w = line_len;
            }
            i = i + 1;
        }
        proof {
            assert(lv.take(i as int) =~= lv);
        }
        let fancy_border_string = Self::fancy_border_string(border_w, terminal_width);
        let phantom_date_pad_str = pad_right("", phantom_date.unicode_len());
        let phantom_size_pad_str = pad_right("", phantom_size.unicode_len());
        proof {
            reveal_strlit("");
            assert(phantom_date_pad_str@ =~= spaces(phantom_date@.len()));
            assert(phantom_size_pad_str@ =~= spaces(phantom_size@.len()));
        }
        PaddingCollection { size_padding_len: size_w, fancy_border_string, phantom_date_pad_str, phantom_size_pad_str }
    }

    /// A border as long as the longest line, or as the terminal where that is narrower.
    pub fn fancy_border_string(fancy_border_len: usize, terminal_width: Option<usize>) -> (r: String)
        ensures
            r@ == border_spec(
                match terminal_width {
                    Some(w) => if w < fancy_border_len {
                        w as nat
                    } else {
                        fancy_border_len as nat
                    },
                    None => fancy_border_len as nat,
                },
            ),
    {
        let n = match terminal_width {
            Some(w) => if w < fancy_border_len {
                w
            } else {
                fancy_border_len
            },
            None => fancy_border_len,
        };
        proof {
            reveal_strlit("─");
            reveal_strlit("\n");
        }
        let mut r = String::new();
        let mut i: usize = 0;
        while i < n
            invariant
                i <= n,
                r@ == Seq::new(i as nat, |k: int| '─'),
            decreases n - i,
        {
            r.append("─");
            proof {
                reveal_strlit("─");
                assert(r@ =~= Seq::new((i + 1) as nat, |k: int| '─'));
            }
            i = i + 1;
        }
        r.append("\n");
        proof {
            assert(r@ =~= border_spec(n as nat));
        }
        r
    }
}

} // verus!
