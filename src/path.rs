//! Absolute paths modelled as sequences of components.
use vstd::prelude::*;

verus! {

/// Characters gathered since the last separator of `s`.
pub open spec fn pending(s: Seq<char>) -> Seq<char>
    decreases s.len(),
{
    if s.len() == 0 {
        Seq::empty()
    } else if s.last() == '/' {
        Seq::empty()
    } else {
        pending(s.drop_last()).push(s.last())
    }
}

/// Components of `s` closed by a separator.
pub open spec fn closed(s: Seq<char>) -> Seq<Seq<char>>
    decreases s.len(),
{
    if s.len() == 0 {
        Seq::empty()
    } else if s.last() == '/' && pending(s.drop_last()).len() > 0 {
        closed(s.drop_last()).push(pending(s.drop_last()))
    } else {
        closed(s.drop_last())
    }
}

/// The non-empty runs of non-separator characters of `s`, in order.
pub open spec fn split_path(s: Seq<char>) -> Seq<Seq<char>> {
    if pending(s).len() > 0 {
        closed(s).push(pending(s))
    } else {
        closed(s)
    }
}

/// Each component preceded by a `/`.
pub open spec fn joined(c: Seq<Seq<char>>) -> Seq<char>
    decreases c.len(),
{
    if c.len() == 0 {
        Seq::empty()
    } else {
        joined(c.drop_last()) + seq!['/'] + c.last()
    }
}

/// The text of a path given by its components: `/` alone for the root.
pub open spec fn render(c: Seq<Seq<char>>) -> Seq<char> {
    if c.len() == 0 {
        seq!['/']
    } else {
        joined(c)
    }
}

/// Length of the longest common prefix of `a` and `b`.
pub open spec fn common_len(a: Seq<Seq<char>>, b: Seq<Seq<char>>) -> nat
    decreases a.len(),
{
    if a.len() == 0 || b.len() == 0 || a[0] != b[0] {
        0
    } else {
        1 + common_len(a.drop_first(), b.drop_first())
    }
}

/// The common ancestor of two paths, where it lies below the root.
pub open spec fn common_path(a: Seq<Seq<char>>, b: Seq<Seq<char>>) -> Option<Seq<Seq<char>>> {
    if common_len(a, b) > 0 {
        Some(a.take(common_len(a, b) as int))
    } else {
        None
    }
}

/// The common ancestor of all of `ps`, folded from the first: `None` where there is no path
/// or the ancestor is the root.
pub open spec fn common_of(ps: Seq<Seq<Seq<char>>>) -> Option<Seq<Seq<char>>>
    decreases ps.len(),
{
    if ps.len() == 0 {
        None
    } else if ps.len() == 1 {
        Some(ps[0])
    } else {
        match common_of(ps.drop_last()) {
            None => None,
            Some(acc) => common_path(acc, ps.last()),
        }
    }
}

/// The path whose text is that of `c` followed by `.tmp`.
pub open spec fn tmp_of(c: Seq<Seq<char>>) -> Seq<Seq<char>> {
    if c.len() == 0 {
        seq![seq!['.', 't', 'm', 'p']]
    } else {
        c.drop_last().push(c.last() + seq!['.', 't', 'm', 'p'])
    }
}

/// Whether `p` begins with all the components of `q`.
pub open spec fn is_prefix(q: Seq<Seq<char>>, p: Seq<Seq<char>>) -> bool {
    q.len() <= p.len() && p.take(q.len() as int) == q
}

proof fn lemma_pending_wf(s: Seq<char>)
    ensures
        !pending(s).contains('/'),
    decreases s.len(),
{
    if s.len() > 0 && s.last() != '/' {
        lemma_pending_wf(s.drop_last());
        let p = pending(s.drop_last());
        assert forall|i: int| 0 <= i < p.push(s.last()).len() implies p.push(s.last())[i] != '/' by {
            if i < p.len() {
                assert(p.push(s.last())[i] == p[i]);
            }
        }
    }
}

proof fn lemma_closed_wf(s: Seq<char>)
    ensures
        comps_wf(closed(s)),
    decreases s.len(),
{
    if s.len() > 0 {
        lemma_closed_wf(s.drop_last());
        lemma_pending_wf(s.drop_last());
    }
}

/// The components that splitting gives are non-empty and free of separators.
pub proof fn lemma_split_path_wf(s: Seq<char>)
    ensures
        comps_wf(split_path(s)),
{
    lemma_closed_wf(s);
    lemma_pending_wf(s);
}

/// An absolute path, held as its components: no component is empty or holds `/`.
pub struct FsPath {
    pub comps: Vec<String>,
}

impl View for FsPath {
    type V = Seq<Seq<char>>;

    open spec fn view(&self) -> Seq<Seq<char>> {
        self.comps@.map_values(|c: String| c@)
    }
}

/// Whether every component is non-empty and free of separators.
pub open spec fn comps_wf(c: Seq<Seq<char>>) -> bool {
    forall|i: int| 0 <= i < c.len() ==> c[i].len() > 0 && !c[i].contains('/')
}

impl FsPath {
    /// Every component is non-empty and free of separators.
    pub open spec fn wf(&self) -> bool {
        comps_wf(self@)
    }

    /// The root directory.
    pub fn root() -> (r: FsPath)
        ensures
            r@ == Seq::<Seq<char>>::empty(),
    {
        FsPath { comps: Vec::new() }
    }

    /// Splits `s` at each `/`, dropping empty components.
    pub fn parse(s: &str) -> (r: FsPath)
        ensures
            r@ == split_path(s@),
            r.wf(),
    {
        proof {
            lemma_split_path_wf(s@);
        }
        let n = s.unicode_len();
        let mut comps: Vec<String> = Vec::new();
        let mut start: usize = 0;
        let mut i: usize = 0;
        while i < n
            invariant
                n == s@.len(),
                start <= i <= n,
                comps@.map_values(|c: String| c@) == closed(s@.take(i as int)),
                pending(s@.take(i as int)) == s@.subrange(start as int, i as int),
            decreases n - i,
        {
            let ch = s.get_char(i);
            proof {
                assert(s@.take(i + 1).drop_last() == s@.take(i as int));
                assert(s@.take(i + 1).last() == ch);
            }
            if ch == '/' {
                if start < i {
                    let piece = s.substring_char(start, i);
                    let comp = String::from_str(piece);
                    comps.push(comp);
                    proof {
                        assert(comps@.map_values(|c: String| c@) =~= closed(s@.take(i as int)).push(
                            comp@,
                        ));
                    }
                }
                start = i + 1;
                proof {
                    assert(s@.subrange(start as int, start as int) =~= Seq::<char>::empty());
                }
            } else {
                proof {
                    assert(s@.subrange(start as int, i + 1) =~= s@.subrange(
                        start as int,
                        i as int,
                    ).push(ch));
                }
            }
            i = i + 1;
        }
        if start < n {
            let piece = s.substring_char(start, n);
            let comp = String::from_str(piece);
            comps.push(comp);
            proof {
                assert(comps@.map_values(|c: String| c@) =~= closed(s@.take(n as int)).push(
                    comp@,
                ));
            }
        }
        proof {
            assert(s@.take(n as int) =~= s@);
        }
        FsPath { comps }
    }
}

/// The view of a sequence of strings grows by one view when a string is pushed.
pub proof fn lemma_view_push(v: Seq<String>, c: String)
    ensures
        v.push(c).map_values(|s: String| s@) == v.map_values(|s: String| s@).push(c@),
{
    assert(v.push(c).map_values(|s: String| s@) =~= v.map_values(|s: String| s@).push(c@));
}

/// The views of a sequence of paths.
pub open spec fn paths_view(v: Seq<FsPath>) -> Seq<Seq<Seq<char>>> {
    v.map_values(|p: FsPath| p@)
}

/// The views of a sequence of paths grow by one view when a path is pushed.
pub proof fn lemma_paths_push(v: Seq<FsPath>, c: FsPath)
    ensures
        paths_view(v.push(c)) == paths_view(v).push(c@),
{
    assert(paths_view(v.push(c)) =~= paths_view(v).push(c@));
}

/// Whether two strings hold the same characters.
pub fn str_eq(a: &str, b: &str) -> (r: bool)
    ensures
        r == (a@ == b@),
{
    let n = a.unicode_len();
    let m = b.unicode_len();
    if n != m {
        return false;
    }
    let mut i: usize = 0;
    while i < n
        invariant
            n == a@.len(),
            m == b@.len(),
            n == m,
            i <= n,
            a@.take(i as int) == b@.take(i as int),
        decreases n - i,
    {
        if a.get_char(i) != b.get_char(i) {
            return false;
        }
        proof {
            assert(a@.take(i + 1) =~= a@.take(i as int).push(a@[i as int]));
            assert(b@.take(i + 1) =~= b@.take(i as int).push(b@[i as int]));
        }
        i = i + 1;
    }
    proof {
        assert(a@ =~= a@.take(n as int));
        assert(b@ =~= b@.take(n as int));
    }
    true
}

/// A copy of `s`.
pub fn copy_string(s: &String) -> (r: String)
    ensures
        r@ == s@,
{
    String::from_str(s.as_str())
}

/// Whether the components `q` begin the components `p`.
pub fn comps_prefix(q: &Vec<String>, p: &Vec<String>) -> (r: bool)
    ensures
        r == is_prefix(q@.map_values(|c: String| c@), p@.map_values(|c: String| c@)),
{
    let ghost qv = q@.map_values(|c: String| c@);
    let ghost pv = p@.map_values(|c: String| c@);
    if q.len() > p.len() {
        return false;
    }
    let mut i: usize = 0;
    while i < q.len()
        invariant
            q.len() <= p.len(),
            i <= q.len(),
            qv == q@.map_values(|c: String| c@),
            pv == p@.map_values(|c: String| c@),
            pv.take(i as int) == qv.take(i as int),
        decreases q.len() - i,
    {
        if !str_eq(q[i].as_str(), p[i].as_str()) {
            proof {
                assert(pv.take(qv.len() as int)[i as int] == pv[i as int]);
            }
            return false;
        }
        proof {
            assert(pv.take(i + 1) =~= pv.take(i as int).push(pv[i as int]));
            assert(qv.take(i + 1) =~= qv.take(i as int).push(qv[i as int]));
        }
        i = i + 1;
    }
    proof {
        assert(qv =~= qv.take(q.len() as int));
    }
    true
}

impl FsPath {
    /// A copy of this path.
    pub fn copy(&self) -> (r: FsPath)
        ensures
            r@ == self@,
    {
        let mut comps: Vec<String> = Vec::new();
        let mut i: usize = 0;
        while i < self.comps.len()
            invariant
                i <= self.comps.len(),
                comps@.map_values(|c: String| c@) == self@.take(i as int),
            decreases self.comps.len() - i,
        {
            let c = copy_string(&self.comps[i]);
            let ghost prev = comps@;
            comps.push(c);
            proof {
                lemma_view_push(prev, c);
                assert(self@.take(i + 1) =~= self@.take(i as int).push(c@));
            }
            i = i + 1;
        }
        proof {
            assert(self@.take(i as int) =~= self@);
        }
        FsPath { comps }
    }

    /// The number of components below the root.
    pub fn depth(&self) -> (r: usize)
        ensures
            r == self@.len(),
    {
        self.comps.len()
    }

    /// Whether this path and `o` are the same path.
    pub fn same(&self, o: &FsPath) -> (r: bool)
        ensures
            r == (self@ == o@),
    {
        if self.comps.len() != o.comps.len() {
            return false;
        }
        let r = comps_prefix(&self.comps, &o.comps);
        proof {
            assert(o@.take(self@.len() as int) =~= o@);
        }
        r
    }

    /// Whether `base` is this path or one of its ancestors.
    pub fn starts_with(&self, base: &FsPath) -> (r: bool)
        ensures
            r == is_prefix(base@, self@),
    {
        comps_prefix(&base.comps, &self.comps)
    }

    /// The components of this path below `base`, where `base` is an ancestor or the path itself.
    pub fn strip_prefix(&self, base: &FsPath) -> (r: Option<FsPath>)
        ensures
            is_prefix(base@, self@) ==> r is Some && r->0@ == self@.skip(base@.len() as int),
            !is_prefix(base@, self@) ==> r is None,
    {
        if !self.starts_with(base) {
            return None;
        }
        let mut comps: Vec<String> = Vec::new();
        let mut i: usize = base.comps.len();
        while i < self.comps.len()
            invariant
                base.comps.len() <= i <= self.comps.len(),
                comps@.map_values(|c: String| c@) == self@.subrange(base@.len() as int, i as int),
            decreases self.comps.len() - i,
        {
            let c = copy_string(&self.comps[i]);
            let ghost prev = comps@;
            comps.push(c);
            proof {
                lemma_view_push(prev, c);
                assert(self@.subrange(base@.len() as int, i + 1) =~= self@.subrange(
                    base@.len() as int,
                    i as int,
                ).push(c@));
            }
            i = i + 1;
        }
        proof {
            assert(self@.subrange(base@.len() as int, i as int) =~= self@.skip(base@.len() as int));
        }
        Some(FsPath { comps })
    }

    /// The components of this path after its first `k`.
    pub fn suffix(&self, k: usize) -> (r: FsPath)
        requires
            k <= self@.len(),
        ensures
            r@ == self@.skip(k as int),
    {
        let mut comps: Vec<String> = Vec::new();
        let mut i: usize = k;
        while i < self.comps.len()
            invariant
                k <= i <= self.comps.len(),
                comps@.map_values(|c: String| c@) == self@.subrange(k as int, i as int),
            decreases self.comps.len() - i,
        {
            let c = copy_string(&self.comps[i]);
            let ghost prev = comps@;
            comps.push(c);
            proof {
                lemma_view_push(prev, c);
                assert(self@.subrange(k as int, i + 1) =~= self@.subrange(k as int, i as int).push(c@));
            }
            i = i + 1;
        }
        proof {
            assert(self@.subrange(k as int, i as int) =~= self@.skip(k as int));
        }
        FsPath { comps }
    }

    /// This path followed by the components of `rel`.
    pub fn join(&self, rel: &FsPath) -> (r: FsPath)
        ensures
            r@ == self@ + rel@,
    {
        let mut r = self.copy();
        let mut i: usize = 0;
        while i < rel.comps.len()
            invariant
                i <= rel.comps.len(),
                r@ == self@ + rel@.take(i as int),
            decreases rel.comps.len() - i,
        {
            let c = copy_string(&rel.comps[i]);
            let ghost prev = r.comps@;
            r.comps.push(c);
            proof {
                lemma_view_push(prev, c);
                assert(self@ + rel@.take(i + 1) =~= (self@ + rel@.take(i as int)).push(c@));
            }
            i = i + 1;
        }
        proof {
            assert(rel@.take(i as int) =~= rel@);
        }
        r
    }

    /// This path followed by one more component.
    pub fn child(&self, name: &str) -> (r: FsPath)
        ensures
            r@ == self@.push(name@),
    {
        let mut r = self.copy();
        let c = String::from_str(name);
        let ghost prev = r.comps@;
        r.comps.push(c);
        proof {
            lemma_view_push(prev, c);
        }
        r
    }

    /// The text of this path.
    pub fn to_text(&self) -> (r: String)
        ensures
            r@ == render(self@),
    {
        let mut r = String::new();
        let mut i: usize = 0;
        while i < self.comps.len()
            invariant
                i <= self.comps.len(),
                r@ == joined(self@.take(i as int)),
            decreases self.comps.len() - i,
        {
            proof {
                assert(self@.take(i + 1).drop_last() =~= self@.take(i as int));
                reveal_strlit("/");
            }
            r.append("/");
            r.append(self.comps[i].as_str());
            i = i + 1;
        }
        proof {
            assert(self@.take(i as int) =~= self@);
        }
        if i == 0 {
            proof {
                reveal_strlit("/");
            }
            r.append("/");
            proof {
                assert(r@ =~= seq!['/']);
            }
        }
        r
    }
}

/// The path whose text is the text of `path` followed by `.tmp`.
pub fn make_tmp_path(path: &FsPath) -> (r: FsPath)
    ensures
        r@ == tmp_of(path@),
{
    let mut r = path.copy();
    proof {
        reveal_strlit(".tmp");
        assert(".tmp"@ =~= seq!['.', 't', 'm', 'p']);
    }
    let ghost full = r.comps@;
    match r.comps.pop() {
        None => {
            let c = String::from_str(".tmp");
            let ghost prev = r.comps@;
            r.comps.push(c);
            proof {
                lemma_view_push(prev, c);
                assert(prev.map_values(|s: String| s@) =~= Seq::<Seq<char>>::empty());
                assert(r@ =~= tmp_of(path@));
            }
        },
        Some(last) => {
            let mut last = last;
            last.append(".tmp");
            let ghost prev = r.comps@;
            r.comps.push(last);
            proof {
                assert(full == prev.push(full.last()));
                lemma_view_push(prev, full.last());
                lemma_view_push(prev, last);
                assert(path@.drop_last() =~= prev.map_values(|s: String| s@));
                assert(r@ =~= tmp_of(path@));
            }
        },
    }
    r
}

/// The longest common ancestor of `a` and `b`, where it lies below the root.
pub fn cmp_path(a: &FsPath, b: &FsPath) -> (r: Option<FsPath>)
    ensures
        r is Some <==> common_path(a@, b@) is Some,
        r is Some ==> r->0@ == common_path(a@, b@)->0,
{
    let mut i: usize = 0;
    let mut comps: Vec<String> = Vec::new();
    proof {
        assert(a@.skip(0) =~= a@);
        assert(b@.skip(0) =~= b@);
    }
    while i < a.comps.len() && i < b.comps.len() && str_eq(a.comps[i].as_str(), b.comps[i].as_str())
        invariant
            i <= a.comps.len(),
            i <= b.comps.len(),
            common_len(a@, b@) == i + common_len(a@.skip(i as int), b@.skip(i as int)),
            comps@.map_values(|c: String| c@) == a@.take(i as int),
        decreases a.comps.len() - i,
    {
        proof {
            assert(a@.skip(i as int).drop_first() =~= a@.skip(i + 1));
            assert(b@.skip(i as int).drop_first() =~= b@.skip(i + 1));
        }
        let c = copy_string(&a.comps[i]);
        let ghost prev = comps@;
        comps.push(c);
        proof {
            lemma_view_push(prev, c);
            assert(a@.take(i + 1) =~= a@.take(i as int).push(c@));
        }
        i = i + 1;
    }
    proof {
        if i < a.comps.len() && i < b.comps.len() {
            assert(a@.skip(i as int)[0] == a@[i as int]);
            assert(b@.skip(i as int)[0] == b@[i as int]);
        }
    }
    if i > 0 {
        Some(FsPath { comps })
    } else {
        None
    }
}

/// The longest common ancestor of all of `paths`, taken pairwise from the first; `None` when
/// `paths` is empty or the ancestor is the root.
pub fn find_common_path(paths: &Vec<FsPath>) -> (r: Option<FsPath>)
    ensures
        r is Some <==> common_of(paths@.map_values(|p: FsPath| p@)) is Some,
        r is Some ==> r->0@ == common_of(paths@.map_values(|p: FsPath| p@))->0,
{
    let ghost ps = paths@.map_values(|p: FsPath| p@);
    if paths.len() == 0 {
        return None;
    }
    let mut acc = paths[0].copy();
    let mut i: usize = 1;
    proof {
        assert(ps.take(1).drop_last() =~= Seq::<Seq<Seq<char>>>::empty());
    }
    while i < paths.len()
        invariant
            1 <= i <= paths.len(),
            ps == paths@.map_values(|p: FsPath| p@),
            common_of(ps.take(i as int)) == Some(acc@),
        decreases paths.len() - i,
    {
        proof {
            assert(ps.take(i + 1).drop_last() =~= ps.take(i as int));
        }
        match cmp_path(&acc, &paths[i]) {
            None => {
                proof {
                    lemma_common_none(ps, i as int + 1);
                }
                return None;
            },
            Some(next) => {
                acc = next;
            },
        }
        i = i + 1;
    }
    proof {
        assert(ps.take(i as int) =~= ps);
    }
    Some(acc)
}

/// Once the fold has found no common ancestor, no longer prefix of the paths has one.
proof fn lemma_common_none(ps: Seq<Seq<Seq<char>>>, k: int)
    requires
        1 <= k <= ps.len(),
        common_of(ps.take(k)) is None,
    ensures
        common_of(ps) is None,
    decreases ps.len() - k,
{
    if k < ps.len() {
        assert(ps.take(k + 1).drop_last() =~= ps.take(k));
        lemma_common_none(ps, k + 1);
    } else {
        assert(ps.take(k) =~= ps);
    }
}

} // verus!
