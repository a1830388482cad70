//! Character-level helpers: splitting on a separator and reading decimal numbers.
use vstd::prelude::*;

verus! {

/// The pieces of `s` between occurrences of `c`, empty pieces kept: one more piece than there
/// are separators.
pub open spec fn split_on(s: Seq<char>, c: char) -> Seq<Seq<char>>
    decreases s.len(),
{
    if s.len() == 0 {
        seq![Seq::empty()]
    } else {
        let prev = split_on(s.drop_last(), c);
        if s.last() == c {
            prev.push(Seq::empty())
        } else {
            prev.update(prev.len() - 1, prev.last().push(s.last()))
        }
    }
}

/// Splitting always gives at least one piece.
pub proof fn lemma_split_nonempty(s: Seq<char>, c: char)
    ensures
        split_on(s, c).len() >= 1,
    decreases s.len(),
{
    if s.len() > 0 {
        lemma_split_nonempty(s.drop_last(), c);
    }
}

/// Whether every character of `s` is an ASCII digit.
pub open spec fn all_digits(s: Seq<char>) -> bool {
    forall|i: int| 0 <= i < s.len() ==> '0' <= #[trigger] s[i] <= '9'
}

/// The number that the digits of `s` spell in base ten.
pub open spec fn decimal(s: Seq<char>) -> nat
    decreases s.len(),
{
    if s.len() == 0 {
        0
    } else {
        decimal(s.drop_last()) * 10 + ((s.last() as nat) - ('0' as nat)) as nat
    }
}

/// What reading `s` as an unsigned 64-bit decimal gives: an optional `+`, then one or more
/// digits whose value fits.
pub open spec fn parse_u64_spec(s: Seq<char>) -> Option<nat> {
    let t = if s.len() > 0 && s[0] == '+' {
        s.drop_first()
    } else {
        s
    };
    if t.len() > 0 && all_digits(t) && decimal(t) <= u64::MAX {
        Some(decimal(t))
    } else {
        None
    }
}

proof fn lemma_decimal_grows(s: Seq<char>, j: int)
    requires
        0 <= j <= s.len(),
        all_digits(s),
    ensures
        decimal(s.take(j)) <= decimal(s),
    decreases s.len() - j,
{
    if j < s.len() {
        lemma_decimal_grows(s, j + 1);
        assert(s.take(j + 1).drop_last() =~= s.take(j));
    } else {
        assert(s.take(j) =~= s);
    }
}

/// Reads `s` as an unsigned 64-bit decimal number.
pub fn parse_u64(s: &str) -> (r: Option<u64>)
    ensures
        r is Some <==> parse_u64_spec(s@) is Some,
        r is Some ==> r->0 as nat == parse_u64_spec(s@)->0,
{
    let n = s.unicode_len();
    let mut start: usize = 0;
    if n > 0 && s.get_char(0) == '+' {
        start = 1;
    }
    let ghost t = if s@.len() > 0 && s@[0] == '+' {
        s@.drop_first()
    } else {
        s@
    };
    proof {
        assert(t =~= s@.skip(start as int));
        assert(parse_u64_spec(s@) == (if t.len() > 0 && all_digits(t) && decimal(t) <= u64::MAX {
            Some(decimal(t))
        } else {
            None
        }));
    }
    if start >= n {
        return None;
    }
    let mut acc: u64 = 0;
    let mut i: usize = start;
    while i < n
        invariant
            n == s@.len(),
            start <= i <= n,
            t == s@.skip(start as int),
            all_digits(t.take(i - start)),
            parse_u64_spec(s@) == (if t.len() > 0 && all_digits(t) && decimal(t) <= u64::MAX {
                Some(decimal(t))
            } else {
                None
            }),
            acc as nat == decimal(t.take(i - start)),
        decreases n - i,
    {
        let ch = s.get_char(i);
        proof {
            assert(t.take(i - start + 1).drop_last() =~= t.take(i - start));
            assert(t.take(i - start + 1).last() == ch);
        }
        if ch < '0' || ch > '9' {
            proof {
                assert(t[i - start] == ch);
                assert(!('0' <= t[i - start] <= '9'));
                assert(!all_digits(t));
                assert(parse_u64_spec(s@) is None);
            }
            return None;
        }
        let d: u64 = (ch as u64) - ('0' as u64);
        if acc > (u64::MAX - d) / 10 {
            proof {
                let k = i - start;
                assert(all_digits(t.take(k + 1)));
                assert(decimal(t.take(k + 1)) == decimal(t.take(k)) * 10 + d) by {
                    assert(t.take(k + 1).drop_last() =~= t.take(k));
                }
                let m = u64::MAX as int;
                assert(acc * 10 + d > m) by (nonlinear_arith)
                    requires
                        acc > (m - d) / 10,
                        0 <= d <= 9,
                        m > 9,
                ;
                if all_digits(t) {
                    lemma_decimal_grows(t, k + 1);
                    assert(decimal(t) > m);
                }
                assert(parse_u64_spec(s@) is None);
            }
            return None;
        }
        acc = acc * 10 + d;
        i = i + 1;
    }
    proof {
        assert(t.take(n - start) =~= t);
    }
    Some(acc)
}

/// Finds the first `c` in `s`.
pub fn find_char(s: &str, c: char) -> (r: Option<usize>)
    ensures
        r is Some <==> s@.contains(c),
        r is Some ==> r->0 < s@.len() && s@[r->0 as int] == c && forall|k: int|
            0 <= k < r->0 ==> s@[k] != c,
{
    let n = s.unicode_len();
    let mut i: usize = 0;
    while i < n
        invariant
            n == s@.len(),
            i <= n,
            forall|k: int| 0 <= k < i ==> s@[k] != c,
        decreases n - i,
    {
        if s.get_char(i) == c {
            return Some(i);
        }
        i = i + 1;
    }
    None
}

/// Splits `s` into its pieces between occurrences of `c`.
pub fn split_fields(s: &str, c: char) -> (r: Vec<String>)
    ensures
        r@.map_values(|x: String| x@) == split_on(s@, c),
{
    let n = s.unicode_len();
    let mut r: Vec<String> = Vec::new();
    let mut start: usize = 0;
    let mut i: usize = 0;
    proof {
        assert(s@.take(0) =~= Seq::<char>::empty());
        assert(s@.subrange(0, 0) =~= Seq::<char>::empty());
        assert(r@.map_values(|x: String| x@).push(Seq::<char>::empty()) =~= seq![
            Seq::<char>::empty(),
        ]);
    }
    while i < n
        invariant
            n == s@.len(),
            start <= i <= n,
            r@.map_values(|x: String| x@).push(s@.subrange(start as int, i as int)) == split_on(
                s@.take(i as int),
                c,
            ),
        decreases n - i,
    {
        let ch = s.get_char(i);
        proof {
            assert(s@.take(i + 1).drop_last() =~= s@.take(i as int));
            assert(s@.take(i + 1).last() == ch);
        }
        if ch == c {
            let piece = String::from_str(s.substring_char(start, i));
            let ghost prev = r@;
            r.push(piece);
            proof {
                assert(prev.push(piece).map_values(|x: String| x@) =~= prev.map_values(
                    |x: String| x@,
                ).push(piece@));
                assert(s@.subrange(i + 1, i + 1) =~= Seq::<char>::empty());
            }
            start = i + 1;
        } else {
            proof {
                let prev = split_on(s@.take(i as int), c);
                assert(prev.last() == s@.subrange(start as int, i as int));
                assert(s@.subrange(start as int, i + 1) =~= s@.subrange(start as int, i as int).push(
                    ch,
                ));
                assert(r@.map_values(|x: String| x@).push(s@.subrange(start as int, i + 1))
                    =~= prev.update(prev.len() - 1, prev.last().push(ch)));
            }
        }
        i = i + 1;
    }
    let piece = String::from_str(s.substring_char(start, n));
    let ghost prev = r@;
    r.push(piece);
    proof {
        assert(prev.push(piece).map_values(|x: String| x@) =~= prev.map_values(|x: String| x@).push(
            piece@,
        ));
        assert(s@.take(n as int) =~= s@);
    }
    r
}

/// Whether `p` occurs in `s` at position `i`.
#[verifier::opaque]
pub open spec fn occurs_at(s: Seq<char>, p: Seq<char>, i: int) -> bool {
    0 <= i && i + p.len() <= s.len() && s.subrange(i, i + p.len()) == p
}

/// Whether `p` occurs somewhere in `s`.
#[verifier::opaque]
pub open spec fn has_sub(s: Seq<char>, p: Seq<char>) -> bool {
    exists|i: int| occurs_at(s, p, i)
}

/// The position of the first occurrence of `p` in `s`, if any.
#[verifier::opaque]
pub open spec fn first_occurrence(s: Seq<char>, p: Seq<char>) -> Option<int> {
    if has_sub(s, p) {
        Some(choose|i: int| occurs_at(s, p, i) && forall|j: int| 0 <= j < i ==> !occurs_at(s, p, j))
    } else {
        None
    }
}

/// Whether `p` occurs in `s` at position `i`.
pub fn matches_at(s: &str, n: usize, p: &str, m: usize, i: usize) -> (r: bool)
    requires
        n == s@.len(),
        m == p@.len(),
        i <= n,
    ensures
        r == occurs_at(s@, p@, i as int),
{
    reveal(occurs_at);
    if m > n - i {
        return false;
    }
    let mut k: usize = 0;
    while k < m
        invariant
            n == s@.len(),
            m == p@.len(),
            i + m <= n,
            k <= m,
            s@.subrange(i as int, i + k) == p@.take(k as int),
        decreases m - k,
    {
        proof {
            reveal(occurs_at);
        }
        if s.get_char(i + k) != p.get_char(k) {
            proof {
                assert(s@.subrange(i as int, i + m)[k as int] == s@[i + k]);
            }
            return false;
        }
        proof {
            assert(s@.subrange(i as int, i + k + 1) =~= s@.subrange(i as int, i + k).push(s@[i + k]));
            assert(p@.take(k + 1) =~= p@.take(k as int).push(p@[k as int]));
        }
        k = k + 1;
    }
    proof {
        assert(p@.take(m as int) =~= p@);
    }
    true
}

/// Finds the first occurrence of `p` in `s`.
pub fn find_str(s: &str, p: &str) -> (r: Option<usize>)
    ensures
        r is Some <==> has_sub(s@, p@),
        r is Some ==> first_occurrence(s@, p@) == Some(r->0 as int),
        r is Some ==> occurs_at(s@, p@, r->0 as int),
        r is Some <==> first_occurrence(s@, p@) is Some,
{
    reveal(has_sub);
    reveal(first_occurrence);
    let n = s.unicode_len();
    let m = p.unicode_len();
    let mut i: usize = 0;
    while i <= n
        invariant
            n == s@.len(),
            m == p@.len(),
            i <= n + 1,
            forall|j: int| 0 <= j < i ==> !occurs_at(s@, p@, j),
        decreases n + 1 - i,
    {
        proof {
            reveal(has_sub);
            reveal(first_occurrence);
            reveal(occurs_at);
        }
        if matches_at(s, n, p, m, i) {
            proof {
                let c = choose|c: int| occurs_at(s@, p@, c) && forall|j: int| 0 <= j < c ==> !occurs_at(s@, p@, j);
                assert(occurs_at(s@, p@, i as int));
                if c < i {
                } else if c > i {
                    assert(!occurs_at(s@, p@, i as int));
                }
            }
            return Some(i);
        }
        if i == n {
            proof {
                assert forall|j: int| !occurs_at(s@, p@, j) by {
                    if 0 <= j < i + 1 {
                    }
                }
            }
            return None;
        }
        i = i + 1;
    }
    proof {
        reveal(has_sub);
        reveal(first_occurrence);
        reveal(occurs_at);
        assert forall|j: int| !occurs_at(s@, p@, j) by {
            if 0 <= j < i {
            }
        }
    }
    None
}

/// Splits `s` around the first occurrence of `p`.
pub fn split_once_str(s: &str, p: &str) -> (r: Option<(String, String)>)
    ensures
        r is Some <==> has_sub(s@, p@),
        r is Some <==> first_occurrence(s@, p@) is Some,
        r is Some ==> ({
            let i = first_occurrence(s@, p@)->0;
            let (a, b) = r->0;
            a@ == s@.take(i) && b@ == s@.skip(i + p@.len())
        }),
{
    reveal(occurs_at);
    match find_str(s, p) {
        None => None,
        Some(i) => {
            let n = s.unicode_len();
            let m = p.unicode_len();
            let a = String::from_str(s.substring_char(0, i));
            let b = String::from_str(s.substring_char(i + m, n));
            proof {
                assert(a@ =~= s@.take(i as int));
                assert(b@ =~= s@.skip(i + p@.len()));
            }
            let r = (a, b);
            Some(r)
        },
    }
}

/// Whether `s` begins with `p`, and the rest of `s` after it.
pub fn strip_prefix_str(s: &str, p: &str) -> (r: Option<String>)
    ensures
        r is Some <==> occurs_at(s@, p@, 0),
        r is Some ==> r->0@ == s@.skip(p@.len() as int),
{
    reveal(occurs_at);
    let n = s.unicode_len();
    let m = p.unicode_len();
    if matches_at(s, n, p, m, 0) {
        let rest = String::from_str(s.substring_char(m, n));
        proof {
            assert(rest@ =~= s@.skip(p@.len() as int));
        }
        Some(rest)
    } else {
        None
    }
}

/// Whether `c` is white space as Unicode defines it.
pub open spec fn is_ws_spec(c: char) -> bool {
    c == '\t' || c == '\n' || c == '\u{b}' || c == '\u{c}' || c == '\r' || c == ' ' || c == '\u{85}'
        || c == '\u{a0}' || c == '\u{1680}' || ('\u{2000}' <= c && c <= '\u{200a}') || c == '\u{2028}'
        || c == '\u{2029}' || c == '\u{202f}' || c == '\u{205f}' || c == '\u{3000}'
}

/// Whether `c` is white space.
pub fn is_ws(c: char) -> (r: bool)
    ensures
        r == is_ws_spec(c),
{
    c == '\t' || c == '\n' || c == '\u{b}' || c == '\u{c}' || c == '\r' || c == ' ' || c == '\u{85}'
        || c == '\u{a0}' || c == '\u{1680}' || ('\u{2000}' <= c && c <= '\u{200a}') || c == '\u{2028}'
        || c == '\u{2029}' || c == '\u{202f}' || c == '\u{205f}' || c == '\u{3000}'
}

/// `s` without its trailing white space.
pub open spec fn trim_end_spec(s: Seq<char>) -> Seq<char>
    decreases s.len(),
{
    if s.len() > 0 && is_ws_spec(s.last()) {
        trim_end_spec(s.drop_last())
    } else {
        s
    }
}

/// `s` without its leading white space.
pub open spec fn trim_start_spec(s: Seq<char>) -> Seq<char>
    decreases s.len(),
{
    if s.len() > 0 && is_ws_spec(s[0]) {
        trim_start_spec(s.drop_first())
    } else {
        s
    }
}

/// `s` without leading or trailing white space.
pub open spec fn trim_spec(s: Seq<char>) -> Seq<char> {
    trim_end_spec(trim_start_spec(s))
}

/// `s` without its trailing white space.
pub fn trim_end_string(s: &str) -> (r: String)
    ensures
        r@ == trim_end_spec(s@),
{
    let mut n = s.unicode_len();
    proof {
        assert(s@.take(n as int) =~= s@);
    }
    while n > 0 && is_ws(s.get_char(n - 1))
        invariant
            n <= s@.len(),
            trim_end_spec(s@) == trim_end_spec(s@.take(n as int)),
        decreases n,
    {
        proof {
            assert(s@.take(n as int).drop_last() =~= s@.take(n - 1));
        }
        n = n - 1;
    }
    let r = String::from_str(s.substring_char(0, n));
    proof {
        assert(r@ =~= s@.take(n as int));
    }
    r
}

/// `s` without leading or trailing white space.
pub fn trim_string(s: &str) -> (r: String)
    ensures
        r@ == trim_spec(s@),
{
    let n = s.unicode_len();
    let mut k: usize = 0;
    proof {
        assert(s@.skip(0) =~= s@);
    }
    while k < n && is_ws(s.get_char(k))
        invariant
            n == s@.len(),
            k <= n,
            trim_start_spec(s@) == trim_start_spec(s@.skip(k as int)),
        decreases n - k,
    {
        proof {
            assert(s@.skip(k as int).drop_first() =~= s@.skip(k + 1));
        }
        k = k + 1;
    }
    let rest = s.substring_char(k, n);
    proof {
        assert(rest@ =~= s@.skip(k as int));
    }
    trim_end_string(rest)
}

/// Whether `p` occurs in `s`.
pub fn contains_str(s: &str, p: &str) -> (r: bool)
    ensures
        r == has_sub(s@, p@),
{
    find_str(s, p).is_some()
}

} // verus!
