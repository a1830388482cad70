//! Options read from the command line that carry rules of their own.
use vstd::prelude::*;
use crate::text::{split_on, split_fields, lemma_split_nonempty, parse_u64, parse_u64_spec, trim_end_spec, trim_end_string};
use crate::path::{str_eq, copy_string, lemma_view_push};

verus! {

/// Which snapshots a listing keeps: how many of the newest to leave out, and the names to
/// match, if any.
pub struct ListSnapsFilters {
    pub select_mode: bool,
    pub omit_num_snaps: usize,
    pub name_filters: Option<Vec<String>>,
}

/// Why a snapshot filter could not be read.
#[derive(Debug, Clone, Copy, PartialEq, Eq, Structural)]
pub enum SnapFilterError {
    /// The first field is not a count.
    InvalidMaxSnaps,
}

pub open spec fn none_word() -> Seq<char> {
    seq!['n', 'o', 'n', 'e']
}

pub open spec fn native_word() -> Seq<char> {
    seq!['n', 'a', 't', 'i', 'v', 'e']
}

/// The names that `native` stands for: the suffixes of snapshots this tool takes itself.
pub open spec fn native_names() -> Seq<Seq<char>> {
    seq![
        seq!['o', 'u', 'n', 'c', 'e', 'S', 'n', 'a', 'p', 'F', 'i', 'l', 'e', 'M', 'o', 'u', 'n', 't'],
        seq!['h', 't', 't', 'm', 'S', 'n', 'a', 'p', 'F', 'i', 'l', 'e', 'M', 'o', 'u', 'n', 't'],
    ]
}

/// The name filters of the fields after the count: none when there are none or the one field
/// is `none`, the native names for `native`, else the fields themselves.
pub open spec fn name_filters_spec(rest: Seq<Seq<char>>) -> Option<Seq<Seq<char>>> {
    if rest.len() == 0 {
        None
    } else if rest.len() == 1 && rest[0] == none_word() {
        None
    } else if rest.len() == 1 && rest[0] == native_word() {
        Some(native_names())
    } else {
        Some(rest)
    }
}

/// What a filter `count[,name...]` reads as, trailing white space ignored.
pub open spec fn snap_filters_spec(values: Seq<char>) -> Result<(nat, Option<Seq<Seq<char>>>), SnapFilterError> {
    let pieces = split_on(trim_end_spec(values), ',');
    match parse_u64_spec(pieces[0]) {
        Some(n) => if n <= usize::MAX {
            Ok((n, name_filters_spec(pieces.skip(1))))
        } else {
            Err(SnapFilterError::InvalidMaxSnaps)
        },
        None => Err(SnapFilterError::InvalidMaxSnaps),
    }
}

pub open spec fn filters_view(f: ListSnapsFilters) -> (nat, Option<Seq<Seq<char>>>) {
    (
        f.omit_num_snaps as nat,
        match f.name_filters {
            Some(v) => Some(v@.map_values(|s: String| s@)),
            None => None,
        },
    )
}

impl ListSnapsFilters {
    /// Reads a snapshot filter `count[,name...]`.
    pub fn snap_filters(values: &str, select_mode: bool) -> (r: Result<ListSnapsFilters, SnapFilterError>)
        ensures
            r is Ok <==> snap_filters_spec(values@) is Ok,
            r is Ok ==> r->Ok_0.select_mode == select_mode && snap_filters_spec(values@) == Ok::<
                _,
                SnapFilterError,
            >(filters_view(r->Ok_0)),
            r is Err ==> r == Err::<ListSnapsFilters, _>(SnapFilterError::InvalidMaxSnaps),
    {
        let trimmed = trim_end_string(values);
        let pieces = split_fields(trimmed.as_str(), ',');
        let ghost pv = split_on(trim_end_spec(values@), ',');
        proof {
            lemma_split_nonempty(trimmed@, ',');
            assert(pieces@.map_values(|x: String| x@)[0] == pieces@[0]@);
        }
        let n = match parse_u64(pieces[0].as_str()) {
            None => return Err(SnapFilterError::InvalidMaxSnaps),
            Some(n) => n,
        };
        if n > usize::MAX as u64 {
            return Err(SnapFilterError::InvalidMaxSnaps);
        }
        let mut rest: Vec<String> = Vec::new();
        let mut i: usize = 1;
        while i < pieces.len()
            invariant
                1 <= i <= pieces@.len(),
                pv == pieces@.map_values(|x: String| x@),
                rest@.map_values(|x: String| x@) == pv.subrange(1, i as int),
            decreases pieces@.len() - i,
        {
            let c = copy_string(&pieces[i]);
            let ghost prev = rest@;
            rest.push(c);
            proof {
                lemma_view_push(prev, c);
                assert(pv.subrange(1, i + 1) =~= pv.subrange(1, i as int).push(c@));
            }
            i = i + 1;
        }
        proof {
            assert(pv.subrange(1, i as int) =~= pv.skip(1));
            reveal_strlit("none");
            reveal_strlit("native");
            reveal_strlit("ounceSnapFileMount");
            reveal_strlit("httmSnapFileMount");
            assert("none"@ =~= none_word());
            assert("native"@ =~= native_word());
        }
        let name_filters = if rest.len() == 0 {
            None
        } else if rest.len() == 1 && str_eq(rest[0].as_str(), "none") {
            None
        } else if rest.len() == 1 && str_eq(rest[0].as_str(), "native") {
            let a = String::from_str("ounceSnapFileMount");
            let b = String::from_str("httmSnapFileMount");
            let v = vec![a, b];
            proof {
                reveal_strlit("ounceSnapFileMount");
                reveal_strlit("httmSnapFileMount");
                assert(a@ =~= native_names()[0]);
                assert(b@ =~= native_names()[1]);
                assert(v@ == seq![a, b]);
                assert(v@.map_values(|s: String| s@) =~= native_names());
            }
            Some(v)
        } else {
            Some(rest)
        };
        Ok(ListSnapsFilters { select_mode, omit_num_snaps: n as usize, name_filters })
    }
}

/// Why an alias list could not be read.
#[derive(Debug, Clone, Copy, PartialEq, Eq, Structural)]
pub enum AliasError {
    /// A pair without a `:` between its local and remote directory.
    MissingSeparator,
}

/// The `(local, remote)` pairs of `LOCAL:REMOTE[,LOCAL:REMOTE...]`, each split at its first `:`.
pub open spec fn alias_pairs_spec(pieces: Seq<Seq<char>>) -> Option<Seq<(Seq<char>, Seq<char>)>>
    decreases pieces.len(),
{
    if pieces.len() == 0 {
        Some(Seq::empty())
    } else {
        match (alias_pairs_spec(pieces.drop_last()), crate::roll_forward::split_at(pieces.last(), ':')) {
            (Some(a), Some(b)) => Some(a.push(b)),
            _ => None,
        }
    }
}

pub open spec fn pairs_view(v: Seq<(String, String)>) -> Seq<(Seq<char>, Seq<char>)> {
    v.map_values(|p: (String, String)| string_pair_view(p))
}

pub open spec fn string_pair_view(p: (String, String)) -> (Seq<char>, Seq<char>) {
    (p.0@, p.1@)
}

/// The pieces of a list whose separators may also end it: one empty last piece is dropped.
pub open spec fn terminated(pieces: Seq<Seq<char>>) -> Seq<Seq<char>> {
    if pieces.len() > 0 && pieces.last().len() == 0 {
        pieces.drop_last()
    } else {
        pieces
    }
}

/// Reads a comma-separated list of `LOCAL:REMOTE` pairs; a trailing comma is allowed.
pub fn parse_alias_pairs(text: &str) -> (r: Result<Vec<(String, String)>, AliasError>)
    ensures
        r is Ok <==> alias_pairs_spec(terminated(split_on(text@, ','))) is Some,
        r is Ok ==> pairs_view(r->Ok_0@) == alias_pairs_spec(terminated(split_on(text@, ',')))->0,
        r is Err ==> r->Err_0 == AliasError::MissingSeparator,
{
    let pieces = split_fields(text, ',');
    let ghost all = split_on(text@, ',');
    let mut n = pieces.len();
    if n > 0 && pieces[n - 1].as_str().unicode_len() == 0 {
        n = n - 1;
    }
    let ghost pv = terminated(all);
    proof {
        assert(all == pieces@.map_values(|x: String| x@));
        assert(pv =~= all.take(n as int));
    }
    let mut out: Vec<(String, String)> = Vec::new();
    let mut i: usize = 0;
    proof {
        assert(pv.take(0) =~= Seq::<Seq<char>>::empty());
        assert(pairs_view(out@) =~= Seq::<(Seq<char>, Seq<char>)>::empty());
    }
    while i < n
        invariant
            i <= n,
            n <= pieces@.len(),
            pv == pieces@.map_values(|x: String| x@).take(n as int),
            pv == terminated(split_on(text@, ',')),
            alias_pairs_spec(pv.take(i as int)) == Some(pairs_view(out@)),
        decreases pieces@.len() - i,
    {
        proof {
            assert(pv.take(i + 1).drop_last() =~= pv.take(i as int));
            assert(pv.take(i + 1).last() == pieces@[i as int]@);
        }
        match crate::roll_forward::split_at_char(pieces[i].as_str(), ':') {
            None => {
                proof {
                    assert(crate::roll_forward::split_at(pv.take(i + 1).last(), ':') is None);
                    assert(alias_pairs_spec(pv.take(i + 1)) is None);
                    lemma_alias_none(pv, i as int + 1);
                }
                return Err(AliasError::MissingSeparator);
            },
            Some(pair) => {
                let ghost prev = out@;
                out.push(pair);
                proof {
                    assert(pairs_view(out@) =~= pairs_view(prev).push(string_pair_view(pair)));
                }
            },
        }
        i = i + 1;
    }
    proof {
        assert(pv.take(i as int) =~= pv);
    }
    Ok(out)
}

proof fn lemma_alias_none(pv: Seq<Seq<char>>, k: int)
    requires
        0 <= k <= pv.len(),
        alias_pairs_spec(pv.take(k)) is None,
    ensures
        alias_pairs_spec(pv) is None,
    decreases pv.len() - k,
{
    if k < pv.len() {
        assert(pv.take(k + 1).drop_last() =~= pv.take(k));
        lemma_alias_none(pv, k + 1);
    } else {
        assert(pv.take(k) =~= pv);
    }
}

} // verus!
