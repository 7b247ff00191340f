//! Resolving column names to positions in a header.
//!
//! A header is a sequence of names, not necessarily distinct. A name resolves
//! to the position of the first column that bears it.

use vstd::prelude::*;

verus! {

/// Whether `p` is the first position of `header` that holds `name`.
pub open spec fn is_first_match(header: Seq<Seq<char>>, name: Seq<char>, p: int) -> bool {
    &&& 0 <= p < header.len()
    &&& header[p] == name
    &&& forall|j: int| 0 <= j < p ==> header[j] != name
}

/// The position that `name` resolves to in `header`: that of the first column
/// of this name, `None` where there is no such column.
pub open spec fn position_of(header: Seq<Seq<char>>, name: Seq<char>) -> Option<int> {
    if exists|p: int| is_first_match(header, name, p) {
        Some(choose|p: int| is_first_match(header, name, p))
    } else {
        None
    }
}

/// A name resolves to the one position that `is_first_match` accepts.
pub proof fn lemma_position_of_first_match(header: Seq<Seq<char>>, name: Seq<char>, p: int)
    requires
        is_first_match(header, name, p),
    ensures
        position_of(header, name) == Some(p),
{
    let q = choose|q: int| is_first_match(header, name, q);
    if q < p {
        assert(header[q] != name);
    } else if p < q {
        assert(header[p] != name);
    }
}

/// A name that no column bears resolves to nothing.
pub proof fn lemma_position_of_absent(header: Seq<Seq<char>>, name: Seq<char>)
    requires
        forall|j: int| 0 <= j < header.len() ==> header[j] != name,
    ensures
        position_of(header, name).is_none(),
{
}

/// A name that some column bears has a first column that bears it.
proof fn lemma_first_match_exists(header: Seq<Seq<char>>, name: Seq<char>, i: int)
    requires
        0 <= i < header.len(),
        header[i] == name,
    ensures
        exists|p: int| is_first_match(header, name, p),
    decreases i,
{
    if exists|j: int| 0 <= j < i && header[j] == name {
        let j = choose|j: int| 0 <= j < i && header[j] == name;
        lemma_first_match_exists(header, name, j);
    } else {
        assert(is_first_match(header, name, i));
    }
}

/// A name that some column bears resolves to a position that holds it, the
/// first such position; any other name resolves to nothing.
pub proof fn lemma_position_of(header: Seq<Seq<char>>, name: Seq<char>)
    ensures
        header.contains(name) ==> position_of(header, name).is_some() && is_first_match(
            header,
            name,
            position_of(header, name).unwrap(),
        ),
        !header.contains(name) ==> position_of(header, name).is_none(),
{
    if header.contains(name) {
        let i = choose|i: int| 0 <= i < header.len() && header[i] == name;
        lemma_first_match_exists(header, name, i);
    } else {
        assert forall|p: int| !is_first_match(header, name, p) by {
            if is_first_match(header, name, p) {
                assert(header.contains(name));
            }
        }
    }
}

/// The names that a list of column names holds, as character sequences.
pub open spec fn names_of(columns: Seq<&str>) -> Seq<Seq<char>> {
    columns.map_values(|name: &str| name@)
}

/// The positions that `names` resolve to in `header`, in the order of the
/// names; `None` where any of them resolves to nothing.
pub open spec fn positions_of(header: Seq<Seq<char>>, names: Seq<Seq<char>>) -> Option<Seq<int>> {
    if forall|c: int| 0 <= c < names.len() ==> position_of(header, #[trigger] names[c]).is_some() {
        Some(Seq::new(names.len(), |c: int| position_of(header, names[c]).unwrap()))
    } else {
        None
    }
}

} // verus!
