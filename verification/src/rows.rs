//! The rows of the three tables of a stored tag store, and the store that
//! they make.
//!
//! A row's id is its place in the store, counted from one. Device, inode
//! number and birth time are kept as the signed integers with the same 64
//! bits.

use crate::model::StoreModel;
use crate::store::{pairs_of, TagStore};
use crate::text::names_of;
use crate::INode;
use vstd::prelude::*;

verus! {

/// Why an operation on the stored tags failed.
#[derive(Debug)]
pub enum StoreError {
    /// The database refused an operation; code and message are SQLite's.
    Database { code: Option<isize>, message: Option<String> },
    /// What the database holds is not a tag store.
    Corrupt,
    /// The store holds what the database cannot keep: a tag name with a NUL
    /// character in it or of more than `MAX_TEXT` bytes, or more rows than
    /// there are ids.
    Unstorable,
    /// The call would associate nothing: none of its names is a name, or
    /// none of its identities can have a record.
    Rejected,
}

/// The most bytes that a text handed to the database may have: the length
/// goes to SQLite as a C `int`.
pub const MAX_TEXT: usize = 0x7fff_ffff;

/// A value read from a column of a row.
#[derive(Debug)]
pub enum Cell {
    Null,
    Integer(i64),
    Text(String),
    Blob(Vec<u8>),
    /// A floating-point number, which no column of a tag store holds.
    Real,
}

/// The integer under which the database keeps `x`: the one with the same 64
/// bits.
pub open spec fn stored(x: u64) -> i64 {
    x as i64
}

/// Computes the integer under which the database keeps `x`; from it
/// [`from_stored`] gives `x` back.
pub fn to_stored(x: u64) -> (v: i64)
    ensures
        v == stored(x),
        v as u64 == x,
{
    let v = #[verifier::truncate]
    (x as i64);
    assert((x as i64) as u64 == x) by (bit_vector);
    v
}

/// The number that the database keeps under `v`: the one with the same 64
/// bits.
pub fn from_stored(v: i64) -> (x: u64)
    ensures
        x == v as u64,
        x as i64 == v,
{
    let x = #[verifier::truncate]
    (v as u64);
    assert((v as u64) as i64 == v) by (bit_vector);
    x
}

/// The id of the row for what stands at `place` in the store: one more than
/// the place.
pub fn id_of(place: usize) -> (r: Option<i64>)
    ensures
        match r {
            Some(id) => id == place + 1,
            None => place + 1 > i64::MAX,
        },
{
    if place as u64 >= 0x7fff_ffff_ffff_ffffu64 {
        None
    } else {
        Some((place as u64 + 1) as i64)
    }
}

/// The place in the store of what the row with `id` holds, where the id is
/// one that a row of a store can have.
pub fn place_of(id: i64) -> (r: Option<usize>)
    ensures
        match r {
            Some(place) => place + 1 == id,
            None => id < 1 || id - 1 > usize::MAX,
        },
{
    if id < 1 || (id - 1) as u64 > usize::MAX as u64 {
        None
    } else {
        Some((id - 1) as usize)
    }
}

/// The tag name that a row of `tags` holds, where the row is the one for
/// `place`: its id and a text.
pub open spec fn tag_of_row(row: Seq<Cell>, place: int) -> Option<Seq<char>> {
    if row.len() == 2 {
        match (row[0], row[1]) {
            (Cell::Integer(id), Cell::Text(name)) => if id == place + 1 {
                Some(name@)
            } else {
                None
            },
            _ => None,
        }
    } else {
        None
    }
}

/// The birth time that a column holds: none, or an integer.
pub open spec fn btime_of_cell(cell: Cell) -> Option<Option<u64>> {
    match cell {
        Cell::Null => Some(None),
        Cell::Integer(b) => Some(Some(b as u64)),
        _ => None,
    }
}

/// The identity that a row of `identities` holds, where the row is the one
/// for `place`: its id, device, inode number and birth time.
pub open spec fn inode_of_row(row: Seq<Cell>, place: int) -> Option<INode> {
    if row.len() == 4 {
        match (row[0], row[1], row[2], btime_of_cell(row[3])) {
            (Cell::Integer(id), Cell::Integer(device), Cell::Integer(number), Some(btime)) => if id
                == place + 1 {
                Some(INode { device: device as u64, number: number as u64, btime })
            } else {
                None
            },
            _ => None,
        }
    } else {
        None
    }
}

/// The association that a row of `associations` holds: the places of the tag
/// and of the record whose ids it names.
pub open spec fn relation_of_row(row: Seq<Cell>) -> Option<(int, int)> {
    if row.len() == 2 {
        match (row[0], row[1]) {
            (Cell::Integer(tag), Cell::Integer(record)) => if 1 <= tag && tag - 1 <= usize::MAX
                && 1 <= record && record - 1 <= usize::MAX {
                Some((tag - 1, record - 1))
            } else {
                None
            },
            _ => None,
        }
    } else {
        None
    }
}

/// The tag names in the rows of `tags`, taken in the order of their ids;
/// none where a row is not the one for its place.
pub fn decode_tags(rows: &Vec<Vec<Cell>>) -> (r: Option<Vec<String>>)
    ensures
        match r {
            Some(v) => v@.len() == rows@.len() && forall|i: int|
                0 <= i < rows@.len() ==> tag_of_row(#[trigger] rows@[i]@, i) == Some(v@[i]@),
            None => exists|i: int|
                0 <= i < rows@.len() && tag_of_row(#[trigger] rows@[i]@, i) is None,
        },
{
    let mut out: Vec<String> = Vec::new();
    let mut i: usize = 0;
    while i < rows.len()
        invariant
            i <= rows.len(),
            out@.len() == i,
            forall|j: int| 0 <= j < i ==> tag_of_row(#[trigger] rows@[j]@, j) == Some(out@[j]@),
        decreases rows.len() - i,
    {
        let row = &rows[i];
        if row.len() != 2 {
            return None;
        }
        match (&row[0], &row[1]) {
            (Cell::Integer(id), Cell::Text(name)) => {
                match id_of(i) {
                    Some(expected) if expected == *id => {
                        out.push(name.clone());
                    },
                    _ => {
                        return None;
                    },
                }
            },
            _ => {
                return None;
            },
        }
        i += 1;
    }
    Some(out)
}

/// The identities in the rows of `identities`, taken in the order of their
/// ids; none where a row is not the one for its place.
pub fn decode_inodes(rows: &Vec<Vec<Cell>>) -> (r: Option<Vec<INode>>)
    ensures
        match r {
            Some(v) => v@.len() == rows@.len() && forall|i: int|
                0 <= i < rows@.len() ==> inode_of_row(#[trigger] rows@[i]@, i) == Some(v@[i]),
            None => exists|i: int|
                0 <= i < rows@.len() && inode_of_row(#[trigger] rows@[i]@, i) is None,
        },
{
    let mut out: Vec<INode> = Vec::new();
    let mut i: usize = 0;
    while i < rows.len()
        invariant
            i <= rows.len(),
            out@.len() == i,
            forall|j: int| 0 <= j < i ==> inode_of_row(#[trigger] rows@[j]@, j) == Some(out@[j]),
        decreases rows.len() - i,
    {
        let row = &rows[i];
        if row.len() != 4 {
            return None;
        }
        let btime = match &row[3] {
            Cell::Null => None,
            Cell::Integer(b) => Some(from_stored(*b)),
            _ => {
                return None;
            },
        };
        match (&row[0], &row[1], &row[2]) {
            (Cell::Integer(id), Cell::Integer(device), Cell::Integer(number)) => {
                match id_of(i) {
                    Some(expected) if expected == *id => {
                        out.push(
                            INode {
                                device: from_stored(*device),
                                number: from_stored(*number),
                                btime,
                            },
                        );
                    },
                    _ => {
                        return None;
                    },
                }
            },
            _ => {
                return None;
            },
        }
        i += 1;
    }
    Some(out)
}

/// The associations in the rows of `associations`, in the order of the rows;
/// none where a row does not name two ids.
pub fn decode_relations(rows: &Vec<Vec<Cell>>) -> (r: Option<Vec<(usize, usize)>>)
    ensures
        match r {
            Some(v) => v@.len() == rows@.len() && forall|i: int|
                0 <= i < rows@.len() ==> relation_of_row(#[trigger] rows@[i]@) == Some(
                    (v@[i].0 as int, v@[i].1 as int),
                ),
            None => exists|i: int|
                0 <= i < rows@.len() && relation_of_row(#[trigger] rows@[i]@) is None,
        },
{
    let mut out: Vec<(usize, usize)> = Vec::new();
    let mut i: usize = 0;
    while i < rows.len()
        invariant
            i <= rows.len(),
            out@.len() == i,
            forall|j: int|
                0 <= j < i ==> relation_of_row(#[trigger] rows@[j]@) == Some(
                    (out@[j].0 as int, out@[j].1 as int),
                ),
        decreases rows.len() - i,
    {
        let row = &rows[i];
        if row.len() != 2 {
            return None;
        }
        match (&row[0], &row[1]) {
            (Cell::Integer(tag), Cell::Integer(record)) => {
                match (place_of(*tag), place_of(*record)) {
                    (Some(t), Some(r)) => {
                        out.push((t, r));
                    },
                    _ => {
                        return None;
                    },
                }
            },
            _ => {
                return None;
            },
        }
        i += 1;
    }
    Some(out)
}

/// Whether every row of `tags` is the one for its place.
pub open spec fn are_tag_rows(rows: Seq<Vec<Cell>>) -> bool {
    forall|i: int| 0 <= i < rows.len() ==> tag_of_row(#[trigger] rows[i]@, i) is Some
}

/// Whether every row of `identities` is the one for its place.
pub open spec fn are_inode_rows(rows: Seq<Vec<Cell>>) -> bool {
    forall|i: int| 0 <= i < rows.len() ==> inode_of_row(#[trigger] rows[i]@, i) is Some
}

/// Whether every row of `associations` names two ids.
pub open spec fn are_relation_rows(rows: Seq<Vec<Cell>>) -> bool {
    forall|i: int| 0 <= i < rows.len() ==> relation_of_row(#[trigger] rows[i]@) is Some
}

/// What the rows of the three tables hold, each table's rows in the order of
/// their ids, where every row is what its table holds.
pub open spec fn view_of_rows(
    tags: Seq<Vec<Cell>>,
    inodes: Seq<Vec<Cell>>,
    relations: Seq<Vec<Cell>>,
) -> StoreModel {
    StoreModel {
        tags: Seq::new(tags.len(), |i: int| tag_of_row(tags[i]@, i).unwrap()),
        inodes: Seq::new(inodes.len(), |i: int| inode_of_row(inodes[i]@, i).unwrap()),
        relations: Seq::new(relations.len(), |i: int| relation_of_row(relations[i]@).unwrap()),
    }
}

/// Whether the rows of the three tables make a store: every row is what its
/// table holds, and together they keep the invariants of the data model.
pub open spec fn make_store(
    tags: Seq<Vec<Cell>>,
    inodes: Seq<Vec<Cell>>,
    relations: Seq<Vec<Cell>>,
) -> bool {
    &&& are_tag_rows(tags)
    &&& are_inode_rows(inodes)
    &&& are_relation_rows(relations)
    &&& view_of_rows(tags, inodes, relations).wf()
}

/// The store that the rows of the three tables make, each table's rows in
/// the order of their ids; `Corrupt` where they make none.
pub fn assemble(tags: &Vec<Vec<Cell>>, inodes: &Vec<Vec<Cell>>, relations: &Vec<Vec<Cell>>) -> (r:
    Result<TagStore, StoreError>)
    ensures
        match r {
            Ok(s) => make_store(tags@, inodes@, relations@) && s.wf() && s@ == view_of_rows(
                tags@,
                inodes@,
                relations@,
            ),
            Err(e) => e is Corrupt && !make_store(tags@, inodes@, relations@),
        },
{
    let names = match decode_tags(tags) {
        Some(v) => v,
        None => {
            return Err(StoreError::Corrupt);
        },
    };
    let records = match decode_inodes(inodes) {
        Some(v) => v,
        None => {
            return Err(StoreError::Corrupt);
        },
    };
    let pairs = match decode_relations(relations) {
        Some(v) => v,
        None => {
            return Err(StoreError::Corrupt);
        },
    };
    proof {
        let v = view_of_rows(tags@, inodes@, relations@);
        assert(v.tags =~= names_of(names@));
        assert(v.inodes =~= records@);
        assert(v.relations =~= pairs_of(pairs@));
    }
    match TagStore::restore(names, records, pairs) {
        Some(s) => Ok(s),
        None => Err(StoreError::Corrupt),
    }
}

/// Whether the text holds a NUL character. The database hands such a text
/// back cut off at that character.
pub fn holds_nul(text: &str) -> (r: bool)
    ensures
        r == vstd::utf8::encode_utf8(text@).contains(0u8),
{
    let b = text.as_bytes();
    let mut i: usize = 0;
    while i < b.len()
        invariant
            i <= b.len(),
            b@ == vstd::utf8::encode_utf8(text@),
            forall|j: int| 0 <= j < i ==> b@[j] != 0,
        decreases b.len() - i,
    {
        if b[i] == 0 {
            return true;
        }
        i += 1;
    }
    false
}

} // verus!
