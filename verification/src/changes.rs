//! What tagging leaves to be written: the rows that a store holds beyond what
//! it was read with.

use crate::laws::{
    latest_btime, lemma_add_preserves_wf, lemma_link_inodes, lemma_record_index,
    lemma_upsert_inodes, lemma_upsert_tags,
};
use crate::model::{
    has_record, record_index, records_wf, same_object, taggable, StoreModel,
};
use crate::rows::{holds_nul, id_of, StoreError, MAX_TEXT};
use crate::store::TagStore;
use crate::INode;
use vstd::prelude::*;
use vstd::utf8::encode_utf8;

verus! {

/// How much a store held at some moment: the numbers of its tags, records
/// and associations.
#[derive(Debug, Clone, Copy)]
pub struct Marks {
    pub tags: usize,
    pub inodes: usize,
    pub relations: usize,
}

/// Marks as mathematical integers.
pub struct MarksModel {
    pub tags: int,
    pub inodes: int,
    pub relations: int,
}

impl View for Marks {
    type V = MarksModel;

    open spec fn view(&self) -> MarksModel {
        MarksModel {
            tags: self.tags as int,
            inodes: self.inodes as int,
            relations: self.relations as int,
        }
    }
}

impl StoreModel {
    /// How much the store holds.
    pub open spec fn marks(self) -> MarksModel {
        MarksModel {
            tags: self.tags.len() as int,
            inodes: self.inodes.len() as int,
            relations: self.relations.len() as int,
        }
    }
}

/// The marks of the store as it is.
pub fn marks_of(store: &TagStore) -> (m: Marks)
    ensures
        m@ == store@.marks(),
{
    Marks {
        tags: store.tag_count(),
        inodes: store.inode_count(),
        relations: store.relation_count(),
    }
}

/// One row to write. The id of a row is one more than the place in the store
/// of what the row holds.
#[derive(Debug)]
pub enum Write {
    /// A new tag.
    Tag { id: i64, name: String },
    /// A new identity record.
    Identity { id: i64, inode: INode },
    /// The birth time that the record with this id has now.
    BirthTime { id: i64, btime: Option<u64> },
    /// A new association between the tag and the record with these ids.
    Association { tag_id: i64, identity_id: i64 },
}

/// A row to write, with its text as a sequence of characters.
pub enum WriteModel {
    Tag { id: int, name: Seq<char> },
    Identity { id: int, inode: INode },
    BirthTime { id: int, btime: Option<u64> },
    Association { tag_id: int, identity_id: int },
}

impl View for Write {
    type V = WriteModel;

    open spec fn view(&self) -> WriteModel {
        match self {
            Write::Tag { id, name } => WriteModel::Tag { id: *id as int, name: name@ },
            Write::Identity { id, inode } => WriteModel::Identity { id: *id as int, inode: *inode },
            Write::BirthTime { id, btime } => WriteModel::BirthTime {
                id: *id as int,
                btime: *btime,
            },
            Write::Association { tag_id, identity_id } => WriteModel::Association {
                tag_id: *tag_id as int,
                identity_id: *identity_id as int,
            },
        }
    }
}

/// The rows of a plan.
pub open spec fn plan_of(v: Seq<Write>) -> Seq<WriteModel> {
    Seq::new(v.len(), |i: int| v[i]@)
}

/// A row for each tag from the place `from` up to the place `to`, in order.
pub open spec fn tag_writes(s: StoreModel, from: int, to: int) -> Seq<WriteModel>
    decreases to - from,
{
    if to <= from {
        Seq::empty()
    } else {
        tag_writes(s, from, to - 1).push(WriteModel::Tag { id: to, name: s.tags[to - 1] })
    }
}

/// A row for each record from the place `from` up to the place `to`, in
/// order.
pub open spec fn inode_writes(s: StoreModel, from: int, to: int) -> Seq<WriteModel>
    decreases to - from,
{
    if to <= from {
        Seq::empty()
    } else {
        inode_writes(s, from, to - 1).push(WriteModel::Identity { id: to, inode: s.inodes[to - 1] })
    }
}

/// A row for each association from the place `from` up to the place `to`, in
/// order.
pub open spec fn relation_writes(s: StoreModel, from: int, to: int) -> Seq<WriteModel>
    decreases to - from,
{
    if to <= from {
        Seq::empty()
    } else {
        relation_writes(s, from, to - 1).push(
            WriteModel::Association {
                tag_id: s.relations[to - 1].0 + 1,
                identity_id: s.relations[to - 1].1 + 1,
            },
        )
    }
}

/// For each of `touched` that brings a birth time for a record below the
/// place `below`, the birth time that the record has now; in the order of
/// `touched`.
pub open spec fn birth_writes(s: StoreModel, below: int, touched: Seq<INode>) -> Seq<WriteModel>
    decreases touched.len(),
{
    if touched.len() == 0 {
        Seq::empty()
    } else {
        let before = birth_writes(s, below, touched.drop_last());
        let x = touched.last();
        if x.btime is Some && has_record(s.inodes, x) && record_index(s.inodes, x) < below {
            before.push(
                WriteModel::BirthTime {
                    id: record_index(s.inodes, x) + 1,
                    btime: s.inodes[record_index(s.inodes, x)].btime,
                },
            )
        } else {
            before
        }
    }
}

/// What is to be written after tagging `touched`, for a store that held
/// `marks` before: the new tags, the new records, the birth times of the
/// records that were there and for which one was brought, and the new
/// associations.
pub open spec fn writes_of(s: StoreModel, marks: MarksModel, touched: Seq<INode>) -> Seq<
    WriteModel,
> {
    tag_writes(s, marks.tags, s.tags.len() as int) + inode_writes(
        s,
        marks.inodes,
        s.inodes.len() as int,
    ) + birth_writes(s, marks.inodes, touched) + relation_writes(
        s,
        marks.relations,
        s.relations.len() as int,
    )
}

/// Whether the database can keep the name: the name holds no NUL character,
/// at which the database would cut it off, and has no more bytes than a text
/// handed to the database may have.
pub open spec fn keepable(name: Seq<char>) -> bool {
    !encode_utf8(name).contains(0u8) && encode_utf8(name).len() <= MAX_TEXT
}

/// Whether the row can be handed to the database: the text in it, if it has
/// one, has no more bytes than such a text may have.
pub open spec fn bindable(w: WriteModel) -> bool {
    w matches WriteModel::Tag { name, .. } ==> encode_utf8(name).len() <= MAX_TEXT
}

/// Whether every row can be handed to the database.
pub open spec fn all_bindable(rows: Seq<WriteModel>) -> bool {
    forall|i: int| 0 <= i < rows.len() ==> bindable(#[trigger] rows[i])
}

/// Whether the database can keep what the store holds beyond `marks`: every
/// row has an id, and every new tag name is one that the database can keep.
pub open spec fn can_store(s: StoreModel, marks: MarksModel) -> bool {
    &&& s.tags.len() < i64::MAX
    &&& s.inodes.len() < i64::MAX
    &&& forall|i: int| marks.tags <= i < s.tags.len() ==> keepable(#[trigger] s.tags[i])
}

/// The rows to write after tagging `touched`, for a store that held `marks`
/// before, each of them fit to be handed to the database; `Unstorable` where
/// the database cannot keep them.
pub fn changes(store: &TagStore, marks: Marks, touched: &[INode]) -> (r: Result<
    Vec<Write>,
    StoreError,
>)
    requires
        store.wf(),
    ensures
        match r {
            Ok(plan) => can_store(store@, marks@) && plan_of(plan@) == writes_of(
                store@,
                marks@,
                touched@,
            ) && all_bindable(plan_of(plan@)),
            Err(e) => e is Unstorable && !can_store(store@, marks@),
        },
{
    let ghost s = store@;
    if id_of(store.tag_count()).is_none() || id_of(store.inode_count()).is_none() {
        return Err(StoreError::Unstorable);
    }
    let mut plan: Vec<Write> = Vec::new();

    let mut i: usize = marks.tags;
    while i < store.tag_count()
        invariant
            s == store@,
            store.wf(),
            s.tags.len() < i64::MAX,
            marks.tags <= i,
            i == marks.tags || i <= s.tags.len(),
            plan_of(plan@) == tag_writes(s, marks.tags as int, i as int),
            all_bindable(plan_of(plan@)),
            forall|j: int|
                marks.tags <= j < i && j < s.tags.len() ==> keepable(#[trigger] s.tags[j]),
        decreases s.tags.len() - i,
    {
        let name = store.tag_name(i);
        if holds_nul(name) || name.as_bytes().len() > MAX_TEXT {
            assert(!keepable(s.tags[i as int]));
            return Err(StoreError::Unstorable);
        }
        assert(keepable(s.tags[i as int]));
        let ghost before = plan_of(plan@);
        match id_of(i) {
            Some(id) => plan.push(Write::Tag { id, name: name.to_owned() }),
            None => {
                return Err(StoreError::Unstorable);
            },
        }
        assert(plan_of(plan@) =~= before.push(
            WriteModel::Tag { id: i + 1, name: s.tags[i as int] },
        ));
        i += 1;
    }
    let ghost tags = plan_of(plan@);

    let mut i: usize = marks.inodes;
    while i < store.inode_count()
        invariant
            s == store@,
            store.wf(),
            s.inodes.len() < i64::MAX,
            marks.inodes <= i,
            i == marks.inodes || i <= s.inodes.len(),
            plan_of(plan@) == tags + inode_writes(s, marks.inodes as int, i as int),
            all_bindable(plan_of(plan@)),
        decreases s.inodes.len() - i,
    {
        let ghost before = plan_of(plan@);
        match id_of(i) {
            Some(id) => plan.push(Write::Identity { id, inode: store.inode_at(i) }),
            None => {
                return Err(StoreError::Unstorable);
            },
        }
        assert(plan_of(plan@) =~= before.push(
            WriteModel::Identity { id: i + 1, inode: s.inodes[i as int] },
        ));
        i += 1;
    }
    let ghost records = plan_of(plan@);

    let mut j: usize = 0;
    while j < touched.len()
        invariant
            s == store@,
            store.wf(),
            s.inodes.len() < i64::MAX,
            j <= touched.len(),
            plan_of(plan@) == records + birth_writes(
                s,
                marks.inodes as int,
                touched@.take(j as int),
            ),
            all_bindable(plan_of(plan@)),
        decreases touched.len() - j,
    {
        let x = touched[j];
        let ghost before = plan_of(plan@);
        assert(touched@.take(j + 1).drop_last() =~= touched@.take(j as int));
        if x.btime.is_some() {
            if let Some(place) = store.find_record(&x) {
                proof {
                    lemma_record_index(s.inodes, x, place as int);
                }
                if place < marks.inodes {
                    match id_of(place) {
                        Some(id) => plan.push(
                            Write::BirthTime { id, btime: store.inode_at(place).btime },
                        ),
                        None => {
                            return Err(StoreError::Unstorable);
                        },
                    }
                    assert(plan_of(plan@) =~= before.push(
                        WriteModel::BirthTime {
                            id: place + 1,
                            btime: s.inodes[place as int].btime,
                        },
                    ));
                }
            }
        }
        j += 1;
    }
    assert(touched@.take(touched.len() as int) =~= touched@);
    let ghost births = plan_of(plan@);

    let mut k: usize = marks.relations;
    while k < store.relation_count()
        invariant
            s == store@,
            store.wf(),
            s.tags.len() < i64::MAX,
            s.inodes.len() < i64::MAX,
            marks.relations <= k,
            k == marks.relations || k <= s.relations.len(),
            plan_of(plan@) == births + relation_writes(s, marks.relations as int, k as int),
            all_bindable(plan_of(plan@)),
        decreases s.relations.len() - k,
    {
        let pair = store.relation_at(k);
        let ghost before = plan_of(plan@);
        match (id_of(pair.0), id_of(pair.1)) {
            (Some(tag_id), Some(identity_id)) => plan.push(
                Write::Association { tag_id, identity_id },
            ),
            _ => {
                return Err(StoreError::Unstorable);
            },
        }
        assert(plan_of(plan@) =~= before.push(
            WriteModel::Association { tag_id: pair.0 + 1, identity_id: pair.1 + 1 },
        ));
        k += 1;
    }
    Ok(plan)
}

/// The store after a row was written. A new tag or record takes the next
/// place, and is refused where its id names another; a birth time goes to the
/// record that the id names; an association is added at the end.
pub open spec fn written(s: StoreModel, w: WriteModel) -> StoreModel {
    match w {
        WriteModel::Tag { id, name } => if id == s.tags.len() + 1 {
            StoreModel { tags: s.tags.push(name), ..s }
        } else {
            s
        },
        WriteModel::Identity { id, inode } => if id == s.inodes.len() + 1 {
            StoreModel { inodes: s.inodes.push(inode), ..s }
        } else {
            s
        },
        WriteModel::BirthTime { id, btime } => if 1 <= id <= s.inodes.len() {
            StoreModel { inodes: s.inodes.update(id - 1, INode { btime, ..s.inodes[id - 1] }), ..s }
        } else {
            s
        },
        WriteModel::Association { tag_id, identity_id } => StoreModel {
            relations: s.relations.push((tag_id - 1, identity_id - 1)),
            ..s
        },
    }
}

/// The store after the rows were written, in their order.
pub open spec fn written_all(s: StoreModel, rows: Seq<WriteModel>) -> StoreModel
    decreases rows.len(),
{
    if rows.len() == 0 {
        s
    } else {
        written(written_all(s, rows.drop_last()), rows.last())
    }
}

/// Whether one of `touched` brings a birth time for the object `x`.
pub open spec fn brought(touched: Seq<INode>, x: INode) -> bool {
    exists|j: int|
        0 <= j < touched.len() && same_object(#[trigger] touched[j], x) && touched[j].btime is Some
}

/// To write rows and then more rows is to write them all.
pub proof fn lemma_written_all_concat(s: StoreModel, a: Seq<WriteModel>, b: Seq<WriteModel>)
    ensures
        written_all(s, a + b) == written_all(written_all(s, a), b),
    decreases b.len(),
{
    if b.len() > 0 {
        assert((a + b).drop_last() =~= a + b.drop_last());
        lemma_written_all_concat(s, a, b.drop_last());
    }
}

/// Writing the new tags of `t` to a store that has the tags before them
/// gives the store the tags of `t`.
pub proof fn lemma_tags_written(s: StoreModel, t: StoreModel, from: int, to: int)
    requires
        0 <= from <= to <= t.tags.len(),
        s.tags == t.tags.take(from),
    ensures
        written_all(s, tag_writes(t, from, to)) == (StoreModel { tags: t.tags.take(to), ..s }),
    decreases to - from,
{
    if to > from {
        let rows = tag_writes(t, from, to);
        lemma_tags_written(s, t, from, to - 1);
        assert(rows.drop_last() =~= tag_writes(t, from, to - 1));
        assert(t.tags.take(to - 1).push(t.tags[to - 1]) =~= t.tags.take(to));
    }
}

/// Writing the new records of `t` to a store with as many records as `t`
/// had before adds them at the end.
pub proof fn lemma_inodes_written(s: StoreModel, t: StoreModel, from: int, to: int)
    requires
        0 <= from <= to <= t.inodes.len(),
        s.inodes.len() == from,
    ensures
        written_all(s, inode_writes(t, from, to)) == (StoreModel {
            inodes: s.inodes + t.inodes.subrange(from, to),
            ..s
        }),
    decreases to - from,
{
    if to > from {
        let rows = inode_writes(t, from, to);
        lemma_inodes_written(s, t, from, to - 1);
        assert(rows.drop_last() =~= inode_writes(t, from, to - 1));
        assert((s.inodes + t.inodes.subrange(from, to - 1)).push(t.inodes[to - 1]) =~= s.inodes
            + t.inodes.subrange(from, to));
    }
}

/// Writing the new associations of `t` to a store that has the associations
/// before them gives the store the associations of `t`.
pub proof fn lemma_relations_written(s: StoreModel, t: StoreModel, from: int, to: int)
    requires
        0 <= from <= to <= t.relations.len(),
        s.relations == t.relations.take(from),
    ensures
        written_all(s, relation_writes(t, from, to)) == (StoreModel {
            relations: t.relations.take(to),
            ..s
        }),
    decreases to - from,
{
    if to > from {
        let rows = relation_writes(t, from, to);
        lemma_relations_written(s, t, from, to - 1);
        assert(rows.drop_last() =~= relation_writes(t, from, to - 1));
        assert(t.relations.take(to - 1).push(t.relations[to - 1]) =~= t.relations.take(to));
    }
}

/// Writing the birth times of `t` to a store with records of the same
/// objects gives each record below `below` for which a birth time was
/// brought the birth time that it has in `t`, and leaves the others.
pub proof fn lemma_births_written(s: StoreModel, t: StoreModel, below: int, touched: Seq<INode>)
    requires
        records_wf(t.inodes),
        s.inodes.len() == t.inodes.len(),
        0 <= below <= t.inodes.len(),
        forall|r: int|
            0 <= r < s.inodes.len() ==> same_object(#[trigger] s.inodes[r], t.inodes[r]),
    ensures
        written_all(s, birth_writes(t, below, touched)).tags == s.tags,
        written_all(s, birth_writes(t, below, touched)).relations == s.relations,
        written_all(s, birth_writes(t, below, touched)).inodes.len() == s.inodes.len(),
        forall|r: int|
            0 <= r < s.inodes.len() ==> #[trigger] written_all(
                s,
                birth_writes(t, below, touched),
            ).inodes[r] == (if r < below && brought(touched, t.inodes[r]) {
                t.inodes[r]
            } else {
                s.inodes[r]
            }),
    decreases touched.len(),
{
    if touched.len() > 0 {
        let rest = touched.drop_last();
        let x = touched.last();
        let after = written_all(s, birth_writes(t, below, touched));
        lemma_births_written(s, t, below, rest);
        assert forall|j: int| 0 <= j < rest.len() implies rest[j] == touched[j] by {}
        let writes = x.btime is Some && has_record(t.inodes, x) && record_index(t.inodes, x)
            < below;
        if writes {
            assert(birth_writes(t, below, touched).drop_last() =~= birth_writes(t, below, rest));
        }
        assert forall|r: int| 0 <= r < s.inodes.len() implies #[trigger] after.inodes[r] == (if r
            < below && brought(touched, t.inodes[r]) {
            t.inodes[r]
        } else {
            s.inodes[r]
        }) by {
            let here = x.btime is Some && same_object(x, t.inodes[r]);
            if here {
                lemma_record_index(t.inodes, x, r);
            }
        }
    }
}

/// Where a birth time is the last brought for an object, one was brought.
pub proof fn lemma_latest_btime_brought(ids: Seq<INode>, x: INode)
    requires
        latest_btime(ids, x) is Some,
    ensures
        brought(ids, x),
    decreases ids.len(),
{
    if ids.len() > 0 {
        if !(same_object(ids.last(), x) && ids.last().btime is Some) {
            lemma_latest_btime_brought(ids.drop_last(), x);
        }
    }
}

/// What is written after tagging is all that tagging did: the rows that a
/// store held, with the rows written for the tagged store, are the tagged
/// store.
pub proof fn lemma_changes_complete(s: StoreModel, ids: Seq<INode>, names: Seq<Seq<char>>)
    requires
        s.wf(),
    ensures
        written_all(s, writes_of(s.after_add(ids, names), s.marks(), ids)) == s.after_add(
            ids,
            names,
        ),
{
    let t = s.after_add(ids, names);
    let m = s.marks();
    let tags = tag_writes(t, m.tags, t.tags.len() as int);
    let inodes = inode_writes(t, m.inodes, t.inodes.len() as int);
    let births = birth_writes(t, m.inodes, ids);
    let relations = relation_writes(t, m.relations, t.relations.len() as int);
    lemma_add_preserves_wf(s, ids, names);
    if taggable(ids, names) {
        lemma_upsert_tags(s.tags, names);
        lemma_upsert_inodes(s.inodes, ids);
        lemma_link_inodes(s.relations, t.tags, t.inodes, ids, names);
    }
    assert(s.tags =~= t.tags.take(m.tags));
    assert(s.relations =~= t.relations.take(m.relations));
    assert(t.tags.take(t.tags.len() as int) =~= t.tags);
    assert(t.relations.take(t.relations.len() as int) =~= t.relations);

    let a = written_all(s, tags);
    lemma_tags_written(s, t, m.tags, t.tags.len() as int);
    let b = written_all(a, inodes);
    lemma_inodes_written(a, t, m.inodes, t.inodes.len() as int);
    let c = written_all(b, births);
    lemma_births_written(b, t, m.inodes, ids);
    assert forall|r: int| 0 <= r < t.inodes.len() implies c.inodes[r] == t.inodes[r] by {
        if r < m.inodes && !brought(ids, t.inodes[r]) {
            if taggable(ids, names) {
                if latest_btime(ids, t.inodes[r]) is Some {
                    lemma_latest_btime_brought(ids, t.inodes[r]);
                }
            }
        }
    }
    assert(c.inodes =~= t.inodes);
    lemma_relations_written(c, t, m.relations, t.relations.len() as int);
    lemma_written_all_concat(s, tags, inodes);
    lemma_written_all_concat(s, tags + inodes, births);
    lemma_written_all_concat(s, tags + inodes + births, relations);
}

} // verus!
