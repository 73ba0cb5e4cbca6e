//! The relational model of the tag store: tags, identity records and the
//! associations between them, as mathematical sequences, and what each
//! operation of the engine means on them.

use crate::INode;
use vstd::prelude::*;

verus! {

/// Two identities name the same object when device and inode number agree;
/// the birth time plays no part.
pub open spec fn same_object(a: INode, b: INode) -> bool {
    a.device == b.device && a.number == b.number
}

/// Only an identity whose device and inode number are both non-zero can
/// have a record.
pub open spec fn storable(a: INode) -> bool {
    a.device != 0 && a.number != 0
}

/// Whether `records` holds a record of the object `x`.
pub open spec fn has_record(records: Seq<INode>, x: INode) -> bool {
    exists|i: int| 0 <= i < records.len() && same_object(#[trigger] records[i], x)
}

/// The place of the record of the object `x`, where there is one.
pub open spec fn record_index(records: Seq<INode>, x: INode) -> int {
    choose|i: int| 0 <= i < records.len() && same_object(#[trigger] records[i], x)
}

/// No two records are of the same object, and each is storable.
pub open spec fn records_wf(records: Seq<INode>) -> bool {
    &&& forall|i: int| 0 <= i < records.len() ==> storable(#[trigger] records[i])
    &&& forall|i: int, j: int|
        0 <= i < j < records.len() ==> !same_object(#[trigger] records[i], #[trigger] records[j])
}

/// No name is empty and none occurs twice.
pub open spec fn tags_wf(tags: Seq<Seq<char>>) -> bool {
    &&& forall|i: int| 0 <= i < tags.len() ==> (#[trigger] tags[i]).len() > 0
    &&& tags.no_duplicates()
}

/// Every association joins a tag of `tags` to a record of `records`, and none
/// occurs twice.
pub open spec fn relations_wf(relations: Seq<(int, int)>, tags: int, records: int) -> bool {
    &&& relations.no_duplicates()
    &&& forall|k: int|
        0 <= k < relations.len() ==> 0 <= (#[trigger] relations[k]).0 < tags && 0
            <= relations[k].1 < records
}

/// A tag that is not there yet is created at the end; an empty name is passed
/// over.
pub open spec fn upsert_tag(tags: Seq<Seq<char>>, name: Seq<char>) -> Seq<Seq<char>> {
    if name.len() == 0 || tags.contains(name) {
        tags
    } else {
        tags.push(name)
    }
}

/// An identity without a record gets one, birth time included. For one that
/// has a record, a birth time that the identity brings replaces the stored
/// one; an identity that is not storable is passed over.
pub open spec fn upsert_inode(records: Seq<INode>, x: INode) -> Seq<INode> {
    if !storable(x) {
        records
    } else if has_record(records, x) {
        if x.btime is Some {
            records.update(record_index(records, x), x)
        } else {
            records
        }
    } else {
        records.push(x)
    }
}

/// An association that is not there yet is created at the end.
pub open spec fn link(relations: Seq<(int, int)>, pair: (int, int)) -> Seq<(int, int)> {
    if relations.contains(pair) {
        relations
    } else {
        relations.push(pair)
    }
}

/// The tags after each of `names` was upserted, in order.
pub open spec fn upsert_tags(tags: Seq<Seq<char>>, names: Seq<Seq<char>>) -> Seq<Seq<char>>
    decreases names.len(),
{
    if names.len() == 0 {
        tags
    } else {
        upsert_tag(upsert_tags(tags, names.drop_last()), names.last())
    }
}

/// The records after each of `ids` was upserted, in order.
pub open spec fn upsert_inodes(records: Seq<INode>, ids: Seq<INode>) -> Seq<INode>
    decreases ids.len(),
{
    if ids.len() == 0 {
        records
    } else {
        upsert_inode(upsert_inodes(records, ids.drop_last()), ids.last())
    }
}

/// The associations after the record at `record` was linked to each of
/// `names` that is a tag, in order.
pub open spec fn link_tags(
    relations: Seq<(int, int)>,
    tags: Seq<Seq<char>>,
    record: int,
    names: Seq<Seq<char>>,
) -> Seq<(int, int)>
    decreases names.len(),
{
    if names.len() == 0 {
        relations
    } else {
        let before = link_tags(relations, tags, record, names.drop_last());
        if tags.contains(names.last()) {
            link(before, (tags.index_of(names.last()), record))
        } else {
            before
        }
    }
}

/// The associations after each of `ids` that has a record was linked to each
/// of `names` that is a tag: identity by identity, and for each identity
/// name by name.
pub open spec fn link_inodes(
    relations: Seq<(int, int)>,
    tags: Seq<Seq<char>>,
    records: Seq<INode>,
    ids: Seq<INode>,
    names: Seq<Seq<char>>,
) -> Seq<(int, int)>
    decreases ids.len(),
{
    if ids.len() == 0 {
        relations
    } else {
        let before = link_inodes(relations, tags, records, ids.drop_last(), names);
        if has_record(records, ids.last()) {
            link_tags(before, tags, record_index(records, ids.last()), names)
        } else {
            before
        }
    }
}

/// Whether one of `names` is not empty.
pub open spec fn has_name(names: Seq<Seq<char>>) -> bool {
    exists|j: int| 0 <= j < names.len() && (#[trigger] names[j]).len() > 0
}

/// Whether one of `ids` can have a record.
pub open spec fn has_storable(ids: Seq<INode>) -> bool {
    exists|i: int| 0 <= i < ids.len() && storable(#[trigger] ids[i])
}

/// Whether tagging `ids` with `names` associates anything: one of the names
/// is a name, and one of the identities can have a record.
pub open spec fn taggable(ids: Seq<INode>, names: Seq<Seq<char>>) -> bool {
    has_storable(ids) && has_name(names)
}

/// A stored record answers to the identity `x` when it is of the same object
/// and its birth time is either unknown or the one that `x` has.
pub open spec fn answers(stored: INode, x: INode) -> bool {
    same_object(stored, x) && (stored.btime is None || stored.btime == x.btime)
}

/// What a tag store holds. A tag is known by its place in `tags`, an identity
/// record by its place in `inodes`; an association is a pair of the two
/// places, tag first. All three are in the order of creation.
pub struct StoreModel {
    pub tags: Seq<Seq<char>>,
    pub inodes: Seq<INode>,
    pub relations: Seq<(int, int)>,
}

impl StoreModel {
    pub open spec fn empty() -> StoreModel {
        StoreModel { tags: Seq::empty(), inodes: Seq::empty(), relations: Seq::empty() }
    }

    /// The invariants of the data model: tag names are non-empty and unique,
    /// identity records are storable and unique by device and inode number,
    /// and associations are unique and join an existing tag to an existing
    /// record.
    pub open spec fn wf(self) -> bool {
        &&& tags_wf(self.tags)
        &&& records_wf(self.inodes)
        &&& relations_wf(self.relations, self.tags.len() as int, self.inodes.len() as int)
    }

    /// Whether the record at `record` is associated with the tag `name`.
    pub open spec fn tagged(self, record: int, name: Seq<char>) -> bool {
        exists|k: int|
            0 <= k < self.relations.len() && (#[trigger] self.relations[k]).1 == record
                && self.tags[self.relations[k].0] == name
    }

    /// The names of the tags that the record at `record` is associated with.
    pub open spec fn tags_at(self, record: int) -> Set<Seq<char>> {
        Set::new(|name: Seq<char>| self.tagged(record, name))
    }

    /// Whether the record at `record` is associated with every one of
    /// `names`.
    pub open spec fn has_all(self, record: int, names: Seq<Seq<char>>) -> bool {
        forall|j: int| 0 <= j < names.len() ==> self.tagged(record, #[trigger] names[j])
    }

    /// Whether the record at `record` is associated with at least one of
    /// `names`.
    pub open spec fn has_any(self, record: int, names: Seq<Seq<char>>) -> bool {
        exists|j: int| 0 <= j < names.len() && self.tagged(record, #[trigger] names[j])
    }

    /// Those of the first `n` records that have every one of `names`, in the
    /// order of the records.
    pub open spec fn select_all(self, names: Seq<Seq<char>>, n: nat) -> Seq<INode>
        decreases n,
    {
        if n == 0 {
            Seq::empty()
        } else {
            let before = self.select_all(names, (n - 1) as nat);
            if self.has_all(n - 1, names) {
                before.push(self.inodes[n - 1])
            } else {
                before
            }
        }
    }

    /// The identities that have every one of `names`. An identity may have
    /// other tags besides. No names, no identities.
    pub open spec fn with_all_tags(self, names: Seq<Seq<char>>) -> Seq<INode> {
        if names.len() == 0 {
            Seq::empty()
        } else {
            self.select_all(names, self.inodes.len())
        }
    }

    /// The inode numbers of those of the first `n` records that have at least
    /// one of `names`, in the order of the records.
    pub open spec fn select_any(self, names: Seq<Seq<char>>, n: nat) -> Seq<u64>
        decreases n,
    {
        if n == 0 {
            Seq::empty()
        } else {
            let before = self.select_any(names, (n - 1) as nat);
            if self.has_any(n - 1, names) {
                before.push(self.inodes[n - 1].number)
            } else {
                before
            }
        }
    }

    /// Whether the store has a record that answers to `x`.
    pub open spec fn resolves(self, x: INode) -> bool {
        exists|i: int| 0 <= i < self.inodes.len() && answers(#[trigger] self.inodes[i], x)
    }

    /// The place of the record that answers to `x`, where there is one.
    pub open spec fn resolved(self, x: INode) -> int {
        choose|i: int| 0 <= i < self.inodes.len() && answers(#[trigger] self.inodes[i], x)
    }

    /// The names of the tags that the first `n` associations give to the
    /// record at `record`, in the order of the associations.
    pub open spec fn names_linked(self, record: int, n: nat) -> Seq<Seq<char>>
        decreases n,
    {
        if n == 0 {
            Seq::empty()
        } else {
            let before = self.names_linked(record, (n - 1) as nat);
            if self.relations[n - 1].1 == record {
                before.push(self.tags[self.relations[n - 1].0])
            } else {
                before
            }
        }
    }

    /// The tags of the object `x`, in the order in which it got them; none
    /// where no record answers to `x`.
    pub open spec fn tags_of(self, x: INode) -> Seq<Seq<char>> {
        if self.resolves(x) {
            self.names_linked(self.resolved(x), self.relations.len())
        } else {
            Seq::empty()
        }
    }

    /// The store after `ids` were tagged with `names`. Nothing changes
    /// unless there is something to tag and to tag it with: without a name
    /// that is not empty, or without an identity that can have a record, no
    /// association would come of the call, and so no tag or record comes of
    /// it either.
    pub open spec fn after_add(self, ids: Seq<INode>, names: Seq<Seq<char>>) -> StoreModel {
        if !taggable(ids, names) {
            self
        } else {
            let tags = upsert_tags(self.tags, names);
            let inodes = upsert_inodes(self.inodes, ids);
            StoreModel {
                tags,
                inodes,
                relations: link_inodes(self.relations, tags, inodes, ids, names),
            }
        }
    }
}

} // verus!
