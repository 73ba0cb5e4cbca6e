//! The tag store in memory: tags, identity records and associations, and the
//! engine's operations on them.

use crate::laws::lemma_record_index;
use crate::model::{
    answers, has_name, has_record, has_storable, link_inodes, link_tags, record_index,
    records_wf, relations_wf, same_object, storable, tags_wf, upsert_inodes, upsert_tags,
    StoreModel,
};
use crate::text::{
    ascending, lemma_bytes_lt_transitive, name_lt, names_of, order_of, same_text, texts_of, Order,
};
use crate::INode;
use std::collections::HashSet;
use vstd::prelude::*;
use vstd::utf8::encode_utf8;

verus! {

/// Tags, identity records and the associations between them.
///
/// A tag is known by its place among the tags and a record by its place among
/// the records, both counted from zero in the order of creation.
pub struct TagStore {
    tags: Vec<String>,
    inodes: Vec<INode>,
    relations: Vec<(usize, usize)>,
}

impl View for TagStore {
    type V = StoreModel;

    closed spec fn view(&self) -> StoreModel {
        StoreModel {
            tags: names_of(self.tags@),
            inodes: self.inodes@,
            relations: pairs_of(self.relations@),
        }
    }
}

/// Associations as pairs of places.
pub open spec fn pairs_of(v: Seq<(usize, usize)>) -> Seq<(int, int)> {
    Seq::new(v.len(), |k: int| (v[k].0 as int, v[k].1 as int))
}

/// Whether the names are fit to be the tags of a store: none empty, none
/// twice.
pub fn valid_tags(tags: &Vec<String>) -> (r: bool)
    ensures
        r == tags_wf(names_of(tags@)),
{
    let ghost names = names_of(tags@);
    let mut i: usize = 0;
    while i < tags.len()
        invariant
            i <= tags.len(),
            names == names_of(tags@),
            forall|a: int| 0 <= a < i ==> (#[trigger] names[a]).len() > 0,
            forall|a: int, b: int| 0 <= a < b < i ==> names[a] != names[b],
        decreases tags.len() - i,
    {
        if tags[i].as_str().is_empty() {
            assert(names[i as int].len() == 0);
            return false;
        }
        let mut j: usize = 0;
        while j < i
            invariant
                j <= i < tags.len(),
                names == names_of(tags@),
                forall|a: int| 0 <= a < j ==> names[a] != names[i as int],
            decreases i - j,
        {
            if same_text(tags[j].as_str(), tags[i].as_str()) {
                assert(names[j as int] == names[i as int]);
                return false;
            }
            j += 1;
        }
        i += 1;
    }
    true
}

/// The number that stands for a pair of numbers below 2^64: no two pairs
/// have the same.
pub open spec fn pair_key(a: int, b: int) -> int {
    a * 0x1_0000_0000_0000_0000 + b
}

/// The number that stands for the pair.
fn key_of(a: u64, b: u64) -> (k: u128)
    ensures
        k == pair_key(a as int, b as int),
{
    (a as u128) * 0x1_0000_0000_0000_0000u128 + (b as u128)
}

/// Whether the identities are fit to be the records of a store: each
/// storable, no two of the same object.
pub fn valid_records(inodes: &Vec<INode>) -> (r: bool)
    ensures
        r == records_wf(inodes@),
{
    let mut seen: HashSet<u128> = HashSet::new();
    let mut i: usize = 0;
    while i < inodes.len()
        invariant
            i <= inodes.len(),
            forall|a: int| 0 <= a < i ==> storable(#[trigger] inodes@[a]),
            forall|a: int, b: int|
                0 <= a < b < i ==> !same_object(#[trigger] inodes@[a], #[trigger] inodes@[b]),
            forall|a: int|
                0 <= a < i ==> seen@.contains(
                    pair_key(
                        (#[trigger] inodes@[a]).device as int,
                        inodes@[a].number as int,
                    ) as u128,
                ),
            forall|k: u128|
                seen@.contains(k) ==> exists|a: int|
                    0 <= a < i && k == pair_key(
                        (#[trigger] inodes@[a]).device as int,
                        inodes@[a].number as int,
                    ),
        decreases inodes.len() - i,
    {
        let x = inodes[i];
        if x.device == 0 || x.number == 0 {
            return false;
        }
        let key = key_of(x.device, x.number);
        if !seen.insert(key) {
            return false;
        }
        i += 1;
    }
    true
}

/// Whether the pairs are fit to be the associations of a store with `tags`
/// tags and `records` records: each joins a tag to a record, none twice.
pub fn valid_relations(relations: &Vec<(usize, usize)>, tags: usize, records: usize) -> (r: bool)
    ensures
        r == relations_wf(pairs_of(relations@), tags as int, records as int),
{
    let ghost pairs = pairs_of(relations@);
    let mut seen: HashSet<u128> = HashSet::new();
    let mut i: usize = 0;
    while i < relations.len()
        invariant
            i <= relations.len(),
            pairs == pairs_of(relations@),
            forall|a: int|
                0 <= a < i ==> 0 <= (#[trigger] pairs[a]).0 < tags && 0 <= pairs[a].1 < records,
            forall|a: int, b: int| 0 <= a < b < i ==> pairs[a] != pairs[b],
            forall|a: int|
                0 <= a < i ==> seen@.contains(
                    pair_key((#[trigger] pairs[a]).0, pairs[a].1) as u128,
                ),
            forall|k: u128|
                seen@.contains(k) ==> exists|a: int|
                    0 <= a < i && k == pair_key((#[trigger] pairs[a]).0, pairs[a].1),
        decreases relations.len() - i,
    {
        let pair = relations[i];
        assert(pairs[i as int] == (pair.0 as int, pair.1 as int));
        if pair.0 >= tags || pair.1 >= records {
            return false;
        }
        let key = key_of(pair.0 as u64, pair.1 as u64);
        if !seen.insert(key) {
            return false;
        }
        i += 1;
    }
    true
}

/// Whether one of the identities can have a record: device and inode number
/// are both not zero.
pub fn any_storable(inodes: &[INode]) -> (r: bool)
    ensures
        r == has_storable(inodes@),
{
    let mut i: usize = 0;
    while i < inodes.len()
        invariant
            i <= inodes.len(),
            forall|j: int| 0 <= j < i ==> !storable(#[trigger] inodes@[j]),
        decreases inodes.len() - i,
    {
        if inodes[i].device != 0 && inodes[i].number != 0 {
            assert(storable(inodes@[i as int]));
            return true;
        }
        i += 1;
    }
    false
}

/// Whether one of the names is not empty.
pub fn any_name(tag_names: &[&str]) -> (r: bool)
    ensures
        r == has_name(texts_of(tag_names@)),
{
    let ghost names = texts_of(tag_names@);
    let mut j: usize = 0;
    while j < tag_names.len()
        invariant
            j <= tag_names.len(),
            names == texts_of(tag_names@),
            forall|k: int| 0 <= k < j ==> (#[trigger] names[k]).len() == 0,
        decreases tag_names.len() - j,
    {
        if !tag_names[j].is_empty() {
            assert(names[j as int].len() > 0);
            return true;
        }
        j += 1;
    }
    false
}

impl TagStore {
    /// The store keeps the invariants of the data model.
    pub open spec fn wf(&self) -> bool {
        self@.wf()
    }

    /// A store that holds nothing.
    pub fn new() -> (s: TagStore)
        ensures
            s.wf(),
            s@ == StoreModel::empty(),
    {
        let s = TagStore { tags: Vec::new(), inodes: Vec::new(), relations: Vec::new() };
        assert(s@.tags =~= Seq::empty());
        assert(s@.relations =~= Seq::empty());
        s
    }

    /// The store that holds the given tags, records and associations, each
    /// in the order given, if they keep the invariants of the data model.
    pub fn restore(tags: Vec<String>, inodes: Vec<INode>, relations: Vec<(usize, usize)>) -> (r:
        Option<TagStore>)
        ensures
            match r {
                Some(s) => s.wf() && s@ == (StoreModel {
                    tags: names_of(tags@),
                    inodes: inodes@,
                    relations: pairs_of(relations@),
                }),
                None => !(StoreModel {
                    tags: names_of(tags@),
                    inodes: inodes@,
                    relations: pairs_of(relations@),
                }).wf(),
            },
    {
        if valid_tags(&tags) && valid_records(&inodes) && valid_relations(
            &relations,
            tags.len(),
            inodes.len(),
        ) {
            Some(TagStore { tags, inodes, relations })
        } else {
            None
        }
    }

    /// How many tags there are.
    pub fn tag_count(&self) -> (n: usize)
        ensures
            n == self@.tags.len(),
    {
        self.tags.len()
    }

    /// The name of the tag at `i`.
    pub fn tag_name(&self, i: usize) -> (name: &str)
        requires
            i < self@.tags.len(),
        ensures
            name@ == self@.tags[i as int],
    {
        self.tags[i].as_str()
    }

    /// How many identity records there are.
    pub fn inode_count(&self) -> (n: usize)
        ensures
            n == self@.inodes.len(),
    {
        self.inodes.len()
    }

    /// The identity record at `i`.
    pub fn inode_at(&self, i: usize) -> (x: INode)
        requires
            i < self@.inodes.len(),
        ensures
            x == self@.inodes[i as int],
    {
        self.inodes[i]
    }

    /// How many associations there are.
    pub fn relation_count(&self) -> (n: usize)
        ensures
            n == self@.relations.len(),
    {
        self.relations.len()
    }

    /// The association at `k`: the place of its tag and the place of its
    /// record.
    pub fn relation_at(&self, k: usize) -> (pair: (usize, usize))
        requires
            k < self@.relations.len(),
        ensures
            (pair.0 as int, pair.1 as int) == self@.relations[k as int],
    {
        self.relations[k]
    }

    /// The place of the tag called `name`, if there is one.
    pub fn find_tag(&self, name: &str) -> (r: Option<usize>)
        ensures
            match r {
                Some(i) => i < self@.tags.len() && self@.tags[i as int] == name@ && forall|j: int|
                    0 <= j < i ==> self@.tags[j] != name@,
                None => !self@.tags.contains(name@),
            },
    {
        let mut i: usize = 0;
        while i < self.tags.len()
            invariant
                i <= self.tags.len(),
                forall|j: int| 0 <= j < i ==> names_of(self.tags@)[j] != name@,
            decreases self.tags.len() - i,
        {
            if same_text(self.tags[i].as_str(), name) {
                return Some(i);
            }
            i += 1;
        }
        None
    }

    /// The place of the record of the object `x`, if it has one.
    pub fn find_record(&self, x: &INode) -> (r: Option<usize>)
        ensures
            match r {
                Some(i) => i < self@.inodes.len() && same_object(self@.inodes[i as int], *x)
                    && forall|j: int| 0 <= j < i ==> !same_object(#[trigger] self@.inodes[j], *x),
                None => !has_record(self@.inodes, *x),
            },
    {
        let mut i: usize = 0;
        while i < self.inodes.len()
            invariant
                i <= self.inodes.len(),
                forall|j: int| 0 <= j < i ==> !same_object(#[trigger] self.inodes@[j], *x),
            decreases self.inodes.len() - i,
        {
            if self.inodes[i].device == x.device && self.inodes[i].number == x.number {
                return Some(i);
            }
            i += 1;
        }
        None
    }

    /// Whether the tag at `tag` and the record at `record` are associated.
    pub fn has_relation(&self, tag: usize, record: usize) -> (r: bool)
        ensures
            r == self@.relations.contains((tag as int, record as int)),
    {
        let mut k: usize = 0;
        while k < self.relations.len()
            invariant
                k <= self.relations.len(),
                forall|j: int|
                    0 <= j < k ==> pairs_of(self.relations@)[j] != (tag as int, record as int),
            decreases self.relations.len() - k,
        {
            if self.relations[k].0 == tag && self.relations[k].1 == record {
                assert(pairs_of(self.relations@)[k as int] == (tag as int, record as int));
                return true;
            }
            k += 1;
        }
        false
    }

    /// Tags every one of `inodes` with every one of `tag_names`.
    ///
    /// Tags and identity records that are not there yet are created, in the
    /// order given; an empty name and an identity with a zero device or
    /// inode number are passed over. A birth time that an identity brings
    /// replaces the one stored for its object. Then each identity is
    /// associated with each name, identity by identity; an association that
    /// exists already stays where it is.
    ///
    /// Nothing happens unless one of the names is not empty and one of the
    /// identities can have a record: no tag and no record is made that the
    /// call would leave without an association.
    pub fn add(&mut self, inodes: &[INode], tag_names: &[&str])
        requires
            old(self).wf(),
        ensures
            final(self).wf(),
            final(self)@ == old(self)@.after_add(inodes@, texts_of(tag_names@)),
    {
        if !any_storable(inodes) || !any_name(tag_names) {
            return;
        }
        let ghost names = texts_of(tag_names@);
        let ghost ids = inodes@;
        let ghost before = self@;

        let mut j: usize = 0;
        while j < tag_names.len()
            invariant
                j <= tag_names.len(),
                names == texts_of(tag_names@),
                self.inodes@ == before.inodes,
                pairs_of(self.relations@) == before.relations,
                before.wf(),
                tags_wf(names_of(self.tags@)),
                names_of(self.tags@).len() >= before.tags.len(),
                names_of(self.tags@) == upsert_tags(before.tags, names.take(j as int)),
            decreases tag_names.len() - j,
        {
            let name = tag_names[j];
            assert(names.take(j + 1).drop_last() =~= names.take(j as int));
            if !name.is_empty() && self.find_tag(name).is_none() {
                let ghost prev = names_of(self.tags@);
                self.tags.push(name.to_owned());
                assert(names_of(self.tags@) =~= prev.push(name@));
            }
            j += 1;
        }
        assert(names.take(tag_names.len() as int) =~= names);

        let mut i: usize = 0;
        while i < inodes.len()
            invariant
                i <= inodes.len(),
                ids == inodes@,
                names_of(self.tags@) == upsert_tags(before.tags, names),
                pairs_of(self.relations@) == before.relations,
                records_wf(self.inodes@),
                self.inodes@.len() >= before.inodes.len(),
                self.inodes@ == upsert_inodes(before.inodes, ids.take(i as int)),
            decreases inodes.len() - i,
        {
            let x = inodes[i];
            assert(ids.take(i + 1).drop_last() =~= ids.take(i as int));
            if x.device != 0 && x.number != 0 {
                match self.find_record(&x) {
                    Some(ix) => {
                        if x.btime.is_some() {
                            self.inodes.set(ix, x);
                        }
                    },
                    None => {
                        self.inodes.push(x);
                    },
                }
            }
            i += 1;
        }

        let ghost tags = names_of(self.tags@);
        let ghost records = self.inodes@;
        let mut i: usize = 0;
        while i < inodes.len()
            invariant
                i <= inodes.len(),
                ids == inodes@,
                names == texts_of(tag_names@),
                tags == names_of(self.tags@),
                records == self.inodes@,
                tags_wf(tags),
                records_wf(records),
                relations_wf(pairs_of(self.relations@), tags.len() as int, records.len() as int),
                pairs_of(self.relations@) == link_inodes(
                    before.relations,
                    tags,
                    records,
                    ids.take(i as int),
                    names,
                ),
            decreases inodes.len() - i,
        {
            let x = inodes[i];
            assert(ids.take(i + 1).drop_last() =~= ids.take(i as int));
            if let Some(ix) = self.find_record(&x) {
                let ghost start = pairs_of(self.relations@);
                let mut j: usize = 0;
                while j < tag_names.len()
                    invariant
                        j <= tag_names.len(),
                        names == texts_of(tag_names@),
                        tags == names_of(self.tags@),
                        records == self.inodes@,
                        tags_wf(tags),
                        ix < records.len(),
                        relations_wf(
                            pairs_of(self.relations@),
                            tags.len() as int,
                            records.len() as int,
                        ),
                        pairs_of(self.relations@) == link_tags(
                            start,
                            tags,
                            ix as int,
                            names.take(j as int),
                        ),
                    decreases tag_names.len() - j,
                {
                    let name = tag_names[j];
                    assert(names.take(j + 1).drop_last() =~= names.take(j as int));
                    if let Some(t) = self.find_tag(name) {
                        if !self.has_relation(t, ix) {
                            let ghost prev = pairs_of(self.relations@);
                            self.relations.push((t, ix));
                            assert(pairs_of(self.relations@) =~= prev.push((t as int, ix as int)));
                        }
                    }
                    j += 1;
                }
                assert(names.take(tag_names.len() as int) =~= names);
            }
            i += 1;
        }
        assert(ids.take(inodes.len() as int) =~= ids);
    }

    /// Whether the record at `record` is associated with the tag called
    /// `name`.
    pub fn is_tagged(&self, record: usize, name: &str) -> (r: bool)
        requires
            self.wf(),
        ensures
            r == self@.tagged(record as int, name@),
    {
        match self.find_tag(name) {
            Some(t) => self.has_relation(t, record),
            None => false,
        }
    }

    /// Whether the record at `record` is associated with every one of
    /// `tag_names`.
    pub fn has_all_tags(&self, record: usize, tag_names: &[&str]) -> (r: bool)
        requires
            self.wf(),
        ensures
            r == self@.has_all(record as int, texts_of(tag_names@)),
    {
        let ghost names = texts_of(tag_names@);
        let mut j: usize = 0;
        while j < tag_names.len()
            invariant
                j <= tag_names.len(),
                self.wf(),
                names == texts_of(tag_names@),
                forall|i: int| 0 <= i < j ==> self@.tagged(record as int, #[trigger] names[i]),
            decreases tag_names.len() - j,
        {
            if !self.is_tagged(record, tag_names[j]) {
                assert(!self@.tagged(record as int, names[j as int]));
                return false;
            }
            j += 1;
        }
        true
    }

    /// Whether the record at `record` is associated with at least one of
    /// `tag_names`.
    pub fn has_any_tag(&self, record: usize, tag_names: &[&str]) -> (r: bool)
        requires
            self.wf(),
        ensures
            r == self@.has_any(record as int, texts_of(tag_names@)),
    {
        let ghost names = texts_of(tag_names@);
        let mut j: usize = 0;
        while j < tag_names.len()
            invariant
                j <= tag_names.len(),
                self.wf(),
                names == texts_of(tag_names@),
                forall|i: int| 0 <= i < j ==> !self@.tagged(record as int, #[trigger] names[i]),
            decreases tag_names.len() - j,
        {
            if self.is_tagged(record, tag_names[j]) {
                assert(self@.tagged(record as int, names[j as int]));
                return true;
            }
            j += 1;
        }
        false
    }

    /// For each record, whether it is associated with the tag called `name`.
    pub fn tagged_records(&self, name: &str) -> (r: Vec<bool>)
        requires
            self.wf(),
        ensures
            r@.len() == self@.inodes.len(),
            forall|i: int| 0 <= i < r@.len() ==> #[trigger] r@[i] == self@.tagged(i, name@),
    {
        let ghost rel = self@.relations;
        let mut held: Vec<bool> = Vec::new();
        while held.len() < self.inodes.len()
            invariant
                held@.len() <= self.inodes@.len(),
                forall|i: int| 0 <= i < held@.len() ==> !held@[i],
            decreases self.inodes.len() - held.len(),
        {
            held.push(false);
        }
        match self.find_tag(name) {
            Some(t) => {
                let mut k: usize = 0;
                while k < self.relations.len()
                    invariant
                        k <= self.relations.len(),
                        self.wf(),
                        rel == self@.relations,
                        held@.len() == self@.inodes.len(),
                        forall|i: int|
                            0 <= i < held@.len() ==> #[trigger] held@[i] == rel.take(
                                k as int,
                            ).contains((t as int, i)),
                    decreases self.relations.len() - k,
                {
                    let pair = self.relations[k];
                    assert(rel[k as int] == (pair.0 as int, pair.1 as int));
                    if pair.0 == t {
                        held.set(pair.1, true);
                    }
                    proof {
                        let longer = rel.take(k + 1);
                        assert forall|i: int| 0 <= i < held@.len() implies #[trigger] held@[i]
                            == longer.contains((t as int, i)) by {
                            if rel[k as int] == (t as int, i) {
                                assert(longer[k as int] == (t as int, i));
                            }
                        }
                    }
                    k += 1;
                }
                assert(rel.take(self.relations.len() as int) =~= rel);
            },
            None => {},
        }
        held
    }

    /// The identities that have every one of `tag_names`, in the order in
    /// which their records were created.
    ///
    /// A name that is given twice counts once, and an identity may have other
    /// tags besides. With no names the answer is empty.
    pub fn get_inodes(&self, tag_names: &[&str]) -> (r: Vec<INode>)
        requires
            self.wf(),
        ensures
            r@ == self@.with_all_tags(texts_of(tag_names@)),
    {
        let mut out: Vec<INode> = Vec::new();
        if tag_names.len() == 0 {
            return out;
        }
        let ghost names = texts_of(tag_names@);
        let mut keep: Vec<bool> = self.tagged_records(tag_names[0]);
        let mut j: usize = 1;
        assert forall|i: int| 0 <= i < keep@.len() implies #[trigger] keep@[i]
            == self@.has_all(i, names.take(1)) by {
            assert(names.take(1)[0] == names[0]);
        }
        while j < tag_names.len()
            invariant
                1 <= j <= tag_names.len(),
                self.wf(),
                names == texts_of(tag_names@),
                keep@.len() == self@.inodes.len(),
                forall|i: int|
                    0 <= i < keep@.len() ==> #[trigger] keep@[i] == self@.has_all(
                        i,
                        names.take(j as int),
                    ),
            decreases tag_names.len() - j,
        {
            let held = self.tagged_records(tag_names[j]);
            let ghost before = keep@;
            let mut i: usize = 0;
            while i < keep.len()
                invariant
                    i <= keep@.len(),
                    keep@.len() == held@.len(),
                    keep@.len() == before.len(),
                    forall|a: int| 0 <= a < i ==> #[trigger] keep@[a] == (before[a] && held@[a]),
                    forall|a: int| i <= a < keep@.len() ==> #[trigger] keep@[a] == before[a],
                decreases keep.len() - i,
            {
                if !held[i] {
                    keep.set(i, false);
                }
                i += 1;
            }
            proof {
                assert forall|i: int| 0 <= i < keep@.len() implies #[trigger] keep@[i]
                    == self@.has_all(i, names.take(j + 1)) by {
                    let longer = names.take(j + 1);
                    assert(longer[j as int] == names[j as int]);
                }
            }
            j += 1;
        }
        assert(names.take(tag_names.len() as int) =~= names);
        let mut i: usize = 0;
        while i < self.inodes.len()
            invariant
                i <= self.inodes.len(),
                keep@.len() == self@.inodes.len(),
                forall|a: int|
                    0 <= a < keep@.len() ==> #[trigger] keep@[a] == self@.has_all(a, names),
                out@ == self@.select_all(names, i as nat),
            decreases self.inodes.len() - i,
        {
            if keep[i] {
                out.push(self.inodes[i]);
            }
            i += 1;
        }
        out
    }

    /// The inode numbers of the identities that have at least one of
    /// `tag_names`, in the order in which their records were created.
    pub fn get_inodenums(&self, tag_names: &[&str]) -> (r: Vec<u64>)
        requires
            self.wf(),
        ensures
            r@ == self@.select_any(texts_of(tag_names@), self@.inodes.len()),
    {
        let ghost names = texts_of(tag_names@);
        let mut keep: Vec<bool> = Vec::new();
        while keep.len() < self.inodes.len()
            invariant
                keep@.len() <= self.inodes@.len(),
                forall|i: int| 0 <= i < keep@.len() ==> !keep@[i],
            decreases self.inodes.len() - keep.len(),
        {
            keep.push(false);
        }
        let mut j: usize = 0;
        while j < tag_names.len()
            invariant
                j <= tag_names.len(),
                self.wf(),
                names == texts_of(tag_names@),
                keep@.len() == self@.inodes.len(),
                forall|i: int|
                    0 <= i < keep@.len() ==> #[trigger] keep@[i] == self@.has_any(
                        i,
                        names.take(j as int),
                    ),
            decreases tag_names.len() - j,
        {
            let held = self.tagged_records(tag_names[j]);
            let ghost before = keep@;
            let mut i: usize = 0;
            while i < keep.len()
                invariant
                    i <= keep@.len(),
                    keep@.len() == held@.len(),
                    keep@.len() == before.len(),
                    forall|a: int| 0 <= a < i ==> #[trigger] keep@[a] == (before[a] || held@[a]),
                    forall|a: int| i <= a < keep@.len() ==> #[trigger] keep@[a] == before[a],
                decreases keep.len() - i,
            {
                if held[i] {
                    keep.set(i, true);
                }
                i += 1;
            }
            proof {
                assert forall|i: int| 0 <= i < keep@.len() implies #[trigger] keep@[i]
                    == self@.has_any(i, names.take(j + 1)) by {
                    assert(names.take(j + 1)[j as int] == names[j as int]);
                }
            }
            j += 1;
        }
        assert(names.take(tag_names.len() as int) =~= names);
        let mut out: Vec<u64> = Vec::new();
        let mut i: usize = 0;
        while i < self.inodes.len()
            invariant
                i <= self.inodes.len(),
                keep@.len() == self@.inodes.len(),
                forall|a: int|
                    0 <= a < keep@.len() ==> #[trigger] keep@[a] == self@.has_any(a, names),
                out@ == self@.select_any(names, i as nat),
            decreases self.inodes.len() - i,
        {
            if keep[i] {
                out.push(self.inodes[i].number);
            }
            i += 1;
        }
        out
    }

    /// The place of the record that answers to `inode`, if there is one: the
    /// record of the same object, provided that its birth time is unknown or
    /// the one that `inode` has.
    pub fn resolve(&self, inode: &INode) -> (r: Option<usize>)
        requires
            self.wf(),
        ensures
            match r {
                Some(i) => self@.resolves(*inode) && self@.resolved(*inode) == i && i
                    < self@.inodes.len(),
                None => !self@.resolves(*inode),
            },
    {
        match self.find_record(inode) {
            Some(ix) => {
                let known = match self.inodes[ix].btime {
                    None => true,
                    Some(stored) => match inode.btime {
                        Some(given) => stored == given,
                        None => false,
                    },
                };
                proof {
                    let rs = self@.inodes;
                    assert forall|i: int| 0 <= i < rs.len() && answers(
                        #[trigger] rs[i],
                        *inode,
                    ) implies i == ix by {
                        lemma_record_index(rs, *inode, i);
                        lemma_record_index(rs, *inode, ix as int);
                    }
                }
                if known {
                    Some(ix)
                } else {
                    None
                }
            },
            None => None,
        }
    }

    /// The tags of the object that `inode` names, in the order in which the
    /// object got them.
    ///
    /// The object's record answers only where its birth time is unknown or
    /// the one that `inode` has; where none answers there are no tags.
    pub fn get_tags(&self, inode: INode) -> (r: Vec<String>)
        requires
            self.wf(),
        ensures
            names_of(r@) == self@.tags_of(inode),
    {
        let mut out: Vec<String> = Vec::new();
        if let Some(ix) = self.resolve(&inode) {
            let mut k: usize = 0;
            while k < self.relations.len()
                invariant
                    k <= self.relations.len(),
                    self.wf(),
                    names_of(out@) == self@.names_linked(ix as int, k as nat),
                decreases self.relations.len() - k,
            {
                if self.relations[k].1 == ix {
                    let t = self.relations[k].0;
                    assert(self@.relations[k as int] == (t as int, ix as int));
                    out.push(self.tags[t].clone());
                }
                k += 1;
            }
        }
        out
    }

    /// Every tag name, each once, in ascending order of their bytes.
    pub fn list_tags(&self) -> (r: Vec<String>)
        requires
            self.wf(),
        ensures
            ascending(names_of(r@)),
            names_of(r@).to_multiset() == self@.tags.to_multiset(),
    {
        let ghost tags = self@.tags;
        let mut out: Vec<String> = Vec::new();
        assert(names_of(out@) =~= tags.take(0));
        let mut i: usize = 0;
        while i < self.tags.len()
            invariant
                i <= self.tags.len(),
                tags == names_of(self.tags@),
                tags.no_duplicates(),
                ascending(names_of(out@)),
                names_of(out@).to_multiset() == tags.take(i as int).to_multiset(),
            decreases self.tags.len() - i,
        {
            let ghost sorted = names_of(out@);
            let ghost name = tags[i as int];
            proof {
                broadcast use vstd::seq_lib::group_to_multiset_ensures;

                assert(!sorted.contains(name)) by {
                    if sorted.contains(name) {
                        assert(sorted.to_multiset().count(name) > 0);
                    }
                }
            }
            let mut p: usize = 0;
            while p < out.len()
                invariant
                    p <= out.len(),
                    i < self.tags.len(),
                    sorted == names_of(out@),
                    name == self.tags@[i as int]@,
                    !sorted.contains(name),
                    forall|q: int| 0 <= q < p ==> name_lt(#[trigger] sorted[q], name),
                ensures
                    p <= out.len(),
                    forall|q: int| 0 <= q < p ==> name_lt(#[trigger] sorted[q], name),
                    p < out.len() ==> name_lt(name, sorted[p as int]),
                decreases out.len() - p,
            {
                match order_of(out[p].as_str(), self.tags[i].as_str()) {
                    Order::Before => {},
                    Order::Same => {
                    },
                    Order::After => {
                        break ;
                    },
                }
                p += 1;
            }
            out.insert(p, self.tags[i].clone());
            proof {
                broadcast use vstd::seq_lib::group_to_multiset_ensures;

                let after = names_of(out@);
                assert(after =~= sorted.insert(p as int, name));
                assert(tags.take(i + 1) =~= tags.take(i as int).push(name));
                assert forall|a: int, b: int| 0 <= a < b < after.len() implies name_lt(
                    #[trigger] after[a],
                    #[trigger] after[b],
                ) by {
                    if a == p && b - 1 > p {
                        lemma_bytes_lt_transitive(
                            encode_utf8(name),
                            encode_utf8(sorted[p as int]),
                            encode_utf8(sorted[b - 1]),
                        );
                    }
                }
            }
            i += 1;
        }
        assert(tags.take(self.tags.len() as int) =~= tags);
        out
    }
}

} // verus!
