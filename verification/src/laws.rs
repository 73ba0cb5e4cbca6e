//! What holds of the engine's operations, proved over the model.

use crate::model::{
    has_record, link, link_inodes, link_tags, record_index, records_wf, relations_wf,
    same_object, storable, taggable, tags_wf, upsert_inode, upsert_inodes, upsert_tag,
    upsert_tags, StoreModel,
};
use crate::INode;
use vstd::prelude::*;

verus! {

/// `a` is the beginning of `b`.
pub open spec fn extends<A>(b: Seq<A>, a: Seq<A>) -> bool {
    &&& a.len() <= b.len()
    &&& forall|i: int| 0 <= i < a.len() ==> #[trigger] b[i] == a[i]
}

/// The birth time that the last of `ids` to bring one brings for the object
/// `x`.
pub open spec fn latest_btime(ids: Seq<INode>, x: INode) -> Option<u64>
    decreases ids.len(),
{
    if ids.len() == 0 {
        None
    } else if same_object(ids.last(), x) && ids.last().btime is Some {
        ids.last().btime
    } else {
        latest_btime(ids.drop_last(), x)
    }
}

/// Upserting names keeps the tags that were there, in their places, keeps
/// the names unique and non-empty, and leaves every non-empty name among
/// them.
pub proof fn lemma_upsert_tags(tags: Seq<Seq<char>>, names: Seq<Seq<char>>)
    requires
        tags_wf(tags),
    ensures
        tags_wf(upsert_tags(tags, names)),
        extends(upsert_tags(tags, names), tags),
        forall|j: int|
            0 <= j < names.len() && (#[trigger] names[j]).len() > 0 ==> upsert_tags(
                tags,
                names,
            ).contains(names[j]),
    decreases names.len(),
{
    if names.len() > 0 {
        let before = upsert_tags(tags, names.drop_last());
        let after = upsert_tags(tags, names);
        lemma_upsert_tags(tags, names.drop_last());
        assert forall|j: int|
            0 <= j < names.len() && (#[trigger] names[j]).len() > 0 implies after.contains(
            names[j],
        ) by {
            if j < names.len() - 1 {
                assert(names.drop_last()[j] == names[j]);
                let k = choose|k: int| 0 <= k < before.len() && before[k] == names[j];
                assert(after[k] == names[j]);
            } else if !before.contains(names[j]) {
                assert(after[before.len() as int] == names[j]);
            }
        }
    }
}

/// Upserting names that are all tags already changes nothing.
pub proof fn lemma_upsert_tags_known(tags: Seq<Seq<char>>, names: Seq<Seq<char>>)
    requires
        forall|j: int|
            0 <= j < names.len() && (#[trigger] names[j]).len() > 0 ==> tags.contains(names[j]),
    ensures
        upsert_tags(tags, names) == tags,
    decreases names.len(),
{
    if names.len() > 0 {
        lemma_upsert_tags_known(tags, names.drop_last());
    }
}

/// Where none of `ids` is of the object `x`, none brings a birth time for it.
pub proof fn lemma_latest_btime_absent(ids: Seq<INode>, x: INode)
    requires
        forall|j: int| 0 <= j < ids.len() ==> !same_object(#[trigger] ids[j], x),
    ensures
        latest_btime(ids, x) is None,
    decreases ids.len(),
{
    if ids.len() > 0 {
        lemma_latest_btime_absent(ids.drop_last(), x);
    }
}

/// The birth time brought for an object does not depend on the birth time by
/// which the object is named.
pub proof fn lemma_latest_btime_by_object(ids: Seq<INode>, x: INode, y: INode)
    requires
        same_object(x, y),
    ensures
        latest_btime(ids, x) == latest_btime(ids, y),
    decreases ids.len(),
{
    if ids.len() > 0 {
        lemma_latest_btime_by_object(ids.drop_last(), x, y);
    }
}

/// In well-formed records the record of an object is found at one place
/// only.
pub proof fn lemma_record_index(records: Seq<INode>, x: INode, i: int)
    requires
        records_wf(records),
        0 <= i < records.len(),
        same_object(records[i], x),
    ensures
        has_record(records, x),
        record_index(records, x) == i,
{
    assert(same_object(records[record_index(records, x)], x));
}

/// What upserting identities does to the records: those that were there keep
/// their places and their objects, the records stay well-formed, every
/// storable identity has a record afterwards, and each record's birth time is
/// the last one brought for its object, or else the one it had (none, for a
/// new record). Where every storable identity had a record, none is created.
pub proof fn lemma_upsert_inodes(records: Seq<INode>, ids: Seq<INode>)
    requires
        records_wf(records),
    ensures
        records_wf(upsert_inodes(records, ids)),
        upsert_inodes(records, ids).len() >= records.len(),
        forall|i: int|
            0 <= i < records.len() ==> same_object(
                #[trigger] upsert_inodes(records, ids)[i],
                records[i],
            ),
        forall|i: int|
            0 <= i < upsert_inodes(records, ids).len() ==> (#[trigger] upsert_inodes(
                records,
                ids,
            )[i]).btime == (match latest_btime(ids, upsert_inodes(records, ids)[i]) {
                Some(b) => Some(b),
                None => if i < records.len() {
                    records[i].btime
                } else {
                    None
                },
            }),
        forall|j: int|
            0 <= j < ids.len() && storable(#[trigger] ids[j]) ==> has_record(
                upsert_inodes(records, ids),
                ids[j],
            ),
        (forall|j: int|
            0 <= j < ids.len() && storable(#[trigger] ids[j]) ==> has_record(records, ids[j]))
            ==> upsert_inodes(records, ids).len() == records.len(),
    decreases ids.len(),
{
    if ids.len() > 0 {
        let rest = ids.drop_last();
        let x = ids.last();
        let p = upsert_inodes(records, rest);
        let r = upsert_inodes(records, ids);
        lemma_upsert_inodes(records, rest);
        assert forall|j: int| 0 <= j < rest.len() implies rest[j] == ids[j] by {}
        if !storable(x) {
            assert(r == p);
        } else if has_record(p, x) {
            let ix = record_index(p, x);
            assert forall|j: int|
                0 <= j < ids.len() && storable(#[trigger] ids[j]) implies has_record(
                r,
                ids[j],
            ) by {
                let k = if j < rest.len() {
                    record_index(p, rest[j])
                } else {
                    ix
                };
                assert(same_object(r[k], ids[j]));
            }
        } else {
            let n = p.len() as int;
            assert forall|j: int| 0 <= j < rest.len() implies !same_object(
                #[trigger] rest[j],
                x,
            ) by {
                if same_object(rest[j], x) {
                    assert(has_record(p, rest[j]));
                }
            }
            lemma_latest_btime_absent(rest, x);
            assert forall|j: int|
                0 <= j < ids.len() && storable(#[trigger] ids[j]) implies has_record(
                r,
                ids[j],
            ) by {
                if j < rest.len() {
                    let k = record_index(p, rest[j]);
                    assert(same_object(r[k], ids[j]));
                } else {
                    assert(same_object(r[n], ids[j]));
                }
            }
            if forall|j: int|
                0 <= j < ids.len() && storable(#[trigger] ids[j]) ==> has_record(records, ids[j]) {
                let k = record_index(records, x);
                assert(same_object(p[k], x));
            }
        }
    }
}

/// The associations join the record at `record` to every one of `names` that
/// is a tag.
pub open spec fn links_all_tags(
    relations: Seq<(int, int)>,
    tags: Seq<Seq<char>>,
    record: int,
    names: Seq<Seq<char>>,
) -> bool {
    forall|j: int|
        0 <= j < names.len() && tags.contains(#[trigger] names[j]) ==> relations.contains(
            (tags.index_of(names[j]), record),
        )
}

/// The associations join every one of `ids` that has a record to every one of
/// `names` that is a tag.
pub open spec fn links_all(
    relations: Seq<(int, int)>,
    tags: Seq<Seq<char>>,
    records: Seq<INode>,
    ids: Seq<INode>,
    names: Seq<Seq<char>>,
) -> bool {
    forall|i: int|
        0 <= i < ids.len() && has_record(records, #[trigger] ids[i]) ==> links_all_tags(
            relations,
            tags,
            record_index(records, ids[i]),
            names,
        )
}

/// What is in a sequence is in every sequence that begins with it.
pub proof fn lemma_extends_contains<A>(b: Seq<A>, a: Seq<A>, x: A)
    requires
        extends(b, a),
        a.contains(x),
    ensures
        b.contains(x),
{
    let k = choose|k: int| 0 <= k < a.len() && a[k] == x;
    assert(b[k] == x);
}

/// Linking a record to names keeps the associations that were there, in
/// their places, keeps them well-formed, and leaves the record joined to
/// every name that is a tag.
pub proof fn lemma_link_tags(
    relations: Seq<(int, int)>,
    tags: Seq<Seq<char>>,
    records: int,
    record: int,
    names: Seq<Seq<char>>,
)
    requires
        relations_wf(relations, tags.len() as int, records),
        0 <= record < records,
    ensures
        relations_wf(link_tags(relations, tags, record, names), tags.len() as int, records),
        extends(link_tags(relations, tags, record, names), relations),
        links_all_tags(link_tags(relations, tags, record, names), tags, record, names),
    decreases names.len(),
{
    if names.len() > 0 {
        let rest = names.drop_last();
        let before = link_tags(relations, tags, record, rest);
        let after = link_tags(relations, tags, record, names);
        lemma_link_tags(relations, tags, records, record, rest);
        assert forall|j: int|
            0 <= j < names.len() && tags.contains(#[trigger] names[j]) implies after.contains(
            (tags.index_of(names[j]), record),
        ) by {
            let pair = (tags.index_of(names[j]), record);
            if j < rest.len() {
                assert(rest[j] == names[j]);
                lemma_extends_contains(after, before, pair);
            } else if !before.contains(pair) {
                assert(after[before.len() as int] == pair);
            }
        }
    }
}

/// Linking a record to names that it has already changes nothing.
pub proof fn lemma_link_tags_known(
    relations: Seq<(int, int)>,
    tags: Seq<Seq<char>>,
    record: int,
    names: Seq<Seq<char>>,
)
    requires
        links_all_tags(relations, tags, record, names),
    ensures
        link_tags(relations, tags, record, names) == relations,
    decreases names.len(),
{
    if names.len() > 0 {
        let rest = names.drop_last();
        lemma_link_tags_known(relations, tags, record, rest);
    }
}

/// Linking identities to names keeps the associations that were there, in
/// their places, keeps them well-formed, and leaves every identity that has a
/// record joined to every name that is a tag.
pub proof fn lemma_link_inodes(
    relations: Seq<(int, int)>,
    tags: Seq<Seq<char>>,
    records: Seq<INode>,
    ids: Seq<INode>,
    names: Seq<Seq<char>>,
)
    requires
        relations_wf(relations, tags.len() as int, records.len() as int),
    ensures
        relations_wf(
            link_inodes(relations, tags, records, ids, names),
            tags.len() as int,
            records.len() as int,
        ),
        extends(link_inodes(relations, tags, records, ids, names), relations),
        links_all(link_inodes(relations, tags, records, ids, names), tags, records, ids, names),
    decreases ids.len(),
{
    if ids.len() > 0 {
        let rest = ids.drop_last();
        let before = link_inodes(relations, tags, records, rest, names);
        let after = link_inodes(relations, tags, records, ids, names);
        lemma_link_inodes(relations, tags, records, rest, names);
        if has_record(records, ids.last()) {
            lemma_link_tags(
                before,
                tags,
                records.len() as int,
                record_index(records, ids.last()),
                names,
            );
        }
        assert forall|i: int|
            0 <= i < ids.len() && has_record(records, #[trigger] ids[i]) implies links_all_tags(
            after,
            tags,
            record_index(records, ids[i]),
            names,
        ) by {
            if i < rest.len() {
                assert(rest[i] == ids[i]);
                let record = record_index(records, ids[i]);
                assert forall|j: int|
                    0 <= j < names.len() && tags.contains(
                        #[trigger] names[j],
                    ) implies after.contains((tags.index_of(names[j]), record)) by {
                    lemma_extends_contains(after, before, (tags.index_of(names[j]), record));
                }
            }
        }
    }
}

/// Linking identities to names that they all have already changes nothing.
pub proof fn lemma_link_inodes_known(
    relations: Seq<(int, int)>,
    tags: Seq<Seq<char>>,
    records: Seq<INode>,
    ids: Seq<INode>,
    names: Seq<Seq<char>>,
)
    requires
        links_all(relations, tags, records, ids, names),
    ensures
        link_inodes(relations, tags, records, ids, names) == relations,
    decreases ids.len(),
{
    if ids.len() > 0 {
        let rest = ids.drop_last();
        lemma_link_inodes_known(relations, tags, records, rest, names);
        if has_record(records, ids.last()) {
            lemma_link_tags_known(relations, tags, record_index(records, ids.last()), names);
        }
    }
}

/// Tagging keeps the invariants of the data model.
pub proof fn lemma_add_preserves_wf(s: StoreModel, ids: Seq<INode>, names: Seq<Seq<char>>)
    requires
        s.wf(),
    ensures
        s.after_add(ids, names).wf(),
{
    if taggable(ids, names) {
        let tags = upsert_tags(s.tags, names);
        let inodes = upsert_inodes(s.inodes, ids);
        lemma_upsert_tags(s.tags, names);
        lemma_upsert_inodes(s.inodes, ids);
        lemma_link_inodes(s.relations, tags, inodes, ids, names);
    }
}

/// Tagging is idempotent: to tag the same identities with the same names a
/// second time leaves the store as the first time left it.
pub proof fn lemma_add_idempotent(s: StoreModel, ids: Seq<INode>, names: Seq<Seq<char>>)
    requires
        s.wf(),
    ensures
        s.after_add(ids, names).after_add(ids, names) == s.after_add(ids, names),
{
    if taggable(ids, names) {
        let once = s.after_add(ids, names);
        let twice = once.after_add(ids, names);
        lemma_add_preserves_wf(s, ids, names);
        lemma_upsert_tags(s.tags, names);
        lemma_upsert_tags_known(once.tags, names);

        lemma_upsert_inodes(s.inodes, ids);
        lemma_upsert_inodes(once.inodes, ids);
        assert forall|i: int| 0 <= i < once.inodes.len() implies twice.inodes[i]
            == once.inodes[i] by {
            lemma_latest_btime_by_object(ids, twice.inodes[i], once.inodes[i]);
        }
        assert(twice.inodes =~= once.inodes);

        lemma_link_inodes(s.relations, once.tags, once.inodes, ids, names);
        lemma_link_inodes_known(once.relations, once.tags, once.inodes, ids, names);
    }
}

/// An identity is among the first `n` selected exactly when one of the first
/// `n` records is that identity and has every one of `names`.
pub proof fn lemma_select_all_contains(s: StoreModel, names: Seq<Seq<char>>, n: nat, x: INode)
    requires
        n <= s.inodes.len(),
    ensures
        s.select_all(names, n).contains(x) <==> exists|i: int|
            0 <= i < n && #[trigger] s.inodes[i] == x && s.has_all(i, names),
    decreases n,
{
    if n > 0 {
        let before = s.select_all(names, (n - 1) as nat);
        let after = s.select_all(names, n);
        lemma_select_all_contains(s, names, (n - 1) as nat, x);
        if after.contains(x) {
            let k = choose|k: int| 0 <= k < after.len() && after[k] == x;
            if k < before.len() {
                assert(before[k] == x);
            } else {
                assert(s.inodes[n - 1] == x && s.has_all(n - 1, names));
            }
        }
        if exists|i: int| 0 <= i < n && #[trigger] s.inodes[i] == x && s.has_all(i, names) {
            let i = choose|i: int| 0 <= i < n && #[trigger] s.inodes[i] == x && s.has_all(i, names);
            if i < n - 1 {
                let k = choose|k: int| 0 <= k < before.len() && before[k] == x;
                assert(after[k] == x);
            } else {
                assert(after[before.len() as int] == x);
            }
        }
    }
}

/// The query for all of some names, none of them missing, finds an identity
/// exactly when the identity has every one of the names: other tags that it
/// has do not keep it out, and one name that it lacks does.
pub proof fn lemma_query_finds_supersets(s: StoreModel, names: Seq<Seq<char>>, record: int)
    requires
        s.wf(),
        names.len() > 0,
        0 <= record < s.inodes.len(),
    ensures
        s.with_all_tags(names).contains(s.inodes[record]) <==> s.has_all(record, names),
{
    let x = s.inodes[record];
    lemma_select_all_contains(s, names, s.inodes.len(), x);
    if s.with_all_tags(names).contains(x) {
        let i = choose|i: int|
            0 <= i < s.inodes.len() && #[trigger] s.inodes[i] == x && s.has_all(i, names);
        lemma_record_index(s.inodes, x, i);
        lemma_record_index(s.inodes, x, record);
    }
}

/// The same in terms of sets: the query finds an identity exactly when the
/// names asked for are a subset of the identity's tags.
pub proof fn lemma_query_is_containment(s: StoreModel, names: Seq<Seq<char>>, record: int)
    requires
        s.wf(),
        names.len() > 0,
        0 <= record < s.inodes.len(),
    ensures
        s.with_all_tags(names).contains(s.inodes[record]) <==> names.to_set().subset_of(
            s.tags_at(record),
        ),
{
    lemma_query_finds_supersets(s, names, record);
    if s.has_all(record, names) {
        assert forall|name: Seq<char>| names.to_set().contains(name) implies s.tags_at(
            record,
        ).contains(name) by {
            let j = choose|j: int| 0 <= j < names.len() && names[j] == name;
            assert(s.tagged(record, names[j]));
        }
    }
    if names.to_set().subset_of(s.tags_at(record)) {
        assert forall|j: int| 0 <= j < names.len() implies s.tagged(
            record,
            #[trigger] names[j],
        ) by {
            assert(s.tags_at(record).contains(names[j]));
        }
    }
}

/// Every identity that the query returns is a record of the store.
pub proof fn lemma_query_finds_records(s: StoreModel, names: Seq<Seq<char>>, x: INode)
    requires
        s.with_all_tags(names).contains(x),
    ensures
        s.inodes.contains(x),
{
    lemma_select_all_contains(s, names, s.inodes.len(), x);
}

/// Whether a record has all of some names depends on which names they are,
/// not on how often or in what order they are given.
pub proof fn lemma_has_all_by_set(s: StoreModel, record: int, a: Seq<Seq<char>>, b: Seq<Seq<char>>)
    requires
        a.to_set() == b.to_set(),
    ensures
        s.has_all(record, a) == s.has_all(record, b),
{
    if s.has_all(record, a) {
        assert forall|j: int| 0 <= j < b.len() implies s.tagged(record, #[trigger] b[j]) by {
            assert(b.to_set().contains(b[j]));
        }
    }
    if s.has_all(record, b) {
        assert forall|j: int| 0 <= j < a.len() implies s.tagged(record, #[trigger] a[j]) by {
            assert(a.to_set().contains(a[j]));
        }
    }
}

/// The selection among the first `n` records depends on the names as a set.
pub proof fn lemma_select_all_by_set(s: StoreModel, a: Seq<Seq<char>>, b: Seq<Seq<char>>, n: nat)
    requires
        a.to_set() == b.to_set(),
    ensures
        s.select_all(a, n) == s.select_all(b, n),
    decreases n,
{
    if n > 0 {
        lemma_select_all_by_set(s, a, b, (n - 1) as nat);
        lemma_has_all_by_set(s, n - 1, a, b);
    }
}

/// The query for all of some names takes the names as a set: a name given
/// twice counts once, and the order of the names does not matter.
pub proof fn lemma_query_ignores_duplicates(s: StoreModel, a: Seq<Seq<char>>, b: Seq<Seq<char>>)
    requires
        a.to_set() == b.to_set(),
    ensures
        s.with_all_tags(a) == s.with_all_tags(b),
{
    if a.len() > 0 {
        assert(b.to_set().contains(a[0]));
    }
    if b.len() > 0 {
        assert(a.to_set().contains(b[0]));
    }
    lemma_select_all_by_set(s, a, b, s.inodes.len());
}

/// The names that the first `n` associations give to a record are the same
/// in two stores of which the second begins with the tags and with the first
/// `n` associations of the first.
pub proof fn lemma_names_linked_extends(s: StoreModel, t: StoreModel, record: int, n: nat)
    requires
        s.wf(),
        extends(t.tags, s.tags),
        extends(t.relations, s.relations),
        n <= s.relations.len(),
    ensures
        t.names_linked(record, n) == s.names_linked(record, n),
    decreases n,
{
    if n > 0 {
        lemma_names_linked_extends(s, t, record, (n - 1) as nat);
    }
}

/// The names that more associations give to a record begin with those that
/// fewer give.
pub proof fn lemma_names_linked_grows(s: StoreModel, record: int, m: nat, n: nat)
    requires
        m <= n,
    ensures
        extends(s.names_linked(record, n), s.names_linked(record, m)),
    decreases n,
{
    if m < n {
        lemma_names_linked_grows(s, record, m, (n - 1) as nat);
    }
}

/// The tags of an object stay in the order in which the object got them:
/// where the object still answers after more tagging, the tags that it showed
/// before come first, in the same order, and the new ones follow.
pub proof fn lemma_add_keeps_tag_order(
    s: StoreModel,
    ids: Seq<INode>,
    names: Seq<Seq<char>>,
    x: INode,
)
    requires
        s.wf(),
        s.after_add(ids, names).resolves(x),
    ensures
        extends(s.after_add(ids, names).tags_of(x), s.tags_of(x)),
{
    let t = s.after_add(ids, names);
    if s.resolves(x) && taggable(ids, names) {
        let i = s.resolved(x);
        let j = t.resolved(x);
        lemma_add_preserves_wf(s, ids, names);
        lemma_upsert_tags(s.tags, names);
        lemma_upsert_inodes(s.inodes, ids);
        lemma_link_inodes(s.relations, t.tags, t.inodes, ids, names);
        lemma_record_index(t.inodes, x, i);
        lemma_record_index(t.inodes, x, j);
        lemma_names_linked_extends(s, t, i, s.relations.len());
        lemma_names_linked_grows(t, i, s.relations.len(), t.relations.len());
    }
}

/// After tagging, every storable identity among those tagged has a record
/// that is associated with every one of the names, provided that none of the
/// names is empty; so the query for all of those names finds that record.
pub proof fn lemma_add_then_query(s: StoreModel, ids: Seq<INode>, names: Seq<Seq<char>>, i: int)
    requires
        s.wf(),
        names.len() > 0,
        forall|j: int| 0 <= j < names.len() ==> (#[trigger] names[j]).len() > 0,
        0 <= i < ids.len(),
        storable(ids[i]),
    ensures
        has_record(s.after_add(ids, names).inodes, ids[i]),
        s.after_add(ids, names).has_all(
            record_index(s.after_add(ids, names).inodes, ids[i]),
            names,
        ),
        s.after_add(ids, names).with_all_tags(names).contains(
            s.after_add(ids, names).inodes[record_index(s.after_add(ids, names).inodes, ids[i])],
        ),
{
    let t = s.after_add(ids, names);
    lemma_add_preserves_wf(s, ids, names);
    lemma_upsert_tags(s.tags, names);
    lemma_upsert_inodes(s.inodes, ids);
    lemma_link_inodes(s.relations, t.tags, t.inodes, ids, names);
    let record = record_index(t.inodes, ids[i]);
    assert forall|j: int| 0 <= j < names.len() implies t.tagged(record, #[trigger] names[j]) by {
        let pair = (t.tags.index_of(names[j]), record);
        let k = choose|k: int| 0 <= k < t.relations.len() && t.relations[k] == pair;
        assert(t.relations[k].1 == record && t.tags[t.relations[k].0] == names[j]);
    }
    lemma_query_finds_supersets(t, names, record);
}

/// Upserting names creates no tag but one of the names.
pub proof fn lemma_upsert_tags_only(tags: Seq<Seq<char>>, names: Seq<Seq<char>>)
    ensures
        forall|k: int|
            tags.len() <= k < upsert_tags(tags, names).len() ==> names.contains(
                #[trigger] upsert_tags(tags, names)[k],
            ),
    decreases names.len(),
{
    if names.len() > 0 {
        let before = upsert_tags(tags, names.drop_last());
        let after = upsert_tags(tags, names);
        lemma_upsert_tags_only(tags, names.drop_last());
        assert forall|k: int| tags.len() <= k < after.len() implies names.contains(
            #[trigger] after[k],
        ) by {
            if k < before.len() {
                let j = choose|j: int|
                    0 <= j < names.drop_last().len() && names.drop_last()[j] == before[k];
                assert(names[j] == after[k]);
            } else {
                assert(names[names.len() - 1] == after[k]);
            }
        }
    }
}

/// Upserting identities creates no record but of the object of one of the
/// identities.
pub proof fn lemma_upsert_inodes_only(records: Seq<INode>, ids: Seq<INode>)
    requires
        records_wf(records),
    ensures
        forall|k: int|
            records.len() <= k < upsert_inodes(records, ids).len() ==> exists|j: int|
                0 <= j < ids.len() && same_object(
                    #[trigger] ids[j],
                    #[trigger] upsert_inodes(records, ids)[k],
                ),
    decreases ids.len(),
{
    if ids.len() > 0 {
        let rest = ids.drop_last();
        let before = upsert_inodes(records, rest);
        let after = upsert_inodes(records, ids);
        lemma_upsert_inodes_only(records, rest);
        lemma_upsert_inodes(records, rest);
        assert forall|k: int| records.len() <= k < after.len() implies exists|j: int|
            0 <= j < ids.len() && same_object(#[trigger] ids[j], #[trigger] after[k]) by {
            if k < before.len() {
                let j = choose|j: int|
                    0 <= j < rest.len() && same_object(#[trigger] rest[j], before[k]);
                assert(same_object(after[k], before[k]));
                assert(same_object(ids[j], after[k]));
            } else {
                assert(same_object(ids[ids.len() - 1], after[k]));
            }
        }
    }
}

/// Whether the pair joins one of `names` that is a tag to the record of one
/// of `ids`.
pub open spec fn asked_for(
    pair: (int, int),
    tags: Seq<Seq<char>>,
    records: Seq<INode>,
    ids: Seq<INode>,
    names: Seq<Seq<char>>,
) -> bool {
    exists|i: int, j: int|
        0 <= i < ids.len() && 0 <= j < names.len() && has_record(records, #[trigger] ids[i])
            && tags.contains(#[trigger] names[j]) && pair == (
            tags.index_of(names[j]),
            record_index(records, ids[i]),
        )
}

/// Whether the pair joins one of `names` that is a tag to the record at
/// `record`.
pub open spec fn asked_of(
    pair: (int, int),
    tags: Seq<Seq<char>>,
    record: int,
    names: Seq<Seq<char>>,
) -> bool {
    exists|j: int|
        0 <= j < names.len() && tags.contains(#[trigger] names[j]) && pair == (
            tags.index_of(names[j]),
            record,
        )
}

/// Linking a record to names creates no association but of that record with
/// one of the names.
pub proof fn lemma_link_tags_only(
    relations: Seq<(int, int)>,
    tags: Seq<Seq<char>>,
    record: int,
    names: Seq<Seq<char>>,
)
    ensures
        extends(link_tags(relations, tags, record, names), relations),
        forall|k: int|
            relations.len() <= k < link_tags(relations, tags, record, names).len() ==> asked_of(
                #[trigger] link_tags(relations, tags, record, names)[k],
                tags,
                record,
                names,
            ),
    decreases names.len(),
{
    if names.len() > 0 {
        let rest = names.drop_last();
        let before = link_tags(relations, tags, record, rest);
        let after = link_tags(relations, tags, record, names);
        lemma_link_tags_only(relations, tags, record, rest);
        assert forall|k: int| relations.len() <= k < after.len() implies asked_of(
            #[trigger] after[k],
            tags,
            record,
            names,
        ) by {
            if k < before.len() {
                let j = choose|j: int|
                    0 <= j < rest.len() && tags.contains(#[trigger] rest[j]) && before[k] == (
                        tags.index_of(rest[j]),
                        record,
                    );
                assert(names[j] == rest[j]);
                assert(after[k] == before[k]);
            } else {
                assert(tags.contains(names[names.len() - 1]));
            }
        }
    }
}

/// Linking identities to names creates no association but of the record of
/// one of the identities with one of the names.
pub proof fn lemma_link_inodes_only(
    relations: Seq<(int, int)>,
    tags: Seq<Seq<char>>,
    records: Seq<INode>,
    ids: Seq<INode>,
    names: Seq<Seq<char>>,
)
    ensures
        extends(link_inodes(relations, tags, records, ids, names), relations),
        forall|k: int|
            relations.len() <= k < link_inodes(relations, tags, records, ids, names).len()
                ==> asked_for(
                #[trigger] link_inodes(relations, tags, records, ids, names)[k],
                tags,
                records,
                ids,
                names,
            ),
    decreases ids.len(),
{
    if ids.len() > 0 {
        let rest = ids.drop_last();
        let x = ids.last();
        let before = link_inodes(relations, tags, records, rest, names);
        let after = link_inodes(relations, tags, records, ids, names);
        lemma_link_inodes_only(relations, tags, records, rest, names);
        if has_record(records, x) {
            lemma_link_tags_only(before, tags, record_index(records, x), names);
        }
        assert forall|k: int| relations.len() <= k < after.len() implies asked_for(
            #[trigger] after[k],
            tags,
            records,
            ids,
            names,
        ) by {
            if k < before.len() {
                let (i, j) = choose|i: int, j: int|
                    0 <= i < rest.len() && 0 <= j < names.len() && has_record(
                        records,
                        #[trigger] rest[i],
                    ) && tags.contains(#[trigger] names[j]) && before[k] == (
                        tags.index_of(names[j]),
                        record_index(records, rest[i]),
                    );
                assert(ids[i] == rest[i]);
                assert(after[k] == before[k]);
            } else {
                assert(asked_of(after[k], tags, record_index(records, x), names));
                assert(has_record(records, ids[ids.len() - 1]));
            }
        }
    }
}

/// Tagging adds only what was asked for: every new tag is one of the names,
/// every new record is of the object of one of the identities, and every new
/// association joins one of the names to the record of one of the
/// identities. What was there stays in its place; of a record only the birth
/// time may change.
pub proof fn lemma_add_adds_only(s: StoreModel, ids: Seq<INode>, names: Seq<Seq<char>>)
    requires
        s.wf(),
    ensures
        extends(s.after_add(ids, names).tags, s.tags),
        forall|k: int|
            s.tags.len() <= k < s.after_add(ids, names).tags.len() ==> names.contains(
                #[trigger] s.after_add(ids, names).tags[k],
            ),
        s.after_add(ids, names).inodes.len() >= s.inodes.len(),
        forall|k: int|
            0 <= k < s.inodes.len() ==> same_object(
                #[trigger] s.after_add(ids, names).inodes[k],
                s.inodes[k],
            ),
        forall|k: int|
            s.inodes.len() <= k < s.after_add(ids, names).inodes.len() ==> exists|j: int|
                0 <= j < ids.len() && same_object(
                    #[trigger] ids[j],
                    #[trigger] s.after_add(ids, names).inodes[k],
                ),
        extends(s.after_add(ids, names).relations, s.relations),
        forall|k: int|
            s.relations.len() <= k < s.after_add(ids, names).relations.len() ==> asked_for(
                #[trigger] s.after_add(ids, names).relations[k],
                s.after_add(ids, names).tags,
                s.after_add(ids, names).inodes,
                ids,
                names,
            ),
{
    if taggable(ids, names) {
        let t = s.after_add(ids, names);
        lemma_upsert_tags(s.tags, names);
        lemma_upsert_tags_only(s.tags, names);
        lemma_upsert_inodes(s.inodes, ids);
        lemma_upsert_inodes_only(s.inodes, ids);
        lemma_link_inodes(s.relations, t.tags, t.inodes, ids, names);
        lemma_link_inodes_only(s.relations, t.tags, t.inodes, ids, names);
    }
}

/// Whether some association is of the tag at `tag`.
pub open spec fn tag_in_use(s: StoreModel, tag: int) -> bool {
    exists|k: int| 0 <= k < s.relations.len() && (#[trigger] s.relations[k]).0 == tag
}

/// Whether some association is of the record at `record`.
pub open spec fn record_in_use(s: StoreModel, record: int) -> bool {
    exists|k: int| 0 <= k < s.relations.len() && (#[trigger] s.relations[k]).1 == record
}

/// Tagging leaves nothing behind without an association: every tag that it
/// creates is associated with a record, and every record that it creates is
/// associated with a tag. A call that would associate nothing creates
/// nothing.
pub proof fn lemma_add_leaves_nothing_unassociated(
    s: StoreModel,
    ids: Seq<INode>,
    names: Seq<Seq<char>>,
)
    requires
        s.wf(),
    ensures
        !taggable(ids, names) ==> s.after_add(ids, names) == s,
        forall|k: int|
            s.tags.len() <= k < s.after_add(ids, names).tags.len() ==> #[trigger] tag_in_use(
                s.after_add(ids, names),
                k,
            ),
        forall|k: int|
            s.inodes.len() <= k < s.after_add(ids, names).inodes.len()
                ==> #[trigger] record_in_use(s.after_add(ids, names), k),
{
    if taggable(ids, names) {
        let t = s.after_add(ids, names);
        let i0 = choose|i: int| 0 <= i < ids.len() && storable(#[trigger] ids[i]);
        let j0 = choose|j: int| 0 <= j < names.len() && (#[trigger] names[j]).len() > 0;
        lemma_add_preserves_wf(s, ids, names);
        lemma_upsert_tags(s.tags, names);
        lemma_upsert_tags_only(s.tags, names);
        lemma_upsert_inodes(s.inodes, ids);
        lemma_upsert_inodes_only(s.inodes, ids);
        lemma_link_inodes(s.relations, t.tags, t.inodes, ids, names);
        assert(has_record(t.inodes, ids[i0]));
        assert(t.tags.contains(names[j0]));
        assert forall|k: int| s.tags.len() <= k < t.tags.len() implies #[trigger] tag_in_use(
            t,
            k,
        ) by {
            let j = choose|j: int| 0 <= j < names.len() && names[j] == t.tags[k];
            assert(t.tags.contains(names[j]));
            assert(t.tags.index_of(names[j]) == k);
            let record = record_index(t.inodes, ids[i0]);
            assert(links_all_tags(t.relations, t.tags, record, names));
            let pair = (k, record);
            let at = choose|at: int| 0 <= at < t.relations.len() && t.relations[at] == pair;
            assert(t.relations[at].0 == k);
        }
        assert forall|k: int| s.inodes.len() <= k < t.inodes.len() implies #[trigger] record_in_use(
            t,
            k,
        ) by {
            let i = choose|i: int|
                0 <= i < ids.len() && same_object(#[trigger] ids[i], #[trigger] t.inodes[k]);
            assert(storable(t.inodes[k]));
            lemma_record_index(t.inodes, ids[i], k);
            assert(links_all_tags(t.relations, t.tags, k, names));
            let pair = (t.tags.index_of(names[j0]), k);
            let at = choose|at: int| 0 <= at < t.relations.len() && t.relations[at] == pair;
            assert(t.relations[at].1 == k);
        }
    }
}

} // verus!
