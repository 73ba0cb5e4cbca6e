//! Matching a walk of the filesystem against a set of tagged identities.
//!
//! The walk itself, with its reading of metadata and directories, belongs to
//! the caller. What is decided here is what each visited object means: whether
//! it was seen before, whether it is one of the identities looked for, and
//! whether the walk goes down into it.

use crate::text::names_of;
use crate::INode;
use std::collections::HashMap;
use vstd::prelude::*;

verus! {

/// Whether every key is of an object on one of the devices.
pub open spec fn keys_on_devices<V>(entries: Map<(u64, u64), V>, devices: Set<u64>) -> bool {
    forall|k: (u64, u64)| #[trigger] entries.contains_key(k) ==> devices.contains(k.0)
}

/// Values kept by device and inode number.
pub struct ByObject<V> {
    by_device: HashMap<u64, HashMap<u64, V>>,
}

impl<V> ByObject<V> {
    /// The values, by device and inode number.
    pub closed spec fn entries(&self) -> Map<(u64, u64), V> {
        Map::new(
            |k: (u64, u64)|
                self.by_device@.contains_key(k.0) && self.by_device@[k.0]@.contains_key(k.1),
            |k: (u64, u64)| self.by_device@[k.0]@[k.1],
        )
    }

    /// The devices for which a value was ever kept.
    pub closed spec fn devices(&self) -> Set<u64> {
        self.by_device@.dom()
    }

    /// Every value is kept for an object on one of the devices. This holds
    /// of whatever is kept by object.
    pub proof fn lemma_keys_on_devices(&self)
        ensures
            keys_on_devices(self.entries(), self.devices()),
    {
    }

    pub fn new() -> (r: Self)
        ensures
            r.entries() == Map::<(u64, u64), V>::empty(),
            r.devices() == Set::<u64>::empty(),
    {
        let r = ByObject { by_device: HashMap::new() };
        r
    }

    /// Keeps `value` for the object; a value kept for it before is replaced.
    /// The object's device is then among the devices, as that of every object
    /// for which a value is kept.
    pub fn insert(&mut self, device: u64, number: u64, value: V)
        ensures
            final(self).entries() == old(self).entries().insert((device, number), value),
            final(self).devices() == old(self).devices().insert(device),
            keys_on_devices(final(self).entries(), final(self).devices()),
    {
        let mut inner = match self.by_device.remove(&device) {
            Some(m) => m,
            None => HashMap::new(),
        };
        inner.insert(number, value);
        self.by_device.insert(device, inner);
        proof {
            self.lemma_keys_on_devices();
        }
    }

    /// The value kept for the object, if there is one.
    pub fn get(&self, device: u64, number: u64) -> (r: Option<&V>)
        ensures
            match r {
                Some(v) => self.entries().contains_key((device, number)) && self.entries()[(
                    device,
                    number,
                )] == *v,
                None => !self.entries().contains_key((device, number)),
            },
    {
        match self.by_device.get(&device) {
            Some(inner) => inner.get(&number),
            None => None,
        }
    }

    /// Whether a value was ever kept for an object on `device`.
    pub fn has_device(&self, device: u64) -> (r: bool)
        ensures
            r == self.devices().contains(device),
    {
        self.by_device.contains_key(&device)
    }
}

/// The identities by device and inode number; of two of the same object the
/// later one stands.
pub open spec fn indexed(ids: Seq<INode>) -> Map<(u64, u64), INode>
    decreases ids.len(),
{
    if ids.len() == 0 {
        Map::empty()
    } else {
        indexed(ids.drop_last()).insert((ids.last().device, ids.last().number), ids.last())
    }
}

/// The devices on which the identities lie.
pub open spec fn devices_of(ids: Seq<INode>) -> Set<u64> {
    Set::new(|d: u64| exists|i: int| 0 <= i < ids.len() && (#[trigger] ids[i]).device == d)
}

/// The index of a query's result: from device and inode number to the
/// identity found.
pub fn index_inodes(inodes: &[INode]) -> (r: ByObject<INode>)
    ensures
        r.entries() == indexed(inodes@),
        r.devices() == devices_of(inodes@),
        keys_on_devices(r.entries(), r.devices()),
{
    let mut index: ByObject<INode> = ByObject::new();
    let ghost ids = inodes@;
    let mut i: usize = 0;
    while i < inodes.len()
        invariant
            i <= inodes.len(),
            ids == inodes@,
            index.entries() == indexed(ids.take(i as int)),
            index.devices() == devices_of(ids.take(i as int)),
        decreases inodes.len() - i,
    {
        let x = inodes[i];
        proof {
            let before = ids.take(i as int);
            let after = ids.take(i + 1);
            assert(after.drop_last() =~= before);
            assert(devices_of(after) =~= devices_of(before).insert(x.device)) by {
                assert forall|d: u64| devices_of(before).insert(x.device).contains(
                    d,
                ) implies devices_of(after).contains(d) by {
                    if d == x.device {
                        assert(after[i as int].device == d);
                    }
                }
            }
        }
        index.insert(x.device, x.number, x);
        i += 1;
    }
    assert(ids.take(inodes.len() as int) =~= ids);
    proof {
        index.lemma_keys_on_devices();
    }
    index
}

/// What the filesystem tells of an object, read without following a symbolic
/// link.
#[derive(Debug, Clone, Copy)]
pub struct Metadata {
    pub device: u64,
    pub number: u64,
    pub btime: Option<u64>,
    pub is_dir: bool,
    pub is_symlink: bool,
}

/// The guard against an inode number that was given to a new object: a
/// stored birth time and a fresh one speak of the same object unless both are
/// known and differ.
pub open spec fn birth_agrees(stored: Option<u64>, fresh: Option<u64>) -> bool {
    stored is None || fresh is None || stored == fresh
}

/// Whether a stored birth time and a freshly read one can be of the same
/// object.
pub fn birth_matches(stored: Option<u64>, fresh: Option<u64>) -> (r: bool)
    ensures
        r == birth_agrees(stored, fresh),
{
    match stored {
        None => true,
        Some(s) => match fresh {
            None => true,
            Some(f) => s == f,
        },
    }
}

/// The paths that stand for the values of a map.
pub open spec fn paths_of(m: Map<(u64, u64), String>) -> Map<(u64, u64), Seq<char>> {
    Map::new(|k: (u64, u64)| m.contains_key(k), |k: (u64, u64)| m[k]@)
}

/// The state of a walk.
pub struct WalkView {
    /// The identities looked for, by device and inode number.
    pub index: Map<(u64, u64), INode>,
    /// The devices on which identities are looked for.
    pub devices: Set<u64>,
    /// Whether the walk goes down into directories on other devices.
    pub cross_device: bool,
    /// Where an object is reported once only: the path at which each object
    /// was first visited.
    pub seen: Option<Map<(u64, u64), Seq<char>>>,
    /// The paths still to visit; the last one comes next.
    pub pending: Seq<Seq<char>>,
}

/// What a visit means.
pub struct VisitView {
    pub duplicate_of: Option<Seq<char>>,
    pub hit: bool,
    pub descend: bool,
}

impl WalkView {
    /// What holds of every walk: each identity looked for lies on one of the
    /// devices on which identities are looked for.
    pub open spec fn wf(self) -> bool {
        keys_on_devices(self.index, self.devices)
    }

    /// The path at which the object was first visited, where the walk keeps
    /// track and the object was visited before.
    pub open spec fn first_seen(self, meta: Metadata) -> Option<Seq<char>> {
        match self.seen {
            Some(seen) => if seen.contains_key((meta.device, meta.number)) {
                Some(seen[(meta.device, meta.number)])
            } else {
                None
            },
            None => None,
        }
    }

    /// The object is reported when it was not visited before, an identity
    /// looked for has its device and inode number, and the birth times
    /// agree.
    pub open spec fn hits(self, meta: Metadata) -> bool {
        &&& self.first_seen(meta) is None
        &&& self.index.contains_key((meta.device, meta.number))
        &&& birth_agrees(self.index[(meta.device, meta.number)].btime, meta.btime)
    }

    /// The walk goes down into an object that was not visited before and is a
    /// directory, not a symbolic link; one on a device where nothing is
    /// looked for only if the walk crosses devices.
    pub open spec fn descends(self, meta: Metadata) -> bool {
        &&& self.first_seen(meta) is None
        &&& meta.is_dir
        &&& !meta.is_symlink
        &&& (self.cross_device || self.devices.contains(meta.device))
    }

    /// What the visit of an object means.
    pub open spec fn verdict(self, meta: Metadata) -> VisitView {
        VisitView {
            duplicate_of: self.first_seen(meta),
            hit: self.hits(meta),
            descend: self.descends(meta),
        }
    }

    /// The walk after the visit of an object at `path`: where it keeps track,
    /// it remembers the path of an object not visited before.
    pub open spec fn after_visit(self, path: Seq<char>, meta: Metadata) -> WalkView {
        WalkView {
            seen: match self.seen {
                Some(seen) => if seen.contains_key((meta.device, meta.number)) {
                    Some(seen)
                } else {
                    Some(seen.insert((meta.device, meta.number), path))
                },
                None => None,
            },
            ..self
        }
    }
}

/// What a visit means: the path at which the object was first visited, if it
/// was visited before; whether the object is a match to report; and whether
/// the walk goes down into it.
pub struct Visit {
    pub duplicate_of: Option<String>,
    pub hit: bool,
    pub descend: bool,
}

impl View for Visit {
    type V = VisitView;

    open spec fn view(&self) -> VisitView {
        VisitView {
            duplicate_of: match self.duplicate_of {
                Some(p) => Some(p@),
                None => None,
            },
            hit: self.hit,
            descend: self.descend,
        }
    }
}

/// A walk of the filesystem, depth first, that looks for a set of
/// identities.
pub struct Walk {
    index: ByObject<INode>,
    cross_device: bool,
    suppress: bool,
    seen: ByObject<String>,
    pending: Vec<String>,
}

impl View for Walk {
    type V = WalkView;

    closed spec fn view(&self) -> WalkView {
        WalkView {
            index: self.index.entries(),
            devices: self.index.devices(),
            cross_device: self.cross_device,
            seen: if self.suppress {
                Some(paths_of(self.seen.entries()))
            } else {
                None
            },
            pending: names_of(self.pending@),
        }
    }
}

impl Walk {
    /// Each identity that a walk looks for lies on one of the devices on
    /// which it looks for identities.
    pub proof fn lemma_wf(&self)
        ensures
            self@.wf(),
    {
        self.index.lemma_keys_on_devices();
    }

    /// A walk that starts at `root` and looks for the identities in `index`.
    /// It goes down into directories on devices where nothing is looked for
    /// only with `cross_device`, and reports an object at every path that
    /// leads to it only with `allow_duplicates`.
    pub fn new(
        index: ByObject<INode>,
        root: &str,
        cross_device: bool,
        allow_duplicates: bool,
    ) -> (r: Walk)
        ensures
            r@ == (WalkView {
                index: index.entries(),
                devices: index.devices(),
                cross_device,
                seen: if allow_duplicates {
                    None
                } else {
                    Some(Map::empty())
                },
                pending: seq![root@],
            }),
            r@.wf(),
    {
        let mut pending: Vec<String> = Vec::new();
        pending.push(root.to_owned());
        let r = Walk {
            index,
            cross_device,
            suppress: !allow_duplicates,
            seen: ByObject::new(),
            pending,
        };
        assert(r@.pending =~= seq![root@]);
        assert(paths_of(r.seen.entries()) =~= Map::empty());
        proof {
            r.lemma_wf();
        }
        r
    }

    /// The path to visit next, which then is no longer pending; none when the
    /// walk is over.
    pub fn next_path(&mut self) -> (r: Option<String>)
        ensures
            match r {
                Some(p) => old(self)@.pending.len() > 0 && p@ == old(self)@.pending.last()
                    && final(self)@ == (WalkView {
                    pending: old(self)@.pending.drop_last(),
                    ..old(self)@
                }),
                None => old(self)@.pending.len() == 0 && final(self)@ == old(self)@,
            },
            final(self)@.wf(),
    {
        proof {
            self.lemma_wf();
        }
        let r = self.pending.pop();
        proof {
            if r is Some {
                assert(names_of(self.pending@) =~= names_of(old(self).pending@).drop_last());
            }
        }
        r
    }

    /// Takes note of the entries of a directory: they are visited next, in
    /// the order given, before what was pending.
    pub fn push_entries(&mut self, entries: Vec<String>)
        ensures
            final(self)@ == (WalkView {
                pending: old(self)@.pending + names_of(entries@).reverse(),
                ..old(self)@
            }),
            final(self)@.wf(),
    {
        proof {
            self.lemma_wf();
        }
        let ghost all = names_of(entries@);
        let mut rest = entries;
        assert(names_of(self.pending@) =~= old(self)@.pending + all.skip(
            all.len() as int,
        ).reverse());
        while rest.len() > 0
            invariant
                rest@.len() <= all.len(),
                names_of(rest@) == all.take(rest@.len() as int),
                self.index == old(self).index,
                self.cross_device == old(self).cross_device,
                self.suppress == old(self).suppress,
                self.seen == old(self).seen,
                names_of(self.pending@) == old(self)@.pending + all.skip(
                    rest@.len() as int,
                ).reverse(),
            decreases rest.len(),
        {
            let ghost n = rest@.len() as int;
            let ghost before = names_of(self.pending@);
            let ghost shorter = names_of(rest@);
            let e = rest.pop().unwrap();
            assert(e@ == shorter[n - 1]);
            self.pending.push(e);
            assert(names_of(rest@) =~= all.take(n - 1));
            assert(names_of(self.pending@) =~= before.push(all[n - 1]));
            assert(all.skip(n - 1).reverse() =~= all.skip(n).reverse().push(all[n - 1]));
        }
        assert(all.skip(0) =~= all);
    }

    /// Decides what the object found at `path` means for the walk.
    ///
    /// Where the walk reports each object once only and the object was
    /// visited before, the visit is a duplicate: the answer names the earlier
    /// path, and the object is neither reported nor gone into. Otherwise the
    /// object is a hit when an identity looked for has its device and inode
    /// number and the birth times agree: a stored birth time and a fresh one
    /// that are both known and differ are of two objects, of which the later
    /// got the inode number of the earlier. The walk goes down into a
    /// directory that is no symbolic link; into one on a device where nothing
    /// is looked for only if it crosses devices.
    pub fn visit(&mut self, path: &str, meta: &Metadata) -> (r: Visit)
        ensures
            r@ == old(self)@.verdict(*meta),
            final(self)@ == old(self)@.after_visit(path@, *meta),
            old(self)@.wf(),
            final(self)@.wf(),
    {
        proof {
            self.lemma_wf();
        }
        if self.suppress {
            match self.seen.get(meta.device, meta.number) {
                Some(first) => {
                    return Visit { duplicate_of: Some(first.clone()), hit: false, descend: false };
                },
                None => {},
            }
            let ghost before = paths_of(self.seen.entries());
            self.seen.insert(meta.device, meta.number, path.to_owned());
            assert(paths_of(self.seen.entries()) =~= before.insert(
                (meta.device, meta.number),
                path@,
            ));
        }
        let hit = match self.index.get(meta.device, meta.number) {
            Some(record) => birth_matches(record.btime, meta.btime),
            None => false,
        };
        let descend = meta.is_dir && !meta.is_symlink && (self.cross_device
            || self.index.has_device(meta.device));
        Visit { duplicate_of: None, hit, descend }
    }
}

/// The guard against an inode number that was given to a new object: an
/// object whose birth time is known and is not the one stored for its device
/// and inode number is not reported; and one that was not visited before is
/// reported whenever one of the two birth times is not known.
pub proof fn lemma_birth_time_guard(w: WalkView, meta: Metadata)
    requires
        w.index.contains_key((meta.device, meta.number)),
    ensures
        w.index[(meta.device, meta.number)].btime is Some && meta.btime is Some && w.index[(
            meta.device,
            meta.number,
        )].btime != meta.btime ==> !w.hits(meta),
        w.first_seen(meta) is None && (w.index[(meta.device, meta.number)].btime is None
            || meta.btime is None) ==> w.hits(meta),
{
}

/// Where the walk reports each object once only, the second visit of an
/// object is a duplicate of the first, at whatever path it is found: it names
/// the first path, is no hit and is not gone into.
pub proof fn lemma_second_visit_is_duplicate(
    w: WalkView,
    first: Seq<char>,
    meta: Metadata,
    again: Metadata,
)
    requires
        w.seen is Some,
        w.first_seen(meta) is None,
        again.device == meta.device,
        again.number == meta.number,
    ensures
        w.after_visit(first, meta).verdict(again) == (VisitView {
            duplicate_of: Some(first),
            hit: false,
            descend: false,
        }),
{
}

/// A walk that reports an object at every path never takes a visit for a
/// duplicate.
pub proof fn lemma_no_duplicates_without_track(w: WalkView, path: Seq<char>, meta: Metadata)
    requires
        w.seen is None,
    ensures
        w.verdict(meta).duplicate_of is None,
        w.after_visit(path, meta) == w,
{
}

/// Nothing is reported on a device where nothing is looked for: a hit is an
/// object on one of the devices of the walk.
pub proof fn lemma_hits_on_devices(w: WalkView, meta: Metadata)
    requires
        w.wf(),
    ensures
        w.hits(meta) ==> w.devices.contains(meta.device),
{
    if w.hits(meta) {
        assert(w.index.contains_key((meta.device, meta.number)));
    }
}

} // verus!
