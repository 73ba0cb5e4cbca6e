//! Tags for filesystem objects, kept by device and inode number rather than
//! by path, so that a tag stays with its object when the object is renamed
//! or moved within its filesystem.
//!
//! [`model`] says what a tag store is and what tagging and the queries mean;
//! [`laws`] proves what follows from that. [`store`] is the store in memory,
//! [`rows`] and [`changes`] are its rows in a database, and [`sql`] reads and
//! writes them. The functions of this module work on a database: each reads
//! the store, asks or changes it in memory, and writes what is new.
//! [`search`] decides what each object met on a walk of the filesystem means;
//! [`opt`] and [`command`] read a command line.

use crate::changes::{can_store, marks_of};
use crate::model::{taggable, StoreModel};
use crate::rows::{stored, to_stored, StoreError};
use crate::store::{any_name, any_storable};
use crate::sql::{begin, commit, load, load_tags, rollback, save, snapshot};
use crate::text::{ascending, names_of, texts_of};
use sqlite3::Connection;
use vstd::prelude::*;

pub mod changes;
pub mod command;
pub mod laws;
pub mod model;
pub mod opt;
pub mod rows;
pub mod search;
pub mod sql;
pub mod store;
pub mod text;

verus! {

/// The identity of a filesystem object: the device it lives on, its inode
/// number on that device and, where the filesystem tells it, its time of
/// birth in seconds since the epoch.
#[derive(Debug, Clone, Copy)]
pub struct INode {
    pub device: u64,
    pub number: u64,
    pub btime: Option<u64>,
}

/// A file known by its content and its place.
pub struct File {
    pub md5: String,
    pub sha256: String,
    pub path: String,
}

/// Tags every one of `inodes` with every one of `tag_names`, in the database
/// behind `connection`.
///
/// With no identities or no names there is nothing to do: the call succeeds
/// and the database is not touched. A call that has both but would associate
/// nothing, because none of the names is a name or none of the identities can
/// have a record, is refused as `Rejected`, again before the database is
/// touched.
///
/// Otherwise the store is read, changed as [`store::TagStore::add`] says, and
/// the rows that [`changes::changes`] names are written, all within one
/// transaction: after a failure the database is as it was. The call succeeds
/// only where the database can keep what tagging added, and fails with
/// `Unstorable` only where it cannot.
pub fn add(connection: &Connection, inodes: &[INode], tag_names: &[&str]) -> (r: Result<
    (),
    StoreError,
>)
    ensures
        inodes@.len() == 0 || tag_names@.len() == 0 ==> r is Ok,
        (r matches Err(e) && e is Rejected) <==> inodes@.len() > 0 && tag_names@.len() > 0
            && !taggable(inodes@, texts_of(tag_names@)),
        r is Ok && taggable(inodes@, texts_of(tag_names@)) ==> exists|s: StoreModel|
            s.wf() && can_store(
                #[trigger] s.after_add(inodes@, texts_of(tag_names@)),
                s.marks(),
            ),
        (r matches Err(e) && e is Unstorable) ==> exists|s: StoreModel|
            s.wf() && !can_store(
                #[trigger] s.after_add(inodes@, texts_of(tag_names@)),
                s.marks(),
            ),
{
    if inodes.len() == 0 || tag_names.len() == 0 {
        return Ok(());
    }
    if !any_storable(inodes) || !any_name(tag_names) {
        return Err(StoreError::Rejected);
    }
    if let Err(e) = begin(connection) {
        return Err(e);
    }
    let done = match add_within(connection, inodes, tag_names) {
        Ok(()) => commit(connection),
        Err(e) => Err(e),
    };
    if done.is_err() {
        let _ = rollback(connection);
    }
    done
}

/// The reading, tagging and writing of [`add`], within the transaction that
/// is open on `connection`: the store is read, tagged, and what is new is
/// written. It succeeds only where the database can keep what tagging added
/// to the store that was read, and fails with `Unstorable` only where it
/// cannot.
fn add_within(connection: &Connection, inodes: &[INode], tag_names: &[&str]) -> (r: Result<
    (),
    StoreError,
>)
    ensures
        r is Ok ==> exists|s: StoreModel|
            s.wf() && can_store(
                #[trigger] s.after_add(inodes@, texts_of(tag_names@)),
                s.marks(),
            ),
        (r matches Err(e) && e is Unstorable) ==> exists|s: StoreModel|
            s.wf() && !can_store(
                #[trigger] s.after_add(inodes@, texts_of(tag_names@)),
                s.marks(),
            ),
        r matches Err(e) ==> !(e is Rejected),
{
    let mut store = match load(connection) {
        Ok(s) => s,
        Err(e) => {
            return Err(e);
        },
    };
    let marks = marks_of(&store);
    store.add(inodes, tag_names);
    save(connection, &store, marks, inodes)
}

/// The identities that have every one of `tag_names`, as the database behind
/// `connection` has them: what [`store::TagStore::get_inodes`] answers on the
/// store read from it. It fails where the reading fails or the database
/// holds no store.
pub fn get_inodes(connection: &Connection, tag_names: &[&str]) -> (r: Result<
    Vec<INode>,
    StoreError,
>)
    ensures
        r matches Ok(v) ==> exists|s: StoreModel|
            s.wf() && v@ == #[trigger] s.with_all_tags(texts_of(tag_names@)),
        r matches Err(e) ==> e is Database || e is Corrupt,
{
    match snapshot(connection) {
        Ok(store) => Ok(store.get_inodes(tag_names)),
        Err(e) => Err(e),
    }
}

/// The inode numbers, as the database keeps them, of the identities that
/// have at least one of `tag_names`. It fails where the reading fails or the
/// database holds no store.
pub fn get_inodenums(connection: &Connection, tag_names: &[&str]) -> (r: Result<
    Vec<i64>,
    StoreError,
>)
    ensures
        r matches Ok(v) ==> exists|s: StoreModel|
            {
                let numbers = #[trigger] s.select_any(texts_of(tag_names@), s.inodes.len());
                &&& s.wf()
                &&& v@.len() == numbers.len()
                &&& forall|i: int| 0 <= i < v@.len() ==> (#[trigger] v@[i]) == stored(numbers[i])
            },
        r matches Err(e) ==> e is Database || e is Corrupt,
{
    match snapshot(connection) {
        Ok(store) => {
            let numbers = store.get_inodenums(tag_names);
            let mut v: Vec<i64> = Vec::new();
            let mut i: usize = 0;
            while i < numbers.len()
                invariant
                    i <= numbers.len(),
                    v@.len() == i,
                    forall|j: int| 0 <= j < i ==> (#[trigger] v@[j]) == stored(numbers@[j]),
                decreases numbers.len() - i,
            {
                v.push(to_stored(numbers[i]));
                i += 1;
            }
            Ok(v)
        },
        Err(e) => Err(e),
    }
}

/// Every tag name in the database behind `connection`, each once, in
/// ascending order of their bytes. It fails where the reading fails or the
/// database holds no tags of a store.
pub fn list_tags(connection: &Connection) -> (r: Result<Vec<String>, StoreError>)
    ensures
        r matches Ok(v) ==> ascending(names_of(v@)) && exists|s: StoreModel|
            s.wf() && names_of(v@).to_multiset() == #[trigger] s.tags.to_multiset(),
        r matches Err(e) ==> e is Database || e is Corrupt,
{
    match load_tags(connection) {
        Ok(store) => Ok(store.list_tags()),
        Err(e) => Err(e),
    }
}

/// The tags of the object that `inode` names, in the order in which the
/// object got them, as the database behind `connection` has them: what
/// [`store::TagStore::get_tags`] answers on the store read from it. It fails
/// where the reading fails or the database holds no store.
pub fn get_tags(connection: &Connection, inode: INode) -> (r: Result<Vec<String>, StoreError>)
    ensures
        r matches Ok(v) ==> exists|s: StoreModel|
            s.wf() && names_of(v@) == #[trigger] s.tags_of(inode),
        r matches Err(e) ==> e is Database || e is Corrupt,
{
    match snapshot(connection) {
        Ok(store) => Ok(store.get_tags(inode)),
        Err(e) => Err(e),
    }
}

} // verus!
