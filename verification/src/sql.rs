//! The tag store on disk, in an SQLite database of three tables: `tags`,
//! `identities` and `associations`.
//!
//! What the database gives back is taken for what it is: rows of any shape.
//! Which rows are a store's is for [`crate::rows`] to say, and a database
//! that holds others is refused.

use crate::changes::{
    all_bindable, bindable, can_store, changes, plan_of, writes_of, Marks, Write, WriteModel,
};
use crate::rows::{assemble, stored, to_stored, Cell, StoreError, MAX_TEXT};
use crate::store::TagStore;
use crate::INode;
use sqlite3::Connection;
use sqlite3::Statement;
use vstd::prelude::*;
use vstd::utf8::encode_utf8;

verus! {

/// A connection to an SQLite database, as the `sqlite3` crate has it. Nothing
/// is known of what is behind it.
#[verifier::external_type_specification]
#[verifier::external_body]
pub struct ExConnection(sqlite3::Connection);

/// A prepared statement of the `sqlite3` crate.
#[verifier::external_type_specification]
#[verifier::external_body]
pub struct ExStatement<'l>(sqlite3::Statement<'l>);

/// An error of the `sqlite3` crate.
#[verifier::external_type_specification]
#[verifier::external_body]
pub struct ExError(sqlite3::Error);

/// A value bound to a parameter of a statement.
#[derive(Debug)]
pub enum Param<'a> {
    Null,
    Integer(i64),
    Text(&'a str),
}

/// A parameter, with its text as a sequence of characters.
pub enum ParamModel {
    Null,
    Integer(int),
    Text(Seq<char>),
}

impl<'a> View for Param<'a> {
    type V = ParamModel;

    open spec fn view(&self) -> ParamModel {
        match self {
            Param::Null => ParamModel::Null,
            Param::Integer(n) => ParamModel::Integer(*n as int),
            Param::Text(t) => ParamModel::Text(t@),
        }
    }
}

/// The parameters of a statement.
pub open spec fn params_of(v: Seq<Param<'_>>) -> Seq<ParamModel> {
    Seq::new(v.len(), |i: int| v[i]@)
}

/// Whether the parameter can be handed to the database: a text has no more
/// than `MAX_TEXT` bytes.
pub open spec fn fits(p: ParamModel) -> bool {
    p matches ParamModel::Text(t) ==> encode_utf8(t).len() <= MAX_TEXT
}

/// `sqlite3::open`: opens the database at `path`, which is created if it is
/// not there. Nothing is claimed of what comes back.
#[verifier::external_body]
fn open(path: &str) -> Result<Connection, sqlite3::Error> {
    sqlite3::open(path)
}

/// `Connection::execute`: runs the statements in `statement` and drops their
/// rows. Nothing is claimed of what comes back.
#[verifier::external_body]
fn execute(connection: &Connection, statement: &str) -> Result<(), sqlite3::Error> {
    connection.execute(statement)
}

/// `Connection::prepare`: compiles the first statement in `statement`.
/// Nothing is claimed of what comes back.
#[verifier::external_body]
fn prepare<'l>(connection: &'l Connection, statement: &str) -> Result<
    Statement<'l>,
    sqlite3::Error,
> {
    connection.prepare(statement)
}

/// `Statement::bind`, with a `Value` of the crate: binds `value` to the
/// parameter at `i`. The parameters are counted from one, and the crate
/// asserts that `i` is not zero. The crate hands the length of a text to
/// SQLite as a C `int`, so a text may have no more than `MAX_TEXT` bytes.
/// Nothing is claimed of what comes back.
#[verifier::external_body]
fn bind(statement: &mut Statement, i: usize, value: &Param) -> Result<(), sqlite3::Error>
    requires
        i > 0,
        fits(value@),
{
    let value = match value {
        Param::Null => sqlite3::Value::Null,
        Param::Integer(n) => sqlite3::Value::Integer(*n),
        Param::Text(t) => sqlite3::Value::String(t.to_string()),
    };
    statement.bind(i, &value)
}

/// `Statement::next`: takes the statement one step on; `true` where a row is
/// there to read, `false` where the statement is done. Nothing is claimed of
/// which it is.
#[verifier::external_body]
fn step(statement: &mut Statement) -> Result<bool, sqlite3::Error> {
    match statement.next() {
        Ok(sqlite3::State::Row) => Ok(true),
        Ok(sqlite3::State::Done) => Ok(false),
        Err(e) => Err(e),
    }
}

/// `Statement::read`, for a `Value` of the crate: the value in the column at
/// `i` of the current row; the columns are counted from zero. The crate takes
/// the column's type for one of SQLite's five, as SQLite promises. Nothing is
/// claimed of the value.
#[verifier::external_body]
fn column(statement: &Statement, i: usize) -> Result<Cell, sqlite3::Error> {
    match statement.read::<sqlite3::Value>(i) {
        Ok(sqlite3::Value::Null) => Ok(Cell::Null),
        Ok(sqlite3::Value::Integer(n)) => Ok(Cell::Integer(n)),
        Ok(sqlite3::Value::String(s)) => Ok(Cell::Text(s)),
        Ok(sqlite3::Value::Binary(b)) => Ok(Cell::Blob(b)),
        Ok(sqlite3::Value::Float(_)) => Ok(Cell::Real),
        Err(e) => Err(e),
    }
}

/// The code and the message of an error of the `sqlite3` crate: its two
/// fields.
#[verifier::external_body]
fn error_parts(e: sqlite3::Error) -> (Option<isize>, Option<String>) {
    (e.code, e.message)
}

/// The library's error for an error of the database, of which `parts` are
/// the code and the message.
fn database_error(parts: (Option<isize>, Option<String>)) -> (r: StoreError)
    ensures
        r == (StoreError::Database { code: parts.0, message: parts.1 }),
{
    StoreError::Database { code: parts.0, message: parts.1 }
}

/// Runs a statement that gives no rows, with `params` bound to its
/// parameters in their order. Whether it succeeds is for the database to
/// say; where it fails, the error is the database's.
fn run(connection: &Connection, statement: &str, params: &Vec<Param>) -> (r: Result<
    (),
    StoreError,
>)
    requires
        forall|i: int| 0 <= i < params@.len() ==> fits(#[trigger] params_of(params@)[i]),
    ensures
        r matches Err(e) ==> e is Database,
{
    let mut prepared = match prepare(connection, statement) {
        Ok(p) => p,
        Err(e) => {
            return Err(database_error(error_parts(e)));
        },
    };
    let mut i: usize = 0;
    while i < params.len()
        invariant
            i <= params.len(),
            forall|i: int| 0 <= i < params@.len() ==> fits(#[trigger] params_of(params@)[i]),
        decreases params.len() - i,
    {
        assert(fits(params_of(params@)[i as int]));
        if let Err(e) = bind(&mut prepared, i + 1, &params[i]) {
            return Err(database_error(error_parts(e)));
        }
        i += 1;
    }
    match step(&mut prepared) {
        Ok(_) => Ok(()),
        Err(e) => Err(database_error(error_parts(e))),
    }
}

/// The rows that a statement without parameters gives, each with its first
/// `columns` columns. Where it fails, the error is the database's, or
/// `Corrupt` for more rows than a vector holds.
fn query(connection: &Connection, statement: &str, columns: usize) -> (r: Result<
    Vec<Vec<Cell>>,
    StoreError,
>)
    ensures
        r matches Ok(rows) ==> forall|i: int|
            0 <= i < rows@.len() ==> (#[trigger] rows@[i])@.len() == columns,
        r matches Err(e) ==> e is Database || e is Corrupt,
{
    let mut prepared = match prepare(connection, statement) {
        Ok(p) => p,
        Err(e) => {
            return Err(database_error(error_parts(e)));
        },
    };
    let mut rows: Vec<Vec<Cell>> = Vec::new();
    while rows.len() < usize::MAX
        invariant
            forall|i: int| 0 <= i < rows@.len() ==> (#[trigger] rows@[i])@.len() == columns,
        decreases usize::MAX - rows.len(),
    {
        match step(&mut prepared) {
            Ok(true) => {},
            Ok(false) => {
                return Ok(rows);
            },
            Err(e) => {
                return Err(database_error(error_parts(e)));
            },
        }
        let mut row: Vec<Cell> = Vec::new();
        let mut c: usize = 0;
        while c < columns
            invariant
                c <= columns,
                row@.len() == c,
            decreases columns - c,
        {
            match column(&prepared, c) {
                Ok(cell) => row.push(cell),
                Err(e) => {
                    return Err(database_error(error_parts(e)));
                },
            }
            c += 1;
        }
        rows.push(row);
    }
    Err(StoreError::Corrupt)
}

/// Opens the database in the file `db_file` and creates in it the tables of
/// a tag store that are not there yet. Where that fails, the error is the
/// database's.
pub fn init(db_file: &str) -> (r: Result<Connection, StoreError>)
    ensures
        r matches Err(e) ==> e is Database,
{
    let connection = match open(db_file) {
        Ok(c) => c,
        Err(e) => {
            return Err(database_error(error_parts(e)));
        },
    };
    let created = execute(
        &connection,
        "
        CREATE TABLE IF NOT EXISTS tags (
            id INTEGER PRIMARY KEY,
            name TEXT NOT NULL,
            UNIQUE(name),
            CHECK(name <> '')
        );
        CREATE TABLE IF NOT EXISTS identities (
            id INTEGER PRIMARY KEY,
            device INTEGER NOT NULL,
            number INTEGER NOT NULL,
            birth_time INTEGER,
            UNIQUE(device, number),
            CHECK(device <> 0 AND number <> 0)
        );
        CREATE TABLE IF NOT EXISTS associations (
            id INTEGER PRIMARY KEY,
            tag_id INTEGER NOT NULL,
            identity_id INTEGER NOT NULL,
            UNIQUE(tag_id, identity_id),
            CHECK(tag_id <> 0 AND identity_id <> 0)
        );
        ",
    );
    match created {
        Ok(()) => Ok(connection),
        Err(e) => Err(database_error(error_parts(e))),
    }
}

/// Begins a transaction that may write. Where that fails, the error is the
/// database's.
pub(crate) fn begin(connection: &Connection) -> (r: Result<(), StoreError>)
    ensures
        r matches Err(e) ==> e is Database,
{
    match execute(connection, "BEGIN IMMEDIATE") {
        Ok(()) => Ok(()),
        Err(e) => Err(database_error(error_parts(e))),
    }
}

/// Makes what the transaction wrote last. Where that fails, the error is the
/// database's.
pub(crate) fn commit(connection: &Connection) -> (r: Result<(), StoreError>)
    ensures
        r matches Err(e) ==> e is Database,
{
    match execute(connection, "COMMIT") {
        Ok(()) => Ok(()),
        Err(e) => Err(database_error(error_parts(e))),
    }
}

/// Undoes what the transaction wrote. Where that fails, the error is the
/// database's.
pub(crate) fn rollback(connection: &Connection) -> (r: Result<(), StoreError>)
    ensures
        r matches Err(e) ==> e is Database,
{
    match execute(connection, "ROLLBACK") {
        Ok(()) => Ok(()),
        Err(e) => Err(database_error(error_parts(e))),
    }
}

/// Reads the store from the database, table by table. Within a transaction
/// the three tables are read as they are at one moment. Where the reading
/// fails, the error is the database's; where the rows make no store, it is
/// `Corrupt`.
pub fn load(connection: &Connection) -> (r: Result<TagStore, StoreError>)
    ensures
        r matches Ok(s) ==> s.wf(),
        r matches Err(e) ==> e is Database || e is Corrupt,
{
    let tags = match query(connection, "SELECT id, name FROM tags ORDER BY id", 2) {
        Ok(rows) => rows,
        Err(e) => {
            return Err(e);
        },
    };
    let inodes = match query(
        connection,
        "SELECT id, device, number, birth_time FROM identities ORDER BY id",
        4,
    ) {
        Ok(rows) => rows,
        Err(e) => {
            return Err(e);
        },
    };
    let relations = match query(
        connection,
        "SELECT tag_id, identity_id FROM associations ORDER BY id",
        2,
    ) {
        Ok(rows) => rows,
        Err(e) => {
            return Err(e);
        },
    };
    assemble(&tags, &inodes, &relations)
}

/// Reads the store from the database as it is at one moment: the three
/// tables are read within one transaction, which then ends.
pub(crate) fn snapshot(connection: &Connection) -> (r: Result<TagStore, StoreError>)
    ensures
        r matches Ok(s) ==> s.wf(),
        r matches Err(e) ==> e is Database || e is Corrupt,
{
    if let Err(e) = execute(connection, "BEGIN") {
        return Err(database_error(error_parts(e)));
    }
    let r = load(connection);
    let _ = execute(connection, "ROLLBACK");
    r
}

/// Reads the tags from the database, and nothing else: a store without
/// identities.
pub(crate) fn load_tags(connection: &Connection) -> (r: Result<TagStore, StoreError>)
    ensures
        r matches Ok(s) ==> s.wf() && s@.inodes.len() == 0 && s@.relations.len() == 0,
        r matches Err(e) ==> e is Database || e is Corrupt,
{
    let tags = match query(connection, "SELECT id, name FROM tags ORDER BY id", 2) {
        Ok(rows) => rows,
        Err(e) => {
            return Err(e);
        },
    };
    let none: Vec<Vec<Cell>> = Vec::new();
    assemble(&tags, &none, &none)
}

/// The statement that writes a row, with its parameters marked by `?`.
pub open spec fn statement_for(w: WriteModel) -> Seq<char> {
    match w {
        WriteModel::Tag { .. } => "INSERT INTO tags (id, name) VALUES (?, ?)"@,
        WriteModel::Identity { .. } =>
            "INSERT INTO identities (id, device, number, birth_time) VALUES (?, ?, ?, ?)"@,
        WriteModel::BirthTime { .. } => "UPDATE identities SET birth_time = ? WHERE id = ?"@,
        WriteModel::Association { .. } =>
            "INSERT INTO associations (tag_id, identity_id) VALUES (?, ?)"@,
    }
}

/// The parameter for a birth time: the integer that the database keeps for
/// the number, or nothing where the birth time is not known.
pub open spec fn birth_for(btime: Option<u64>) -> ParamModel {
    match btime {
        Some(b) => ParamModel::Integer(stored(b) as int),
        None => ParamModel::Null,
    }
}

/// The parameters of the statement that writes a row, in the order of its
/// marks. Device, inode number and birth time go as the integers that the
/// database keeps for them.
pub open spec fn params_for(w: WriteModel) -> Seq<ParamModel> {
    match w {
        WriteModel::Tag { id, name } => seq![ParamModel::Integer(id), ParamModel::Text(name)],
        WriteModel::Identity { id, inode } => seq![
            ParamModel::Integer(id),
            ParamModel::Integer(stored(inode.device) as int),
            ParamModel::Integer(stored(inode.number) as int),
            birth_for(inode.btime),
        ],
        WriteModel::BirthTime { id, btime } => seq![birth_for(btime), ParamModel::Integer(id)],
        WriteModel::Association { tag_id, identity_id } => seq![
            ParamModel::Integer(tag_id),
            ParamModel::Integer(identity_id),
        ],
    }
}

/// The parameters of a row that can be handed to the database can each be
/// handed to it.
pub proof fn lemma_params_fit(w: WriteModel)
    requires
        bindable(w),
    ensures
        forall|k: int| 0 <= k < params_for(w).len() ==> fits(#[trigger] params_for(w)[k]),
{
}

/// The statement that writes a row, and its parameters.
pub fn statement_of<'a>(write: &'a Write) -> (r: (&'static str, Vec<Param<'a>>))
    ensures
        r.0@ == statement_for(write@),
        params_of(r.1@) == params_for(write@),
{
    let mut params: Vec<Param<'a>> = Vec::new();
    let statement = match write {
        Write::Tag { id, name } => {
            params.push(Param::Integer(*id));
            params.push(Param::Text(name.as_str()));
            "INSERT INTO tags (id, name) VALUES (?, ?)"
        },
        Write::Identity { id, inode } => {
            params.push(Param::Integer(*id));
            params.push(Param::Integer(to_stored(inode.device)));
            params.push(Param::Integer(to_stored(inode.number)));
            params.push(birth_param(inode.btime));
            "INSERT INTO identities (id, device, number, birth_time) VALUES (?, ?, ?, ?)"
        },
        Write::BirthTime { id, btime } => {
            params.push(birth_param(*btime));
            params.push(Param::Integer(*id));
            "UPDATE identities SET birth_time = ? WHERE id = ?"
        },
        Write::Association { tag_id, identity_id } => {
            params.push(Param::Integer(*tag_id));
            params.push(Param::Integer(*identity_id));
            "INSERT INTO associations (tag_id, identity_id) VALUES (?, ?)"
        },
    };
    assert(params_of(params@) =~= params_for(write@));
    (statement, params)
}

/// Writes the rows of `plan` to the database, in their order, each by its
/// statement, and stops at the first that the database refuses. With no rows
/// there is nothing to refuse; where a row is refused, the error is the
/// database's.
pub(crate) fn apply(connection: &Connection, plan: &Vec<Write>) -> (r: Result<(), StoreError>)
    requires
        all_bindable(plan_of(plan@)),
    ensures
        plan@.len() == 0 ==> r is Ok,
        r matches Err(e) ==> e is Database,
{
    let mut i: usize = 0;
    while i < plan.len()
        invariant
            i <= plan.len(),
            all_bindable(plan_of(plan@)),
        decreases plan.len() - i,
    {
        let (statement, params) = statement_of(&plan[i]);
        proof {
            assert(bindable(plan_of(plan@)[i as int]));
            lemma_params_fit(plan@[i as int]@);
        }
        if let Err(e) = run(connection, statement, &params) {
            return Err(e);
        }
        i += 1;
    }
    Ok(())
}

/// Writes to the database what tagging `touched` added to the store since
/// `marks` were taken: the rows that [`changes`] names. Where the database
/// cannot keep them, nothing is written and the error is `Unstorable`; that
/// is the only way to this error. Where there is nothing to write, the call
/// succeeds. Any other failure is the database's.
pub(crate) fn save(
    connection: &Connection,
    store: &TagStore,
    marks: Marks,
    touched: &[INode],
) -> (r: Result<(), StoreError>)
    requires
        store.wf(),
    ensures
        !can_store(store@, marks@) <==> (r matches Err(e) && e is Unstorable),
        can_store(store@, marks@) && writes_of(store@, marks@, touched@).len() == 0 ==> r is Ok,
        r matches Err(e) ==> e is Database || e is Unstorable,
{
    match changes(store, marks, touched) {
        Ok(plan) => apply(connection, &plan),
        Err(e) => Err(e),
    }
}

/// The parameter for a birth time: the integer that the database keeps for
/// the number, or nothing where the birth time is not known.
fn birth_param<'a>(btime: Option<u64>) -> (r: Param<'a>)
    ensures
        r@ == birth_for(btime),
{
    match btime {
        Some(b) => Param::Integer(to_stored(b)),
        None => Param::Null,
    }
}

} // verus!
