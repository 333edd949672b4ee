//! The catalog: chunks kept under the series and the window they cover, in
//! one table of an SQLite database.
//!
//! The database is `sqlite`'s; what the library relies on of it is stated at
//! the five functions that call it, over the sequence of rows that the table
//! holds.

use vstd::prelude::*;
use crate::chunk::Chunk;

verus! {

/// `sqlite::Connection`, a connection to a database, as a value that is
/// passed on and not looked into.
#[verifier::external_type_specification]
#[verifier::external_body]
pub struct ExConnection(sqlite::Connection);

/// `sqlite::Error`, what the database reports when it fails, as a value that
/// is passed on and not looked into.
#[verifier::external_type_specification]
#[verifier::external_body]
pub struct ExDriverError(sqlite::Error);

/// The path under which SQLite opens a database of its own in memory.
pub const MEMORY_PATH: &'static str = ":memory:";

/// The statement that makes the table of chunks where there is none.
pub const CREATE_TABLE: &'static str =
    "CREATE TABLE IF NOT EXISTS chunks (series INTEGER, start INTEGER, stop INTEGER, chunk BLOB)";

/// The statement that adds a chunk.
pub const INSERT_CHUNK: &'static str = "INSERT INTO chunks VALUES (?, ?, ?, ?)";

/// The statement that looks a chunk up: of the rows of a series that cover a
/// window, the one that starts last.
pub const SELECT_CHUNK: &'static str =
    "SELECT start, stop, chunk from chunks WHERE series == ? AND start <= ? AND stop >= ? ORDER BY start DESC LIMIT 1";

/// The statement that takes the chunks of one window of a series away.
pub const DELETE_CHUNK: &'static str =
    "DELETE FROM chunks WHERE series == ? AND start == ? AND stop == ?";

/// The largest chunk, in bytes, that can be handed to the database.
pub const MAX_CHUNK_LEN: usize = 0x7fff_ffff;

/// Why a chunk could not be stored.
#[derive(Debug)]
pub enum SetChunkError {
    /// The database failed.
    Driver(sqlite::Error),
    /// The chunk has more bytes than the database takes.
    ChunkTooLarge,
}

/// Why a chunk could not be looked up.
#[derive(Debug)]
pub enum GetChunkError {
    /// The database failed.
    Driver(sqlite::Error),
}

/// What a chunk is stored under: its series and the bounds of its window.
#[derive(Clone, Copy, Debug, PartialEq, Eq, Structural)]
pub struct ChunkMeta {
    pub series_key: i64,
    pub start: i64,
    pub stop: i64,
}

/// The row that a chunk makes in the catalog: series, start, stop, bytes.
pub open spec fn row_of(series_key: i64, start: i64, stop: i64, chunk: Seq<u8>) -> (
    i64,
    i64,
    i64,
    Seq<u8>,
) {
    (series_key, start, stop, chunk)
}

/// The row belongs to the series and covers the window from `start` to
/// `stop`.
pub open spec fn covers(row: (i64, i64, i64, Seq<u8>), series_key: i64, start: i64, stop: i64) -> bool {
    row.0 == series_key && row.1 <= start && row.2 >= stop
}

/// What a lookup may give for rows that read `rows`: one of the rows of the
/// series that cover the window, and of those one that starts last; nothing
/// exactly when no row covers the window.
pub open spec fn lookup_outcome(
    rows: Seq<(i64, i64, i64, Seq<u8>)>,
    series_key: i64,
    start: i64,
    stop: i64,
    found: Option<(ChunkMeta, Seq<u8>)>,
) -> bool {
    match found {
        Some((meta, bytes)) => {
            &&& meta.series_key == series_key
            &&& exists|i: int|
                0 <= i < rows.len() && #[trigger] rows[i] == row_of(
                    series_key,
                    meta.start,
                    meta.stop,
                    bytes,
                )
            &&& meta.start <= start
            &&& meta.stop >= stop
            &&& forall|j: int|
                0 <= j < rows.len() && covers(#[trigger] rows[j], series_key, start, stop)
                    ==> rows[j].1 <= meta.start
        },
        None => forall|j: int|
            0 <= j < rows.len() ==> !covers(#[trigger] rows[j], series_key, start, stop),
    }
}

/// What a store holds after it was asked to add a row to `before`: on success
/// the row stands at the end, and after a failure it stands there or nothing
/// has changed.
pub open spec fn append_outcome(
    before: Seq<(i64, i64, i64, Seq<u8>)>,
    after: Seq<(i64, i64, i64, Seq<u8>)>,
    row: (i64, i64, i64, Seq<u8>),
    succeeded: bool,
) -> bool {
    after == before.push(row) || (!succeeded && after == before)
}

/// The row is stored under the series and the window from `start` to
/// `stop`.
pub open spec fn keyed(row: (i64, i64, i64, Seq<u8>), series_key: i64, start: i64, stop: i64) -> bool {
    row.0 == series_key && row.1 == start && row.2 == stop
}

/// The rows without those stored under the series and the window, in their
/// order.
pub open spec fn without(
    rows: Seq<(i64, i64, i64, Seq<u8>)>,
    series_key: i64,
    start: i64,
    stop: i64,
) -> Seq<(i64, i64, i64, Seq<u8>)>
    decreases rows.len(),
{
    if rows.len() == 0 {
        rows
    } else if keyed(rows.last(), series_key, start, stop) {
        without(rows.drop_last(), series_key, start, stop)
    } else {
        without(rows.drop_last(), series_key, start, stop).push(rows.last())
    }
}

/// What a store holds after it was asked to take the chunks of a window
/// away: on success the rows without them, and after a failure that or
/// what it held.
pub open spec fn remove_outcome(
    before: Seq<(i64, i64, i64, Seq<u8>)>,
    after: Seq<(i64, i64, i64, Seq<u8>)>,
    series_key: i64,
    start: i64,
    stop: i64,
    succeeded: bool,
) -> bool {
    after == without(before, series_key, start, stop) || (!succeeded && after == before)
}

/// What is left without the rows of a window: every row that is left was
/// there and is of another window, and every row of another window is left.
pub proof fn lemma_without(rows: Seq<(i64, i64, i64, Seq<u8>)>, series_key: i64, start: i64, stop: i64)
    ensures
        forall|j: int|
            0 <= j < without(rows, series_key, start, stop).len() ==> !keyed(
                #[trigger] without(rows, series_key, start, stop)[j],
                series_key,
                start,
                stop,
            ) && rows.contains(without(rows, series_key, start, stop)[j]),
        forall|i: int|
            0 <= i < rows.len() && !keyed(#[trigger] rows[i], series_key, start, stop) ==> without(
                rows,
                series_key,
                start,
                stop,
            ).contains(rows[i]),
    decreases rows.len(),
{
    let out = without(rows, series_key, start, stop);
    if rows.len() > 0 {
        let rest = rows.drop_last();
        let rest_out = without(rest, series_key, start, stop);
        lemma_without(rest, series_key, start, stop);
        let n = rows.len() - 1;
        assert forall|j: int| 0 <= j < out.len() implies !keyed(
            #[trigger] out[j],
            series_key,
            start,
            stop,
        ) && rows.contains(out[j]) by {
            if j < rest_out.len() {
                assert(out[j] == rest_out[j]);
                assert(rest.contains(rest_out[j]));
                let i = choose|i: int| 0 <= i < rest.len() && rest[i] == rest_out[j];
                assert(rows[i] == rest[i]);
            } else {
                assert(out[j] == rows[n]);
            }
        }
        assert forall|i: int|
            0 <= i < rows.len() && !keyed(#[trigger] rows[i], series_key, start, stop) implies out.contains(
            rows[i],
        ) by {
            if i < n {
                assert(rows[i] == rest[i]);
                assert(rest_out.contains(rest[i]));
                let j = choose|j: int| 0 <= j < rest_out.len() && rest_out[j] == rest[i];
                if keyed(rows.last(), series_key, start, stop) {
                    assert(out[j] == rows[i]);
                } else {
                    assert(out[j] == rest_out[j]);
                }
            } else {
                assert(out[out.len() - 1] == rows[i]);
            }
        }
    }
}

/// A store of chunks. `rows` is what it holds, oldest first.
pub trait KelpieChunkStore {
    spec fn rows(&self) -> Seq<(i64, i64, i64, Seq<u8>)>;

    /// Looks up the chunk of a series that covers the window from `start` to
    /// `stop`.
    fn get_chunk(&self, series_key: i64, start: i64, stop: i64) -> (r: Result<
        Option<(ChunkMeta, Chunk)>,
        GetChunkError,
    >)
        ensures
            r matches Ok(found) ==> lookup_outcome(
                self.rows(),
                series_key,
                start,
                stop,
                match found {
                    Some((meta, chunk)) => Some((meta, chunk@)),
                    None => None,
                },
            ),
    ;

    /// Adds a chunk under a series and a window.
    fn set_chunk(&mut self, series_key: i64, start: i64, stop: i64, chunk: &Chunk) -> (r: Result<
        (),
        SetChunkError,
    >)
        ensures
            append_outcome(
                old(self).rows(),
                final(self).rows(),
                row_of(series_key, start, stop, chunk@),
                r is Ok,
            ),
            r matches Err(SetChunkError::ChunkTooLarge) ==> final(self).rows() == old(self).rows(),
    ;
}

/// The rows of the table of chunks in the database behind a connection, in
/// the order in which they were added; none where the table is not there.
///
/// This speaks of a database that is written through this connection only,
/// and of a table that holds in each row what the statement that adds a
/// chunk puts there: three integers and the bytes of a chunk.
pub uninterp spec fn stored_rows(db: sqlite::Connection) -> Seq<(i64, i64, i64, Seq<u8>)>;

/// The path that the database behind a connection was opened under.
pub uninterp spec fn opened_under(db: sqlite::Connection) -> Seq<char>;

/// Calls `sqlite::open`. Trusted: the connection that comes back is to the
/// database at the path that was given, and a database opened under the
/// path `:memory:` is a new one, without a table.
#[verifier::external_body]
fn db_open(path: &str) -> (r: Result<sqlite::Connection, sqlite::Error>)
    ensures
        r matches Ok(db) ==> opened_under(db) == path@,
        r matches Ok(db) ==> (path@ == MEMORY_PATH@ ==> stored_rows(db).len() == 0),
{
    sqlite::open(path)
}

/// Calls `sqlite::Connection::execute` with the statement that makes the
/// table. Trusted: making the table where there is none leaves the rows as
/// they were, and so does a failure to make it; the connection stays with
/// its database.
#[verifier::external_body]
fn db_execute(db: &mut sqlite::Connection, statement: &str) -> (r: Result<(), sqlite::Error>)
    requires
        statement@ == CREATE_TABLE@,
    ensures
        stored_rows(*final(db)) == stored_rows(*old(db)),
        opened_under(*final(db)) == opened_under(*old(db)),
{
    db.execute(statement)
}

/// Runs the statement that adds a chunk, once: `sqlite::Connection::prepare`,
/// `sqlite::Statement::bind` for each of its four parameters, then `next`
/// and `reset`. Trusted: when this succeeds, one row of the four values
/// stands at the end of the table; when it fails, the row is there or
/// nothing has changed; the connection stays with its database.
#[verifier::external_body]
fn db_insert(
    db: &mut sqlite::Connection,
    statement: &str,
    series_key: i64,
    start: i64,
    stop: i64,
    chunk: &[u8],
) -> (r: Result<(), sqlite::Error>)
    requires
        statement@ == INSERT_CHUNK@,
        chunk@.len() <= MAX_CHUNK_LEN,
    ensures
        append_outcome(
            stored_rows(*old(db)),
            stored_rows(*final(db)),
            row_of(series_key, start, stop, chunk@),
            r is Ok,
        ),
        opened_under(*final(db)) == opened_under(*old(db)),
{
    let mut st = db.prepare(statement)?;
    st.bind((1, series_key))?;
    st.bind((2, start))?;
    st.bind((3, stop))?;
    st.bind((4, chunk))?;
    st.next()?;
    st.reset()
}

/// Runs the statement that takes the chunks of a window away, once:
/// `sqlite::Connection::prepare`, `sqlite::Statement::bind` for each of its
/// three parameters, then `next` and `reset`. Trusted: when this succeeds,
/// the rows of the series with that start and stop are gone and the others
/// stand as they stood; when it fails, that is so or nothing has changed;
/// the connection stays with its database.
#[verifier::external_body]
fn db_delete(db: &mut sqlite::Connection, statement: &str, series_key: i64, start: i64, stop: i64) -> (r:
    Result<(), sqlite::Error>)
    requires
        statement@ == DELETE_CHUNK@,
    ensures
        remove_outcome(
            stored_rows(*old(db)),
            stored_rows(*final(db)),
            series_key,
            start,
            stop,
            r is Ok,
        ),
        opened_under(*final(db)) == opened_under(*old(db)),
{
    let mut st = db.prepare(statement)?;
    st.bind((1, series_key))?;
    st.bind((2, start))?;
    st.bind((3, stop))?;
    st.next()?;
    st.reset()
}

/// Runs the statement that looks a chunk up and reads its first row:
/// `sqlite::Connection::prepare`, `sqlite::Statement::bind` for each of its
/// three parameters, `next`, `read` for each of the three columns, and
/// `reset`. Trusted: the row that comes back is a row of the series that
/// covers the window, one that starts last among those; none comes back
/// exactly when no row covers the window; and the table is as it was.
#[verifier::external_body]
fn db_select(db: &sqlite::Connection, statement: &str, series_key: i64, start: i64, stop: i64) -> (r:
    Result<Option<(i64, i64, Vec<u8>)>, sqlite::Error>)
    requires
        statement@ == SELECT_CHUNK@,
    ensures
        r matches Ok(found) ==> lookup_outcome(
            stored_rows(*db),
            series_key,
            start,
            stop,
            match found {
                Some((row_start, row_stop, bytes)) => Some(
                    (ChunkMeta { series_key, start: row_start, stop: row_stop }, bytes@),
                ),
                None => None,
            },
        ),
{
    let mut st = db.prepare(statement)?;
    st.bind((1, series_key))?;
    st.bind((2, start))?;
    st.bind((3, stop))?;
    let row = match st.next()? {
        sqlite::State::Row => Some((st.read(0)?, st.read(1)?, st.read(2)?)),
        sqlite::State::Done => None,
    };
    st.reset()?;
    Ok(row)
}

/// A catalog in an SQLite database.
pub struct SqliteChunkStore {
    db: sqlite::Connection,
}

impl SqliteChunkStore {
    /// The path of the database that the catalog is in.
    pub closed spec fn path(&self) -> Seq<char> {
        opened_under(self.db)
    }

    fn migrate(db: &mut sqlite::Connection) -> (r: Result<(), sqlite::Error>)
        ensures
            stored_rows(*final(db)) == stored_rows(*old(db)),
            opened_under(*final(db)) == opened_under(*old(db)),
    {
        db_execute(db, CREATE_TABLE)
    }

    /// A catalog in a database of its own in memory. It holds no chunk.
    pub fn new_memory() -> (r: Result<Self, sqlite::Error>)
        ensures
            r matches Ok(store) ==> store.rows().len() == 0 && store.path() == MEMORY_PATH@,
    {
        match db_open(MEMORY_PATH) {
            Ok(db) => Self::with_connection(db),
            Err(e) => Err(e),
        }
    }

    /// A catalog in the database file at `path`, with the chunks that the
    /// file holds. Under the path `:memory:` it is a catalog in a database
    /// of its own in memory, and holds no chunk. What is stated of the
    /// catalog holds as long as nothing else writes to the file.
    pub fn new_path(path: &str) -> (r: Result<Self, sqlite::Error>)
        ensures
            r matches Ok(store) ==> store.path() == path@,
            r matches Ok(store) ==> (path@ == MEMORY_PATH@ ==> store.rows().len() == 0),
    {
        match db_open(path) {
            Ok(db) => Self::with_connection(db),
            Err(e) => Err(e),
        }
    }

    /// A catalog in the database behind a connection, with the rows that the
    /// database holds: the table is made where it is not there, and where
    /// that fails, so does this, with the database's error.
    fn with_connection(db: sqlite::Connection) -> (r: Result<Self, sqlite::Error>)
        ensures
            r matches Ok(store) ==> store.rows() == stored_rows(db) && store.path()
                == opened_under(db),
    {
        let mut db = db;
        match Self::migrate(&mut db) {
            Ok(()) => Ok(Self { db }),
            Err(e) => Err(e),
        }
    }

    /// Takes the chunks that the catalog holds for one window of a series
    /// away.
    pub fn remove_chunk(&mut self, series_key: i64, start: i64, stop: i64) -> (r: Result<
        (),
        SetChunkError,
    >)
        ensures
            remove_outcome(
                old(self).rows(),
                final(self).rows(),
                series_key,
                start,
                stop,
                r is Ok,
            ),
            r matches Err(e) ==> e is Driver,
            final(self).path() == old(self).path(),
    {
        stored_or_failed(db_delete(&mut self.db, DELETE_CHUNK, series_key, start, stop))
    }
}

/// What a lookup answers for what the database gave it: the row that was
/// read, as a chunk with what it is stored under; nothing, where no row was
/// read; and the database's error, where it failed.
pub fn chunk_of_row(series_key: i64, row: Result<Option<(i64, i64, Vec<u8>)>, sqlite::Error>) -> (r:
    Result<Option<(ChunkMeta, Chunk)>, GetChunkError>)
    ensures
        match row {
            Ok(Some((start, stop, bytes))) => r matches Ok(Some((meta, chunk))) && meta == (
            ChunkMeta { series_key, start, stop }) && chunk@ == bytes@,
            Ok(None) => r matches Ok(None),
            Err(e) => r matches Err(GetChunkError::Driver(cause)) && cause == e,
        },
{
    match row {
        Ok(Some((res_start, res_stop, res_chunk))) => {
            let meta = ChunkMeta { series_key, start: res_start, stop: res_stop };
            let chunk = Chunk { compressed_data: res_chunk };
            Ok(Some((meta, chunk)))
        },
        Ok(None) => Ok(None),
        Err(e) => Err(GetChunkError::Driver(e)),
    }
}

/// What adding a chunk answers for what the database gave it: success for
/// success, and the database's error, where it failed.
pub fn stored_or_failed(outcome: Result<(), sqlite::Error>) -> (r: Result<(), SetChunkError>)
    ensures
        match outcome {
            Ok(()) => r is Ok,
            Err(e) => r matches Err(SetChunkError::Driver(cause)) && cause == e,
        },
{
    match outcome {
        Ok(()) => Ok(()),
        Err(e) => Err(SetChunkError::Driver(e)),
    }
}

impl KelpieChunkStore for SqliteChunkStore {
    closed spec fn rows(&self) -> Seq<(i64, i64, i64, Seq<u8>)> {
        stored_rows(self.db)
    }

    fn get_chunk(&self, series_key: i64, start: i64, stop: i64) -> (r: Result<
        Option<(ChunkMeta, Chunk)>,
        GetChunkError,
    >) {
        chunk_of_row(series_key, db_select(&self.db, SELECT_CHUNK, series_key, start, stop))
    }

    /// A chunk of more bytes than the database takes is refused before the
    /// database is asked, and no other chunk is.
    fn set_chunk(&mut self, series_key: i64, start: i64, stop: i64, chunk: &Chunk) -> (r: Result<
        (),
        SetChunkError,
    >)
        ensures
            chunk@.len() > MAX_CHUNK_LEN <==> r matches Err(SetChunkError::ChunkTooLarge),
            final(self).path() == old(self).path(),
    {
        if chunk.compressed_data.len() > MAX_CHUNK_LEN {
            return Err(SetChunkError::ChunkTooLarge);
        }
        stored_or_failed(
            db_insert(
                &mut self.db,
                INSERT_CHUNK,
                series_key,
                start,
                stop,
                chunk.compressed_data.as_slice(),
            ),
        )
    }
}

} // verus!
