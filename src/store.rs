use vstd::prelude::*;

use crate::error::SQLMDError;
use crate::model::TableCount;
use crate::sql::{push_quoted, quoted};
use crate::text::{decimal, push_decimal, push_str};

verus! {

pub open spec fn traj_schema() -> Seq<char> {
    "CREATE TABLE IF NOT EXISTS traj (step INTEGER NOT NULL, atom_id INTEGER NOT NULL, element TEXT NOT NULL, charge REAL, x REAL, y REAL, z REAL, vx REAL, vy REAL, vz REAL)"@
}

pub open spec fn metadata_schema() -> Seq<char> {
    "CREATE TABLE IF NOT EXISTS metadata (key TEXT UNIQUE NOT NULL, value TEXT, unit TEXT)"@
}

pub open spec fn version_row() -> Seq<char> {
    "INSERT INTO metadata VALUES ('version', '1.0', 'none')"@
}

fn string_of(s: &str) -> (r: String)
    ensures
        r@ == s@,
{
    s.to_owned()
}

/// Path of the store that belongs to the trajectory file `xyz_path`.
pub fn db_path(xyz_path: &str) -> (r: String)
    ensures
        r@ == xyz_path@ + ".db"@,
{
    let mut r = string_of(xyz_path);
    push_str(&mut r, ".db");
    r
}

/// Counts the `metadata` tables of the store; the count is a `TableCount`.
pub fn table_count_query() -> (r: String)
    ensures
        r@ == "SELECT COUNT(*) AS count FROM sqlite_master WHERE type = 'table' AND name = 'metadata'"@,
{
    string_of("SELECT COUNT(*) AS count FROM sqlite_master WHERE type = 'table' AND name = 'metadata'")
}

/// Statements that make the schema ready, given how many `metadata` tables
/// the store held before: both tables are created where absent, and the
/// version row is written only into a fresh `metadata` table.
pub fn schema_statements(metadata_tables: &TableCount) -> (r: Vec<String>)
    ensures
        r@.len() == (if metadata_tables.count == 0 {
            3nat
        } else {
            2nat
        }),
        r@[0]@ == traj_schema(),
        r@[1]@ == metadata_schema(),
        metadata_tables.count == 0 ==> r@[2]@ == version_row(),
{
    let mut r: Vec<String> = Vec::new();
    r.push(string_of("CREATE TABLE IF NOT EXISTS traj (step INTEGER NOT NULL, atom_id INTEGER NOT NULL, element TEXT NOT NULL, charge REAL, x REAL, y REAL, z REAL, vx REAL, vy REAL, vz REAL)"));
    r.push(string_of("CREATE TABLE IF NOT EXISTS metadata (key TEXT UNIQUE NOT NULL, value TEXT, unit TEXT)"));
    if metadata_tables.count == 0 {
        r.push(string_of("INSERT INTO metadata VALUES ('version', '1.0', 'none')"));
    }
    r
}

/// Reads the stored digest, if any.
pub fn hash_query() -> (r: String)
    ensures
        r@ == "SELECT value FROM metadata WHERE key = 'hash'"@,
{
    string_of("SELECT value FROM metadata WHERE key = 'hash'")
}

/// Stores `hex` as the digest, replacing the one stored before.
pub fn save_hash_statement(hex: &str) -> (r: String)
    ensures
        r@ == "REPLACE INTO metadata (key, value, unit) VALUES ('hash', "@ + quoted(hex@)
            + ", 'sha256')"@,
{
    let mut r = string_of("REPLACE INTO metadata (key, value, unit) VALUES ('hash', ");
    push_quoted(&mut r, hex);
    push_str(&mut r, ", 'sha256')");
    r
}

/// Removes the stored digest, so that no digest stands for rows that are
/// being replaced.
pub fn forget_hash_statement() -> (r: String)
    ensures
        r@ == "DELETE FROM metadata WHERE key = 'hash'"@,
{
    string_of("DELETE FROM metadata WHERE key = 'hash'")
}

/// Removes the rows of an earlier ingest before a new one.
pub fn clear_rows_statement() -> (r: String)
    ensures
        r@ == "DELETE FROM traj"@,
{
    string_of("DELETE FROM traj")
}

/// The progress line for `step`, ended by a carriage return.
pub fn progress_line(step: i64) -> (r: String)
    ensures
        r@ == "Loading MD step: "@ + decimal(step as int) + "\r"@,
{
    let mut r = string_of("Loading MD step: ");
    push_decimal(&mut r, step);
    push_str(&mut r, "\r");
    r
}

/// Whether the reader stopped only because its writer did.
pub open spec fn stopped_by_writer(reader: Result<(), SQLMDError>) -> bool {
    reader matches Err(SQLMDError::JointError(_))
}

/// Outcome of an ingest from the outcomes of its reader and its writer: the
/// reader's failure first, then the writer's; but where the reader stopped
/// only because the writer had failed (a `JointError`), the writer's failure.
pub fn join_outcome(reader: Result<(), SQLMDError>, writer: Result<(), SQLMDError>) -> (r: Result<
    (),
    SQLMDError,
>)
    ensures
        reader is Ok ==> r == writer,
        reader is Err && !(stopped_by_writer(reader) && writer is Err) ==> r == reader,
        stopped_by_writer(reader) && writer is Err ==> r == writer,
{
    match reader {
        Ok(_) => writer,
        Err(SQLMDError::JointError(m)) => match writer {
            Err(w) => Err(w),
            Ok(_) => Err(SQLMDError::JointError(m)),
        },
        Err(e) => Err(e),
    }
}

} // verus!
