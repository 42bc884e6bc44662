//! The DuckDB backend: the statements it sends, how it reads rows, and the transaction of an upsert.

use crate::domain::{CodeChunk, Hit};
use crate::lists;
use crate::score::Score;
use crate::text;
use crate::vectordbs;
use crate::vectordbs::{check_dim, passes, DimError, PathFilter};
use vstd::prelude::*;

verus! {

/// How many candidates are fetched for each row wanted: the index may return an id more than once.
pub const OVERFETCH: u64 = 8;

/// The stored vectors have another size than the plan's.
#[derive(Debug)]
pub struct DimMismatch {
    /// The file to delete.
    pub duckdb_path: String,
    pub message: String,
}

/// A collection in a DuckDB file.
#[derive(Debug)]
pub struct DuckDbBackend {
    pub collection: String,
    pub vector_dim: u64,
    pub path: String,
}

/// A statement to run. One that is not required may fail.
#[derive(Debug)]
pub struct Statement {
    pub sql: String,
    pub required: bool,
    /// What to tell the user where a required statement fails.
    pub context: &'static str,
}

/// A row of the collection, as it is read.
#[derive(Debug)]
pub struct StoredRow {
    pub id: u64,
    pub path: String,
    pub language: String,
    pub start_line: i32,
    pub end_line: i32,
    pub text: String,
    pub symbol: Option<String>,
    pub commit_sha: Option<String>,
    pub dirty: Option<bool>,
    pub no_duplicate: Option<bool>,
}

/// Whether a table of a given name exists. Takes the name.
pub const TABLE_EXISTS_SQL: &'static str =
    "SELECT count(*) FROM information_schema.tables WHERE table_name = ?";

/// The type of the embedding column. Takes the name of the table.
pub const EMBEDDING_TYPE_SQL: &'static str =
    "SELECT data_type FROM information_schema.columns WHERE table_name = ? AND column_name = 'embedding'";

/// Keeps the index when the file is closed.
pub const PERSIST_SQL: &'static str = "SET hnsw_enable_experimental_persistence = true;";

/// What to tell the user where the extension does not load.
pub const VSS_HELP: &'static str =
    "failed to load the DuckDB VSS extension (required for HNSW vector search and array_cosine_distance).\n\nCommon causes & fixes:\n• First-time setup: run the indexer at least once with write access so it can INSTALL vss.\n• Read-only MCP server: pre-install VSS by running `duckdb -c \"INSTALL vss;\"` (or the full indexer) once as a user that can write to DuckDB's extension directory.\n• Air-gapped / restricted env: copy the VSS extension into DuckDB's extension search path before starting the read-only server.\n\nSee the DuckDB VSS extension docs for manual installation steps.";

/// The statement to try next for the extension, after `failed` statements failed: load what is
/// installed, install and load, install from the community and load.
pub fn load_vss(failed: usize) -> (r: Option<&'static str>)
    ensures
        failed == 0 ==> (r matches Some(s) && s@ == "LOAD vss;"@),
        failed == 1 ==> (r matches Some(s) && s@ == "INSTALL vss; LOAD vss;"@),
        failed == 2 ==> (r matches Some(s) && s@ == "INSTALL vss FROM community; LOAD vss;"@),
        failed > 2 ==> r is None,
{
    if failed == 0 {
        Some("LOAD vss;")
    } else if failed == 1 {
        Some("INSTALL vss; LOAD vss;")
    } else if failed == 2 {
        Some("INSTALL vss FROM community; LOAD vss;")
    } else {
        None
    }
}

/// A line number as it is stored; a negative one counts as zero.
pub open spec fn line_of(n: int) -> int {
    if n < 0 {
        0
    } else {
        n
    }
}

fn line_number(n: i32) -> (r: usize)
    ensures
        r == line_of(n as int),
{
    if n < 0 {
        0
    } else {
        n as usize
    }
}

/// Whether `h` is the search row of a stored row.
pub open spec fn is_hit_of(row: StoredRow, score: Score, h: Hit) -> bool {
    &&& h.id == row.id
    &&& h.path == row.path
    &&& h.language == row.language
    &&& h.start_line == line_of(row.start_line as int)
    &&& h.end_line == line_of(row.end_line as int)
    &&& h.text == row.text
    &&& h.score == score
    &&& h.symbol == row.symbol
    &&& h.commit_sha == row.commit_sha
    &&& h.dirty == (row.dirty == Some(true))
    &&& h.no_duplicate == (row.no_duplicate == Some(true))
}

/// The search row of a stored row.
pub fn hit_of_row(row: StoredRow, score: Score) -> (h: Hit)
    ensures
        is_hit_of(row, score, h),
{
    Hit {
        id: row.id,
        path: row.path,
        language: row.language,
        start_line: line_number(row.start_line),
        end_line: line_number(row.end_line),
        text: row.text,
        score,
        symbol: row.symbol,
        commit_sha: row.commit_sha,
        dirty: match row.dirty {
            Some(b) => b,
            None => false,
        },
        no_duplicate: match row.no_duplicate {
            Some(b) => b,
            None => false,
        },
    }
}

/// Keeps the first row of each id, at most `limit` rows.
pub fn dedup_truncate(rows: Vec<Hit>, limit: usize) -> (r: Vec<Hit>)
    ensures
        r@ == lists::first_of(lists::distinct(rows@, None), limit as int),
{
    lists::keep_distinct(rows, None, limit)
}

/// How many candidates to fetch for `limit` rows.
pub open spec fn candidates(limit: int) -> int {
    if limit * OVERFETCH > u64::MAX {
        u64::MAX as int
    } else {
        limit * OVERFETCH
    }
}

/// How many candidates to fetch for `limit` rows.
pub fn fetch_count(limit: u64) -> (r: u64)
    ensures
        r == candidates(limit as int),
        r >= limit,
{
    if limit > u64::MAX / OVERFETCH {
        u64::MAX
    } else {
        limit * OVERFETCH
    }
}

/// Adds the rows whose path passes the filter.
pub open spec fn admitted<T>(rows: Seq<(Hit, T)>, filter: Option<PathFilter>) -> Seq<(Hit, T)> {
    rows.filter(|r: (Hit, T)| vectordbs::admits(filter, r.0.path@))
}

/// Keeps the rows whose path passes the filter, in their order.
pub fn keep_admitted<T>(rows: Vec<(Hit, T)>, filter: &Option<PathFilter>) -> (r: Vec<(Hit, T)>)
    ensures
        r@ == admitted(rows@, *filter),
{
    let ghost all = rows@;
    let mut stack = lists::reversed(rows);
    let mut out: Vec<(Hit, T)> = Vec::new();
    let ghost mut done: int = 0;
    proof {
        reveal(Seq::filter);
        assert(admitted(all.take(0), *filter) =~= Seq::<(Hit, T)>::empty());
    }
    while stack.len() > 0
        invariant
            0 <= done <= all.len(),
            stack@ =~= all.skip(done).reverse(),
            out@ == admitted(all.take(done), *filter),
        decreases stack@.len(),
    {
        if let Some(row) = stack.pop() {
            proof {
                reveal(Seq::filter);
                assert(row == all[done]);
                assert(all.take(done + 1).drop_last() =~= all.take(done));
                assert(all.take(done + 1).last() == row);
                done = done + 1;
            }
            if passes(filter, row.0.path.as_str()) {
                out.push(row);
            }
        }
    }
    assert(all.take(done) =~= all);
    out
}

impl DuckDbBackend {
    /// The name of the collection's index.
    pub fn index_name(&self) -> (r: String)
        ensures
            r@ == self.collection@ + "_hnsw"@,
    {
        self.collection.clone().concat("_hnsw")
    }

    /// Checks the size of a vector that the embedder produced.
    pub fn check_dim(&self, produced: usize) -> (r: Result<(), DimError>)
        ensures
            r is Ok <==> produced == self.vector_dim,
            r matches Err(e) ==> e.produced == produced && e.vector_dim == self.vector_dim,
    {
        check_dim(produced, self.vector_dim)
    }

    /// The type that the embedding column must have.
    pub open spec fn column_type(&self) -> Seq<char> {
        "FLOAT["@ + text::decimal(self.vector_dim as nat) + "]"@
    }

    fn expected_type(&self) -> (r: String)
        ensures
            r@ == self.column_type(),
    {
        "FLOAT[".to_string().concat(text::decimal_of(self.vector_dim).as_str()).concat("]")
    }

    /// What to tell the user where the stored vectors have the type `found`.
    pub open spec fn mismatch_told(&self, found: Seq<char>) -> Seq<char> {
        "DuckDB table '"@ + self.collection@ + "' has embedding column of type "@ + found
            + " but config/vector_dim="@ + text::decimal(self.vector_dim as nat) + " (expected "@ + self.column_type()
            + "). This usually means the embedding model was changed without --recreate. Delete the DuckDB file or re-index with --recreate."@
    }

    /// Checks the type of the embedding column of an existing table. Where there is no table, or the
    /// table has no such column, there is nothing to check.
    pub fn validate_existing_collection_dim(&self, present: bool, column: Option<&str>) -> (r: Result<(), DimMismatch>)
        ensures
            r is Err <==> present && (column matches Some(t) && t@ != self.column_type()),
            r matches Err(e) ==> e.duckdb_path@ == self.path@ && e.message@ == self.mismatch_told(column->0@),
    {
        if !present {
            return Ok(());
        }
        match column {
            Some(t) => {
                let expected = self.expected_type();
                if text::same(t, expected.as_str()) {
                    return Ok(());
                }
                let message = "DuckDB table '".to_string().concat(self.collection.as_str()).concat(
                    "' has embedding column of type ",
                ).concat(t).concat(" but config/vector_dim=").concat(
                    text::decimal_of(self.vector_dim).as_str(),
                ).concat(" (expected ").concat(expected.as_str()).concat(
                    "). This usually means the embedding model was changed without --recreate. Delete the DuckDB file or re-index with --recreate.",
                );
                Err(DimMismatch { duckdb_path: self.path.clone(), message })
            },
            None => Ok(()),
        }
    }

    /// Whether the table exists, by the count that [`TABLE_EXISTS_SQL`] gave.
    pub fn table_exists(&self, count: i64) -> (r: bool)
        ensures
            r == (count > 0),
    {
        count > 0
    }

    /// The statement that creates the index.
    pub open spec fn index_sql(&self) -> Seq<char> {
        "CREATE INDEX IF NOT EXISTS "@ + (self.collection@ + "_hnsw"@) + " ON "@ + self.collection@
            + " USING HNSW(embedding) WITH (metric='cosine');"@
    }

    /// The statement that creates the index.
    pub fn create_index_sql(&self) -> (r: String)
        ensures
            r@ == self.index_sql(),
    {
        "CREATE INDEX IF NOT EXISTS ".to_string().concat(self.index_name().as_str()).concat(" ON ").concat(
            self.collection.as_str(),
        ).concat(" USING HNSW(embedding) WITH (metric='cosine');")
    }

    /// The statements that create table and index.
    pub open spec fn table_sql(&self) -> Seq<char> {
        "CREATE TABLE IF NOT EXISTS "@ + self.collection@
            + "(id UBIGINT PRIMARY KEY, path VARCHAR, language VARCHAR, start_line INTEGER, end_line INTEGER, text VARCHAR, symbol VARCHAR, embedding FLOAT["@
            + text::decimal(self.vector_dim as nat)
            + "], commit_sha VARCHAR, dirty BOOLEAN DEFAULT false, no_duplicate BOOLEAN DEFAULT false); "@
            + self.index_sql()
    }

    /// The statements that create table and index.
    pub fn create_table_and_index(&self) -> (r: String)
        ensures
            r@ == self.table_sql(),
    {
        "CREATE TABLE IF NOT EXISTS ".to_string().concat(self.collection.as_str()).concat(
            "(id UBIGINT PRIMARY KEY, path VARCHAR, language VARCHAR, start_line INTEGER, end_line INTEGER, text VARCHAR, symbol VARCHAR, embedding FLOAT[",
        ).concat(text::decimal_of(self.vector_dim).as_str()).concat(
            "], commit_sha VARCHAR, dirty BOOLEAN DEFAULT false, no_duplicate BOOLEAN DEFAULT false); ",
        ).concat(self.create_index_sql().as_str())
    }

    /// The statement that drops the table.
    pub fn drop_table_sql(&self) -> (r: String)
        ensures
            r@ == "DROP TABLE IF EXISTS "@ + self.collection@ + ";"@,
    {
        "DROP TABLE IF EXISTS ".to_string().concat(self.collection.as_str()).concat(";")
    }

    /// The statement that drops the index, before a bulk window.
    pub fn drop_index_sql(&self) -> (r: String)
        ensures
            r@ == "DROP INDEX IF EXISTS "@ + (self.collection@ + "_hnsw"@) + ";"@,
    {
        "DROP INDEX IF EXISTS ".to_string().concat(self.index_name().as_str()).concat(";")
    }

    /// The statements that get the table ready, where `present` tells whether it is there: drop it
    /// where it is to be made anew; create table and index; and give an older table that stays the
    /// columns it may lack, which may fail.
    pub fn ensure_ready(&self, recreate: bool, present: bool) -> (r: Vec<Statement>)
        ensures
            r@.len() == 1 + (if present && recreate {
                1int
            } else {
                0int
            }) + (if present && !recreate {
                2int
            } else {
                0int
            }),
            present && recreate ==> {
                &&& r@[0].sql@ == "DROP TABLE IF EXISTS "@ + self.collection@ + ";"@
                &&& r@[0].required
                &&& r@[0].context@ == "failed to drop table for recreate"@
                &&& r@[1].sql@ == self.table_sql()
                &&& r@[1].required
                &&& r@[1].context@ == "failed to create table/HNSW index"@
            },
            !(present && recreate) ==> {
                &&& r@[0].sql@ == self.table_sql()
                &&& r@[0].required
                &&& r@[0].context@ == "failed to create table/HNSW index"@
            },
            present && !recreate ==> {
                &&& r@[1].sql@ == "ALTER TABLE "@ + self.collection@ + " ADD COLUMN commit_sha VARCHAR; ALTER TABLE "@
                    + self.collection@ + " ADD COLUMN dirty BOOLEAN DEFAULT false;"@
                &&& !r@[1].required
                &&& r@[2].sql@ == "ALTER TABLE "@ + self.collection@
                    + " ADD COLUMN no_duplicate BOOLEAN DEFAULT false;"@
                &&& !r@[2].required
            },
    {
        let mut out: Vec<Statement> = Vec::new();
        if recreate && present {
            out.push(
                Statement {
                    sql: self.drop_table_sql(),
                    required: true,
                    context: "failed to drop table for recreate",
                },
            );
        }
        out.push(
            Statement {
                sql: self.create_table_and_index(),
                required: true,
                context: "failed to create table/HNSW index",
            },
        );
        if present && !recreate {
            let stamps = "ALTER TABLE ".to_string().concat(self.collection.as_str()).concat(
                " ADD COLUMN commit_sha VARCHAR; ALTER TABLE ",
            ).concat(self.collection.as_str()).concat(" ADD COLUMN dirty BOOLEAN DEFAULT false;");
            out.push(Statement { sql: stamps, required: false, context: "" });
            let flag = "ALTER TABLE ".to_string().concat(self.collection.as_str()).concat(
                " ADD COLUMN no_duplicate BOOLEAN DEFAULT false;",
            );
            out.push(Statement { sql: flag, required: false, context: "" });
        }
        out
    }

    /// The statement that stores one chunk, replacing the one of the same id. `literal` is the vector
    /// as a list; the other values are the chunk's id, path, language, first line, last line, text,
    /// symbol, commit, dirty flag and opt-out flag.
    pub fn insert_sql(&self, literal: &str) -> (r: String)
        ensures
            r@ == "INSERT INTO "@ + self.collection@
                + " (id, path, language, start_line, end_line, text, symbol, embedding, commit_sha, dirty, no_duplicate) VALUES (?, ?, ?, ?, ?, ?, ?, "@
                + literal@ + "::FLOAT["@ + text::decimal(self.vector_dim as nat)
                + "], ?, ?, ?) ON CONFLICT (id) DO UPDATE SET path = excluded.path, language = excluded.language, start_line = excluded.start_line, end_line = excluded.end_line, text = excluded.text, symbol = excluded.symbol, embedding = excluded.embedding, commit_sha = excluded.commit_sha, dirty = excluded.dirty, no_duplicate = excluded.no_duplicate;"@,
    {
        "INSERT INTO ".to_string().concat(self.collection.as_str()).concat(
            " (id, path, language, start_line, end_line, text, symbol, embedding, commit_sha, dirty, no_duplicate) VALUES (?, ?, ?, ?, ?, ?, ?, ",
        ).concat(literal).concat("::FLOAT[").concat(text::decimal_of(self.vector_dim).as_str()).concat(
            "], ?, ?, ?) ON CONFLICT (id) DO UPDATE SET path = excluded.path, language = excluded.language, start_line = excluded.start_line, end_line = excluded.end_line, text = excluded.text, symbol = excluded.symbol, embedding = excluded.embedding, commit_sha = excluded.commit_sha, dirty = excluded.dirty, no_duplicate = excluded.no_duplicate;",
        )
    }

    /// The statement that deletes the chunks of a path. Takes the path.
    pub fn delete_sql(&self) -> (r: String)
        ensures
            r@ == "DELETE FROM "@ + self.collection@ + " WHERE path = ?"@,
    {
        "DELETE FROM ".to_string().concat(self.collection.as_str()).concat(" WHERE path = ?")
    }

    /// The distance of each row to the vector `literal`.
    pub open spec fn distance_sql(&self, literal: Seq<char>) -> Seq<char> {
        "array_cosine_distance(embedding, "@ + literal + "::FLOAT["@ + text::decimal(self.vector_dim as nat)
            + "]) AS d"@
    }

    fn distance(&self, literal: &str) -> (r: String)
        ensures
            r@ == self.distance_sql(literal@),
    {
        "array_cosine_distance(embedding, ".to_string().concat(literal).concat("::FLOAT[").concat(
            text::decimal_of(self.vector_dim).as_str(),
        ).concat("]) AS d")
    }

    /// The search of a text query by its vector. Takes the limit.
    pub fn query_sql(&self, literal: &str) -> (r: String)
        ensures
            r@ == "SELECT id, path, language, start_line, end_line, text, "@ + self.distance_sql(literal@)
                + ", commit_sha, dirty FROM "@ + self.collection@ + " ORDER BY d LIMIT ?"@,
    {
        "SELECT id, path, language, start_line, end_line, text, ".to_string().concat(
            self.distance(literal).as_str(),
        ).concat(", commit_sha, dirty FROM ").concat(self.collection.as_str()).concat(" ORDER BY d LIMIT ?")
    }

    /// The search by a vector, for `limit` rows. Takes the id to leave out, where `excludes` says that
    /// there is one; reads the opt-out flag where `flagged` says that the column is there.
    pub fn query_by_vector_sql(&self, literal: &str, limit: u64, excludes: bool, flagged: bool) -> (r: String)
        ensures
            r@ == "SELECT id, path, language, start_line, end_line, text, symbol, "@ + self.distance_sql(literal@)
                + ", commit_sha, dirty"@ + (if flagged {
                ", no_duplicate"@
            } else {
                ""@
            }) + " FROM "@ + self.collection@ + (if excludes {
                " WHERE id != ?"@
            } else {
                ""@
            }) + " ORDER BY d LIMIT "@ + text::decimal(candidates(limit as int) as nat),
    {
        "SELECT id, path, language, start_line, end_line, text, symbol, ".to_string().concat(
            self.distance(literal).as_str(),
        ).concat(", commit_sha, dirty").concat(
            if flagged {
                ", no_duplicate"
            } else {
                ""
            },
        ).concat(" FROM ").concat(self.collection.as_str()).concat(
            if excludes {
                " WHERE id != ?"
            } else {
                ""
            },
        ).concat(" ORDER BY d LIMIT ").concat(text::decimal_of(fetch_count(limit)).as_str())
    }

    /// The chunk at a location. Takes path and first line.
    pub fn get_by_location_sql(&self) -> (r: String)
        ensures
            r@ == "SELECT id, path, language, start_line, end_line, text, symbol, embedding FROM "@ + self.collection@
                + " WHERE path = ? AND start_line = ? LIMIT 1"@,
    {
        "SELECT id, path, language, start_line, end_line, text, symbol, embedding FROM ".to_string().concat(
            self.collection.as_str(),
        ).concat(" WHERE path = ? AND start_line = ? LIMIT 1")
    }

    /// All chunks with their vectors.
    pub fn all_chunks_sql(&self, flagged: bool) -> (r: String)
        ensures
            r@ == "SELECT id, path, language, start_line, end_line, text, symbol, embedding"@ + (if flagged {
                ", no_duplicate"@
            } else {
                ""@
            }) + " FROM "@ + self.collection@,
    {
        "SELECT id, path, language, start_line, end_line, text, symbol, embedding".to_string().concat(
            if flagged {
                ", no_duplicate"
            } else {
                ""
            },
        ).concat(" FROM ").concat(self.collection.as_str())
    }

    /// The number of chunks.
    pub fn count_sql(&self) -> (r: String)
        ensures
            r@ == "SELECT count(*) FROM "@ + self.collection@,
    {
        "SELECT count(*) FROM ".to_string().concat(self.collection.as_str())
    }

    /// The number of chunks, by what [`DuckDbBackend::count_sql`] gave.
    pub fn chunk_count(&self, count: i64) -> (r: u64)
        ensures
            r == line_of(count as int),
    {
        if count < 0 {
            0
        } else {
            count as u64
        }
    }

    /// Whether any chunk is stamped dirty.
    pub fn has_dirty_sql(&self) -> (r: String)
        ensures
            r@ == "SELECT EXISTS(SELECT 1 FROM "@ + self.collection@ + " WHERE dirty LIMIT 1)"@,
    {
        "SELECT EXISTS(SELECT 1 FROM ".to_string().concat(self.collection.as_str()).concat(" WHERE dirty LIMIT 1)")
    }

    /// Whether the table has the opt-out column.
    pub fn no_duplicate_col_sql(&self) -> (r: String)
        ensures
            r@ == "SELECT EXISTS(SELECT 1 FROM information_schema.columns WHERE table_name = '"@ + self.collection@
                + "' AND column_name = 'no_duplicate')"@,
    {
        "SELECT EXISTS(SELECT 1 FROM information_schema.columns WHERE table_name = '".to_string().concat(
            self.collection.as_str(),
        ).concat("' AND column_name = 'no_duplicate')")
    }

    /// Whether the table has the opt-out column, by what [`DuckDbBackend::no_duplicate_col_sql`] gave.
    /// `None`, a query that failed, counts as no.
    pub fn has_no_duplicate_col(&self, answer: Option<bool>) -> (r: bool)
        ensures
            r == (answer == Some(true)),
    {
        match answer {
            Some(b) => b,
            None => false,
        }
    }

    /// What to tell the user where a read-only open finds no file.
    pub fn missing_index(&self) -> (r: String)
        ensures
            r@ == "DuckDB index not found at "@ + self.path@
                + " — run an index first (the MCP server is read-only)"@,
    {
        "DuckDB index not found at ".to_string().concat(self.path.as_str()).concat(
            " — run an index first (the MCP server is read-only)",
        )
    }
}

/// The embedder returned another number of vectors than there are chunks.
#[derive(Debug)]
pub struct CountError {
    pub vectors: usize,
    pub chunks: usize,
}

impl CountError {
    /// What to tell the user.
    pub fn message(&self) -> (r: String)
        ensures
            r@ == "embedder returned "@ + text::decimal(self.vectors as nat) + " vectors for "@ + text::decimal(
                self.chunks as nat,
            ) + " chunks"@,
    {
        "embedder returned ".to_string().concat(text::decimal_of(self.vectors as u64).as_str()).concat(
            " vectors for ",
        ).concat(text::decimal_of(self.chunks as u64).as_str()).concat(" chunks")
    }
}

/// Why an upsert failed.
pub enum UpsertFault<E> {
    /// The transaction did not begin.
    Begin(E),
    /// A vector has the wrong size.
    Dim(DimError),
    /// A row was refused.
    Row { id: u64, error: E },
    /// The transaction did not commit.
    Commit(E),
}

impl<E> UpsertFault<E> {
    /// What to tell the user about a failed statement, or about a vector of the wrong size.
    pub fn message(&self) -> (r: String)
        ensures
            r@ == (match self {
                UpsertFault::Begin(_) => "failed to begin upsert transaction"@,
                UpsertFault::Dim(e) => e.told(),
                UpsertFault::Row { id, error } => "failed to upsert chunk id "@ + text::decimal(*id as nat),
                UpsertFault::Commit(_) => "failed to commit upsert transaction"@,
            }),
    {
        match self {
            UpsertFault::Begin(_) => "failed to begin upsert transaction".to_string(),
            UpsertFault::Dim(e) => e.message(),
            UpsertFault::Row { id, error: _ } => "failed to upsert chunk id ".to_string().concat(
                text::decimal_of(*id).as_str(),
            ),
            UpsertFault::Commit(_) => "failed to commit upsert transaction".to_string(),
        }
    }
}

/// Where an upsert stands.
pub enum UpsertPhase<E> {
    Begin,
    /// The row at this place is to be stored.
    Row(usize),
    Commit,
    /// The transaction is to be rolled back, for this reason.
    Rollback(UpsertFault<E>),
}

/// What an upsert does after a reply.
pub enum UpsertStep<T, E> {
    More(UpsertRun<T, E>),
    Finished(Result<(), UpsertFault<E>>),
}

/// What the database is to do next.
pub enum UpsertAction<'a, T> {
    /// Run this statement.
    Run(&'static str),
    /// Store this chunk with this vector, by [`DuckDbBackend::insert_sql`].
    Insert { chunk: &'a CodeChunk, vector: &'a Vec<T> },
}

/// What a caller is told once the thread that owns the connection is gone.
pub const WORKER_GONE: &'static str = "duckdb worker thread is no longer running";

/// The statement that begins the transaction of an upsert.
pub const BEGIN_SQL: &'static str = "BEGIN TRANSACTION;";

/// The statement that commits the transaction of an upsert.
pub const COMMIT_SQL: &'static str = "COMMIT;";

/// The statement that rolls the transaction of an upsert back.
pub const ROLLBACK_SQL: &'static str = "ROLLBACK;";

/// The upsert of a batch of chunks in one transaction.
pub struct UpsertRun<T, E> {
    pub chunks: Vec<CodeChunk>,
    /// The vector of each chunk.
    pub vectors: Vec<Vec<T>>,
    pub vector_dim: u64,
    pub phase: UpsertPhase<E>,
}

/// The texts to embed for an upsert of these chunks, one for each. Without chunks nothing is embedded.
pub fn upsert_texts(chunks: &[CodeChunk]) -> (r: Option<Vec<String>>)
    ensures
        chunks@.len() == 0 ==> r is None,
        chunks@.len() > 0 ==> (r matches Some(texts) && text::views(texts@) == chunks@.map_values(
            |c: CodeChunk| c.text@,
        )),
{
    if chunks.len() == 0 {
        return None;
    }
    let mut out: Vec<String> = Vec::new();
    let mut i: usize = 0;
    while i < chunks.len()
        invariant
            i <= chunks@.len(),
            text::views(out@) =~= chunks@.take(i as int).map_values(|c: CodeChunk| c.text@),
        decreases chunks@.len() - i,
    {
        let ghost before = text::views(out@);
        out.push(chunks[i].text.clone());
        assert(text::views(out@) =~= before.push(chunks@[i as int].text@));
        assert(chunks@.take(i + 1) =~= chunks@.take(i as int).push(chunks@[i as int]));
        i += 1;
    }
    assert(chunks@.take(i as int) =~= chunks@);
    Some(out)
}

/// Begins the upsert of chunks for which these vectors were produced. Without chunks there is nothing
/// to do.
pub fn start_upsert<T, E>(chunks: Vec<CodeChunk>, vectors: Vec<Vec<T>>, vector_dim: u64) -> (r: Result<
    Option<UpsertRun<T, E>>,
    CountError,
>)
    ensures
        chunks@.len() == 0 ==> r matches Ok(None),
        chunks@.len() > 0 && vectors@.len() != chunks@.len() ==> (r matches Err(e) && e.vectors == vectors@.len()
            && e.chunks == chunks@.len()),
        chunks@.len() > 0 && vectors@.len() == chunks@.len() ==> (r matches Ok(Some(run)) && run.valid()
            && run.chunks == chunks && run.vectors == vectors && run.vector_dim == vector_dim && run.phase is Begin),
{
    if chunks.len() == 0 {
        return Ok(None);
    }
    if vectors.len() != chunks.len() {
        return Err(CountError { vectors: vectors.len(), chunks: chunks.len() });
    }
    Ok(Some(UpsertRun { chunks, vectors, vector_dim, phase: UpsertPhase::Begin }))
}

impl<T, E> UpsertRun<T, E> {
    /// Whether the vector of the chunk at `k` has the right size.
    pub open spec fn sized(&self, k: int) -> bool {
        self.vectors@[k]@.len() == self.vector_dim
    }

    /// The invariant: the row to store exists, all vectors up to it have the right size, and so have
    /// all where the transaction is to commit.
    pub open spec fn valid(&self) -> bool {
        &&& self.chunks@.len() == self.vectors@.len() <= usize::MAX
        &&& self.phase matches UpsertPhase::Row(k) ==> k < self.chunks@.len() && (forall|i: int|
            0 <= i <= k ==> #[trigger] self.sized(i))
        &&& self.phase is Commit ==> forall|i: int| 0 <= i < self.chunks@.len() ==> #[trigger] self.sized(i)
    }

    /// Where the upsert stands once the rows below `k` are stored.
    pub open spec fn phase_at(&self, k: int) -> UpsertPhase<E> {
        if k == self.chunks@.len() {
            UpsertPhase::Commit
        } else if !self.sized(k) {
            UpsertPhase::Rollback(
                UpsertFault::Dim(
                    DimError { produced: self.vectors@[k]@.len() as usize, vector_dim: self.vector_dim },
                ),
            )
        } else {
            UpsertPhase::Row(k as usize)
        }
    }

    /// Whether `next` differs in its phase alone.
    pub open spec fn moved(&self, next: UpsertRun<T, E>, phase: UpsertPhase<E>) -> bool {
        &&& next.chunks == self.chunks
        &&& next.vectors == self.vectors
        &&& next.vector_dim == self.vector_dim
        &&& next.phase == phase
    }

    /// What an upsert does after the reply to its statement.
    pub open spec fn steps(self, reply: Result<(), E>, out: UpsertStep<T, E>) -> bool {
        match (self.phase, reply) {
            (UpsertPhase::Begin, Err(e)) => out == UpsertStep::<T, E>::Finished(Err(UpsertFault::Begin(e))),
            (UpsertPhase::Begin, Ok(_)) => out matches UpsertStep::More(next) && self.moved(next, self.phase_at(0)),
            (UpsertPhase::Row(k), Err(e)) => out matches UpsertStep::More(next) && self.moved(
                next,
                UpsertPhase::Rollback(UpsertFault::Row { id: self.chunks@[k as int].id, error: e }),
            ),
            (UpsertPhase::Row(k), Ok(_)) => out matches UpsertStep::More(next) && self.moved(
                next,
                self.phase_at(k + 1),
            ),
            (UpsertPhase::Commit, Err(e)) => out == UpsertStep::<T, E>::Finished(Err(UpsertFault::Commit(e))),
            (UpsertPhase::Commit, Ok(_)) => out == UpsertStep::<T, E>::Finished(Ok(())),
            (UpsertPhase::Rollback(f), _) => out == UpsertStep::<T, E>::Finished(Err(f)),
        }
    }

    /// What the database is to do next: begin, store the next chunk with its own vector, commit, or
    /// roll back.
    pub fn action(&self) -> (r: UpsertAction<'_, T>)
        requires
            self.valid(),
        ensures
            match self.phase {
                UpsertPhase::Begin => r matches UpsertAction::Run(sql) && sql == BEGIN_SQL,
                UpsertPhase::Row(k) => r matches UpsertAction::Insert { chunk, vector } && *chunk
                    == self.chunks@[k as int] && *vector == self.vectors@[k as int],
                UpsertPhase::Commit => r matches UpsertAction::Run(sql) && sql == COMMIT_SQL,
                UpsertPhase::Rollback(_) => r matches UpsertAction::Run(sql) && sql == ROLLBACK_SQL,
            },
    {
        match &self.phase {
            UpsertPhase::Begin => UpsertAction::Run(BEGIN_SQL),
            UpsertPhase::Row(k) => UpsertAction::Insert { chunk: &self.chunks[*k], vector: &self.vectors[*k] },
            UpsertPhase::Commit => UpsertAction::Run(COMMIT_SQL),
            UpsertPhase::Rollback(_) => UpsertAction::Run(ROLLBACK_SQL),
        }
    }

    fn go_on(self, k: usize) -> (next: UpsertRun<T, E>)
        requires
            self.chunks@.len() == self.vectors@.len() <= usize::MAX,
            k <= self.chunks@.len(),
            forall|i: int| 0 <= i < k ==> #[trigger] self.sized(i),
        ensures
            next.valid(),
            self.moved(next, self.phase_at(k as int)),
    {
        if k == self.chunks.len() {
            let next = UpsertRun { phase: UpsertPhase::Commit, ..self };
            assert forall|i: int| 0 <= i < next.chunks@.len() implies #[trigger] next.sized(i) by {
                assert(self.sized(i));
            }
            next
        } else {
            match check_dim(self.vectors[k].len(), self.vector_dim) {
                Ok(_) => {
                    let next = UpsertRun { phase: UpsertPhase::Row(k), ..self };
                    assert forall|i: int| 0 <= i <= k implies #[trigger] next.sized(i) by {
                        assert(i < k ==> self.sized(i));
                    }
                    next
                },
                Err(e) => UpsertRun { phase: UpsertPhase::Rollback(UpsertFault::Dim(e)), ..self },
            }
        }
    }

    /// Takes in the reply to the statement.
    pub fn step(self, reply: Result<(), E>) -> (out: UpsertStep<T, E>)
        requires
            self.valid(),
        ensures
            self.steps(reply, out),
            out matches UpsertStep::More(next) ==> next.valid(),
    {
        match self.phase {
            UpsertPhase::Begin => match reply {
                Err(e) => UpsertStep::Finished(Err(UpsertFault::Begin(e))),
                Ok(_) => {
                    let run = UpsertRun { phase: UpsertPhase::Begin, ..self };
                    UpsertStep::More(run.go_on(0))
                },
            },
            UpsertPhase::Row(k) => match reply {
                Err(e) => {
                    let id: u64 = self.chunks[k].id;
                    UpsertStep::More(
                        UpsertRun { phase: UpsertPhase::Rollback(UpsertFault::Row { id, error: e }), ..self },
                    )
                },
                Ok(_) => {
                    let run = UpsertRun { phase: UpsertPhase::Row(k), ..self };
                    assert(k < run.chunks.len());
                    assert forall|i: int| 0 <= i < k + 1 implies #[trigger] run.sized(i) by {
                        assert(self.sized(i));
                    }
                    UpsertStep::More(run.go_on(k + 1))
                },
            },
            UpsertPhase::Commit => match reply {
                Err(e) => UpsertStep::Finished(Err(UpsertFault::Commit(e))),
                Ok(_) => UpsertStep::Finished(Ok(())),
            },
            UpsertPhase::Rollback(f) => UpsertStep::Finished(Err(f)),
        }
    }
}

/// Whether `runs` is an upsert from its beginning on, each state following from the reply to the one
/// before, that ends with `result`.
pub open spec fn is_upsert<T, E>(
    runs: Seq<UpsertRun<T, E>>,
    replies: Seq<Result<(), E>>,
    result: Result<(), UpsertFault<E>>,
) -> bool {
    &&& runs.len() == replies.len() > 0
    &&& runs[0].valid()
    &&& runs[0].chunks@.len() > 0
    &&& runs[0].phase is Begin
    &&& forall|i: int|
        0 <= i < runs.len() - 1 ==> (#[trigger] runs[i]).steps(replies[i], UpsertStep::More(runs[i + 1]))
    &&& runs.last().steps(replies.last(), UpsertStep::Finished(result))
}

proof fn lemma_upsert<T, E>(
    runs: Seq<UpsertRun<T, E>>,
    replies: Seq<Result<(), E>>,
    result: Result<(), UpsertFault<E>>,
    n: int,
)
    requires
        is_upsert(runs, replies, result),
        0 <= n < runs.len(),
    ensures
        runs[n].chunks == runs[0].chunks,
        runs[n].vectors == runs[0].vectors,
        runs[n].vector_dim == runs[0].vector_dim,
        match runs[n].phase {
            UpsertPhase::Begin => n == 0,
            UpsertPhase::Row(k) => n == k + 1 && k < runs[0].chunks@.len(),
            UpsertPhase::Commit => n == runs[0].chunks@.len() + 1,
            UpsertPhase::Rollback(_) => 0 < n == runs.len() - 1,
        },
        forall|i: int| 0 <= i < n ==> !(runs[i].phase is Rollback) && !(runs[i].phase is Commit),
        !(runs[n].phase is Rollback) ==> forall|i: int| 0 <= i < n ==> #[trigger] replies[i] is Ok,
        runs[n].phase is Row ==> runs[n].sized(n - 1),
        forall|i: int| 0 < i < n ==> runs[0].sized(i - 1) && #[trigger] runs[i].phase == UpsertPhase::<E>::Row((i - 1) as usize),
    decreases n,
{
    let count = runs[0].chunks@.len() as int;
    if n > 0 {
        lemma_upsert(runs, replies, result, n - 1);
        let a = runs[n - 1];
        assert(runs[n - 1].steps(replies[n - 1], UpsertStep::More(runs[n - 1 + 1])));
        if runs[n].phase is Rollback && n < runs.len() - 1 {
            assert(runs[n].steps(replies[n], UpsertStep::More(runs[n + 1])));
        }
    }
}

/// The statements of an upsert. One that ends well began its transaction, stored every chunk with its
/// vector once, in order, and committed, all of which succeeded, and every vector had the right size.
/// One that fails either did not begin, or failed to commit, or rolled back last; before the last
/// statement nothing was committed or rolled back.
pub proof fn law_upsert_statements<T, E>(
    runs: Seq<UpsertRun<T, E>>,
    replies: Seq<Result<(), E>>,
    result: Result<(), UpsertFault<E>>,
)
    requires
        is_upsert(runs, replies, result),
    ensures
        forall|i: int| 0 <= i < runs.len() - 1 ==> !((#[trigger] runs[i]).phase is Commit) && !(runs[i].phase is Rollback),
        result is Ok ==> {
            let count = runs[0].chunks@.len();
            &&& runs.len() == count + 2
            &&& forall|i: int| 0 <= i < replies.len() ==> #[trigger] replies[i] is Ok
            &&& forall|k: int|
                0 <= k < count ==> (#[trigger] runs[k + 1]).phase == UpsertPhase::<E>::Row(k as usize)
                    && runs[k + 1].chunks == runs[0].chunks && runs[k + 1].vectors == runs[0].vectors && runs[0].sized(k)
            &&& runs.last().phase is Commit
        },
        result is Err ==> {
            ||| runs.len() == 1 && replies[0] is Err
            ||| runs.last().phase is Commit && replies.last() is Err
            ||| runs.last().phase is Rollback
        },
{
    let last = runs.len() - 1;
    lemma_upsert(runs, replies, result, last);
    if result is Ok {
        assert forall|k: int| 0 <= k < runs[0].chunks@.len() implies (#[trigger] runs[k + 1]).phase == UpsertPhase::<
            E,
        >::Row(k as usize) && runs[k + 1].chunks == runs[0].chunks && runs[k + 1].vectors == runs[0].vectors
            && runs[0].sized(k) by {
            lemma_upsert(runs, replies, result, k + 1);
            assert(runs[k + 1].phase == UpsertPhase::<E>::Row((k + 1 - 1) as usize));
            assert(runs[0].sized(k + 1 - 1));
        }
    }
}

/// A stored row: the chunk and its vector.
pub struct RowView<T> {
    pub chunk: CodeChunk,
    pub vector: Seq<T>,
}

/// A table under transactions: its committed rows by id, and those of the open transaction.
pub struct TableView<T> {
    pub rows: Map<u64, RowView<T>>,
    pub open: Option<Map<u64, RowView<T>>>,
}

/// Whether a table goes from `a` to `b` by the statement that `run` makes, where the reply tells
/// whether it succeeded. A row replaces the one of its id, within the open transaction; a commit makes
/// the rows of the transaction those of the table, and a rollback drops them. What fails changes no
/// committed row.
pub open spec fn table_after<T, E>(a: TableView<T>, run: UpsertRun<T, E>, reply: Result<(), E>, b: TableView<T>) -> bool {
    match run.phase {
        UpsertPhase::Begin => b.rows == a.rows && (reply is Ok ==> b.open == Some(a.rows)),
        UpsertPhase::Row(k) => b.rows == a.rows && (reply is Ok && a.open is Some ==> b.open == Some(
            a.open->Some_0.insert(
                run.chunks@[k as int].id,
                RowView { chunk: run.chunks@[k as int], vector: run.vectors@[k as int]@ },
            ),
        )),
        UpsertPhase::Commit => b.rows == if reply is Ok && a.open is Some {
            a.open->Some_0
        } else {
            a.rows
        },
        UpsertPhase::Rollback(_) => b.rows == a.rows,
    }
}

/// The rows after the first `n` chunks were stored, one after the other.
pub open spec fn upserted<T>(
    rows: Map<u64, RowView<T>>,
    chunks: Seq<CodeChunk>,
    vectors: Seq<Vec<T>>,
    n: int,
) -> Map<u64, RowView<T>>
    decreases n,
{
    if n <= 0 {
        rows
    } else {
        upserted(rows, chunks, vectors, n - 1).insert(
            chunks[n - 1].id,
            RowView { chunk: chunks[n - 1], vector: vectors[n - 1]@ },
        )
    }
}

proof fn lemma_rows_so_far<T, E>(
    runs: Seq<UpsertRun<T, E>>,
    replies: Seq<Result<(), E>>,
    result: Result<(), UpsertFault<E>>,
    tables: Seq<TableView<T>>,
    n: int,
)
    requires
        is_upsert(runs, replies, result),
        tables.len() == runs.len() + 1,
        forall|i: int| 0 <= i < runs.len() ==> #[trigger] table_after(tables[i], runs[i], replies[i], tables[i + 1]),
        0 <= n < runs.len(),
    ensures
        tables[n].rows == tables[0].rows,
        runs[n].phase is Row || runs[n].phase is Commit ==> tables[n].open == Some(
            upserted(tables[0].rows, runs[0].chunks@, runs[0].vectors@, n - 1),
        ),
    decreases n,
{
    lemma_upsert(runs, replies, result, n);
    if n > 0 {
        lemma_rows_so_far(runs, replies, result, tables, n - 1);
        lemma_upsert(runs, replies, result, n - 1);
        assert(table_after(tables[n - 1], runs[n - 1], replies[n - 1], tables[n - 1 + 1]));
        if !(runs[n].phase is Rollback) {
            assert(replies[n - 1] is Ok);
        }
    }
}

/// An upsert is all or nothing, on a database that carries out each statement as `table_after` says:
/// where it fails, the rows are those before it, and where it succeeds, they are those with each chunk
/// stored under its id with its own vector, in order.
pub proof fn law_upsert_all_or_nothing<T, E>(
    runs: Seq<UpsertRun<T, E>>,
    replies: Seq<Result<(), E>>,
    result: Result<(), UpsertFault<E>>,
    tables: Seq<TableView<T>>,
)
    requires
        is_upsert(runs, replies, result),
        tables.len() == runs.len() + 1,
        forall|i: int| 0 <= i < runs.len() ==> #[trigger] table_after(tables[i], runs[i], replies[i], tables[i + 1]),
    ensures
        result is Err ==> tables.last().rows == tables[0].rows,
        result is Ok ==> tables.last().rows == upserted(
            tables[0].rows,
            runs[0].chunks@,
            runs[0].vectors@,
            runs[0].chunks@.len() as int,
        ),
{
    let last = runs.len() - 1;
    lemma_rows_so_far(runs, replies, result, tables, last);
    lemma_upsert(runs, replies, result, last);
    assert(table_after(tables[last], runs[last], replies[last], tables[last + 1]));
}

/// After an upsert the last chunk of each id is stored with its vector, and every other row is as it
/// was.
pub proof fn law_upserted_rows<T>(
    rows: Map<u64, RowView<T>>,
    chunks: Seq<CodeChunk>,
    vectors: Seq<Vec<T>>,
    n: int,
    id: u64,
)
    requires
        0 <= n <= chunks.len() == vectors.len(),
    ensures
        forall|k: int|
            0 <= k < n && (#[trigger] chunks[k]).id == id && (forall|m: int|
                k < m < n ==> (#[trigger] chunks[m]).id != id) ==> {
                &&& upserted(rows, chunks, vectors, n).dom().contains(id)
                &&& upserted(rows, chunks, vectors, n)[id] == (RowView { chunk: chunks[k], vector: vectors[k]@ })
            },
        (forall|k: int| 0 <= k < n ==> (#[trigger] chunks[k]).id != id) ==> {
            &&& upserted(rows, chunks, vectors, n).dom().contains(id) == rows.dom().contains(id)
            &&& upserted(rows, chunks, vectors, n)[id] == rows[id]
        },
    decreases n,
{
    if n > 0 {
        law_upserted_rows(rows, chunks, vectors, n - 1, id);
        let at = chunks[n - 1];
        assert forall|k: int|
            0 <= k < n && (#[trigger] chunks[k]).id == id && (forall|m: int|
                k < m < n ==> (#[trigger] chunks[m]).id != id) implies {
            &&& upserted(rows, chunks, vectors, n).dom().contains(id)
            &&& upserted(rows, chunks, vectors, n)[id] == (RowView { chunk: chunks[k], vector: vectors[k]@ })
        } by {
            if k < n - 1 {
                assert(chunks[n - 1].id != id);
            }
        }
    }
}

proof fn lemma_last_of_id(chunks: Seq<CodeChunk>, n: int, id: u64) -> (r: int)
    requires
        0 <= n <= chunks.len(),
        exists|k: int| 0 <= k < n && (#[trigger] chunks[k]).id == id,
    ensures
        0 <= r < n,
        chunks[r].id == id,
        forall|m: int| r < m < n ==> (#[trigger] chunks[m]).id != id,
    decreases n,
{
    if chunks[n - 1].id == id {
        n - 1
    } else {
        let k = choose|k: int| 0 <= k < n && (#[trigger] chunks[k]).id == id;
        assert(chunks[k].id == id);
        lemma_last_of_id(chunks, n - 1, id)
    }
}

/// Repeating an upsert changes nothing.
pub proof fn law_upsert_repeats<T>(rows: Map<u64, RowView<T>>, chunks: Seq<CodeChunk>, vectors: Seq<Vec<T>>)
    requires
        chunks.len() == vectors.len(),
    ensures
        upserted(upserted(rows, chunks, vectors, chunks.len() as int), chunks, vectors, chunks.len() as int)
            == upserted(rows, chunks, vectors, chunks.len() as int),
{
    let n = chunks.len() as int;
    let once = upserted(rows, chunks, vectors, n);
    let twice = upserted(once, chunks, vectors, n);
    assert forall|id: u64|
        #![trigger twice.dom().contains(id)]
        #![trigger twice[id]]
        once.dom().contains(id) == twice.dom().contains(id) && once[id] == twice[id] by {
        law_upserted_rows(rows, chunks, vectors, n, id);
        law_upserted_rows(once, chunks, vectors, n, id);
        if exists|k: int| 0 <= k < n && (#[trigger] chunks[k]).id == id {
            let k = lemma_last_of_id(chunks, n, id);
            assert(chunks[k].id == id);
        }
    }
    assert(twice.dom() =~= once.dom());
    assert(twice =~= once);
}

/// A search row says what the stored row says: a line number below zero reads as zero and a missing flag
/// as unset, and everything else is as it was stored.
pub proof fn law_hit_of_row(row: StoredRow, score: Score, h: Hit)
    requires
        is_hit_of(row, score, h),
    ensures
        h.id == row.id,
        h.path@ == row.path@,
        h.language@ == row.language@,
        h.text@ == row.text@,
        h.score == score,
        h.symbol == row.symbol,
        h.commit_sha == row.commit_sha,
        row.start_line >= 0 ==> h.start_line == row.start_line,
        row.end_line >= 0 ==> h.end_line == row.end_line,
        row.start_line < 0 ==> h.start_line == 0,
        row.end_line < 0 ==> h.end_line == 0,
        row.dirty matches Some(b) ==> h.dirty == b,
        row.dirty is None ==> !h.dirty,
        row.no_duplicate matches Some(b) ==> h.no_duplicate == b,
        row.no_duplicate is None ==> !h.no_duplicate,
{
}

/// Eight candidates are fetched for each row wanted, as far as a 64-bit number goes.
pub proof fn law_fetch_count(limit: u64)
    ensures
        8 * limit <= u64::MAX ==> candidates(limit as int) == 8 * limit,
        8 * limit > u64::MAX ==> candidates(limit as int) == u64::MAX,
{
}

/// Of the rows of a table those are kept whose path passes the filter, all of them, in their order.
pub proof fn law_admitted_rows<T>(rows: Seq<(Hit, T)>, filter: Option<PathFilter>) -> (at: Seq<int>)
    ensures
        lists::are_places(at, rows.len() as int),
        at.len() == admitted(rows, filter).len(),
        forall|k: int| 0 <= k < at.len() ==> admitted(rows, filter)[k] == rows[#[trigger] at[k]],
        filter is None ==> at.len() == rows.len(),
        forall|i: int|
            0 <= i < rows.len() ==> (#[trigger] at.contains(i) <==> (filter is Some ==> crate::globs::globs_match(
                crate::globs::set_globs(filter->0.set),
                rows[i].0.path@,
            ))),
{
    let pred = |r: (Hit, T)| vectordbs::admits(filter, r.0.path@);
    let at = lists::lemma_filter_places(rows, pred);
    if filter is None {
        assert forall|i: int| 0 <= i < rows.len() implies #[trigger] at.contains(i) by {
            assert(pred(rows[i]));
        }
        lists::lemma_all_places(at, rows.len() as int);
    }
    assert forall|i: int| 0 <= i < rows.len() implies (#[trigger] at.contains(i) <==> (filter is Some
        ==> crate::globs::globs_match(crate::globs::set_globs(filter->0.set), rows[i].0.path@))) by {
        assert(at.contains(i) <==> pred(rows[i]));
    }
    at
}

/// Why an upsert failed. A transaction that did not begin or commit is told by the reply to that
/// statement. A vector of the wrong size is the first one, met after all chunks before it were stored;
/// a refused row is told by the id of its chunk and the reply to it.
pub proof fn law_upsert_faults<T, E>(
    runs: Seq<UpsertRun<T, E>>,
    replies: Seq<Result<(), E>>,
    fault: UpsertFault<E>,
)
    requires
        is_upsert(runs, replies, Err(fault)),
    ensures
        fault matches UpsertFault::Begin(e) ==> runs.len() == 1 && replies[0] == Err::<(), E>(e),
        fault matches UpsertFault::Commit(e) ==> runs.len() == runs[0].chunks@.len() + 2 && replies.last() == Err::<
            (),
            E,
        >(e),
        fault matches UpsertFault::Dim(e) ==> {
            let k = runs.len() - 2;
            &&& 0 <= k < runs[0].vectors@.len()
            &&& runs[0].vectors@[k]@.len() == e.produced
            &&& e.produced != e.vector_dim
            &&& e.vector_dim == runs[0].vector_dim
            &&& forall|i: int| 0 <= i < k ==> (#[trigger] runs[0].vectors@[i])@.len() == e.vector_dim
            &&& forall|i: int| 0 <= i <= k ==> #[trigger] replies[i] is Ok
        },
        fault matches UpsertFault::Row { id, error } ==> {
            let k = runs.len() - 3;
            &&& 0 <= k < runs[0].chunks@.len()
            &&& id == runs[0].chunks@[k].id
            &&& replies[k + 1] == Err::<(), E>(error)
            &&& forall|i: int| 0 <= i <= k ==> #[trigger] replies[i] is Ok
        },
{
    let last = runs.len() - 1;
    lemma_upsert(runs, replies, Err(fault), last);
    if runs[last].phase is Rollback {
        lemma_upsert(runs, replies, Err(fault), last - 1);
        assert(runs[last - 1].steps(replies[last - 1], UpsertStep::More(runs[last - 1 + 1])));
        if let UpsertFault::Dim(e) = fault {
            let k = last - 1;
            assert(runs[0].valid());
            assert(runs[0].vectors@[k].len() == runs[0].vectors@[k]@.len());
            assert(!runs[last - 1].sized(k));
            assert(runs[0].vectors@[k]@.len() == e.produced);
            assert forall|i: int| 0 <= i < k implies (#[trigger] runs[0].vectors@[i])@.len() == e.vector_dim by {
                assert(runs[i + 1].phase == UpsertPhase::<E>::Row((i + 1 - 1) as usize));
                assert(runs[0].sized(i + 1 - 1));
            }
        }
    }
}

/// The table is created with the column type that an existing one is compared with, and together with
/// the index; a search casts its vector to the same type; and different vector sizes have different
/// types.
pub proof fn law_one_column_type(b: DuckDbBackend, other: DuckDbBackend, literal: Seq<char>)
    ensures
        text::has(b.table_sql(), "embedding "@ + b.column_type()),
        text::has(b.table_sql(), b.index_sql()),
        text::has(b.distance_sql(literal), literal + "::"@ + b.column_type()),
        b.column_type() == other.column_type() <==> b.vector_dim == other.vector_dim,
{
    let n = text::decimal(b.vector_dim as nat);
    let m = text::decimal(other.vector_dim as nat);
    let columns =
        "(id UBIGINT PRIMARY KEY, path VARCHAR, language VARCHAR, start_line INTEGER, end_line INTEGER, text VARCHAR, symbol VARCHAR, embedding FLOAT["@;
    let rest = "], commit_sha VARCHAR, dirty BOOLEAN DEFAULT false, no_duplicate BOOLEAN DEFAULT false); "@;
    reveal_strlit(
        "(id UBIGINT PRIMARY KEY, path VARCHAR, language VARCHAR, start_line INTEGER, end_line INTEGER, text VARCHAR, symbol VARCHAR, embedding FLOAT[",
    );
    reveal_strlit("], commit_sha VARCHAR, dirty BOOLEAN DEFAULT false, no_duplicate BOOLEAN DEFAULT false); ");
    reveal_strlit("embedding ");
    reveal_strlit("FLOAT[");
    reveal_strlit("::FLOAT[");
    reveal_strlit("::");
    reveal_strlit("]");
    reveal_strlit("]) AS d");
    let head = "CREATE TABLE IF NOT EXISTS "@ + b.collection@ + columns.take(columns.len() - 16);
    let tail = rest.skip(1) + b.index_sql();
    assert(columns.skip(columns.len() - 16) =~= "embedding "@ + "FLOAT["@);
    assert(b.table_sql() =~= head + ("embedding "@ + b.column_type()) + tail);
    text::law_has(b.table_sql(), "embedding "@ + b.column_type());
    let front = "CREATE TABLE IF NOT EXISTS "@ + b.collection@ + columns + n + rest;
    assert(b.table_sql() =~= front + b.index_sql() + Seq::<char>::empty());
    text::law_has(b.table_sql(), b.index_sql());
    let d = b.distance_sql(literal);
    assert(d =~= "array_cosine_distance(embedding, "@ + (literal + "::"@ + b.column_type()) + "]) AS d"@.skip(1));
    text::law_has(d, literal + "::"@ + b.column_type());
    if b.column_type() == other.column_type() {
        let x = b.column_type();
        let y = other.column_type();
        assert(n =~= x.subrange(6, x.len() - 1));
        assert(m =~= y.subrange(6, y.len() - 1));
        text::lemma_decimal_value(b.vector_dim as nat);
        text::lemma_decimal_value(other.vector_dim as nat);
    }
}

/// A count or a line number is what was stored, and zero where that is negative.
pub proof fn law_line_of(n: int)
    ensures
        n >= 0 ==> line_of(n) == n,
        n <= 0 ==> line_of(n) == 0,
{
}

/// An upsert succeeds exactly if every statement does and every vector has the right size.
pub proof fn law_upsert_succeeds<T, E>(
    runs: Seq<UpsertRun<T, E>>,
    replies: Seq<Result<(), E>>,
    result: Result<(), UpsertFault<E>>,
)
    requires
        is_upsert(runs, replies, result),
    ensures
        result is Ok <==> (forall|i: int| 0 <= i < replies.len() ==> #[trigger] replies[i] is Ok) && (forall|k: int|
            0 <= k < runs[0].vectors@.len() ==> (#[trigger] runs[0].vectors@[k])@.len() == runs[0].vector_dim),
{
    law_upsert_statements(runs, replies, result);
    assert(runs[0].valid());
    match result {
        Ok(_) => {
            assert forall|k: int| 0 <= k < runs[0].vectors@.len() implies (#[trigger] runs[0].vectors@[k])@.len()
                == runs[0].vector_dim by {
                assert(runs[k + 1].phase == UpsertPhase::<E>::Row(k as usize));
                assert(runs[0].sized(k));
            }
        },
        Err(fault) => {
            law_upsert_faults(runs, replies, fault);
            let last = replies.len() - 1;
            if forall|i: int| 0 <= i < replies.len() ==> #[trigger] replies[i] is Ok {
                assert(replies[0] is Ok && replies[last] is Ok);
                if let UpsertFault::Dim(e) = fault {
                    assert(runs[0].vectors@[runs.len() - 2]@.len() != runs[0].vector_dim);
                }
                if let UpsertFault::Row { id, error } = fault {
                    assert(replies[runs.len() - 2] is Ok);
                }
            }
        },
    }
}

} // verus!
