//! The Qdrant backend: payloads, stored vectors, and what is decided around the server's replies.

use crate::domain::embedding;
use crate::domain::embedding::{format_passage, format_query, PrefixStyle};
use crate::domain::{CodeChunk, Hit};
use crate::lists;
use crate::score::Score;
use crate::text;
use crate::vectordbs;
use crate::vectordbs::duckdb::CountError;
use crate::vectordbs::{check_dim, passes, DimError, PathFilter};
use vstd::prelude::*;

verus! {

/// The points sent in one request.
pub const UPSERT_BATCH: usize = 32;

/// The indexing threshold outside a bulk window; inside it is zero, so that no index is built.
pub const DEFAULT_INDEXING_THRESHOLD: u64 = 20_000;

/// The points read in one page.
pub const SCROLL_PAGE: u32 = 256;

/// A value of a payload.
#[derive(Debug, PartialEq, Eq)]
pub enum PayloadValue {
    Text(String),
    Int(i64),
    Flag(bool),
    Empty,
    /// A kind that is never stored.
    Other,
}

/// The fields stored with a point, each name once.
#[derive(Debug, PartialEq, Eq)]
pub struct Payload {
    pub fields: Vec<(String, PayloadValue)>,
}

/// The value of a field; the first one where a name occurs more than once.
pub open spec fn field(fields: Seq<(String, PayloadValue)>, key: Seq<char>) -> Option<PayloadValue>
    decreases fields.len(),
{
    if fields.len() == 0 {
        None
    } else {
        match field(fields.drop_last(), key) {
            Some(v) => Some(v),
            None => if fields.last().0@ == key {
                Some(fields.last().1)
            } else {
                None
            },
        }
    }
}

/// Finds a field.
fn find<'a>(payload: &'a Payload, key: &str) -> (r: Option<&'a PayloadValue>)
    ensures
        match r {
            Some(v) => field(payload.fields@, key@) == Some(*v),
            None => field(payload.fields@, key@) is None,
        },
{
    let mut i: usize = 0;
    assert(payload.fields@.take(0) =~= Seq::<(String, PayloadValue)>::empty());
    while i < payload.fields.len()
        invariant
            i <= payload.fields@.len(),
            field(payload.fields@.take(i as int), key@) is None,
        decreases payload.fields@.len() - i,
    {
        proof {
            assert(payload.fields@.take(i + 1).drop_last() =~= payload.fields@.take(i as int));
        }
        if text::same(payload.fields[i].0.as_str(), key) {
            proof {
                lemma_field_found(payload.fields@, key@, i as int);
            }
            return Some(&payload.fields[i].1);
        }
        i += 1;
    }
    assert(payload.fields@.take(i as int) =~= payload.fields@);
    None
}

proof fn lemma_field_found(fields: Seq<(String, PayloadValue)>, key: Seq<char>, i: int)
    requires
        0 <= i < fields.len(),
        field(fields.take(i), key) is None,
        fields[i].0@ == key,
    ensures
        field(fields, key) == Some(fields[i].1),
    decreases fields.len(),
{
    if i == fields.len() - 1 {
        assert(fields.take(i) =~= fields.drop_last());
    } else {
        assert(fields.drop_last().take(i) =~= fields.take(i));
        lemma_field_found(fields.drop_last(), key, i);
    }
}

/// A text field; a number as its numeral, and anything else as the empty text.
pub open spec fn text_field(fields: Seq<(String, PayloadValue)>, key: Seq<char>) -> Seq<char> {
    match field(fields, key) {
        Some(PayloadValue::Text(s)) => s@,
        Some(PayloadValue::Int(i)) => text::signed(i as int),
        _ => Seq::empty(),
    }
}

/// A number field; a negative one, or anything else, as zero.
pub open spec fn int_field(fields: Seq<(String, PayloadValue)>, key: Seq<char>) -> usize {
    match field(fields, key) {
        Some(PayloadValue::Int(i)) => if i < 0 {
            0
        } else {
            i as usize
        },
        _ => 0,
    }
}

/// A text field that may be missing.
pub open spec fn opt_field(fields: Seq<(String, PayloadValue)>, key: Seq<char>) -> Option<String> {
    match field(fields, key) {
        Some(PayloadValue::Text(s)) => Some(s),
        _ => None,
    }
}

/// A flag; anything else counts as unset.
pub open spec fn flag_field(fields: Seq<(String, PayloadValue)>, key: Seq<char>) -> bool {
    field(fields, key) == Some(PayloadValue::Flag(true))
}

/// Reads a text field.
pub fn payload_str(payload: &Payload, key: &str) -> (r: String)
    ensures
        r@ == text_field(payload.fields@, key@),
{
    match find(payload, key) {
        Some(PayloadValue::Text(s)) => s.clone(),
        Some(PayloadValue::Int(i)) => text::signed_of(*i),
        _ => String::new(),
    }
}

/// Reads a number field.
pub fn payload_int(payload: &Payload, key: &str) -> (r: usize)
    ensures
        r == int_field(payload.fields@, key@),
{
    match find(payload, key) {
        Some(PayloadValue::Int(i)) => if *i < 0 {
            0
        } else {
            *i as usize
        },
        _ => 0,
    }
}

/// Reads a text field that may be missing.
pub fn payload_str_opt(payload: &Payload, key: &str) -> (r: Option<String>)
    ensures
        r == opt_field(payload.fields@, key@),
{
    match find(payload, key) {
        Some(PayloadValue::Text(s)) => Some(s.clone()),
        _ => None,
    }
}

/// Reads a flag.
pub fn payload_flag(payload: &Payload, key: &str) -> (r: bool)
    ensures
        r == flag_field(payload.fields@, key@),
{
    match find(payload, key) {
        Some(PayloadValue::Flag(b)) => *b,
        _ => false,
    }
}

/// The commit as a payload value.
pub open spec fn commit_value(sha: Option<String>) -> PayloadValue {
    match sha {
        Some(s) => PayloadValue::Text(s),
        None => PayloadValue::Empty,
    }
}

/// Whether `fields` are the payload of a chunk: eight fields, and the symbol where it has one.
pub open spec fn is_payload_of(fields: Seq<(String, PayloadValue)>, c: CodeChunk) -> bool {
    &&& fields.len() == if c.symbol is Some {
        9int
    } else {
        8int
    }
    &&& fields[0].0@ == "path"@ && fields[0].1 == PayloadValue::Text(c.path)
    &&& fields[1].0@ == "language"@ && fields[1].1 == PayloadValue::Text(c.language)
    &&& fields[2].0@ == "start_line"@ && fields[2].1 == PayloadValue::Int(c.start_line as i64)
    &&& fields[3].0@ == "end_line"@ && fields[3].1 == PayloadValue::Int(c.end_line as i64)
    &&& fields[4].0@ == "text"@ && fields[4].1 == PayloadValue::Text(c.text)
    &&& fields[5].0@ == "commit"@ && fields[5].1 == commit_value(c.commit_sha)
    &&& fields[6].0@ == "dirty"@ && fields[6].1 == PayloadValue::Flag(c.dirty)
    &&& fields[7].0@ == "no_duplicate"@ && fields[7].1 == PayloadValue::Flag(c.no_duplicate)
    &&& c.symbol matches Some(s) ==> fields[8].0@ == "symbol"@ && fields[8].1 == PayloadValue::Text(s)
}

/// The payload of a chunk. It is the same whether the server embeds the text or the vector is sent.
pub fn payload_for(c: &CodeChunk) -> (r: Payload)
    ensures
        is_payload_of(r.fields@, *c),
{
    let mut fields: Vec<(String, PayloadValue)> = Vec::new();
    fields.push(("path".to_string(), PayloadValue::Text(c.path.clone())));
    fields.push(("language".to_string(), PayloadValue::Text(c.language.clone())));
    fields.push(("start_line".to_string(), PayloadValue::Int(c.start_line as i64)));
    fields.push(("end_line".to_string(), PayloadValue::Int(c.end_line as i64)));
    fields.push(("text".to_string(), PayloadValue::Text(c.text.clone())));
    let commit = match &c.commit_sha {
        Some(s) => PayloadValue::Text(s.clone()),
        None => PayloadValue::Empty,
    };
    fields.push(("commit".to_string(), commit));
    fields.push(("dirty".to_string(), PayloadValue::Flag(c.dirty)));
    fields.push(("no_duplicate".to_string(), PayloadValue::Flag(c.no_duplicate)));
    if let Some(s) = &c.symbol {
        fields.push(("symbol".to_string(), PayloadValue::Text(s.clone())));
    }
    Payload { fields }
}

/// Whether `h` is the search row of a stored point.
pub open spec fn is_hit_of(fields: Seq<(String, PayloadValue)>, id: u64, score: Score, h: Hit) -> bool {
    &&& h.id == id
    &&& h.score == score
    &&& h.path@ == text_field(fields, "path"@)
    &&& h.language@ == text_field(fields, "language"@)
    &&& h.start_line == int_field(fields, "start_line"@)
    &&& h.end_line == int_field(fields, "end_line"@)
    &&& h.text@ == text_field(fields, "text"@)
    &&& h.symbol == opt_field(fields, "symbol"@)
    &&& h.commit_sha == opt_field(fields, "commit"@)
    &&& h.dirty == flag_field(fields, "dirty"@)
    &&& h.no_duplicate == flag_field(fields, "no_duplicate"@)
}

/// The search row of a stored point.
pub fn hit_of_payload(payload: &Payload, id: u64, score: Score) -> (h: Hit)
    ensures
        is_hit_of(payload.fields@, id, score, h),
{
    Hit {
        id,
        path: payload_str(payload, "path"),
        language: payload_str(payload, "language"),
        start_line: payload_int(payload, "start_line"),
        end_line: payload_int(payload, "end_line"),
        text: payload_str(payload, "text"),
        score,
        symbol: payload_str_opt(payload, "symbol"),
        commit_sha: payload_str_opt(payload, "commit"),
        dirty: payload_flag(payload, "dirty"),
        no_duplicate: payload_flag(payload, "no_duplicate"),
    }
}

proof fn lemma_field_of(fields: Seq<(String, PayloadValue)>, key: Seq<char>, i: int)
    requires
        0 <= i < fields.len(),
        fields[i].0@ == key,
        forall|k: int| 0 <= k < i ==> (#[trigger] fields[k]).0@ != key,
    ensures
        field(fields, key) == Some(fields[i].1),
{
    lemma_field_absent(fields.take(i), key);
    lemma_field_found(fields, key, i);
}

proof fn lemma_field_absent(fields: Seq<(String, PayloadValue)>, key: Seq<char>)
    requires
        forall|k: int| 0 <= k < fields.len() ==> (#[trigger] fields[k]).0@ != key,
    ensures
        field(fields, key) is None,
    decreases fields.len(),
{
    if fields.len() > 0 {
        assert(fields[fields.len() - 1].0@ != key);
        assert forall|k: int| 0 <= k < fields.drop_last().len() implies (#[trigger] fields.drop_last()[k]).0@
            != key by {
            assert(fields[k].0@ != key);
        }
        lemma_field_absent(fields.drop_last(), key);
    }
}

/// What is read of a stored chunk is what was written: every field of the payload comes back. The
/// line numbers are those that fit a signed 64-bit number, as every file's do.
pub proof fn law_payload_round_trip(
    c: CodeChunk,
    fields: Seq<(String, PayloadValue)>,
    id: u64,
    score: Score,
    h: Hit,
)
    requires
        is_payload_of(fields, c),
        is_hit_of(fields, id, score, h),
        c.start_line <= i64::MAX,
        c.end_line <= i64::MAX,
    ensures
        h.path@ == c.path@,
        h.language@ == c.language@,
        h.start_line == c.start_line,
        h.end_line == c.end_line,
        h.text@ == c.text@,
        h.symbol == c.symbol,
        h.commit_sha == c.commit_sha,
        h.dirty == c.dirty,
        h.no_duplicate == c.no_duplicate,
{
    reveal_strlit("path");
    reveal_strlit("language");
    reveal_strlit("start_line");
    reveal_strlit("end_line");
    reveal_strlit("text");
    reveal_strlit("commit");
    reveal_strlit("dirty");
    reveal_strlit("no_duplicate");
    reveal_strlit("symbol");
    assert("path"@[0] == 'p' && "language"@[0] == 'l' && "start_line"@[1] == 't' && "end_line"@[0] == 'e'
        && "text"@[0] == 't' && "commit"@[0] == 'c' && "dirty"@[0] == 'd' && "no_duplicate"@[0] == 'n'
        && "symbol"@[1] == 'y' && "start_line"@[0] == 's' && "symbol"@[0] == 's');
    lemma_field_of(fields, "path"@, 0);
    lemma_field_of(fields, "language"@, 1);
    lemma_field_of(fields, "start_line"@, 2);
    lemma_field_of(fields, "end_line"@, 3);
    lemma_field_of(fields, "text"@, 4);
    lemma_field_of(fields, "commit"@, 5);
    lemma_field_of(fields, "dirty"@, 6);
    lemma_field_of(fields, "no_duplicate"@, 7);
    if c.symbol is Some {
        lemma_field_of(fields, "symbol"@, 8);
    } else {
        lemma_field_absent(fields, "symbol"@);
    }
}

/// The vector stored with a point, as the server returns it.
pub enum StoredVector<T> {
    /// None was returned.
    Missing,
    /// Several, under names.
    Named,
    Dense(Vec<T>),
    Sparse,
    MultiDense,
    /// Only the flat list that older servers fill.
    Flat(Vec<T>),
}

/// Why a point has no usable vector.
#[derive(Clone, Copy, Debug, PartialEq, Eq, Structural)]
pub enum VectorFault {
    Missing,
    Named,
    Sparse,
    MultiDense,
    Empty,
}

impl VectorFault {
    /// The text of the error.
    pub open spec fn told(&self) -> Seq<char> {
        match self {
            VectorFault::Missing => "point has no vector (was with_vectors(true) set?)"@,
            VectorFault::Named => "named vectors are not supported; expected a single dense vector"@,
            VectorFault::Sparse => "sparse vectors are not supported; expected a dense vector"@,
            VectorFault::MultiDense => "multi-dense vectors are not supported; expected a single dense vector"@,
            VectorFault::Empty =>
                "point vector is empty (neither the nested dense field nor legacy data is set)"@,
        }
    }

    /// What to tell the user.
    pub fn message(&self) -> (r: String)
        ensures
            r@ == self.told(),
    {
        match self {
            VectorFault::Missing => "point has no vector (was with_vectors(true) set?)".to_string(),
            VectorFault::Named => "named vectors are not supported; expected a single dense vector".to_string(),
            VectorFault::Sparse => "sparse vectors are not supported; expected a dense vector".to_string(),
            VectorFault::MultiDense =>
                "multi-dense vectors are not supported; expected a single dense vector".to_string(),
            VectorFault::Empty =>
                "point vector is empty (neither the nested dense field nor legacy data is set)".to_string(),
        }
    }
}

/// The vector of a point, or why there is none. The flat list counts where it holds anything.
pub open spec fn vector_of<T>(v: StoredVector<T>) -> Result<Vec<T>, VectorFault> {
    match v {
        StoredVector::Missing => Err(VectorFault::Missing),
        StoredVector::Named => Err(VectorFault::Named),
        StoredVector::Dense(data) => Ok(data),
        StoredVector::Sparse => Err(VectorFault::Sparse),
        StoredVector::MultiDense => Err(VectorFault::MultiDense),
        StoredVector::Flat(data) => if data@.len() == 0 {
            Err(VectorFault::Empty)
        } else {
            Ok(data)
        },
    }
}

/// The vector of a point, or why there is none.
pub fn extract_vector<T>(v: StoredVector<T>) -> (r: Result<Vec<T>, VectorFault>)
    ensures
        r == vector_of(v),
{
    match v {
        StoredVector::Missing => Err(VectorFault::Missing),
        StoredVector::Named => Err(VectorFault::Named),
        StoredVector::Dense(data) => Ok(data),
        StoredVector::Sparse => Err(VectorFault::Sparse),
        StoredVector::MultiDense => Err(VectorFault::MultiDense),
        StoredVector::Flat(data) => if data.len() == 0 {
            Err(VectorFault::Empty)
        } else {
            Ok(data)
        },
    }
}

/// The number of a point; a point without one counts as zero.
pub fn point_id_u64(number: Option<u64>) -> (r: u64)
    ensures
        r == (match number {
            Some(n) => n,
            None => 0,
        }),
{
    match number {
        Some(n) => n,
        None => 0,
    }
}

/// Keeps the first row of each id but the one to leave out, at most `limit` rows.
pub fn nearest_rows(rows: Vec<Hit>, limit: u64, exclude_id: Option<u64>) -> (r: Vec<Hit>)
    ensures
        r@ == lists::first_of(lists::distinct(rows@, exclude_id), limit as usize as int),
{
    lists::keep_distinct(rows, exclude_id, limit as usize)
}

/// The rows of a page that pass the filter, with their vectors; the first of them that has none is
/// an error.
pub open spec fn page_rows<T>(page: Seq<(Hit, StoredVector<T>)>, filter: Option<PathFilter>) -> Result<
    Seq<(Hit, Vec<T>)>,
    VectorFault,
>
    decreases page.len(),
{
    if page.len() == 0 {
        Ok(Seq::empty())
    } else {
        match page_rows(page.drop_last(), filter) {
            Err(e) => Err(e),
            Ok(front) => if !vectordbs::admits(filter, page.last().0.path@) {
                Ok(front)
            } else {
                match vector_of(page.last().1) {
                    Ok(v) => Ok(front.push((page.last().0, v))),
                    Err(e) => Err(e),
                }
            },
        }
    }
}

proof fn lemma_page_error<T>(page: Seq<(Hit, StoredVector<T>)>, filter: Option<PathFilter>, n: int)
    requires
        0 <= n <= page.len(),
        page_rows(page.take(n), filter) is Err,
    ensures
        page_rows(page, filter) == page_rows(page.take(n), filter),
    decreases page.len() - n,
{
    if n < page.len() {
        assert(page.drop_last().take(n) =~= page.take(n));
        lemma_page_error(page.drop_last(), filter, n);
    } else {
        assert(page.take(n) =~= page);
    }
}

/// A walk over all points, page by page.
pub struct Scroll<T> {
    pub filter: Option<PathFilter>,
    pub rows: Vec<(Hit, Vec<T>)>,
}

/// What a walk does after a page.
pub enum ScrollStep<T> {
    /// Ask for the next page.
    More(Scroll<T>),
    /// These are all.
    Finished(Vec<(Hit, Vec<T>)>),
    Failed(VectorFault),
}

impl<T> Scroll<T> {
    /// A walk over the points whose path passes the filter.
    pub fn new(filter: Option<PathFilter>) -> (r: Scroll<T>)
        ensures
            r.filter == filter,
            r.rows@.len() == 0,
    {
        Scroll { filter, rows: Vec::new() }
    }

    /// What a walk does after a page: it adds the rows that pass the filter, and goes on unless the
    /// page is empty or none follows it.
    pub open spec fn steps(self, page: Seq<(Hit, StoredVector<T>)>, has_next: bool, out: ScrollStep<T>) -> bool {
        match page_rows(page, self.filter) {
            Err(e) => out == ScrollStep::<T>::Failed(e),
            Ok(rows) => if page.len() == 0 || !has_next {
                out matches ScrollStep::Finished(all) && all@ == self.rows@ + rows
            } else {
                out matches ScrollStep::More(next) && next.filter == self.filter && next.rows@ == self.rows@ + rows
            },
        }
    }

    /// Takes in a page. `has_next` tells whether the server named a page after it.
    pub fn step(self, page: Vec<(Hit, StoredVector<T>)>, has_next: bool) -> (out: ScrollStep<T>)
        ensures
            self.steps(page@, has_next, out),
    {
        let mut scroll = self;
        let ghost all = page@;
        let ghost base = scroll.rows@;
        let ghost filter = scroll.filter;
        let empty = page.len() == 0;
        let mut stack = lists::reversed(page);
        let ghost mut done: int = 0;
        proof {
            assert(all.take(0) =~= Seq::<(Hit, StoredVector<T>)>::empty());
            assert(base + Seq::<(Hit, Vec<T>)>::empty() =~= base);
        }
        while stack.len() > 0
            invariant
                0 <= done <= all.len(),
                stack@ =~= all.skip(done).reverse(),
                scroll.filter == filter,
                filter == self.filter,
                all == page@,
                page_rows(all.take(done), filter) matches Ok(rows) && scroll.rows@ == base + rows,
            decreases stack@.len(),
        {
            if let Some((hit, stored)) = stack.pop() {
                proof {
                    assert((hit, stored) == all[done]);
                    assert(all.take(done + 1).drop_last() =~= all.take(done));
                    assert(all.take(done + 1).last() == (hit, stored));
                }
                let ghost rows = page_rows(all.take(done), filter)->Ok_0;
                if passes(&scroll.filter, hit.path.as_str()) {
                    match extract_vector(stored) {
                        Ok(v) => {
                            scroll.rows.push((hit, v));
                            assert(scroll.rows@ =~= base + rows.push((hit, v)));
                        },
                        Err(e) => {
                            proof {
                                lemma_page_error(all, filter, done + 1);
                            }
                            return ScrollStep::Failed(e);
                        },
                    }
                }
                proof {
                    done = done + 1;
                }
            }
        }
        assert(all.take(done) =~= all);
        if empty || !has_next {
            ScrollStep::Finished(scroll.rows)
        } else {
            ScrollStep::More(scroll)
        }
    }
}

/// What to tell the user where no server is named.
pub const URL_UNSET: &'static str =
    "set the Qdrant URL via the QDRANT_URL env var or `qdrant.url` in sai-cfg.yml, e.g. https://<id>.<region>.aws.cloud.qdrant.io:6334";

/// What to tell the user where no API key is set.
pub const KEY_UNSET: &'static str = "QDRANT_API_KEY not set — Qdrant Cloud will reject the request";

/// What to tell the user where a local query vector is asked of a backend that embeds on the server.
pub const NO_LOCAL_QUERY: &'static str =
    "qdrant backend embeds server-side; no local query embedding (set embedder: ort or ollama)";

/// What to tell the user where a local passage vector is asked of a backend that embeds on the server.
pub const NO_LOCAL_PASSAGE: &'static str =
    "qdrant backend embeds server-side; no local passage embedding (set embedder: ort or ollama)";

/// The server's address: the environment's where it is set and not empty, else the plan's.
pub fn client_url(env: Option<&str>, configured: &Option<String>) -> (r: Result<String, &'static str>)
    ensures
        match env {
            Some(u) if u@.len() > 0 => r matches Ok(s) && s@ == u@,
            _ => match *configured {
                Some(u) => r matches Ok(s) && s@ == u@,
                None => r matches Err(e) && e@ == URL_UNSET@,
            },
        },
{
    if let Some(u) = env {
        if text::chars_of(u).len() > 0 {
            return Ok(u.to_string());
        }
    }
    match configured {
        Some(u) => Ok(u.clone()),
        None => Err(URL_UNSET),
    }
}

/// The API key: the environment's where it is set and not empty.
pub fn api_key(env: Option<&str>) -> (r: Option<String>)
    ensures
        match env {
            Some(k) if k@.len() > 0 => r matches Some(s) && s@ == k@,
            _ => r is None,
        },
{
    if let Some(k) = env {
        if text::chars_of(k).len() > 0 {
            return Some(k.to_string());
        }
    }
    None
}

/// What is done to get a collection ready.
#[derive(Clone, Copy, Debug, PartialEq, Eq, Structural)]
pub enum ReadyAction {
    DeleteCollection,
    CreateCollection,
    /// An index on the path, for deleting by path.
    CreatePathIndex,
    /// Compare the size of the stored vectors.
    ValidateDim,
}

/// What is done to get a collection ready.
pub open spec fn ready_actions(recreate: bool, present: bool) -> Seq<ReadyAction> {
    if present && recreate {
        seq![ReadyAction::DeleteCollection, ReadyAction::CreateCollection, ReadyAction::CreatePathIndex]
    } else if present {
        seq![ReadyAction::ValidateDim]
    } else {
        seq![ReadyAction::CreateCollection, ReadyAction::CreatePathIndex]
    }
}

/// What is done to get a collection ready, where `present` tells whether it is there.
pub fn ensure_ready(recreate: bool, present: bool) -> (r: Vec<ReadyAction>)
    ensures
        r@ == ready_actions(recreate, present),
{
    let mut out: Vec<ReadyAction> = Vec::new();
    if present && recreate {
        out.push(ReadyAction::DeleteCollection);
    }
    if present && !recreate {
        out.push(ReadyAction::ValidateDim);
    } else {
        out.push(ReadyAction::CreateCollection);
        out.push(ReadyAction::CreatePathIndex);
    }
    assert(out@ =~= ready_actions(recreate, present));
    out
}

/// The collection holds vectors of another size.
#[derive(Debug)]
pub struct CollectionMismatch {
    pub collection: String,
    pub stored: u64,
    pub vector_dim: u64,
}

impl CollectionMismatch {
    /// What to tell the user.
    pub fn message(&self) -> (r: String)
        ensures
            r@ == "Qdrant collection '"@ + self.collection@ + "' has vector dimension "@ + text::decimal(
                self.stored as nat,
            ) + " but this run uses vector_dim="@ + text::decimal(self.vector_dim as nat)
                + ". This usually means the embedding model was changed without recreating the collection. Re-run with --recreate (or manually delete the collection in the Qdrant Cloud UI)."@,
    {
        "Qdrant collection '".to_string().concat(self.collection.as_str()).concat("' has vector dimension ").concat(
            text::decimal_of(self.stored).as_str(),
        ).concat(" but this run uses vector_dim=").concat(text::decimal_of(self.vector_dim).as_str()).concat(
            ". This usually means the embedding model was changed without recreating the collection. Re-run with --recreate (or manually delete the collection in the Qdrant Cloud UI).",
        )
    }
}

/// Compares the size of the stored vectors, where the server tells it, with the plan's.
pub fn validate_existing_collection_dim(collection: &str, stored: Option<u64>, vector_dim: u64) -> (r: Result<
    (),
    CollectionMismatch,
>)
    ensures
        r is Err <==> (stored matches Some(d) && d != vector_dim),
        r matches Err(e) ==> e.collection@ == collection@ && stored == Some(e.stored) && e.vector_dim == vector_dim,
{
    match stored {
        Some(d) => if d != vector_dim {
            Err(CollectionMismatch { collection: collection.to_string(), stored: d, vector_dim })
        } else {
            Ok(())
        },
        None => Ok(()),
    }
}

/// Why no points could be built.
#[derive(Debug)]
pub enum PointError {
    Count(CountError),
    Dim(DimError),
}

impl PointError {
    /// What to tell the user.
    pub fn message(&self) -> (r: String)
        ensures
            r@ == (match self {
                PointError::Count(e) => "embedder returned "@ + text::decimal(e.vectors as nat) + " vectors for "@
                    + text::decimal(e.chunks as nat) + " chunks"@,
                PointError::Dim(e) => e.told(),
            }),
    {
        match self {
            PointError::Count(e) => e.message(),
            PointError::Dim(e) => e.message(),
        }
    }
}

/// Whether the vector at `i` is the first of the wrong size.
pub open spec fn first_misfit<T>(vectors: Seq<Vec<T>>, vector_dim: u64, i: int) -> bool {
    &&& 0 <= i < vectors.len()
    &&& vectors[i]@.len() != vector_dim
    &&& forall|j: int| 0 <= j < i ==> (#[trigger] vectors[j])@.len() == vector_dim
}

/// Checks that there is one vector of the right size for each of `chunks` chunks.
pub fn check_vectors<T>(vectors: &Vec<Vec<T>>, chunks: usize, vector_dim: u64) -> (r: Result<(), PointError>)
    ensures
        r is Ok <==> vectors@.len() == chunks && forall|i: int|
            0 <= i < vectors@.len() ==> (#[trigger] vectors@[i])@.len() == vector_dim,
        r matches Err(PointError::Count(e)) ==> vectors@.len() != chunks && e.vectors == vectors@.len() && e.chunks
            == chunks,
        r matches Err(PointError::Dim(e)) ==> vectors@.len() == chunks && e.vector_dim == vector_dim && exists|i: int|
            #[trigger] first_misfit(vectors@, vector_dim, i) && e.produced == vectors@[i]@.len(),
{
    if vectors.len() != chunks {
        return Err(PointError::Count(CountError { vectors: vectors.len(), chunks }));
    }
    let mut i: usize = 0;
    while i < vectors.len()
        invariant
            i <= vectors@.len() == chunks,
            forall|j: int| 0 <= j < i ==> (#[trigger] vectors@[j])@.len() == vector_dim,
        decreases vectors@.len() - i,
    {
        match check_dim(vectors[i].len(), vector_dim) {
            Ok(_) => {},
            Err(e) => {
                assert(first_misfit(vectors@, vector_dim, i as int));
                return Err(PointError::Dim(e));
            },
        }
        i += 1;
    }
    Ok(())
}

/// The document that the server embeds for a chunk.
pub fn passage_document(style: PrefixStyle, c: &CodeChunk) -> (r: String)
    ensures
        r@ == embedding::passage_prefix(style) + c.text@,
{
    format_passage(style, c.text.as_str())
}

/// The document that the server embeds for a query.
pub fn query_document(style: PrefixStyle, query: &str) -> (r: String)
    ensures
        r@ == embedding::query_prefix(style) + query@,
{
    format_query(style, query)
}

/// The end of the request that begins at `start`: `UPSERT_BATCH` points on, or the last point.
pub fn batch_end(start: usize, total: usize) -> (r: usize)
    requires
        start <= total,
    ensures
        r == if total - start < UPSERT_BATCH {
            total as int
        } else {
            start + UPSERT_BATCH
        },
        start <= r <= total,
        start < total ==> start < r,
{
    if total - start < UPSERT_BATCH {
        total
    } else {
        start + UPSERT_BATCH
    }
}

/// What to tell the user where a request of `n` points fails.
pub fn upsert_failure(n: usize, local: bool) -> (r: String)
    ensures
        r@ == if local {
            "upsert of "@ + text::decimal(n as nat) + " points failed"@
        } else {
            "upsert of "@ + text::decimal(n as nat) + " points failed (is Inference enabled on the cluster?)"@
        },
{
    "upsert of ".to_string().concat(text::decimal_of(n as u64).as_str()).concat(
        if local {
            " points failed"
        } else {
            " points failed (is Inference enabled on the cluster?)"
        },
    )
}

/// A field is read from the first entry of its name, and missing exactly if no entry has the name.
pub proof fn law_field(fields: Seq<(String, PayloadValue)>, key: Seq<char>)
    ensures
        field(fields, key) is None <==> forall|i: int| 0 <= i < fields.len() ==> (#[trigger] fields[i]).0@ != key,
        field(fields, key) matches Some(v) ==> exists|i: int|
            {
                &&& 0 <= i < fields.len()
                &&& (#[trigger] fields[i]).0@ == key
                &&& fields[i].1 == v
                &&& forall|j: int| 0 <= j < i ==> (#[trigger] fields[j]).0@ != key
            },
    decreases fields.len(),
{
    if fields.len() > 0 {
        let front = fields.drop_last();
        law_field(front, key);
        let last = fields.len() - 1;
        if field(front, key) is Some {
            let v = field(front, key)->0;
            let i = choose|i: int|
                {
                    &&& 0 <= i < front.len()
                    &&& (#[trigger] front[i]).0@ == key
                    &&& front[i].1 == v
                    &&& forall|j: int| 0 <= j < i ==> (#[trigger] front[j]).0@ != key
                };
            assert(fields[i] == front[i]);
            assert forall|j: int| 0 <= j < i implies (#[trigger] fields[j]).0@ != key by {
                assert(front[j].0@ != key);
            }
        } else {
            assert forall|j: int| 0 <= j < last implies (#[trigger] fields[j]).0@ != key by {
                assert(front[j].0@ != key);
            }
            assert(fields[last] == fields.last());
        }
    }
}

/// A field that holds something else than what is read of it counts as empty, zero or unset; a number
/// read as a text is its numeral, and a negative one read as a number is zero.
pub proof fn law_field_readings(fields: Seq<(String, PayloadValue)>, key: Seq<char>)
    ensures
        field(fields, key) matches Some(PayloadValue::Text(s)) ==> {
            &&& text_field(fields, key) == s@
            &&& opt_field(fields, key) == Some(s)
            &&& int_field(fields, key) == 0
            &&& !flag_field(fields, key)
        },
        field(fields, key) matches Some(PayloadValue::Int(i)) ==> {
            &&& i >= 0 ==> text_field(fields, key) == text::decimal(i as nat) && int_field(fields, key) == i as usize
            &&& i < 0 ==> text_field(fields, key) == seq!['-'] + text::decimal((-i) as nat) && int_field(fields, key)
                == 0
            &&& opt_field(fields, key) is None
            &&& !flag_field(fields, key)
        },
        field(fields, key) matches Some(PayloadValue::Flag(b)) ==> {
            &&& flag_field(fields, key) == b
            &&& text_field(fields, key).len() == 0
            &&& opt_field(fields, key) is None
            &&& int_field(fields, key) == 0
        },
        field(fields, key) is None || field(fields, key) == Some(PayloadValue::Empty) ==> {
            &&& text_field(fields, key).len() == 0
            &&& opt_field(fields, key) is None
            &&& int_field(fields, key) == 0
            &&& !flag_field(fields, key)
        },
{
}

/// A point has a usable vector exactly if it is a single dense one, or a flat one that holds anything,
/// and it is taken as it is.
pub proof fn law_usable_vector<T>(v: StoredVector<T>)
    ensures
        vector_of(v) is Ok <==> (v is Dense || (v matches StoredVector::Flat(data) && data@.len() > 0)),
        v matches StoredVector::Dense(data) ==> vector_of(v) == Ok::<Vec<T>, VectorFault>(data),
        v matches StoredVector::Flat(data) ==> data@.len() > 0 ==> vector_of(v) == Ok::<Vec<T>, VectorFault>(data),
        v is Missing <==> vector_of(v) == Err::<Vec<T>, VectorFault>(VectorFault::Missing),
        v is Named <==> vector_of(v) == Err::<Vec<T>, VectorFault>(VectorFault::Named),
        v is Sparse <==> vector_of(v) == Err::<Vec<T>, VectorFault>(VectorFault::Sparse),
        v is MultiDense <==> vector_of(v) == Err::<Vec<T>, VectorFault>(VectorFault::MultiDense),
{
}

/// Whether a path passes a filter: there is none, or it matches.
pub open spec fn wanted_path(filter: Option<PathFilter>, path: Seq<char>) -> bool {
    filter is Some ==> crate::globs::globs_match(crate::globs::set_globs(filter->0.set), path)
}

/// A page gives the points whose path passes the filter, all of them, in their order, each with its
/// vector. It fails exactly if one of those has no usable vector, with the fault of the first.
pub proof fn law_page_rows<T>(page: Seq<(Hit, StoredVector<T>)>, filter: Option<PathFilter>) -> (at: Seq<int>)
    ensures
        page_rows(page, filter) matches Ok(rows) ==> {
            &&& lists::are_places(at, page.len() as int)
            &&& at.len() == rows.len()
            &&& forall|k: int|
                0 <= k < at.len() ==> (#[trigger] rows[k]).0 == page[at[k]].0 && Ok::<Vec<T>, VectorFault>(rows[k].1)
                    == vector_of(page[at[k]].1)
            &&& forall|i: int|
                0 <= i < page.len() ==> (#[trigger] at.contains(i) <==> wanted_path(filter, page[i].0.path@))
        },
        page_rows(page, filter) matches Err(e) ==> exists|i: int|
            {
                &&& 0 <= i < page.len()
                &&& wanted_path(filter, (#[trigger] page[i]).0.path@)
                &&& vector_of(page[i].1) == Err::<Vec<T>, VectorFault>(e)
                &&& forall|j: int|
                    0 <= j < i && wanted_path(filter, (#[trigger] page[j]).0.path@) ==> vector_of(page[j].1) is Ok
            },
    decreases page.len(),
{
    if page.len() == 0 {
        Seq::empty()
    } else {
        let front = page.drop_last();
        let n = front.len() as int;
        let before = law_page_rows(front, filter);
        let last = page.last();
        assert(page[n] == last);
        match page_rows(front, filter) {
            Err(e) => {
                let i = choose|i: int|
                    {
                        &&& 0 <= i < front.len()
                        &&& wanted_path(filter, (#[trigger] front[i]).0.path@)
                        &&& vector_of(front[i].1) == Err::<Vec<T>, VectorFault>(e)
                        &&& forall|j: int|
                            0 <= j < i && wanted_path(filter, (#[trigger] front[j]).0.path@) ==> vector_of(
                                front[j].1,
                            ) is Ok
                    };
                assert(page[i] == front[i]);
                assert forall|j: int| 0 <= j < i && wanted_path(filter, (#[trigger] page[j]).0.path@) implies vector_of(
                    page[j].1,
                ) is Ok by {
                    assert(front[j] == page[j]);
                }
                before
            },
            Ok(rows) => {
                let kept = wanted_path(filter, last.0.path@);
                assert(kept == vectordbs::admits(filter, last.0.path@));
                assert(!before.contains(n)) by {
                    if before.contains(n) {
                        let k = choose|k: int| 0 <= k < before.len() && before[k] == n;
                        assert(before[k] < n);
                    }
                }
                let at = if kept {
                    before.push(n)
                } else {
                    before
                };
                if kept && vector_of(last.1) is Err {
                    assert forall|j: int| 0 <= j < n && wanted_path(filter, (#[trigger] page[j]).0.path@) implies
                    vector_of(page[j].1) is Ok by {
                        assert(front[j] == page[j]);
                        assert(before.contains(j));
                        let k = choose|k: int| 0 <= k < before.len() && before[k] == j;
                        assert(rows[k].0 == front[before[k]].0);
                    }
                } else {
                    let all = page_rows(page, filter)->Ok_0;
                    assert forall|k: int| 0 <= k < at.len() implies (#[trigger] all[k]).0 == page[at[k]].0 && Ok::<
                        Vec<T>,
                        VectorFault,
                    >(all[k].1) == vector_of(page[at[k]].1) by {
                        if k < rows.len() {
                            assert(all[k] == rows[k]);
                            assert(before[k] < n);
                            assert(page[before[k]] == front[before[k]]);
                        }
                    }
                    assert forall|i: int| 0 <= i < page.len() implies (#[trigger] at.contains(i) <==> wanted_path(
                        filter,
                        page[i].0.path@,
                    )) by {
                        if i < n {
                            assert(front[i] == page[i]);
                            assert(before.contains(i) <==> at.contains(i)) by {
                                if before.contains(i) {
                                    let k = choose|k: int| 0 <= k < before.len() && before[k] == i;
                                    assert(at[k] == i);
                                }
                                if at.contains(i) {
                                    let k = choose|k: int| 0 <= k < at.len() && at[k] == i;
                                    assert(before[k] == i);
                                }
                            }
                        } else if kept {
                            assert(at[before.len() as int] == n);
                        }
                    }
                }
                at
            },
        }
    }
}

/// Whether a walk went through these states, one for each page, and ended with `out`.
pub open spec fn walked<T>(
    scrolls: Seq<Scroll<T>>,
    pages: Seq<Seq<(Hit, StoredVector<T>)>>,
    nexts: Seq<bool>,
    out: ScrollStep<T>,
) -> bool {
    &&& scrolls.len() == pages.len() == nexts.len() > 0
    &&& scrolls[0].rows@.len() == 0
    &&& !(out is More)
    &&& forall|k: int|
        0 <= k < scrolls.len() - 1 ==> #[trigger] scrolls[k].steps(pages[k], nexts[k], ScrollStep::More(scrolls[k + 1]))
    &&& scrolls.last().steps(pages.last(), nexts.last(), out)
}

/// The points of some pages, page after page.
pub open spec fn all_points<T>(pages: Seq<Seq<(Hit, StoredVector<T>)>>) -> Seq<(Hit, StoredVector<T>)>
    decreases pages.len(),
{
    if pages.len() == 0 {
        Seq::empty()
    } else {
        all_points(pages.drop_last()) + pages.last()
    }
}

proof fn lemma_rows_of_both<T>(
    a: Seq<(Hit, StoredVector<T>)>,
    b: Seq<(Hit, StoredVector<T>)>,
    filter: Option<PathFilter>,
)
    ensures
        page_rows(a + b, filter) == match (page_rows(a, filter), page_rows(b, filter)) {
            (Ok(x), Ok(y)) => Ok(x + y),
            (Err(e), _) => Err::<Seq<(Hit, Vec<T>)>, VectorFault>(e),
            (Ok(_), Err(e)) => Err(e),
        },
    decreases b.len(),
{
    if b.len() == 0 {
        assert(a + b =~= a);
        if let Ok(x) = page_rows(a, filter) {
            assert(x + Seq::<(Hit, Vec<T>)>::empty() =~= x);
        }
    } else {
        let c = b.drop_last();
        lemma_rows_of_both(a, c, filter);
        assert((a + b).drop_last() =~= a + c);
        assert((a + b).last() == b.last());
        if let (Ok(x), Ok(y)) = (page_rows(a, filter), page_rows(c, filter)) {
            if let Ok(v) = vector_of(b.last().1) {
                assert((x + y).push((b.last().0, v)) =~= x + y.push((b.last().0, v)));
            }
        }
    }
}

proof fn lemma_walked<T>(
    scrolls: Seq<Scroll<T>>,
    pages: Seq<Seq<(Hit, StoredVector<T>)>>,
    nexts: Seq<bool>,
    out: ScrollStep<T>,
    n: int,
)
    requires
        walked(scrolls, pages, nexts, out),
        0 <= n < scrolls.len(),
    ensures
        scrolls[n].filter == scrolls[0].filter,
        page_rows(all_points(pages.take(n)), scrolls[0].filter) == Ok::<Seq<(Hit, Vec<T>)>, VectorFault>(
            scrolls[n].rows@,
        ),
    decreases n,
{
    let filter = scrolls[0].filter;
    if n == 0 {
        assert(pages.take(0) =~= Seq::<Seq<(Hit, StoredVector<T>)>>::empty());
        assert(scrolls[0].rows@ =~= Seq::<(Hit, Vec<T>)>::empty());
    } else {
        lemma_walked(scrolls, pages, nexts, out, n - 1);
        assert(scrolls[n - 1].steps(pages[n - 1], nexts[n - 1], ScrollStep::More(scrolls[n - 1 + 1])));
        assert(pages.take(n).drop_last() =~= pages.take(n - 1));
        lemma_rows_of_both(all_points(pages.take(n - 1)), pages[n - 1], filter);
    }
}

/// A walk collects the points of all pages whose path passes the filter, in their order, each with its
/// vector; a page that is empty, or that no page follows, is the last. It fails exactly if one of those
/// points has no usable vector.
pub proof fn law_walk_collects_all<T>(
    scrolls: Seq<Scroll<T>>,
    pages: Seq<Seq<(Hit, StoredVector<T>)>>,
    nexts: Seq<bool>,
    out: ScrollStep<T>,
) -> (at: Seq<int>)
    requires
        walked(scrolls, pages, nexts, out),
    ensures
        forall|k: int| 0 <= k < pages.len() - 1 ==> (#[trigger] pages[k]).len() > 0 && nexts[k],
        out matches ScrollStep::Finished(rows) ==> {
            &&& pages.last().len() == 0 || !nexts.last()
            &&& lists::are_places(at, all_points(pages).len() as int)
            &&& at.len() == rows@.len()
            &&& forall|k: int|
                0 <= k < at.len() ==> (#[trigger] rows@[k]).0 == all_points(pages)[at[k]].0 && Ok::<
                    Vec<T>,
                    VectorFault,
                >(rows@[k].1) == vector_of(all_points(pages)[at[k]].1)
            &&& forall|i: int|
                0 <= i < all_points(pages).len() ==> (#[trigger] at.contains(i) <==> wanted_path(
                    scrolls[0].filter,
                    all_points(pages)[i].0.path@,
                ))
        },
        out matches ScrollStep::Failed(e) ==> exists|i: int|
            {
                &&& 0 <= i < all_points(pages).len()
                &&& wanted_path(scrolls[0].filter, (#[trigger] all_points(pages)[i]).0.path@)
                &&& vector_of(all_points(pages)[i].1) == Err::<Vec<T>, VectorFault>(e)
            },
{
    let n = pages.len() - 1;
    let filter = scrolls[0].filter;
    lemma_walked(scrolls, pages, nexts, out, n);
    assert(pages.drop_last() =~= pages.take(n));
    lemma_rows_of_both(all_points(pages.take(n)), pages[n], filter);
    assert forall|k: int| 0 <= k < pages.len() - 1 implies (#[trigger] pages[k]).len() > 0 && nexts[k] by {
        assert(scrolls[k].steps(pages[k], nexts[k], ScrollStep::More(scrolls[k + 1])));
    }
    law_page_rows(all_points(pages), filter)
}

/// A collection that is there is deleted and made anew exactly if that is asked for, and else only its
/// dimension is checked; one that is not there is created. Whatever is created gets the index on paths.
pub proof fn law_ready_actions(recreate: bool, present: bool)
    ensures
        ready_actions(recreate, present).contains(ReadyAction::DeleteCollection) <==> present && recreate,
        ready_actions(recreate, present).contains(ReadyAction::ValidateDim) <==> present && !recreate,
        ready_actions(recreate, present).contains(ReadyAction::CreateCollection) <==> !present || recreate,
        ready_actions(recreate, present).contains(ReadyAction::CreatePathIndex) <==> !present || recreate,
        ready_actions(recreate, present).last() != ReadyAction::DeleteCollection,
        present && recreate ==> ready_actions(recreate, present)[0] == ReadyAction::DeleteCollection
            && ready_actions(recreate, present)[1] == ReadyAction::CreateCollection,
        !present ==> ready_actions(recreate, present)[0] == ReadyAction::CreateCollection,
{
    let all = ready_actions(recreate, present);
    assert(all.contains(all[0]));
    if all.len() > 1 {
        assert(all.contains(all[1]));
    }
    if all.len() > 2 {
        assert(all.contains(all[2]));
    }
}

/// What a stored point says of its chunk, by name: nine fields, of which the symbol is missing where the
/// chunk has none, and no others.
pub proof fn law_payload_fields(c: CodeChunk, fields: Seq<(String, PayloadValue)>, key: Seq<char>)
    requires
        is_payload_of(fields, c),
    ensures
        field(fields, "path"@) == Some(PayloadValue::Text(c.path)),
        field(fields, "language"@) == Some(PayloadValue::Text(c.language)),
        field(fields, "start_line"@) == Some(PayloadValue::Int(c.start_line as i64)),
        field(fields, "end_line"@) == Some(PayloadValue::Int(c.end_line as i64)),
        field(fields, "text"@) == Some(PayloadValue::Text(c.text)),
        c.commit_sha matches Some(s) ==> field(fields, "commit"@) == Some(PayloadValue::Text(s)),
        c.commit_sha is None ==> field(fields, "commit"@) == Some(PayloadValue::Empty),
        field(fields, "dirty"@) == Some(PayloadValue::Flag(c.dirty)),
        field(fields, "no_duplicate"@) == Some(PayloadValue::Flag(c.no_duplicate)),
        c.symbol matches Some(s) ==> field(fields, "symbol"@) == Some(PayloadValue::Text(s)),
        c.symbol is None ==> field(fields, "symbol"@) is None,
        field(fields, key) is Some ==> key == "path"@ || key == "language"@ || key == "start_line"@ || key
            == "end_line"@ || key == "text"@ || key == "commit"@ || key == "dirty"@ || key == "no_duplicate"@ || key
            == "symbol"@,
{
    reveal_strlit("path");
    reveal_strlit("language");
    reveal_strlit("start_line");
    reveal_strlit("end_line");
    reveal_strlit("text");
    reveal_strlit("commit");
    reveal_strlit("dirty");
    reveal_strlit("no_duplicate");
    reveal_strlit("symbol");
    assert("path"@[0] == 'p' && "language"@[0] == 'l' && "start_line"@[1] == 't' && "end_line"@[0] == 'e'
        && "text"@[0] == 't' && "commit"@[0] == 'c' && "dirty"@[0] == 'd' && "no_duplicate"@[0] == 'n'
        && "symbol"@[1] == 'y' && "start_line"@[0] == 's' && "symbol"@[0] == 's');
    lemma_field_of(fields, "path"@, 0);
    lemma_field_of(fields, "language"@, 1);
    lemma_field_of(fields, "start_line"@, 2);
    lemma_field_of(fields, "end_line"@, 3);
    lemma_field_of(fields, "text"@, 4);
    lemma_field_of(fields, "commit"@, 5);
    lemma_field_of(fields, "dirty"@, 6);
    lemma_field_of(fields, "no_duplicate"@, 7);
    if c.symbol is Some {
        lemma_field_of(fields, "symbol"@, 8);
    } else {
        lemma_field_absent(fields, "symbol"@);
    }
    law_field(fields, key);
    if field(fields, key) is Some {
        let v = field(fields, key)->0;
        let i = choose|i: int|
            {
                &&& 0 <= i < fields.len()
                &&& (#[trigger] fields[i]).0@ == key
                &&& fields[i].1 == v
                &&& forall|j: int| 0 <= j < i ==> (#[trigger] fields[j]).0@ != key
            };
        assert(i == 0 || i == 1 || i == 2 || i == 3 || i == 4 || i == 5 || i == 6 || i == 7 || i == 8);
    }
}

} // verus!
