//! The vector backends: what they share, what they send and how they read what comes back.

use crate::globs;
use crate::globs::GlobFault;
use crate::text;
use globset::GlobSet;
use vstd::prelude::*;

pub mod duckdb;
pub mod embedder;
pub mod qdrant;

pub use crate::domain::embedding::{format_passage, format_query, PrefixStyle};

verus! {

/// A vector of the wrong size.
#[derive(Debug, PartialEq, Eq)]
pub struct DimError {
    pub produced: usize,
    pub vector_dim: u64,
}

impl DimError {
    /// The text of the error.
    pub open spec fn told(&self) -> Seq<char> {
        "embedder produced "@ + text::decimal(self.produced as nat) + "-d vectors but vector_dim="@ + text::decimal(
            self.vector_dim as nat,
        )
            + " — set vector_dim to match the model (e5-small=384, nomic-embed-text=768, mxbai-embed-large=1024)"@
    }

    /// What to tell the user.
    pub fn message(&self) -> (r: String)
        ensures
            r@ == self.told(),
    {
        "embedder produced ".to_string().concat(text::decimal_of(self.produced as u64).as_str()).concat(
            "-d vectors but vector_dim=",
        ).concat(text::decimal_of(self.vector_dim).as_str()).concat(
            " — set vector_dim to match the model (e5-small=384, nomic-embed-text=768, mxbai-embed-large=1024)",
        )
    }
}

/// Checks the size of a vector that an embedder produced.
pub fn check_dim(produced: usize, vector_dim: u64) -> (r: Result<(), DimError>)
    ensures
        r is Ok <==> produced == vector_dim,
        r matches Err(e) ==> e.produced == produced && e.vector_dim == vector_dim,
{
    if produced as u64 != vector_dim {
        return Err(DimError { produced, vector_dim });
    }
    Ok(())
}

/// Why there is no vector for a passage.
#[derive(Debug)]
pub enum PassageError {
    /// The embedder returned none.
    Missing,
    /// It has the wrong size.
    Dim(DimError),
}

impl PassageError {
    /// The text of the error.
    pub open spec fn told(&self) -> Seq<char> {
        match self {
            PassageError::Missing => "embedder returned no vector for the passage"@,
            PassageError::Dim(e) => e.told(),
        }
    }

    /// What to tell the user.
    pub fn message(&self) -> (r: String)
        ensures
            r@ == self.told(),
    {
        match self {
            PassageError::Missing => "embedder returned no vector for the passage".to_string(),
            PassageError::Dim(e) => e.message(),
        }
    }
}

/// Takes the vector of a passage, the last that the embedder returned, and checks its size.
pub fn finalize_passage<T>(vectors: Vec<Vec<T>>, vector_dim: u64) -> (r: Result<Vec<T>, PassageError>)
    ensures
        vectors@.len() == 0 ==> r matches Err(PassageError::Missing),
        vectors@.len() > 0 && vectors@.last()@.len() == vector_dim ==> (r matches Ok(v) && v == vectors@.last()),
        vectors@.len() > 0 && vectors@.last()@.len() != vector_dim ==> (r matches Err(PassageError::Dim(e))
            && e.produced == vectors@.last()@.len() && e.vector_dim == vector_dim),
{
    let mut vectors = vectors;
    match vectors.pop() {
        None => Err(PassageError::Missing),
        Some(v) => match check_dim(v.len(), vector_dim) {
            Ok(_) => Ok(v),
            Err(e) => Err(PassageError::Dim(e)),
        },
    }
}

/// A glob that restricts a scan to some paths.
pub struct PathFilter {
    pub set: GlobSet,
}

/// A path glob that cannot be used, and why.
#[derive(Debug)]
pub struct BadPathGlob {
    pub pattern: String,
    pub reason: String,
}

/// What is said of a path glob that parses but is beyond what the matcher can hold.
pub const GLOB_TOO_LARGE: &'static str = "the pattern is too large";

impl BadPathGlob {
    /// What to tell the user.
    pub fn message(&self) -> (r: String)
        ensures
            r@ == "invalid path_glob: "@ + self.pattern@,
    {
        "invalid path_glob: ".to_string().concat(self.pattern.as_str())
    }
}

/// Whether a single pattern can be used.
pub open spec fn path_glob_usable(pattern: Seq<char>) -> bool {
    &&& globs::glob_parses(pattern)
    &&& globs::indexable(seq![pattern])
    &&& globs::globs_compile(seq![pattern])
}

/// Why a pattern cannot be used: what the parser says of it, else that it is too large.
pub open spec fn path_glob_fault(pattern: Seq<char>) -> Seq<char> {
    if globs::indexable(seq![pattern]) && !globs::glob_parses(pattern) {
        globs::glob_fault(pattern)->Some_0
    } else {
        GLOB_TOO_LARGE@
    }
}

/// Whether a path passes an optional filter.
pub open spec fn admits(filter: Option<PathFilter>, path: Seq<char>) -> bool {
    match filter {
        Some(f) => globs::globs_match(globs::set_globs(f.set), path),
        None => true,
    }
}

/// Compiles an optional path glob.
pub fn compile_path_glob(pattern: Option<&str>) -> (r: Result<Option<PathFilter>, BadPathGlob>)
    ensures
        match pattern {
            None => r matches Ok(None),
            Some(p) => if path_glob_usable(p@) {
                r matches Ok(Some(f)) && globs::set_globs(f.set) == seq![p@]
            } else {
                r matches Err(e) && e.pattern@ == p@ && e.reason@ == path_glob_fault(p@)
            },
        },
{
    match pattern {
        None => Ok(None),
        Some(p) => {
            let mut list: Vec<String> = Vec::new();
            list.push(p.to_string());
            assert(text::views(list@) =~= seq![p@]);
            if !globs::is_indexable(&list) {
                return Err(BadPathGlob { pattern: p.to_string(), reason: GLOB_TOO_LARGE.to_string() });
            }
            match globs::compile_globs(&list) {
                Ok(set) => {
                    assert(globs::glob_parses(seq![p@][0]));
                    Ok(Some(PathFilter { set }))
                },
                Err(GlobFault::Pattern { reason, .. }) => Err(BadPathGlob { pattern: p.to_string(), reason }),
                Err(GlobFault::Together { .. }) => {
                    assert(globs::glob_parses(seq![p@][0]));
                    Err(BadPathGlob { pattern: p.to_string(), reason: GLOB_TOO_LARGE.to_string() })
                },
            }
        },
    }
}

/// Whether a path passes an optional filter.
pub fn passes(filter: &Option<PathFilter>, path: &str) -> (r: bool)
    ensures
        r == admits(*filter, path@),
{
    match filter {
        Some(f) => globs::matches_any(&f.set, path),
        None => true,
    }
}

/// How a backend is opened.
#[derive(Clone, Copy, Debug, PartialEq, Eq, Structural)]
pub enum Access {
    ReadWrite,
    ReadOnly,
}

/// Why a store could not be opened.
#[derive(Debug)]
pub enum OpenError {
    /// The stored vectors have another size.
    Mismatch(duckdb::DimMismatch),
    /// Any other reason.
    Other(String),
}

/// The file to delete where the stored vectors have another size.
pub fn dim_mismatch_duckdb_path(err: &OpenError) -> (r: Option<String>)
    ensures
        match err {
            OpenError::Mismatch(m) => r matches Some(p) && p@ == m.duckdb_path@,
            OpenError::Other(_) => r is None,
        },
{
    match err {
        OpenError::Mismatch(m) => Some(m.duckdb_path.clone()),
        OpenError::Other(_) => None,
    }
}

/// Which parts are built in.
#[derive(Clone, Copy, Debug)]
pub struct Features {
    pub qdrant: bool,
    pub duckdb: bool,
    pub ort: bool,
    pub ollama: bool,
    pub ast: bool,
    pub mcp_http: bool,
}

/// Without a path glob every path passes; with one, the paths that it matches.
pub proof fn law_path_filter(pattern: Option<Seq<char>>, filter: Option<PathFilter>, path: Seq<char>)
    requires
        pattern is None ==> filter is None,
        pattern is Some ==> (filter matches Some(f) && globs::set_globs(f.set) == seq![pattern->0]),
    ensures
        admits(filter, path) <==> (pattern is Some ==> globs::globs_match(seq![pattern->0], path)),
{
}

/// A path glob that cannot be used either does not parse, and then the parser's words are the reason, or
/// is too large.
pub proof fn law_path_glob_fault(pattern: Seq<char>)
    requires
        !path_glob_usable(pattern),
    ensures
        globs::indexable(seq![pattern]) && globs::glob_fault(pattern) is Some ==> path_glob_fault(pattern)
            == globs::glob_fault(pattern)->0,
        globs::glob_fault(pattern) is None || !globs::indexable(seq![pattern]) ==> path_glob_fault(pattern)
            == "the pattern is too large"@,
{
}

} // verus!
