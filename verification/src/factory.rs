//! Which store a plan asks for, and whether this binary can open it.

use crate::domain::Plan;
use crate::text;
use crate::vectordbs::embedder;
use crate::vectordbs::embedder::{build_embedder, Embedder, EmbedderError};
use crate::vectordbs::{Access, Features};
use vstd::prelude::*;

verus! {

/// A store to open.
#[derive(Debug)]
pub enum StoreChoice {
    /// Qdrant, where the server embeds.
    QdrantServer,
    /// Qdrant, with vectors computed here.
    QdrantLocal(Embedder),
    /// DuckDB, with vectors computed here.
    DuckDb { embedder: Embedder, access: Access },
}

/// Why there is no store for a plan.
#[derive(Debug)]
pub enum FactoryError {
    QdrantMissing,
    DuckDbMissing,
    /// Neither local embedder is built in.
    NoLocalEmbedder,
    UnknownQdrantEmbedder(String),
    UnknownBackend(String),
    Embedder(EmbedderError),
}

impl FactoryError {
    /// The text of the error.
    pub open spec fn told(&self) -> Seq<char> {
        match self {
            FactoryError::QdrantMissing =>
                "backend 'qdrant' selected but this binary was built without the 'qdrant' feature (rebuild with --features qdrant)"@,
            FactoryError::DuckDbMissing =>
                "backend 'duckdb' selected but this binary was built without the 'duckdb' feature (rebuild with --features duckdb)"@,
            FactoryError::NoLocalEmbedder =>
                "local embedding for qdrant requires a local embedder — rebuild with --features qdrant,ort (or qdrant,ollama)"@,
            FactoryError::UnknownQdrantEmbedder(name) => "unknown embedder '"@ + name@
                + "' for the qdrant backend (expected 'qdrant', 'ort', or 'ollama')"@,
            FactoryError::UnknownBackend(name) => "unknown backend '"@ + name@
                + "' (expected 'qdrant' or 'duckdb')"@,
            FactoryError::Embedder(e) => e.told(),
        }
    }

    /// What to tell the user.
    pub fn message(&self) -> (r: String)
        ensures
            r@ == self.told(),
    {
        match self {
            FactoryError::QdrantMissing =>
                "backend 'qdrant' selected but this binary was built without the 'qdrant' feature (rebuild with --features qdrant)".to_string(),
            FactoryError::DuckDbMissing =>
                "backend 'duckdb' selected but this binary was built without the 'duckdb' feature (rebuild with --features duckdb)".to_string(),
            FactoryError::NoLocalEmbedder =>
                "local embedding for qdrant requires a local embedder — rebuild with --features qdrant,ort (or qdrant,ollama)".to_string(),
            FactoryError::UnknownQdrantEmbedder(name) => "unknown embedder '".to_string().concat(
                name.as_str(),
            ).concat("' for the qdrant backend (expected 'qdrant', 'ort', or 'ollama')"),
            FactoryError::UnknownBackend(name) => "unknown backend '".to_string().concat(name.as_str()).concat(
                "' (expected 'qdrant' or 'duckdb')",
            ),
            FactoryError::Embedder(e) => e.message(),
        }
    }
}

/// Whether `r` is what asking for the embedder of a plan gives.
pub open spec fn is_embedder_of(plan: Plan, features: Features, r: Result<Embedder, EmbedderError>) -> bool {
    if plan.embedder@ == "ort"@ {
        if features.ort {
            r matches Ok(e) && embedder::is_ort_of(e, plan)
        } else {
            r matches Err(EmbedderError::OrtMissing)
        }
    } else if plan.embedder@ == "ollama"@ {
        if !features.ollama {
            r matches Err(EmbedderError::OllamaMissing)
        } else if embedder::ollama_model_set(plan) {
            r matches Ok(e) && embedder::is_ollama_of(e, plan)
        } else {
            r matches Err(EmbedderError::OllamaModelUnset)
        }
    } else {
        r matches Err(EmbedderError::Unknown(name)) && name@ == plan.embedder@
    }
}

/// Whether `r` is the choice of store for a plan. The backend decides first, then whether it is
/// built in, then the embedder.
pub open spec fn is_store_of(
    plan: Plan,
    access: Access,
    features: Features,
    r: Result<StoreChoice, FactoryError>,
) -> bool {
    if plan.backend@ == "qdrant"@ {
        if !features.qdrant {
            r matches Err(FactoryError::QdrantMissing)
        } else if plan.embedder@ == "qdrant"@ {
            r matches Ok(StoreChoice::QdrantServer)
        } else if !plan.embeds_locally() {
            r matches Err(FactoryError::UnknownQdrantEmbedder(name)) && name@ == plan.embedder@
        } else if !features.ort && !features.ollama {
            r matches Err(FactoryError::NoLocalEmbedder)
        } else {
            match r {
                Ok(StoreChoice::QdrantLocal(e)) => is_embedder_of(plan, features, Ok(e)),
                Err(FactoryError::Embedder(e)) => is_embedder_of(plan, features, Err(e)),
                _ => false,
            }
        }
    } else if plan.backend@ == "duckdb"@ {
        if !features.duckdb {
            r matches Err(FactoryError::DuckDbMissing)
        } else {
            match r {
                Ok(StoreChoice::DuckDb { embedder, access: a }) => a == access && is_embedder_of(
                    plan,
                    features,
                    Ok(embedder),
                ),
                Err(FactoryError::Embedder(e)) => is_embedder_of(plan, features, Err(e)),
                _ => false,
            }
        }
    } else {
        r matches Err(FactoryError::UnknownBackend(name)) && name@ == plan.backend@
    }
}

/// Chooses the store of a plan.
pub fn build_store(plan: &Plan, access: Access, features: &Features) -> (r: Result<StoreChoice, FactoryError>)
    ensures
        is_store_of(*plan, access, *features, r),
{
    if text::same(plan.backend.as_str(), "qdrant") {
        if !features.qdrant {
            return Err(FactoryError::QdrantMissing);
        }
        if text::same(plan.embedder.as_str(), "qdrant") {
            return Ok(StoreChoice::QdrantServer);
        }
        if !plan.can_embed_locally() {
            return Err(FactoryError::UnknownQdrantEmbedder(plan.embedder.clone()));
        }
        if !features.ort && !features.ollama {
            return Err(FactoryError::NoLocalEmbedder);
        }
        match build_embedder(plan, features) {
            Ok(e) => Ok(StoreChoice::QdrantLocal(e)),
            Err(e) => Err(FactoryError::Embedder(e)),
        }
    } else if text::same(plan.backend.as_str(), "duckdb") {
        if !features.duckdb {
            return Err(FactoryError::DuckDbMissing);
        }
        match build_embedder(plan, features) {
            Ok(embedder) => Ok(StoreChoice::DuckDb { embedder, access }),
            Err(e) => Err(FactoryError::Embedder(e)),
        }
    } else {
        Err(FactoryError::UnknownBackend(plan.backend.clone()))
    }
}

/// Whether two embedders are set up alike.
pub open spec fn same_embedder(a: Embedder, b: Embedder) -> bool {
    match (a, b) {
        (
            Embedder::Ort { model_repo: r, model_cache: c, prefix_style: s },
            Embedder::Ort { model_repo: t, model_cache: d, prefix_style: u },
        ) => r@ == t@ && c == d && s == u,
        (Embedder::Ollama(x), Embedder::Ollama(y)) => x.url@ == y.url@ && x.model@ == y.model@ && x.prefix_style
            == y.prefix_style,
        _ => false,
    }
}

/// A plan and a binary decide the store alone: what is chosen for reading is chosen for writing too,
/// with the same embedder, and fails for the same reason.
pub proof fn law_access_does_not_decide(
    plan: Plan,
    features: Features,
    read: Result<StoreChoice, FactoryError>,
    write: Result<StoreChoice, FactoryError>,
)
    requires
        is_store_of(plan, Access::ReadOnly, features, read),
        is_store_of(plan, Access::ReadWrite, features, write),
    ensures
        match (read, write) {
            (Ok(StoreChoice::QdrantServer), Ok(StoreChoice::QdrantServer)) => true,
            (Ok(StoreChoice::QdrantLocal(e)), Ok(StoreChoice::QdrantLocal(f))) => same_embedder(e, f),
            (
                Ok(StoreChoice::DuckDb { embedder: e, access: a }),
                Ok(StoreChoice::DuckDb { embedder: f, access: b }),
            ) => same_embedder(e, f) && a == Access::ReadOnly && b == Access::ReadWrite,
            (Err(x), Err(y)) => x.told() == y.told(),
            _ => false,
        },
{
}

/// Which store a plan gets. Qdrant with server-side inference, Qdrant with vectors of this machine, and
/// DuckDB each need their backend built in, and vectors of this machine an embedder that is built in and
/// set up; nothing else is a store.
pub proof fn law_store_of(plan: Plan, access: Access, features: Features, r: Result<StoreChoice, FactoryError>)
    requires
        is_store_of(plan, access, features, r),
    ensures
        (r is Ok && r->Ok_0 is QdrantServer) <==> plan.backend@ == "qdrant"@ && features.qdrant && plan.embedder@
            == "qdrant"@,
        ({
            let local = (plan.embedder@ == "ort"@ && features.ort) || (plan.embedder@ == "ollama"@ && features.ollama
                && plan.ollama_model is Some && plan.ollama_model->0@.len() > 0);
            &&& (r is Ok && r->Ok_0 is QdrantLocal) <==> plan.backend@ == "qdrant"@ && features.qdrant && local
            &&& (r is Ok && r->Ok_0 is DuckDb) <==> plan.backend@ == "duckdb"@ && features.duckdb && local
        }),
        r matches Ok(StoreChoice::DuckDb { embedder: _, access: a }) ==> a == access,
        r matches Err(FactoryError::UnknownBackend(name)) ==> name@ == plan.backend@ && plan.backend@ != "qdrant"@
            && plan.backend@ != "duckdb"@,
        (r is Err && r->Err_0 is QdrantMissing) <==> plan.backend@ == "qdrant"@ && !features.qdrant,
        (r is Err && r->Err_0 is DuckDbMissing) <==> plan.backend@ == "duckdb"@ && !features.duckdb,
{
    reveal_strlit("qdrant");
    reveal_strlit("duckdb");
    reveal_strlit("ort");
    reveal_strlit("ollama");
    assert("qdrant"@[0] == 'q' && "duckdb"@[0] == 'd' && "ort"@.len() == 3 && "ollama"@.len() == 6 && "ollama"@[0]
        == 'o' && "qdrant"@.len() == 6);
}

/// The embedder of a plan has the plan's settings: the repository, the cache and the prefix style for
/// the local model; the model, the prefix style and the address without trailing slashes for Ollama.
pub proof fn law_embedder_settings(plan: Plan, features: Features, e: Embedder)
    requires
        is_embedder_of(plan, features, Ok(e)),
    ensures
        plan.embedder@ == "ort"@ ==> (e matches Embedder::Ort { model_repo, model_cache, prefix_style } && model_repo@
            == plan.model_repo@ && model_cache == plan.duckdb_model_cache && prefix_style == plan.prefix_style),
        plan.embedder@ == "ollama"@ ==> {
            &&& e matches Embedder::Ollama(o)
            &&& o.model@ == plan.ollama_model->0@
            &&& o.prefix_style == plan.prefix_style
            &&& o.url@.len() == 0 || o.url@.last() != '/'
            &&& exists|n: int|
                0 <= n <= plan.ollama_url@.len() && o.url@ == #[trigger] plan.ollama_url@.take(n) && forall|k: int|
                    n <= k < plan.ollama_url@.len() ==> #[trigger] plan.ollama_url@[k] == '/'
        },
{
    reveal_strlit("ort");
    reveal_strlit("ollama");
    assert("ort"@.len() == 3 && "ollama"@.len() == 6);
    if plan.embedder@ == "ollama"@ {
        let n = text::law_strip_back(plan.ollama_url@, '/');
        assert(e->Ollama_0.url@ == plan.ollama_url@.take(n));
    }
}

} // verus!
