//! The local embedders: which one, what it is sent, and in what order its vectors come back.

use crate::domain::embedding;
use crate::domain::embedding::{format_passage, format_query, PrefixStyle};
use crate::domain::Plan;
use crate::lists;
use crate::ranking;
use crate::search::copy_text;
use crate::text;
use crate::vectordbs::Features;
use vstd::prelude::*;

verus! {

/// The texts embedded in one forward pass.
pub const EMBED_BATCH: usize = 32;

/// The longest input of the local model, in tokens.
pub const MAX_TOKENS: usize = 512;

/// The path of the embedding endpoint.
pub const EMBED_PATH: &'static str = "/api/embed";

/// The embedder that asks an Ollama server.
#[derive(Debug)]
pub struct OllamaEmbedder {
    /// The server's address, without trailing slashes.
    pub url: String,
    pub model: String,
    pub prefix_style: PrefixStyle,
}

/// No model is set for the Ollama embedder.
pub const OLLAMA_MODEL_UNSET: &'static str =
    "embedder 'ollama' selected but ollama.model is unset — set ollama.model in the config to an embed-capable Ollama model (e.g. nomic-embed-text)";

/// The prefixed texts of a list.
pub open spec fn passages(style: PrefixStyle, texts: Seq<Seq<char>>) -> Seq<Seq<char>> {
    texts.map_values(|t: Seq<char>| embedding::passage_prefix(style) + t)
}

/// Puts the passage prefix before each text.
pub fn prefix_passages(style: PrefixStyle, texts: &Vec<String>) -> (r: Vec<String>)
    ensures
        text::views(r@) == passages(style, text::views(texts@)),
{
    let mut out: Vec<String> = Vec::new();
    let mut i: usize = 0;
    while i < texts.len()
        invariant
            i <= texts@.len(),
            out@.len() == i,
            forall|k: int| 0 <= k < i ==> (#[trigger] out@[k])@ == embedding::passage_prefix(style) + texts@[k]@,
        decreases texts@.len() - i,
    {
        out.push(format_passage(style, texts[i].as_str()));
        i += 1;
    }
    assert(text::views(out@) =~= passages(style, text::views(texts@)));
    out
}

impl OllamaEmbedder {
    /// The embedder for a server and a model. The model must be set.
    pub fn new(url: &str, model: Option<&str>, prefix_style: PrefixStyle) -> (r: Result<
        OllamaEmbedder,
        &'static str,
    >)
        ensures
            match model {
                Some(m) => if m@.len() > 0 {
                    r matches Ok(e) && e.url@ == text::strip_back(url@, '/') && e.model@ == m@ && e.prefix_style
                        == prefix_style
                } else {
                    r matches Err(e) && e@ == OLLAMA_MODEL_UNSET@
                },
                None => r matches Err(e) && e@ == OLLAMA_MODEL_UNSET@,
            },
    {
        match model {
            Some(m) => {
                if text::chars_of(m).len() == 0 {
                    return Err(OLLAMA_MODEL_UNSET);
                }
                Ok(OllamaEmbedder { url: text::trim_back(url, '/'), model: m.to_string(), prefix_style })
            },
            None => Err(OLLAMA_MODEL_UNSET),
        }
    }

    /// The address that texts are posted to.
    pub fn endpoint(&self) -> (r: String)
        ensures
            r@ == self.url@ + EMBED_PATH@,
    {
        self.url.clone().concat(EMBED_PATH)
    }

    /// The inputs for a list of passages.
    pub fn passage_inputs(&self, texts: &Vec<String>) -> (r: Vec<String>)
        ensures
            text::views(r@) == passages(self.prefix_style, text::views(texts@)),
    {
        prefix_passages(self.prefix_style, texts)
    }

    /// The input for a query.
    pub fn query_input(&self, query: &str) -> (r: String)
        ensures
            r@ == embedding::query_prefix(self.prefix_style) + query@,
    {
        format_query(self.prefix_style, query)
    }

    /// What to tell the user where the server answers with an error. `status` is its status line and
    /// `body` what it sent.
    pub fn refusal(&self, status: &str, body: &str) -> (r: String)
        ensures
            r@ == "Ollama /api/embed returned "@ + status@ + ": "@ + text::trimmed(body@) + " (is the model '"@
                + self.model@ + "' pulled? try `ollama pull "@ + self.model@ + "`)"@,
    {
        "Ollama /api/embed returned ".to_string().concat(status).concat(": ").concat(
            text::trim(body).as_str(),
        ).concat(" (is the model '").concat(self.model.as_str()).concat("' pulled? try `ollama pull ").concat(
            self.model.as_str(),
        ).concat("`)")
    }
}

/// The embedder of a plan.
#[derive(Debug)]
pub enum Embedder {
    /// The local model of a repository.
    Ort { model_repo: String, model_cache: Option<String>, prefix_style: PrefixStyle },
    Ollama(OllamaEmbedder),
}

/// Why a plan has no embedder.
#[derive(Debug)]
pub enum EmbedderError {
    /// The local model is not built in.
    OrtMissing,
    /// The Ollama client is not built in.
    OllamaMissing,
    /// No model is set for Ollama.
    OllamaModelUnset,
    Unknown(String),
}

impl EmbedderError {
    /// The text of the error.
    pub open spec fn told(&self) -> Seq<char> {
        match self {
            EmbedderError::OrtMissing =>
                "embedder 'ort' selected but this binary was built without the 'ort' feature (rebuild with --features ort)"@,
            EmbedderError::OllamaMissing =>
                "embedder 'ollama' selected but this binary was built without the 'ollama' feature (rebuild with --features ollama)"@,
            EmbedderError::OllamaModelUnset => OLLAMA_MODEL_UNSET@,
            EmbedderError::Unknown(name) => "unknown embedder '"@ + name@ + "' (expected 'ort' or 'ollama')"@,
        }
    }

    /// What to tell the user.
    pub fn message(&self) -> (r: String)
        ensures
            r@ == self.told(),
    {
        match self {
            EmbedderError::OrtMissing =>
                "embedder 'ort' selected but this binary was built without the 'ort' feature (rebuild with --features ort)".to_string(),
            EmbedderError::OllamaMissing =>
                "embedder 'ollama' selected but this binary was built without the 'ollama' feature (rebuild with --features ollama)".to_string(),
            EmbedderError::OllamaModelUnset => OLLAMA_MODEL_UNSET.to_string(),
            EmbedderError::Unknown(name) => "unknown embedder '".to_string().concat(name.as_str()).concat(
                "' (expected 'ort' or 'ollama')",
            ),
        }
    }
}

/// Whether `e` is the local embedder of a plan.
pub open spec fn is_ort_of(e: Embedder, plan: Plan) -> bool {
    e == (Embedder::Ort {
        model_repo: plan.model_repo,
        model_cache: plan.duckdb_model_cache,
        prefix_style: plan.prefix_style,
    })
}

/// Whether `e` is the Ollama embedder of a plan.
pub open spec fn is_ollama_of(e: Embedder, plan: Plan) -> bool {
    &&& e matches Embedder::Ollama(o)
    &&& o.url@ == text::strip_back(plan.ollama_url@, '/')
    &&& plan.ollama_model matches Some(m)
    &&& o.model@ == m@
    &&& o.prefix_style == plan.prefix_style
}

/// Whether the plan sets a model for Ollama.
pub open spec fn ollama_model_set(plan: Plan) -> bool {
    plan.ollama_model matches Some(m) && m@.len() > 0
}

/// The embedder that a plan asks for.
pub fn build_embedder(plan: &Plan, features: &Features) -> (r: Result<Embedder, EmbedderError>)
    ensures
        if plan.embedder@ == "ort"@ {
            if features.ort {
                r matches Ok(e) && is_ort_of(e, *plan)
            } else {
                r matches Err(EmbedderError::OrtMissing)
            }
        } else if plan.embedder@ == "ollama"@ {
            if !features.ollama {
                r matches Err(EmbedderError::OllamaMissing)
            } else if ollama_model_set(*plan) {
                r matches Ok(e) && is_ollama_of(e, *plan)
            } else {
                r matches Err(EmbedderError::OllamaModelUnset)
            }
        } else {
            r matches Err(EmbedderError::Unknown(name)) && name@ == plan.embedder@
        },
{
    if text::same(plan.embedder.as_str(), "ort") {
        if !features.ort {
            return Err(EmbedderError::OrtMissing);
        }
        Ok(
            Embedder::Ort {
                model_repo: plan.model_repo.clone(),
                model_cache: copy_text(&plan.duckdb_model_cache),
                prefix_style: plan.prefix_style,
            },
        )
    } else if text::same(plan.embedder.as_str(), "ollama") {
        if !features.ollama {
            return Err(EmbedderError::OllamaMissing);
        }
        let model: Option<&str> = match &plan.ollama_model {
            Some(m) => Some(m.as_str()),
            None => None,
        };
        match OllamaEmbedder::new(plan.ollama_url.as_str(), model, plan.prefix_style) {
            Ok(e) => Ok(Embedder::Ollama(e)),
            Err(_) => Err(EmbedderError::OllamaModelUnset),
        }
    } else {
        Err(EmbedderError::Unknown(plan.embedder.clone()))
    }
}

/// The order in which texts are embedded: shorter ones first, by bytes, then as they were.
pub open spec fn shorter(texts: Seq<Seq<char>>) -> spec_fn(int, int) -> bool {
    |p: int, q: int|
        {
            ||| text::byte_len(texts[p]) < text::byte_len(texts[q])
            ||| text::byte_len(texts[p]) == text::byte_len(texts[q]) && p < q
        }
}

/// The entries of a list of lists, one list after the other.
pub open spec fn flattened(lists: Seq<Vec<usize>>) -> Seq<usize>
    decreases lists.len(),
{
    if lists.len() == 0 {
        Seq::empty()
    } else {
        flattened(lists.drop_last()) + lists.last()@
    }
}

/// Whether `batches` take the texts in order of length, up to `EMBED_BATCH` at a time.
pub open spec fn are_batches(texts: Seq<Seq<char>>, batches: Seq<Vec<usize>>) -> bool {
    &&& ranking::is_ranking(flattened(batches), texts.len() as int, shorter(texts))
    &&& forall|b: int| 0 <= b < batches.len() ==> 1 <= (#[trigger] batches[b])@.len() <= EMBED_BATCH
    &&& forall|b: int| 0 <= b < batches.len() - 1 ==> (#[trigger] batches[b])@.len() == EMBED_BATCH
}

/// The batches in which texts are embedded, as places in the list. Texts of similar length go
/// together, so that little is spent on padding.
pub fn embed_batches(texts: &Vec<String>) -> (r: Vec<Vec<usize>>)
    ensures
        are_batches(text::views(texts@), r@),
{
    let ghost all = text::views(texts@);
    let mut sizes: Vec<u128> = Vec::new();
    let mut i: usize = 0;
    while i < texts.len()
        invariant
            i <= texts@.len(),
            sizes@.len() == i,
            all == text::views(texts@),
            forall|k: int| 0 <= k < i ==> (#[trigger] sizes@[k]) == text::byte_len(all[k]),
        decreases texts@.len() - i,
    {
        sizes.push(text::byte_len_of(texts[i].as_str()));
        i += 1;
    }
    let ghost rel = shorter(all);
    let before = |p: usize, q: usize| -> (r: bool)
        requires
            p < sizes@.len(),
            q < sizes@.len(),
        ensures
            r == (sizes@[p as int] < sizes@[q as int] || (sizes@[p as int] == sizes@[q as int] && p < q)),
        { sizes[p] < sizes[q] || (sizes[p] == sizes[q] && p < q) };
    let order = ranking::rank(texts.len(), &before, Ghost(rel));
    let n: usize = order.len();
    let mut batches: Vec<Vec<usize>> = Vec::new();
    let mut at: usize = 0;
    assert(order@.take(0) =~= flattened(batches@));
    while at < n
        invariant
            at <= n == order@.len(),
            order@.take(at as int) == flattened(batches@),
            forall|b: int| 0 <= b < batches@.len() ==> 1 <= (#[trigger] batches@[b])@.len() <= EMBED_BATCH,
            at < n ==> forall|b: int| 0 <= b < batches@.len() ==> (#[trigger] batches@[b])@.len() == EMBED_BATCH,
            forall|b: int| 0 <= b < batches@.len() - 1 ==> (#[trigger] batches@[b])@.len() == EMBED_BATCH,
        decreases n - at,
    {
        let end: usize = if n - at < EMBED_BATCH {
            n
        } else {
            at + EMBED_BATCH
        };
        let mut batch: Vec<usize> = Vec::new();
        let mut k: usize = at;
        while k < end
            invariant
                at <= k <= end <= order@.len(),
                batch@ =~= order@.subrange(at as int, k as int),
            decreases end - k,
        {
            batch.push(order[k]);
            k += 1;
        }
        let ghost prior = batches@;
        let ghost added = batch@;
        batches.push(batch);
        proof {
            assert(batches@.drop_last() =~= prior);
            assert(order@.take(end as int) =~= order@.take(at as int) + added);
        }
        at = end;
    }
    assert(order@.take(at as int) =~= order@);
    batches
}

/// Where place `i` of a list stands among batches.
pub open spec fn stands_at(batches: Seq<Vec<usize>>, i: int, b: int, k: int) -> bool {
    0 <= b < batches.len() && 0 <= k < batches[b]@.len() && batches[b]@[k] == i
}

proof fn lemma_flattened_index(batches: Seq<Vec<usize>>, p: int) -> (r: (int, int))
    requires
        0 <= p < flattened(batches).len(),
    ensures
        stands_at(batches, flattened(batches)[p] as int, r.0, r.1),
    decreases batches.len(),
{
    let front = flattened(batches.drop_last());
    if p < front.len() {
        let (b, k) = lemma_flattened_index(batches.drop_last(), p);
        assert(batches.drop_last()[b] == batches[b]);
        (b, k)
    } else {
        (batches.len() - 1, p - front.len())
    }
}

/// Every text stands in some batch.
pub proof fn lemma_batches_hold_all(texts: Seq<Seq<char>>, batches: Seq<Vec<usize>>, i: int) -> (r: (int, int))
    requires
        are_batches(texts, batches),
        0 <= i < texts.len() <= usize::MAX,
    ensures
        stands_at(batches, i, r.0, r.1),
{
    ranking::lemma_ranking_holds_all(flattened(batches), texts.len() as int, shorter(texts), i as usize);
    let p = choose|p: int| 0 <= p < flattened(batches).len() && flattened(batches)[p] == i as usize;
    lemma_flattened_index(batches, p)
}

proof fn lemma_flattened_at(batches: Seq<Vec<usize>>, b: int, k: int)
    requires
        0 <= b < batches.len(),
        0 <= k < batches[b]@.len(),
    ensures
        0 <= flattened(batches.take(b)).len() + k < flattened(batches).len(),
        flattened(batches)[flattened(batches.take(b)).len() + k] == batches[b]@[k],
        flattened(batches.take(b + 1)).len() == flattened(batches.take(b)).len() + batches[b]@.len(),
    decreases batches.len(),
{
    assert(batches.take(b + 1).drop_last() =~= batches.take(b));
    assert(batches.take(b + 1).last() == batches[b]);
    if b == batches.len() - 1 {
        assert(batches.take(b) =~= batches.drop_last());
        assert(batches.take(b + 1) =~= batches);
    } else {
        let front = batches.drop_last();
        lemma_flattened_at(front, b, k);
        assert(front.take(b) =~= batches.take(b));
        assert(front.take(b + 1) =~= batches.take(b + 1));
    }
}

proof fn lemma_flattened_take(batches: Seq<Vec<usize>>, b: int, c: int)
    requires
        0 <= b <= c <= batches.len(),
    ensures
        flattened(batches.take(b)).len() <= flattened(batches.take(c)).len(),
    decreases c - b,
{
    if b < c {
        lemma_flattened_take(batches, b, c - 1);
        assert(batches.take(c).drop_last() =~= batches.take(c - 1));
    }
}

/// No text stands in two places.
pub proof fn lemma_batches_apart(
    texts: Seq<Seq<char>>,
    batches: Seq<Vec<usize>>,
    i: int,
    b: int,
    k: int,
    c: int,
    m: int,
)
    requires
        are_batches(texts, batches),
        stands_at(batches, i, b, k),
        stands_at(batches, i, c, m),
    ensures
        b == c && k == m,
{
    lemma_flattened_at(batches, b, k);
    lemma_flattened_at(batches, c, m);
    let p = flattened(batches.take(b)).len() + k;
    let q = flattened(batches.take(c)).len() + m;
    let order = flattened(batches);
    let rel = shorter(texts);
    if p < q {
        assert(rel(order[p] as int, order[q] as int));
    }
    if q < p {
        assert(rel(order[q] as int, order[p] as int));
    }
    if b < c {
        lemma_flattened_take(batches, b + 1, c);
    }
    if c < b {
        lemma_flattened_take(batches, c + 1, b);
    }
}

/// Whether a vector came back for place `i`: one of the first `done` batches holds it, and that
/// batch returned a vector for it.
pub open spec fn answered<T>(batches: Seq<Vec<usize>>, results: Seq<Vec<Vec<T>>>, done: int, i: int) -> bool {
    exists|b: int, k: int|
        #[trigger] stands_at(batches, i, b, k) && b < done && b < results.len() && k < results[b]@.len()
}

/// Puts the vectors of the batches back in the order of the texts. A text that no vector came back
/// for gets an empty one.
pub fn scatter<T>(texts: &Vec<String>, batches: &Vec<Vec<usize>>, results: Vec<Vec<Vec<T>>>) -> (r: Vec<Vec<T>>)
    requires
        are_batches(text::views(texts@), batches@),
        results@.len() == batches@.len(),
    ensures
        r@.len() == texts@.len(),
        forall|i: int, b: int, k: int|
            #[trigger] stands_at(batches@, i, b, k) && k < results@[b]@.len() ==> r@[i] == results@[b]@[k],
        forall|i: int|
            0 <= i < texts@.len() && !answered(batches@, results@, batches@.len() as int, i) ==> (
            #[trigger] r@[i])@.len() == 0,
{
    let ghost all = results@;
    let ghost list = text::views(texts@);
    let n: usize = texts.len();
    let mut out: Vec<Vec<T>> = Vec::new();
    let mut i: usize = 0;
    while i < n
        invariant
            i <= n,
            out@.len() == i,
            forall|k: int| 0 <= k < i ==> (#[trigger] out@[k])@.len() == 0,
        decreases n - i,
    {
        out.push(Vec::new());
        i += 1;
    }
    let mut stack = lists::reversed(results);
    let mut b: usize = 0;
    while b < batches.len()
        invariant
            b <= batches@.len() == all.len(),
            n == texts@.len() == list.len(),
            are_batches(list, batches@),
            out@.len() == n,
            stack@ =~= all.skip(b as int).reverse(),
            forall|i: int, c: int, k: int|
                #[trigger] stands_at(batches@, i, c, k) && c < b && k < all[c]@.len() ==> out@[i] == all[c]@[k],
            forall|i: int| 0 <= i < n && !answered(batches@, all, b as int, i) ==> (#[trigger] out@[i])@.len() == 0,
        decreases batches@.len() - b,
    {
        if let Some(vectors) = stack.pop() {
            let ghost given = vectors@;
            assert(vectors == all[b as int]);
            let mut rest = lists::reversed(vectors);
            let mut k: usize = 0;
            while k < batches[b].len() && rest.len() > 0
                invariant
                    b < batches@.len() == all.len(),
                    k <= batches@[b as int]@.len(),
                    k <= given.len(),
                    given == all[b as int]@,
                    n == list.len(),
                    are_batches(list, batches@),
                    out@.len() == n,
                    rest@ =~= given.skip(k as int).reverse(),
                    forall|i: int, c: int, m: int|
                        #[trigger] stands_at(batches@, i, c, m) && c < b && m < all[c]@.len() ==> out@[i]
                            == all[c]@[m],
                    forall|m: int| 0 <= m < k ==> out@[#[trigger] batches@[b as int]@[m] as int] == given[m],
                    forall|i: int|
                        0 <= i < n && !answered(batches@, all, b as int, i) && !(exists|m: int|
                            0 <= m < k && #[trigger] batches@[b as int]@[m] == i) ==> (#[trigger] out@[i])@.len()
                            == 0,
                decreases batches@[b as int]@.len() - k,
            {
                let place: usize = batches[b][k];
                proof {
                    lemma_flattened_at(batches@, b as int, k as int);
                    assert(place < n);
                    assert(stands_at(batches@, place as int, b as int, k as int));
                }
                if let Some(v) = rest.pop() {
                    let ghost before = out@;
                    out.set(place, v);
                    proof {
                        assert forall|i: int, c: int, m: int|
                            #[trigger] stands_at(batches@, i, c, m) && c < b && m < all[c]@.len() implies out@[i]
                            == all[c]@[m] by {
                            lemma_flattened_at(batches@, c, m);
                            if i == place {
                                lemma_batches_apart(list, batches@, i, b as int, k as int, c, m);
                            }
                        }
                        assert forall|m: int| 0 <= m < k + 1 implies out@[#[trigger] batches@[b as int]@[m] as int]
                            == given[m] by {
                            let j = batches@[b as int]@[m] as int;
                            lemma_flattened_at(batches@, b as int, m);
                            if m < k && j == place {
                                assert(stands_at(batches@, j, b as int, m));
                                lemma_batches_apart(list, batches@, j, b as int, k as int, b as int, m);
                            }
                        }
                    }
                }
                k += 1;
            }
            proof {
                assert forall|i: int, c: int, m: int|
                    #[trigger] stands_at(batches@, i, c, m) && c < b + 1 && m < all[c]@.len() implies out@[i]
                    == all[c]@[m] by {
                    if c == b {
                        assert(batches@[b as int]@[m] == i);
                        assert(m < k);
                    }
                }
                assert forall|i: int| 0 <= i < n && !answered(batches@, all, b + 1, i) implies (
                #[trigger] out@[i])@.len() == 0 by {
                    if answered(batches@, all, b as int, i) {
                        let (c, m) = choose|c: int, m: int|
                            #[trigger] stands_at(batches@, i, c, m) && c < b && c < all.len() && m
                                < all[c]@.len();
                        assert(stands_at(batches@, i, c, m));
                    }
                    if exists|m: int| 0 <= m < k && #[trigger] batches@[b as int]@[m] == i {
                        let m = choose|m: int| 0 <= m < k && #[trigger] batches@[b as int]@[m] == i;
                        assert(stands_at(batches@, i, b as int, m));
                    }
                }
            }
        }
        b += 1;
    }
    out
}

/// Batching does not change what is returned: where each batch returns the vector of each of its
/// texts, in the batch's order, place `i` of the result is the vector of text `i`.
pub proof fn law_batching_keeps_order<T>(
    texts: Seq<Seq<char>>,
    batches: Seq<Vec<usize>>,
    results: Seq<Vec<Vec<T>>>,
    r: Seq<Vec<T>>,
    vector_of: spec_fn(Seq<char>) -> Vec<T>,
    i: int,
)
    requires
        are_batches(texts, batches),
        results.len() == batches.len(),
        texts.len() <= usize::MAX,
        forall|b: int| 0 <= b < batches.len() ==> (#[trigger] results[b])@.len() == batches[b]@.len(),
        forall|j: int, b: int, k: int|
            #[trigger] stands_at(batches, j, b, k) ==> results[b]@[k] == vector_of(texts[j]),
        forall|j: int, b: int, k: int|
            #[trigger] stands_at(batches, j, b, k) && k < results[b]@.len() ==> r[j] == results[b]@[k],
        0 <= i < texts.len(),
    ensures
        r[i] == vector_of(texts[i]),
{
    let (b, k) = lemma_batches_hold_all(texts, batches, i);
    assert(stands_at(batches, i, b, k));
    assert(results[b]@.len() == batches[b]@.len());
}

/// The rows of a token table, one after the other.
pub open spec fn flat(rows: Seq<Vec<u32>>) -> Seq<i64>
    decreases rows.len(),
{
    if rows.len() == 0 {
        Seq::empty()
    } else {
        flat(rows.drop_last()) + rows.last()@.map_values(|t: u32| t as i64)
    }
}

/// The rows of a token table, one after the other.
pub fn flatten_tokens(rows: &Vec<Vec<u32>>) -> (r: Vec<i64>)
    ensures
        r@ == flat(rows@),
{
    let mut out: Vec<i64> = Vec::new();
    let mut i: usize = 0;
    assert(rows@.take(0) =~= Seq::<Vec<u32>>::empty());
    while i < rows.len()
        invariant
            i <= rows@.len(),
            out@ == flat(rows@.take(i as int)),
        decreases rows@.len() - i,
    {
        let row = &rows[i];
        let ghost before = out@;
        let mut k: usize = 0;
        assert(out@ =~= before + row@.take(0).map_values(|t: u32| t as i64));
        while k < row.len()
            invariant
                k <= row@.len(),
                out@ =~= before + row@.take(k as int).map_values(|t: u32| t as i64),
            decreases row@.len() - k,
        {
            out.push(row[k] as i64);
            assert(row@.take(k + 1) =~= row@.take(k as int).push(row@[k as int]));
            k += 1;
        }
        proof {
            assert(row@.take(k as int) =~= row@);
            assert(rows@.take(i + 1).drop_last() =~= rows@.take(i as int));
            assert(rows@.take(i + 1).last() == *row);
        }
        i += 1;
    }
    assert(rows@.take(i as int) =~= rows@);
    out
}

/// What a batch of texts is handed to the model as: two tables of `rows` by `seq_len`, row after row.
#[derive(Clone, Debug, PartialEq, Eq)]
pub struct TokenBatch {
    pub rows: usize,
    pub seq_len: usize,
    pub ids: Vec<i64>,
    pub mask: Vec<i64>,
}

/// Which table of a batch does not fill its shape.
#[derive(Clone, Copy, Debug, PartialEq, Eq, Structural)]
pub enum TensorFault {
    InputIds,
    AttentionMask,
}

impl TensorFault {
    /// The fault in words.
    pub open spec fn text(self) -> Seq<char> {
        match self {
            TensorFault::InputIds => "failed to build input_ids tensor"@,
            TensorFault::AttentionMask => "failed to build attention_mask tensor"@,
        }
    }

    /// The fault in words.
    pub fn message(self) -> (r: String)
        ensures
            r@ == self.text(),
    {
        match self {
            TensorFault::InputIds => "failed to build input_ids tensor".to_string(),
            TensorFault::AttentionMask => "failed to build attention_mask tensor".to_string(),
        }
    }
}

/// Whether there is nothing to run: no text, or a first text without tokens.
pub open spec fn tokenless(ids: Seq<Vec<u32>>) -> bool {
    ids.len() == 0 || ids[0]@.len() == 0
}

/// Whether a table holds as many tokens as the rows and the first row's length say.
pub open spec fn fills(ids: Seq<Vec<u32>>, table: Seq<Vec<u32>>) -> bool {
    flat(table).len() == ids.len() * ids[0]@.len()
}

fn fills_shape(rows: usize, seq_len: usize, count: usize) -> (r: bool)
    ensures
        r == (count == rows * seq_len),
{
    match rows.checked_mul(seq_len) {
        Some(n) => n == count,
        None => false,
    }
}

/// The tables of a batch, from the token ids and the attention mask of each text. `None` where there
/// is nothing to run.
pub fn token_batch(ids: &Vec<Vec<u32>>, masks: &Vec<Vec<u32>>) -> (r: Result<Option<TokenBatch>, TensorFault>)
    ensures
        match r {
            Ok(None) => tokenless(ids@),
            Err(TensorFault::InputIds) => !tokenless(ids@) && !fills(ids@, ids@),
            Err(TensorFault::AttentionMask) => {
                &&& !tokenless(ids@)
                &&& fills(ids@, ids@)
                &&& !fills(ids@, masks@)
            },
            Ok(Some(b)) => {
                &&& !tokenless(ids@)
                &&& fills(ids@, ids@)
                &&& fills(ids@, masks@)
                &&& b.rows == ids@.len()
                &&& b.seq_len == ids@[0]@.len()
                &&& b.ids@ == flat(ids@)
                &&& b.mask@ == flat(masks@)
            },
        },
{
    let rows: usize = ids.len();
    if rows == 0 {
        return Ok(None);
    }
    let seq_len: usize = ids[0].len();
    if seq_len == 0 {
        return Ok(None);
    }
    let flat_ids = flatten_tokens(ids);
    let mask = flatten_tokens(masks);
    assert(flat_ids@.len() == flat_ids.len() && mask@.len() == mask.len());
    if !fills_shape(rows, seq_len, flat_ids.len()) {
        return Err(TensorFault::InputIds);
    }
    if !fills_shape(rows, seq_len, mask.len()) {
        return Err(TensorFault::AttentionMask);
    }
    Ok(Some(TokenBatch { rows, seq_len, ids: flat_ids, mask }))
}

/// The numerals of a shape.
pub open spec fn numerals(shape: Seq<i64>) -> Seq<Seq<char>> {
    Seq::new(shape.len(), |i: int| text::signed(shape[i] as int))
}

/// What is said of a hidden state whose shape is not batch, sequence and width.
pub open spec fn wrong_rank(shape: Seq<i64>) -> Seq<char> {
    "expected last_hidden_state rank 3 [batch, seq, hidden], got shape ["@ + text::joined(numerals(shape), ", "@)
        + "]"@
}

/// The sequence length and the width of a hidden state, from its shape.
pub fn hidden_dims(shape: &Vec<i64>) -> (r: Result<(usize, usize), String>)
    requires
        shape@.len() == 3 ==> 0 <= shape@[1] <= usize::MAX && 0 <= shape@[2] <= usize::MAX,
    ensures
        match r {
            Ok((model_seq, hidden)) => {
                &&& shape@.len() == 3
                &&& model_seq == shape@[1]
                &&& hidden == shape@[2]
            },
            Err(message) => shape@.len() != 3 && message@ == wrong_rank(shape@),
        },
{
    if shape.len() == 3 {
        return Ok((shape[1] as usize, shape[2] as usize));
    }
    let mut parts: Vec<String> = Vec::new();
    let mut i: usize = 0;
    while i < shape.len()
        invariant
            i <= shape@.len(),
            text::views(parts@) =~= numerals(shape@.take(i as int)),
        decreases shape@.len() - i,
    {
        let ghost before = text::views(parts@);
        parts.push(text::signed_of(shape[i]));
        assert(text::views(parts@) =~= before.push(text::signed(shape@[i as int] as int)));
        assert(numerals(shape@.take(i + 1)) =~= before.push(text::signed(shape@[i as int] as int)));
        i += 1;
    }
    assert(shape@.take(i as int) =~= shape@);
    let mut out = "expected last_hidden_state rank 3 [batch, seq, hidden], got shape [".to_string();
    out.append(text::join(&parts, ", ").as_str());
    out.append("]");
    Err(out)
}

/// The positions of one row that count for its vector: those below `model_seq` that the mask does
/// not blank out, with their weight and the place where their hidden state begins.
pub open spec fn pooled_positions(mask: Seq<i64>, row: int, seq_len: int, model_seq: int, hidden: int, upto: int) -> Seq<(
    int,
    i64,
)>
    decreases upto,
{
    if upto <= 0 {
        Seq::empty()
    } else {
        let front = pooled_positions(mask, row, seq_len, model_seq, hidden, upto - 1);
        let t = upto - 1;
        if t < seq_len && mask[row * seq_len + t] != 0 {
            front.push(((row * model_seq + t) * hidden, mask[row * seq_len + t]))
        } else {
            front
        }
    }
}

/// The positions of one row that count for its vector.
pub fn pool_row(mask: &Vec<i64>, row: usize, seq_len: usize, model_seq: usize, hidden: usize) -> (r: Vec<(
    usize,
    i64,
)>)
    requires
        (row + 1) * seq_len <= mask@.len(),
        (row + 1) * model_seq * hidden <= usize::MAX,
        (row + 1) * model_seq <= usize::MAX,
    ensures
        r@.len() == pooled_positions(
            mask@,
            row as int,
            seq_len as int,
            model_seq as int,
            hidden as int,
            model_seq as int,
        ).len(),
        forall|k: int|
            0 <= k < r@.len() ==> {
                let p = pooled_positions(
                    mask@,
                    row as int,
                    seq_len as int,
                    model_seq as int,
                    hidden as int,
                    model_seq as int,
                )[k];
                (#[trigger] r@[k]).0 == p.0 && r@[k].1 == p.1
            },
{
    let mut out: Vec<(usize, i64)> = Vec::new();
    let mut t: usize = 0;
    while t < model_seq
        invariant
            t <= model_seq,
            (row + 1) * seq_len <= mask@.len(),
            (row + 1) * model_seq * hidden <= usize::MAX,
            (row + 1) * model_seq <= usize::MAX,
            out@.len() == pooled_positions(
                mask@,
                row as int,
                seq_len as int,
                model_seq as int,
                hidden as int,
                t as int,
            ).len(),
            forall|k: int|
                0 <= k < out@.len() ==> {
                    let p = pooled_positions(
                        mask@,
                        row as int,
                        seq_len as int,
                        model_seq as int,
                        hidden as int,
                        t as int,
                    )[k];
                    (#[trigger] out@[k]).0 == p.0 && out@[k].1 == p.1
                },
        decreases model_seq - t,
    {
        if t < seq_len {
            proof {
                assert(row * seq_len + t < (row + 1) * seq_len) by (nonlinear_arith)
                    requires
                        t < seq_len,
                ;
                assert(0 <= row * seq_len) by (nonlinear_arith);
                assert(mask@.len() == mask.len());
            }
            let m: i64 = mask[row * seq_len + t];
            if m != 0 {
                proof {
                    assert(row * model_seq + t < (row + 1) * model_seq) by (nonlinear_arith)
                        requires
                            t < model_seq,
                    ;
                    assert(0 <= row * model_seq) by (nonlinear_arith);
                    assert(0 <= (row * model_seq + t) * hidden <= (row + 1) * model_seq * hidden) by (nonlinear_arith)
                        requires
                            0 <= row * model_seq + t < (row + 1) * model_seq,
                            0 <= hidden,
                    ;
                }
                out.push(((row * model_seq + t) * hidden, m));
            }
        }
        t += 1;
    }
    out
}

/// Each passage is its text behind the prefix of the style, one for each text, in order.
pub proof fn law_passages(style: PrefixStyle, texts: Seq<Seq<char>>)
    ensures
        passages(style, texts).len() == texts.len(),
        forall|i: int|
            0 <= i < texts.len() ==> {
                let p = #[trigger] passages(style, texts)[i];
                &&& style == PrefixStyle::E5 ==> p == "passage: "@ + texts[i]
                &&& style != PrefixStyle::E5 ==> p == texts[i]
            },
{
    assert forall|i: int| 0 <= i < texts.len() implies {
        let p = #[trigger] passages(style, texts)[i];
        &&& style == PrefixStyle::E5 ==> p == "passage: "@ + texts[i]
        &&& style != PrefixStyle::E5 ==> p == texts[i]
    } by {
        if style != PrefixStyle::E5 {
            assert(passages(style, texts)[i] =~= texts[i]);
        }
    }
}

/// Every text is embedded once. Up to 32 go together, and fewer only last; no text is longer, in bytes
/// of UTF-8, than one that is embedded after it.
pub proof fn law_batches(texts: Seq<Seq<char>>, batches: Seq<Vec<usize>>)
    requires
        are_batches(texts, batches),
        texts.len() <= usize::MAX,
    ensures
        forall|b: int| 0 <= b < batches.len() ==> 1 <= (#[trigger] batches[b])@.len() <= 32,
        forall|b: int| 0 <= b < batches.len() - 1 ==> (#[trigger] batches[b])@.len() == 32,
        forall|i: int| 0 <= i < texts.len() ==> #[trigger] stands(batches, i),
        forall|i: int, b: int, k: int, c: int, m: int|
            #[trigger] stands_at(batches, i, b, k) && #[trigger] stands_at(batches, i, c, m) ==> b == c && k == m,
        forall|i: int, j: int, b: int, k: int, c: int, m: int|
            #[trigger] stands_at(batches, i, b, k) && #[trigger] stands_at(batches, j, c, m) && (b < c || (b == c && k
                < m)) ==> 0 <= i < texts.len() && 0 <= j < texts.len() && vstd::utf8::encode_utf8(texts[i]).len()
                <= vstd::utf8::encode_utf8(texts[j]).len(),
{
    assert forall|i: int| 0 <= i < texts.len() implies #[trigger] stands(batches, i) by {
        let r = lemma_batches_hold_all(texts, batches, i);
    }
    assert forall|i: int, b: int, k: int, c: int, m: int|
        #[trigger] stands_at(batches, i, b, k) && #[trigger] stands_at(batches, i, c, m) implies b == c && k == m by {
        lemma_batches_apart(texts, batches, i, b, k, c, m);
    }
    assert forall|i: int, j: int, b: int, k: int, c: int, m: int|
        #[trigger] stands_at(batches, i, b, k) && #[trigger] stands_at(batches, j, c, m) && (b < c || (b == c && k
            < m)) implies 0 <= i < texts.len() && 0 <= j < texts.len() && vstd::utf8::encode_utf8(texts[i]).len()
        <= vstd::utf8::encode_utf8(texts[j]).len() by {
        lemma_flattened_at(batches, b, k);
        lemma_flattened_at(batches, c, m);
        if b < c {
            lemma_flattened_take(batches, b + 1, c);
        }
        let order = flattened(batches);
        let p = flattened(batches.take(b)).len() + k;
        let q = flattened(batches.take(c)).len() + m;
        assert(p < q);
        assert(shorter(texts)(order[p] as int, order[q] as int));
        assert(0 <= order[p] < texts.len() && 0 <= order[q] < texts.len());
        text::law_byte_len(texts[i]);
        text::law_byte_len(texts[j]);
    }
}

/// Whether place `i` of a list stands in some batch.
pub open spec fn stands(batches: Seq<Vec<usize>>, i: int) -> bool {
    exists|b: int, k: int| stands_at(batches, i, b, k)
}

/// The rows of a table whose rows have `width` tokens each come one after the other: token `t` of row
/// `r` stands at place `r * width + t`.
pub proof fn law_flat(rows: Seq<Vec<u32>>, width: int)
    requires
        0 <= width,
        forall|r: int| 0 <= r < rows.len() ==> (#[trigger] rows[r])@.len() == width,
    ensures
        flat(rows).len() == rows.len() * width,
        forall|r: int, t: int|
            0 <= r < rows.len() && 0 <= t < width ==> flat(rows)[r * width + t] == #[trigger] rows[r]@[t] as i64,
    decreases rows.len(),
{
    if rows.len() > 0 {
        let front = rows.drop_last();
        let n = front.len() as int;
        assert forall|r: int| 0 <= r < front.len() implies (#[trigger] front[r])@.len() == width by {
            assert(rows[r] == front[r]);
        }
        law_flat(front, width);
        assert(rows[n] == rows.last());
        assert((n + 1) * width == n * width + width) by (nonlinear_arith);
        assert forall|r: int, t: int| 0 <= r < rows.len() && 0 <= t < width implies flat(rows)[r * width + t]
            == #[trigger] rows[r]@[t] as i64 by {
            if r < n {
                assert(0 <= r * width + t < n * width) by (nonlinear_arith)
                    requires
                        0 <= r < n,
                        0 <= t < width,
                ;
                assert(front[r]@[t] == rows[r]@[t]);
            }
        }
    }
}

/// What counts for the vector of a row: the positions below both lengths that the mask does not blank
/// out, all of them, in order, each with its weight and the place where its hidden state begins.
pub proof fn law_pooled_positions(mask: Seq<i64>, row: int, seq_len: int, model_seq: int, hidden: int, upto: int) -> (at:
    Seq<int>)
    requires
        0 <= upto,
        0 <= seq_len,
    ensures
        crate::lists::are_places(at, upto),
        at.len() == pooled_positions(mask, row, seq_len, model_seq, hidden, upto).len(),
        forall|k: int|
            0 <= k < at.len() ==> pooled_positions(mask, row, seq_len, model_seq, hidden, upto)[k] == (
                (row * model_seq + #[trigger] at[k]) * hidden,
                mask[row * seq_len + at[k]],
            ),
        forall|t: int|
            0 <= t < upto ==> (#[trigger] at.contains(t) <==> t < seq_len && mask[row * seq_len + t] != 0),
    decreases upto,
{
    if upto == 0 {
        Seq::empty()
    } else {
        let n = upto - 1;
        let before = law_pooled_positions(mask, row, seq_len, model_seq, hidden, n);
        let kept = n < seq_len && mask[row * seq_len + n] != 0;
        let at = if kept {
            before.push(n)
        } else {
            before
        };
        assert(!before.contains(n)) by {
            if before.contains(n) {
                let k = choose|k: int| 0 <= k < before.len() && before[k] == n;
                assert(before[k] < n);
            }
        }
        assert forall|t: int| 0 <= t < upto implies (#[trigger] at.contains(t) <==> t < seq_len && mask[row * seq_len
            + t] != 0) by {
            if t < n {
                assert(before.contains(t) <==> at.contains(t)) by {
                    if before.contains(t) {
                        let k = choose|k: int| 0 <= k < before.len() && before[k] == t;
                        assert(at[k] == t);
                    }
                    if at.contains(t) {
                        let k = choose|k: int| 0 <= k < at.len() && at[k] == t;
                        assert(before[k] == t);
                    }
                }
            } else if kept {
                assert(at[before.len() as int] == n);
            }
        }
        at
    }
}

} // verus!
