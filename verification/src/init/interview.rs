//! The interview of `init`: a few questions, each with a default that an empty answer or the end of
//! the input accepts.

use crate::config::{
    DEFAULT_COLLECTION, DEFAULT_DUCKDB_PATH, DEFAULT_MODEL, DEFAULT_OLLAMA_MODEL, DEFAULT_OLLAMA_URL,
    DEFAULT_ORT_MODEL, DEFAULT_ORT_VECTOR_DIM,
};
use crate::text;
use vstd::prelude::*;

verus! {

/// The settings that the interview collects.
#[derive(Debug, Clone, PartialEq, Eq)]
pub struct Answers {
    pub backend: String,
    pub embedder: String,
    pub collection: String,
    pub model: String,
    pub vector_dim: u64,
    pub qdrant_url: Option<String>,
    pub duckdb_path: String,
    pub ollama_url: String,
    pub extra_exclude_dirs: Vec<String>,
}

/// The settings as texts.
pub struct AnswersView {
    pub backend: Seq<char>,
    pub embedder: Seq<char>,
    pub collection: Seq<char>,
    pub model: Seq<char>,
    pub vector_dim: u64,
    pub qdrant_url: Option<Seq<char>>,
    pub duckdb_path: Seq<char>,
    pub ollama_url: Seq<char>,
    pub extra_exclude_dirs: Seq<Seq<char>>,
}

impl View for Answers {
    type V = AnswersView;

    open spec fn view(&self) -> AnswersView {
        AnswersView {
            backend: self.backend@,
            embedder: self.embedder@,
            collection: self.collection@,
            model: self.model@,
            vector_dim: self.vector_dim,
            qdrant_url: match self.qdrant_url {
                Some(s) => Some(s@),
                None => None,
            },
            duckdb_path: self.duckdb_path@,
            ollama_url: self.ollama_url@,
            extra_exclude_dirs: text::views(self.extra_exclude_dirs@),
        }
    }
}

/// The settings where every default is accepted: DuckDB and the local embedder.
pub open spec fn default_answers() -> AnswersView {
    AnswersView {
        backend: "duckdb"@,
        embedder: "ort"@,
        collection: DEFAULT_COLLECTION@,
        model: DEFAULT_ORT_MODEL@,
        vector_dim: DEFAULT_ORT_VECTOR_DIM,
        qdrant_url: None,
        duckdb_path: DEFAULT_DUCKDB_PATH@,
        ollama_url: DEFAULT_OLLAMA_URL@,
        extra_exclude_dirs: Seq::empty(),
    }
}

impl Default for Answers {
    fn default() -> (r: Answers)
        ensures
            r@ == default_answers(),
    {
        let r = Answers {
            backend: "duckdb".to_string(),
            embedder: "ort".to_string(),
            collection: DEFAULT_COLLECTION.to_string(),
            model: DEFAULT_ORT_MODEL.to_string(),
            vector_dim: DEFAULT_ORT_VECTOR_DIM,
            qdrant_url: None,
            duckdb_path: DEFAULT_DUCKDB_PATH.to_string(),
            ollama_url: DEFAULT_OLLAMA_URL.to_string(),
            extra_exclude_dirs: Vec::new(),
        };
        assert(text::views(r.extra_exclude_dirs@) =~= Seq::<Seq<char>>::empty());
        r
    }
}

/// The vector size of a model that is known by a part of its name; the first that fits counts.
pub open spec fn dim_of(model: Seq<char>) -> Option<u64> {
    let m = text::lower(model);
    if text::has(m, "jina-embeddings-v2-base-code"@) {
        Some(768)
    } else if text::has(m, "e5-small"@) {
        Some(384)
    } else if text::has(m, "e5-base"@) {
        Some(768)
    } else if text::has(m, "e5-large"@) {
        Some(1024)
    } else if text::has(m, "mxbai-embed-large"@) {
        Some(1024)
    } else if text::has(m, "nomic-embed-text"@) {
        Some(768)
    } else {
        None
    }
}

/// The vector size of a known model.
pub fn known_model_dim(model: &str) -> (r: Option<u64>)
    ensures
        r == dim_of(model@),
{
    let m = text::to_lower(model);
    if text::contains(m.as_str(), "jina-embeddings-v2-base-code") {
        Some(768)
    } else if text::contains(m.as_str(), "e5-small") {
        Some(384)
    } else if text::contains(m.as_str(), "e5-base") {
        Some(768)
    } else if text::contains(m.as_str(), "e5-large") {
        Some(1024)
    } else if text::contains(m.as_str(), "mxbai-embed-large") {
        Some(1024)
    } else if text::contains(m.as_str(), "nomic-embed-text") {
        Some(768)
    } else {
        None
    }
}

/// A conversation: the lines entered so far, whether the input has ended, how many lines were used,
/// and what was shown.
pub struct Console {
    pub lines: Vec<String>,
    pub closed: bool,
    pub next: usize,
    pub out: String,
}

/// Why the interview has no settings yet.
#[derive(Debug)]
pub enum Stop {
    /// One more line is needed.
    Waiting,
    /// The input ended before the vector size of an unknown model was given.
    DimRequired { model: String },
}

impl Stop {
    /// The text of the error.
    pub open spec fn told(&self) -> Seq<char> {
        match self {
            Stop::Waiting => "waiting for an answer"@,
            Stop::DimRequired { model } => "vector_dim is required for unrecognized model '"@ + model@
                + "' (input closed before an answer)"@,
        }
    }

    /// What to tell the user.
    pub fn message(&self) -> (r: String)
        ensures
            r@ == self.told(),
    {
        match self {
            Stop::Waiting => "waiting for an answer".to_string(),
            Stop::DimRequired { model } => "vector_dim is required for unrecognized model '".to_string().concat(
                model.as_str(),
            ).concat("' (input closed before an answer)"),
        }
    }
}

/// How far a conversation has come: lines used, and text shown.
pub struct Talk {
    pub at: int,
    pub out: Seq<char>,
}

/// What a question leads to.
pub enum Outcome<T> {
    /// An answer.
    Got(T),
    /// One more line is needed.
    Wait,
    /// The input ended before the vector size of this model was given.
    NoDim(Seq<char>),
}

/// What was entered: the lines, and whether there are no more to come.
pub struct Input {
    pub lines: Seq<Seq<char>>,
    pub closed: bool,
}

impl Input {
    /// The next answer, without the white space around it.
    pub open spec fn heard(self, at: int) -> Option<Seq<char>> {
        if 0 <= at < self.lines.len() {
            Some(text::trimmed(self.lines[at]))
        } else {
            None
        }
    }
}

/// The conversation after showing `s`.
pub open spec fn say(t: Talk, s: Seq<char>) -> Talk {
    Talk { at: t.at, out: t.out + s }
}

/// The conversation after using one more line.
pub open spec fn used(t: Talk) -> Talk {
    Talk { at: t.at + 1, out: t.out }
}

/// A question with a default.
pub open spec fn string_talk(input: Input, t: Talk, prompt: Seq<char>, default: Seq<char>) -> (Talk, Outcome<
    Seq<char>,
>) {
    let shown = say(say(say(say(t, prompt), " ["@), default), "]: "@);
    match input.heard(t.at) {
        Some(s) => (used(shown), Outcome::Got(
            if s.len() == 0 {
                default
            } else {
                s
            },
        )),
        None => if input.closed {
            (say(shown, "\n"@), Outcome::Got(default))
        } else {
            (shown, Outcome::Wait)
        },
    }
}

/// A question with a fixed list of answers, asked again until one of them is given.
pub open spec fn choice_talk(
    input: Input,
    t: Talk,
    prompt: Seq<char>,
    choices: Seq<Seq<char>>,
    default: Seq<char>,
) -> (Talk, Outcome<Seq<char>>)
    decreases input.lines.len() - t.at,
{
    let shown = say(
        say(say(say(say(say(t, prompt), " ("@), text::joined(choices, "/"@)), ") ["@), default),
        "]: "@,
    );
    match input.heard(t.at) {
        Some(s) => if s.len() == 0 {
            (used(shown), Outcome::Got(default))
        } else if choices.contains(text::lower(s)) {
            (used(shown), Outcome::Got(text::lower(s)))
        } else {
            choice_talk(
                input,
                say(
                    say(say(used(shown), "  please answer one of: "@), text::joined(choices, ", "@)),
                    "\n"@,
                ),
                prompt,
                choices,
                default,
            )
        },
        None => if input.closed {
            (say(shown, "\n"@), Outcome::Got(default))
        } else {
            (shown, Outcome::Wait)
        },
    }
}

/// A question that may stay unanswered.
pub open spec fn optional_talk(input: Input, t: Talk, prompt: Seq<char>) -> (Talk, Outcome<Option<Seq<char>>>) {
    let shown = say(say(t, prompt), ": "@);
    match input.heard(t.at) {
        Some(s) => (used(shown), Outcome::Got(
            if s.len() == 0 {
                None
            } else {
                Some(s)
            },
        )),
        None => if input.closed {
            (say(shown, "\n"@), Outcome::Got(None))
        } else {
            (shown, Outcome::Wait)
        },
    }
}

/// A question for a comma-separated list.
pub open spec fn list_talk(input: Input, t: Talk, prompt: Seq<char>) -> (Talk, Outcome<Seq<Seq<char>>>) {
    let (after, answer) = optional_talk(input, t, prompt);
    (after, match answer {
        Outcome::Got(Some(s)) => Outcome::Got(text::filled(text::split(s, ','))),
        Outcome::Got(None) => Outcome::Got(Seq::empty()),
        Outcome::Wait => Outcome::Wait,
        Outcome::NoDim(m) => Outcome::NoDim(m),
    })
}

/// The question for the vector size of an unknown model, asked again until a positive number is
/// given.
pub open spec fn dim_talk(input: Input, t: Talk, model: Seq<char>) -> (Talk, Outcome<u64>)
    decreases input.lines.len() - t.at,
{
    let shown = say(
        say(say(t, "Vector dimensionality of '"@), model),
        "' (its embedding output size, e.g. 768): "@,
    );
    match input.heard(t.at) {
        Some(s) => match text::number(s) {
            Some(n) => if n > 0 {
                (used(shown), Outcome::Got(n))
            } else {
                dim_talk(input, say(used(shown), "  please enter a positive integer\n"@), model)
            },
            None => dim_talk(input, say(used(shown), "  please enter a positive integer\n"@), model),
        },
        None => if input.closed {
            (shown, Outcome::NoDim(model))
        } else {
            (shown, Outcome::Wait)
        },
    }
}

impl Console {
    /// A conversation that has not begun.
    pub fn new(lines: Vec<String>, closed: bool) -> (r: Console)
        ensures
            r.lines == lines,
            r.closed == closed,
            r.next == 0,
            r.out@ == Seq::<char>::empty(),
    {
        Console { lines, closed, next: 0, out: String::new() }
    }

    pub open spec fn talk(&self) -> Talk {
        Talk { at: self.next as int, out: self.out@ }
    }

    pub open spec fn input(&self) -> Input {
        Input { lines: text::views(self.lines@), closed: self.closed }
    }

    pub open spec fn valid(&self) -> bool {
        self.next <= self.lines@.len()
    }

    fn show(&mut self, s: &str)
        requires
            old(self).valid(),
        ensures
            final(self).valid(),
            final(self).lines == old(self).lines,
            final(self).closed == old(self).closed,
            final(self).next == old(self).next,
            final(self).talk() == say(old(self).talk(), s@),
    {
        self.out.append(s);
    }
}

/// The next answer, without the white space around it. `None` where no line is left.
pub fn read_answer(console: &mut Console) -> (r: Option<String>)
    requires
        old(console).valid(),
    ensures
        final(console).valid(),
        final(console).input() == old(console).input(),
        final(console).out == old(console).out,
        match old(console).input().heard(old(console).next as int) {
            Some(s) => r matches Some(t) && t@ == s && final(console).next == old(console).next + 1,
            None => r is None && final(console).next == old(console).next,
        },
{
    if console.next < console.lines.len() {
        let s = text::trim(console.lines[console.next].as_str());
        console.next = console.next + 1;
        Some(s)
    } else {
        None
    }
}

fn is_blank(s: &str) -> (r: bool)
    ensures
        r == (s@.len() == 0),
{
    text::chars_of(s).len() == 0
}

/// A question with a default.
pub fn ask_string(console: &mut Console, prompt: &str, default: &str) -> (r: Result<String, Stop>)
    requires
        old(console).valid(),
    ensures
        final(console).valid(),
        final(console).input() == old(console).input(),
        final(console).talk() == string_talk(old(console).input(), old(console).talk(), prompt@, default@).0,
        match string_talk(old(console).input(), old(console).talk(), prompt@, default@).1 {
            Outcome::Got(s) => r matches Ok(t) && t@ == s,
            Outcome::Wait => r matches Err(Stop::Waiting),
            Outcome::NoDim(_) => false,
        },
{
    console.show(prompt);
    console.show(" [");
    console.show(default);
    console.show("]: ");
    match read_answer(console) {
        None => {
            if console.closed {
                console.show("\n");
                Ok(default.to_string())
            } else {
                Err(Stop::Waiting)
            }
        },
        Some(s) => if is_blank(s.as_str()) {
            Ok(default.to_string())
        } else {
            Ok(s)
        },
    }
}

/// A question with a fixed list of answers.
pub fn ask_choice(console: &mut Console, prompt: &str, choices: &Vec<String>, default: &str) -> (r: Result<
    String,
    Stop,
>)
    requires
        old(console).valid(),
    ensures
        final(console).valid(),
        final(console).input() == old(console).input(),
        final(console).talk() == choice_talk(
            old(console).input(),
            old(console).talk(),
            prompt@,
            text::views(choices@),
            default@,
        ).0,
        match choice_talk(
            old(console).input(),
            old(console).talk(),
            prompt@,
            text::views(choices@),
            default@,
        ).1 {
            Outcome::Got(s) => r matches Ok(t) && t@ == s,
            Outcome::Wait => r matches Err(Stop::Waiting),
            Outcome::NoDim(_) => false,
        },
    decreases old(console).lines@.len() - old(console).next,
{
    console.show(prompt);
    console.show(" (");
    console.show(text::join(choices, "/").as_str());
    console.show(") [");
    console.show(default);
    console.show("]: ");
    match read_answer(console) {
        None => {
            if console.closed {
                console.show("\n");
                Ok(default.to_string())
            } else {
                Err(Stop::Waiting)
            }
        },
        Some(s) => {
            if is_blank(s.as_str()) {
                return Ok(default.to_string());
            }
            let low = text::to_lower(s.as_str());
            if text::one_of(low.as_str(), choices) {
                return Ok(low);
            }
            console.show("  please answer one of: ");
            console.show(text::join(choices, ", ").as_str());
            console.show("\n");
            assert(console.lines@.len() == text::views(console.lines@).len());
            ask_choice(console, prompt, choices, default)
        },
    }
}

/// A question that may stay unanswered.
pub fn ask_optional(console: &mut Console, prompt: &str) -> (r: Result<Option<String>, Stop>)
    requires
        old(console).valid(),
    ensures
        final(console).valid(),
        final(console).input() == old(console).input(),
        final(console).talk() == optional_talk(old(console).input(), old(console).talk(), prompt@).0,
        match optional_talk(old(console).input(), old(console).talk(), prompt@).1 {
            Outcome::Got(Some(s)) => r matches Ok(Some(t)) && t@ == s,
            Outcome::Got(None) => r matches Ok(None),
            Outcome::Wait => r matches Err(Stop::Waiting),
            Outcome::NoDim(_) => false,
        },
{
    console.show(prompt);
    console.show(": ");
    match read_answer(console) {
        None => {
            if console.closed {
                console.show("\n");
                Ok(None)
            } else {
                Err(Stop::Waiting)
            }
        },
        Some(s) => if is_blank(s.as_str()) {
            Ok(None)
        } else {
            Ok(Some(s))
        },
    }
}

/// A question for a comma-separated list.
pub fn ask_list(console: &mut Console, prompt: &str) -> (r: Result<Vec<String>, Stop>)
    requires
        old(console).valid(),
    ensures
        final(console).valid(),
        final(console).input() == old(console).input(),
        final(console).talk() == list_talk(old(console).input(), old(console).talk(), prompt@).0,
        match list_talk(old(console).input(), old(console).talk(), prompt@).1 {
            Outcome::Got(s) => r matches Ok(t) && text::views(t@) == s,
            Outcome::Wait => r matches Err(Stop::Waiting),
            Outcome::NoDim(_) => false,
        },
{
    match ask_optional(console, prompt) {
        Ok(Some(s)) => {
            let parts = text::split_on(s.as_str(), ',');
            Ok(text::fill(&parts))
        },
        Ok(None) => {
            let none: Vec<String> = Vec::new();
            assert(text::views(none@) =~= Seq::<Seq<char>>::empty());
            Ok(none)
        },
        Err(e) => Err(e),
    }
}

/// The question for the vector size of an unknown model.
pub fn ask_dim(console: &mut Console, model: &str) -> (r: Result<u64, Stop>)
    requires
        old(console).valid(),
    ensures
        final(console).valid(),
        final(console).input() == old(console).input(),
        final(console).talk() == dim_talk(old(console).input(), old(console).talk(), model@).0,
        match dim_talk(old(console).input(), old(console).talk(), model@).1 {
            Outcome::Got(n) => r matches Ok(k) && k == n,
            Outcome::Wait => r matches Err(Stop::Waiting),
            Outcome::NoDim(m) => r matches Err(Stop::DimRequired { model: k }) && k@ == m,
        },
    decreases old(console).lines@.len() - old(console).next,
{
    console.show("Vector dimensionality of '");
    console.show(model);
    console.show("' (its embedding output size, e.g. 768): ");
    match read_answer(console) {
        None => {
            if console.closed {
                Err(Stop::DimRequired { model: model.to_string() })
            } else {
                Err(Stop::Waiting)
            }
        },
        Some(s) => {
            if let Some(n) = text::parse_number(s.as_str()) {
                if n > 0 {
                    return Ok(n);
                }
            }
            console.show("  please enter a positive integer\n");
            assert(console.lines@.len() == text::views(console.lines@).len());
            ask_dim(console, model)
        },
    }
}

/// What the interview begins with.
pub const GREETING: &'static str =
    "Generating a starter config — press Enter to accept the [default] for each question.\n";

pub const BACKEND_PROMPT: &'static str =
    "Vector backend — duckdb (local file, fully offline) or qdrant (Qdrant Cloud)";

pub const EMBEDDER_PROMPT: &'static str =
    "Embedder — ort (local ONNX, zero setup) or ollama (running Ollama server)";

pub const COLLECTION_PROMPT: &'static str = "Collection (Qdrant) / table (DuckDB) name";

pub const MODEL_PROMPT: &'static str = "Embedding model";

pub const QDRANT_URL_PROMPT: &'static str = "Qdrant cluster gRPC URL (Enter = use the QDRANT_URL env var)";

pub const DUCKDB_PATH_PROMPT: &'static str = "DuckDB index file path";

pub const OLLAMA_URL_PROMPT: &'static str = "Ollama server URL";

pub const EXCLUDE_PROMPT: &'static str =
    "Extra directories to exclude, comma-separated (e.g. vendor,examples; Enter = none)";

/// The default model of a backend and embedder.
pub open spec fn suggested_model(backend: Seq<char>, embedder: Seq<char>) -> Seq<char> {
    if backend == "qdrant"@ {
        DEFAULT_MODEL@
    } else if embedder == "ollama"@ {
        DEFAULT_OLLAMA_MODEL@
    } else {
        DEFAULT_ORT_MODEL@
    }
}

/// The interview: backend, embedder, collection, model, vector size, connection, directories.
pub open spec fn interview_talk(input: Input) -> (Talk, Outcome<AnswersView>) {
    let t = say(Talk { at: 0, out: Seq::empty() }, GREETING@);
    match choice_talk(input, t, BACKEND_PROMPT@, seq!["duckdb"@, "qdrant"@], "duckdb"@) {
        (t, Outcome::Got(backend)) => embedder_stage(input, t, backend),
        (t, Outcome::Wait) => (t, Outcome::Wait),
        (t, Outcome::NoDim(m)) => (t, Outcome::NoDim(m)),
    }
}

/// The embedder is asked for with DuckDB only.
pub open spec fn embedder_stage(input: Input, t: Talk, backend: Seq<char>) -> (Talk, Outcome<AnswersView>) {
    if backend == "duckdb"@ {
        match choice_talk(input, t, EMBEDDER_PROMPT@, seq!["ort"@, "ollama"@], "ort"@) {
            (t, Outcome::Got(embedder)) => collection_stage(input, t, backend, embedder),
            (t, Outcome::Wait) => (t, Outcome::Wait),
            (t, Outcome::NoDim(m)) => (t, Outcome::NoDim(m)),
        }
    } else {
        collection_stage(input, t, backend, "ort"@)
    }
}

pub open spec fn collection_stage(input: Input, t: Talk, backend: Seq<char>, embedder: Seq<char>) -> (Talk, Outcome<
    AnswersView,
>) {
    match string_talk(input, t, COLLECTION_PROMPT@, DEFAULT_COLLECTION@) {
        (t, Outcome::Got(collection)) => model_stage(input, t, backend, embedder, collection),
        (t, Outcome::Wait) => (t, Outcome::Wait),
        (t, Outcome::NoDim(m)) => (t, Outcome::NoDim(m)),
    }
}

pub open spec fn model_stage(
    input: Input,
    t: Talk,
    backend: Seq<char>,
    embedder: Seq<char>,
    collection: Seq<char>,
) -> (Talk, Outcome<AnswersView>) {
    match string_talk(input, t, MODEL_PROMPT@, suggested_model(backend, embedder)) {
        (t, Outcome::Got(model)) => {
            let a = AnswersView { backend, embedder, collection, model, ..default_answers() };
            dim_stage(input, t, a)
        },
        (t, Outcome::Wait) => (t, Outcome::Wait),
        (t, Outcome::NoDim(m)) => (t, Outcome::NoDim(m)),
    }
}

/// The vector size is asked for with unknown models only.
pub open spec fn dim_stage(input: Input, t: Talk, a: AnswersView) -> (Talk, Outcome<AnswersView>) {
    match dim_of(a.model) {
        Some(dim) => connection_stage(
            input,
            say(
                say(say(say(say(t, "  using "@), text::decimal(dim as nat)), " dimensions for "@), a.model),
                "\n"@,
            ),
            AnswersView { vector_dim: dim, ..a },
        ),
        None => match dim_talk(input, t, a.model) {
            (t, Outcome::Got(dim)) => connection_stage(input, t, AnswersView { vector_dim: dim, ..a }),
            (t, Outcome::Wait) => (t, Outcome::Wait),
            (t, Outcome::NoDim(m)) => (t, Outcome::NoDim(m)),
        },
    }
}

/// The server address with Qdrant, the file with DuckDB.
pub open spec fn connection_stage(input: Input, t: Talk, a: AnswersView) -> (Talk, Outcome<AnswersView>) {
    if a.backend == "qdrant"@ {
        match optional_talk(input, t, QDRANT_URL_PROMPT@) {
            (t, Outcome::Got(url)) => ollama_stage(input, t, AnswersView { qdrant_url: url, ..a }),
            (t, Outcome::Wait) => (t, Outcome::Wait),
            (t, Outcome::NoDim(m)) => (t, Outcome::NoDim(m)),
        }
    } else {
        match string_talk(input, t, DUCKDB_PATH_PROMPT@, DEFAULT_DUCKDB_PATH@) {
            (t, Outcome::Got(path)) => ollama_stage(input, t, AnswersView { duckdb_path: path, ..a }),
            (t, Outcome::Wait) => (t, Outcome::Wait),
            (t, Outcome::NoDim(m)) => (t, Outcome::NoDim(m)),
        }
    }
}

/// The server of the Ollama embedder.
pub open spec fn ollama_stage(input: Input, t: Talk, a: AnswersView) -> (Talk, Outcome<AnswersView>) {
    if a.embedder == "ollama"@ {
        match string_talk(input, t, OLLAMA_URL_PROMPT@, DEFAULT_OLLAMA_URL@) {
            (t, Outcome::Got(url)) => exclude_stage(input, t, AnswersView { ollama_url: url, ..a }),
            (t, Outcome::Wait) => (t, Outcome::Wait),
            (t, Outcome::NoDim(m)) => (t, Outcome::NoDim(m)),
        }
    } else {
        exclude_stage(input, t, a)
    }
}

pub open spec fn exclude_stage(input: Input, t: Talk, a: AnswersView) -> (Talk, Outcome<AnswersView>) {
    match list_talk(input, t, EXCLUDE_PROMPT@) {
        (t, Outcome::Got(dirs)) => (t, Outcome::Got(AnswersView { extra_exclude_dirs: dirs, ..a })),
        (t, Outcome::Wait) => (t, Outcome::Wait),
        (t, Outcome::NoDim(m)) => (t, Outcome::NoDim(m)),
    }
}

/// Two choices, as a list.
fn choices_of(a: &str, b: &str) -> (r: Vec<String>)
    ensures
        text::views(r@) == seq![a@, b@],
{
    let mut v: Vec<String> = Vec::new();
    v.push(a.to_string());
    v.push(b.to_string());
    assert(text::views(v@) =~= seq![a@, b@]);
    v
}

/// Holds the interview over the lines entered so far. While the input is open, a question without a
/// line stops it: enter one more line and hold it again from the start, and it shows the same and
/// goes on.
pub fn interview(console: &mut Console) -> (r: Result<Answers, Stop>)
    requires
        old(console).next == 0,
        old(console).out@.len() == 0,
    ensures
        final(console).input() == old(console).input(),
        final(console).talk() == interview_talk(old(console).input()).0,
        match interview_talk(old(console).input()).1 {
            Outcome::Got(a) => r matches Ok(b) && b@ == a,
            Outcome::Wait => r matches Err(Stop::Waiting),
            Outcome::NoDim(m) => r matches Err(Stop::DimRequired { model }) && model@ == m,
        },
{
    let ghost input = console.input();
    assert(console.out@ =~= Seq::<char>::empty());
    console.show(GREETING);
    let backend = match ask_choice(console, BACKEND_PROMPT, &choices_of("duckdb", "qdrant"), "duckdb") {
        Ok(b) => b,
        Err(e) => {
            return Err(e);
        },
    };
    let embedder = if text::same(backend.as_str(), "duckdb") {
        match ask_choice(console, EMBEDDER_PROMPT, &choices_of("ort", "ollama"), "ort") {
            Ok(e) => e,
            Err(e) => {
                return Err(e);
            },
        }
    } else {
        "ort".to_string()
    };
    let collection = match ask_string(console, COLLECTION_PROMPT, DEFAULT_COLLECTION) {
        Ok(c) => c,
        Err(e) => {
            return Err(e);
        },
    };
    let suggestion = if text::same(backend.as_str(), "qdrant") {
        DEFAULT_MODEL
    } else if text::same(embedder.as_str(), "ollama") {
        DEFAULT_OLLAMA_MODEL
    } else {
        DEFAULT_ORT_MODEL
    };
    let model = match ask_string(console, MODEL_PROMPT, suggestion) {
        Ok(m) => m,
        Err(e) => {
            return Err(e);
        },
    };
    let vector_dim: u64 = match known_model_dim(model.as_str()) {
        Some(dim) => {
            console.show("  using ");
            console.show(text::decimal_of(dim).as_str());
            console.show(" dimensions for ");
            console.show(model.as_str());
            console.show("\n");
            dim
        },
        None => match ask_dim(console, model.as_str()) {
            Ok(dim) => dim,
            Err(e) => {
                return Err(e);
            },
        },
    };
    let mut qdrant_url: Option<String> = None;
    let mut duckdb_path: String = DEFAULT_DUCKDB_PATH.to_string();
    if text::same(backend.as_str(), "qdrant") {
        qdrant_url = match ask_optional(console, QDRANT_URL_PROMPT) {
            Ok(u) => u,
            Err(e) => {
                return Err(e);
            },
        };
    } else {
        duckdb_path = match ask_string(console, DUCKDB_PATH_PROMPT, DEFAULT_DUCKDB_PATH) {
            Ok(p) => p,
            Err(e) => {
                return Err(e);
            },
        };
    }
    let mut ollama_url: String = DEFAULT_OLLAMA_URL.to_string();
    if text::same(embedder.as_str(), "ollama") {
        ollama_url = match ask_string(console, OLLAMA_URL_PROMPT, DEFAULT_OLLAMA_URL) {
            Ok(u) => u,
            Err(e) => {
                return Err(e);
            },
        };
    }
    let extra_exclude_dirs = match ask_list(console, EXCLUDE_PROMPT) {
        Ok(d) => d,
        Err(e) => {
            return Err(e);
        },
    };
    Ok(
        Answers {
            backend,
            embedder,
            collection,
            model,
            vector_dim,
            qdrant_url,
            duckdb_path,
            ollama_url,
            extra_exclude_dirs,
        },
    )
}

/// Whether `j` goes on where the open input `i` stands.
pub open spec fn opens(i: Input, j: Input) -> bool {
    &&& !i.closed
    &&& i.lines.len() <= j.lines.len()
    &&& forall|k: int| 0 <= k < i.lines.len() ==> #[trigger] i.lines[k] == j.lines[k]
}

/// Whether a conversation from `t` that came to `x` on less input and to `y` on more goes on in the
/// same way: a finished one is the same, and a waiting one has shown the beginning of what the other
/// shows.
spec fn grows<T>(t: Talk, x: (Talk, Outcome<T>), y: (Talk, Outcome<T>)) -> bool {
    &&& t.out.is_prefix_of(x.0.out)
    &&& x.0.out.is_prefix_of(y.0.out)
    &&& x.1 is Wait || x == y
}

proof fn lemma_prefix_chain(a: Seq<char>, b: Seq<char>, c: Seq<char>)
    requires
        a.is_prefix_of(b),
        b.is_prefix_of(c),
    ensures
        a.is_prefix_of(c),
{
    assert(a =~= c.subrange(0, a.len() as int)) by {
        assert(b == c.subrange(0, b.len() as int));
    }
}

proof fn lemma_string_grows(i: Input, j: Input, t: Talk, prompt: Seq<char>, default: Seq<char>)
    requires
        opens(i, j),
    ensures
        grows(t, string_talk(i, t, prompt, default), string_talk(j, t, prompt, default)),
{
    let x = string_talk(i, t, prompt, default).0.out;
    let y = string_talk(j, t, prompt, default).0.out;
    assert(t.out =~= x.subrange(0, t.out.len() as int));
    assert(x =~= y.subrange(0, x.len() as int));
}

proof fn lemma_optional_grows(i: Input, j: Input, t: Talk, prompt: Seq<char>)
    requires
        opens(i, j),
    ensures
        grows(t, optional_talk(i, t, prompt), optional_talk(j, t, prompt)),
{
    let x = optional_talk(i, t, prompt).0.out;
    let y = optional_talk(j, t, prompt).0.out;
    assert(t.out =~= x.subrange(0, t.out.len() as int));
    assert(x =~= y.subrange(0, x.len() as int));
}

proof fn lemma_choice_shows(i: Input, t: Talk, prompt: Seq<char>, choices: Seq<Seq<char>>, default: Seq<char>)
    ensures
        t.out.is_prefix_of(choice_talk(i, t, prompt, choices, default).0.out),
    decreases i.lines.len() - t.at,
{
    let shown = say(
        say(say(say(say(say(t, prompt), " ("@), text::joined(choices, "/"@)), ") ["@), default),
        "]: "@,
    );
    let x = choice_talk(i, t, prompt, choices, default).0.out;
    if let Some(a) = i.heard(t.at) {
        if a.len() > 0 && !choices.contains(text::lower(a)) {
            let again = say(
                say(say(used(shown), "  please answer one of: "@), text::joined(choices, ", "@)),
                "\n"@,
            );
            lemma_choice_shows(i, again, prompt, choices, default);
            assert(t.out =~= again.out.subrange(0, t.out.len() as int));
            lemma_prefix_chain(t.out, again.out, x);
        } else {
            assert(t.out =~= x.subrange(0, t.out.len() as int));
        }
    } else {
        assert(t.out =~= x.subrange(0, t.out.len() as int));
    }
}

proof fn lemma_choice_grows(
    i: Input,
    j: Input,
    t: Talk,
    prompt: Seq<char>,
    choices: Seq<Seq<char>>,
    default: Seq<char>,
)
    requires
        opens(i, j),
    ensures
        grows(t, choice_talk(i, t, prompt, choices, default), choice_talk(j, t, prompt, choices, default)),
    decreases i.lines.len() - t.at,
{
    let shown = say(
        say(say(say(say(say(t, prompt), " ("@), text::joined(choices, "/"@)), ") ["@), default),
        "]: "@,
    );
    let again = say(
        say(say(used(shown), "  please answer one of: "@), text::joined(choices, ", "@)),
        "\n"@,
    );
    let x = choice_talk(i, t, prompt, choices, default).0.out;
    let y = choice_talk(j, t, prompt, choices, default).0.out;
    lemma_choice_shows(i, t, prompt, choices, default);
    match i.heard(t.at) {
        Some(a) => {
            assert(j.heard(t.at) == Some(a));
            if a.len() > 0 && !choices.contains(text::lower(a)) {
                lemma_choice_grows(i, j, again, prompt, choices, default);
            } else {
                assert(x =~= y.subrange(0, x.len() as int));
            }
        },
        None => {
            assert(x == shown.out);
            match j.heard(t.at) {
                Some(a) => {
                    if a.len() > 0 && !choices.contains(text::lower(a)) {
                        lemma_choice_shows(j, again, prompt, choices, default);
                        assert(x =~= again.out.subrange(0, x.len() as int));
                        lemma_prefix_chain(x, again.out, y);
                    } else {
                        assert(x =~= y.subrange(0, x.len() as int));
                    }
                },
                None => {
                    assert(x =~= y.subrange(0, x.len() as int));
                },
            }
        },
    }
}

proof fn lemma_dim_shows(i: Input, t: Talk, model: Seq<char>)
    ensures
        t.out.is_prefix_of(dim_talk(i, t, model).0.out),
    decreases i.lines.len() - t.at,
{
    let shown = say(
        say(say(t, "Vector dimensionality of '"@), model),
        "' (its embedding output size, e.g. 768): "@,
    );
    let again = say(used(shown), "  please enter a positive integer\n"@);
    let x = dim_talk(i, t, model).0.out;
    if let Some(a) = i.heard(t.at) {
        if text::number(a) is Some && text::number(a)->0 > 0 {
            assert(t.out =~= x.subrange(0, t.out.len() as int));
        } else {
            lemma_dim_shows(i, again, model);
            assert(t.out =~= again.out.subrange(0, t.out.len() as int));
            lemma_prefix_chain(t.out, again.out, x);
        }
    } else {
        assert(t.out =~= x.subrange(0, t.out.len() as int));
    }
}

proof fn lemma_dim_grows(i: Input, j: Input, t: Talk, model: Seq<char>)
    requires
        opens(i, j),
    ensures
        grows(t, dim_talk(i, t, model), dim_talk(j, t, model)),
    decreases i.lines.len() - t.at,
{
    let shown = say(
        say(say(t, "Vector dimensionality of '"@), model),
        "' (its embedding output size, e.g. 768): "@,
    );
    let again = say(used(shown), "  please enter a positive integer\n"@);
    let x = dim_talk(i, t, model).0.out;
    let y = dim_talk(j, t, model).0.out;
    lemma_dim_shows(i, t, model);
    match i.heard(t.at) {
        Some(a) => {
            assert(j.heard(t.at) == Some(a));
            if text::number(a) is Some && text::number(a)->0 > 0 {
                assert(x =~= y.subrange(0, x.len() as int));
            } else {
                lemma_dim_grows(i, j, again, model);
            }
        },
        None => {
            assert(x == shown.out);
            match j.heard(t.at) {
                Some(a) => {
                    if text::number(a) is Some && text::number(a)->0 > 0 {
                        assert(x =~= y.subrange(0, x.len() as int));
                    } else {
                        lemma_dim_shows(j, again, model);
                        assert(x =~= again.out.subrange(0, x.len() as int));
                        lemma_prefix_chain(x, again.out, y);
                    }
                },
                None => {
                    assert(x =~= y.subrange(0, x.len() as int));
                },
            }
        },
    }
}

/// Goes on from a question: where it was answered, the rest grows as well.
proof fn lemma_then_grows<T, U>(
    t: Talk,
    q1: (Talk, Outcome<T>),
    q2: (Talk, Outcome<T>),
    r1: (Talk, Outcome<U>),
    r2: (Talk, Outcome<U>),
)
    requires
        grows(t, q1, q2),
        q1.1 is Got ==> grows(q1.0, r1, r2),
        q1.1 is Wait ==> r1.0 == q1.0 && r1.1 is Wait,
        q1.1 is NoDim ==> r1.0 == q1.0 && r1 == r2,
        q2.0.out.is_prefix_of(r2.0.out),
    ensures
        grows(t, r1, r2),
{
    if q1.1 is Got {
        lemma_prefix_chain(t.out, q1.0.out, r1.0.out);
    } else {
        lemma_prefix_chain(q1.0.out, q2.0.out, r2.0.out);
    }
}

/// An open input without lines.
spec fn nothing() -> Input {
    Input { lines: Seq::empty(), closed: false }
}

proof fn lemma_exclude_grows(i: Input, j: Input, t: Talk, a: AnswersView)
    requires
        opens(i, j),
    ensures
        grows(t, exclude_stage(i, t, a), exclude_stage(j, t, a)),
{
    lemma_optional_grows(i, j, t, EXCLUDE_PROMPT@);
}

proof fn lemma_prefix_of_longer(a: Seq<char>, b: Seq<char>, c: Seq<char>)
    requires
        a.is_prefix_of(b),
        b.is_prefix_of(c),
    ensures
        a.is_prefix_of(c),
        c.is_prefix_of(c),
{
    lemma_prefix_chain(a, b, c);
    assert(c =~= c.subrange(0, c.len() as int));
}

proof fn lemma_ollama_grows(i: Input, j: Input, t: Talk, a: AnswersView)
    requires
        opens(i, j),
    ensures
        grows(t, ollama_stage(i, t, a), ollama_stage(j, t, a)),
{
    let r1 = ollama_stage(i, t, a);
    let r2 = ollama_stage(j, t, a);
    if a.embedder == "ollama"@ {
        let q1 = string_talk(i, t, OLLAMA_URL_PROMPT@, DEFAULT_OLLAMA_URL@);
        let q2 = string_talk(j, t, OLLAMA_URL_PROMPT@, DEFAULT_OLLAMA_URL@);
        lemma_string_grows(i, j, t, OLLAMA_URL_PROMPT@, DEFAULT_OLLAMA_URL@);
        if let Outcome::Got(v) = q1.1 {
            lemma_exclude_grows(i, j, q1.0, AnswersView { ollama_url: v, ..a });
        }
        if let Outcome::Got(v) = q2.1 {
            lemma_exclude_grows(nothing(), j, q2.0, AnswersView { ollama_url: v, ..a });
            lemma_prefix_of_longer(q2.0.out, exclude_stage(nothing(), q2.0, AnswersView { ollama_url: v, ..a }).0.out, exclude_stage(j, q2.0, AnswersView { ollama_url: v, ..a }).0.out);
        }
        lemma_then_grows(t, q1, q2, r1, r2);
    } else {
        lemma_exclude_grows(i, j, t, a);
    }
}

proof fn lemma_connection_grows(i: Input, j: Input, t: Talk, a: AnswersView)
    requires
        opens(i, j),
    ensures
        grows(t, connection_stage(i, t, a), connection_stage(j, t, a)),
{
    let r1 = connection_stage(i, t, a);
    let r2 = connection_stage(j, t, a);
    if a.backend == "qdrant"@ {
        let q1 = optional_talk(i, t, QDRANT_URL_PROMPT@);
        let q2 = optional_talk(j, t, QDRANT_URL_PROMPT@);
        lemma_optional_grows(i, j, t, QDRANT_URL_PROMPT@);
        if let Outcome::Got(v) = q1.1 {
            lemma_ollama_grows(i, j, q1.0, AnswersView { qdrant_url: v, ..a });
        }
        if let Outcome::Got(v) = q2.1 {
            lemma_ollama_grows(nothing(), j, q2.0, AnswersView { qdrant_url: v, ..a });
            lemma_prefix_of_longer(q2.0.out, ollama_stage(nothing(), q2.0, AnswersView { qdrant_url: v, ..a }).0.out, ollama_stage(j, q2.0, AnswersView { qdrant_url: v, ..a }).0.out);
        }
        lemma_then_grows(t, q1, q2, r1, r2);
    } else {
        let q1 = string_talk(i, t, DUCKDB_PATH_PROMPT@, DEFAULT_DUCKDB_PATH@);
        let q2 = string_talk(j, t, DUCKDB_PATH_PROMPT@, DEFAULT_DUCKDB_PATH@);
        lemma_string_grows(i, j, t, DUCKDB_PATH_PROMPT@, DEFAULT_DUCKDB_PATH@);
        if let Outcome::Got(v) = q1.1 {
            lemma_ollama_grows(i, j, q1.0, AnswersView { duckdb_path: v, ..a });
        }
        if let Outcome::Got(v) = q2.1 {
            lemma_ollama_grows(nothing(), j, q2.0, AnswersView { duckdb_path: v, ..a });
            lemma_prefix_of_longer(q2.0.out, ollama_stage(nothing(), q2.0, AnswersView { duckdb_path: v, ..a }).0.out, ollama_stage(j, q2.0, AnswersView { duckdb_path: v, ..a }).0.out);
        }
        lemma_then_grows(t, q1, q2, r1, r2);
    }
}

proof fn lemma_dim_grows_stage(i: Input, j: Input, t: Talk, a: AnswersView)
    requires
        opens(i, j),
    ensures
        grows(t, dim_stage(i, t, a), dim_stage(j, t, a)),
{
    let r1 = dim_stage(i, t, a);
    let r2 = dim_stage(j, t, a);
    match dim_of(a.model) {
        Some(dim) => {
            let told = say(
                say(say(say(say(t, "  using "@), text::decimal(dim as nat)), " dimensions for "@), a.model),
                "\n"@,
            );
            lemma_connection_grows(i, j, told, AnswersView { vector_dim: dim, ..a });
            assert(t.out =~= told.out.subrange(0, t.out.len() as int));
            lemma_prefix_chain(t.out, told.out, r1.0.out);
        },
        None => {
            let q1 = dim_talk(i, t, a.model);
            let q2 = dim_talk(j, t, a.model);
            lemma_dim_grows(i, j, t, a.model);
            if let Outcome::Got(v) = q1.1 {
                lemma_connection_grows(i, j, q1.0, AnswersView { vector_dim: v, ..a });
            }
            if let Outcome::Got(v) = q2.1 {
                lemma_connection_grows(nothing(), j, q2.0, AnswersView { vector_dim: v, ..a });
                lemma_prefix_of_longer(q2.0.out, connection_stage(nothing(), q2.0, AnswersView { vector_dim: v, ..a }).0.out, connection_stage(j, q2.0, AnswersView { vector_dim: v, ..a }).0.out);
            }
            lemma_then_grows(t, q1, q2, r1, r2);
        },
    }
}

proof fn lemma_model_grows(i: Input, j: Input, t: Talk, backend: Seq<char>, embedder: Seq<char>, collection: Seq<char>)
    requires
        opens(i, j),
    ensures
        grows(t, model_stage(i, t, backend, embedder, collection), model_stage(j, t, backend, embedder, collection)),
{
    let r1 = model_stage(i, t, backend, embedder, collection);
    let r2 = model_stage(j, t, backend, embedder, collection);
    let q1 = string_talk(i, t, MODEL_PROMPT@, suggested_model(backend, embedder));
    let q2 = string_talk(j, t, MODEL_PROMPT@, suggested_model(backend, embedder));
    lemma_string_grows(i, j, t, MODEL_PROMPT@, suggested_model(backend, embedder));
    if let Outcome::Got(v) = q1.1 {
        lemma_dim_grows_stage(i, j, q1.0, AnswersView { backend, embedder, collection, model: v, ..default_answers() });
    }
    if let Outcome::Got(v) = q2.1 {
        lemma_dim_grows_stage(nothing(), j, q2.0, AnswersView { backend, embedder, collection, model: v, ..default_answers() });
        lemma_prefix_of_longer(q2.0.out, dim_stage(nothing(), q2.0, AnswersView { backend, embedder, collection, model: v, ..default_answers() }).0.out, dim_stage(j, q2.0, AnswersView { backend, embedder, collection, model: v, ..default_answers() }).0.out);
    }
    lemma_then_grows(t, q1, q2, r1, r2);
}

proof fn lemma_collection_grows(i: Input, j: Input, t: Talk, backend: Seq<char>, embedder: Seq<char>)
    requires
        opens(i, j),
    ensures
        grows(t, collection_stage(i, t, backend, embedder), collection_stage(j, t, backend, embedder)),
{
    let r1 = collection_stage(i, t, backend, embedder);
    let r2 = collection_stage(j, t, backend, embedder);
    let q1 = string_talk(i, t, COLLECTION_PROMPT@, DEFAULT_COLLECTION@);
    let q2 = string_talk(j, t, COLLECTION_PROMPT@, DEFAULT_COLLECTION@);
    lemma_string_grows(i, j, t, COLLECTION_PROMPT@, DEFAULT_COLLECTION@);
    if let Outcome::Got(v) = q1.1 {
        lemma_model_grows(i, j, q1.0, backend, embedder, v);
    }
    if let Outcome::Got(v) = q2.1 {
        lemma_model_grows(nothing(), j, q2.0, backend, embedder, v);
        lemma_prefix_of_longer(q2.0.out, model_stage(nothing(), q2.0, backend, embedder, v).0.out, model_stage(j, q2.0, backend, embedder, v).0.out);
    }
    lemma_then_grows(t, q1, q2, r1, r2);
}

proof fn lemma_embedder_grows(i: Input, j: Input, t: Talk, backend: Seq<char>)
    requires
        opens(i, j),
    ensures
        grows(t, embedder_stage(i, t, backend), embedder_stage(j, t, backend)),
{
    let r1 = embedder_stage(i, t, backend);
    let r2 = embedder_stage(j, t, backend);
    if backend == "duckdb"@ {
        let list = seq!["ort"@, "ollama"@];
        let q1 = choice_talk(i, t, EMBEDDER_PROMPT@, list, "ort"@);
        let q2 = choice_talk(j, t, EMBEDDER_PROMPT@, list, "ort"@);
        lemma_choice_grows(i, j, t, EMBEDDER_PROMPT@, list, "ort"@);
        if let Outcome::Got(v) = q1.1 {
            lemma_collection_grows(i, j, q1.0, backend, v);
        }
        if let Outcome::Got(v) = q2.1 {
            lemma_collection_grows(nothing(), j, q2.0, backend, v);
            lemma_prefix_of_longer(q2.0.out, collection_stage(nothing(), q2.0, backend, v).0.out, collection_stage(j, q2.0, backend, v).0.out);
        }
        lemma_then_grows(t, q1, q2, r1, r2);
    } else {
        lemma_collection_grows(i, j, t, backend, "ort"@);
    }
}

/// While lines are still to come, what the interview has shown is the beginning of what it will
/// show, and once it is finished more lines change nothing.
pub proof fn law_interview_goes_on(i: Input, j: Input)
    requires
        opens(i, j),
    ensures
        interview_talk(i).0.out.is_prefix_of(interview_talk(j).0.out),
        interview_talk(i).1 is Wait || interview_talk(i) == interview_talk(j),
{
    let t = say(Talk { at: 0, out: Seq::empty() }, GREETING@);
    let r1 = interview_talk(i);
    let r2 = interview_talk(j);
    let list = seq!["duckdb"@, "qdrant"@];
    let q1 = choice_talk(i, t, BACKEND_PROMPT@, list, "duckdb"@);
    let q2 = choice_talk(j, t, BACKEND_PROMPT@, list, "duckdb"@);
    lemma_choice_grows(i, j, t, BACKEND_PROMPT@, list, "duckdb"@);
    if let Outcome::Got(v) = q1.1 {
        lemma_embedder_grows(i, j, q1.0, v);
    }
    if let Outcome::Got(v) = q2.1 {
        lemma_embedder_grows(nothing(), j, q2.0, v);
        lemma_prefix_of_longer(q2.0.out, embedder_stage(nothing(), q2.0, v).0.out, embedder_stage(j, q2.0, v).0.out);
    }
    lemma_then_grows(t, q1, q2, r1, r2);
}

/// Whether nothing but white space was entered, and the input has ended.
pub open spec fn only_blank(input: Input) -> bool {
    &&& input.closed
    &&& forall|k: int| 0 <= k < input.lines.len() ==> text::trimmed(#[trigger] input.lines[k]).len() == 0
}

proof fn lemma_jina_dim()
    ensures
        dim_of(DEFAULT_ORT_MODEL@) == Some(DEFAULT_ORT_VECTOR_DIM),
{
    let model = "jinaai/jina-embeddings-v2-base-code"@;
    let part = "jina-embeddings-v2-base-code"@;
    reveal_strlit("jinaai/jina-embeddings-v2-base-code");
    reveal_strlit("jina-embeddings-v2-base-code");
    assert(text::lower(model).subrange(7, (7 + part.len()) as int) =~= part);
    assert(text::occurs_at(text::lower(model), part, 7));
}

/// Where every question is passed over, by empty answers or by the end of the input, the settings
/// are the default ones.
pub proof fn law_blank_answers_accept_defaults(input: Input)
    requires
        only_blank(input),
    ensures
        interview_talk(input).1 == Outcome::Got(default_answers()),
{
    reveal_strlit("duckdb");
    reveal_strlit("qdrant");
    reveal_strlit("ort");
    reveal_strlit("ollama");
    assert("duckdb"@[0] == 'd' && "qdrant"@[0] == 'q');
    assert("ort"@.len() == 3 && "ollama"@.len() == 6);
    lemma_jina_dim();
}

proof fn lemma_choice_valid(i: Input, t: Talk, prompt: Seq<char>, choices: Seq<Seq<char>>, default: Seq<char>)
    requires
        choices.contains(default),
    ensures
        match choice_talk(i, t, prompt, choices, default).1 {
            Outcome::Got(s) => choices.contains(s),
            Outcome::Wait => !i.closed,
            Outcome::NoDim(_) => false,
        },
    decreases i.lines.len() - t.at,
{
    let shown = say(
        say(say(say(say(say(t, prompt), " ("@), text::joined(choices, "/"@)), ") ["@), default),
        "]: "@,
    );
    let again = say(
        say(say(used(shown), "  please answer one of: "@), text::joined(choices, ", "@)),
        "\n"@,
    );
    if let Some(a) = i.heard(t.at) {
        if a.len() > 0 && !choices.contains(text::lower(a)) {
            lemma_choice_valid(i, again, prompt, choices, default);
        }
    }
}

proof fn lemma_dim_valid(i: Input, t: Talk, model: Seq<char>)
    ensures
        match dim_talk(i, t, model).1 {
            Outcome::Got(n) => n > 0,
            Outcome::Wait => !i.closed,
            Outcome::NoDim(m) => i.closed && m == model,
        },
    decreases i.lines.len() - t.at,
{
    let shown = say(
        say(say(t, "Vector dimensionality of '"@), model),
        "' (its embedding output size, e.g. 768): "@,
    );
    let again = say(used(shown), "  please enter a positive integer\n"@);
    if let Some(a) = i.heard(t.at) {
        if !(text::number(a) is Some && text::number(a)->0 > 0) {
            lemma_dim_valid(i, again, model);
        }
    }
}

/// Whether a directory is one that a list can hold: not empty, without white space at its ends, and
/// without a comma.
pub open spec fn listable(dir: Seq<char>) -> bool {
    &&& dir.len() > 0
    &&& text::trimmed(dir) == dir
    &&& !dir.contains(',')
}

/// What holds of all settings that the interview collects.
pub open spec fn coherent(a: AnswersView) -> bool {
    &&& a.backend == "duckdb"@ || a.backend == "qdrant"@
    &&& a.embedder == "ort"@ || a.embedder == "ollama"@
    &&& a.collection.len() > 0
    &&& a.model.len() > 0
    &&& a.vector_dim > 0
    &&& dim_of(a.model) matches Some(dim) ==> a.vector_dim == dim
    &&& a.backend == "qdrant"@ ==> a.embedder == "ort"@ && a.duckdb_path == DEFAULT_DUCKDB_PATH@
    &&& a.backend == "duckdb"@ ==> a.qdrant_url is None && a.duckdb_path.len() > 0
    &&& a.qdrant_url matches Some(url) ==> url.len() > 0
    &&& a.embedder != "ollama"@ ==> a.ollama_url == DEFAULT_OLLAMA_URL@
    &&& a.ollama_url.len() > 0
    &&& forall|k: int| 0 <= k < a.extra_exclude_dirs.len() ==> listable(#[trigger] a.extra_exclude_dirs[k])
}

/// Settings always name a known backend and a known embedder. Collection, model and addresses are
/// never empty. The vector size is positive, and that of the model where it is known. What belongs to
/// the backend or embedder that was not chosen is left at its default. Every directory is a name that
/// a comma-separated list can hold. And where the input has ended, the interview waits for nothing.
pub proof fn law_answers_valid(input: Input)
    ensures
        interview_talk(input).1 matches Outcome::Got(a) ==> coherent(a),
        input.closed ==> !(interview_talk(input).1 is Wait),
{
    lemma_defaults_hold_text();
    let t = say(Talk { at: 0, out: Seq::empty() }, GREETING@);
    let backends = seq!["duckdb"@, "qdrant"@];
    assert(backends[0] == "duckdb"@);
    lemma_choice_valid(input, t, BACKEND_PROMPT@, backends, "duckdb"@);
    if let (t, Outcome::Got(backend)) = choice_talk(input, t, BACKEND_PROMPT@, backends, "duckdb"@) {
        assert(backend == "duckdb"@ || backend == "qdrant"@);
        let embedders = seq!["ort"@, "ollama"@];
        assert(embedders[0] == "ort"@);
        if backend == "duckdb"@ {
            lemma_choice_valid(input, t, EMBEDDER_PROMPT@, embedders, "ort"@);
            if let (t, Outcome::Got(embedder)) = choice_talk(input, t, EMBEDDER_PROMPT@, embedders, "ort"@) {
                assert(embedder == "ort"@ || embedder == "ollama"@);
                lemma_collection_valid(input, t, backend, embedder);
            }
        } else {
            lemma_collection_valid(input, t, backend, "ort"@);
        }
    }
}

proof fn lemma_defaults_hold_text()
    ensures
        DEFAULT_COLLECTION@.len() > 0,
        DEFAULT_MODEL@.len() > 0,
        DEFAULT_OLLAMA_MODEL@.len() > 0,
        DEFAULT_ORT_MODEL@.len() > 0,
        DEFAULT_DUCKDB_PATH@.len() > 0,
        DEFAULT_OLLAMA_URL@.len() > 0,
        "duckdb"@ != "qdrant"@,
        "ort"@ != "ollama"@,
{
    reveal_strlit("source_code");
    reveal_strlit("intfloat/multilingual-e5-small");
    reveal_strlit("mxbai-embed-large");
    reveal_strlit("jinaai/jina-embeddings-v2-base-code");
    reveal_strlit(".index/code.duckdb");
    reveal_strlit("http://localhost:11434");
    reveal_strlit("duckdb");
    reveal_strlit("qdrant");
    reveal_strlit("ort");
    reveal_strlit("ollama");
    assert("duckdb"@[0] != "qdrant"@[0]);
    assert("ort"@.len() != "ollama"@.len());
}

proof fn lemma_collection_valid(input: Input, t: Talk, backend: Seq<char>, embedder: Seq<char>)
    requires
        backend == "duckdb"@ || backend == "qdrant"@,
        embedder == "ort"@ || embedder == "ollama"@,
        backend == "qdrant"@ ==> embedder == "ort"@,
    ensures
        collection_stage(input, t, backend, embedder).1 matches Outcome::Got(a) ==> coherent(a),
        input.closed ==> !(collection_stage(input, t, backend, embedder).1 is Wait),
{
    lemma_defaults_hold_text();
    if let (t, Outcome::Got(collection)) = string_talk(input, t, COLLECTION_PROMPT@, DEFAULT_COLLECTION@) {
        if let (t, Outcome::Got(model)) = string_talk(input, t, MODEL_PROMPT@, suggested_model(backend, embedder)) {
            lemma_dim_valid(input, t, model);
            assert(collection.len() > 0 && model.len() > 0);
        }
    }
    lemma_known_dims();
    assert forall|u: Talk, a: AnswersView| (#[trigger] exclude_stage(input, u, a)).1 matches Outcome::Got(b) ==> {
        forall|k: int| 0 <= k < b.extra_exclude_dirs.len() ==> listable(#[trigger] b.extra_exclude_dirs[k])
    } by {
        lemma_exclude_valid(input, u, a);
    }
}

proof fn lemma_known_dims()
    ensures
        forall|m: Seq<char>| #[trigger] dim_of(m) matches Some(dim) ==> dim > 0,
{
}

proof fn lemma_exclude_valid(input: Input, t: Talk, a: AnswersView)
    ensures
        exclude_stage(input, t, a).1 matches Outcome::Got(b) ==> {
            forall|k: int| 0 <= k < b.extra_exclude_dirs.len() ==> listable(#[trigger] b.extra_exclude_dirs[k])
        },
{
    if let Outcome::Got(b) = exclude_stage(input, t, a).1 {
        assert forall|k: int| 0 <= k < b.extra_exclude_dirs.len() implies listable(
            #[trigger] b.extra_exclude_dirs[k],
        ) by {
            if let Outcome::Got(Some(s)) = optional_talk(input, t, EXCLUDE_PROMPT@).1 {
                let pieces = text::split(s, ',');
                let j = text::lemma_filled_hold_text(pieces, k);
                text::lemma_trimmed(pieces[j]);
                text::lemma_split_pieces(s, ',');
            }
        }
    }
}

/// A question with a default: a line that holds more than white space is the answer, without the white
/// space around it; a line of white space and the end of the input mean the default; and without a line
/// the question waits. A line is used up exactly if there is one.
pub proof fn law_string_question(input: Input, t: Talk, prompt: Seq<char>, default: Seq<char>)
    requires
        0 <= t.at <= input.lines.len(),
    ensures
        ({
            let (after, outcome) = string_talk(input, t, prompt, default);
            &&& t.at < input.lines.len() ==> after.at == t.at + 1 && outcome == Outcome::Got(
                if text::trimmed(input.lines[t.at]).len() > 0 {
                    text::trimmed(input.lines[t.at])
                } else {
                    default
                },
            )
            &&& t.at == input.lines.len() ==> after.at == t.at
            &&& t.at == input.lines.len() && input.closed ==> outcome == Outcome::Got(default)
            &&& t.at == input.lines.len() && !input.closed ==> outcome is Wait
        }),
{
}

/// Whether the line at `k` neither is blank nor names one of the choices.
pub open spec fn misses(input: Input, choices: Seq<Seq<char>>, k: int) -> bool {
    let s = text::trimmed(input.lines[k]);
    s.len() > 0 && !choices.contains(text::lower(s))
}

/// A question with choices takes the first line that is blank or names one of them, whatever the case;
/// the lines before it are used up. Where there is none, the end of the input means the default, and
/// without it the question waits.
pub proof fn law_choice_question(
    input: Input,
    t: Talk,
    prompt: Seq<char>,
    choices: Seq<Seq<char>>,
    default: Seq<char>,
) -> (n: int)
    requires
        0 <= t.at <= input.lines.len(),
    ensures
        t.at <= n <= input.lines.len(),
        forall|k: int| t.at <= k < n ==> misses(input, choices, k),
        ({
            let (after, outcome) = choice_talk(input, t, prompt, choices, default);
            &&& n < input.lines.len() ==> {
                let s = text::trimmed(input.lines[n]);
                &&& !misses(input, choices, n)
                &&& after.at == n + 1
                &&& s.len() == 0 ==> outcome == Outcome::Got(default)
                &&& s.len() > 0 ==> outcome == Outcome::Got(text::lower(s))
            }
            &&& n == input.lines.len() ==> after.at == n
            &&& n == input.lines.len() && input.closed ==> outcome == Outcome::Got(default)
            &&& n == input.lines.len() && !input.closed ==> outcome is Wait
        }),
    decreases input.lines.len() - t.at,
{
    let shown = say(
        say(say(say(say(say(t, prompt), " ("@), text::joined(choices, "/"@)), ") ["@), default),
        "]: "@,
    );
    let again = say(
        say(say(used(shown), "  please answer one of: "@), text::joined(choices, ", "@)),
        "\n"@,
    );
    if t.at < input.lines.len() && misses(input, choices, t.at) {
        law_choice_question(input, again, prompt, choices, default)
    } else {
        t.at
    }
}

/// The question for a vector size takes the first line that is a positive number; the lines before it
/// are used up. Where there is none, the end of the input leaves the model without a size, and without
/// it the question waits.
pub proof fn law_dim_question(input: Input, t: Talk, model: Seq<char>) -> (n: int)
    requires
        0 <= t.at <= input.lines.len(),
    ensures
        t.at <= n <= input.lines.len(),
        forall|k: int|
            t.at <= k < n ==> {
                let v = text::number(text::trimmed(#[trigger] input.lines[k]));
                v is None || v->0 == 0
            },
        ({
            let (after, outcome) = dim_talk(input, t, model);
            &&& n < input.lines.len() ==> {
                let v = text::number(text::trimmed(input.lines[n]));
                v is Some && v->0 > 0 && outcome == Outcome::Got(v->0) && after.at == n + 1
            }
            &&& n == input.lines.len() && input.closed ==> outcome == Outcome::<u64>::NoDim(model)
            &&& n == input.lines.len() && !input.closed ==> outcome is Wait
        }),
    decreases input.lines.len() - t.at,
{
    let shown = say(
        say(say(t, "Vector dimensionality of '"@), model),
        "' (its embedding output size, e.g. 768): "@,
    );
    let again = say(used(shown), "  please enter a positive integer\n"@);
    if t.at < input.lines.len() {
        let v = text::number(text::trimmed(input.lines[t.at]));
        if v is Some && v->0 > 0 {
            t.at
        } else {
            law_dim_question(input, again, model)
        }
    } else {
        t.at
    }
}

/// The known models, by a part of their name, whatever the case: the first that fits decides the vector
/// size, and a name that holds none of the parts is unknown.
pub proof fn law_known_models(model: Seq<char>)
    ensures
        dim_of(text::lower(model)) == dim_of(model),
        ({
            let m = text::lower(model);
            let jina = text::has(m, "jina-embeddings-v2-base-code"@);
            let small = text::has(m, "e5-small"@);
            let base = text::has(m, "e5-base"@);
            let large = text::has(m, "e5-large"@) || text::has(m, "mxbai-embed-large"@);
            let nomic = text::has(m, "nomic-embed-text"@);
            &&& dim_of(model) == Some(384u64) <==> small && !jina
            &&& dim_of(model) == Some(768u64) <==> jina || (!small && (base || (!large && nomic)))
            &&& dim_of(model) == Some(1024u64) <==> !jina && !small && !base && large
            &&& dim_of(model) is None <==> !jina && !small && !base && !large && !nomic
        }),
{
    text::law_lower(model);
}

/// The directories that a list answer names: its comma-separated pieces, without white space around
/// them, in order, and without those of white space alone.
pub proof fn law_list_question(input: Input, t: Talk, prompt: Seq<char>) -> (at: Seq<int>)
    requires
        0 <= t.at < input.lines.len(),
    ensures
        ({
            let (after, outcome) = list_talk(input, t, prompt);
            let pieces = text::split(text::trimmed(input.lines[t.at]), ',');
            &&& after.at == t.at + 1
            &&& outcome matches Outcome::Got(dirs)
            &&& at.len() == dirs.len()
            &&& crate::lists::are_places(at, pieces.len() as int)
            &&& forall|k: int| 0 <= k < dirs.len() ==> (#[trigger] dirs[k]) == text::trimmed(pieces[at[k]])
            &&& forall|i: int|
                0 <= i < pieces.len() ==> (#[trigger] at.contains(i) <==> text::trimmed(pieces[i]).len() > 0)
        }),
{
    let s = text::trimmed(input.lines[t.at]);
    let pieces = text::split(s, ',');
    let at = text::law_filled(pieces);
    assert forall|i: int| 0 <= i < pieces.len() implies (#[trigger] at.contains(i) <==> text::trimmed(
        pieces[i],
    ).len() > 0) by {
        text::law_trimmed_blank(pieces[i]);
    }
    if s.len() == 0 {
        assert(pieces =~= seq![Seq::<char>::empty()]);
        text::law_trimmed_blank(pieces[0]);
        assert(!at.contains(0));
        if at.len() > 0 {
            assert(0 <= at[0] < 1);
            assert(at.contains(at[0]));
        }
    }
    at
}

/// What was answered is what the settings say. For an interview in which every answer is taken at once,
/// about a known model: with DuckDB the backend, the embedder, the collection, the model, the file, the
/// Ollama server where that embeds, and the directories; with Qdrant the backend, the collection, the
/// model, the server and the directories.
pub proof fn law_answers_taken(input: Input)
    requires
        input.lines.len() >= 7,
        forall|k: int| 0 <= k < 7 ==> text::trimmed(#[trigger] input.lines[k]).len() > 0,
        text::lower(text::trimmed(input.lines[0])) == "duckdb"@ || text::lower(text::trimmed(input.lines[0]))
            == "qdrant"@,
        text::lower(text::trimmed(input.lines[0])) == "duckdb"@ ==> text::lower(text::trimmed(input.lines[1]))
            == "ort"@ || text::lower(text::trimmed(input.lines[1])) == "ollama"@,
        dim_of(
            text::trimmed(
                input.lines[if text::lower(text::trimmed(input.lines[0])) == "duckdb"@ {
                    3int
                } else {
                    2int
                }],
            ),
        ) is Some,
    ensures
        interview_talk(input).1 is Got,
        ({
            let said = |k: int| text::trimmed(input.lines[k]);
            let a = interview_talk(input).1->Got_0;
            &&& a.backend == text::lower(said(0))
            &&& dim_of(a.model) == Some(a.vector_dim)
            &&& a.backend == "duckdb"@ ==> {
                let ollama = a.embedder == "ollama"@;
                &&& a.embedder == text::lower(said(1))
                &&& a.collection == said(2)
                &&& a.model == said(3)
                &&& a.duckdb_path == said(4)
                &&& a.qdrant_url is None
                &&& ollama ==> a.ollama_url == said(5) && a.extra_exclude_dirs == text::filled(
                    text::split(said(6), ','),
                )
                &&& !ollama ==> a.ollama_url == "http://localhost:11434"@ && a.extra_exclude_dirs == text::filled(
                    text::split(said(5), ','),
                )
            }
            &&& a.backend == "qdrant"@ ==> {
                &&& a.embedder == "ort"@
                &&& a.collection == said(1)
                &&& a.model == said(2)
                &&& a.qdrant_url == Some(said(3))
                &&& a.duckdb_path == ".index/code.duckdb"@
                &&& a.extra_exclude_dirs == text::filled(text::split(said(4), ','))
            }
        }),
{
    reveal_strlit("duckdb");
    reveal_strlit("qdrant");
    reveal_strlit("ort");
    reveal_strlit("ollama");
    assert("duckdb"@[0] == 'd' && "qdrant"@[0] == 'q');
    assert("ort"@.len() == 3 && "ollama"@.len() == 6);
    let backends = seq!["duckdb"@, "qdrant"@];
    let embedders = seq!["ort"@, "ollama"@];
    assert(backends[0] == "duckdb"@ && backends[1] == "qdrant"@);
    assert(embedders[0] == "ort"@ && embedders[1] == "ollama"@);
    assert(backends.contains(text::lower(text::trimmed(input.lines[0]))));
    if text::lower(text::trimmed(input.lines[0])) == "duckdb"@ {
        assert(embedders.contains(text::lower(text::trimmed(input.lines[1]))));
    }
    assert(text::trimmed(input.lines[2]).len() > 0 && text::trimmed(input.lines[3]).len() > 0);
    assert(text::trimmed(input.lines[4]).len() > 0 && text::trimmed(input.lines[5]).len() > 0);
    assert(text::trimmed(input.lines[6]).len() > 0);
}

/// Whether a text was entered: it is one of the lines, without the white space around it.
pub open spec fn entered(input: Input, s: Seq<char>) -> bool {
    exists|k: int| 0 <= k < input.lines.len() && text::trimmed(#[trigger] input.lines[k]) == s
}

/// Whether a number was entered.
pub open spec fn entered_number(input: Input, n: u64) -> bool {
    exists|k: int|
        0 <= k < input.lines.len() && text::number(text::trimmed(#[trigger] input.lines[k])) == Some(n)
}

proof fn lemma_string_entered(input: Input, t: Talk, prompt: Seq<char>, default: Seq<char>)
    requires
        0 <= t.at <= input.lines.len(),
    ensures
        t.at <= string_talk(input, t, prompt, default).0.at <= input.lines.len(),
        string_talk(input, t, prompt, default).1 matches Outcome::Got(s) ==> s == default || entered(input, s),
{
    if t.at < input.lines.len() {
        assert(text::trimmed(input.lines[t.at]) == input.heard(t.at)->0);
    }
}

proof fn lemma_optional_entered(input: Input, t: Talk, prompt: Seq<char>)
    requires
        0 <= t.at <= input.lines.len(),
    ensures
        t.at <= optional_talk(input, t, prompt).0.at <= input.lines.len(),
        optional_talk(input, t, prompt).1 matches Outcome::Got(Some(s)) ==> entered(input, s),
{
    if t.at < input.lines.len() {
        assert(text::trimmed(input.lines[t.at]) == input.heard(t.at)->0);
    }
}

proof fn lemma_dim_entered(input: Input, t: Talk, model: Seq<char>)
    requires
        0 <= t.at <= input.lines.len(),
    ensures
        dim_talk(input, t, model).1 matches Outcome::Got(n) ==> entered_number(input, n) && t.at <= dim_talk(
            input,
            t,
            model,
        ).0.at <= input.lines.len(),
{
    let n = law_dim_question(input, t, model);
    if n < input.lines.len() {
        assert(text::number(text::trimmed(input.lines[n])) is Some);
    }
}

proof fn lemma_connection_entered(input: Input, t: Talk, a: AnswersView)
    requires
        0 <= t.at <= input.lines.len(),
    ensures
        connection_stage(input, t, a).1 matches Outcome::Got(b) ==> {
            &&& b.backend == a.backend && b.embedder == a.embedder && b.collection == a.collection && b.model == a.model
            &&& b.vector_dim == a.vector_dim
            &&& a.backend == "qdrant"@ ==> (b.qdrant_url matches Some(u) ==> entered(input, u))
            &&& a.backend != "qdrant"@ ==> b.qdrant_url == a.qdrant_url && (b.duckdb_path == DEFAULT_DUCKDB_PATH@
                || entered(input, b.duckdb_path))
            &&& a.embedder == "ollama"@ ==> b.ollama_url == DEFAULT_OLLAMA_URL@ || entered(input, b.ollama_url)
        },
{
    if a.backend == "qdrant"@ {
        lemma_optional_entered(input, t, QDRANT_URL_PROMPT@);
        let u = optional_talk(input, t, QDRANT_URL_PROMPT@).0;
        lemma_string_entered(input, u, OLLAMA_URL_PROMPT@, DEFAULT_OLLAMA_URL@);
    } else {
        lemma_string_entered(input, t, DUCKDB_PATH_PROMPT@, DEFAULT_DUCKDB_PATH@);
        let u = string_talk(input, t, DUCKDB_PATH_PROMPT@, DEFAULT_DUCKDB_PATH@).0;
        lemma_string_entered(input, u, OLLAMA_URL_PROMPT@, DEFAULT_OLLAMA_URL@);
    }
}

proof fn lemma_collection_entered(input: Input, t: Talk, backend: Seq<char>, embedder: Seq<char>)
    requires
        0 <= t.at <= input.lines.len(),
    ensures
        collection_stage(input, t, backend, embedder).1 matches Outcome::Got(b) ==> all_entered(input, b) && b.backend
            == backend && b.embedder == embedder,
{
    lemma_string_entered(input, t, COLLECTION_PROMPT@, DEFAULT_COLLECTION@);
    if let (t, Outcome::Got(collection)) = string_talk(input, t, COLLECTION_PROMPT@, DEFAULT_COLLECTION@) {
        let suggestion = suggested_model(backend, embedder);
        lemma_string_entered(input, t, MODEL_PROMPT@, suggestion);
        if let (t, Outcome::Got(model)) = string_talk(input, t, MODEL_PROMPT@, suggestion) {
            let a = AnswersView { backend, embedder, collection, model, ..default_answers() };
            match dim_of(model) {
                Some(dim) => {
                    let u = say(
                        say(say(say(say(t, "  using "@), text::decimal(dim as nat)), " dimensions for "@), model),
                        "\n"@,
                    );
                    lemma_connection_entered(input, u, AnswersView { vector_dim: dim, ..a });
                },
                None => {
                    lemma_dim_entered(input, t, model);
                    if let (u, Outcome::Got(dim)) = dim_talk(input, t, model) {
                        lemma_connection_entered(input, u, AnswersView { vector_dim: dim, ..a });
                    }
                },
            }
        }
    }
}

/// Whether every setting was entered or is a default.
pub open spec fn all_entered(input: Input, a: AnswersView) -> bool {
    &&& a.collection == "source_code"@ || entered(input, a.collection)
    &&& entered(input, a.model) || a.model == if a.backend == "qdrant"@ {
        "intfloat/multilingual-e5-small"@
    } else if a.embedder == "ollama"@ {
        "mxbai-embed-large"@
    } else {
        "jinaai/jina-embeddings-v2-base-code"@
    }
    &&& dim_of(a.model) matches Some(dim) ==> a.vector_dim == dim
    &&& dim_of(a.model) is None ==> entered_number(input, a.vector_dim)
    &&& a.backend == "qdrant"@ ==> (a.qdrant_url matches Some(u) ==> entered(input, u))
    &&& a.backend != "qdrant"@ ==> a.qdrant_url is None && (a.duckdb_path == ".index/code.duckdb"@ || entered(
        input,
        a.duckdb_path,
    ))
    &&& a.embedder == "ollama"@ ==> a.ollama_url == "http://localhost:11434"@ || entered(input, a.ollama_url)
}

/// The interview makes nothing up: every setting was entered or is the default of its question, and the
/// vector size is that of a known model or was entered.
pub proof fn law_answers_entered(input: Input)
    ensures
        interview_talk(input).1 matches Outcome::Got(a) ==> all_entered(input, a),
{
    let t = say(Talk { at: 0, out: Seq::empty() }, GREETING@);
    let backends = seq!["duckdb"@, "qdrant"@];
    let embedders = seq!["ort"@, "ollama"@];
    let n = law_choice_question(input, t, BACKEND_PROMPT@, backends, "duckdb"@);
    if let (t, Outcome::Got(backend)) = choice_talk(input, t, BACKEND_PROMPT@, backends, "duckdb"@) {
        if backend == "duckdb"@ {
            let m = law_choice_question(input, t, EMBEDDER_PROMPT@, embedders, "ort"@);
            if let (t, Outcome::Got(embedder)) = choice_talk(input, t, EMBEDDER_PROMPT@, embedders, "ort"@) {
                lemma_collection_entered(input, t, backend, embedder);
            }
        } else {
            lemma_collection_entered(input, t, backend, "ort"@);
        }
    }
}

} // verus!
