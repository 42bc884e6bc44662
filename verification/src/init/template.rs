//! The text of a starter config.

use crate::cli::Args;
use crate::config;
use crate::config::{Config, DEFAULT_MODEL, DEFAULT_MODEL_REPO};
use crate::domain::Plan;
use crate::init::interview::{Answers, AnswersView};
use crate::text;
use vstd::prelude::*;

verus! {

/// The settings that every config states. The embedder is stated with DuckDB only: Qdrant embeds on
/// the server.
pub open spec fn head_lines(a: AnswersView) -> Seq<Seq<char>> {
    seq![
        "# Settings of semanticastindexer. Command-line flags win over this file."@,
        "backend: "@ + a.backend,
    ] + (if a.backend == "duckdb"@ {
        seq!["embedder: "@ + a.embedder]
    } else {
        Seq::empty()
    }) + seq![
        "collection: "@ + a.collection,
        "model: "@ + a.model,
        "vector_dim: "@ + text::decimal(a.vector_dim as nat),
        ""@,
        "# Directories that are never walked."@,
        "exclude_dirs:"@,
        "  - node_modules"@,
        "  - dist"@,
        "  - build"@,
        "  - target"@,
    ]
}

/// The further directories that are never walked.
pub open spec fn dir_lines(dirs: Seq<Seq<char>>) -> Seq<Seq<char>> {
    dirs.map_values(|d: Seq<char>| "  - "@ + d)
}

/// The files that are left out.
pub open spec fn file_lines() -> Seq<Seq<char>> {
    seq![
        ""@,
        "# Files that are left out."@,
        "exclude:"@,
        "  - \"**/*.test.ts\""@,
        "  - \"**/*.spec.ts\""@,
        "  - \"**/*.d.ts\""@,
        "skip_generated_marker: true"@,
    ]
}

/// Where the local embedder finds a model.
pub open spec fn repo_of(model: Seq<char>) -> Seq<char> {
    if model == DEFAULT_MODEL@ {
        DEFAULT_MODEL_REPO@
    } else {
        model
    }
}

/// The settings of the chosen backend and embedder.
pub open spec fn connection_lines(a: AnswersView) -> Seq<Seq<char>> {
    (if a.backend == "duckdb"@ {
        seq![""@, "duckdb:"@, "  path: "@ + a.duckdb_path] + (if a.embedder == "ort"@ {
            seq!["  model_repo: "@ + repo_of(a.model)]
        } else {
            Seq::empty()
        })
    } else {
        Seq::empty()
    }) + (if a.qdrant_url is Some {
        seq![""@, "qdrant:"@, "  url: "@ + a.qdrant_url->0]
    } else {
        Seq::empty()
    }) + (if a.backend == "duckdb"@ && a.embedder == "ollama"@ {
        seq![""@, "ollama:"@, "  url: "@ + a.ollama_url, "  model: "@ + a.model]
    } else {
        Seq::empty()
    })
}

/// The lines of a config.
pub open spec fn config_lines(a: AnswersView) -> Seq<Seq<char>> {
    head_lines(a) + dir_lines(a.extra_exclude_dirs) + file_lines() + connection_lines(a)
}

fn head(a: &Answers) -> (r: Vec<String>)
    ensures
        text::views(r@) == head_lines(a@),
{
    let mut r: Vec<String> = Vec::new();
    r.push("# Settings of semanticastindexer. Command-line flags win over this file.".to_string());
    r.push("backend: ".to_string().concat(a.backend.as_str()));
    if text::same(a.backend.as_str(), "duckdb") {
        r.push("embedder: ".to_string().concat(a.embedder.as_str()));
    }
    r.push("collection: ".to_string().concat(a.collection.as_str()));
    r.push("model: ".to_string().concat(a.model.as_str()));
    r.push("vector_dim: ".to_string().concat(text::decimal_of(a.vector_dim).as_str()));
    r.push("".to_string());
    r.push("# Directories that are never walked.".to_string());
    r.push("exclude_dirs:".to_string());
    r.push("  - node_modules".to_string());
    r.push("  - dist".to_string());
    r.push("  - build".to_string());
    r.push("  - target".to_string());
    assert(text::views(r@) =~= head_lines(a@));
    r
}

fn dirs(list: &Vec<String>) -> (r: Vec<String>)
    ensures
        text::views(r@) == dir_lines(text::views(list@)),
{
    let mut r: Vec<String> = Vec::new();
    let mut i: usize = 0;
    while i < list.len()
        invariant
            i <= list@.len(),
            r@.len() == i,
            forall|k: int| 0 <= k < i ==> #[trigger] r@[k]@ == "  - "@ + list@[k]@,
        decreases list@.len() - i,
    {
        r.push("  - ".to_string().concat(list[i].as_str()));
        i += 1;
    }
    assert(text::views(r@) =~= dir_lines(text::views(list@)));
    r
}

fn files() -> (r: Vec<String>)
    ensures
        text::views(r@) == file_lines(),
{
    let mut r: Vec<String> = Vec::new();
    r.push("".to_string());
    r.push("# Files that are left out.".to_string());
    r.push("exclude:".to_string());
    r.push("  - \"**/*.test.ts\"".to_string());
    r.push("  - \"**/*.spec.ts\"".to_string());
    r.push("  - \"**/*.d.ts\"".to_string());
    r.push("skip_generated_marker: true".to_string());
    assert(text::views(r@) =~= file_lines());
    r
}

fn connections(a: &Answers) -> (r: Vec<String>)
    ensures
        text::views(r@) == connection_lines(a@),
{
    let mut r: Vec<String> = Vec::new();
    let local = text::same(a.backend.as_str(), "duckdb");
    if local {
        r.push("".to_string());
        r.push("duckdb:".to_string());
        r.push("  path: ".to_string().concat(a.duckdb_path.as_str()));
        if text::same(a.embedder.as_str(), "ort") {
            let repo = if text::same(a.model.as_str(), DEFAULT_MODEL) {
                DEFAULT_MODEL_REPO
            } else {
                a.model.as_str()
            };
            r.push("  model_repo: ".to_string().concat(repo));
        }
    }
    if let Some(url) = &a.qdrant_url {
        r.push("".to_string());
        r.push("qdrant:".to_string());
        r.push("  url: ".to_string().concat(url.as_str()));
    }
    if local && text::same(a.embedder.as_str(), "ollama") {
        r.push("".to_string());
        r.push("ollama:".to_string());
        r.push("  url: ".to_string().concat(a.ollama_url.as_str()));
        r.push("  model: ".to_string().concat(a.model.as_str()));
    }
    assert(text::views(r@) =~= connection_lines(a@));
    r
}

/// The text of the config that states some answers.
pub fn render(a: &Answers) -> (r: String)
    ensures
        r@ == text::joined(config_lines(a@), "\n"@) + "\n"@,
{
    let mut lines = head(a);
    let mut extra = dirs(&a.extra_exclude_dirs);
    let mut left_out = files();
    let mut connection = connections(a);
    let ghost parts = (lines@, extra@, left_out@, connection@);
    lines.append(&mut extra);
    lines.append(&mut left_out);
    lines.append(&mut connection);
    assert(lines@ =~= parts.0 + parts.1 + parts.2 + parts.3);
    assert(text::views(lines@) =~= config_lines(a@));
    text::join(&lines, "\n").concat("\n")
}

/// Whether a line gives the key a value.
pub open spec fn gives(line: Seq<char>, key: Seq<char>) -> bool {
    (key + ": "@).is_prefix_of(line)
}

/// The value that the first line with the key gives it.
pub open spec fn stated(lines: Seq<Seq<char>>, key: Seq<char>) -> Option<Seq<char>>
    decreases lines.len(),
{
    if lines.len() == 0 {
        None
    } else if gives(lines[0], key) {
        Some(lines[0].skip((key + ": "@).len() as int))
    } else {
        stated(lines.skip(1), key)
    }
}

/// Whether a setting is the one stated.
pub open spec fn taken(setting: Option<String>, value: Option<Seq<char>>) -> bool {
    match setting {
        Some(s) => value == Some(s@),
        None => value is None,
    }
}

/// Whether a config holds what the lines state of backend, embedder, collection, model, vector size
/// and the DuckDB file.
pub open spec fn reads_as(lines: Seq<Seq<char>>, c: Config) -> bool {
    &&& taken(c.backend, stated(lines, "backend"@))
    &&& taken(c.embedder, stated(lines, "embedder"@))
    &&& taken(c.collection, stated(lines, "collection"@))
    &&& taken(c.model, stated(lines, "model"@))
    &&& c.vector_dim == match stated(lines, "vector_dim"@) {
        Some(s) => text::number(s),
        None => None,
    }
    &&& taken(c.duckdb.path, stated(lines, "  path"@))
    &&& taken(c.duckdb.model_repo, stated(lines, "  model_repo"@))
}

proof fn lemma_stated_at(lines: Seq<Seq<char>>, key: Seq<char>, i: int, value: Seq<char>)
    requires
        0 <= i < lines.len(),
        lines[i] == key + ": "@ + value,
        forall|j: int| 0 <= j < i ==> !gives(#[trigger] lines[j], key),
    ensures
        stated(lines, key) == Some(value),
    decreases i,
{
    if i == 0 {
        assert((key + ": "@ + value).skip((key + ": "@).len() as int) =~= value);
    } else {
        let rest = lines.skip(1);
        assert forall|j: int| 0 <= j < i - 1 implies !gives(#[trigger] rest[j], key) by {
            assert(rest[j] == lines[j + 1]);
        }
        lemma_stated_at(rest, key, i - 1, value);
    }
}

proof fn lemma_not_stated(lines: Seq<Seq<char>>, key: Seq<char>)
    requires
        forall|j: int| 0 <= j < lines.len() ==> !gives(#[trigger] lines[j], key),
    ensures
        stated(lines, key) is None,
    decreases lines.len(),
{
    if lines.len() > 0 {
        let rest = lines.skip(1);
        assert forall|j: int| 0 <= j < rest.len() implies !gives(#[trigger] rest[j], key) by {
            assert(rest[j] == lines[j + 1]);
        }
        lemma_not_stated(rest, key);
    }
}

/// Whether one of the first three characters tells a line from any that gives the key a value.
spec fn differs(line: Seq<char>, key: Seq<char>) -> bool {
    ||| line.len() == 0
    ||| line[0] != key[0]
    ||| line.len() > 1 && line[1] != key[1]
    ||| line.len() > 2 && line[2] != key[2]
}

proof fn lemma_other_line(line: Seq<char>, key: Seq<char>)
    requires
        key.len() > 2,
        differs(line, key),
    ensures
        !gives(line, key),
{
    let front = key + ": "@;
    if gives(line, key) {
        assert(front[0] == key[0] && front[1] == key[1] && front[2] == key[2]);
        assert(line.take(front.len() as int)[0] == line[0]);
    }
}

proof fn lemma_begins(s: Seq<char>, rest: Seq<char>)
    requires
        s.len() > 2,
    ensures
        (s + rest)[0] == s[0],
        (s + rest)[1] == s[1],
        (s + rest)[2] == s[2],
        (s + rest).len() > 2,
{
}

/// The first characters of every line and key.
proof fn lemma_literals()
    ensures
        "# Settings of semanticastindexer. Command-line flags win over this file."@[0] == '#',
        "backend: "@ == "backend"@ + ": "@,
        "embedder: "@ == "embedder"@ + ": "@,
        "collection: "@ == "collection"@ + ": "@,
        "model: "@ == "model"@ + ": "@,
        "vector_dim: "@ == "vector_dim"@ + ": "@,
        "  path: "@ == "  path"@ + ": "@,
        "  model_repo: "@ == "  model_repo"@ + ": "@,
        "backend"@.len() > 2 && "backend"@[0] == 'b',
        "embedder"@.len() > 2 && "embedder"@[0] == 'e' && "embedder"@[1] == 'm',
        "collection"@.len() > 2 && "collection"@[0] == 'c',
        "model"@.len() > 2 && "model"@[0] == 'm',
        "vector_dim"@.len() > 2 && "vector_dim"@[0] == 'v',
        "  path"@.len() > 2 && "  path"@[0] == ' ' && "  path"@[2] == 'p',
        "  model_repo"@.len() > 2 && "  model_repo"@[0] == ' ' && "  model_repo"@[2] == 'm',
        ""@.len() == 0,
        "# Directories that are never walked."@[0] == '#',
        "exclude_dirs:"@.len() > 1 && "exclude_dirs:"@[0] == 'e' && "exclude_dirs:"@[1] == 'x',
        "  - node_modules"@.len() > 2 && "  - node_modules"@[0] == ' ' && "  - node_modules"@[2] == '-',
        "  - dist"@.len() > 2 && "  - dist"@[0] == ' ' && "  - dist"@[2] == '-',
        "  - build"@.len() > 2 && "  - build"@[0] == ' ' && "  - build"@[2] == '-',
        "  - target"@.len() > 2 && "  - target"@[0] == ' ' && "  - target"@[2] == '-',
        "  - "@.len() > 2 && "  - "@[0] == ' ' && "  - "@[2] == '-',
        "# Files that are left out."@[0] == '#',
        "exclude:"@.len() > 1 && "exclude:"@[0] == 'e' && "exclude:"@[1] == 'x',
        "  - \"**/*.test.ts\""@.len() > 2 && "  - \"**/*.test.ts\""@[0] == ' ' && "  - \"**/*.test.ts\""@[2] == '-',
        "  - \"**/*.spec.ts\""@.len() > 2 && "  - \"**/*.spec.ts\""@[0] == ' ' && "  - \"**/*.spec.ts\""@[2] == '-',
        "  - \"**/*.d.ts\""@.len() > 2 && "  - \"**/*.d.ts\""@[0] == ' ' && "  - \"**/*.d.ts\""@[2] == '-',
        "skip_generated_marker: true"@[0] == 's',
        "duckdb:"@[0] == 'd',
        "qdrant:"@[0] == 'q',
        "ollama:"@[0] == 'o',
        "  url: "@.len() > 2 && "  url: "@[0] == ' ' && "  url: "@[2] == 'u',
        "duckdb"@ != "qdrant"@,
{
    reveal_strlit("# Settings of semanticastindexer. Command-line flags win over this file.");
    reveal_strlit("backend: ");
    reveal_strlit("backend");
    reveal_strlit("embedder: ");
    reveal_strlit("embedder");
    reveal_strlit("collection: ");
    reveal_strlit("collection");
    reveal_strlit("model: ");
    reveal_strlit("model");
    reveal_strlit("vector_dim: ");
    reveal_strlit("vector_dim");
    reveal_strlit("  path: ");
    reveal_strlit("  path");
    reveal_strlit("  model_repo: ");
    reveal_strlit("  model_repo");
    reveal_strlit(": ");
    reveal_strlit("");
    reveal_strlit("# Directories that are never walked.");
    reveal_strlit("exclude_dirs:");
    reveal_strlit("  - node_modules");
    reveal_strlit("  - dist");
    reveal_strlit("  - build");
    reveal_strlit("  - target");
    reveal_strlit("  - ");
    reveal_strlit("# Files that are left out.");
    reveal_strlit("exclude:");
    reveal_strlit("  - \"**/*.test.ts\"");
    reveal_strlit("  - \"**/*.spec.ts\"");
    reveal_strlit("  - \"**/*.d.ts\"");
    reveal_strlit("skip_generated_marker: true");
    reveal_strlit("duckdb:");
    reveal_strlit("qdrant:");
    reveal_strlit("ollama:");
    reveal_strlit("  url: ");
    reveal_strlit("duckdb");
    reveal_strlit("qdrant");
    assert("backend: "@ =~= "backend"@ + ": "@);
    assert("embedder: "@ =~= "embedder"@ + ": "@);
    assert("collection: "@ =~= "collection"@ + ": "@);
    assert("model: "@ =~= "model"@ + ": "@);
    assert("vector_dim: "@ =~= "vector_dim"@ + ": "@);
    assert("  path: "@ =~= "  path"@ + ": "@);
    assert("  model_repo: "@ =~= "  model_repo"@ + ": "@);
    assert("duckdb"@[0] != "qdrant"@[0]);
}

/// What the rendered config of Qdrant answers states: no embedder and no DuckDB file.
proof fn lemma_qdrant_lines(a: AnswersView)
    requires
        a.backend == "qdrant"@,
    ensures
        stated(config_lines(a), "backend"@) == Some(a.backend),
        stated(config_lines(a), "embedder"@) is None,
        stated(config_lines(a), "collection"@) == Some(a.collection),
        stated(config_lines(a), "model"@) == Some(a.model),
        stated(config_lines(a), "vector_dim"@) == Some(text::decimal(a.vector_dim as nat)),
{
    lemma_literals();
    let lines = config_lines(a);
    lemma_begins("backend: "@, a.backend);
    lemma_begins("collection: "@, a.collection);
    lemma_begins("model: "@, a.model);
    lemma_begins("vector_dim: "@, text::decimal(a.vector_dim as nat));
    assert(lines[0] == "# Settings of semanticastindexer. Command-line flags win over this file."@);
    assert(lines[1] == "backend: "@ + a.backend);
    assert(lines[2] == "collection: "@ + a.collection);
    assert(lines[3] == "model: "@ + a.model);
    assert(lines[4] == "vector_dim: "@ + text::decimal(a.vector_dim as nat));
    lemma_early(lines, "backend"@, 1);
    lemma_stated_at(lines, "backend"@, 1, a.backend);
    lemma_early(lines, "collection"@, 2);
    lemma_stated_at(lines, "collection"@, 2, a.collection);
    lemma_early(lines, "model"@, 3);
    lemma_stated_at(lines, "model"@, 3, a.model);
    lemma_early(lines, "vector_dim"@, 4);
    lemma_stated_at(lines, "vector_dim"@, 4, text::decimal(a.vector_dim as nat));
    assert forall|j: int| 0 <= j < lines.len() implies differs(#[trigger] lines[j], "embedder"@) by {
        let head = head_lines(a);
        let dirs = dir_lines(a.extra_exclude_dirs);
        let files = file_lines();
        if j < head.len() {
            assert(lines[j] == head[j]);
        } else if j < head.len() + dirs.len() {
            assert(lines[j] == dirs[j - head.len()]);
            lemma_begins("  - "@, a.extra_exclude_dirs[j - head.len()]);
        } else if j < head.len() + dirs.len() + files.len() {
            assert(lines[j] == files[j - head.len() - dirs.len()]);
        } else {
            let k = j - head.len() - dirs.len() - files.len();
            assert(lines[j] == connection_lines(a)[k]);
            lemma_begins("  url: "@, a.qdrant_url->0);
        }
    }
    lemma_early(lines, "embedder"@, lines.len() as int);
    lemma_not_stated(lines, "embedder"@);
}

proof fn lemma_early(lines: Seq<Seq<char>>, key: Seq<char>, n: int)
    requires
        key.len() > 2,
        n <= lines.len(),
        forall|j: int| 0 <= j < n ==> differs(#[trigger] lines[j], key),
    ensures
        forall|j: int| 0 <= j < n ==> !gives(#[trigger] lines[j], key),
{
    assert forall|j: int| 0 <= j < n implies !gives(#[trigger] lines[j], key) by {
        assert(differs(lines[j], key));
        lemma_other_line(lines[j], key);
    }
}

/// What the rendered config of DuckDB answers states.
proof fn lemma_duckdb_lines(a: AnswersView)
    requires
        a.backend == "duckdb"@,
    ensures
        stated(config_lines(a), "backend"@) == Some(a.backend),
        stated(config_lines(a), "embedder"@) == Some(a.embedder),
        stated(config_lines(a), "collection"@) == Some(a.collection),
        stated(config_lines(a), "model"@) == Some(a.model),
        stated(config_lines(a), "vector_dim"@) == Some(text::decimal(a.vector_dim as nat)),
        stated(config_lines(a), "  path"@) == Some(a.duckdb_path),
        a.embedder == "ort"@ ==> stated(config_lines(a), "  model_repo"@) == Some(repo_of(a.model)),
{
    lemma_literals();
    let lines = config_lines(a);
    lemma_begins("backend: "@, a.backend);
    lemma_begins("embedder: "@, a.embedder);
    lemma_begins("collection: "@, a.collection);
    lemma_begins("model: "@, a.model);
    lemma_begins("vector_dim: "@, text::decimal(a.vector_dim as nat));
    lemma_begins("  path: "@, a.duckdb_path);
    assert(lines[0] == "# Settings of semanticastindexer. Command-line flags win over this file."@);
    assert(lines[1] == "backend: "@ + a.backend);
    assert(lines[2] == "embedder: "@ + a.embedder);
    assert(lines[3] == "collection: "@ + a.collection);
    assert(lines[4] == "model: "@ + a.model);
    assert(lines[5] == "vector_dim: "@ + text::decimal(a.vector_dim as nat));
    lemma_early(lines, "backend"@, 1);
    lemma_stated_at(lines, "backend"@, 1, a.backend);
    lemma_early(lines, "embedder"@, 2);
    lemma_stated_at(lines, "embedder"@, 2, a.embedder);
    lemma_early(lines, "collection"@, 3);
    lemma_stated_at(lines, "collection"@, 3, a.collection);
    lemma_early(lines, "model"@, 4);
    lemma_stated_at(lines, "model"@, 4, a.model);
    lemma_early(lines, "vector_dim"@, 5);
    lemma_stated_at(lines, "vector_dim"@, 5, text::decimal(a.vector_dim as nat));
    let head = head_lines(a);
    let dirs = dir_lines(a.extra_exclude_dirs);
    let files = file_lines();
    let start = (head.len() + dirs.len() + files.len()) as int;
    assert forall|j: int| 0 <= j < start + 2 implies differs(#[trigger] lines[j], "  path"@) && differs(
        lines[j],
        "  model_repo"@,
    ) by {
        if j < head.len() {
            assert(lines[j] == head[j]);
        } else if j < head.len() + dirs.len() {
            assert(lines[j] == dirs[j - head.len()]);
            lemma_begins("  - "@, a.extra_exclude_dirs[j - head.len()]);
        } else if j < start {
            assert(lines[j] == files[j - head.len() - dirs.len()]);
        } else {
            assert(lines[j] == connection_lines(a)[j - start]);
        }
    }
    assert(lines[start + 2] == connection_lines(a)[2]);
    assert(lines[start + 2] == "  path: "@ + a.duckdb_path);
    lemma_early(lines, "  path"@, start + 2);
    lemma_stated_at(lines, "  path"@, start + 2, a.duckdb_path);
    if a.embedder == "ort"@ {
        assert(lines[start + 3] == connection_lines(a)[3]);
        assert(lines[start + 3] == "  model_repo: "@ + repo_of(a.model));
        assert(differs(lines[start + 2], "  model_repo"@));
        lemma_early(lines, "  model_repo"@, start + 3);
        lemma_stated_at(lines, "  model_repo"@, start + 3, repo_of(a.model));
    }
}

/// A rendered config, read again without flags, resolves into what was answered. With Qdrant that is
/// embedding on the server, whatever embedder the answers hold; with DuckDB it is their embedder and
/// file, and the local embedder loads the model that was answered.
pub proof fn law_rendered_config_resolves(
    a: AnswersView,
    c: Config,
    args: Args,
    default: Seq<char>,
    ast: bool,
    p: Plan,
)
    requires
        a.backend == "duckdb"@ || a.backend == "qdrant"@,
        reads_as(config_lines(a), c),
        args.backend is None,
        args.embedder is None,
        args.collection is None,
        args.model is None,
        config::is_plan(p, args, c, default, ast),
    ensures
        p.backend@ == a.backend,
        p.collection@ == a.collection,
        p.model@ == a.model,
        p.vector_dim == a.vector_dim,
        a.backend == "qdrant"@ ==> p.embedder@ == "qdrant"@,
        a.backend == "duckdb"@ ==> p.embedder@ == a.embedder && p.duckdb_path@ == a.duckdb_path,
        a.backend == "duckdb"@ && a.embedder == "ort"@ ==> p.model_repo@ == repo_of(a.model),
{
    text::law_numerals_read_back(a.vector_dim);
    lemma_literals();
    if a.backend == "qdrant"@ {
        lemma_qdrant_lines(a);
    } else {
        lemma_duckdb_lines(a);
    }
}

/// A config names every directory that was asked to be left out, on a line of its own; the address of
/// the Qdrant server where one was given; and server and model of Ollama exactly where that embeds for
/// DuckDB.
pub proof fn law_rendered_lines(a: AnswersView)
    ensures
        forall|k: int|
            0 <= k < a.extra_exclude_dirs.len() ==> config_lines(a).contains(
                "  - "@ + #[trigger] a.extra_exclude_dirs[k],
            ),
        a.qdrant_url matches Some(url) ==> config_lines(a).contains("  url: "@ + url) && config_lines(a).contains(
            "qdrant:"@,
        ),
        a.backend == "duckdb"@ && a.embedder == "ollama"@ ==> config_lines(a).contains("  url: "@ + a.ollama_url)
            && config_lines(a).contains("  model: "@ + a.model) && config_lines(a).contains("ollama:"@),
        a.backend == "duckdb"@ ==> config_lines(a).contains("duckdb:"@) && config_lines(a).contains(
            "  path: "@ + a.duckdb_path,
        ),
        config_lines(a).contains("skip_generated_marker: true"@),
        config_lines(a).contains("exclude_dirs:"@),
{
    let h = head_lines(a);
    let d = dir_lines(a.extra_exclude_dirs);
    let f = file_lines();
    let c = connection_lines(a);
    let all = config_lines(a);
    let hd = (h.len() + d.len()) as int;
    let hdf = hd + f.len();
    assert forall|k: int| 0 <= k < a.extra_exclude_dirs.len() implies all.contains(
        "  - "@ + #[trigger] a.extra_exclude_dirs[k],
    ) by {
        assert(all[h.len() + k] == d[k]);
    }
    assert forall|k: int| 0 <= k < c.len() implies all.contains(#[trigger] c[k]) by {
        assert(all[hdf + k] == c[k]);
    }
    assert forall|k: int| 0 <= k < f.len() implies all.contains(#[trigger] f[k]) by {
        assert(all[hd + k] == f[k]);
    }
    assert forall|k: int| 0 <= k < h.len() implies all.contains(#[trigger] h[k]) by {
        assert(all[k] == h[k]);
    }
    assert(f[6] == "skip_generated_marker: true"@);
    assert(h[h.len() - 5] == "exclude_dirs:"@);
    let n = c.len() as int;
    if a.backend == "duckdb"@ {
        assert(c[1] == "duckdb:"@ && c[2] == "  path: "@ + a.duckdb_path);
        if a.embedder == "ollama"@ {
            assert(c[n - 1] == "  model: "@ + a.model && c[n - 2] == "  url: "@ + a.ollama_url && c[n - 3]
                == "ollama:"@);
        }
    }
    if a.qdrant_url is Some {
        let at = if a.backend == "duckdb"@ {
            if a.embedder == "ort"@ {
                4int
            } else {
                3int
            }
        } else {
            0int
        };
        assert(c[at + 1] == "qdrant:"@ && c[at + 2] == "  url: "@ + a.qdrant_url->0);
    }
}

} // verus!
