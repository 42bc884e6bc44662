# semanticastindexer

Near-duplicate detection and semantic code search: source is cut into chunks, embedded, stored in Qdrant
or in a local DuckDB file, searched in natural language, clustered by similarity, and served to coding
agents over MCP.

The decisions are a verified library; the program around it moves bytes.

- `src/` is the library, proved with Verus. What each function returns is stated in its contract, and what
  holds across functions is stated in the public proof functions whose names begin with `law_`.
- `app/` is the program: command line, files, git, network, threads and the embedding models. It performs
  the actions that the library asks for and hands back what came of them.
- `tests/` runs the library on concrete values.

| Module | What it decides |
| --- | --- |
| `config`, `cli`, `logging` | flags, config and defaults, resolved into a plan |
| `domain` | the values that are exchanged, and how texts are prefixed for a model |
| `globs` | include and exclude patterns, over the `globset` crate |
| `chunking` | cutting files into chunks of lines, and the markers that opt out |
| `search`, `clusters`, `links`, `ranking`, `lists`, `score` | clusters of near-duplicates, and orders of results |
| `service` | the steps of indexing, refreshing and searching, and what happens when one fails |
| `vectordbs` | what is sent to DuckDB, Qdrant and the embedders, and how replies are read |
| `factory`, `worker` | which store a plan asks for, and what its worker does for a request |
| `mcp` | the tools of the server: arguments, refusals and answers |
| `app` | the steps of each command, what it asks and what it prints |
| `init` | the interview and the starter config |
| `text` | the text functions the rest is stated over |

Scores are kept as the bits of their floating-point numbers, with the two orders that matter: the
numerical one and the total one.
