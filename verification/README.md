# stria

A structural codebase indexer. It reads source files as raw text, extracts identifier phrases without
any grammar, and answers which files a query, a name or a task is about.

The library under `src/` is verified with Verus:

* `zone` - identifiers of a line, whether the line is code or prose, where a phrase is defined
* `lcep` - definitions by the entropy of left contexts
* `index` - which files are indexed, what one file contributes, how the workers' results are merged,
  numbered, sorted, scored and packed, the caches that make rebuilding incremental, and the law that
  an incremental build leaves what a full one would
* `search` - the terms of a query, path weights, proximity, grouping of rows, repeated searches
* `structural_risk` - callers and chains of them, hidden dependencies, blast radius, tests and plans
* `setup` - agent configurations and the ignore list
* `server` - routing and answering requests
* `order`, `text`, `number`, `text_map`, `json` - sorting, strings, decimal numbers, string-keyed maps
  and JSON values

What the library takes from other crates (regular expressions, SHA-256, the Fx hash and hash map, JSON
texts of the caches, the parallel sort) stands behind small trusted functions, each with the contract
that is believed of it.

The program under `app/` does the rest: arguments, files, the SQLite database, threads, and the
floating-point scores.

```
stria build --repo <path>                   build or rebuild the index
stria search --repo <path> --query <text>   search it
stria serve --repo <path>                   start the MCP server
stria watch --repo <path>                   rebuild on changes
stria setup [--yes] [--agent <name> <path>] add stria to installed agents, and to the one given
stria remove [--yes]                        take it out again
```
