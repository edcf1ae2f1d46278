# geminispace_map

Maps Geminispace: starting from one capsule, it follows gemini links
breadth-first up to a depth limit and records the pages and links as a
petgraph `DiGraph`, saved as JSON and optionally as Graphviz dot. A cache of
each page's outgoing links avoids requesting a capsule twice across runs.

Layout:

- `src/` — the verified library (Verus).
  - `link.rs` — link resolution and normalisation (through the `url` crate).
  - `page.rs` — what a gemini response leads to, and which links of a page are followed.
  - `cache.rs` — the page-link cache, its JSON form, and `hash_str`.
  - `graph.rs` — the page graph (petgraph) and its dot rendering.
  - `crawl.rs` — the crawl as a state machine, with its laws.
  - `text.rs` — small string operations.
- `app/main.rs` — the command-line program: arguments, network requests
  (`gmi`), gemtext parsing, Ctrl-C, and file I/O.
- `tests/` — tests of the library.

Usage:

```
geminispace-map [OPTIONS] <INPUT>
  -s, --start <START>            [default: gemini://gemini.circumlunar.space/capcom]
  -m, --max-depth <MAX_DEPTH>    [default: 5]
  -d, --dot-path <DOT_PATH>
  -c, --cache
      --cache-path <CACHE_PATH>  [default: data/cache.json]
```
