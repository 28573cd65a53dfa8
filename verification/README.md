# treeserve

A file server that renders on the server: directory listings with a tree
pane, highlighted source, Markdown with math and diagrams, media previews and
light and dark themes, as plain HTML with no script. The same router answers a
desktop shell's custom scheme, and the decisions that shell makes — its cookie
jar, its Recent and pinned lists, which links leave for the browser — are part
of the library too.

The library is written in Verus: every function in `src/` carries a contract
that the verifier proves, and the properties the program promises across
calls (a preference read back as it was chosen, a list file read back as it
was written, a percent-encoding undone by its decoding, a URL that cannot name
a path outside the served root) stand as proof functions named `law_…`.

## Layout

| path | what it holds |
|---|---|
| `src/lib.rs` | configuration, requests and replies, the router `handle`, ranges and tags |
| `src/util.rs` | escaping, percent-coding, queries and cookies, globs, dates |
| `src/vfs.rs`, `src/embed.rs` | the backend seam, and a backend held in memory |
| `src/page.rs`, `src/view.rs` | listings, the tree pane, the start page; the file page and raw view |
| `src/md.rs` | what Markdown rendering decides on plain text: TeX delimiters, raw-HTML URLs, MathML, diagram figures |
| `src/markdown.rs` | a document rendered: comrak's call and options, its own HTML shown as text or put back and filtered, the passes over comrak's HTML for math, diagrams, code and links |
| `src/hl.rs` | source colouring with syntect's bundled syntaxes and themes: the syntax a file is coloured as, the coloured source, the two stylesheets |
| `src/shell.rs` | the desktop shell's decisions |
| `src/stamp.rs` | the build stamp: labels, reports, the config read |
| `app/` | what stays outside the proofs: the local filesystem, the build script half of the stamp, single-precision maths symbols |
| `tests/` | tests on concrete values |

Outside crates are reached through a handful of functions marked
`#[verifier::external_body]`, each with a doc comment saying what its contract
claims of the crate it calls.
