# svgm

An SVG optimizer whose core is verified with Verus: a document is parsed into a tree,
optimization passes run over it until a round changes nothing (at most ten rounds), and
the tree is written back as minified markup.

## Layout

- `src/` — the verified library.
  - `parser.rs`, `serializer.rs`, `ast.rs`, `roundtrip.rs`: markup reading and writing,
    with the law that a well-formed tree written out reads back as itself.
  - `passes/`: the optimization passes (`removeDoctype`, `removeProcInst`,
    `removeComments`, `removeMetadata`, `removeEditorData`, `removeEmptyAttrs`,
    `removeEmptyText`, `removeEmptyContainers`, `removeUnusedNamespaces`, `removeDesc`,
    `cleanupAttrs`, `cleanupNumericValues`, `convertColors`, `removeUnknownsAndDefaults`,
    `convertShapeToPath`, `collapseGroups`, `cleanupIds`, `convertPathData`, `mergePaths`,
    `minifyWhitespace`, and the reading of `transform` lists for `convertTransform`); with
    the law that the data `mergePaths` gives a run of paths, read and made absolute, is
    what the run's paths draw, one after another.
  - `path/`: path data (`d` attributes) held in exact fixed-point decimals (units of
    10^-10): reading, making absolute, rounding, simplifying, choosing relative forms,
    writing; with the laws that written path data reads back as the rounded commands and
    that optimized path data, made absolute, is the input made absolute and rounded, with
    only degenerate curves straightened and zero-length lines, empty subpaths and repeated
    close-paths dropped.
  - `optimizer.rs`: the fixed-point loop and its laws (a converged document is a fixed
    point; the number of rounds is bounded).
  - `config.rs`, `cli.rs`, `bindings.rs`: presets, pass switches, config-file discovery,
    the command line's rules and the JavaScript bindings' option handling.
- `app/` — the command-line tool and the Node/browser bindings: file and terminal I/O,
  argument parsing, TOML config loading, and the floating-point matrix arithmetic of
  `convertTransform`. The library's `optimize` does not run `convertTransform`; the
  programs run it in every round, between the library passes before its place and those
  after it.
- `tests/` — tests of the library on concrete inputs.
