# biwac

The core of the compiler of biwa, verified with Verus.

`src/` is the library. Its public functions state in their `ensures`, over
spec functions and views, what they compute, and Verus proves it. One falls
short of that: `structure` states what holds of every tree it gives back
(each `br` stays inside its constructs, the blocks in it are exactly the
reachable blocks of the body) and that an error names a block entered from
a reachable one, but not on which graphs it succeeds: that would rest on
the dominators it computes being the true ones.

- `hash`, `le_bytes`, `text`, `decimal`, `escape`: stable hashing, little-endian
  bytes, UTF-8 widths, decimal text, string-literal escapes.
- `package`, `module`, `ident`, `src`, `span`, `target`: package names and
  versions, module paths and their file names, interned identifiers, sources
  and spans, compilation targets.
- `attribute`: the attributes of items and the check of where they may stand.
- `dependency_metadata`: the `.biwameta` format, with proofs that decoding
  gives back what encoding wrote, the writing of types and function bodies
  into it, and the building of a package's whole `.biwameta` from what the
  analysis knows of it.
- `fingerprint`: build fingerprints and the `.biwafp` file.
- `driver`: the dependency graph and its build order, and whether a package
  must be rebuilt.
- `dependency_loader`, `fetch`, `cli`: the dependency list of a package, the
  choice of a version to fetch, and the target named on the command line.
- `structure`: control flow of a function body turned into nested blocks and
  loops for WebAssembly.
- `mangle`, `wasm_text`, `wasm_module`: symbol names, and the WebAssembly
  text: natives, control flow, string literals, types and the module.
- `typescript`: the TypeScript back end, from the analysed items of a
  package to the syntax tree of its module (`app/` prints it).
- `diagnostic`: which labels of an error are drawn, where and in what order.

`app/` is the program around it: the command line, files, processes, the
network, and printing of diagnostics. `tests/` runs the library on
concrete values.
