# repotower

Offline, read-only source dependency analysis: scan a repository, resolve the
imports of JavaScript/TypeScript, Python, Java, C#, Go, Rust and C/C++ files
to the files they name, and compute graph metrics and impact traces (what
breaks, wave by wave, when one module disappears).

`src/` is the verified library (Verus):

- `scanner`, `context`, `analysis`: scan limits and warnings, bounded
  configuration reads, per-file modules, linking of resolved imports into
  sorted edges, and the assembled repository analysis.
- `syntax`: syntax trees as plain values, produced by the tree-sitter grammars.
- `parser`, `resolver`, `languages::*`, `paths`, `json`: the JavaScript and
  TypeScript import walk, string literals and relative module resolution, the
  syntax-tree walks of the other languages (`*_walk`; each main traversal
  keeps the nodes still to visit on a stack of its own rather than recursing), the C/C++ include search
  (`c_include`, which asks for one path's existence at a time), the Rust module
  tree (`rust_tree`), and the import resolution rules of each language (Go module mode, Python packages and namespace packages, Java
  and C# type lookup, Rust module trees and `use` paths, C/C++ compilation
  databases).
- `graph`, `metrics`, `impact`: strongly connected components, depths,
  blast radii, critical modules, and breadth-first impact traces.
- `simulation`, `layout`, `text`, `idset`: the cut/restore simulation with
  undo, the plan of the dependency view, interface phrases and messages.
- `payload`, `preferences`: the launcher footer, digest and checksum checks,
  archive limits and safe paths; the desktop preferences.

`app/` is the command-line program around it: file system walking, file and
configuration reads, per-project bookkeeping of the analyzers, JSON input and
output, and the launcher's archive extraction.
