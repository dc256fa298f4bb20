# infact

Infact derives typed facts about programs, each with the evidence it came from,
and compares, packs and pins them. It does not decide what a fact means for a
repository: that is left to whoever reads it.

The library is written in Verus. What each function returns is stated in its
contract, over mathematical views of its types, and proved.

| module | what it holds |
| --- | --- |
| `normalize` | the behavior form: matching, searching, simplifying, renaming |
| `c_normalize` | from C syntax trees to the behavior form |
| `behaviors` | following a library's wrappers to the code that does the work |
| `flow` | labels that travel along a graph, with a witness for each |
| `duplication` | exact and near clones among token sequences |
| `errors` | discarded errors, and how far each could have been reported |
| `catalog`, `external` | typed catalogs of what a package offers |
| `fact_pack` | manifests, OCI layouts, the cache and the lock of fact packs |
| `registry`, `builder` | what a pull may fetch, and what a builder is asked |
| `analysis`, `command`, `authoring` | running what is selected, putting reports together, and how they are printed |
| `facts`, `syntax` | the facts themselves, and syntax trees as plain values |
| `text`, `paths`, `lists`, `ordering`, `sorting`, `digest` | what the others are made of |

`tests/` runs the library on concrete values. `app/` is the `infact` command:
arguments, files, registries, and copies of the library's types that can be
written as TOML and JSON. Nothing in `app/` is verified.

What is believed without proof stands next to its use, each item with the
outside function it speaks of: SHA-256 in `digest`, shortest paths in
`errors::graph`, JSON in `catalog::json`, image manifests and references in
`registry`, and three functions of the standard library in `text` and `syntax`.
