# dashc

The core of the dashscene compiler, verified with Verus: the decisions that
turn a Figma REST file into a dashscene document and the wasm ABI's wire
format around them.

## Layout

- `src/` is the verified library. Every function there carries a contract
  that Verus proves, but for a few trusted wrappers, each around one call
  into std or an outside crate:
  - `wire`, `json`: the compile request and response framing, and the
    image-reference list the importer fetches.
  - `document`, `dsb`, `diagnostics`: the document's pools, the plain
    node-and-image document, and the shape of a finding.
  - `emission`, `pools`: what withholds a document's bytes before they are
    written, and the paint, string and text-style pools they share entries
    through, in first-use order.
  - `lower`: the lowering walk itself — every top-level node under every
    canvas, depth first in document order, into the document, each node
    lowered or skipped with its subtree and every reason named; its
    contract is the fold of one stated step per visit. After the walk come
    the binding rows, the variant pass and the no-content refusal.
  - `variants`: the variant pass — each component set planned, a variant
    table written for every painting instance whose baked subtree carries
    it, and every prototype interaction of the file named where it does
    not lower.
  - `figma`, `walk`, `triage`, `lowering`: what the walk reads of each
    node — its kind, structure, layout intent, strokes, fills, text,
    ellipse and vector paint — and every construct it names instead of
    lowering.
  - `paints`: how a paint lowers to a fill, and how an image fill's image
    is identified, admitted into the asset pool and shared.
  - `prototype`, `hosts`, `members`, `tweens`, `echo`: prototype
    interactions, where a variant switch lands, what a switch can put on
    screen, how a component set's members and instances line up, the
    transitions, tracks and overrides of a variant table, and the collapse
    of findings echoed onto many instances.
  - `bindings`: the variable-binding rows.
  - `vector`, `path`, `pack`: vector path tokens and refusals, the SVG
    path grammar (`M`/`L`/`C`/`Z` into contours of number tokens), geometry
    dedup, and the shelf packer of the vector atlas.
  - `structure`: what two members of a component set may not differ in
    beyond what a variant override carries.
- `tests/` runs the library on concrete values.
- `app/` is the command-line entry point, the wasm exports, the serde
  models of the REST file and the JSON reports, and the distance-field
  baker; it reads each node's floating-point facts (a component set's
  among them: whether its members' layers face alike), converts between
  those and the library's plain values, writes the decimals of the values
  a finding quotes, and packs the atlas of the shapes the walk kept.

Every length and colour component the library reads is carried as the bit
pattern of its single-precision value; arithmetic on those values stays in
`app/`.
