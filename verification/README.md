# reslicer

The verified core of a headless resin (MSLA) slicer that turns a model into
a print-ready file with automatic supports.

- `src/` is the library, verified with Verus: merging meshes, finding which
  faces share edges, grouping overhanging faces into connected regions,
  joining slice segments into polygons, deciding which layers hold
  unsupported islands, choosing where pillars stand, picking point
  overhangs, the rotations tried when orienting, and reading lengths
  (trimming, lower-casing and splitting off the unit).
- `app/` is ordinary Rust around it: the command line, and the geometry on
  floating-point coordinates (normals, angles, areas, ray hits, plane cuts,
  pillar and raft solids). It computes the plain facts the library decides
  on (which faces overhang, which regions overlap, which samples reach a
  contact) and turns the library's answers back into geometry.
- `tests/` runs the library on concrete values.
