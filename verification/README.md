# assembly_engine

A brick assembly engine: parts carry snap connectors (studs and anti-studs),
clips and bars; the engine places parts into a model, links touching
connectors, and answers queries for the placements at which a part can be
attached next.

- `src/` is the verified core (Verus). It holds no floating-point values:
  - `connectors.rs`: connector kinds and the rule that decides when two
    connectors are linked;
  - `engine.rs`: `AssemblyGraph`, the topology of a model (the part of each
    placement and the link table), with its soundness invariant, adding
    placements, edges, open connectors and snapshots;
  - `link_order.rs`: which links adding a placement makes, pair by pair;
  - `candidates.rs`: queries and the ordered list of candidate attachments;
  - `filter.rs`: choosing the kept candidates and removing repeated and
    rotationally symmetric ones.
- `app/` wraps the core with the geometry (glam vectors, bounding boxes, the
  octree, candidate transforms) and the Python bindings (pyo3). It computes
  the geometric verdicts that the core takes as plain booleans and numbers.
- `tests/` runs the core on concrete models.
