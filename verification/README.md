# raytrace

A path tracer whose integer logic is a library verified with Verus, and whose
floating-point shading, file I/O and threading live in a thin program around it.

## Layout

- `src/` — the verified library:
  - `scalar`, `vec3`: integer vectors (`Vec3<T>` over `u8`, `u32`, `u64`, `i32`,
    `i64`) with overflow-free arithmetic, modelled as triples of `int`, and the
    algebraic laws of dot, cross, lerp and abs.
  - `region`, `tiles`: image regions, the cutting of an image into tiles and the
    reassembly of rendered tiles, with the laws that the tiles partition the image
    and that assembly gives back the image row by row.
  - `bvh`, `bvh_build`, `bvh_query`: bounding volume hierarchies in a flat node
    vector: construction by recursive splitting (over caller-supplied box, split
    and side functions), tree statistics, the stack walk that collects the
    leaves reached through hit boxes, and the nearest-child-first walk that stops
    at the first leaf with a hit.
  - `ppm`: plain PPM text (header, comment, pixel lines).
  - `mesh`, `texture`, `passes`, `scene`: mesh vertex gathering, texel lookup,
    render pass names, duration splitting and the integer parts of the scene.
- `tests/`: tests of the library on concrete values.
- `app/`: the renderer program: cameras, materials, ray intersection, sampling,
  denoising and tonemapping (floating point), image and mesh loading, and
  the parallel tile scheduler, all calling into the library for the logic above.
