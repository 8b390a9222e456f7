# world_gen

Procedural world generation on a Voronoi mesh: tectonic plates, uplift and subsidence,
isostatic relaxation, thermal erosion, sea level, rain with an orographic effect, hydraulic
erosion, and an animated GIF of the whole evolution.

## Layout

- `src/` — the verified library (Verus). It holds the integer core of the generator, each
  function with a contract proved by Verus:
  - `mesh`: the Voronoi/Delaunay topology built from a triangulation (`build_topology`),
    with proofs that neighbour lists are symmetric and that corners and centers see each other;
  - `hydrology`: multi-source breadth-first distances (`hop_distances`), exact shortest hop
    counts through passable cells;
  - `tectonics`: plate growth from seeds (`propagate_plates`, nearest seed with ties to the
    smaller plate), region counting per plate (`plate_component_counts`), and the proof that
    grown plates are connected;
  - `pipeline`: the FNV-1a world fingerprint and the stage timings;
  - `gif_export`: the 5 x 7 bitmap font, text drawing on an RGBA canvas, PNG decoding into
    a canvas and the labelled, colour-quantised animation frame (decoding and quantisation are
    calls into `image` and `gif` behind trusted wrappers);
  - `drawer`: plate palette, coastline detection, polygon clean-up, and the painting of the
    Voronoi cells (the polygon fill is a call into `imageproc` behind a trusted wrapper).
- `app/` — the program around it: random points and the Delaunay triangulation, all
  floating-point physics (tectonic cycles, erosion, rain, sea level), the mesh drawing, file
  reading and writing, GIF encoding, command-line handling.
- `tests/` — tests of the library on concrete values.
