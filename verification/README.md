# sscg

The game logic of a small space game, written in Verus with its contracts
proved.

- `src/` is the verified library:
  - `voxeltree`, `octree`, `octree_laws`: a voxel volume, face culling and
    the octree of uniform cubes computed from it, with the proof that the
    cubes an octree reports cover every non-empty voxel exactly once;
  - `voxel_structure`, `voxel_vol`: a big volume split into sub-volumes
    and a single demonstration volume, looking at and mining voxels;
  - `gui`, `window_manager`, `window_desc`: widgets, labels and box
    layouts, their drawing through a painter, event handling, the slots of
    open windows and windows built from script descriptions;
  - `logic`: ships, systems, entities and the event router;
  - `color`, `util`, `wl_gd_mod_resolver`: colour literals, the worker
    pool and script module names.
- `tests/` runs the library on concrete values.
- `app/` is the ordinary Rust around it: script values, save games,
  painting with SDL, worker threads and the floating-point parts.
