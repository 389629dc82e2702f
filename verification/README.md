# vulkano_template

The core of a small game engine, written in Verus: every function in `src/` carries a
contract that Verus proves, except the trusted items that call outside code: two from std
(`RandomState::new` and `BuildHasher::hash_one`) that give each hierarchy a random identity,
of which nothing is claimed, and the PNG decoder of the `png` crate, whose result is named
and stated to depend on the bytes alone.

- `physics::collider::bvh`: an arena-based bounding volume hierarchy, generic over the
  collider and bounds types, with the bounds join and the insertion heuristic supplied by
  the user. Insertion, removal, re-insertion after a change, and depth first iteration
  keep the tree well formed (parent and child links agree, cached depths and bounds are
  exact, and the two children of every branch differ in depth by at most one), and their
  contracts state what happens to the set of leaves.
- `physics::collider`: the encoding of cube vertices, faces and edges taking part in a
  contact, contact identities that ignore the order of the two sides, and the per-body cache
  of contacts remembered between frames.
- `game_objects::transform`: the hierarchy of transforms, with dirty tracking of cached
  models, re-parenting, and the list of models to recompute on the way from a root to a
  transform.
- `input`, `app`: rising edge detection of buttons, movement intent, and the key handling of
  the application as a state machine that returns the command to carry out.
- `profiler`: rolling averages of frame timings and their text summary.
- `render::resource_manager`, `models`: where meshes and textures are loaded from, and meshes
  built from flat coordinate lists.
- `render::texture`, `render::mesh_cache`: PNG textures decoded and turned into RGBA samples,
  and the cache that loads each mesh file once.

`app/` holds the program around the library: the window and event loop (winit), matrices and
bounding boxes in floating point (cgmath), and `.obj` loading (tobj).
