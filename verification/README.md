# vkrender

A small Vulkan scene renderer whose bookkeeping is proved correct with Verus.

`src/` is the verified library:

- `gen_pool`: a pool of values addressed by generation-checked ids.
- `slots`: first-free-slot search shared by the pools and node lists.
- `render::buffer_pool`: best-fit range allocator over one GPU buffer, with
  coalescing of released ranges.
- `render::mesh_pool`: places meshes in an index pool and a set of vertex
  pools, and frees them once the GPU is done with them.
- `render::subpass_node`: per-subpass lists of render callbacks with handles
  that toggle and remove them.
- `render::frame`: frame-in-flight slots and swapchain rebuild decisions.
- `scene::graph`, `scene::import`: the scene tree, its walk order, and how
  imported nodes and meshes are attached to it.
- `scene::instances`: the instance table and which entries must be uploaded.
- `scene::material`, `scene::mesh`: pixel packing and index data.
- `scene_render`: which draws each frame issues.
- `input`: key state and the camera moves it asks for.

`app/` holds the window, the Vulkan device, shaders, file loading and the
floating-point camera; it calls the library for every decision above.
`tests/` runs the library on concrete values.
