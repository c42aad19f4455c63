# garbo_engine

The world logic of a small Vulkan voxel engine, written in Verus and proved
against its contracts.

`src/` is the verified library:

- `voxel`: colours packed into 32 bits; the channels read back what was packed.
- `chunk`: 16x16x16 chunks with a 64-word occupancy bitmap.
- `chunkmesher`: the greedy mesher. Its contract characterises the output
  completely: the quads partition the exposed faces, each quad shows a single
  voxel, quads come in scan order and each one is grown as far as the greedy
  rule allows (first along its row, then row by row). Vertices and indices are
  a fixed rendering of that quad list. Loading a neighbour chunk changes the
  quads of the shared side only.
- `terrain_generator`: random terrain chunks (through `rand`).
- `chunk_manager`: chunk lifecycle (unloaded, generated, empty, meshed,
  resident) keyed by chunk coordinate; chunks within render distance (a cube
  around the player) are uploaded, resident chunks outside it are evicted.
- `chunk_rendering`, `app_data`: GPU-side records kept as raw handles.
- `input`, `game_loop`, `frame`: key bindings, key events, the per-frame
  decisions of the game loop and what follows presenting a frame.
- `utils`, `gui`, `metrics`: memory-type selection, scissor and paint-job
  layout for the GUI pass, and the frame-time window.

`app/` is the program around it: the window and event loop (winit), the
Vulkan renderer (vulkanalia), the GUI (egui), the camera (floating point),
system metrics (sysinfo) and model loading (tobj).
