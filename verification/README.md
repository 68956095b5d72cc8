# Dust

Voxels: how they are stored, read from MagicaVoxel `.vox` files, changed, picked, traced and drawn.
The library under `src/` is written in Verus; what its functions return and change is stated in
their contracts and proved.

| Module | Purpose |
| --- | --- |
| `dense` | Dense models: a bit for each voxel, and a material for each block or each voxel of it. |
| `vdb` | A hierarchical index of voxels, with levels of any fan-out, how its nodes look as bytes, and storage that holds them through every change. |
| `vox` | Voxel files as scenes, palettes and materials, and models whose voxels change. |
| `picking` | Finding the voxel under a ray. |
| `shaders` | What the shaders compute: bounding volumes, rays through dense models, clusters, the depth pyramid. |
| `render` | What a frame dispatches and draws, and with which buffers. |
| `bits`, `bytes`, `math` | Bits, bytes as pages and colors, and vectors. |

Floating-point numbers are held as their bits; the arithmetic on them, the engine and the graphics
device are the program's, under `app/`. Calls into `bytemuck` and `dot_vox` that the library makes
stand in `src/bytes.rs` and `src/vox/file.rs`, each with what is trusted of it.
