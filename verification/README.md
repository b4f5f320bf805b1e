# sky_baker

Bakes an equirectangular HDRI (.exr) into a KTX2 cubemap (RGBA16F, with a
full mip chain) on the GPU.

- `src/` is the verified library: the KTX2 container layout (`ktx2`, with
  what a reader finds in it proved in `ktx2_laws`), the Data Format
  Descriptor (`dfd`), little-endian encoding (`le_bytes`), the structure of the
  2x2 box-filtered mip chain (`mip`, its laws in `mip_laws`), the whole
  path from base faces to file bytes (`bake`), the unpacking of the padded GPU readback
  buffer (`readback`), half-float values as bytes (`texel_bytes`) and the
  compute dispatch size (`dispatch`).
- `app/` is the command-line program: argument parsing, EXR loading, the wgpu
  device, textures and compute pass, the half-float arithmetic of the box
  filter, and writing the file.
