# maple_render_core

maple composites pictures and text into template animations and writes
animated GIF, animated WebP, video or single frames.

The crate is verified with Verus:

- `src/` is the library. Its logic is proved by Verus against
  `requires`/`ensures` contracts; the few calls into the `gif`, `image` and
  `rayon` crates and std's `Display` go through small trusted wrappers whose
  contracts state what those sources show (two message wrappers state
  nothing). The modules:
  - `frame`: the RGBA frame buffer;
  - `quantize`: median-cut colour selection, the inverse colour map of nearest
    palette entries and Floyd-Steinberg dithering;
  - `render`: blending input samples between a template's dark and light
    frames, decoding its coordinate maps, smoothing marked edges, and fitting
    a frame to a requested size;
  - `gif_anim`: gathering the palette image, merging unchanged frames into
    GIF frames with their delays, and encoding the GIF;
  - `webp_anim`: the checks made before frames reach libwebp, dirty
    rectangles, merging of unchanged frames and the size of parallel batches;
  - `archive`: template entry names, decoding a frame's images and assembling
    its mapping (with the `light` fallback for a missing `transparent`);
  - `cache`, `cli`, `error`: the per-frame cache, command-line values and
    error messages.
- `app/` is the `maple` program around the library: argument handling, file
  and archive reading, the floating-point sampling and placement of inputs,
  text rendering, the libwebp and ffmpeg calls.
- `tests/` exercises the library on concrete values.

Text inputs read their font from `fonts/DejaVuSans-Bold.ttf` in the working
directory; the font file is not part of this crate, so it is not embedded.
