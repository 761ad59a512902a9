# backdrop

The decisions and the arithmetic of a backdrop blur on Direct3D 11, verified with Verus.

A window renderer asks for blurs behind rounded rectangles. For each one the library decides
whether it is drawn, which window pixels it reads, which device objects it needs, and which
context calls it takes in which order; it computes the kernel and the contents of the parameter
buffer. Scene coordinates are single-precision numbers. The library holds them by their bits and
computes with them on integers, rounded as the processor rounds them.

- `src/` is the library. The proof functions whose names begin with `law_` state what holds of it
  as a whole.
- `app/` owns the device: it makes the objects, performs the calls and computes the exponentials
  of the kernel.
- `tests/` runs the library against the processor's own arithmetic and against a small software
  device that carries blurs out to the last pixel.
