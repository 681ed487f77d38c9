# nn_patches

The geometry of convolution patches: where the taps of a kernel fall over an input, for every place
that the kernel has, with padding, strides and dilations. The library is written in Verus; every
function has a contract, and the contracts are proved.

- `padding`, `data_format`: how much padding an axis needs, and where the axes stand.
- `patch_spec`: what a patch is made from, and the mathematics of its geometry.
- `patch`, `assemble`: the patch, and how it is worked out.
- `visit`: walking over the places, the valid ones first.
- `visitor`: reading the taps at a place.
- `copies`: copies of patches.
- `onnx`: tensors and what is known of them, read from ONNX messages.
- `laws`: what holds across the functions, such as that visiting all places comes to each of them
  once.
- `arith`, `grid`, `geometry`: the arithmetic underneath.
- `arrays`: the parts of `ndarray` and `itertools` that are called, with what is taken for granted of
  them.

`app/` puts the library into terms of `ndarray` views, floating-point numbers and the traits of the
standard library.
