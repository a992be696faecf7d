# metal-llm-kernels

Compute kernels for language model inference on Apple Silicon: their host
program, and a verified library for everything it decides.

`src/` is the library, verified with Verus:

- `single`: single-precision numbers as bit patterns; comparison and rounding to
  a level from 0 to 15.
- `quantize`: block quantisation to four bits. Sixty-four weights share a scale
  and a bias; eight levels are packed into a word. The five floating-point
  operations are arguments.
- `rounding`: what follows where those operations round and keep order as single
  precision does: levels keep the order of weights, and quantising undoes an exact
  dequantisation.
- `le`: little-endian bytes.
- `json`, `tensors`: JSON values through `serde_json`, tensors through
  `safetensors`.
- `base_file`: the `.base` container of a quantised matrix, written and read.
- `convert`: from a matrix in a safetensors file to a `.base` file.
- `args`, `launch`: command-line arguments, buffer sizes and thread layouts.

`app/` is the host program: files, floating-point arithmetic, and the Metal
device. Shaders are read from `.metal` files when a kernel is run:

```
metal_llm_kernels gemm --input gemm_inputs.safetensors --output out.safetensors --shaders shaders
```

`tests/` runs the library, with the machine's own floating-point arithmetic.
