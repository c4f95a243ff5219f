# acute_engine

Tensors with explicit shapes and strides, a bump arena that accounts for
tensor storage, and a reader for GGUF model headers, written in Verus.

- `src/` is the verified library:
  - `layout.rs`: products of dimensions, row-major positions, offsets under
    strides, contiguity, permutations, and the lemmas relating them;
  - `tensor.rs`: `Tensor`, its constructors, views, `reshape`, `permute`,
    `transpose` and `make_contiguous`;
  - `ops.rs`: element-wise `add` and `sub` (and the matrix product kept for
    later use);
  - `small_index.rs`: multi-indices held in a `SmallVec`, and the odometer
    that walks them;
  - `acute.rs`: the arena's bookkeeping;
  - `gguf.rs`: the GGUF header parser, specified byte by byte;
  - `model_loader.rs`: split file names, the tensor index of a split model,
    and how a tensor's data is located.
- `app/` is the program around it: file I/O, error messages and a demo.
- `tests/` exercises the library on concrete values.
