# ferrum_core

An engine for small transformer and MLP models on plain CPUs, written in Verus:
every function of `src/` states what it returns or changes, and Verus proves it.

- **Numbers.** `float` computes binary32 arithmetic on bit patterns, correctly
  rounded; `half` and `double` read and write the other formats. Elementary
  functions (exp, ln, sin, ...) come through the trait `Math`, decimal text through
  the trait `Decimals`. No function assumes anything of either; a law that rests on
  one of them says in its `requires` what it asks.
- **Inference.** `ops`, `activation`, `layer`, `transformer`, `model`; the decoder
  family in `llm` and `decoder`; int8 and int4 weights in `quant`.
- **Files.** FINF in `loader`, `finf_layers`, `finf_weights`; GGUF in `gguf*`. A
  GGUF file can be opened by a growing prefix (`gguf_open`) and loaded one tensor
  at a time (`gguf_llama`).
- **Data.** `csv`, `normalizer`, `metadata`, `dataset`.
- **Training.** `train_*`, `llm_train`, `optim`, `loss`, `checkpoint`.
- **Laws.** That reading undoes writing stands in `finf_reload`, `finf_cut`,
  `gguf_write`, `gguf_reload`, `metadata_reload` and `int8_grid`; that cached steps
  give the rows of the whole pass in `block_rows` and `decoder`; that joined stacks
  run one after the other in `stacks`; that cleaning twice is cleaning once in
  `clean_twice`; that softmax weights are shares that sum to one in
  `softmax_shares`; that quantized numbers stay within half a scale in
  `quant_bounds`; that the first position is not rotated in `rope_start`, and that
  rotations keep lengths and are undone in `rope_turns`; that clipped gradients keep
  to their limit in `clip_bounds`. The laws up to rounding rest on `rounding`.
- **Threads.** `parallel` plans how work is split; the plan never changes a result.

`validity` checks values that were put together elsewhere before they are handed to
functions that ask for sizes that agree.

`app/` holds what reads and writes files, runs threads, and computes with the
machine's own floating point. `tests/` runs the library.
