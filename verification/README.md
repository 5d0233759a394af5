# cima

The verified core of a local inference engine for open-weight language models:
tokenizers, quantized formats, graph building, scheduling, prompt preparation,
sampling and residency, written in Rust and proved with Verus.

Nothing here touches a device. The library plans: it says which tensors fill
which places, how large every buffer is, which steps run in which order with
which sizes, which token comes next, when a generation stops. `app/` performs
what is planned, through one trait that an accelerator implements.

Floating point values are bit patterns. `ieee` computes on them with integers
and is proved to round as IEEE-754 does, so what the formats and the samplers
compute is fixed to the last bit. Transcendental functions stay in `app/`.

## Layout

- `src/ieee.rs`, `num.rs`, `big.rs`, `decimal.rs`: numbers, and how they are
  read from text.
- `src/text.rs`, `utf8.rs`, `json.rs`, `settings.rs`: text and configuration.
- `src/tensor.rs`, `weights.rs`, `quant/`: tensors, checkpoints, packed formats.
- `src/tokenizer/`: byte-level and metaspace pair merging, unigram pieces, chat
  templates, loading from JSON and from GGUF fields.
- `src/models/transformer/`: the dense decoder. `src/models/gemma4/`: the family
  with per-layer inputs and its vision and audio towers.
- `src/models/towers/`: the encoders of the dense family.
- `src/models/prepare.rs`, `generate.rs`, `sampler.rs`, `residency.rs`,
  `checkpoint.rs`: a request from text to tokens and back.
- `src/selftest/`: reference kernels, a model of noise, comparisons of
  checkpoints.
- `tests/`: runs of the compiled library.
- `app/`: files, the environment, the device loop.

Functions named `law_*` state what holds between functions: round trips,
invariants, bounds on what a step touches.
