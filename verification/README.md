# tts

Local text-to-speech over three engines: `audio8`, `cosyvoice` and `qwen3tts`.

- `src/` is the library. It holds what decides: text cleaning and segmentation, prompts, batches
  and their lanes, sampling decisions, masks, chunking and stitching, the WAV format, voices, the
  engine registry, the command line's rules and what a user is told. All of it is verified with
  Verus. Samples are a type parameter, so no floating-point number occurs in it. What it has from
  `candle-core` (tensors of a voice) and from `tokenizers` (token ids) stands behind small trusted
  items in `voice.rs`, `settings.rs` and `tokens.rs`; those for `std` are in `chars.rs`.
- `app/` is the program `tts` around it: the command line, files, and the neural networks.
- `tests/` runs the library.

Each engine module has the same shape: `cfg` is the model's geometry, `engine` plans a request and
puts its audio together, and the modules beside them hold the state machines that a model's loop
drives. Laws that relate several functions are public proof functions beside what they speak of,
or in the modules ending in `_laws`.
