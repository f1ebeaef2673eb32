# silero_vad_rust

A lightweight inference engine for the 16 kHz Silero VAD model, split into a
verified core and the code around it.

* `src/` — the library, verified with Verus:
  * `timestamps` — segmentation of per-window speech decisions into padded
    speech segments (`get_speech_timestamps` post-processing);
  * `postprocess` — the detector's file-level post-processing
    (`apply_vad_config`);
  * `stream` — decisions of the streaming speech iterator;
  * `safetensors`, `weights` — framing of the weight file, checking and
    indexing of its decoded header entries, and lookup of the model's tensors;
  * `audio` — windows, context, decimation, cutting speech in or out;
  * `layout` — index arithmetic of the tensor operators;
  * `error`, `text` — the error type and message formatting.
* `app/` — floating-point inference, JSON decoding, WAV/audio I/O and the
  `Detector` API, built on the library.
* `tests/` — tests of the library on concrete values.

The model weights are read at run time from `SILERO_VAD_WEIGHTS`, or from
`data/silero_vad_16k.safetensors`.
