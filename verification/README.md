# grounded_guardrails

Token-level verification primitives for grounded LLM inference, written in Verus.

- `src/buffer.rs` — `TokenRingBuffer`, a fixed-capacity window over streamed tokens. Its
  abstract value is the sequence of stored `(token, position)` pairs; `push`, `last_n`,
  `clear` are specified over it, and the window is proved to be the most recent
  `capacity` entries of everything pushed.
- `src/pii.rs` — `PiiDetector`: e-mail, phone, SSN and card detection with masking. The
  result of `detect` is proved to be the stable `(start, end)` ordering of every pattern
  match, each carrying the mask of its kind.
- `src/numeric.rs` — finding numbers in text: sign, digits with separators resolved, and
  the multiplier word (`млн`, `thousand`, …) that may follow.
- `src/text.rs`, `src/pattern.rs` — character/UTF-8 helpers and the trusted interface to
  the `regex` crate.
- `app/lib.rs` — the floating-point part: reading numbers as `f64` and checking an answer's
  numbers against a context within a tolerance.
