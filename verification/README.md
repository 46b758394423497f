# sonic_protocol

ADL/1 is a data link through the air: two devices exchange messages with their loudspeakers and
microphones. This crate holds what such a messenger decides and computes, written in Verus and
proved against its contracts.

- `src/` is the library: frames and their checksum, Reed-Solomon codes, the sliding window, the
  layouts of the modulations and the readers behind them, sessions, discovery by sound, the choice
  of sound cards. It does no floating point and touches no device: whoever runs it measures levels
  and tones, and hands it the results as integers.
- `tests/` runs the library on concrete values.
- `app/` is ordinary Rust around it: filters and transforms, sound cards, threads and the window.

The laws of the library are proof functions whose names begin with `law_`. What is believed
without proof is marked `#[verifier::external_body]`; the comment above each such function says
which outside function it calls and what is claimed of it.
