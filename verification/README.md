# inference_server

An HTTP/1.1 inference server for a tiny character-level transformer, with iteration-level continuous
batching. What it decides, parses, formats and counts is a verified Verus library. Sockets, threads,
channels, clocks and floating-point arithmetic, and the loops that join them to the library, are an
ordinary program around it.

## Layout

- `src/` is the library.
  - `json`, `number`, `binary`: a JSON parser over UTF-8 bytes, and what its numbers count as once
    they have gone through a double.
  - `render`, `margin`, `wire`: JSON as it is written, white space and other text round it, and the
    laws that every body the server sends reads back as what it says.
  - `http`, `framing`: requests from bytes in any chunks, responses to text.
  - `generation`, `server`: request parameters, text token by token, routes, error bodies, event streams and answers in
    one piece.
  - `scheduler`: the waiting queue, the active set and the decisions of a tick.
  - `lm`, `kv`, `sampler`: the weight file, the vocabulary, the random generator, the key/value cache
    and the choice of a token.
  - `metrics`: counters and their rates, rounded as doubles are.
  - `text`: text helpers and the trusted contracts of a few standard functions.
- `tests/` runs the library.
- `app/` is the program: sockets, threads, channels, deadlines, the forward pass of the model and the
  probabilities that tokens are drawn from. It reads the weights from `model/tiny_gpt.bin` and listens on `LISTEN` (`127.0.0.1:3003` by default).

Public proof functions whose names start with `law_` state what holds of the library as a whole.
