# web_stream

Splits the body of a web response into messages while it arrives.

- `src/` is the verified library. It decodes chunks of bytes that may be cut inside a
  character, splits the text at a delimiter or into the items of a JSON array, and decides
  step by step what a stream does next. It performs no input or output.
  - `decode`: bytes to text.
  - `delimited`, `json_array`: text to messages.
  - `error`: the answer to a refused request.
  - `web_stream`: the stream itself, as a transition from state and event to state and action.
  - `run`: what holds of whole runs of a stream.
- `app/` performs the actions with `reqwest` and offers the result as a `futures::Stream`.
- `tests/` runs the library on concrete bodies.
