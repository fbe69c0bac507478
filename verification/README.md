# phprs

The runtime and front-end pieces of a compiler for a PHP-like language with Rust-like
ownership, written in Verus: every function under `src/` carries a contract that Verus
proves.

## Layout

- `src/` — the verified library.
  - `string`, `bytes`, `text`, `decimal`, `simd`: byte strings, UTF-8, decimal text and
    byte searches.
  - `array`: ordered arrays with integer and string keys.
  - `arena`: a bump allocator handing out non-overlapping ranges.
  - `intern`: interned strings and the well-known HTTP header names.
  - `json`: a decoder and an encoder, with the law that a value written by the encoder
    reads back as itself (`json::roundtrip`).
  - `http`: methods, status codes, headers, the request parser, request and response
    builders, and the connection state machine of the server.
  - `fs`: open modes, seek targets and error codes of file access.
  - `math`: integer helpers and the pseudo-random generator.
  - `lexer`: the token grammar and the lexer that reads source text into tokens, each
    with its byte span and text.
  - `ast`, `parser`, `stdlib`, `resolver`: types, the parser for types and parameter
    lists, the declarations of the standard library, symbol tables and the dependency
    graph of source files (cycle detection and topological order).
  - `types`: type compatibility, the class registry, and the checks a class and its
    methods must pass (parent classes, final methods, covariant return types).
- `tests/` — tests of the library.
- `app/` — the parts that do I/O or hold floating-point values: files, sockets, global
  state, values with `f64` leaves, and the C functions that compiled programs call.
