# sojobo

A streaming parser for Server-Sent Events, verified with Verus.

| Module     | Contents                                                                  |
|------------|---------------------------------------------------------------------------|
| `parser`   | `SseParser` and `SseEvent`; every operation is proved to follow the model |
| `model`    | the state of a parser and what each operation does to it                  |
| `utf8`     | lossy UTF-8 decoding of a stream that arrives in pieces                   |
| `text`     | lines and fields, found byte by byte in encoded text                      |
| `laws`     | theorems about the parser as a whole                                      |
| `protocol` | message roles, stop reasons and content blocks                            |

One function is taken on trust: `core::str::from_utf8`, specified in `utf8`.
