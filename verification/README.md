# nutcracker

End-to-end encrypted, user-owned memory for agents. The client seals every memory, blinds its name
and derives keyed bucket tokens for it; the provider stores opaque bytes and narrows searches by
counting shared tokens. Nothing the provider is handed carries a plaintext, a name or a key.

`src/` is the library, verified with Verus. `app/` is the program around it: the command line, the
HTTP server and client, files, and the floating-point half of the index. `tests/` runs the library.

| Modules | What they hold |
|---|---|
| `envelope`, `blind_index` | the three-layer keys, sealing, rewrapping; hyperplanes and bucket tokens |
| `store`, `memory_store` | what a provider keeps and answers, as a model; the store in memory |
| `wire`, `routes`, `http` | the hexadecimal wire format, the provider's answers, the client's requests |
| `transport`, `local` | what crosses to a provider, and a provider in process |
| `framing`, `recall`, `tools` | the sealed payload, the ranking of what is recalled, the four tools |
| `rpc`, `tool_list`, `keyfile` | an agent's requests and what they come to, the key file |
| `embedder` | loopback and model identity, the manifest that guards an index |
| `schema` | the tables and queries of a provider with a database |
| `bytes`, `text`, `json`, `table`, `ranking` | byte strings, texts, JSON, an ordered table, a stable ranking |
| `primitives` | the calls into the cryptographic crates, and what is taken on trust of them |

What is proved is in the contracts: each function states its result over a mathematical model. The
public proof functions whose names begin with `law_` state what holds of the library as a whole: a
written memory reads back and is found, and still reads back once it is rewrapped for another key
generation; a namespace keeps to its capacity whatever is asked of it; what a client sends is what a provider stores; namespaces do not see each other; a search is determined by
what is held; a forgotten item is gone and an expired one is not found; a single item indexed by
plaintext vectors voids its namespace's end-to-end claim.

What is taken on trust stands in `primitives`, `json::parse_json`, `framing::lossy` and `embedder`
(lower case, and the parts of a path), each with the call it makes. That a ciphertext does not open under another
key or name is a property of the cipher, and is tested rather than proved.
