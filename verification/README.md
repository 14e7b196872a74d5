# myllm_proxy

A local reverse proxy in front of an omlx LLM server, with its request-side
logic verified in Verus.

- `src/` — the verified library:
  - `json` — the library's JSON model and its link to `serde_json`;
  - `text` — text helpers (UTF-8 lengths, trimming, lines, number parsing);
  - `compress` — minification of embedded JSON and truncation of old large
    blocks in chat-completion bodies;
  - `chain_correlation` — `x-chain-*` headers and the prompt hash;
  - `proxy` — what is forwarded, logged and read back from the history;
  - `client_info` — which process made a request;
  - `chains` — the trace stores of client-side call chains and saved
    analyses;
  - `pi_agent` — model choices and runs of the `pi` coding agent;
  - `admin`, `config` — the admin API client's decisions and the settings;
  - `sort` — stable sorts with their order stated.
- `tests/` — tests of the library.
- `app/` — the program: the HTTP server, file and process I/O, and the
  serialisable copies of the library's records.
