# ce-exo

Running large language models over a fleet of mesh nodes, with the decisions verified.

A model that fits on one node is copied to the best nodes; one that does not is split into a ring
of layer ranges in proportion to what each node can hold. Workers answer inference requests that
carry the right capability, and a router exposes the fleet through the OpenAI and Ollama dialects.

- `src/` is the library: everything that decides or computes, with contracts that Verus proves.
  - `plan`, `registry`, `probe`, `double`, `order`: placement, and the arithmetic and ranking that it
    rests on;
  - `caps`, `ids`, `worker`, `backend`, `launch`: one node's inference service;
  - `router`, `http`, `sse`, `json`: discovery, dispatch and the HTTP dialects;
  - `cluster`, `orchestrate`: joining machines, and deploying to them;
  - `client`, `msg`, `cli`, `proto`, `text`: clients, the command line, messages and text.
- `tests/` runs the library.
- `app/` is the program around it: the command line, the HTTP server and client, the engine process,
  and the mesh node. Called as `ce-exo-worker` or `ce-exo-router`, it is its own `serve` or `router`
  command.

Floating point appears in two forms. Placement and budgets use double precision, carried out on
integers in `double`, as IEEE 754 prescribes outside the subnormal range. Sampling controls are
carried by their bit patterns and never computed with.

What is believed without proof stands in a few small functions, each with a doc comment that says
what is claimed: the calls to `serde_json` in `json`, to `hex` in `ids`, and to
`String::from_utf8_lossy` in `sse`.
