# llm_coder

An agent that writes Rust code with a language model, following a state
diagram written in mermaid (`stateDiagram`). The library in `src/` holds the
logic, specified and proved with Verus:

- `text`: the character model of trimming, splitting, `lines` and
  `split_whitespace`;
- `parser`: the first fenced code block of a model answer, the first number
  in an answer, and decimal formatting;
- `state_machine`: reading the diagram's states and transitions, and the
  parts of a state's name;
- `runner`: the control loop as decisions (`next_action`, `advance`);
- `cache`: answers kept by request;
- `sandbox`, `llm`, `tools`: the sandbox project files, cached build results,
  the model request, and the demonstration tools.

`app/` is the command-line program: terminal, files, the `cargo` process,
and the HTTP request to the model server.
