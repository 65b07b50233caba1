# byo_inference

Inference against endpoints that users bring themselves: picking the endpoint and the model,
building requests and reading replies, ranking the files of a repository, suggesting the next shell
command, attaching files to a query, and forwarding startup arguments to a running instance.

- `src/` is the library. Every function states what it returns, and Verus proves it, but for a few
  small wrappers around calls into other crates and the standard library. Their contracts are
  trusted; the doc comment of each says what it claims.
- `tests/` runs the library on concrete values.
- `app/` is ordinary Rust around it: HTTP, the clock, files and what the host application provides.

| Module | What it holds |
| --- | --- |
| `endpoint` | which endpoint and model answer |
| `completion` | requests in three schemas, and what replies say |
| `json`, `json_grammar` | JSON values, and finding an object in prose |
| `words` | search tokens of a query |
| `local_search` | lexical ranking, the ranking prompt, and reading the model's ranking |
| `circuit` | when a failing endpoint is left alone |
| `next_command` | the autofill prompt, and which suggestions are offered |
| `auto_context` | which files are attached, and how much of them |
| `startup` | what becomes of the command line |
| `text`, `lists`, `durations` | what the others share |
