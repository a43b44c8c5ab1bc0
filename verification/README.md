# ovoice

The core of a resident voice assistant: the turns of a conversation with a model
that calls tools, the history and the context made from it, background jobs,
questions to the user, the making and the reading of memories, and the files that
are served and attached. It is written in Rust and proved with Verus.

- `src/` is the library. Every function states what it returns or changes, over
  sequences of characters, JSON trees and lists of events. What is taken on trust
  is marked where it stands: calls into `serde_json`, `base64`, `quick_xml`, `zip`,
  `percent_encoding`, `uuid` and a few functions of std.
- `tests/` runs the library with those crates linked.
- `app/` is what touches the world: files, processes, the network, the clock, and
  the two programs, the assistant at a terminal and `mem`, which reads memories.

## Where to begin

| Module | What it decides |
| --- | --- |
| `turn` | when the model is asked, which tools run, and how a turn ends |
| `http`, `purify` | what is sent, and what is left out after a refusal |
| `sse`, `thinking` | what a reply that streams in says |
| `context`, `pairing` | which messages the model sees |
| `agent`, `ask_user` | what becomes of an event, and of a question to the user |
| `jobs`, `history` | background jobs, the events that are kept, and their files |
| `dream_trigger` | when memories are made |
| `mem`, `mem_cli`, `store`, `cards`, `notes` | what `mem` shows |
| `files`, `extract`, `setup` | which files are served, and what documents say |
| `config`, `timers`, `tasks` | settings and what the user plans |
| `asr`, `audio`, `baidu` | speech that is sent to be written down |
| `text`, `lines`, `cut`, `paths`, `dates`, `decimal`, `json`, `wire` | what the rest is written with |
