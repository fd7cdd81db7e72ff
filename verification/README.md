# SenseTree

A local explorer that finds files by what they mean. It reads documents, images, sound and
video, asks models what they are about, keeps a vector for each piece of text, and answers
questions in words. An assistant can propose to tidy folders; nothing is changed on the disk
before the user has agreed to the plan.

## Layout

- `src/` is the library, in Verus: every rule of the program, with a contract that is proved.
  - Texts, numbers and bytes: `text`, `decimal`, `json`, `bytes`, `order`.
  - Finding files: `folders`, `crawler`, `watchdog`, `parser`, `gardener`, `explorer`.
  - Indexing them: `worker`, `extract`, `chunker`, `pending`, `vectordb`, `db`, `state`.
  - Models: `embedding`, `chat`, `media`, `health`, `metrics`, `ort_setup`, `benchmarks`,
    `catalog`, `installs`, `ollama_catalog`, `ollama_server`.
  - Search: `search`, `tree`.
  - The assistant and its plans: `actions`, `agent`, `mcp`.
  - Settings and commands: `config`, `default_prompts`, `commands`.
- `tests/` runs the library on concrete values.
- `app/` is the program around it: the window, the threads, the disk, the bases and the network.

Functions named `law_…` are proofs of what holds of several functions together. Functions marked
`external_body` call other crates; the comment above each says what is taken for granted there.
