# minions_core

The core of a local multi-agent harness over Ollama, written in Verus. A graph
engine walks a workflow, hands documents between agents, and lets them read,
change and test code through a single dispatcher: every action is classified,
asked about where it must be, journalled, and reversible from a checkpoint taken
before the first write.

## Layout

`src/` decides and computes; nothing in it touches a disk, a network or a clock.

| what | modules |
|------|---------|
| text, numbers, tables, paths | `text`, `split`, `digits`, `table`, `kept`, `paths`, `json`, `tokens` |
| documents | `document`, `round_trip` |
| authority | `floor`, `sandbox`, `resolving`, `dispatcher`, `work`, `journal`, `checkpoint` |
| workflows | `graph`, `cycles`, `validation`, `run`, `engine`, `skipping`, `walk` |
| agents | `node`, `agent`, `worker`, `ladder`, `clarify`, `context`, `outputs`, `report` |
| models | `chat`, `toolcalls`, `ollama`, `backend`, `profile`, `probe` |
| memory | `memory`, `scheduler` |

Where work and decisions take turns, the library holds the decisions as a machine
that says what to do next and takes in what came of it: `Dispatcher::dispatch`,
`begin` and `proceed` for a tool call, `Walk` for a run, `Taking` for a
checkpoint, `Worker` for an agent with tools, `Ladder` for clarifications, `Probe`
for a measurement.

`app/` is the command line around it: files, processes, the Ollama client and the
terminal. `tests/` drives the library with scripted replies and a model of a disk,
so that no result varies.

## What is stated

Contracts are over sequences of characters and spec functions. The properties
that span functions are public proof functions whose names begin with `law_`:
that a document reads back as it was written, that an allowed write stays inside
the root and meets no link, that what the authority rejects is refused, that no
shell hides a command of the floor, that an accepted graph keeps its promises,
that a transition is saved before it is announced, that a resident model fits,
that a run does not close over failing tests, and more beside the functions they
speak of.

The sandbox filters what a model writes; it does not confine what a command does.
