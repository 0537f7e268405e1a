# agentrust

Building blocks of an autonomous agent, verified with Verus: goals, personas
and the loop that drives a goal to completion; a metacognitive controller; a
long-term memory with hybrid recall; tools and the rules they follow.

## Layout

- `src/` is the library. Every function states in its contract what it
  returns or changes; the laws of the library stand as public proof functions
  whose names begin with `law_`.
  - `agent`, `api`, `config`, `channels`: goals, personas, runs, chat
    messages, settings and the in-process message bus.
  - `metacognition`: beliefs, the choice of the next step, the watch on
    reasoning, self-knowledge and its revision.
  - `memory`: the model of a memory, taking in, finding, condensing; history
    and sessions.
  - `tools`: bundles of tools and the decisions of each tool.
  - `text`, `words`, `order`, `window`, `strmap`, `fixed`, `ambient`, `json`:
    what the rest is built on.
- `app/` is ordinary Rust around the library: the database, the network, the
  desktop, the files.
- `tests/` runs the library on concrete values.

## Numbers

The library computes in fixed point. Probabilities, weights and similarities
are in billionths, scores of recall in units of 10⁻¹⁵, expected free energy in
units of 10⁻²⁸. Logarithms, exponentials and cosines are computed by the
caller and handed in.

## What is trusted

Calls into the standard library, `chrono`, `uuid`, `serde_json`, `base64` and
`regex` go through small wrappers whose contracts are believed without proof.
The comment on each says what is claimed of the outside function.
