# pibipu

A Discord bot that posts new Threads posts and YouTube uploads, scheduled streams, stream starts
and stream ends into Discord channels, and keeps a Discord scheduled event in step with each
scheduled stream.

- `src/` is the library, verified with Verus: the configuration rules, the persisted state, the
  Threads page parser, the YouTube stream tracker, the retry rules for Discord failures and the
  decisions of each polling round and of the delivery queue. Every public function states what it
  returns or changes; the `law_*` proof functions state what holds across calls.
- `app/` is the program around it: environment, files, HTTP requests, the Discord gateway and the
  polling loop. It hands the library plain values and performs the calls the library decides on.
- `tests/` runs the library on concrete values.

Environment: `DISCORD_TOKEN`, `GOOGLE_API_KEY` (required); `CONFIG_PATH` (default `config.json`),
`STATE_PATH` (default `/data/state.json`).
