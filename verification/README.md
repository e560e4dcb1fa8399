# agent_kitten

The Agent Kitten Discord bot, with its logic as a library verified by Verus.

- `src/` holds the verified library: configuration paths over JSON documents
  (`config`, `json`) and JSON text read with serde_json (`json_text`), message chunking for Discord's length limit
  (`chunking`), leveling arithmetic and the leaderboard ranking (`leveling`),
  the database name and the planning of document writes (`database`), the
  state kept between gateway events (`events`), the chat tools and
  attachments (`textgen`), the music commands' decisions (`music`), the
  commands' replies (`commands`), durations for the status card (`status`)
  and the text helpers they share (`text`). Calls into outside crates go
  through a few trusted wrappers, each with a doc comment that says what is
  assumed of it.
- `tests/` runs the library on concrete inputs.
- `app/` is the bot itself: Discord, Lavalink, MongoDB, PostgreSQL and OpenAI
  I/O around the library.
