# yomiage

A Discord bot that reads the messages of a text channel aloud in a voice
channel, using a locally running VOICEVOX Engine for speech synthesis.

- `src/` is the verified library (Verus):
  - `chunking` splits messages into short pieces at natural Japanese
    boundaries without cutting URLs; its contract proves that the pieces
    reassemble the message, are never empty, stay short unless they hold one
    long URL-like run, and never meet inside such a run.
  - `audio_cache` is the byte-bounded LRU cache of synthesized audio, with
    its limits, lookup-after-insert and eviction order proved.
  - `voicevox` configures the engine client (settings, URLs, response
    statuses) and keeps the cache.
  - `bot` holds the bot's decisions on plain values: which messages are read,
    which text channel each joined guild reads, when the bot is alone in a
    voice channel, what `/skip` does, which slash
    command a name means.
  - `text` has the character-level helpers (whitespace, decimal numbers,
    trailing slashes).
- `app/` is the bot itself: Discord and voice I/O through serenity and
  songbird, HTTP requests to the engine through reqwest, and `main`.
- `tests/` runs the library on concrete inputs.
