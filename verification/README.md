# Hunger

A novelty-driven web crawler: each fetched page is digested, compared with
what the crawler already holds, scored for novelty, and allowed to spawn more
links when it looks rich. A native egui console shows the crawl graph and lets
an operator pause, seed and retune it.

## Layout

- `src/` — the verified library (Verus). Page digestion (`extractor`), link
  ranking and lexical novelty (`novelty`, `rank`), model-reply handling and
  prompt sections (`llm`), configuration and settings normalisation
  (`config`, `settings`), the backfill plan, progress record and stage
  machine (`backfill`), crawl-step decisions (`crawler`), dashboard telemetry
  and labels (`graph_view`, `ui`), shared records (`models`) and text
  primitives (`text`). Scores that the application computes as `f32` are
  carried here as their bit patterns.
- `app/` — the desktop program around the library: environment and files,
  SQLite (sqlx), HTTP (reqwest), the Tokio tasks, the floating-point scoring
  and force layout, and the egui interface.
- `tests/` — tests of the library.

## Running

The program reads its configuration from `HUNGER_*` environment variables
(base URL, API key and models of an OpenAI-compatible server, seeds, database
URL, settings path, timeouts and thresholds). By default the SQLite database
and the settings file live next to the executable.
