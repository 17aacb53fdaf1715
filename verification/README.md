# hl

Match history for Team Fortress 2 Highlander: the rules that read logs.tf
logs and raw server logs, tie logs to officials and demos, and rebuild the
game state of a match, written in Verus with their contracts proved.

## Layout

- `src/` is the library. Every function in it is verified; the few calls
  into other crates (`zip`, `chrono`, `base64`, `serde_json`, `String`'s
  own methods) sit behind small trusted wrappers whose contracts say what
  those crates do.
  - `steamid`, `tfclass`, `matchdata`, `text`: identifiers, classes, the
    normalized match types, and the text handling the parsers share.
  - `normalize`: a logs.tf log's JSON text (read by `serde_json`) to a
    `NormalizedLog`; also the round start times and id lists stored as JSON.
  - `rawlog`: a raw server log to its kills, damage, chat and rounds.
  - `kills`: stored kills placed in their rounds, and the owner's own
    kills and deaths as markers on the round timeline.
  - `state`: the game state of a match rebuilt from a raw log's lines:
    lives, charge phases, rounds, caps and sentries.
  - `fights`, `situation`: what each kill meant, and the kill states
    tallied against who won.
  - `statecheck`: the state checked against logs.tf's own counts.
  - `dedupe`, `classify`, `context`, `etf2l`, `link`, `demostf`, `mapres`,
    `maps`, `seasons`, `query`, `sync`: indexing, matching and filtering;
    `etf2l` also reads ETF2L's player, results and match responses.
  - `header`: the fixed header at the front of a Source demo.
  - `analysis`: the match page's game clock (rounds laid end to end),
    the kills on it, killstreaks, damage by the other player's class and
    over time, the play-by-play, the maps of a combined log on the clock,
    and the game state second by second.
  - `tfpath`, `scan`, `backup`, `restore`, `lock`, `owner`, `cli`, `config`: the rules
    behind the app's files, folders and settings.
- `tests/` runs the library on concrete values.
- `app/` is the command-line harness: reading files and folders, JSON
  through `serde`, and printing. Besides that it keeps what the library
  cannot hold: the map outline fit and the tick rate, which are floating
  point, and the check that a raw log's round count fits a `u32` before it is parsed.
