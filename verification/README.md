# queue_bot

A Discord bot that matchmakes players into games: queues, parties, bans, skill-based
team building, map and result votes, lobby hosts and leaver reports.

- `src/` is the library, verified with Verus: the state of players and parties, entering
  and leaving queues, bans, the greedy team search, starting and deciding matches,
  votes, and every reply text the bot sends. Each public function states what it does in
  its `ensures`; the `lemma_*` proof functions state the laws that span several calls.
- `app/` is the program around it: the Discord commands and events (poise and serenity),
  timers, files, the JSON form of the saved state, and the parts that compute with
  floating-point numbers (ratings with skillratings, matchmaking costs, the leaderboard).
- `tests/` runs the library on concrete cases.
