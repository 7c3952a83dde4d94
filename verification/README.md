# eurovote

The voting back end of a Eurovision-style song contest, verified with Verus.

Viewers register for a country and tap up to twenty televotes per round while its voting
is open; jurors of a participating country rank every other performer of the grand
final, and a place weighs 4096 halved once per place (nothing past the twelfth). Every vote is tallied into the
1224-type ranking of the voter's country (tied entries share a place), each place in the
top ten of such a ranking gives its receiver 12, 10, 8, 7, 6, 5, 4, 3, 2 or 1 points, and
the points are summed into the overall ranking of each round. The host and the Big 5
skip the semi-finals; the others are dealt alternately into the two semi-finals, and the
ten best of each (ties broken by televote points, then by how many countries gave
televote points, then by the counts of 12s, 10s and so on, then by running order) join
them in the grand final. Every performer gets empty ranking entries when it joins a
round, so that the votes become points, and `standings` lists the performers of a round
best first, with the same tie-breaks at every position.

## Layout

- `src/` — the verified library. `Database` holds the tables; each reducer, hook and table
  operation is an executable function whose contract states its effect on the tables
  (`Tables`, the view of `Database`) through a spec function.
  - `ranking.rs` — the incremental rank updates and the hook that moves overall scores;
    `ranking/laws.rs` (ranks stay places), `ranking/totals.rs` (overall scores stay the sum
    of points), `ranking/restore.rs` (a point given and taken back changes nothing),
    `ranking/bound.rs` (no performer scores more than 12 from each other country).
  - `vote/` — televotes, juror votes and their submission; `vote/laws.rs` (a submission
    replaces the voter's ballot and keeps the rankings sound), `vote/tally.rs` (the rankings
    hold what the votes give), `vote/resubmit.rs` (the same ballot again changes nothing),
    `vote/undo.rs` (a vote inserted and deleted changes no ranking), `vote/sound.rs` (the
    rankings stay sound and tallied through registrations and submissions).
  - `round/` — rounds, participations, and the reducers that open and advance a contest
    year; `round/performers.rs` (a performer and its empty entries), `round/admin.rs` (the
    ten best of each semi-final qualify), `round/laws.rs` (a contest only moves forward),
    `round/fresh.rs` (the performers of a new round get empty entries, and the rankings stay
    sound and tallied).
  - `contest.rs` — the seeded state holds the contest invariant (consistent country tables,
    distinct round ids, voters with users, sound and tallied rankings) and every reducer
    keeps it.
  - `country.rs`, `user.rs`, `voter.rs`, `singleton.rs`, `error.rs`, `database.rs`, `filters.rs`.
- `tests/` — tests on concrete contests.
- `app/` — the reducers as the host calls them, with text errors and displayed kinds.
