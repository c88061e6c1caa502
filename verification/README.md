# tinyhivemind_hive

Hive-mind mechanics for a room of agents, verified with Verus: a marker
grammar read off a shared transcript, decaying salience, quorum counting with
cross-inhibition and refutation, a directory of who knows what, a response
threshold bid for the floor, the division of a task into facets, and the
bounded episode step that ties them together.

Every function in `src/` carries a contract stated over plain values (`Seq`,
`int`, the views of the library's types), and the laws the library promises
are public proof functions:

- `trace`: every trace read points at its marker's `!`, on a character
  boundary of the row that wrote it; a body's markers sit at strictly
  increasing offsets; a read is sorted by address and keeps at most
  `TRACE_CAP` traces per message.
- `quorum`: standings are order-independent and idempotent over redelivered
  traces, and well formed; requiring evidential grounds already requires
  grounds; a silenced advocate is never a supporter, an objection never
  silences its own author, and a refutation alone makes no standing.
- `directory`: the fold is order-independent and idempotent; a decoded list of
  entries is rebuilt in `(topic, agent)` order or refused.
- `attention`: bids read a set of traces, so redelivery and reordering move no
  bid; a round takes the top bids and never exceeds its width.
- `division`: no seat twice in a round, no round wider than its lane, no
  placement under those bounds takes fewer rounds, the rounds partition the
  assignments and together hold every one of them, a facet named twice is
  one facet.
- `episode`: a step's members are the desk's active members, in desk order
  (`active_members`); every round is bounded and in desk order, and the budget bounds
  the episode; with a directory, the holder of a promoted topic bids `Knows`;
  a step is deterministic, so an episode replays exactly; a step reads only
  the rows the episode folds, so asides, rows from before the watermark and
  rows by non-members move nothing; a decision reads a set of traces; a
  transcript with every row delivered twice steps exactly as the transcript
  did, since a body's markers sit at strictly increasing offsets and so an
  address names one deposit.
- `horizon` and `salience`: distance and decay never rise as a row gets older.

Layout:

- `src/` the verified library, one module per mechanism, with `spec.rs` files
  holding the plain-value statements and the laws (`law_*`) in `laws.rs` or
  beside what they are about.
- `tests/` executable tests against the compiled library.
- `app/` the wire forms: serde twins of the library's values, with
  conversions both ways; decoding a directory goes through the library.
