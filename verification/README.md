# sgi_summer

Plans a summer intensive-language programme: 71 days laid out from a Monday,
with weekends and holidays off, and rotating faculty duties (lectures, drills,
optionals, quizzes, exams, Friday reviews) taken round-robin from each week's
roster. It also summarises a week per faculty member and a day per person.

Layout:

- `src/` — the verified library (Verus). `date` (civil dates and weekdays, on
  `jiff`), `text` (name order, numerals), `group` (grouping events by name),
  `model` (the data types), `plan` (laying out the days), `summer`
  (creating a summer from its parameters), `report` (weekly summaries),
  `stats` (the `SgiDay` interface and per-day tallies).
- `tests/` — tests of the library.
- `app/` — XML storage of a summer (serde and quick-xml), which the library
  does not verify.
