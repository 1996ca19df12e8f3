# course_projects

Verified logic of a few small programs, with the proofs of what each part does.

- `dataset`, `query`, `analytics`: tables of typed columns and queries on
  them (filter, group by a column, count / sum / average each group).
- `query_parser`, `text`: the textual query language
  `FILTER <condition> GROUP BY <column> <COUNT|SUM|AVERAGE> <column>`;
  `render` writes queries in it and shows that they read back.
- `server`: the analytics service's calls, with a one-pass query path shown
  to agree with the pipeline; `checks` decides whether a query can run.
- `board`, `agent`: a tic-tac-toe board with walls and a playing agent
  (immediate finishes, a one-move attack rule, alpha-beta minimax).
- `guessing`: number-guessing strategies, linear and binary, with the
  questions each asks.
- `chat`: a least-recently-used cache of conversations and what a user's
  history shows.

`app/` holds what talks to the outside world: the server's logging, the
query client's prompt loop, and the chatbots, which drive a language model.
