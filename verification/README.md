# website

The verified logic of a site that shows which domains and subnets are blocked.

- `src/` is the library, proved with Verus:
  - `entries` and `sorting` list what is blocked in order,
  - `blocklist` keeps the list that is served and finds what a refresh brought,
  - `api` answers listings, searches, updates and totals,
  - `check` decides, step by step, how a checked target is answered,
  - `feedback` turns the reports of visitors into rows to store,
  - `pages`, `status` and `number` make up what the pages show,
  - `config` reads the settings and says when the databases are refreshed,
  - `text` holds trimming, case folding, search and the order of strings.
- `app/` is the server around it: routes, templates, the database and the refresh loop. The
  binary hands it the checking engine, the tables, the bundled scripts and further routes.
- `tests/` runs the library on concrete values.

A point in time is a type parameter of the library; the server uses `chrono::DateTime<Utc>`.
Two calls are trusted, not proved: the reason phrase of a status code (`rocket`) and the parsing
of a UUID (`sqlx`).
