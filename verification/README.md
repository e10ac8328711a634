# rust_graphql_sonic

A search service over the [tennis_atp](https://github.com/JeffSackmann/tennis_atp)
singles matches: each match becomes one entry whose text describes its winner,
loser, tourney and score, stored in PostgreSQL and in a Sonic search index and
searched through a GraphQL API.

## Layout

- `src/` is the library, verified with Verus:
  - `text.rs`: characters of strings, splitting at a separator, lines, words,
    joining, infix search; with the laws that split pieces join back to the
    text and that lines and words hold no separators;
  - `number.rs`: reading and writing decimal integers as `str::parse` and
    `format!` do, and the law that reading gives back what was written;
  - `data/`: players, tourneys and matches read from CSV lines, their
    descriptions, whole players' and match files, and an insertion-ordered
    string table; with the laws that keep the tables consistent;
  - `items.rs`: search entries and the text of database search queries;
  - `pub_sub.rs`: the publish/subscribe registry of the live results.
- `tests/`: tests of the library.
- `app/`: the programs around the library: the GraphQL server and the
  program that fills the database and the index (`main fill <path>`).
