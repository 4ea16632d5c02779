# mynotes

A self-hosted website that publishes personal notes written in markdown, with
checkbox tasks, due actions and money amounts highlighted. The logic of the
site is a library verified with Verus; the web server around it is ordinary
Rust.

## Layout

- `src/` — the verified library:
  - `text.rs`: character classes, runs of characters, string building;
  - `pattern.rs`: the line patterns of notes (todo items, due actions,
    checkbox tasks), money amounts and static resources, their matches and
    the replacement of matches; the title line of a note;
  - `date.rs`: calendar dates written `YYYY-MM-DD`, read, written and counted
    in days with the `time` crate;
  - `config.rs`, `config/field_duration.rs`: settings, and durations written as
    fields with units (`1d6h`, `90`, `2 weeks`);
  - `mdtree.rs`: notes (title, due actions, body), checkbox tasks, and the
    tree of directories and notes with its lookups and its refresh from a
    listing of the content directory;
  - `render.rs`: the note page, the index page (due actions sorted by date,
    then the notes), the page template and cache busting of resources;
  - `settings.rs`: markdown rendering options and the money formatting;
  - `markdown.rs`: todo items rendered as labelled checkboxes;
  - `auth.rs`: basic authentication of requests;
  - `mail.rs`: how the SMTP connection is secured.
- `app/` — the Rocket server: routes, file system access, settings
  deserialization, persistence and mail sending.
- `tests/` — tests of the library, among them checks that the library's
  matchers agree with the `regex` crate on the same patterns.
