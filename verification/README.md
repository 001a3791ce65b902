# simaris

A knowledge store for typed units (facts, procedures, principles, preferences,
lessons, ideas, aspects) with full-text search, graph links, feedback marks and
model-assisted digestion of raw notes.

## Layout

- `src/` — the library, verified with Verus. Text handling over unit content
  (frontmatter, headlines, previews, tokens and shingles), the tag and size
  policies, union-find clustering, the survey plan (components and the split
  decision), cluster classification and the cluster report, duplicate, orphan
  and dual-parent lint checks, what a search gathers (deduplicated hits and
  their one-hop neighbours), the primer and answer assembly for `prime` and
  `ask`, the id remapping of the UUID migration, prompt
  construction and reply checking for the model, slug and id resolution,
  backup naming, the emit plan for agent files, and the decisions of the web
  front end. Every public function states its result exactly, except fresh ids,
  whose digits rest on the clock and random bytes (their form and order are
  stated); laws that span functions are public proof functions (`law_*`).
- `app/` — the command-line program around the library: argument parsing,
  SQLite storage, the model subprocess and the typed reading of its JSON
  replies, file output and printing.
- `tests/` — tests of the library on concrete values.
