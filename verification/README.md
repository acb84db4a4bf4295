# cf_core

The domain core of a desktop editor for a coding assistant's configuration
directory (memories, skills, commands, workflows, agents and `settings.json`),
verified with Verus.

Every edit goes through staging: a draft is saved in the application's own
data directory, its diff against the real file is reviewed, and only then is
it applied, after a backup of the real file. Applied changes can be reverted
from their backups.

## Layout

- `src/` — the verified library.
  - `frontmatter` — documents with an optional front-matter block, and the
    line scanner that reads single fields from it.
  - `scan` — what the directory scan makes of the files it reads, and the
    summary of `settings.json`.
  - `staging` — the staging engine. Each operation takes what was read from
    disk and returns the plan of writes; `World` states what carrying out a
    plan does, and the laws at the end of the module are proved over it.
  - `boundary` — the check that keeps every write inside the configuration
    directory.
  - `json`, `path`, `text`, `order`, `model` — the value types and the string
    order the rest is stated over.
  - `outside` — the calls into `chrono`, `similar`, `serde_json` and the
    parts of `std` without a specification, each with the contract it is
    trusted for.
- `app/` — the application around the library: the disk, the error messages,
  the serializable records and the commands.
- `tests/` — the tests, run against the library with an in-memory disk.
