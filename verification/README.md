# release

Bumps a project's version, commits, tags, pushes and publishes it, for cargo,
pnpm, bun, go, dotnet, julia and uv. The logic is a library verified with
Verus; the command around it reads the arguments and carries out what the
library asks for.

```sh
release [patch|minor|major] [-P|--no-publish] [-p|--only-publish] [--dry-run] [--backend <name>]
```

## How it is laid out

The library touches no file and starts no program. A step of the release is a
function of the answers given so far: it ends with a value, or with the next
thing that it asks its host to do (`session`). Each executable step is proved
equal to a specification function of the same shape, and what the tool promises
as a whole (a dry run changes nothing, nothing is published before the push, a
version put into a manifest or a `bun.lock` is the one that is read from it) is
proved of those. That a version is read back after it was written is proved of
whole conversations, in the modules of `backends` named `*_roundtrip`.

| Module | What it holds |
| ------ | ------------- |
| `session` | requests, answers, and steps over them |
| `conversation` | what comes of a step with a host that answers it |
| `memory` | what comes of steps with a host that remembers what was written |
| the crate root | the release flow and its laws |
| `cli`, `config`, `detect`, `git`, `version` | arguments, `.release.toml`, detection, git, version numbers |
| `backend`, `backends` | what a package manager has to do, and each of the seven |
| `packages`, `graph` | the order in which packages are published |
| `data`, `toml`, `json` | documents as trees, read and edited by `toml_edit` and `serde_json` |
| `text`, `paths`, `error` | texts, paths, errors and their messages |

`app/` is the command itself: arguments by `clap`, patterns by `glob`, files
and programs by the standard library. `tests/` runs the library on projects in
memory.
