# looper

Indexes the markdown of a workspace's folders into a knowledge base of plain files in the Open
Knowledge Format, keeps the index in step with the folders, and syncs folders with git.

`src/` is a library written in Verus: executable Rust whose behaviour is stated in contracts and
proved. `app/` is the program around it: arguments, files, threads, the terminal. `tests/` runs
the library on concrete values.

## The library

| Modules | What they hold |
| --- | --- |
| `text`, `path`, `sorted`, `natural`, `calendar` | Texts, paths, ordered maps, the natural order of names, dates |
| `yaml`, `json` | Values of `serde_yaml_ng` and `serde_json`, and the calls into those crates |
| `frontmatter`, `fence`, `fence_laws`, `ingest`, `bundle` | Documents: frontmatter, producer-owned regions, preparation, the bundle document |
| `kb`, `okf`, `viz` | Knowledge bases: the backend trait, the producer, the graph of a bundle |
| `scan`, `watcher`, `state`, `config` | Fingerprints and changes, watching, versioned documents, settings |
| `workspace`, `link`, `linking`, `gitignore` | Workspaces, the links into them, and what git ignores of those |
| `git`, `sync`, `fileshare`, `probe`, `syncer`, `autosync` | Repositories and syncing them |
| `ipc`, `events`, `enrichment`, `enriching`, `applying`, `lifecycle`, `engine` | The engine, what is asked of it and what it tells |
| `cli`, `activity`, `demo` | What the program says and asks |

What has to be done outside (reading a file, running git, waiting) is never done by the library.
A state machine says what comes next (`lifecycle::IndexWorker`, `autosync::SyncWorker`,
`fileshare::SyncCycle`, `probe::GitProbe`, `probe::GitTest`, `git::RepoWalk`, `cli::Interview`,
`activity::App`); the program does it and tells the outcome.

Public proof functions at the end of a module state what holds across its functions, for example
that reconciling links twice changes nothing, that a pull-only sync never pushes, or that the
index is never indexed itself.

## What is taken on trust

Calls into other crates stand in small functions marked `external_body`, each with a comment that
says what is claimed of the call: `blake3` (`scan`), `serde_yaml_ng` (`yaml`), `serde_json`
(`json`), `regex` (`viz`), `directories` (`config`), and two functions of the standard library
(`text`).
