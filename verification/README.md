# mosaic_core

The verified core of Mosaic Modpack Studio, a desktop manager for Minecraft
modpacks that searches Modrinth and CurseForge, resolves dependency graphs,
installs, removes and organizes mods, and imports existing instances.

The application's decisions live in `src/`, each proved with Verus against
a contract over mathematical models (`Seq`, `Set`, `Map`, `int`). The
surrounding program in `app/` performs the input and output (HTTP, files,
the system keychain) and hands plain values to the library.

## Layout

- `src/` — the verified library:
  - `resolver.rs`: the dependency resolver as a state machine; each step
    names the next catalog lookup and says what each answer does, and every
    finished plan lists each project once, keeps direct requests as
    requests, takes optional dependencies only when selected, offers each
    optional dependency once and installs or reports every required
    dependency. A file a catalog will not serve is taken from the other
    catalog or listed for manual download without blocking the plan, and
    required dependencies declared only in the other catalog join the plan.
    The dependencies of every node are taken up: each gets its edge, a
    required one is visited, an optional one is offered, and an
    incompatibility with a mod of the profile or of the plan is reported.
  - `plan_store.rs`: the recently resolved plans, found again by id.
  - `jar.rs`: which metadata file of a mod jar names its loader.
  - `removal.rs`, `graph.rs`, `dependency_graph.rs`: conservative removal
    over the recorded and refreshed dependency graph.
  - `download.rs`, `file_integrity.rs`: which file to download, from which
    hosts, under which name, and how its hashes are checked, also chunk by
    chunk as a download arrives.
  - `profiles.rs`, `profile_records.rs`, `install_record.rs`, `presets.rs`,
    `store.rs`: the stored profiles and presets and every change to them.
  - `rescan.rs`, `import.rs`, `mod_index.rs`, `json.rs`: reading existing
    instances and identifying their mods.
  - `organization.rs`: sorting mods into client and server folders.
  - `catalog.rs`, `modrinth.rs`, `curseforge.rs`, `provider_fallback.rs`,
    `reconciliation.rs`, `recipes.rs`, `recommendations.rs`: the catalogs'
    vocabulary, merged searches, cross-catalog fallbacks and recommendations.
  - `text.rs`, `sort.rs`, `error.rs`, `requests.rs`, `secrets.rs`,
    `domain.rs`: shared text functions, stable sorts, errors, input checks
    and the domain types.
- `tests/` — tests of the library on concrete values.
- `app/` — the asynchronous services, HTTP clients, JSON store, keychain
  access and file operations around the library.

## Checking

`verus` on `src/lib.rs` verifies the library; the tests run with the
library compiled as an ordinary crate.
