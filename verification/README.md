# reforge

The verified core of `reforge`, a Solidity macro preprocessor for Foundry
projects, written in Verus.

- `src/project_compiler.rs`: bytecode sizes, the contract size report and its
  EIP-170 / EIP-3860 limits, artifact names grouped by compiler version, and
  the decisions taken after a compilation.
- `src/versions.rs`: compiler versions and their semver order (release
  numbers, pre-release, build metadata).
- `src/display.rs`: selection of expanded sources by glob, listed in path order.
- `src/testing.rs`: comparison of expanded sources with their expected text.
- `src/lockfile.rs`: `foundry.lock` loading, the per-dependency check of git
  dependencies against it, and the per-entry decision and warning text of the
  soldeer check (reading `soldeer.lock` is not part of this crate).
- `src/paths.rs`: path components and the order of paths, file extensions.
- `src/order.rs`, `src/text.rs`: comparators, lexicographic order, text helpers.
- `app/`: reading files, running git and the compiler, printing.
