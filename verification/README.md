# icehorn

Copies Apache Iceberg tables from one place in S3-compatible storage to
another, rewriting the absolute paths in their metadata, and shows what is in
them. There is no catalog: namespaces and tables are directories named by UUID.

## Layout

- `src/` is the library, written in Verus. Every rule of the program stands
  here with its contract, and is proved.
  - `iceberg/`: names and layout of a warehouse, metadata, manifests, Avro.
  - `copy/`: which files to copy and which to skip, rewriting of paths, the
    download that goes on where it broke off, the steps of a copy.
  - `show/`: what the inspecting commands print.
  - `ui/`: what a running copy shows.
  - `sync_log`: the log of what was copied.
  - `text`, `number`, `names`, `order`, `time`: what the rest is built on.
- `app/` is the command: arguments, object storage, tasks, the terminal.
- `tests/` runs the library.

## What is trusted

Calls into other crates stand behind small functions whose contracts Verus
believes: gzip (`flate2`), Avro containers (`apache_avro`), UUIDs (`uuid`),
times (`jiff`), keys of objects (`object_store`) and JSON values
(`serde_json`). Each says in its comment what is claimed.

## What is proved

Besides the contract of every function, among others:

- a download holds every piece once, resumes behind what came, and ends;
- rewritten manifests name the old paths, moved, and no others, also where a
  path is optional;
- a walk keeps every file that any readable manifest names, and none twice;
- files on which the Avro reader would break down are told apart before the
  reader sees them;
- one table that fails does not stop its siblings;
- the rate that is shown is that of the window, whatever was asked in between;
- the metadata that is written refers to nothing that is not copied, keeps the
  current snapshot and every snapshot that earlier runs brought over, and is
  written only after all files;
- what was logged is read back, and a logged file is skipped by the next run;
- the search for tables finds them all, with as few listings as it says.
