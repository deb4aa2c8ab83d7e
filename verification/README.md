# rust-mcp-filesystem

A filesystem server for MCP clients. It exposes one directory that you choose, through eight tools:

- `list_directory`, `read_text_file`, `file_metadata`, `read_text_file_range`, `search_text`
- `write_text_file`, `patch_text_file`, `create_directory`

It does not expose delete, rename, shell execution or absolute paths.

## Safety model

- All paths are relative to `--root`; absolute paths and `..` are rejected, and so is every path
  with a symlink in it.
- Filesystem access uses `cap-std`, so that operations stay confined to the opened directory.
- Existing files are replaced only with `overwrite: true`, by way of a temporary file beside them
  that is renamed in one step.
- With an expected revision, a file is replaced only while it has that revision. It is looked at
  before the temporary file is written and again right before the rename, and the writers of one
  file take turns.
- Reads and writes have a byte limit, listings a limit on their entries.
- `--read-only` disables every tool that changes something.
- Logs go to stderr; stdout belongs to the protocol.

## Layout

- `src/` is the library. It makes every decision and does no input or output: a request is a state
  machine that says what to ask of the disk and takes the answers. All of it is verified with Verus.
  - `paths`, `text`, `preview`, `search`, `content`, `listing`, `revision`, `messages`: what is
    computed from paths, texts and bytes.
  - `walk`, `reading`, `writing`, `tasks`, `server`, `protocol`, `locks`: requests, step by step.
  - `disk`, `laws`: what is assumed of a disk, and what then holds of whole requests, such as that a
    refused write loses nothing, that no symlink is followed, that what was written is read back and
    that of two writers who know the same revision one has its way.
- `app/` is the program around it: settings, the disk, and the protocol.
- `tests/` run the library on values and on a disk in memory.

Not proved, but taken from outside: SHA-256 (`sha2`), the form of random identifiers (`uuid`), UTF-8
decoding and `String::push` (the standard library). Each stands behind one item that says what is
claimed of it.

## Run

```bash
rust-mcp-filesystem --root /absolute/path/to/safe-workspace [--read-only] \
  [--max-file-bytes 1048576] [--max-dir-entries 2000]
```

The same settings can be given through `MCP_FS_ROOT`, `MCP_FS_READ_ONLY`, `MCP_FS_MAX_FILE_BYTES` and
`MCP_FS_MAX_DIR_ENTRIES`. `RUST_LOG` sets what is logged.
