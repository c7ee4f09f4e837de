# rehydrate

A desktop library for a reMarkable tablet: it keeps every version of every document, mirrors the
tablet's folders, pushes edits back over SSH, and transcribes handwriting.

- `src/` is the library, verified with Verus. It does no I/O. Files, database rows and replies of
  the tablet come in as plain values; decisions and new records go out as plain values.
  - `blob`, `hash`, `manifest`, `paths`, `clock`, `ids`, `json`, `text`, `table`: the groundwork.
  - `library`: documents, versions, the archive, folders, imports, derived artefacts, garbage
    collection, integrity checks, export and revert. `library::laws` states what holds across
    operations, and `library::whole` what each of them comes to from beginning to end.
  - `device`: what to ask the tablet next, as state machines that are fed its replies.
  - `ocr`: the model's files, download progress, prompts, pages and transcripts.
- `app/` is ordinary Rust around it: SQLite, the file system, SSH and SFTP, the model hub, and the
  floating-point part of drawing.
- `tests/` runs the library on concrete values.

Each wrapper of an outside function is marked `#[verifier::external_body]`; its doc comment says
what is believed of that function.
