# book

The core of a terminal e-book reader for local TXT, EPUB and MOBI files,
written in Verus. The functions in `src/` carry contracts that Verus proves,
except the calls into other crates and into std that Verus has no
specification of: those sit in small functions marked
`#[verifier::external_body]` (and one `assume_specification`, for
`char::from_u32`), whose contracts are believed, not proved. Each says in its
doc comment which outside function it calls and what it claims of it.

- `src/text.rs` — HTML to plain text, wrapping by display width, chapter headings and splitting.
- `src/mobi.rs` — the PalmDB record table, PalmDOC decompression, Windows-1252.
- `src/library.rs` — which files are books, their order, loading a book's chapters.
- `src/epub_doc.rs` — the EPUB container, read through the `epub` crate.
- `src/rootfile.rs` — the check, made before an EPUB is opened, that its `rootfile` path has a parent.
- `src/progress.rs` — reading positions and the table of saved positions.
- `src/reader.rs` — what each key does, page layout and the progress bar.
- `src/config.rs` — configuration paths and `~` expansion.
- `src/cli.rs` — the command line.
- `src/strs.rs` — character-level helpers shared by the above.
- `app/` — the program: files, environment, terminal drawing and the event loop.
