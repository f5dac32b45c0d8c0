# numeta

Reads and removes the metadata of image, document and audio files: JPEG,
PNG and WebP images (EXIF, XMP, IPTC, text chunks, JFIF thumbnails), PDF
documents (the information dictionary and XMP packets), Office documents
(DOCX and XLSX document properties) and MP3 files (the ID3v1 tag).

The library under `src/` is verified with Verus: each format is described
by spec functions over the file's bytes, and the executable readers and
removers are proved to compute what those describe; where an outside crate
does part of the work (archives, XML, PDF objects, zlib), the description
goes through names for what that crate returns. For WebP files, removal is
proved to leave nothing that a later reading reports as a tag and to change
nothing when done again; for PNG, JPEG and MP3 files the same is proved on
the inputs the lemmas name (`Metadata`'s `lemma_delete_leaves_nothing`
gathers the image formats). For PDF and Office documents it is not stated:
it rests on what lopdf, zip and quick-xml read back of what they wrote.
Archive, XML, PDF and zlib handling are left to the `zip`, `quick-xml`,
`lopdf` and `flate2` crates, called through small wrappers whose contracts
say what the library relies on.

Layout:

- `src/lib.rs`: tags and their text.
- `src/error.rs`: the error type.
- `src/options.rs`: command-line options.
- `src/text.rs`, `src/utilities/`: text helpers and byte readers.
- `src/xml.rs`: the XML reading that XMP and Office documents share.
- `src/metadata/`: one module per format, and `Metadata`, which tells a
  file's kind and dispatches to them.
- `tests/`: the tests.
- `app/`: the command-line program (file access, floating-point rendering
  of rational EXIF values, temporary files).
