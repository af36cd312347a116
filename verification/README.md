# archiver

A terminal tool that builds an archive of a directory tree. The user picks,
per file, directory or extension, whether files are left out, stored
uncompressed, or stored xz-compressed (the default). The choices are kept in a
state file and restored on the next run. JPEG and PNG images can instead be
packed into one lossless video, ordered by visual similarity, with their
metadata kept in a CSV table.

## Layout

- `src/` — the verified library (Verus):
  - `option.rs` — the three archive options and how they cycle.
  - `paths.rs` — paths as byte components: extension, parent, prefix, root stripping.
  - `choices.rs` — the user's choices and the option that applies to a path;
    cycling entries and extensions; the laws about cycling and restoring.
  - `entries.rs`, `extensions.rs` — directory listing order, the per-extension
    size summary, which images can be optimized.
  - `browser.rs`, `keys.rs`, `labels.rs`, `layout.rs` — the browser's state
    machine (with reset and its undo), key bindings, the text of its lines,
    the screen layout and the centred popup.
  - `prompt.rs` — the yes/no question about optimizing images.
  - `listing.rs` — how files are split into the two archive parts, the names
    they are stored under, the text of the `files_list` member, and the patch
    of the nested tar member.
  - `ordering.rs`, `metadata.rs` — the similarity walk over the images, the
    video canvas, and the metadata table.
  - `channel.rs` — the bounded byte channel's buffer rules.
  - `storage.rs` — the name of the state file.
  - `tar_header.rs` — the size and checksum fields of a tar header block,
    and the calls into tar that write them.
  - `digits.rs`, `text.rs`, `codecs.rs` — number formatting, text helpers, and
    the calls into md5, base64, csv, unicode-width and indicatif.
- `app/` — the program around it: command line, terminal drawing and events,
  file system walks, the state file, image decoding and the similarity index,
  the video encoder process, and the tar/xz writers.
- `tests/` — tests of the library.
