# gallery

The logic of a desktop image and video gallery, written in Verus with its behaviour
stated as contracts and proved.

## Layout

- `src/` — the verified library.
  - `paths.rs` — paths as component sequences (Windows prefixes held as parsed, absolute
    paths by the platform's rule): roots that are kept (outermost, sorted,
    no duplicates), file names, extensions, destination names for moved files.
  - `media.rs` — media kinds by extension, image formats, MP4 / Matroska / AVI header
    parsing for video dimensions, the FNV-1a content hash.
  - `library.rs` — scanning, de-duplication and extension repair decisions, the
    directory walk, thumbnail progress, paging of the index, stored settings.
  - `config.rs` — stored flags and preferences, the key derivation and the AES-GCM
    envelope that keeps the xAI key at rest.
  - `encoding.rs` — padded base64 and hex.
  - `session.rs` — editor conversations saved as numbered segment files.
  - `xai.rs` — JSON replies of the image-editing service, error messages, data URIs,
    request checks and generated file names.
  - `window.rs` — window plans: URLs, close behaviour, fullscreen, desktop background.
  - `release.rs` — the packaging tool's logic: `.env` files, arguments, semantic
    versions, updater artifacts, the `latest.json` manifest and JSON string fields.
  - `text.rs` — character-sequence helpers shared by the modules.
  - `app.rs` — the launch decision, the tray menu, the startup registration, the
    updater's state and errors.
- `tests/` — tests of the library on concrete values.
- `app/` — the desktop shell around the library: windows, the database, files, HTTP
  requests and the packaging command line.
