# yac_model

The data model of a Misskey/Fediverse timeline client — notes, users,
instances, reactions, MFM text and image state — written in Verus, with the
rules that decide what is shown stated as contracts and proved.

## Layout

- `src/` — the verified library.
  - `text`, `number`: character sequences, searching, decimal formatting.
  - `time`: the "… ago" labels of notes.
  - `emoji`, `url`: Unicode-emoji identifiers, Twemoji and media-proxy
    addresses, percent-encoding.
  - `mfm`: how MFM text is cut into text and emoji pieces (custom emojis,
    Unicode emojis, ordering by position).
  - `reactions`: resolving reaction emojis, sorting by count, totals.
  - `instance`: instance theme colors, icons and names.
  - `texture`, `loading`: image decoding (WebP animations, still images),
    frame selection of animations, image loading and disk-cache decisions,
    answers to downloads, cache eviction.
  - `model`: the shown values (`Note`, `UserProfile`, `MFMString`,
    `Reactions`, `NoteFile`, `Emoji`) and blurhash previews.
  - The laws are the public proof functions named `law_*`: they state what
    holds of all inputs.
- `tests/` — tests on concrete values, run with the real outside crates.
- `app/` — the unverified surroundings: HTTP and disk I/O, `egui` textures
  and drawing, and the asynchronous loading that feeds the library.

Outside crates are called from the library through a few trusted wrappers
(`hex`, `urlencoding`, `regex`, `uuid`, `chrono`, `blurhash-wasm`, `image`,
`webp`), each with a doc comment saying what its contract assumes.
