# rs_player

A small MP3 player. The library (`src/`, verified with Verus) holds its logic:

- `id3` reads the ID3v1 tag block at the end of a file: the `TAG` marker, the
  title, artist, album and year fields, each read as UTF-8 and stripped of NUL
  padding; `check_bytes` says exactly when a block can be read and why not.
- `playlist` keeps the playlist in file-name order (UTF-8 byte order) with one
  entry per name, picks the selected paths that can be added, and proves that
  the resulting list is unique, that re-adding known files changes nothing and
  that existing entries are kept.
- `order` gives playlist entries `==` and `partial_cmp` by file name.
- `player` decides what the play key does with the audio sink and when the file
  browser is shown.

`app/main.rs` is the window (conrod) and audio output (rodio) around it.
`tests/` exercise the library on concrete values.
