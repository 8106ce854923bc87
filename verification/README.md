# lyric_panel

Host side of a desktop lyric panel: a display board on a serial link shows the
current lyrics, the song's title and artist, its cover, the playback time and
the media buttons. The host follows the music player, draws all of that into
small bitmaps and streams them to the board as framed packets.

`src/` is the library, verified with Verus:

- `wire`, `protocol`, `rle`: the packet frame, every packet the board
  understands, and the run-length coding of bitmaps; laws show that packets
  read back as what was written and that cropped bitmaps keep all their ink.
- `graphics`, `canvas`, `meta`, `controls`: tagged lyric pixels, the lyric
  canvas with its feathered edges and scroll animation, the metadata area and
  the media button icons.
- `text`, `lyrics`: normalization of lyric lines, the 11-line window around the
  current line, LRC time tags, the text sent to web clients.
- `link`: the decoder of the board's requests, cover block headers, which
  queued packets are still sent, and the constants of the panel's layout.
- `cache`, `cover`: the cover cache, and cover decoding and scaling through the
  `image` crate.
- `memscan`: byte patterns, pattern search, memory text decoding, and the
  tracker that narrows down where the player keeps the current lyric.

`app/` is the program around it: the serial port, the media session, HTTP and
WebSocket, font rendering and the cover's theme color.
