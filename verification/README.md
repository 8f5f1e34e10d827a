# Playout

Continuous audio and video playout: a list of files becomes one uninterrupted
output to a file, to an RTMP server, into HLS playlists or into a window.

- `src/` is the verified library. It decides what is written when and with which
  timestamps: which files are played and in which order, how often a decoded
  frame is shown, what replaces a clip that cannot be decoded, how audio and
  video are kept together, when a live publisher takes over, and when a frame is
  shown in a window. It also reads WebVTT subtitles and builds the names and
  stream maps of adaptive HLS.
- `app/` is the program around it: arguments, the file system, FFmpeg, SDL2 and
  threads.
- `tests/` runs the library on concrete values.

Work that only the outside world can do is asked for step by step. The library
hands out an action, the program performs it and reports what came of it. The
state machines in `clip`, `live` and `desktop` follow this scheme, and so do the
fallback output and the padding in `timeline`. The laws of `continuity` and
`live` say that timestamps go on without a gap: over clips, fallback output and
padding in any order, and over switches to a live input.
