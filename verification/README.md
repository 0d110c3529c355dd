# rcof

A local audio and video conferencing laboratory: two participants on one host find each other in a
room, exchange session descriptions that keep the call on loopback addresses, and send each other
Opus sound and VP8 pictures. A relay between them can impair the link.

The library under `src/` holds the decisions and the data structures, with contracts that Verus
proves:

- `text`, `address`, `double`, `packets`: text, internet addresses, floating point bit patterns and
  media packets as plain values.
- `call`, `session`, `signaling`, `controls`, `ui`: session descriptions, the course of a call, the
  rooms, and what a window shows.
- `audio`, `queue`, `reorder`, `speech`: sample queues, the pace of playback, reordering of packets,
  concealment, and the sending side.
- `video`, `screen`, `vp8`, `ffmpeg`: presets, the test pattern, adaptation to loss, pictures as
  packets, and the command lines of the codec's programs.
- `shaper`, `link`: one direction of an impaired link, its description, and the relay.
- `metrics`: counters and histograms.

`app/` is the program around it: command line, devices, codec, network, child processes and window.
Samples are 32 bit floating point numbers there; the library passes them on as bit patterns.
