# kite_gcs

The verified core of a ground-control station's native video and vehicle-control paths.

`src/` (Verus):

- `annexb` — splitting Annex-B access units into NAL units, intra-frame detection, and the
  length-prefixed sample data a hardware decoder takes.
- `apple_sink` — parameter-set tracking, presentation pacing on a control timebase, and the state
  the decode thread shares (first error, counters, smoothing depth, published surfaces).
- `sink_outputs` — the decoder's outputs following the published surfaces (drop, place, create,
  restack) and the resume-on-keyframe gate.
- `decode_step` — the decode thread's per-frame decisions: when to re-sync the outputs, when to
  rebuild the format description, what each output does with a frame (fail, flush, skip, take),
  how a taken frame is paced, and when it counts as presented.
- `surface` — the surfaces a window publishes.
- `apple_host`, `linux_host`, `win_aspect` — the per-window host tables (outputs by surface key,
  layer trees by window label), seat geometry and the aspect-locked resize rectangle.
- `control` — MAVLink command acknowledgement rules and messages.
- `video_commands` — transport, WHEP answer, MJPEG route and detached-window size decisions.

`app/` holds the macOS sink's decode thread (it runs the loop and makes the display-layer calls
the library decides, through a platform trait), the MAVLink channel exchange, the JSON form of the
surface rects and the WHEP HTTP call; `tests/` exercises the library.
