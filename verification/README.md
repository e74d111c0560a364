# flashback

The verified core of a lightweight game-clip editor: the decisions behind
preparing a clip's audio, trimming and joining segments, and exporting, with
their contracts proved by Verus.

- `src/` — the library (Verus):
  - `nal` — H.264 Annex B start codes and the SPS/PPS units an MP4 needs.
  - `wav` — the 44-byte PCM16 WAV layout and the waveform envelope.
  - `thumbnail` — cover-image sizing and repacking of decoded RGB32 frames.
  - `media` — stream lookup, video and PCM formats, audio layout of a clip.
  - `timeline` — cutting audio to kept segments: sample placement and the
    chunks of a remixed track.
  - `packets` — cutting and joining video packets into one gapless timeline,
    key-frame and frame-time lists.
  - `cache` — names of the cached per-track WAV files.
- `app/` — the commands the desktop shell calls: Media Foundation, WIC and file
  I/O on Windows, and the floating-point mixing, around the library.
- `tests/` — tests of the library on concrete values.
