# matrix_stream

Streams pictures and videos to an 8x8 LED dot matrix (OSL641505) driven by a
Raspberry Pi through two chained 74HC595 shift registers. A frame travels over
TCP as one line of 64 `'0'`/`'1'` characters, the first being the top-left pixel.

- `src/` is the verified library (Verus):
  - `protocol` checks and decodes frame lines;
  - `display_controller` is the receiver's controller state, the decision of
    each turn of the display loop, and the loop's actions (draw, report, pause,
    reset the matrix once on stop, leave);
  - `drivers::hc595` gives the line signals for the shift registers, with a model
    of the chips and its laws; `drivers::osl641505` turns a frame into the
    per-row control words;
  - `sender` decides which files are videos, decodes a picture file's bytes
    with `image` and turns it into a frame line (resize to 8x8, grey, two levels), selects and orders extracted
    frame files, and holds the retry policy;
  - `text` holds character-level helpers (UTF-8 length, white space, trimming).
- `app/` is the program around it: GPIO through `rppal`, the display thread,
  TCP, reading files, and `ffmpeg`. Run it with one of
  `receiver`, `sender`, `display`, `test-rppal`, `test-74hc595`, `test-osl641505`.
- `tests/` exercises the library on concrete values.
