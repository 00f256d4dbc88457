# open_nd

Tools for the asset formats of the Nancy Drew adventure games by Her
Interactive: AVF images and animations, HIS sounds, CIFTREE archives and scene
files.

- `src/` is the library, verified with Verus. Each converter works on bytes in
  memory and states its result exactly over spec functions: `avf` and
  `avf_encoder` (AVF to PNG frames and back), `his`, `his_backend` and
  `his_encoder` (HIS to WAV or Ogg, WAV to HIS), `ciftree` (archive
  extraction and the list of extensions), `scene`, `lzss` and `lzss_encode`
  (the compression shared by the formats), `rgb` and `image` (15-bit pixels,
  PNG encoding and decoding through the `png` crate), `gui` (the screen
  buffer) and `extractor` (what the batch extractor does with each file).
  Proof functions state the laws that tie them together: compression round
  trips, pixel round trips, AVF and HIS files reading back as written.
  Each AVF frame and CIFTREE file is deciphered from its own span of the
  input. A CIFTREE file whose decompressed size differs from its index entry
  ends the extraction with the outcome `SizeMismatch`, after the files before
  it; the program reports it by stopping with an error.
- `tests/` runs the library on concrete files built in memory.
- `app/` is the command-line program: it reads and writes files, opens the
  game window and plays sound.
