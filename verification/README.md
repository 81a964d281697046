# hutter

Experimental lossless compressors for the Hutter Prize corpora, with their
integer logic verified by Verus.

## Layout

- `src/` — the verified library.
  - `arith.rs`, `bits.rs`: the 32-bit arithmetic coder and bit packing; the
    decoder provably finds every range the encoder coded.
  - `lz77.rs`, `adaptive_huffman.rs`: the LZ77 and order-1 adaptive Huffman
    codecs.
  - `context.rs`, `history.rs`, `candidates.rs`, `ranking.rs`: adaptive byte
    counts, byte histories, weighted candidate lists and their orderings.
  - `byte_ppm.rs`, `ppm.rs`, `ppmd.rs`: byte-level PPM (orders 1–6), bit-level
    PPM (orders 3 and 8–64) and PPMD with exclusion.
  - `ppm_match_mix.rs`: the hashed match model and its match-only codec.
  - `wikimix.rs`: the five-model WikiMix-5 codec with an integer mixer.
  - `hybrid_ppm.rs`, `ppmd_bit.rs`, `ppmd_mix.rs`: the counting side of the
    codecs that blend predictions in floating point.
  - `codec.rs`, `cli.rs`: codec names, archive tags, dispatch, command line.
- `app/` — the program: file I/O, progress display, and the floating-point
  mixers of the blending codecs.
- `tests/` — roundtrip and behaviour tests.

Every codec in the library proves that decompressing what it compresses
gives the input back.
