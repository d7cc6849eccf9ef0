# imgdecode

Decoding of image file structure — the BMP info header and pixel array, the
PNG chunk list with its CRC checks, and JPEG marker segments, quantization and
Huffman tables — written in Verus, with every decoding step proved against its
contract.

- `src/` is the verified library: `bmp`, `png`, `jpeg`, `detect` (choosing a
  decoder from a file's first bytes), `endian` (integers from bytes), `text`
  (numbers rendered for error messages), `error`, `pixels`, `image_types`.
- `app/` opens files and hands their bytes to the library.
- `tests/` runs the library on concrete inputs.
