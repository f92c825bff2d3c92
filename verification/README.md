# beheader

A polyglot generator for media files: it makes one file that reads as an icon,
a video, an HTML page, a PDF document or a ZIP archive, depending on the
extension the file is given. The library is written in Verus: what each function
does is stated in its contract and proved.

## The file

| Index | What stands there |
|-------|-------------------|
| 0     | The directory of an icon with one image. To a video player, the first 256 bytes are a box of an unknown type. |
| 22    | The extra file, the start of an HTML comment, and with a PDF document its first line and the header of a stream object. |
| 256   | A `ftyp` box of 32 bytes. |
| 288   | A `skip` box with the HTML part and the PNG image. |
| then  | What followed the first box of the MP4 file, with its file offsets moved. |
| then  | The end of the stream object and the PDF document, with its cross-reference table moved. |
| then  | Appended files, and the merged ZIP archives. |

## The library

- `polyglot`: building the file, with `Parts::polyglot` for what it holds.
- `mp4`: finding, replacing and inserting boxes, and moving file offsets.
- `pdf`, `stream`: the PDF document and the stream object that the media data is
  in.
- `archive`: merging ZIP archives.
- `picture`: converting images to PNG format.
- `number`, `bytes`, `utils`: decimal numbers, integers in bytes, searching.
- `cli`, `wasm_api`: arguments on a line of input, and a build in one call.
- `laws`: what holds of every file that is built.

What outside crates compute is called through functions whose contracts say what
is relied on: `byteorder`, `image`, `zip` and `shell-words`.

`app/` is the command line around the library.

```bash
beheader <output> <image> [mp4] [options] [appendable...]
```

| Flag | Description |
|------|-------------|
| `-H, --html <path>` | Path to HTML document |
| `-p, --pdf <path>` | Path to PDF document |
| `-z, --zip <path>` | Path to ZIP-like archive (repeatable) |
| `-e, --extra <path>` | Path to short (<200 byte) file to include near the header |
| `--preprocessed-mp4 <path>` | Path to a pre-encoded MP4 file, in place of the positional one |
| `--temp-dir <dir>` | Directory for temporary files |

Run without arguments for interactive mode.
