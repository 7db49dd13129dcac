# psd_viewer

A viewer for PSD and PSB files with 8-bit channels. Its logic is a library that Verus verifies
(`src/`); the window, the threads and the floating point arithmetic on pixels are an ordinary
program around it (`app/`).

## The library

Reading a file:

| Module | |
| --- | --- |
| `bytes`, `reader` | big-endian fields of a file |
| `packbits`, `channel` | where the rows of a channel lie, and how one is unpacked |
| `effects`, `layers` | the record of one layer |
| `locate`, `layer_info` | where the channels lie, also in a file that lacks data |
| `merged`, `psd` | the file as a whole |
| `blend`, `bounds`, `node`, `document` | the layer tree |
| `forest` | what holds of every layer tree |
| `error`, `warning`, `labels`, `text` | what the user is told |

Drawing it:

| Module | |
| --- | --- |
| `plan` | the steps that put a row together |
| `composite` | which part of the canvas a row covers, and the values of layers and masks there |
| `tiles`, `nearest`, `tile_cache` | tiles, their order, and which are kept |
| `worker`, `session` | what the drawing thread and the window do next |

Around it: `dnd`, `drag`, `pipe` and `uri` for files that are dropped on the window, `fonts` for the
font file.

`psd::parse` takes every sequence of bytes and gives a document's content or an error. Positions in a
file are 64-bit numbers that stay at the largest one instead of overflowing, and rows that a channel
does not hold read as zeros. Functions that ask something of their arguments, such as a buffer that
is long enough or a counter that is not at its end, say so in `requires`; the program tests it before
it calls them.

Two functions of the standard library are trusted, in `text`: the decoding of UTF-8 and of UTF-16.
