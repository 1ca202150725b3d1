# lzma_rust2

Decoders for LZMA data, proved with Verus.

- `LzmaReader` pulls its input out of a source of bytes.
- `LzmaStream` does no input or output of its own: it is handed slices.
- `Crc32` and `Crc64` compute the checksums that containers of such data carry.

The contracts speak of one model of the format. `coding` has the range coder,
`symbol` one symbol of a payload, `progress` a payload symbol by symbol, and
`format` the header and what can be wrong with a stream. `decoder`, `engine`,
`stream` and `reader` are the code, each proved against that model, whatever
pieces the bytes arrive in. `laws` has what follows for streams as a whole:

- Neither the output nor what is wrong with a stream depends on how it is cut.
- A well formed stream is never refused.
- What lies behind a stream is left alone.
- A run of the decoder comes to what decoding one symbol after the other does.

The last byte of a payload may be there only to bring the range coder back above
its least range. It is taken in where it is at hand. Where the last symbol takes in
as many bytes as a symbol can and leaves the coder below that range, a cut right
behind it may keep the byte out of reach. The laws say where that makes a
difference, and that no more than this byte is at stake.

`app/` holds the adaptors to `std::io` and to the decoders of the LZMA SDK, which
are compared with. Nothing in it is proved.
