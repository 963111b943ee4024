# gpzip

An archiver whose compressed output is made of independently decodable chunks,
so that all cores, and a graphics device where there is one, can work on an
archive at the same time. What it writes is ordinary gzip, zstd, zip and tar.

`src/` is the library, written and proved in Verus.

| Module | Purpose |
|---|---|
| `algorithm`, `codec`, `registry` | Algorithms, levels, backends, and which backend is picked |
| `archive` | Formats, paths inside archives, and how archives are listed, packed and unpacked |
| `cpu` | The host codecs, the chunk-parallel writer, the parallel reader, and what is read back of what was written |
| `gpu` | LZ77 tokens, Huffman codes, DEFLATE blocks and their decoding, and what a device is asked to do |
| `gzip` | The framing of gzip members |
| `hybrid`, `cli` | Host and device together, and what the command line decides |
| `error`, `progress`, `text` | Messages, events, and text |

Compression, decompression and archive libraries are called through a few functions with
stated contracts: in `cpu/streams.rs`, `cpu/parallel_decompress.rs`,
`cpu/backend.rs`, `gzip.rs`, and `archive/entry.rs`, `tar_list.rs`,
`zip_read.rs` and `sevenz_list.rs`. Everything else in `src/` is proved.

`app/` is the command line program: arguments, files, threads, the progress bar
and the device. `tests/` runs the library.

```sh
gpzip a out.tar.gz src/
gpzip x out.tar.gz -o dest/
gpzip l out.tar.gz
```

Paths inside archives have `/` between their parts. A tar archive may hold paths
that are not text: they are listed as they are stored.
