# agz

A verified archiver for files with interleaved channels or rows of pixels, such as raw
audio, telemetry and bitmaps. Bytes are replaced by their differences from a prediction
before Zstandard compresses them.

* `src/` is the library. Its contracts are proved with Verus; they lead up to
  `archive::unpacking_undoes_packing`, which says that unpacking an archive gives back
  every file that was packed into it.
* `app/` is the command line: `agz pack <folder_or_file> <output.agz>` and
  `agz unpack <input.agz> <output_folder>`. It walks directories, reads and writes files,
  and computes entropies, which are floating-point numbers.
* `tests/` runs the library on concrete files and archives.
