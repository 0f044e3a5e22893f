# archive_engine

AbyssC's archive engine, with its logic proved by Verus.

- `src/` is the verified library. The codecs' heavy lifting (zstd, gzip, xz,
  bzip2, brotli, lz4, zip, tar, 7z, rar, ISO-9660) stays with their crates; what
  is proved here is everything the engine decides around them:
  - `ans_model`, `ans`: the ANS entropy coder and its block/stream format, with
    the round-trip (`decode(encode(data)) == data`) proved;
  - `crypto`: the chunked ChaCha20-Poly1305 STREAM format (Argon2id key,
    header, records), with "a reader opens what a writer sealed" proved over the
    cipher's contract;
  - `abyss`: the `.abyss` container (header, ANS payload, optional seal);
  - `format`, `codec`, `listing`, `members`, `compress`, `util`: format
    detection, levels, listings, member paths and input checks;
  - `browser`, `gui`, `launch`, `archive_kind`, `update`, `single_instance`: the
    windowed front-end's state machine (every message, its next state and the
    action the caller performs), the Commander, launch handling, release checks
    and the hand-off of paths between launches.
- `tests/` runs the library with the real outside crates linked.
- `app/` is the `abyssc` command line and the file-system, codec-stream and
  system chores around the library.
