# umbral_patcher

A verified library for IPS, UPS and BPS binary patches, written in Verus.

- `src/` is the library. Each format is parsed from the bytes of the patch
  file and applied to the bytes of the input file; the contracts state the
  result over the grammar of the format (`record_at`, `records_from`,
  `parse_spec`, `apply_spec` in each module).
  - `varint`: the variable-length integers of UPS and BPS.
  - `ips`, `ups`, `bps`: the three formats, with their laws at the end of
    each file.
  - `bytes`: the record byte buffer (a `smallvec::SmallVec`) and the
    fixed-width integers read with `byteorder`.
  - `message`: the text of an error.
  - `paths`: the patch format of a file extension and the output file name.
- `app/` is the command-line program: it reads and writes the files and
  prints the errors.
- `tests/` runs the library on concrete patches.
