# firmware-parsers

Parsers for Android firmware containers (NB0, Unisoc PAC, MediaTek signed images,
OPPO ozip, Sony SIN/FTF, Amlogic burning images, Rockchip RKFW, QFIL packages, ZTE and
KDDI update zips), verified with Verus.

Layout:

- `src/` is the verified library. Each container format has a module that reads its
  headers and tables from byte buffers, decides which outputs to write and how to name
  them, and states all of this in `requires`/`ensures` contracts over spec functions.
  `bytes`, `text`, `order` and `plan` hold the shared byte, string, sorting/grouping and
  extraction-plan models; `archive`, `pattern` and a few functions in `text`, `ozip` and
  `pac`, `sparse` are the small trusted wrappers around `flate2`, `bzip2`, `tar`,
  `regex`, `aes`, `encoding_rs`, `android-sparse` and std.
- `app/` is the Python extension module (pyo3): it opens files and archives, hands the
  library plain values (file contents, zip member names, XML programs read with
  `quick-xml`), and carries out the plans it returns (streaming copies, writing decoded
  images).
- `tests/` runs the library on concrete inputs.
