# Cygshim

Cygshim provides native Windows shims for a few Cygwin programs (`git.exe`,
`latexmk.exe` and `pdflatex.exe`), so that applications that know nothing of
Cygwin can run them. Arguments cross into Cygwin unchanged, in numbered
environment variables, and paths in the output and in the files of TeX come back
in native form.

- `src/` is the library. It holds the decisions and computations, with contracts
  that Verus proves, and laws about them as public proof functions whose names
  begin with `law_`.
- `app/` is the program around it: arguments, environment, files, processes,
  threads and the calls into Windows.
- `tests/` exercises the library.

Paths and other strings of the operating system are byte strings in the encoding
of `std::ffi::OsStr`. The syntax of Windows paths is implemented in
`src/native_path.rs`, so that the library behaves the same wherever it is built.

What the proofs rest on, beyond Verus itself, is stated at the items that call
outside code: gzip compression by flate2 in `src/synctex_file.rs`, and the UTF-8
check of the standard library in `src/bash_search.rs`.
