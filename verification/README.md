# arx-utils

Command-line utilities for AUTOSAR ARXML files (`arx ls`, `arx cp`, `arx rm`,
`arx diff`), with their logic written and proved in Verus.

- `src/` is the verified library. The document is read once with
  `quick_xml` into a token stream (`xml`), from which the tree of named
  packages and elements (`tree`), the byte ranges of packages and elements
  (`range`) and the fields of elements (`fields`) are computed. The commands
  (`ls`, `cp`, `rm`, `diff`) take the document's bytes and return what is to
  be printed or written; every public function states its result exactly
  over spec functions of the token stream.
- `app/` reads and writes the files, parses the command line and prints.
- `tests/` runs the library on small documents.
