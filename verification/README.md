# fauxgen_core

Reads the class definitions of a Python package (which classes there are, in
which files, and the resolved ids of their parent classes) and plans where the
generated factory modules for those classes are written.

Layout:

- `src/` — the library, verified with Verus:
  - `strings.rs`: dotted names, `ClassIDExt::class_name`;
  - `path.rs`: paths as component lists (parent, strip-prefix, join, extensions);
  - `assoc.rs`: finite maps kept as lists of distinct keys;
  - `imports.rs`: per-file import bookkeeping (`FileImports`) and module names of paths;
  - `visitor.rs`: `ClassVisitor`, class ids, parent resolution, the search for
    classes deriving from a base class;
  - `generator.rs`: how factory code is put together and the steps that write it;
  - `parse.rs`: parsing Python source with `rustpython-parser`;
  - `laws.rs`: properties that span several operations.
- `app/` — filesystem walking, the parser's statement visitor, and running
  the write steps.
- `tests/` — tests of the library.
