# pycycle

Finds import cycles in a Python project: it reads the import statements of every module, builds the
import graph, searches it for cycles, and reports them together with the degrees of the modules and
a drawing of the graph in the DOT language. It exits with status 1 where there is a cycle.

- `src/` is the library, verified with Verus.
  - `text`, `names`, `paths`: texts, ordered maps by name, and the paths of files.
  - `scan`: which directories are searched and which files are taken.
  - `imports`, `resolve`, `dependencies`: import statements, the modules they refer to, and the
    dependencies of each module.
  - `graph`, `import_graph`: the graph and how it is built.
  - `rotation`, `search`, `cycles`: canonical forms of cycles, what the search reports and why, and
    the search itself.
  - `report`, `analysis`: the texts of the report, and the analysis of a whole project.
- `app/` is the command line tool: arguments, the walk over the file system, reading and printing.
- `tests/` are the tests of the library.

The laws that the library promises are the public proof functions whose names start with `law_`.
Calls into `petgraph`, `regex`, `comfy-table` and the standard library stand behind small functions
marked `external_body`; the comment above each says what is taken for granted of it.
