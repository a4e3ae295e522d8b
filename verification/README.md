# bilbo

Fills in a value whose type is known only from the program's own debug
information. A pointer and a JSON text go in; the type behind the pointer is
found by unwinding to the caller, looking up which of its locals the pointer
aliases, and reading how that local's type is laid out.

The library under `src/` is verified with Verus. The program under `app/` is
what Verus cannot take: reading registers, files and memory maps, running
compiled code, and floating-point numbers.

## Finding the type

- `darwin`, `compact`, `adjust`, `unwind`, `frame` — from registers to the caller's frame.
- `load`, `die`, `leb128` — object files and their debug information.
- `index`, `locate` — the function at an address, and the local at a place.
- `classify`, `tuple`, `plan` — from debug information to a type's layout.
- `resolve` — what has been found is found once.
- `tramp` — functions that stand in for `BTreeMap`'s own.

## Filling it in

- `json`, `number`, `text`, `ascii` — documents, and parsing them.
- `document` — what is written down comes back when it is parsed.
- `interp` — the writes that lay a document out as a type.
- `scan`, `read` — reading raw text as a type, without a document in between.
- `memory` — what writes leave in memory; laying a document out leaves it there.
- `written`, `reading`, `complete` — reading raw text comes to something, and
  leaves the document that the text writes down; laying that document out comes to
  something too.
- `bounds` — no write goes outside the value or outside its block.

## Compiling

- `ir` — code for a small machine, and what it does.
- `tidy` — code as it is built has what handing it over takes.
- `binder` — code that does what `interp` lists.
- `parser`, with `cursor`, `span`, `keys`, `digits`, `leaf`, `nodes`, `members`,
  `arrays`, `maps` and `steps` — code that does what `read` comes to. Only this
  code builds maps, through the functions that `tramp` finds.
- `fills` — what such code leaves in memory.
- `lower`, `jit` — handing code over to cranelift.
- `jitdump` — the records that tell a profiler about compiled code.

Public proof functions whose names begin with `law_` state what holds across
functions.
