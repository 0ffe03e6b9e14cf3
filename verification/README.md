# rusttalk

An object memory and bytecode interpreter for Smalltalk-80 images, written
in Verus: the library under `src/` is verified, `app/` is the program that
reads an image file and runs it.

- `om`, `allocation`, `gc`: the object table and object space, reference
  counting, allocation from free chunks, and the mark-and-rebuild collector.
- `snapshot`: loading an image from its bytes.
- `interp`, `send`, `bytecodes`: the interpreter's registers and stack,
  message sending through the method cache, and one step of the bytecode
  loop.
- `int_prim`, `sys_prim`, `mcache` and the other `*_prim` modules, with
  `prim_table`: the primitives.
- `laws`: properties that relate several operations.
