# lib

Primitives of a small Scheme virtual machine, verified with Verus.

The machine keeps all of its data in a heap of cells, each with a car and a
cdr, and its stack as a list in that heap. Bytevectors and strings are lists
of integers; a bytevector's elements are held in a tree of lists with 64
children per node, so that an element is found by descending the tree by the
base-64 digits of its index.

## Layout

- `src/value.rs`, `src/memory.rs`: values, errors and the heap with its stack.
- `src/list.rs`, `src/list_vector.rs`: lists, and lookups and cursors in tree
  vectors.
- `src/tree.rs`, `src/filled.rs`: building filled tree vectors
  (`make-bytevector`).
- `src/bytevector.rs`, `src/copy.rs`: reading and writing bytevector elements
  (`bytevector-copy!`).
- `src/codec.rs`, `src/small.rs`, `src/decode.rs`: UTF-8 encoding and decoding
  of code point lists and bytevectors.
- `src/string.rs`: strings (`make-string`, copying code points).
- `src/file.rs`: the file primitives over a `FileSystem` that users provide.
- `src/primitive_set.rs`: the primitive set that dispatches all of the above.
- `app/`: a `FileSystem` on the operating system's files.

Every primitive states in its contract the result and the heap it leaves,
with these limits: the bytevector and encoding primitives are stated on
well-formed bytevector trees that do not share cells with their other
arguments, and the heap has a fixed capacity and no garbage collector, so
that a full heap is reported as `OutOfMemory`.

The file primitives work through a `FileSystem` that the user provides.
Each of its operations has a spec function (`opens`, `closes`, `reads`,
`writes`, ...) that an implementation may define to say what the operation
does; by default these claim nothing. The contracts of the file primitives
say which operation is called, with which arguments (the descriptor, the
decoded path and flag, the chunks of a bulk transfer in order), and what
is pushed for what it returns, in terms of those spec functions. The
default `read_into` and `write_from` are stated as the sequence of `read`
and `write` calls they make.

The arithmetic primitives and the primitive groups of type checks, lists,
equality, devices, the process context, time and inexact numbers are not
part of this library: their meaning lives in crates of the machine that it
does not have.
