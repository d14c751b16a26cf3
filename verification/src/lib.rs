//! Verified core of a small Scheme virtual machine: a cons-cell heap, the
//! list-backed tree vectors that hold bytevectors, UTF-8 coding of code
//! point lists, and the primitives that operate on them.

pub mod value;
pub mod memory;
pub mod list;
pub mod list_vector;
pub mod codec;
pub mod bytevector;
pub mod small;
pub mod decode;
pub mod copy;
pub mod string;
pub mod file;
pub mod filled;
pub mod primitive_set;
pub mod tree;
