//! A tiered-vector container: a dynamically resizable sequence offering
//! constant-time random access together with O(sqrt(n)) insertion and
//! removal at arbitrary positions, after the data structure of Goodrich
//! and Kloss. The sequence is kept as an ordered list of fixed-capacity
//! circular buffers ("blocks"); all blocks are full except possibly the
//! last one.

mod block;
mod blocks;
mod iter;
mod laws;
mod tiered;

pub use block::CyclicArray;
pub use iter::{VectorIntoIter, VectorIter};
pub use laws::{front_inserted, lemma_front_insert_reverses, lemma_insert_to_multiset, lemma_remove_insert_preserves_multiset};
pub use tiered::Vector;
