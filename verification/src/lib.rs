//! An ordered sequence stored in a balanced tree whose nodes cache a
//! monoidal summary of their contents.  Edits share unchanged subtrees
//! between the old and the new value of the tree.

pub mod algebra;
pub mod cursor;
pub mod integers;
pub mod iter;
pub mod tree;

pub use algebra::Dimension;
pub use algebra::Item;
pub use algebra::Summary;
pub use cursor::Cursor;
pub use cursor::SeekBias;
pub use iter::Iter;
pub use tree::Node;
pub use tree::Tree;
