//! Collections whose items are grouped into disjoint *classes*.
//!
//! [`DisjointVec`] is an array-backed union-find forest: every inserted
//! element gets a permanent numeric identifier, and classes of elements can
//! be merged while their attached values are combined by a caller-supplied
//! function. [`DisjointHashMap`] layers a key-to-identifier index in front
//! of the forest for lookups by key.

mod forest;
mod keyed;

pub use forest::Classes;
pub use forest::DisjointVec;
pub use forest::IntoClasses;
pub use forest::Item;
pub use keyed::DisjointHashMap;
