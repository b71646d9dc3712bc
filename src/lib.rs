//! A flat sequence of `(key, value)` pairs over a sequence of `(key, values)` groups:
//! every value comes out paired with a copy of its group's key, in order, from either end.
use vstd::prelude::*;

pub mod accumulate;
pub mod flat_zip;
pub mod group;
pub mod groups;
pub mod laws;

pub use flat_zip::FlatZip;
pub use group::Group;
pub use groups::Groups;

use flat_zip::flat_pairs;
use groups::source_views;

verus! {

/// Turns a sequence of `(key, values)` groups into its flat sequence of pairs.
pub trait FlatZipExt<K: Copy, V>: Sized {
    /// The pairs that the flat sequence holds.
    spec fn flat_view(&self) -> Seq<(K, V)>;

    fn flat_zip(self) -> (r: FlatZip<K, V>)
        ensures
            r@ == self.flat_view(),
    ;
}

impl<K: Copy, V> FlatZipExt<K, V> for Vec<(K, Vec<V>)> {
    open spec fn flat_view(&self) -> Seq<(K, V)> {
        flat_pairs(source_views(self@))
    }

    fn flat_zip(self) -> (r: FlatZip<K, V>) {
        FlatZip::new(self)
    }
}

} // verus!
