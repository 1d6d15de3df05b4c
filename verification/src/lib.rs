//! Core of a Plookup-style lookup argument over the BLS12-381 scalar field:
//! multisets of scalars with sorting, halving, random-linear aggregation and
//! interpolation, and the lookup driver that reduces table membership of a
//! witness to a multiset-equality instance.

pub mod lookup;
pub mod multiset;
pub mod multiset_equality;
pub mod poly;
pub mod scalar;
