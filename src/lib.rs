//! A hierarchical sphere index: the zuniq cell code, a range-coded coverage
//! index with set algebra, hierarchy helpers and bulk dispatch planning.

pub mod zuniq;
pub mod moc_index;
pub mod slices;
pub mod hierarchy;
pub mod dispatch;
pub mod ellipsoid;
