//! Domain layer: the design (observation columns plus coefficient-space layout).

pub mod access;
pub mod columns;
pub mod components;
pub mod cross_tab;
pub mod design;
pub mod effect;
pub mod factor_pairs;
pub mod local_domains;
pub mod local_matrix;
pub mod meaning;
pub mod ordering;
pub mod singletons;

pub use access::Channel;
pub use columns::{Loading, NonEmpty, TermMeta};
pub use design::{Design, DesignOptions};
pub use effect::Effect;
pub use ordering::{map_to_internal_order, stable_argsort};
pub use singletons::retained_non_singletons;
