//! Scheme parameters.
pub mod tlwe_lv0;
pub mod tlwe_lv1;
pub mod trgsw_lv1;
