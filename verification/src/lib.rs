//! Integer core of a TFHE bootstrapping layer: gadget decomposition,
//! negacyclic rotations, CMux selection, the blind-rotation state machine
//! and identity key switching, all over the discretised torus `u32`.
pub mod params;
pub mod torus;
pub mod tlwe;
pub mod trlwe;
pub mod key;
pub mod rotation;
pub mod gadget;
pub mod keyswitch;
pub mod trgsw;

