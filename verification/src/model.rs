//! Model taxonomy shared by the microcanonical samplers.
pub mod family;
