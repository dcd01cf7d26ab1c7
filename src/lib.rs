//! Locates the stack region of each process and extracts its bytes from a
//! raw memory image.
pub mod region;
pub mod dump;
pub mod locator;
pub mod extract;
