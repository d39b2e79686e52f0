//! Firmware update logic for a laptop embedded controller (EC): the flash
//! protocol driver that unlocks, reads, erases and writes the EC's flash
//! array, and the policy that decides whether an update may run and checks
//! every stage of it.
pub mod registers;
pub mod flasher;
pub mod image;
pub mod update;
pub mod memory;
