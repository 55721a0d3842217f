//! Layout engine that turns a validated 64-bit ELF image into a canonical
//! SGXS page stream, together with the small in-memory reader and writer
//! types used around it.

pub mod addr;
pub mod dynamic;
pub mod elf;
pub mod error;
pub mod io;
pub mod layout;
pub mod relocs;
pub mod sgx;
pub mod splice;
pub mod stream;
pub mod symbols;
