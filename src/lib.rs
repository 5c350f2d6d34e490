//! Layout descriptors for types shared between separately compiled modules,
//! a structural compatibility checker over them, and the handshake that gates
//! the use of a dynamically loaded module.
pub mod abi_checking;
pub mod compatibility;
pub mod lib_header;
pub mod tagging;
pub mod type_layout;
pub mod version;
