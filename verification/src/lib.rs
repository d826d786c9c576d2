//! A scripted TCP proxy core: the record of the bytes that travel through a
//! proxied connection, the cursor that hands them to a script in order, the
//! decisions that the socket pump and the script bridge take, and the laws
//! that tie writes to reads.

pub mod direction;
pub mod connection_data;
pub mod laws;
pub mod sockets_handler;
pub mod proxy_parser;
pub mod script;
