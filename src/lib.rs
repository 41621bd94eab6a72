pub mod handshake;
pub mod pattern;
pub mod room;
pub mod session;
pub mod means_to_end;
pub mod mob_middle;
pub mod unusual_database_program;
pub mod primetime;
