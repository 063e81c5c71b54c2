pub mod embed;
pub mod extract;
pub mod header;
pub mod laws;
pub mod layout;
