//! Settings logic of a privacy front end: which preference cookies a
//! settings request sets or removes, where it redirects, and how an
//! exported preferences blob is unpacked.

pub mod text;
pub mod decimal;
pub mod form;
pub mod chunks;
pub mod cookies;
pub mod settings;
pub mod export;
