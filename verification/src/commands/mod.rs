//! The three commands: listing, describing and running playbooks.

pub mod describe;
pub mod list;
pub mod run;

pub use describe::call_describe;
pub use list::call_list;
pub use run::call_run;
