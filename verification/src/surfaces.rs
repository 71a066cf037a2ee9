pub mod console;
pub mod findings;
pub mod overview;
pub mod process;
pub mod security;
