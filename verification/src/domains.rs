pub mod cpu;
pub mod memory;
pub mod process_hooks;
