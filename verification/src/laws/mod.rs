//! What holds of the kernel as a whole, across its calls.
pub mod access;
pub mod always;
pub mod calls;
pub mod choices;
pub mod console;
pub mod delivery;
pub mod endings;
pub mod exchange;
pub mod grants;
pub mod handles;
pub mod holdings;
pub mod interrupts;
pub mod isolation;
pub mod joining;
pub mod loading;
pub mod mappings;
pub mod memory;
pub mod messages;
pub mod monitor;
pub mod numbers;
pub mod platforms;
pub mod provision;
pub mod resources;
pub mod runtime;
pub mod scheduling;
pub mod spaces;
pub mod start;
pub mod stillness;
pub mod threads;
pub mod trees;
pub mod turns;
