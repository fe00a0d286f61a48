//! A soundboard's core logic: hotkey grammar, start-up configuration
//! checks, hotkey bookkeeping and the clip mixer.
pub mod config;
pub mod hotkey;
pub mod mixer;
pub mod registry;
