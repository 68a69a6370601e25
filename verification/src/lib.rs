//! The logic of a desktop manager of terminal command tasks, which runs
//! commands locally or over SSH and keeps their output: reading host
//! aliases from an SSH client configuration, checking and storing tasks,
//! building the commands it starts, bounding captured output, and
//! registering tasks to start with the system.
pub mod autostart;
pub mod clock;
pub mod commands;
pub mod order;
pub mod output;
pub mod registry;
pub mod ssh_config;
pub mod tasks;
pub mod text;
