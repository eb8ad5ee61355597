//! The rules of the Linux backend: which system calls are intercepted, what each
//! of them does to a guest path, and how an attempt to install the view starts
//! and ends.

pub mod calls;
pub mod conduct;
pub mod dispatch;
pub mod execute;
pub mod listing;
pub mod plan;
pub mod platform;
pub mod process;
pub mod progress;
pub mod protocol;
pub mod remote;
pub mod seccomp;
pub mod setup;
pub mod startup;
pub mod state;
pub mod status;
