pub mod fs;
pub mod stacktrace;
pub mod sync;
pub mod syscall;
