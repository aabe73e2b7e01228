pub mod vfs;
