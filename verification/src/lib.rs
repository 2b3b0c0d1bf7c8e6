pub mod text;
pub mod glob;
pub mod ssh_config;
pub mod sync;
pub mod forward;
pub mod supervisor;
pub mod sftp;
