pub mod reverse_proxy;
pub mod static_file;
