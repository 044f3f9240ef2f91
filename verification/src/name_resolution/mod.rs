pub mod err;
pub mod export_types;
pub mod file_util;
pub mod resolve_types;
pub mod scope;
pub mod resolve;
pub mod waiting;
