pub mod annotations;
pub mod class;
pub mod enumclass;
pub mod interface;
pub mod type_body;
pub mod util;
