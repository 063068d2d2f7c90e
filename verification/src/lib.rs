pub mod domain;
pub mod json;
pub mod json_laws;
pub mod laws;
pub mod pipeline;
pub mod resolve;
