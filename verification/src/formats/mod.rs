pub mod json;
pub mod env;
pub mod headers;
pub mod text;
pub mod logfmt;
pub mod csv_format;
pub mod yaml;
pub mod toml_format;
