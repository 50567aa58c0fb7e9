use vstd::prelude::*;

pub mod config;
pub mod ingest;
pub mod output;
pub mod text;
pub mod ty;
pub mod value;

pub use config::{Config, ConfigItem, NamedTable, GLOBAL_TABLE_NAME};
pub use config::parse_config_write_cmd;
pub use output::{Output, OutputFormat};
pub use ty::ConfigType;
pub use value::{ConfigValue, RawValue};

verus! {

/// Errors reported by the configuration engine.
#[derive(Debug)]
pub enum ConfigErr {
    /// The source text could not be parsed as TOML.
    Parse(String),
    /// A value holds an unsupported kind (float, date, inline table, ...).
    InvalidValue,
    /// A type expression is syntactically malformed.
    InvalidType,
    /// A value does not satisfy a declared or expected type; carries the
    /// offending key (empty where no key is in play) and the text of the
    /// expected type.
    ValueTypeMismatch(String, String),
    /// Merge found a key that both sides define.
    DuplicateKey(String),
    /// A named table was created twice.
    DuplicateTable(String),
    /// A point-write addressed a nonexistent item.
    NotFound,
    /// Any other error, with a message.
    Other(String),
}

pub type ConfigResult<T> = Result<T, ConfigErr>;

} // verus!
