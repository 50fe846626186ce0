//! Append-only configuration merging for a dedicated game server: a JSON
//! value model, its deep merge, and the rules that turn environment
//! variables into JSON fragments.

pub mod json;
pub mod merge;
pub mod merge_laws;
pub mod path;
pub mod env_value;
pub mod settings;
pub mod server_settings;
pub mod report;
pub mod launch;
pub mod settings_laws;
pub mod json_text;
pub mod equiv;
