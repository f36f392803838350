//! Stitches reusable YAML snippets into base YAML templates: placeholder
//! strings of the form `SNIPPET_<key>` are replaced, recursively, by the
//! value registered under `<key>`, with cycle detection and one level of
//! sequence splicing.

pub mod value;
pub mod errors;
pub mod registry;
pub mod engine;
pub mod yaml;
pub mod driver;

pub use value::Value;
pub use errors::{Error, SnipFault};
pub use registry::{Registry, build_registry, snippet_entry};
pub use engine::substitute;
pub use driver::{run, check_modes, select_yaml_files, is_yaml_file_name, join_path,
    file_name_of, frame_output, substitute_documents};
