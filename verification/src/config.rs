//! The compiler configuration produced by the `create-config` command:
//! the pure defaulting logic, ready to be serialized and written out by
//! the host binary.

use vstd::prelude::*;
use crate::opt::CreateConfigFileCommand;

verus! {

#[derive(Debug, PartialEq, Eq)]
pub struct CompilerConfig {
    pub project_root: String,
    pub artifact_directory: String,
    pub schema: String,
    pub schema_extensions: Vec<String>,
}

/// Prepares a proper `CompilerConfig` from the command parameters: the
/// artifact directory defaults to the project root, and absent schema
/// extensions default to none.
pub fn populate_config(create_config_file_command: CreateConfigFileCommand) -> (config:
    CompilerConfig)
    ensures
        config.project_root == create_config_file_command.project_root,
        config.schema == create_config_file_command.schema,
        match create_config_file_command.artifact_directory {
            Some(a) => config.artifact_directory == a,
            None => config.artifact_directory@ == create_config_file_command.project_root@,
        },
        match create_config_file_command.schema_extensions {
            Some(e) => config.schema_extensions == e,
            None => config.schema_extensions@.len() == 0,
        },
{
    let project_root = create_config_file_command.project_root;
    let artifact_directory = match create_config_file_command.artifact_directory {
        Some(a) => a,
        None => project_root.clone(),
    };
    let config = CompilerConfig {
        project_root,
        artifact_directory,
        schema: create_config_file_command.schema,
        schema_extensions: match create_config_file_command.schema_extensions {
            Some(e) => e,
            None => Vec::new(),
        },
    };
    config
}

} // verus!
