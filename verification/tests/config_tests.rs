use isograph::config::populate_config;
use isograph::opt::{Command, Opt};

fn parse(args: &[&str]) -> Result<Opt, isograph::opt::OptParseError> {
    let args: Vec<String> = args.iter().map(|a| a.to_string()).collect();
    Opt::try_parse_from(&args)
}

#[test]
fn config_location_default_is_root() {
    let config = parse(&["isograph", "create-config", "--schema", "./src/schema.graphql"])
        .unwrap();

    if let Some(Command::CreateConfig(create_config_file_command)) = config.command {
        assert_eq!(create_config_file_command.config, "./");
    }
}

#[test]
fn schema_is_required() {
    assert!(parse(&["isograph", "create-config"]).is_err());
}

#[test]
fn project_root_default_is_correct() {
    let config = parse(&["isograph", "create-config", "--schema", "./src/schema.graphql"])
        .unwrap();

    if let Some(Command::CreateConfig(create_config_file_command)) = config.command {
        let compiler_config = populate_config(create_config_file_command);

        assert_eq!(compiler_config.project_root, "./src/components");
    }
}

#[test]
fn artifact_directory_is_project_root_if_not_provided() {
    let config = parse(&[
        "isograph",
        "create-config",
        "--schema",
        "./src/schema.graphql",
        "--project-root",
        "./src/components",
    ])
    .unwrap();

    if let Some(Command::CreateConfig(create_config_file_command)) = config.command {
        let compiler_config = populate_config(create_config_file_command);

        assert_eq!(compiler_config.artifact_directory, compiler_config.project_root);
    }
}

#[test]
fn create_config_parses_every_option() {
    let config = parse(&[
        "isograph",
        "create-config",
        "--schema",
        "schema.graphql",
        "--config",
        "cfg/",
        "--project-root",
        "root/",
        "--artifact-directory",
        "artifacts/",
        "--schema-extensions",
        "ext1.graphql",
        "--schema-extensions",
        "ext2.graphql",
    ])
    .unwrap();

    match config.command {
        Some(Command::CreateConfig(c)) => {
            assert_eq!(c.schema, "schema.graphql");
            assert_eq!(c.config, "cfg/");
            assert_eq!(c.project_root, "root/");
            assert_eq!(c.artifact_directory.as_deref(), Some("artifacts/"));
            assert_eq!(
                c.schema_extensions,
                Some(vec!["ext1.graphql".to_string(), "ext2.graphql".to_string()])
            );
        }
        other => panic!("expected create-config, got {:?}", other),
    }
}

#[test]
fn flag_without_value_is_rejected() {
    let err = parse(&["isograph", "create-config", "--schema"]).unwrap_err();
    assert_eq!(
        err,
        isograph::opt::OptParseError::MissingValue { flag: "--schema".to_string() }
    );
}

#[test]
fn unknown_argument_is_rejected() {
    let err = parse(&["isograph", "create-config", "--nope"]).unwrap_err();
    assert_eq!(
        err,
        isograph::opt::OptParseError::UnexpectedArgument { argument: "--nope".to_string() }
    );
}

#[test]
fn bare_arguments_parse_as_compile() {
    let opt = parse(&["isograph", "--watch"]).unwrap();
    assert!(opt.command.is_none());
    assert!(opt.compile.watch);
    assert!(opt.compile.config.is_none());
}

#[test]
fn lsp_subcommand_takes_config() {
    let opt = parse(&["isograph", "lsp", "--config", "my.json"]).unwrap();
    match opt.command {
        Some(Command::Lsp(l)) => assert_eq!(l.config.as_deref(), Some("my.json")),
        other => panic!("expected lsp, got {:?}", other),
    }
}

#[test]
fn populate_config_keeps_explicit_artifact_directory() {
    let cmd = isograph::opt::CreateConfigFileCommand {
        config: "./".to_string(),
        project_root: "root/".to_string(),
        artifact_directory: Some("elsewhere/".to_string()),
        schema: "schema.graphql".to_string(),
        schema_extensions: None,
    };
    let config = populate_config(cmd);
    assert_eq!(config.artifact_directory, "elsewhere/");
    assert_eq!(config.project_root, "root/");
    assert_eq!(config.schema, "schema.graphql");
    assert!(config.schema_extensions.is_empty());
}

#[test]
fn missing_schema_error_is_named() {
    let err = parse(&["isograph", "create-config", "--config", "./"]).unwrap_err();
    assert_eq!(err, isograph::opt::OptParseError::MissingSchema);
}
