//! The command-line surface: the option types and the argument grammar.
//! `compile` doubles as the default subcommand; `create-config` carries
//! defaults for everything but the schema path, which is required.

use vstd::prelude::*;

verus! {

#[derive(Debug, PartialEq, Eq)]
pub struct Opt {
    pub command: Option<Command>,
    pub compile: CompileCommand,
}

#[derive(Debug, PartialEq, Eq)]
pub enum Command {
    Compile(CompileCommand),
    Lsp(LspCommand),
    CreateConfig(CreateConfigFileCommand),
}

/// Compile.
#[derive(Debug, PartialEq, Eq)]
pub struct CompileCommand {
    pub watch: bool,
    /// Compile using this config file. If not provided, searches for a
    /// config in package.json under the `isograph` key.
    pub config: Option<String>,
}

/// The language server.
#[derive(Debug, PartialEq, Eq)]
pub struct LspCommand {
    pub config: Option<String>,
}

/// Command to create the isograph config file.
#[derive(Debug, PartialEq, Eq)]
pub struct CreateConfigFileCommand {
    /// The location to place the config file that will be created.
    pub config: String,
    /// The value to use in the `project_root` field.
    pub project_root: String,
    /// The value to use in the `artifact_directory` field; defaults to
    /// the project root.
    pub artifact_directory: Option<String>,
    /// The path to the schema file.
    pub schema: String,
    /// The paths to the schema extension files.
    pub schema_extensions: Option<Vec<String>>,
}

#[derive(Debug, PartialEq, Eq)]
pub enum OptParseError {
    MissingSchema,
    MissingValue { flag: String },
    UnexpectedArgument { argument: String },
}

/// Some argument at or after `start` is the given flag.
pub open spec fn suffix_has(args: Seq<String>, start: int, flag: Seq<char>) -> bool {
    exists|j: int| start <= j < args.len() && (#[trigger] args[j])@ == flag
}

/// The flags of `create-config`; each takes one value.
pub open spec fn cc_flag(a: Seq<char>) -> bool {
    ||| a == "--config"@
    ||| a == "--project-root"@
    ||| a == "--artifact-directory"@
    ||| a == "--schema"@
    ||| a == "--schema-extensions"@
}

/// The `create-config` grammar: an alternation of known flags, each
/// followed by a value.
pub open spec fn cc_args_ok(args: Seq<String>, i: int) -> bool
    decreases args.len() - i,
    when 0 <= i <= args.len()
{
    if i >= args.len() {
        true
    } else if cc_flag(args[i]@) {
        i + 2 <= args.len() && cc_args_ok(args, i + 2)
    } else {
        false
    }
}

/// The given flag occurs at a flag position of the alternation.
pub open spec fn cc_flag_given(args: Seq<String>, i: int, flag: Seq<char>) -> bool
    decreases args.len() - i,
    when 0 <= i <= args.len()
{
    if i >= args.len() {
        false
    } else if args[i]@ == flag {
        true
    } else if cc_flag(args[i]@) && i + 2 <= args.len() {
        cc_flag_given(args, i + 2, flag)
    } else {
        false
    }
}

/// The value the given flag adopts: the one after its last occurrence
/// at a flag position.
pub open spec fn cc_flag_value(args: Seq<String>, i: int, flag: Seq<char>) -> Option<Seq<char>>
    decreases args.len() - i,
    when 0 <= i <= args.len()
{
    if i >= args.len() {
        None
    } else if cc_flag(args[i]@) && i + 2 <= args.len() {
        let rest = cc_flag_value(args, i + 2, flag);
        if args[i]@ == flag {
            match rest {
                Some(v) => Some(v),
                None => Some(args[i + 1]@),
            }
        } else {
            rest
        }
    } else {
        None
    }
}

/// The `compile`/`lsp` grammar: `--watch` stands alone, `--config`
/// takes a value, and for `lsp` only `--config` is known.
pub open spec fn co_flag_arity(a: Seq<char>, watch_known: bool) -> Option<int> {
    if a == "--watch"@ && watch_known {
        Some(1)
    } else if a == "--config"@ {
        Some(2)
    } else {
        None
    }
}

pub open spec fn co_args_ok(args: Seq<String>, i: int, watch_known: bool) -> bool
    decreases args.len() - i,
    when 0 <= i <= args.len()
{
    if i >= args.len() {
        true
    } else {
        match co_flag_arity(args[i]@, watch_known) {
            Some(k) => i + k <= args.len() && co_args_ok(args, i + k, watch_known),
            None => false,
        }
    }
}

pub open spec fn co_watch_on(args: Seq<String>, i: int) -> bool
    decreases args.len() - i,
    when 0 <= i <= args.len()
{
    if i >= args.len() {
        false
    } else {
        match co_flag_arity(args[i]@, true) {
            Some(k) => args[i]@ == "--watch"@ || (i + k <= args.len() && co_watch_on(args, i + k)),
            None => false,
        }
    }
}

pub open spec fn co_config_value(args: Seq<String>, i: int, watch_known: bool) -> Option<Seq<char>>
    decreases args.len() - i,
    when 0 <= i <= args.len()
{
    if i >= args.len() {
        None
    } else {
        match co_flag_arity(args[i]@, watch_known) {
            Some(k) => {
                if i + k <= args.len() {
                    let rest = co_config_value(args, i + k, watch_known);
                    if args[i]@ == "--config"@ {
                        match rest {
                            Some(v) => Some(v),
                            None => Some(args[i + 1]@),
                        }
                    } else {
                        rest
                    }
                } else {
                    None
                }
            },
            None => None,
        }
    }
}

/// The defaults of `create-config`: `--config` defaults to `./`,
/// `--project-root` to `./src/components`, the artifact directory to
/// absent, and `--schema` must have been given.
pub open spec fn create_config_defaults(
    c: CreateConfigFileCommand,
    args: Seq<String>,
    start: int,
) -> bool {
    &&& !suffix_has(args, start, "--config"@) ==> c.config@ == "./"@
    &&& !suffix_has(args, start, "--project-root"@) ==> c.project_root@ == "./src/components"@
    &&& !suffix_has(args, start, "--artifact-directory"@) ==> c.artifact_directory is None
    &&& suffix_has(args, start, "--schema"@)
}

/// The values a parsed `create-config` command adopts: each field holds
/// its flag's last given value, or its default.
pub open spec fn create_config_values(
    c: CreateConfigFileCommand,
    args: Seq<String>,
    start: int,
) -> bool {
    &&& cc_flag_value(args, start, "--schema"@) matches Some(v) && c.schema@ == v
    &&& c.config@ == match cc_flag_value(args, start, "--config"@) {
        Some(v) => v,
        None => "./"@,
    }
    &&& c.project_root@ == match cc_flag_value(args, start, "--project-root"@) {
        Some(v) => v,
        None => "./src/components"@,
    }
    &&& (match c.artifact_directory {
        Some(ad) => Some(ad@),
        None => None,
    }) == cc_flag_value(args, start, "--artifact-directory"@)
}


#[verifier::loop_isolation(false)]
fn parse_create_config_file_command(args: &Vec<String>, start: usize) -> (r: Result<
    CreateConfigFileCommand,
    OptParseError,
>)
    requires
        start <= args@.len(),
    ensures
        !suffix_has(args@, start as int, "--schema"@) ==> r is Err,
        r matches Ok(c) ==> create_config_defaults(c, args@, start as int),
        r is Ok <==> cc_args_ok(args@, start as int) && cc_flag_given(
            args@,
            start as int,
            "--schema"@,
        ),
        r matches Ok(c) ==> create_config_values(c, args@, start as int),
{
    // The flag literals are pairwise distinct; the loop's grammar
    // unfoldings rely on it.
    proof {
        reveal_strlit("--config");
        reveal_strlit("--project-root");
        reveal_strlit("--artifact-directory");
        reveal_strlit("--schema");
        reveal_strlit("--schema-extensions");
        assert("--config"@.len() == 8);
        assert("--project-root"@.len() == 14);
        assert("--artifact-directory"@.len() == 20);
        assert("--schema"@.len() == 8);
        assert("--schema-extensions"@.len() == 19);
        assert("--config"@ != "--project-root"@);
        assert("--config"@ != "--artifact-directory"@);
        assert("--config"@[2] == 'c');
        assert("--schema"@[2] == 's');
        assert("--config"@ != "--schema"@);
        assert("--config"@ != "--schema-extensions"@);
        assert("--project-root"@ != "--artifact-directory"@);
        assert("--project-root"@ != "--schema"@);
        assert("--project-root"@ != "--schema-extensions"@);
        assert("--artifact-directory"@ != "--schema"@);
        assert("--artifact-directory"@ != "--schema-extensions"@);
        assert("--schema"@ != "--schema-extensions"@);
    }
    let flag_config = String::from_str("--config");
    let flag_project_root = String::from_str("--project-root");
    let flag_artifact_directory = String::from_str("--artifact-directory");
    let flag_schema = String::from_str("--schema");
    let flag_schema_extensions = String::from_str("--schema-extensions");

    let n = args.len();
    let mut i: usize = start;
    let mut config: Option<String> = None;
    let mut project_root: Option<String> = None;
    let mut artifact_directory: Option<String> = None;
    let mut schema: Option<String> = None;
    let mut schema_extensions: Option<Vec<String>> = None;

    while i < n
        invariant
            start <= i <= n,
            n == args@.len(),
            config is Some ==> suffix_has(args@, start as int, "--config"@),
            project_root is Some ==> suffix_has(args@, start as int, "--project-root"@),
            artifact_directory is Some ==> suffix_has(args@, start as int, "--artifact-directory"@),
            schema is Some ==> suffix_has(args@, start as int, "--schema"@),
            cc_args_ok(args@, start as int) == cc_args_ok(args@, i as int),
            cc_flag_given(args@, start as int, "--schema"@) == (cc_flag_given(
                args@,
                i as int,
                "--schema"@,
            ) || schema is Some),
            cc_flag_value(args@, start as int, "--schema"@) == (match cc_flag_value(
                args@,
                i as int,
                "--schema"@,
            ) {
                Some(v) => Some(v),
                None => match schema {
                    Some(x) => Some(x@),
                    None => None,
                },
            }),
            cc_flag_value(args@, start as int, "--config"@) == (match cc_flag_value(
                args@,
                i as int,
                "--config"@,
            ) {
                Some(v) => Some(v),
                None => match config {
                    Some(x) => Some(x@),
                    None => None,
                },
            }),
            cc_flag_value(args@, start as int, "--project-root"@) == (match cc_flag_value(
                args@,
                i as int,
                "--project-root"@,
            ) {
                Some(v) => Some(v),
                None => match project_root {
                    Some(x) => Some(x@),
                    None => None,
                },
            }),
            cc_flag_value(args@, start as int, "--artifact-directory"@) == (match cc_flag_value(
                args@,
                i as int,
                "--artifact-directory"@,
            ) {
                Some(v) => Some(v),
                None => match artifact_directory {
                    Some(x) => Some(x@),
                    None => None,
                },
            }),
            flag_config@ == "--config"@,
            flag_project_root@ == "--project-root"@,
            flag_artifact_directory@ == "--artifact-directory"@,
            flag_schema@ == "--schema"@,
            flag_schema_extensions@ == "--schema-extensions"@,
        decreases n - i,
    {
        let arg = &args[i];
        if *arg == flag_config {
            if i + 1 < n {
                config = Some(args[i + 1].clone());
                i = i + 2;
            } else {
                return Err(OptParseError::MissingValue { flag: arg.clone() });
            }
        } else if *arg == flag_project_root {
            if i + 1 < n {
                project_root = Some(args[i + 1].clone());
                i = i + 2;
            } else {
                return Err(OptParseError::MissingValue { flag: arg.clone() });
            }
        } else if *arg == flag_artifact_directory {
            if i + 1 < n {
                artifact_directory = Some(args[i + 1].clone());
                i = i + 2;
            } else {
                return Err(OptParseError::MissingValue { flag: arg.clone() });
            }
        } else if *arg == flag_schema {
            if i + 1 < n {
                schema = Some(args[i + 1].clone());
                i = i + 2;
            } else {
                return Err(OptParseError::MissingValue { flag: arg.clone() });
            }
        } else if *arg == flag_schema_extensions {
            if i + 1 < n {
                let value = args[i + 1].clone();
                schema_extensions = match schema_extensions {
                    Some(mut v) => {
                        v.push(value);
                        Some(v)
                    },
                    None => {
                        let mut v: Vec<String> = Vec::new();
                        v.push(value);
                        Some(v)
                    },
                };
                i = i + 2;
            } else {
                return Err(OptParseError::MissingValue { flag: arg.clone() });
            }
        } else {
            return Err(OptParseError::UnexpectedArgument { argument: arg.clone() });
        }
    }

    let schema = match schema {
        Some(s) => s,
        None => {
            return Err(OptParseError::MissingSchema);
        },
    };
    Ok(CreateConfigFileCommand {
        config: match config {
            Some(c) => c,
            None => String::from_str("./"),
        },
        project_root: match project_root {
            Some(p) => p,
            None => String::from_str("./src/components"),
        },
        artifact_directory,
        schema,
        schema_extensions,
    })
}

#[verifier::loop_isolation(false)]
fn parse_compile_command(args: &Vec<String>, start: usize) -> (r: Result<
    CompileCommand,
    OptParseError,
>)
    requires
        start <= args@.len(),
    ensures
        r matches Ok(c) ==> {
            &&& !suffix_has(args@, start as int, "--watch"@) ==> c.watch == false
            &&& !suffix_has(args@, start as int, "--config"@) ==> c.config is None
        },
        r is Ok <==> co_args_ok(args@, start as int, true),
        r matches Ok(c) ==> c.watch == co_watch_on(args@, start as int) && (match c.config {
            Some(s) => Some(s@),
            None => None,
        }) == co_config_value(args@, start as int, true),
{
    proof {
        reveal_strlit("--watch");
        reveal_strlit("--config");
        assert("--watch"@.len() == 7);
        assert("--config"@.len() == 8);
    }
    let flag_watch = String::from_str("--watch");
    let flag_config = String::from_str("--config");
    let n = args.len();
    let mut i: usize = start;
    let mut watch = false;
    let mut config: Option<String> = None;
    while i < n
        invariant
            start <= i <= n,
            n == args@.len(),
            watch ==> suffix_has(args@, start as int, "--watch"@),
            config is Some ==> suffix_has(args@, start as int, "--config"@),
            co_args_ok(args@, start as int, true) == co_args_ok(args@, i as int, true),
            co_watch_on(args@, start as int) == (co_watch_on(args@, i as int) || watch),
            co_config_value(args@, start as int, true) == (match co_config_value(
                args@,
                i as int,
                true,
            ) {
                Some(v) => Some(v),
                None => match config {
                    Some(x) => Some(x@),
                    None => None,
                },
            }),
            flag_watch@ == "--watch"@,
            flag_config@ == "--config"@,
        decreases n - i,
    {
        let arg = &args[i];
        if *arg == flag_watch {
            watch = true;
            i = i + 1;
        } else if *arg == flag_config {
            if i + 1 < n {
                config = Some(args[i + 1].clone());
                i = i + 2;
            } else {
                return Err(OptParseError::MissingValue { flag: arg.clone() });
            }
        } else {
            return Err(OptParseError::UnexpectedArgument { argument: arg.clone() });
        }
    }
    Ok(CompileCommand { watch, config })
}

#[verifier::loop_isolation(false)]
fn parse_lsp_command(args: &Vec<String>, start: usize) -> (r: Result<LspCommand, OptParseError>)
    requires
        start <= args@.len(),
    ensures
        r matches Ok(c) ==> (!suffix_has(args@, start as int, "--config"@) ==> c.config is None),
        r is Ok <==> co_args_ok(args@, start as int, false),
        r matches Ok(c) ==> (match c.config {
            Some(s) => Some(s@),
            None => None,
        }) == co_config_value(args@, start as int, false),
{
    proof {
        reveal_strlit("--watch");
        reveal_strlit("--config");
        assert("--watch"@.len() == 7);
        assert("--config"@.len() == 8);
    }
    let flag_config = String::from_str("--config");
    let n = args.len();
    let mut i: usize = start;
    let mut config: Option<String> = None;
    while i < n
        invariant
            start <= i <= n,
            n == args@.len(),
            config is Some ==> suffix_has(args@, start as int, "--config"@),
            co_args_ok(args@, start as int, false) == co_args_ok(args@, i as int, false),
            co_config_value(args@, start as int, false) == (match co_config_value(
                args@,
                i as int,
                false,
            ) {
                Some(v) => Some(v),
                None => match config {
                    Some(x) => Some(x@),
                    None => None,
                },
            }),
            flag_config@ == "--config"@,
        decreases n - i,
    {
        let arg = &args[i];
        if *arg == flag_config {
            if i + 1 < n {
                config = Some(args[i + 1].clone());
                i = i + 2;
            } else {
                return Err(OptParseError::MissingValue { flag: arg.clone() });
            }
        } else {
            return Err(OptParseError::UnexpectedArgument { argument: arg.clone() });
        }
    }
    Ok(LspCommand { config })
}

impl Opt {
    /// Parses a full argument vector, program name first. A leading
    /// `compile`, `lsp` or `create-config` selects the subcommand;
    /// otherwise the arguments are read as compile options.
    pub fn try_parse_from(args: &Vec<String>) -> (r: Result<Opt, OptParseError>)
        ensures
            args@.len() >= 2 && args@[1]@ == "create-config"@ ==> {
                &&& (r matches Ok(o) ==> o.command matches Some(Command::CreateConfig(c))
                    && create_config_defaults(c, args@, 2) && create_config_values(c, args@, 2))
                &&& !suffix_has(args@, 2, "--schema"@) ==> r is Err
                &&& r is Ok <==> cc_args_ok(args@, 2) && cc_flag_given(args@, 2, "--schema"@)
            },
            args@.len() >= 2 && args@[1]@ == "compile"@ ==> {
                &&& r is Ok <==> co_args_ok(args@, 2, true)
                &&& (r matches Ok(o) ==> o.command matches Some(Command::Compile(c)) && c.watch
                    == co_watch_on(args@, 2) && (match c.config {
                    Some(s) => Some(s@),
                    None => None,
                }) == co_config_value(args@, 2, true))
            },
            args@.len() >= 2 && args@[1]@ == "lsp"@ ==> {
                &&& r is Ok <==> co_args_ok(args@, 2, false)
                &&& (r matches Ok(o) ==> o.command matches Some(Command::Lsp(c)) && (match c.config {
                    Some(s) => Some(s@),
                    None => None,
                }) == co_config_value(args@, 2, false))
            },
            args@.len() >= 1 && (args@.len() < 2 || (args@[1]@ != "create-config"@ && args@[1]@
                != "compile"@ && args@[1]@ != "lsp"@)) ==> {
                &&& r is Ok <==> co_args_ok(args@, 1, true)
                &&& (r matches Ok(o) ==> o.command is None && o.compile.watch == co_watch_on(
                    args@,
                    1,
                ) && (match o.compile.config {
                    Some(s) => Some(s@),
                    None => None,
                }) == co_config_value(args@, 1, true))
            },
    {
        proof {
            reveal_strlit("create-config");
            reveal_strlit("compile");
            reveal_strlit("lsp");
            assert("create-config"@.len() == 13);
            assert("compile"@.len() == 7);
            assert("lsp"@.len() == 3);
        }
        if args.len() >= 2 {
            let sub = &args[1];
            if *sub == String::from_str("create-config") {
                return match parse_create_config_file_command(args, 2) {
                    Ok(c) => Ok(Opt {
                        command: Some(Command::CreateConfig(c)),
                        compile: CompileCommand { watch: false, config: None },
                    }),
                    Err(e) => Err(e),
                };
            }
            if *sub == String::from_str("compile") {
                return match parse_compile_command(args, 2) {
                    Ok(c) => Ok(Opt {
                        command: Some(Command::Compile(c)),
                        compile: CompileCommand { watch: false, config: None },
                    }),
                    Err(e) => Err(e),
                };
            }
            if *sub == String::from_str("lsp") {
                return match parse_lsp_command(args, 2) {
                    Ok(c) => Ok(Opt {
                        command: Some(Command::Lsp(c)),
                        compile: CompileCommand { watch: false, config: None },
                    }),
                    Err(e) => Err(e),
                };
            }
        }
        if args.len() == 0 {
            return Err(OptParseError::UnexpectedArgument { argument: String::new() });
        }
        match parse_compile_command(args, 1) {
            Ok(c) => Ok(Opt { command: None, compile: c }),
            Err(e) => Err(e),
        }
    }
}

} // verus!
