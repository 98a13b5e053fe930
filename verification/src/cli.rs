//! The decision core of the command surface.
//!
//! Argument parsing and the execution of commands (all of it I/O) live
//! outside the library; what is decided here is the dispatch plan: given the
//! parsed flags and optional subcommand, which commands run, and in what
//! order. A subcommand runs first; then the shorthand flags, in the fixed
//! order clean, build, run, the build taking its generation switches from
//! the top-level flags.

use vstd::prelude::*;

verus! {

/// Options of the build command.
#[derive(Clone, Debug)]
pub struct BuildOptions {
    pub release: bool,
    pub debug: bool,
    pub subproject: Option<String>,
    pub parallel: Option<u32>,
    pub generate_compile_commands: bool,
    pub generate_vscode_config: bool,
}

impl Default for BuildOptions {
    /// A debug build of the whole project with no generation switches.
    fn default() -> (d: BuildOptions)
        ensures
            !d.release && d.debug,
            d.subproject is None && d.parallel is None,
            !d.generate_compile_commands && !d.generate_vscode_config,
    {
        BuildOptions {
            release: false,
            debug: true,
            subproject: None,
            parallel: None,
            generate_compile_commands: false,
            generate_vscode_config: false,
        }
    }
}

/// Options of the run command.
#[derive(Clone, Debug)]
pub struct RunOptions {
    pub binary: Option<String>,
}

impl Default for RunOptions {
    fn default() -> (d: RunOptions)
        ensures
            d.binary is None,
    {
        RunOptions { binary: None }
    }
}

/// Options of the clean command.
#[derive(Clone, Debug)]
pub struct CleanOptions {
    pub subproject: Option<String>,
}

impl Default for CleanOptions {
    fn default() -> (d: CleanOptions)
        ensures
            d.subproject is None,
    {
        CleanOptions { subproject: None }
    }
}

/// Options of the publish command.
#[derive(Clone, Debug)]
pub struct PublishOptions {
    pub remote: Option<String>,
}

/// Options of the init command.
#[derive(Clone, Debug)]
pub struct InitOptions {
    pub name: Option<String>,
    pub dir: Option<String>,
}

/// One command for the surface to perform.
#[derive(Clone, Debug)]
pub enum Command {
    Build(BuildOptions),
    Run(RunOptions),
    Clean(CleanOptions),
    Refresh,
    Install,
    Publish(PublishOptions),
    Init(InitOptions),
}

/// A parsed invocation: the shorthand flags and the optional subcommand.
#[derive(Clone, Debug)]
pub struct CliRequest {
    pub build: bool,
    pub run: bool,
    pub clean: bool,
    pub gen_cc: bool,
    pub gen_vsc: bool,
    pub command: Option<Command>,
}

/// The dispatch plan an invocation asks for: its subcommand, then the
/// shorthand clean, build and run commands, in that order.
pub open spec fn parse_plan(cli: CliRequest) -> Seq<Command> {
    (match cli.command {
        Some(c) => seq![c],
        None => Seq::empty(),
    }) + (if cli.clean {
        seq![Command::Clean(CleanOptions { subproject: None })]
    } else {
        Seq::empty()
    }) + (if cli.build {
        seq![
            Command::Build(
                BuildOptions {
                    release: false,
                    debug: true,
                    subproject: None,
                    parallel: None,
                    generate_compile_commands: cli.gen_cc,
                    generate_vscode_config: cli.gen_vsc,
                },
            ),
        ]
    } else {
        Seq::empty()
    }) + (if cli.run {
        seq![Command::Run(RunOptions { binary: None })]
    } else {
        Seq::empty()
    })
}

/// Turns a parsed invocation into its dispatch plan: the commands to
/// perform, in order.
pub fn parse(cli: CliRequest) -> (plan: Vec<Command>)
    ensures
        plan@ == parse_plan(cli),
{
    let ghost request = cli;
    let mut plan: Vec<Command> = Vec::new();
    let CliRequest { build, run, clean, gen_cc, gen_vsc, command } = cli;
    if let Some(c) = command {
        plan.push(c);
    }
    if clean {
        plan.push(Command::Clean(CleanOptions::default()));
    }
    if build {
        let mut options = BuildOptions::default();
        options.generate_compile_commands = gen_cc;
        options.generate_vscode_config = gen_vsc;
        plan.push(Command::Build(options));
    }
    if run {
        plan.push(Command::Run(RunOptions::default()));
    }
    proof {
        assert(plan@ =~= parse_plan(request));
    }
    plan
}

} // verus!
