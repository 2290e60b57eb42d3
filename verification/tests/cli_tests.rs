use yflow::cli::{CliArgs, Commands, PROGRAM_NAME};
use yflow::import_cmd::ImportCmd;
use yflow::sync_cmd::SyncCmd;

#[test]
fn test_commands_import_default() {
    let cmd = Commands::Import(ImportCmd { config: None, dry_run: false });
    assert!(matches!(cmd, Commands::Import(_)));
}

#[test]
fn test_commands_sync_default() {
    let cmd = Commands::Sync(SyncCmd { config: None, dry_run: false, force: false });
    assert!(matches!(cmd, Commands::Sync(_)));
}

#[test]
fn test_commands_init_default() {
    let cmd = Commands::Init { output: None };
    assert!(matches!(cmd, Commands::Init { output: None }));
}

#[test]
fn test_commands_init_with_output() {
    let cmd = Commands::Init { output: Some("/custom/path/config.json".to_string()) };
    if let Commands::Init { output } = cmd {
        assert_eq!(output, Some("/custom/path/config.json".to_string()));
    } else {
        panic!("Expected Init command");
    }
}

#[test]
fn test_commands_version() {
    let cmd = Commands::Version;
    assert!(matches!(cmd, Commands::Version));
}

#[test]
fn test_commands_help_cmd_no_args() {
    let cmd = Commands::HelpCmd { command: None };
    if let Commands::HelpCmd { command } = cmd {
        assert!(command.is_none());
    } else {
        panic!("Expected HelpCmd command");
    }
}

#[test]
fn test_commands_help_cmd_with_command() {
    let cmd = Commands::HelpCmd { command: Some("import".to_string()) };
    if let Commands::HelpCmd { command } = cmd {
        assert_eq!(command, Some("import".to_string()));
    } else {
        panic!("Expected HelpCmd command");
    }
}

#[test]
fn test_program_name() {
    assert_eq!(PROGRAM_NAME, "yflow");
}

#[test]
fn command_config_path_prefers_its_own() {
    assert_eq!(
        Commands::config_path(Some("own".to_string()), Some("global".to_string())),
        Some("own".to_string())
    );
    assert_eq!(Commands::config_path(None, Some("global".to_string())), Some("global".to_string()));
    assert_eq!(Commands::config_path(None, None), None);
}

#[test]
fn cli_args_hold_their_command() {
    let args = CliArgs {
        config: Some("custom.json".to_string()),
        verbose: true,
        command: Commands::Sync(SyncCmd { config: None, dry_run: true, force: true }),
    };
    assert!(args.verbose);
    assert_eq!(args.config, Some("custom.json".to_string()));
    assert!(matches!(args.command, Commands::Sync(SyncCmd { dry_run: true, force: true, .. })));
}
