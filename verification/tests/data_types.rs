use encsync::args::{InitSubcommand, RestoreSubcommand, Subcommands, SyncSubCommand};
use encsync::config::Config;

#[test]
fn config_holds_its_fields() {
    let config = Config {
        sources: vec!["test".to_string()],
        version: "0.1.0".to_string(),
        destination: "test".to_string(),
    };
    assert_eq!(config.version, "0.1.0");
    assert_eq!(config.destination, "test");
    assert_eq!(config.sources, vec!["test".to_string()]);
}

#[test]
fn subcommands_carry_their_payload() {
    let sync = Subcommands::Sync(SyncSubCommand {
        pattern: "lorem".to_string(),
        path: "notes.txt".to_string(),
    });
    match sync {
        Subcommands::Sync(s) => {
            assert_eq!(s.pattern, "lorem");
            assert_eq!(s.path, "notes.txt");
        },
        _ => panic!("wrong variant"),
    }
    let restore = Subcommands::Restore(RestoreSubcommand {
        pattern: "lorem".to_string(),
        path: "notes.txt".to_string(),
    });
    assert!(matches!(restore, Subcommands::Restore(_)));
    let init = Subcommands::Init(InitSubcommand { path: "./".to_string() });
    match init {
        Subcommands::Init(i) => assert_eq!(i.path, "./"),
        _ => panic!("wrong variant"),
    }
}
