use blueprint::args::Commands;
use blueprint::config::{default_is_true, default_shell, default_shell_exec_arg, Config, GlobalConfig};
use blueprint::source::PackageSource;

#[test]
fn default_settings() {
    let c = Config::default();
    assert_eq!(c.shell, "bash");
    assert_eq!(c.shell_exec_arg, "-c");
    assert_eq!(c.default_source, PackageSource::ArchPacman);
    assert!(c.prompt_apply_continue);
    assert!(c.prompt_install_per_source);
    assert!(c.prompt_removal_per_source);
    assert!(c.remove_unrequired_software);
    assert_eq!(default_shell(), "bash");
    assert_eq!(default_shell_exec_arg(), "-c");
    assert!(default_is_true());
    assert_eq!(PackageSource::default(), PackageSource::ArchPacman);
}

#[test]
fn global_config_is_write_once() {
    let mut g = GlobalConfig::new();
    assert!(!g.is_initialised());
    let mut first = Config::default();
    first.shell = "zsh".to_string();
    g.set_config(first);
    assert!(g.is_initialised());
    let mut second = Config::default();
    second.shell = "fish".to_string();
    g.set_config(second);
    assert_eq!(g.get_config().shell, "zsh");
}

#[test]
fn source_names() {
    assert_eq!(PackageSource::ArchParu.display_name(), "Arch-Linux using Paru");
    assert_eq!(PackageSource::ArchPacman.display_name(), "Arch-Linux using Pacman");
    assert_eq!(PackageSource::ArchParu.command_name(), "paru");
    assert_eq!(PackageSource::ArchPacman.command_name(), "pacman");
}

#[test]
fn command_names() {
    assert_eq!(Commands::Init { file: "blueprint.toml".to_string() }.name(), "init");
    let apply = Commands::Apply { file: "a.toml".to_string(), section: "blueprint".to_string() };
    assert_eq!(apply.name(), "apply");
}
