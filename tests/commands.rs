use blueprint::backend::{format_package_list_for_shell, install_packages, remove_non_packages, RemovalStep, ShellRequest};
use blueprint::source::PackageSource;

fn names(n: &[&str]) -> Vec<String> {
    n.iter().map(|s| s.to_string()).collect()
}

#[test]
fn package_list_for_shell() {
    assert_eq!(format_package_list_for_shell(&names(&["vim", "git"])), "vim git ");
    assert_eq!(format_package_list_for_shell(&Vec::new()), "");
}

#[test]
fn install_command_per_backend() {
    assert_eq!(install_packages(PackageSource::ArchPacman, &names(&["vim", "git"])), "pacman -Syu --needed vim git ");
    assert_eq!(install_packages(PackageSource::ArchParu, &names(&["yay"])), "paru -Syu --needed yay ");
}

#[test]
fn removal_runs_its_steps_in_order() {
    let list = names(&["vim"]);
    let s = PackageSource::ArchPacman;
    let (q, next) = remove_non_packages(s, &list, RemovalStep::ListInstalled, "");
    assert_eq!(q, ShellRequest::Capture("pacman -Qq".to_string()));
    assert_eq!(next, RemovalStep::MarkAsDependencies);
    let (q, next) = remove_non_packages(s, &list, next, "vim\ngit\nbase\n");
    assert_eq!(q, ShellRequest::Run("pacman -D --asdeps vim git base ".to_string()));
    assert_eq!(next, RemovalStep::MarkExplicit);
    let (q, next) = remove_non_packages(s, &list, next, "");
    assert_eq!(q, ShellRequest::Run("pacman -D --asexplicit vim ".to_string()));
    assert_eq!(next, RemovalStep::ListOrphans);
    let (q, next) = remove_non_packages(s, &list, next, "");
    assert_eq!(q, ShellRequest::Capture("pacman -Qtdq".to_string()));
    assert_eq!(next, RemovalStep::RemoveOrphans);
    let (q, next) = remove_non_packages(s, &list, next, "git\n");
    assert_eq!(q, ShellRequest::Run("pacman -Rns git ".to_string()));
    assert_eq!(next, RemovalStep::Complete);
    let (q, next) = remove_non_packages(s, &list, next, "");
    assert_eq!(q, ShellRequest::Finished);
    assert_eq!(next, RemovalStep::Complete);
}

#[test]
fn no_orphans_means_nothing_to_remove() {
    let (q, next) = remove_non_packages(PackageSource::ArchParu, &Vec::new(), RemovalStep::RemoveOrphans, "");
    assert_eq!(q, ShellRequest::Finished);
    assert_eq!(next, RemovalStep::Complete);
}

#[test]
fn paru_removal_commands() {
    let (q, _) = remove_non_packages(PackageSource::ArchParu, &names(&["a"]), RemovalStep::RemoveOrphans, "x\ny");
    assert_eq!(q, ShellRequest::Run("paru -Rns x y".to_string()));
}

#[test]
fn blank_orphan_output_means_nothing_to_remove() {
    for blank in ["\n", " \n", "\n\n", " \t\r\n"] {
        let (q, next) = remove_non_packages(PackageSource::ArchPacman, &Vec::new(), RemovalStep::RemoveOrphans, blank);
        assert_eq!(q, ShellRequest::Finished);
        assert_eq!(next, RemovalStep::Complete);
    }
}

#[test]
fn orphan_names_among_blanks_are_removed() {
    let (q, _) = remove_non_packages(PackageSource::ArchPacman, &Vec::new(), RemovalStep::RemoveOrphans, "\nlibfoo\n");
    assert_eq!(q, ShellRequest::Run("pacman -Rns  libfoo ".to_string()));
}
