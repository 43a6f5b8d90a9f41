use blueprint::config::{flatten, Blueprint, BlueprintConfigs, MultiplePackage};
use blueprint::package::{Package, PackageList};
use blueprint::source::PackageSource;

fn pkg(name: &str, source: PackageSource) -> Package {
    Package::new(name.to_string(), source)
}

fn file_with(packages: Vec<Package>) -> Blueprint {
    Blueprint {
        config: None,
        links: Vec::new(),
        packages: PackageList(packages),
        multi_packages: Vec::new(),
    }
}

fn keys(list: &PackageList) -> Vec<(String, PackageSource)> {
    list.0.iter().map(|p| (p.name.clone(), p.source)).collect()
}

#[test]
fn new_package_has_no_origin() {
    let p = pkg("vim", PackageSource::ArchParu);
    assert_eq!(p.name, "vim");
    assert_eq!(p.source, PackageSource::ArchParu);
    assert_eq!(p.src, "");
}

#[test]
fn origin_path_is_recorded_and_ignored_by_equality() {
    let mut p = pkg("vim", PackageSource::ArchPacman);
    p.add_source_debug_path(&"/etc/blueprint/base.toml".to_string());
    assert_eq!(p.src, "/etc/blueprint/base.toml");
    assert_eq!(p.name, "vim");
    let q = pkg("vim", PackageSource::ArchPacman);
    assert!(p == q);
    assert!(p.same_package(&q));
    assert!(!p.same_package(&pkg("vim", PackageSource::ArchParu)));
    assert!(!p.same_package(&pkg("emacs", PackageSource::ArchPacman)));
}

#[test]
fn duplicates_keep_first_seen_order() {
    let a1 = pkg("A", PackageSource::ArchPacman);
    let b = pkg("B", PackageSource::ArchParu);
    let mut a2 = pkg("A", PackageSource::ArchPacman);
    a2.add_source_debug_path(&"/later.toml".to_string());
    let list = PackageList(vec![a1, b, a2]).remove_duplicates();
    assert_eq!(
        keys(&list),
        vec![("A".to_string(), PackageSource::ArchPacman), ("B".to_string(), PackageSource::ArchParu)]
    );
    assert_eq!(list.0[0].src, "");
}

#[test]
fn same_name_other_backend_is_kept() {
    let list = PackageList(vec![
        pkg("git", PackageSource::ArchPacman),
        pkg("git", PackageSource::ArchParu),
        pkg("git", PackageSource::ArchPacman),
    ])
    .remove_duplicates();
    assert_eq!(
        keys(&list),
        vec![("git".to_string(), PackageSource::ArchPacman), ("git".to_string(), PackageSource::ArchParu)]
    );
}

#[test]
fn empty_list_stays_empty() {
    assert!(PackageList(Vec::new()).remove_duplicates().0.is_empty());
}

#[test]
fn flatten_deduplicates_across_files_root_first() {
    let root = file_with(vec![pkg("A", PackageSource::ArchPacman)]);
    let other = file_with(vec![pkg("B", PackageSource::ArchParu), pkg("A", PackageSource::ArchPacman)]);
    let list = flatten(root, BlueprintConfigs(vec![other]));
    assert_eq!(
        keys(&list),
        vec![("A".to_string(), PackageSource::ArchPacman), ("B".to_string(), PackageSource::ArchParu)]
    );
}

#[test]
fn flatten_with_duplicates_only_in_linked_files() {
    let root = file_with(Vec::new());
    let first = file_with(vec![pkg("A", PackageSource::ArchPacman), pkg("B", PackageSource::ArchParu)]);
    let second = file_with(vec![pkg("A", PackageSource::ArchPacman)]);
    let list = flatten(root, BlueprintConfigs(vec![first, second]));
    assert_eq!(
        keys(&list),
        vec![("A".to_string(), PackageSource::ArchPacman), ("B".to_string(), PackageSource::ArchParu)]
    );
}

#[test]
fn flatten_data_concatenates_in_file_order() {
    let first = file_with(vec![pkg("x", PackageSource::ArchPacman)]);
    let second = file_with(vec![pkg("y", PackageSource::ArchParu), pkg("x", PackageSource::ArchPacman)]);
    let list = BlueprintConfigs(vec![first, second]).flatten_data();
    assert_eq!(
        keys(&list),
        vec![
            ("x".to_string(), PackageSource::ArchPacman),
            ("y".to_string(), PackageSource::ArchParu),
            ("x".to_string(), PackageSource::ArchPacman),
        ]
    );
}

#[test]
fn multi_package_group_expands_to_one_package_per_name() {
    let group = MultiplePackage {
        names: vec!["x".to_string(), "y".to_string(), "z".to_string()],
        source: PackageSource::ArchParu,
    };
    let mut file = file_with(Vec::new());
    file.multi_packages.push(group);
    file.expand_multi_packages();
    assert!(file.multi_packages.is_empty());
    assert_eq!(
        keys(&file.packages),
        vec![
            ("x".to_string(), PackageSource::ArchParu),
            ("y".to_string(), PackageSource::ArchParu),
            ("z".to_string(), PackageSource::ArchParu),
        ]
    );
}

#[test]
fn groups_are_appended_after_single_packages_in_order() {
    let mut file = file_with(vec![pkg("a", PackageSource::ArchPacman)]);
    file.multi_packages.push(MultiplePackage { names: vec!["b".to_string()], source: PackageSource::ArchPacman });
    file.multi_packages.push(MultiplePackage { names: vec!["c".to_string(), "d".to_string()], source: PackageSource::ArchParu });
    file.prepare(&"/cfg/root.toml".to_string());
    assert!(file.multi_packages.is_empty());
    assert_eq!(
        keys(&file.packages),
        vec![
            ("a".to_string(), PackageSource::ArchPacman),
            ("b".to_string(), PackageSource::ArchPacman),
            ("c".to_string(), PackageSource::ArchParu),
            ("d".to_string(), PackageSource::ArchParu),
        ]
    );
    assert!(file.packages.0.iter().all(|p| p.src == "/cfg/root.toml"));
}

#[test]
fn empty_group_adds_nothing() {
    let mut file = file_with(Vec::new());
    file.multi_packages.push(MultiplePackage { names: Vec::new(), source: PackageSource::ArchParu });
    file.expand_multi_packages();
    assert!(file.packages.0.is_empty());
    assert!(file.multi_packages.is_empty());
}
