use blueprint::config::{flatten, Blueprint, Config, ConfigLink};
use blueprint::error::BlueprintError;
use blueprint::package::{Package, PackageList};
use blueprint::resolve::{LinkTarget, Resolver};
use blueprint::source::PackageSource;

/// A file at `path` with the given links and packages.
fn file(links: &[&str], packages: &[(&str, PackageSource)], config: bool) -> Blueprint {
    Blueprint {
        config: if config { Some(Config::default()) } else { None },
        links: links.iter().map(|l| ConfigLink { file: l.to_string() }).collect(),
        packages: PackageList(packages.iter().map(|(n, s)| Package::new(n.to_string(), *s)).collect()),
        multi_packages: Vec::new(),
    }
}

/// Drives a resolution over an in-memory set of files, links being
/// canonical paths already. Returns the resolver's result, the paths in the
/// order they were read, and the warnings raised.
fn run(
    root: &str,
    files: &dyn Fn(&str) -> Option<Blueprint>,
) -> (Result<(Blueprint, Vec<Blueprint>), BlueprintError>, Vec<String>, Vec<String>) {
    let mut read = Vec::new();
    let mut warned = Vec::new();
    let mut r = match Resolver::new(root.to_string(), files(root).is_some()) {
        Ok(r) => r,
        Err(e) => return (Err(e), read, warned),
    };
    while let Some(path) = r.next_path() {
        read.push(path.clone());
        let f = files(&path).unwrap();
        let targets: Vec<LinkTarget> = f
            .links
            .iter()
            .map(|l| LinkTarget { path: l.file.clone(), exists: files(&l.file).is_some() })
            .collect();
        match r.add_file(f, targets) {
            Ok(warn) => {
                if warn {
                    warned.push(path);
                }
            }
            Err(e) => return (Err(e), read, warned),
        }
    }
    let (root_file, others) = r.finish();
    (Ok((root_file, others.0)), read, warned)
}

#[test]
fn missing_root_is_config_not_found() {
    let (r, read, _) = run("/c/root.toml", &|_| None);
    assert_eq!(
        r.err(),
        Some(BlueprintError::ConfigNotFound { path: "/c/root.toml".to_string(), referenced_by: None })
    );
    assert!(read.is_empty());
}

#[test]
fn mutual_links_are_each_read_once() {
    let files = |p: &str| match p {
        "/c/a.toml" => Some(file(&["/c/b.toml"], &[("A", PackageSource::ArchPacman)], false)),
        "/c/b.toml" => Some(file(&["/c/a.toml"], &[("B", PackageSource::ArchPacman)], false)),
        _ => None,
    };
    let (r, read, _) = run("/c/a.toml", &files);
    assert_eq!(read, vec!["/c/a.toml".to_string(), "/c/b.toml".to_string()]);
    let (root, others) = r.unwrap();
    assert_eq!(root.packages.0[0].name, "A");
    assert_eq!(others.len(), 1);
    assert_eq!(others[0].packages.0[0].name, "B");
}

#[test]
fn self_link_is_harmless() {
    let files = |p: &str| match p {
        "/c/a.toml" => Some(file(&["/c/a.toml"], &[], false)),
        _ => None,
    };
    let (r, read, _) = run("/c/a.toml", &files);
    assert_eq!(read, vec!["/c/a.toml".to_string()]);
    assert!(r.unwrap().1.is_empty());
}

#[test]
fn diamond_is_read_once_in_first_seen_order() {
    let files = |p: &str| match p {
        "/c/root.toml" => Some(file(&["/c/l.toml", "/c/r.toml"], &[], false)),
        "/c/l.toml" => Some(file(&["/c/base.toml"], &[], false)),
        "/c/r.toml" => Some(file(&["/c/base.toml", "/c/l.toml"], &[], false)),
        "/c/base.toml" => Some(file(&[], &[], false)),
        _ => None,
    };
    let (r, read, _) = run("/c/root.toml", &files);
    assert_eq!(
        read,
        vec![
            "/c/root.toml".to_string(),
            "/c/l.toml".to_string(),
            "/c/r.toml".to_string(),
            "/c/base.toml".to_string(),
        ]
    );
    assert_eq!(r.unwrap().1.len(), 3);
}

#[test]
fn missing_link_names_both_files() {
    let files = |p: &str| match p {
        "/c/root.toml" => Some(file(&["/c/sub.toml"], &[], false)),
        "/c/sub.toml" => Some(file(&["/c/ok.toml", "/c/gone.toml", "/c/also-gone.toml"], &[], false)),
        "/c/ok.toml" => Some(file(&[], &[], false)),
        _ => None,
    };
    let (r, _, _) = run("/c/root.toml", &files);
    assert_eq!(
        r.err(),
        Some(BlueprintError::ConfigNotFound {
            path: "/c/gone.toml".to_string(),
            referenced_by: Some("/c/sub.toml".to_string()),
        })
    );
}

#[test]
fn failed_add_leaves_resolver_unchanged() {
    let mut r = Resolver::new("/c/root.toml".to_string(), true).ok().unwrap();
    let e = r.add_file(
        file(&["/c/x.toml"], &[], false),
        vec![LinkTarget { path: "/c/x.toml".to_string(), exists: false }],
    );
    assert!(e.is_err());
    assert_eq!(r.next_path(), Some("/c/root.toml".to_string()));
}

#[test]
fn global_config_outside_root_is_warned_about() {
    let files = |p: &str| match p {
        "/c/root.toml" => Some(file(&["/c/a.toml", "/c/b.toml"], &[], true)),
        "/c/a.toml" => Some(file(&[], &[], true)),
        "/c/b.toml" => Some(file(&[], &[], false)),
        _ => None,
    };
    let (r, _, warned) = run("/c/root.toml", &files);
    assert_eq!(warned, vec!["/c/a.toml".to_string()]);
    assert!(r.unwrap().0.config.is_some());
}

#[test]
fn resolved_graph_flattens_to_unique_packages() {
    let files = |p: &str| match p {
        "/c/root.toml" => Some(file(&["/c/more.toml"], &[("A", PackageSource::ArchPacman)], false)),
        "/c/more.toml" => Some(file(
            &[],
            &[("B", PackageSource::ArchPacman), ("A", PackageSource::ArchPacman)],
            false,
        )),
        _ => None,
    };
    let (r, _, _) = run("/c/root.toml", &files);
    let (root, others) = r.unwrap();
    let list = flatten(root, blueprint::config::BlueprintConfigs(others));
    let names: Vec<&str> = list.0.iter().map(|p| p.name.as_str()).collect();
    assert_eq!(names, vec!["A", "B"]);
}

#[test]
fn each_added_file_counts_once() {
    let mut r = Resolver::new("/c/root.toml".to_string(), true).ok().unwrap();
    assert_eq!(r.parsed_count(), 0);
    let added = r.add_file(
        file(&["/c/a.toml", "/c/a.toml"], &[], false),
        vec![
            LinkTarget { path: "/c/a.toml".to_string(), exists: true },
            LinkTarget { path: "/c/a.toml".to_string(), exists: true },
        ],
    );
    assert_eq!(added, Ok(false));
    assert_eq!(r.parsed_count(), 1);
    assert_eq!(r.next_path(), Some("/c/a.toml".to_string()));
    assert_eq!(r.add_file(file(&[], &[], false), Vec::new()), Ok(false));
    assert_eq!(r.parsed_count(), 2);
    assert_eq!(r.next_path(), None);
}

#[test]
fn self_link_is_queued_and_skipped() {
    let mut r = Resolver::new("/c/root.toml".to_string(), true).ok().unwrap();
    assert_eq!(r.next_path(), Some("/c/root.toml".to_string()));
    let added = r.add_file(
        file(&["/c/root.toml", "/c/a.toml"], &[], false),
        vec![
            LinkTarget { path: "/c/root.toml".to_string(), exists: true },
            LinkTarget { path: "/c/a.toml".to_string(), exists: true },
        ],
    );
    assert_eq!(added, Ok(false));
    assert_eq!(r.parsed_count(), 1);
    assert_eq!(r.next_path(), Some("/c/a.toml".to_string()));
    assert_eq!(r.add_file(file(&[], &[], false), Vec::new()), Ok(false));
    assert_eq!(r.next_path(), None);
    assert_eq!(r.parsed_count(), 2);
}
