use spektr::path::DirPath;
use spektr::scanner::{CleanableProject, Scanner};
use spektr::snapshot::{FsDir, FsFile};
use spektr::strategy::{
    default_strategies, detect_kind, kind_name, kind_targets, AndroidStrategy, CleaningStrategy,
    FlutterStrategy, NodeStrategy, RiskLevel, RustStrategy, StrategyKind,
};

fn seg(name: &str) -> Vec<u8> {
    name.as_bytes().to_vec()
}

fn path(parts: &[&str]) -> DirPath {
    DirPath {
        segments: parts.iter().map(|p| seg(p)).collect(),
    }
}

fn file(name: &str, size: u64) -> FsFile {
    FsFile {
        name: seg(name),
        size,
    }
}

fn dir(name: &str, files: Vec<FsFile>, subdirs: Vec<FsDir>) -> FsDir {
    FsDir {
        name: seg(name),
        files,
        subdirs,
    }
}

fn path_parts(p: &DirPath) -> Vec<String> {
    p.segments
        .iter()
        .map(|s| String::from_utf8(s.clone()).unwrap())
        .collect()
}

#[test]
fn detects_each_kind_by_marker() {
    let node = dir("p", vec![file("package.json", 1)], vec![]);
    let rust = dir("p", vec![file("Cargo.toml", 1)], vec![]);
    let flutter = dir("p", vec![file("pubspec.yaml", 1)], vec![]);
    let android = dir("p", vec![file("build.gradle", 1)], vec![]);
    let android_kts = dir("p", vec![file("build.gradle.kts", 1)], vec![]);
    let plain = dir("p", vec![file("README.md", 1)], vec![]);
    assert!(detect_kind(StrategyKind::NodeJs, &node));
    assert!(detect_kind(StrategyKind::Rust, &rust));
    assert!(detect_kind(StrategyKind::Flutter, &flutter));
    assert!(detect_kind(StrategyKind::Android, &android));
    assert!(detect_kind(StrategyKind::Android, &android_kts));
    assert!(!detect_kind(StrategyKind::NodeJs, &plain));
    assert!(!detect_kind(StrategyKind::Rust, &node));
}

#[test]
fn marker_may_be_a_directory_entry() {
    let node = dir("p", vec![], vec![dir("package.json", vec![], vec![])]);
    assert!(detect_kind(StrategyKind::NodeJs, &node));
}

#[test]
fn strategy_trait_reports_names_targets_and_risk() {
    assert_eq!(NodeStrategy.name(), "Node.js");
    assert_eq!(RustStrategy.name(), "Rust");
    assert_eq!(FlutterStrategy.name(), "Flutter");
    assert_eq!(AndroidStrategy.name(), "Android");
    assert_eq!(NodeStrategy.risk_level(), RiskLevel::Low);
    assert_eq!(AndroidStrategy.risk_level(), RiskLevel::Low);
    let node_targets: Vec<Vec<String>> = NodeStrategy
        .targets()
        .iter()
        .map(|t| path_parts(t))
        .collect();
    assert_eq!(
        node_targets,
        vec![
            vec!["node_modules".to_string()],
            vec![".next".to_string()],
            vec!["dist".to_string()],
            vec!["build".to_string()],
        ]
    );
    let android_targets: Vec<Vec<String>> = AndroidStrategy
        .targets()
        .iter()
        .map(|t| path_parts(t))
        .collect();
    assert_eq!(
        android_targets,
        vec![
            vec!["app".to_string(), "build".to_string()],
            vec!["build".to_string()],
            vec![".gradle".to_string()],
        ]
    );
    assert!(NodeStrategy.rebuild_estimate().contains("npm"));
}

#[test]
fn default_strategy_order_is_node_rust_flutter_android() {
    let ks = default_strategies();
    assert_eq!(
        ks,
        vec![
            StrategyKind::NodeJs,
            StrategyKind::Rust,
            StrategyKind::Flutter,
            StrategyKind::Android,
        ]
    );
    assert_eq!(kind_name(ks[0]), "Node.js");
    assert_eq!(kind_targets(StrategyKind::Rust).len(), 1);
}

#[test]
fn first_matching_strategy_wins() {
    // A directory carrying both markers is attributed to the first
    // strategy in registration order, never to two at once.
    let both = dir(
        "p",
        vec![file("package.json", 1), file("Cargo.toml", 1)],
        vec![],
    );
    let root = dir("root", vec![], vec![both]);
    let scanner = Scanner::new(default_strategies());
    let projects = scanner.scan(&path(&["root"]), &root);
    assert_eq!(projects.len(), 1);
    assert_eq!(projects[0].kind, StrategyKind::NodeJs);
    assert_eq!(projects[0].strategy_name(), "Node.js");
}

#[test]
fn sibling_nested_project_is_reported() {
    // The scan root holds p1 (Node.js, node_modules of 500 bytes) and
    // p1/sub (Rust, target of 1000 bytes). sub lies inside p1 but not
    // inside p1's artifact directory, so both projects are reported.
    let sub = dir(
        "sub",
        vec![file("Cargo.toml", 1)],
        vec![dir("target", vec![file("bin", 1000)], vec![])],
    );
    let p1 = dir(
        "p1",
        vec![file("package.json", 1)],
        vec![dir("node_modules", vec![file("lib.js", 500)], vec![]), sub],
    );
    let root = dir("root", vec![], vec![p1]);
    let scanner = Scanner::new(default_strategies());
    let projects = scanner.scan(&path(&["root"]), &root);
    assert_eq!(projects.len(), 2);
    assert_eq!(path_parts(&projects[0].root_path), vec!["root", "p1"]);
    assert_eq!(projects[0].kind, StrategyKind::NodeJs);
    assert_eq!(projects[0].total_size, 500);
    assert_eq!(
        path_parts(&projects[1].root_path),
        vec!["root", "p1", "sub"]
    );
    assert_eq!(projects[1].kind, StrategyKind::Rust);
    assert_eq!(projects[1].total_size, 1000);
}

#[test]
fn project_inside_artifact_directory_is_suppressed() {
    // a/node_modules/b carries its own package.json, but lies under a's
    // target node_modules: only a is reported.
    let b = dir("b", vec![file("package.json", 7)], vec![]);
    let a = dir(
        "a",
        vec![file("package.json", 1)],
        vec![dir("node_modules", vec![file("lib.js", 10)], vec![b])],
    );
    let root = dir("root", vec![], vec![a]);
    let scanner = Scanner::new(default_strategies());
    let projects = scanner.scan(&path(&["root"]), &root);
    assert_eq!(projects.len(), 1);
    assert_eq!(path_parts(&projects[0].root_path), vec!["root", "a"]);
    // Everything under node_modules counts, b's marker file included.
    assert_eq!(projects[0].total_size, 17);
}

#[test]
fn missing_targets_are_omitted_not_zero() {
    let p = dir(
        "p",
        vec![file("package.json", 1)],
        vec![
            dir("dist", vec![file("out.js", 42)], vec![]),
            dir("src", vec![file("in.js", 999)], vec![]),
        ],
    );
    let root = dir("root", vec![], vec![p]);
    let scanner = Scanner::new(default_strategies());
    let projects = scanner.scan(&path(&["root"]), &root);
    assert_eq!(projects.len(), 1);
    let targets: Vec<Vec<String>> = projects[0].targets.iter().map(|t| path_parts(t)).collect();
    assert_eq!(targets, vec![vec![
        "root".to_string(),
        "p".to_string(),
        "dist".to_string(),
    ]]);
    // Files outside the existing target do not count.
    assert_eq!(projects[0].total_size, 42);
}

#[test]
fn android_two_component_target_is_sized() {
    let app_dir = dir("app", vec![], vec![dir("build", vec![file("apk", 30)], vec![])]);
    let p = dir(
        "droid",
        vec![file("build.gradle", 1)],
        vec![app_dir, dir(".gradle", vec![file("cache", 5)], vec![])],
    );
    let root = dir("root", vec![], vec![p]);
    let scanner = Scanner::new(default_strategies());
    let projects = scanner.scan(&path(&["root"]), &root);
    assert_eq!(projects.len(), 1);
    assert_eq!(projects[0].kind, StrategyKind::Android);
    assert_eq!(projects[0].total_size, 35);
    let targets: Vec<Vec<String>> = projects[0].targets.iter().map(|t| path_parts(t)).collect();
    assert_eq!(targets.len(), 2);
    assert_eq!(
        targets[0],
        vec!["root".to_string(), "droid".to_string(), "app".to_string(), "build".to_string()]
    );
}

#[test]
fn scan_root_itself_can_be_a_project() {
    let root = dir(
        "root",
        vec![file("Cargo.toml", 1)],
        vec![dir("target", vec![file("bin", 64)], vec![])],
    );
    let scanner = Scanner::new(default_strategies());
    let projects = scanner.scan(&path(&["root"]), &root);
    assert_eq!(projects.len(), 1);
    assert_eq!(path_parts(&projects[0].root_path), vec!["root"]);
    assert_eq!(projects[0].total_size, 64);
}

#[test]
fn no_reported_root_lies_under_another_reported_target() {
    // The deduplication invariant, checked pairwise on a mixed tree.
    let vendored = dir("tool", vec![file("Cargo.toml", 1)], vec![]);
    let web = dir(
        "web",
        vec![file("package.json", 1)],
        vec![dir("node_modules", vec![file("x", 2)], vec![vendored])],
    );
    let lib = dir(
        "lib",
        vec![file("Cargo.toml", 1)],
        vec![dir("target", vec![file("y", 3)], vec![])],
    );
    let root = dir("root", vec![], vec![web, lib]);
    let scanner = Scanner::new(default_strategies());
    let projects: Vec<CleanableProject> = scanner.scan(&path(&["root"]), &root);
    assert_eq!(projects.len(), 2);
    for a in &projects {
        for b in &projects {
            if path_parts(&a.root_path) == path_parts(&b.root_path) {
                continue;
            }
            for t in &a.targets {
                assert!(!b.root_path.starts_with(t));
            }
        }
    }
}

#[test]
fn empty_root_reports_nothing() {
    let root = dir("root", vec![], vec![]);
    let scanner = Scanner::new(default_strategies());
    let projects = scanner.scan(&path(&["root"]), &root);
    assert_eq!(projects.len(), 0);
}

#[test]
fn strategy_structs_detect_through_the_trait() {
    let flutter = dir("p", vec![file("pubspec.yaml", 1)], vec![]);
    assert!(FlutterStrategy.detect(&flutter));
    assert!(!RustStrategy.detect(&flutter));
    assert!(!NodeStrategy.detect(&flutter));
    assert!(!AndroidStrategy.detect(&flutter));
}
