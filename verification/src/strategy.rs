//! Detection strategies: which directories are project roots, and which of
//! their subdirectories are disposable build artifacts.
//!
//! Each built-in ecosystem is a `StrategyKind`; the strategy types give the
//! same rules the shape of a trait for callers that hold them as values.
//! A directory matches a kind when one of the kind's marker entries exists
//! directly inside it.

use vstd::prelude::*;
use crate::snapshot::DirV;
use crate::snapshot::FsDir;
use crate::snapshot::has_entry;
use crate::snapshot::has_entry_exec;
use crate::snapshot::paths_v;
use crate::path::DirPath;

verus! {

/// Risk attached to deleting a strategy's artifacts.
#[derive(Clone, Copy, PartialEq, Eq, Structural, Debug)]
pub enum RiskLevel {
    /// Safe to delete, rebuilt by the next build.
    Low,
    /// Caches; deleting slows the next build down.
    Medium,
    /// State or configuration; caution required.
    High,
}

/// The built-in project ecosystems.
#[derive(Clone, Copy, PartialEq, Eq, Structural, Debug)]
pub enum StrategyKind {
    NodeJs,
    Rust,
    Flutter,
    Android,
}

/// The byte name `package.json`.
pub open spec fn spec_package_json() -> Seq<u8> {
    seq![112, 97, 99, 107, 97, 103, 101, 46, 106, 115, 111, 110u8]
}

pub fn package_json_bytes() -> (r: Vec<u8>)
    ensures
        r@ == spec_package_json(),
{
    let r: Vec<u8> = vec![112, 97, 99, 107, 97, 103, 101, 46, 106, 115, 111, 110u8];
    proof {
        assert(r@ =~= spec_package_json());
    }
    r
}

/// The byte name `Cargo.toml`.
pub open spec fn spec_cargo_toml() -> Seq<u8> {
    seq![67, 97, 114, 103, 111, 46, 116, 111, 109, 108u8]
}

pub fn cargo_toml_bytes() -> (r: Vec<u8>)
    ensures
        r@ == spec_cargo_toml(),
{
    let r: Vec<u8> = vec![67, 97, 114, 103, 111, 46, 116, 111, 109, 108u8];
    proof {
        assert(r@ =~= spec_cargo_toml());
    }
    r
}

/// The byte name `pubspec.yaml`.
pub open spec fn spec_pubspec_yaml() -> Seq<u8> {
    seq![112, 117, 98, 115, 112, 101, 99, 46, 121, 97, 109, 108u8]
}

pub fn pubspec_yaml_bytes() -> (r: Vec<u8>)
    ensures
        r@ == spec_pubspec_yaml(),
{
    let r: Vec<u8> = vec![112, 117, 98, 115, 112, 101, 99, 46, 121, 97, 109, 108u8];
    proof {
        assert(r@ =~= spec_pubspec_yaml());
    }
    r
}

/// The byte name `build.gradle`.
pub open spec fn spec_build_gradle() -> Seq<u8> {
    seq![98, 117, 105, 108, 100, 46, 103, 114, 97, 100, 108, 101u8]
}

pub fn build_gradle_bytes() -> (r: Vec<u8>)
    ensures
        r@ == spec_build_gradle(),
{
    let r: Vec<u8> = vec![98, 117, 105, 108, 100, 46, 103, 114, 97, 100, 108, 101u8];
    proof {
        assert(r@ =~= spec_build_gradle());
    }
    r
}

/// The byte name `build.gradle.kts`.
pub open spec fn spec_build_gradle_kts() -> Seq<u8> {
    seq![98, 117, 105, 108, 100, 46, 103, 114, 97, 100, 108, 101, 46, 107, 116, 115u8]
}

pub fn build_gradle_kts_bytes() -> (r: Vec<u8>)
    ensures
        r@ == spec_build_gradle_kts(),
{
    let r: Vec<u8> = vec![98, 117, 105, 108, 100, 46, 103, 114, 97, 100, 108, 101, 46, 107, 116, 115u8];
    proof {
        assert(r@ =~= spec_build_gradle_kts());
    }
    r
}

/// The byte name `node_modules`.
pub open spec fn spec_node_modules() -> Seq<u8> {
    seq![110, 111, 100, 101, 95, 109, 111, 100, 117, 108, 101, 115u8]
}

pub fn node_modules_bytes() -> (r: Vec<u8>)
    ensures
        r@ == spec_node_modules(),
{
    let r: Vec<u8> = vec![110, 111, 100, 101, 95, 109, 111, 100, 117, 108, 101, 115u8];
    proof {
        assert(r@ =~= spec_node_modules());
    }
    r
}

/// The byte name `.next`.
pub open spec fn spec_dot_next() -> Seq<u8> {
    seq![46, 110, 101, 120, 116u8]
}

pub fn dot_next_bytes() -> (r: Vec<u8>)
    ensures
        r@ == spec_dot_next(),
{
    let r: Vec<u8> = vec![46, 110, 101, 120, 116u8];
    proof {
        assert(r@ =~= spec_dot_next());
    }
    r
}

/// The byte name `dist`.
pub open spec fn spec_dist() -> Seq<u8> {
    seq![100, 105, 115, 116u8]
}

pub fn dist_bytes() -> (r: Vec<u8>)
    ensures
        r@ == spec_dist(),
{
    let r: Vec<u8> = vec![100, 105, 115, 116u8];
    proof {
        assert(r@ =~= spec_dist());
    }
    r
}

/// The byte name `build`.
pub open spec fn spec_build() -> Seq<u8> {
    seq![98, 117, 105, 108, 100u8]
}

pub fn build_bytes() -> (r: Vec<u8>)
    ensures
        r@ == spec_build(),
{
    let r: Vec<u8> = vec![98, 117, 105, 108, 100u8];
    proof {
        assert(r@ =~= spec_build());
    }
    r
}

/// The byte name `target`.
pub open spec fn spec_target_dir() -> Seq<u8> {
    seq![116, 97, 114, 103, 101, 116u8]
}

pub fn target_dir_bytes() -> (r: Vec<u8>)
    ensures
        r@ == spec_target_dir(),
{
    let r: Vec<u8> = vec![116, 97, 114, 103, 101, 116u8];
    proof {
        assert(r@ =~= spec_target_dir());
    }
    r
}

/// The byte name `.dart_tool`.
pub open spec fn spec_dot_dart_tool() -> Seq<u8> {
    seq![46, 100, 97, 114, 116, 95, 116, 111, 111, 108u8]
}

pub fn dot_dart_tool_bytes() -> (r: Vec<u8>)
    ensures
        r@ == spec_dot_dart_tool(),
{
    let r: Vec<u8> = vec![46, 100, 97, 114, 116, 95, 116, 111, 111, 108u8];
    proof {
        assert(r@ =~= spec_dot_dart_tool());
    }
    r
}

/// The byte name `app`.
pub open spec fn spec_app_dir() -> Seq<u8> {
    seq![97, 112, 112u8]
}

pub fn app_dir_bytes() -> (r: Vec<u8>)
    ensures
        r@ == spec_app_dir(),
{
    let r: Vec<u8> = vec![97, 112, 112u8];
    proof {
        assert(r@ =~= spec_app_dir());
    }
    r
}

/// The byte name `.gradle`.
pub open spec fn spec_dot_gradle() -> Seq<u8> {
    seq![46, 103, 114, 97, 100, 108, 101u8]
}

pub fn dot_gradle_bytes() -> (r: Vec<u8>)
    ensures
        r@ == spec_dot_gradle(),
{
    let r: Vec<u8> = vec![46, 103, 114, 97, 100, 108, 101u8];
    proof {
        assert(r@ =~= spec_dot_gradle());
    }
    r
}

/// Whether a directory matches the kind: one of its marker entries exists.
pub open spec fn kind_detects(k: StrategyKind, v: DirV) -> bool {
    match k {
        StrategyKind::NodeJs => has_entry(v, spec_package_json()),
        StrategyKind::Rust => has_entry(v, spec_cargo_toml()),
        StrategyKind::Flutter => has_entry(v, spec_pubspec_yaml()),
        StrategyKind::Android => has_entry(v, spec_build_gradle()) || has_entry(
            v,
            spec_build_gradle_kts(),
        ),
    }
}

/// The kind's artifact directories, relative to a matched root.
pub open spec fn kind_target_paths(k: StrategyKind) -> Seq<Seq<Seq<u8>>> {
    match k {
        StrategyKind::NodeJs => seq![
            seq![spec_node_modules()],
            seq![spec_dot_next()],
            seq![spec_dist()],
            seq![spec_build()],
        ],
        StrategyKind::Rust => seq![seq![spec_target_dir()]],
        StrategyKind::Flutter => seq![seq![spec_build()], seq![spec_dot_dart_tool()]],
        StrategyKind::Android => seq![
            seq![spec_app_dir(), spec_build()],
            seq![spec_build()],
            seq![spec_dot_gradle()],
        ],
    }
}

/// The kind's display name.
pub open spec fn kind_name_chars(k: StrategyKind) -> Seq<char> {
    match k {
        StrategyKind::NodeJs => "Node.js"@,
        StrategyKind::Rust => "Rust"@,
        StrategyKind::Flutter => "Flutter"@,
        StrategyKind::Android => "Android"@,
    }
}

/// The kind's risk level; every built-in kind reclaims machine-made output.
pub open spec fn kind_risk(k: StrategyKind) -> RiskLevel {
    RiskLevel::Low
}

/// Whether a directory matches the kind.
pub fn detect_kind(k: StrategyKind, dir: &FsDir) -> (r: bool)
    ensures
        r == kind_detects(k, dir@),
{
    match k {
        StrategyKind::NodeJs => has_entry_exec(dir, &package_json_bytes()),
        StrategyKind::Rust => has_entry_exec(dir, &cargo_toml_bytes()),
        StrategyKind::Flutter => has_entry_exec(dir, &pubspec_yaml_bytes()),
        StrategyKind::Android => {
            let a = has_entry_exec(dir, &build_gradle_bytes());
            if a {
                true
            } else {
                has_entry_exec(dir, &build_gradle_kts_bytes())
            }
        },
    }
}

/// The kind's artifact directories, relative to a matched root.
pub fn kind_targets(k: StrategyKind) -> (r: Vec<DirPath>)
    ensures
        paths_v(r@) == kind_target_paths(k),
{
    let r: Vec<DirPath> = match k {
        StrategyKind::NodeJs => {
            vec![
                DirPath { segments: vec![node_modules_bytes()] },
                DirPath { segments: vec![dot_next_bytes()] },
                DirPath { segments: vec![dist_bytes()] },
                DirPath { segments: vec![build_bytes()] },
            ]
        },
        StrategyKind::Rust => {
            vec![DirPath { segments: vec![target_dir_bytes()] }]
        },
        StrategyKind::Flutter => {
            vec![
                DirPath { segments: vec![build_bytes()] },
                DirPath { segments: vec![dot_dart_tool_bytes()] },
            ]
        },
        StrategyKind::Android => {
            vec![
                DirPath { segments: vec![app_dir_bytes(), build_bytes()] },
                DirPath { segments: vec![build_bytes()] },
                DirPath { segments: vec![dot_gradle_bytes()] },
            ]
        },
    };
    proof {
        assert(paths_v(r@) =~~= kind_target_paths(k));
    }
    r
}

/// The kind's display name.
pub fn kind_name(k: StrategyKind) -> (r: &'static str)
    ensures
        r@ == kind_name_chars(k),
{
    match k {
        StrategyKind::NodeJs => "Node.js",
        StrategyKind::Rust => "Rust",
        StrategyKind::Flutter => "Flutter",
        StrategyKind::Android => "Android",
    }
}

/// The kind's risk level.
pub fn kind_risk_level(k: StrategyKind) -> (r: RiskLevel)
    ensures
        r == kind_risk(k),
{
    RiskLevel::Low
}

/// A cleaning strategy: a named detector with a list of reclaimable
/// artifact subdirectories.
pub trait CleaningStrategy: Sized {
    /// The kind whose rules this strategy applies.
    spec fn spec_kind(&self) -> StrategyKind;

    /// Display name of the strategy.
    fn name(&self) -> (r: &'static str)
        ensures
            r@ == kind_name_chars(self.spec_kind()),
    ;

    /// Whether the directory is a project root of this strategy's type.
    fn detect(&self, dir: &FsDir) -> (r: bool)
        ensures
            r == kind_detects(self.spec_kind(), dir@),
    ;

    /// Artifact directories to reclaim, relative to a matched root.
    fn targets(&self) -> (r: Vec<DirPath>)
        ensures
            paths_v(r@) == kind_target_paths(self.spec_kind()),
    ;

    /// How risky deleting this strategy's artifacts is.
    fn risk_level(&self) -> (r: RiskLevel)
        ensures
            r == kind_risk(self.spec_kind()),
    ;

    /// A rough, human-readable rebuild-time estimate.
    fn rebuild_estimate(&self) -> &'static str;
}

pub struct NodeStrategy;

pub struct RustStrategy;

pub struct FlutterStrategy;

pub struct AndroidStrategy;

impl CleaningStrategy for NodeStrategy {
    open spec fn spec_kind(&self) -> StrategyKind {
        StrategyKind::NodeJs
    }

    fn name(&self) -> (r: &'static str) {
        kind_name(StrategyKind::NodeJs)
    }

    fn detect(&self, dir: &FsDir) -> (r: bool) {
        detect_kind(StrategyKind::NodeJs, dir)
    }

    fn targets(&self) -> (r: Vec<DirPath>) {
        kind_targets(StrategyKind::NodeJs)
    }

    fn risk_level(&self) -> (r: RiskLevel) {
        kind_risk_level(StrategyKind::NodeJs)
    }

    fn rebuild_estimate(&self) -> &'static str {
        "~1-2 mins (npm install)"
    }
}

impl CleaningStrategy for RustStrategy {
    open spec fn spec_kind(&self) -> StrategyKind {
        StrategyKind::Rust
    }

    fn name(&self) -> (r: &'static str) {
        kind_name(StrategyKind::Rust)
    }

    fn detect(&self, dir: &FsDir) -> (r: bool) {
        detect_kind(StrategyKind::Rust, dir)
    }

    fn targets(&self) -> (r: Vec<DirPath>) {
        kind_targets(StrategyKind::Rust)
    }

    fn risk_level(&self) -> (r: RiskLevel) {
        kind_risk_level(StrategyKind::Rust)
    }

    fn rebuild_estimate(&self) -> &'static str {
        "~2-5 mins (cargo build)"
    }
}

impl CleaningStrategy for FlutterStrategy {
    open spec fn spec_kind(&self) -> StrategyKind {
        StrategyKind::Flutter
    }

    fn name(&self) -> (r: &'static str) {
        kind_name(StrategyKind::Flutter)
    }

    fn detect(&self, dir: &FsDir) -> (r: bool) {
        detect_kind(StrategyKind::Flutter, dir)
    }

    fn targets(&self) -> (r: Vec<DirPath>) {
        kind_targets(StrategyKind::Flutter)
    }

    fn risk_level(&self) -> (r: RiskLevel) {
        kind_risk_level(StrategyKind::Flutter)
    }

    fn rebuild_estimate(&self) -> &'static str {
        "~1-3 mins (flutter pub get + build)"
    }
}

impl CleaningStrategy for AndroidStrategy {
    open spec fn spec_kind(&self) -> StrategyKind {
        StrategyKind::Android
    }

    fn name(&self) -> (r: &'static str) {
        kind_name(StrategyKind::Android)
    }

    fn detect(&self, dir: &FsDir) -> (r: bool) {
        detect_kind(StrategyKind::Android, dir)
    }

    fn targets(&self) -> (r: Vec<DirPath>) {
        kind_targets(StrategyKind::Android)
    }

    fn risk_level(&self) -> (r: RiskLevel) {
        kind_risk_level(StrategyKind::Android)
    }

    fn rebuild_estimate(&self) -> &'static str {
        "~3-10 mins (gradle build)"
    }
}

/// All built-in strategy kinds, in the order they are tried: the first
/// match for a directory wins.
pub fn default_strategies() -> (r: Vec<StrategyKind>)
    ensures
        r@ == seq![
            StrategyKind::NodeJs,
            StrategyKind::Rust,
            StrategyKind::Flutter,
            StrategyKind::Android,
        ],
{
    let r: Vec<StrategyKind> = vec![
        StrategyKind::NodeJs,
        StrategyKind::Rust,
        StrategyKind::Flutter,
        StrategyKind::Android,
    ];
    proof {
        assert(r@ =~= seq![
            StrategyKind::NodeJs,
            StrategyKind::Rust,
            StrategyKind::Flutter,
            StrategyKind::Android,
        ]);
    }
    r
}

} // verus!
