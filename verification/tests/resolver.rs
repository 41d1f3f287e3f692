use puffin::candidate::Resolver;
use puffin::index::{File, Index, Metadata, Package, Release};
use puffin::manifest::{Manifest, PreReleaseMode, ResolutionMode, ResolutionOptions};
use puffin::marker::{
    Marker, MarkerEnvironment, MarkerExpr, StringVersion, TextKey, TextOp, VersionKey,
};
use puffin::requirement::Requirement;
use puffin::resolve::ResolveError;
use puffin::solver::{dependencies, Origin};
use puffin::specifier::contains_all;
use puffin::specifier::{Operator, Specifier};
use puffin::version::Version;

// 2023-11-18T12:00:00Z
const EXCLUDE_NEWER: i64 = 1_700_308_800;
const BEFORE: i64 = 1_690_000_000;
const AFTER: i64 = 1_701_000_000;

fn version(text: &str) -> Version {
    Version::parse(text).unwrap_or_else(|| panic!("{text} is no version"))
}

fn specifier(text: &str) -> Specifier {
    Specifier::parse(text).unwrap_or_else(|| panic!("{text} is no specifier"))
}

fn requirement(text: &str) -> Requirement {
    Requirement::parse(text).unwrap_or_else(|| panic!("{text} is no requirement"))
}

fn with_marker(mut r: Requirement, clause: Vec<MarkerExpr>) -> Requirement {
    r.marker = Some(Marker { any_of: vec![clause] });
    r
}

fn extra(name: &str) -> MarkerExpr {
    MarkerExpr::Extra { name: name.to_string() }
}

fn python_version(spec: &str) -> MarkerExpr {
    MarkerExpr::Version { key: VersionKey::PythonVersion, specifier: specifier(spec) }
}

fn on_windows() -> MarkerExpr {
    MarkerExpr::Text {
        key: TextKey::PlatformSystem,
        operator: TextOp::Equal,
        value: "Windows".to_string(),
    }
}

fn string_version(text: &str) -> StringVersion {
    StringVersion { string: text.to_string(), version: version(text) }
}

fn markers(minor: u64) -> MarkerEnvironment {
    MarkerEnvironment {
        implementation_name: "cpython".to_string(),
        implementation_version: string_version(&format!("3.{minor}.5")),
        os_name: "posix".to_string(),
        platform_machine: "arm64".to_string(),
        platform_python_implementation: "CPython".to_string(),
        platform_release: "21.6.0".to_string(),
        platform_system: "Darwin".to_string(),
        platform_version: "Darwin Kernel Version 21.6.0".to_string(),
        python_full_version: string_version(&format!("3.{minor}.5")),
        python_version: string_version(&format!("3.{minor}")),
        sys_platform: "darwin".to_string(),
    }
}

fn tags(minor: u64) -> Vec<String> {
    vec![
        format!("cp3{minor}-cp3{minor}-macosx_11_0_arm64"),
        format!("cp3{minor}-abi3-macosx_11_0_arm64"),
        "py3-none-any".to_string(),
    ]
}

fn wheel(tag: &str, uploaded: i64) -> File {
    File {
        filename: format!("file-{tag}.whl"),
        tags: Some(vec![tag.to_string()]),
        upload_time: Some(uploaded),
    }
}

fn release(text: &str, uploaded: i64, requires: Vec<Requirement>, extras: &[&str]) -> Release {
    Release {
        version: version(text),
        yanked: false,
        files: vec![wheel("py3-none-any", uploaded)],
        metadata: Some(Metadata {
            requires_dist: requires,
            provides_extras: extras.iter().map(|e| e.to_string()).collect(),
        }),
    }
}

fn plain(name: &str, versions: &[&str]) -> Package {
    Package {
        name: name.to_string(),
        releases: versions.iter().map(|v| release(v, BEFORE, Vec::new(), &[])).collect(),
    }
}

fn black_requires() -> Vec<Requirement> {
    vec![
        requirement("click>=8.0.0"),
        requirement("mypy-extensions>=0.4.3"),
        requirement("packaging>=22.0"),
        requirement("pathspec>=0.9.0"),
        requirement("platformdirs>=2"),
        with_marker(requirement("tomli>=1.1.0"), vec![python_version("<3.11")]),
        with_marker(requirement("typing-extensions>=4.0.1"), vec![python_version("<3.11")]),
        with_marker(requirement("colorama>=0.4.3"), vec![extra("colorama")]),
        with_marker(requirement("aiohttp>=3.7.4"), vec![extra("d")]),
    ]
}

fn black_release(text: &str, uploaded: i64) -> Release {
    release(text, uploaded, black_requires(), &["colorama", "d"])
}

fn index() -> Index {
    let black = Package {
        name: "black".to_string(),
        releases: vec![
            black_release("19.10b0", BEFORE),
            black_release("20.8b1", BEFORE),
            black_release("21.12b0", BEFORE),
            black_release("22.1.0", BEFORE),
            black_release("23.7.0", BEFORE),
            black_release("23.9.0", BEFORE),
            black_release("23.9.1", BEFORE),
            black_release("23.10.0", BEFORE),
            black_release("23.11.0", BEFORE),
            black_release("23.12.0", AFTER),
        ],
    };
    let click = Package {
        name: "click".to_string(),
        releases: ["8.0.0", "8.1.6", "8.1.7"]
            .iter()
            .map(|v| {
                release(
                    v,
                    BEFORE,
                    vec![with_marker(requirement("colorama"), vec![on_windows()])],
                    &[],
                )
            })
            .collect(),
    };
    Index {
        packages: vec![
            black,
            click,
            plain("mypy-extensions", &["0.4.3", "0.4.4", "1.0.0"]),
            plain("packaging", &["21.3", "22.0", "23.2"]),
            plain("pathspec", &["0.9.0", "0.11.2"]),
            plain("platformdirs", &["2.0.0", "3.11.0", "4.0.0"]),
            plain("tomli", &["1.1.0", "2.0.1"]),
            plain("typing-extensions", &["4.0.1", "4.8.0"]),
            plain("colorama", &["0.4.3", "0.4.6"]),
            plain("flake8", &["0.9", "6.1.0"]),
            plain("aiohttp", &["3.9.0"]),
        ],
    }
}

fn options(mode: ResolutionMode, prerelease: PreReleaseMode) -> ResolutionOptions {
    ResolutionOptions::new(mode, prerelease, Some(EXCLUDE_NEWER))
}

fn defaults() -> ResolutionOptions {
    options(ResolutionMode::default(), PreReleaseMode::IfNecessary)
}

fn resolve(manifest: Manifest, options: ResolutionOptions, minor: u64) -> Result<String, ResolveError> {
    let resolver = Resolver::new(manifest, options, markers(minor), tags(minor), index());
    resolver.resolve().map(|graph| graph.to_text())
}

fn roots(requirements: &[&str]) -> Vec<Requirement> {
    requirements.iter().map(|r| requirement(r)).collect()
}

const BLACK: &str = "black==23.9.1\n\
                     click==8.1.7\n\
                     mypy-extensions==1.0.0\n\
                     packaging==23.2\n\
                     pathspec==0.11.2\n\
                     platformdirs==4.0.0\n";

#[test]
fn black() {
    let manifest = Manifest::new(roots(&["black<=23.9.1"]), vec![], vec![], None);
    assert_eq!(resolve(manifest, defaults(), 11).unwrap(), BLACK);
}

#[test]
fn black_colorama() {
    let manifest = Manifest::new(roots(&["black[colorama]<=23.9.1"]), vec![], vec![], None);
    assert_eq!(
        resolve(manifest, defaults(), 11).unwrap(),
        "black[colorama]==23.9.1\n\
         click==8.1.7\n\
         colorama==0.4.6\n\
         mypy-extensions==1.0.0\n\
         packaging==23.2\n\
         pathspec==0.11.2\n\
         platformdirs==4.0.0\n"
    );
}

#[test]
fn black_python_310() {
    let manifest = Manifest::new(roots(&["black<=23.9.1"]), vec![], vec![], None);
    assert_eq!(
        resolve(manifest, defaults(), 10).unwrap(),
        "black==23.9.1\n\
         click==8.1.7\n\
         mypy-extensions==1.0.0\n\
         packaging==23.2\n\
         pathspec==0.11.2\n\
         platformdirs==4.0.0\n\
         tomli==2.0.1\n\
         typing-extensions==4.8.0\n"
    );
}

#[test]
fn black_mypy_extensions() {
    let manifest = Manifest::new(
        roots(&["black<=23.9.1"]),
        roots(&["mypy-extensions<0.4.4"]),
        vec![],
        None,
    );
    assert_eq!(
        resolve(manifest, defaults(), 11).unwrap(),
        BLACK.replace("mypy-extensions==1.0.0", "mypy-extensions==0.4.3")
    );
}

#[test]
fn black_mypy_extensions_extra() {
    let manifest = Manifest::new(
        roots(&["black<=23.9.1"]),
        roots(&["mypy-extensions[extra]<0.4.4"]),
        vec![],
        None,
    );
    assert_eq!(
        resolve(manifest, defaults(), 11).unwrap(),
        BLACK.replace("mypy-extensions==1.0.0", "mypy-extensions==0.4.3")
    );
}

#[test]
fn black_flake8() {
    let manifest =
        Manifest::new(roots(&["black<=23.9.1"]), roots(&["flake8<1"]), vec![], None);
    let text = resolve(manifest, defaults(), 11).unwrap();
    assert_eq!(text, BLACK);
    assert!(!text.contains("flake8"));
}

#[test]
fn black_lowest() {
    let manifest = Manifest::new(roots(&["black>21"]), vec![], vec![], None);
    assert_eq!(
        resolve(manifest, options(ResolutionMode::Lowest, PreReleaseMode::IfNecessary), 11)
            .unwrap(),
        "black==22.1.0\n\
         click==8.0.0\n\
         mypy-extensions==0.4.3\n\
         packaging==22.0\n\
         pathspec==0.9.0\n\
         platformdirs==2.0.0\n"
    );
}

#[test]
fn black_lowest_direct() {
    let manifest = Manifest::new(roots(&["black>21"]), vec![], vec![], None);
    assert_eq!(
        resolve(manifest, options(ResolutionMode::LowestDirect, PreReleaseMode::IfNecessary), 11)
            .unwrap(),
        BLACK.replace("black==23.9.1", "black==22.1.0")
    );
}

#[test]
fn black_respect_preference() {
    let manifest =
        Manifest::new(roots(&["black<=23.9.1"]), vec![], roots(&["black==23.9.0"]), None);
    assert_eq!(
        resolve(manifest, defaults(), 11).unwrap(),
        BLACK.replace("black==23.9.1", "black==23.9.0")
    );
}

#[test]
fn black_ignore_preference() {
    let manifest =
        Manifest::new(roots(&["black<=23.9.1"]), vec![], roots(&["black==23.9.2"]), None);
    assert_eq!(resolve(manifest, defaults(), 11).unwrap(), BLACK);
}

#[test]
fn black_disallow_prerelease() {
    let manifest = Manifest::new(roots(&["black<=20.0"]), vec![], vec![], None);
    let err = resolve(manifest, options(ResolutionMode::Highest, PreReleaseMode::Disallow), 11)
        .unwrap_err();
    assert_eq!(err, ResolveError::NoSolution { package: "black".to_string() });
    assert!(err.message().contains("black"));
    assert_eq!(
        err.message(),
        "No solution found when resolving dependencies: no version of black meets the requirements"
    );
}

#[test]
fn black_allow_prerelease_if_necessary() {
    let manifest = Manifest::new(roots(&["black<=20.0"]), vec![], vec![], None);
    let err = resolve(manifest, options(ResolutionMode::Highest, PreReleaseMode::IfNecessary), 11)
        .unwrap_err();
    assert_eq!(err, ResolveError::NoSolution { package: "black".to_string() });
}

#[test]
fn allow_prerelease_takes_the_beta() {
    let manifest = Manifest::new(roots(&["black<=20.0"]), vec![], vec![], None);
    let text =
        resolve(manifest, options(ResolutionMode::Highest, PreReleaseMode::Allow), 11).unwrap();
    assert!(text.starts_with("black==19.10b0\n"), "{text}");
}

#[test]
fn explicit_prerelease_only_where_the_manifest_names_one() {
    let without = Manifest::new(roots(&["black<=21.0"]), vec![], vec![], None);
    assert!(resolve(without, options(ResolutionMode::Highest, PreReleaseMode::Explicit), 11)
        .is_err());
    let with = Manifest::new(roots(&["black<=21.0b0"]), vec![], vec![], None);
    let text =
        resolve(with, options(ResolutionMode::Highest, PreReleaseMode::Explicit), 11).unwrap();
    assert!(text.starts_with("black==20.8b1\n"), "{text}");
}

#[test]
fn pinned_prerelease_is_a_policy_violation_when_disallowed() {
    let manifest =
        Manifest::new(roots(&["click>=8", "black==20.8b1"]), vec![], vec![], None);
    let err = resolve(manifest, options(ResolutionMode::Highest, PreReleaseMode::Disallow), 11)
        .unwrap_err();
    assert_eq!(
        err,
        ResolveError::PolicyViolation { requirement: 1, package: "black".to_string() }
    );
    assert_eq!(
        err.message(),
        "The requirement on black pins a pre-release, and pre-releases are not allowed"
    );
}

#[test]
fn empty_manifest_gives_empty_graph() {
    let manifest = Manifest::new(vec![], vec![], vec![], None);
    let resolver = Resolver::new(manifest, defaults(), markers(11), tags(11), index());
    let graph = resolver.resolve().unwrap();
    assert!(graph.nodes.is_empty());
    assert!(graph.edges.is_empty());
    assert_eq!(graph.to_text(), "");
}

#[test]
fn requirement_with_false_marker_gives_no_node() {
    let manifest = Manifest::new(
        vec![with_marker(requirement("flake8"), vec![on_windows()]), requirement("tomli")],
        vec![],
        vec![],
        None,
    );
    assert_eq!(resolve(manifest, defaults(), 11).unwrap(), "tomli==2.0.1\n");
}

#[test]
fn unknown_package_is_no_solution() {
    let manifest = Manifest::new(roots(&["no-such-package"]), vec![], vec![], None);
    assert_eq!(
        resolve(manifest, defaults(), 11).unwrap_err(),
        ResolveError::NoSolution { package: "no-such-package".to_string() }
    );
}

#[test]
fn newer_uploads_are_excluded() {
    let manifest = Manifest::new(roots(&["black"]), vec![], vec![], None);
    let text = resolve(manifest.clone(), defaults(), 11).unwrap();
    assert!(text.starts_with("black==23.11.0\n"), "{text}");
    let resolver = Resolver::new(
        manifest,
        ResolutionOptions::new(ResolutionMode::Highest, PreReleaseMode::IfNecessary, None),
        markers(11),
        tags(11),
        index(),
    );
    let text = resolver.resolve().unwrap().to_text();
    assert!(text.starts_with("black==23.12.0\n"), "{text}");
}

#[test]
fn edges_point_at_the_required_packages() {
    let manifest = Manifest::new(roots(&["black<=23.9.1"]), vec![], vec![], None);
    let resolver = Resolver::new(manifest, defaults(), markers(11), tags(11), index());
    let graph = resolver.resolve().unwrap();
    let names: Vec<(&str, &str)> = graph
        .edges
        .iter()
        .map(|e| (graph.nodes[e.from].name.as_str(), graph.nodes[e.to].name.as_str()))
        .collect();
    assert_eq!(
        names,
        vec![
            ("black", "click"),
            ("black", "mypy-extensions"),
            ("black", "packaging"),
            ("black", "pathspec"),
            ("black", "platformdirs"),
        ]
    );
}

#[test]
fn backtracks_to_an_older_release() {
    // a 2 needs b>=2, which does not exist; a 1 is content with b 1.
    let index = Index {
        packages: vec![
            Package {
                name: "a".to_string(),
                releases: vec![
                    release("1", BEFORE, roots(&["b>=1"]), &[]),
                    release("2", BEFORE, roots(&["b>=2"]), &[]),
                ],
            },
            plain("b", &["1"]),
        ],
    };
    let manifest = Manifest::new(roots(&["a"]), vec![], vec![], None);
    let resolver = Resolver::new(manifest, defaults(), markers(11), tags(11), index);
    assert_eq!(resolver.resolve().unwrap().to_text(), "a==1\nb==1\n");
}

#[test]
fn conflicting_requirements_have_no_solution() {
    let manifest = Manifest::new(roots(&["tomli<2", "tomli>=2"]), vec![], vec![], None);
    assert_eq!(
        resolve(manifest, defaults(), 11).unwrap_err(),
        ResolveError::NoSolution { package: "tomli".to_string() }
    );
}

#[test]
fn yanked_release_only_when_pinned() {
    let mut index = index();
    index.packages[6].releases[1].yanked = true;
    let open = Manifest::new(roots(&["tomli"]), vec![], vec![], None);
    let resolver = Resolver::new(open, defaults(), markers(11), tags(11), index.clone());
    assert_eq!(resolver.resolve().unwrap().to_text(), "tomli==1.1.0\n");
    let pinned = Manifest::new(roots(&["tomli==2.0.1"]), vec![], vec![], None);
    let resolver = Resolver::new(pinned, defaults(), markers(11), tags(11), index);
    assert_eq!(resolver.resolve().unwrap().to_text(), "tomli==2.0.1\n");
}

#[test]
fn wheel_for_another_platform_is_not_a_candidate() {
    let mut index = index();
    index.packages[6].releases[1].files = vec![wheel("cp311-cp311-win_amd64", BEFORE)];
    let manifest = Manifest::new(roots(&["tomli"]), vec![], vec![], None);
    let resolver = Resolver::new(manifest, defaults(), markers(11), tags(11), index);
    assert_eq!(resolver.resolve().unwrap().to_text(), "tomli==1.1.0\n");
}

#[test]
fn resolving_twice_gives_the_same_text() {
    let manifest = Manifest::new(roots(&["black[colorama]"]), vec![], vec![], None);
    let first = resolve(manifest.clone(), defaults(), 11).unwrap();
    let second = resolve(manifest, defaults(), 11).unwrap();
    assert_eq!(first, second);
}

#[test]
fn pinning_the_result_as_preferences_changes_nothing() {
    let manifest = Manifest::new(roots(&["black<=23.9.1"]), vec![], vec![], None);
    let resolver = Resolver::new(manifest, defaults(), markers(11), tags(11), index());
    let graph = resolver.resolve().unwrap();
    let pins = graph
        .nodes
        .iter()
        .map(|node| {
            Requirement::new(
                &node.name,
                vec![Specifier { operator: Operator::Equal, version: node.version.clone() }],
            )
        })
        .collect();
    let pinned = Manifest::new(roots(&["black<=23.9.1"]), vec![], pins, None);
    assert_eq!(resolve(pinned, defaults(), 11).unwrap(), graph.to_text());
}

fn required<'a>(resolver: &'a Resolver, origin: Origin) -> &'a Requirement {
    match origin {
        Origin::Manifest { index } => &resolver.manifest.requirements[index],
        Origin::Release { package, release, index } => {
            &resolver.index.packages[package].releases[release]
                .metadata
                .as_ref()
                .unwrap()
                .requires_dist[index]
        }
    }
}

#[test]
fn every_edge_is_met_by_the_node_it_enters() {
    let manifest = Manifest::new(roots(&["black[colorama]<=23.9.1"]), vec![], vec![], None);
    let resolver = Resolver::new(manifest, defaults(), markers(10), tags(10), index());
    let graph = resolver.resolve().unwrap();
    assert_eq!(graph.edges.len(), 8);
    for edge in &graph.edges {
        let requirement = required(&resolver, edge.requirement);
        let target = &graph.nodes[edge.to];
        assert_ne!(edge.from, edge.to);
        assert_eq!(requirement.name, target.name);
        assert!(contains_all(&requirement.specifiers, &target.version));
    }
}

#[test]
fn every_root_and_constraint_is_met() {
    let manifest = Manifest::new(
        roots(&["black<=23.9.1", "click>=8.1"]),
        roots(&["mypy-extensions<0.4.4", "platformdirs!=4.0.0"]),
        vec![],
        None,
    );
    let resolver = Resolver::new(manifest, defaults(), markers(11), tags(11), index());
    let graph = resolver.resolve().unwrap();
    for root in &resolver.manifest.requirements {
        let node = graph.nodes.iter().find(|node| node.name == root.name).unwrap();
        assert!(contains_all(&root.specifiers, &node.version));
    }
    for constraint in &resolver.manifest.constraints {
        for node in graph.nodes.iter().filter(|node| node.name == constraint.name) {
            assert!(contains_all(&constraint.specifiers, &node.version));
        }
    }
    assert_eq!(
        graph.to_text(),
        BLACK
            .replace("mypy-extensions==1.0.0", "mypy-extensions==0.4.3")
            .replace("platformdirs==4.0.0", "platformdirs==3.11.0")
    );
}

#[test]
fn nodes_stand_in_order_of_their_names() {
    let manifest = Manifest::new(
        roots(&["typing-extensions", "black[d,colorama]", "aiohttp"]),
        vec![],
        vec![],
        None,
    );
    let resolver = Resolver::new(manifest, defaults(), markers(10), tags(10), index());
    let graph = resolver.resolve().unwrap();
    let names: Vec<&str> = graph.nodes.iter().map(|node| node.name.as_str()).collect();
    let mut sorted = names.clone();
    sorted.sort();
    sorted.dedup();
    assert_eq!(names, sorted);
    assert!(graph.to_text().starts_with("aiohttp==3.9.0\nblack[colorama,d]==23.11.0\n"));
}

#[test]
fn dependencies_are_those_whose_marker_holds() {
    let manifest = Manifest::new(vec![], vec![], vec![], None);
    let resolver = Resolver::new(manifest, defaults(), markers(11), tags(11), index());
    let names = |extras: &[&str]| -> Vec<String> {
        let extras: Vec<String> = extras.iter().map(|e| e.to_string()).collect();
        dependencies(&resolver, 0, 6, &extras)
            .unwrap()
            .into_iter()
            .map(|origin| required(&resolver, origin).name.clone())
            .collect()
    };
    let base = vec!["click", "mypy-extensions", "packaging", "pathspec", "platformdirs"];
    assert_eq!(names(&[]), base);
    let mut with_colorama = base.clone();
    with_colorama.push("colorama");
    assert_eq!(names(&["colorama"]), with_colorama);
    assert_eq!(names(&["unknown"]), base);
    with_colorama.push("aiohttp");
    assert_eq!(names(&["d", "colorama"]), with_colorama);
    assert!(dependencies(&resolver, 0, 99, &Vec::new()).is_none());
    assert!(dependencies(&resolver, 99, 0, &Vec::new()).is_none());
}

#[test]
fn a_release_without_metadata_has_no_known_dependencies() {
    let mut index = index();
    index.packages[6].releases[1].metadata = None;
    let manifest = Manifest::new(roots(&["tomli"]), vec![], vec![], None);
    let resolver = Resolver::new(manifest, defaults(), markers(11), tags(11), index);
    assert!(dependencies(&resolver, 6, 1, &Vec::new()).is_none());
    assert_eq!(resolver.resolve().unwrap().to_text(), "tomli==1.1.0\n");
}

#[test]
fn a_constraint_on_an_unasked_package_changes_nothing() {
    let plain = Manifest::new(roots(&["black[colorama]"]), vec![], vec![], None);
    let constrained =
        Manifest::new(roots(&["black[colorama]"]), roots(&["flake8<1"]), vec![], None);
    assert_eq!(
        resolve(plain, defaults(), 11).unwrap(),
        resolve(constrained, defaults(), 11).unwrap()
    );
}

#[test]
fn a_preference_that_nothing_matches_changes_nothing() {
    let plain = Manifest::new(roots(&["black"]), vec![], vec![], None);
    let preferring = Manifest::new(
        roots(&["black"]),
        vec![],
        roots(&["black==23.12.0", "click==9.9", "tomli==1.1.0"]),
        None,
    );
    assert_eq!(
        resolve(plain, defaults(), 11).unwrap(),
        resolve(preferring, defaults(), 11).unwrap()
    );
}
