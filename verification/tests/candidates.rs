use puffin::candidate::{Candidate, Resolver};
use puffin::index::{File, Index, Metadata, Package, Release};
use puffin::manifest::{Manifest, PreReleaseMode, ResolutionMode, ResolutionOptions};
use puffin::marker::{MarkerEnvironment, StringVersion};
use puffin::requirement::Requirement;
use puffin::specifier::{Operator, Specifier};
use puffin::version::{PreRelease, PreReleaseKind, Version};

fn v(release: &[u64]) -> Version {
    Version::new(release.to_vec())
}

fn beta(release: &[u64]) -> Version {
    let mut version = v(release);
    version.pre = Some(PreRelease { kind: PreReleaseKind::Beta, number: 1 });
    version
}

fn string_version(text: &str, release: &[u64]) -> StringVersion {
    StringVersion { string: text.to_string(), version: v(release) }
}

fn markers() -> MarkerEnvironment {
    MarkerEnvironment {
        implementation_name: "cpython".to_string(),
        implementation_version: string_version("3.11.5", &[3, 11, 5]),
        os_name: "posix".to_string(),
        platform_machine: "arm64".to_string(),
        platform_python_implementation: "CPython".to_string(),
        platform_release: "21.6.0".to_string(),
        platform_system: "Darwin".to_string(),
        platform_version: "Darwin Kernel Version 21.6.0".to_string(),
        python_full_version: string_version("3.11.5", &[3, 11, 5]),
        python_version: string_version("3.11", &[3, 11]),
        sys_platform: "darwin".to_string(),
    }
}

fn tags() -> Vec<String> {
    vec!["cp311-cp311-macosx_11_0_arm64".to_string(), "py3-none-any".to_string()]
}

fn wheel(tags: &[&str], uploaded: Option<i64>) -> File {
    File {
        filename: "wheel".to_string(),
        tags: Some(tags.iter().map(|t| t.to_string()).collect()),
        upload_time: uploaded,
    }
}

fn sdist(uploaded: Option<i64>) -> File {
    File { filename: "sdist".to_string(), tags: None, upload_time: uploaded }
}

fn release(version: Version, files: Vec<File>) -> Release {
    Release {
        version,
        yanked: false,
        files,
        metadata: Some(Metadata { requires_dist: vec![], provides_extras: vec![] }),
    }
}

fn package() -> Package {
    Package {
        name: "pkg".to_string(),
        releases: vec![
            release(v(&[1, 0]), vec![sdist(Some(10))]),
            release(v(&[3, 0]), vec![sdist(Some(30))]),
            release(beta(&[4, 0]), vec![sdist(Some(40))]),
            release(v(&[2, 0]), vec![sdist(Some(20)), wheel(&["py3-none-any"], Some(20))]),
        ],
    }
}

fn resolver(
    mode: ResolutionMode,
    prerelease: PreReleaseMode,
    cutoff: Option<i64>,
    manifest: Manifest,
    package: Package,
) -> Resolver {
    Resolver::new(
        manifest,
        ResolutionOptions::new(mode, prerelease, cutoff),
        markers(),
        tags(),
        Index { packages: vec![package] },
    )
}

fn none() -> Manifest {
    Manifest::new(vec![], vec![], vec![], None)
}

fn releases(candidates: &[Candidate]) -> Vec<usize> {
    candidates.iter().map(|c| c.release).collect()
}

fn on(name: &str, operator: Operator, version: Version) -> Requirement {
    Requirement::new(name, vec![Specifier { operator, version }])
}

#[test]
fn highest_first() {
    let r = resolver(ResolutionMode::Highest, PreReleaseMode::Disallow, None, none(), package());
    let candidates = r.candidates("pkg", false);
    assert_eq!(releases(&candidates), vec![1, 3, 0]);
    assert_eq!(candidates[1], Candidate { package: 0, release: 3, file: 1 });
    assert_eq!(candidates[0].file, 0);
}

#[test]
fn lowest_first() {
    let r = resolver(ResolutionMode::Lowest, PreReleaseMode::Allow, None, none(), package());
    assert_eq!(releases(&r.candidates("pkg", false)), vec![0, 3, 1, 2]);
}

#[test]
fn lowest_direct_is_lowest_for_what_the_manifest_names() {
    let direct = Manifest::new(
        vec![on("pkg", Operator::GreaterThanEqual, v(&[0]))],
        vec![],
        vec![],
        None,
    );
    let r = resolver(ResolutionMode::LowestDirect, PreReleaseMode::Disallow, None, direct, package());
    assert_eq!(releases(&r.candidates("pkg", false)), vec![0, 3, 1]);
    assert!(r.is_direct("pkg"));
    assert!(r.is_ascending("pkg"));
    let r =
        resolver(ResolutionMode::LowestDirect, PreReleaseMode::Disallow, None, none(), package());
    assert_eq!(releases(&r.candidates("pkg", false)), vec![1, 3, 0]);
    assert!(!r.is_direct("pkg"));
}

#[test]
fn unknown_package_has_no_candidates() {
    let r = resolver(ResolutionMode::Highest, PreReleaseMode::Allow, None, none(), package());
    assert!(r.candidates("other", false).is_empty());
}

#[test]
fn prerelease_policies() {
    let allow = resolver(ResolutionMode::Highest, PreReleaseMode::Allow, None, none(), package());
    assert_eq!(releases(&allow.candidates("pkg", false)), vec![2, 1, 3, 0]);
    let if_necessary =
        resolver(ResolutionMode::Highest, PreReleaseMode::IfNecessary, None, none(), package());
    assert_eq!(releases(&if_necessary.candidates("pkg", false)), vec![1, 3, 0]);
    assert_eq!(releases(&if_necessary.candidates("pkg", true)), vec![1, 3, 0]);
    let explicit = Manifest::new(
        vec![on("pkg", Operator::GreaterThanEqual, beta(&[3, 5]))],
        vec![],
        vec![],
        None,
    );
    let explicit =
        resolver(ResolutionMode::Highest, PreReleaseMode::Explicit, None, explicit, package());
    assert!(explicit.names_prerelease_of("pkg"));
    assert_eq!(releases(&explicit.candidates("pkg", false)), vec![2, 1, 3, 0]);
}

#[test]
fn if_necessary_admits_prereleases_of_packages_without_final_release() {
    let only_betas = Package {
        name: "pkg".to_string(),
        releases: vec![
            release(beta(&[1, 0]), vec![sdist(None)]),
            release(beta(&[2, 0]), vec![sdist(None)]),
        ],
    };
    let r =
        resolver(ResolutionMode::Highest, PreReleaseMode::IfNecessary, None, none(), only_betas);
    assert!(r.candidates("pkg", false).is_empty());
    assert_eq!(releases(&r.candidates("pkg", true)), vec![1, 0]);
    let manifest = Manifest::new(
        vec![on("pkg", Operator::GreaterThanEqual, v(&[0]))],
        vec![],
        vec![],
        None,
    );
    let only_betas = r.index.packages[0].clone();
    let r =
        resolver(ResolutionMode::Highest, PreReleaseMode::IfNecessary, None, manifest, only_betas);
    assert_eq!(r.resolve().unwrap().to_text(), "pkg==2.0b1\n");
}

#[test]
fn uploads_after_the_cutoff_and_of_unknown_time_are_left_out() {
    let mut package = package();
    package.releases[0].files = vec![sdist(None)];
    let r = resolver(ResolutionMode::Highest, PreReleaseMode::Allow, Some(25), none(), package);
    assert_eq!(releases(&r.candidates("pkg", false)), vec![3]);
}

#[test]
fn constraints_narrow_the_candidates() {
    let manifest =
        Manifest::new(vec![], vec![on("pkg", Operator::LessThan, v(&[3]))], vec![], None);
    let r = resolver(ResolutionMode::Highest, PreReleaseMode::Disallow, None, manifest, package());
    assert_eq!(releases(&r.candidates("pkg", false)), vec![3, 0]);
    assert!(r.admitted_by_constraints("pkg", &v(&[2])));
    assert!(!r.admitted_by_constraints("pkg", &v(&[3])));
    assert!(r.admitted_by_constraints("other", &v(&[3])));
}

#[test]
fn preferred_versions_come_first() {
    let manifest =
        Manifest::new(vec![], vec![], vec![on("pkg", Operator::Equal, v(&[2, 0]))], None);
    let r = resolver(ResolutionMode::Highest, PreReleaseMode::Disallow, None, manifest, package());
    assert_eq!(releases(&r.candidates("pkg", false)), vec![3, 1, 0]);
    assert!(r.is_preferred("pkg", &v(&[2])));
    assert!(!r.is_preferred("pkg", &v(&[3])));
}

#[test]
fn of_equal_versions_the_one_without_local_label_comes_first() {
    let mut with_local = v(&[1, 0]);
    with_local.local = "cpu".to_string();
    let package = Package {
        name: "pkg".to_string(),
        releases: vec![
            release(with_local, vec![sdist(None)]),
            release(v(&[1, 0]), vec![sdist(None)]),
            release(v(&[1, 0, 0]), vec![sdist(None)]),
        ],
    };
    let r = resolver(ResolutionMode::Highest, PreReleaseMode::Disallow, None, none(), package);
    assert_eq!(releases(&r.candidates("pkg", false)), vec![1, 2, 0]);
}

#[test]
fn releases_without_metadata_or_fitting_file_are_no_candidates() {
    let mut package = package();
    package.releases[1].metadata = None;
    package.releases[0].files = vec![wheel(&["cp311-cp311-win_amd64"], Some(10))];
    let r = resolver(ResolutionMode::Highest, PreReleaseMode::Disallow, None, none(), package);
    assert_eq!(releases(&r.candidates("pkg", false)), vec![3]);
}

#[test]
fn the_best_file_is_the_wheel_of_least_rank() {
    let target = tags();
    let r = release(
        v(&[1]),
        vec![
            sdist(Some(1)),
            wheel(&["py3-none-any"], Some(1)),
            wheel(&["cp311-cp311-win_amd64"], Some(1)),
            wheel(&["py3-none-any", "cp311-cp311-macosx_11_0_arm64"], Some(1)),
            wheel(&["cp311-cp311-macosx_11_0_arm64"], Some(1)),
        ],
    );
    assert_eq!(r.select_file(&target, None), Some(3));
    assert_eq!(r.files[0].rank(&target), 2);
    assert_eq!(r.files[1].rank(&target), 1);
    assert_eq!(r.files[2].rank(&target), 2);
    assert_eq!(r.files[3].rank(&target), 0);
    assert!(!r.files[2].is_usable(&target, None));
    assert!(r.files[0].is_usable(&target, None));
    assert!(!r.files[0].is_usable(&target, Some(0)));
    assert!(r.files[0].uploaded_by(Some(1)));
    let only_sdist = release(v(&[1]), vec![wheel(&["cp311-cp311-win_amd64"], None), sdist(None)]);
    assert_eq!(only_sdist.select_file(&target, None), Some(1));
    assert_eq!(only_sdist.select_file(&target, Some(5)), None);
    assert_eq!(release(v(&[1]), vec![]).select_file(&target, None), None);
}

#[test]
fn the_first_package_of_a_name_is_found() {
    let index = Index { packages: vec![package(), package()] };
    assert_eq!(index.find("pkg"), Some(0));
    assert_eq!(index.find("other"), None);
}

#[test]
fn pins_name_every_node_at_its_version() {
    let manifest = Manifest::new(
        vec![on("pkg", Operator::LessThan, v(&[3]))],
        vec![],
        vec![],
        None,
    );
    let r = resolver(ResolutionMode::Highest, PreReleaseMode::Disallow, None, manifest, package());
    let graph = r.resolve().unwrap();
    let pins = graph.pins();
    assert_eq!(pins.len(), 1);
    assert_eq!(pins[0].name, "pkg");
    assert_eq!(pins[0].specifiers.len(), 1);
    assert_eq!(pins[0].specifiers[0].operator, Operator::Equal);
    assert_eq!(pins[0].specifiers[0].version.release, vec![2, 0]);
    assert!(pins[0].marker.is_none());
}
