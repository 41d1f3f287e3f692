use puffin::marker::{
    compare_texts, Marker, MarkerEnvironment, MarkerExpr, StringVersion, TextKey, TextOp,
    VersionKey,
};
use puffin::requirement::Requirement;
use puffin::specifier::{contains_all, names_prerelease, pins_version, Operator, Specifier};
use puffin::text::{chars_of, compare_text, find_text, listed, normalize_name, same_text};
use puffin::version::{
    compare_release, push_version, Order, PreRelease, PreReleaseKind, Version,
};

fn v(release: &[u64]) -> Version {
    Version::new(release.to_vec())
}

fn pre(release: &[u64], kind: PreReleaseKind, number: u64) -> Version {
    let mut version = v(release);
    version.pre = Some(PreRelease { kind, number });
    version
}

fn post(release: &[u64], number: u64) -> Version {
    let mut version = v(release);
    version.post = Some(number);
    version
}

fn dev(release: &[u64], number: u64) -> Version {
    let mut version = v(release);
    version.dev = Some(number);
    version
}

fn local(release: &[u64], label: &str) -> Version {
    let mut version = v(release);
    version.local = label.to_string();
    version
}

fn text(version: &Version) -> String {
    let mut out = Vec::new();
    push_version(&mut out, version);
    out.into_iter().collect()
}

fn spec(operator: Operator, version: Version) -> Specifier {
    Specifier { operator, version }
}

#[test]
fn releases_compare_segment_by_segment_with_zero_padding() {
    assert_eq!(compare_release(&vec![1, 0], &vec![1, 0, 0]), Order::Equal);
    assert_eq!(compare_release(&vec![1, 2], &vec![1, 10]), Order::Less);
    assert_eq!(compare_release(&vec![2], &vec![1, 99]), Order::Greater);
    assert_eq!(compare_release(&vec![], &vec![0, 0]), Order::Equal);
    assert_eq!(compare_release(&vec![1], &vec![1, 0, 1]), Order::Less);
}

#[test]
fn versions_are_ordered_as_the_phases_of_a_release() {
    // 1.0.dev1 < 1.0a1 < 1.0a2.dev1 < 1.0a2 < 1.0b1 < 1.0rc1 < 1.0 < 1.0.post1.dev1 < 1.0.post1
    let mut a2_dev = pre(&[1, 0], PreReleaseKind::Alpha, 2);
    a2_dev.dev = Some(1);
    let mut post_dev = post(&[1, 0], 1);
    post_dev.dev = Some(1);
    let chain = vec![
        dev(&[1, 0], 1),
        pre(&[1, 0], PreReleaseKind::Alpha, 1),
        a2_dev,
        pre(&[1, 0], PreReleaseKind::Alpha, 2),
        pre(&[1, 0], PreReleaseKind::Beta, 1),
        pre(&[1, 0], PreReleaseKind::Rc, 1),
        v(&[1, 0]),
        post_dev,
        post(&[1, 0], 1),
        v(&[1, 1]),
    ];
    for i in 0..chain.len() {
        for j in 0..chain.len() {
            let expected = if i < j {
                Order::Less
            } else if i == j {
                Order::Equal
            } else {
                Order::Greater
            };
            assert_eq!(chain[i].compare(&chain[j]), expected, "{} vs {}", i, j);
            assert_eq!(chain[j].compare(&chain[i]), expected.reversed());
        }
    }
}

#[test]
fn epoch_comes_first_and_local_labels_play_no_part() {
    let mut epoch = v(&[1]);
    epoch.epoch = 1;
    assert_eq!(epoch.compare(&v(&[2024, 1])), Order::Greater);
    assert_eq!(local(&[1, 0], "cpu").compare(&v(&[1, 0])), Order::Equal);
    assert!(local(&[1, 0], "cpu").is_local());
    assert!(!v(&[1, 0]).is_local());
}

#[test]
fn prereleases_are_versions_with_pre_or_dev_marker() {
    assert!(pre(&[1], PreReleaseKind::Rc, 0).is_prerelease());
    assert!(dev(&[1], 0).is_prerelease());
    assert!(!post(&[1], 0).is_prerelease());
    assert!(!v(&[1]).is_prerelease());
}

#[test]
fn version_text_is_the_normal_form() {
    assert_eq!(text(&v(&[23, 9, 1])), "23.9.1");
    assert_eq!(text(&pre(&[20, 8], PreReleaseKind::Beta, 1)), "20.8b1");
    assert_eq!(text(&pre(&[1], PreReleaseKind::Rc, 2)), "1rc2");
    assert_eq!(text(&pre(&[1], PreReleaseKind::Alpha, 0)), "1a0");
    let mut all = pre(&[2, 0], PreReleaseKind::Rc, 1);
    all.epoch = 1;
    all.post = Some(2);
    all.dev = Some(3);
    all.local = "ubuntu.1".to_string();
    assert_eq!(text(&all), "1!2.0rc1.post2.dev3+ubuntu.1");
    assert_eq!(text(&all.duplicate()), "1!2.0rc1.post2.dev3+ubuntu.1");
}

#[test]
fn equality_ignores_padding_and_the_candidates_local_label() {
    let equal = spec(Operator::Equal, v(&[1, 0]));
    assert!(equal.contains(&v(&[1, 0, 0])));
    assert!(equal.contains(&local(&[1, 0], "cpu")));
    assert!(!equal.contains(&v(&[1, 0, 1])));
    assert!(!equal.contains(&post(&[1, 0], 1)));
    let with_local = spec(Operator::Equal, local(&[1, 0], "cpu"));
    assert!(with_local.contains(&local(&[1, 0], "cpu")));
    assert!(!with_local.contains(&v(&[1, 0])));
    assert!(!with_local.contains(&local(&[1, 0], "gpu")));
    let unequal = spec(Operator::NotEqual, v(&[1, 0]));
    assert!(!unequal.contains(&v(&[1])));
    assert!(unequal.contains(&v(&[1, 1])));
}

#[test]
fn exact_equality_is_identity() {
    let exact = spec(Operator::ExactEqual, v(&[1, 0]));
    assert!(exact.contains(&v(&[1, 0])));
    assert!(!exact.contains(&v(&[1, 0, 0])));
    assert!(!exact.contains(&local(&[1, 0], "cpu")));
}

#[test]
fn prefix_matching_looks_at_the_release_only() {
    let star = spec(Operator::EqualStar, v(&[1, 1]));
    assert!(star.contains(&v(&[1, 1])));
    assert!(star.contains(&v(&[1, 1, 5])));
    assert!(star.contains(&post(&[1, 1], 1)));
    assert!(star.contains(&pre(&[1, 1], PreReleaseKind::Alpha, 1)));
    assert!(!star.contains(&v(&[1, 2])));
    assert!(!star.contains(&v(&[1])));
    let not_star = spec(Operator::NotEqualStar, v(&[1, 1]));
    assert!(!not_star.contains(&v(&[1, 1, 5])));
    assert!(not_star.contains(&v(&[1, 2])));
}

#[test]
fn compatible_release_is_a_lower_bound_and_a_prefix() {
    let tilde = spec(Operator::TildeEqual, v(&[2, 2]));
    assert!(tilde.contains(&v(&[2, 2])));
    assert!(tilde.contains(&v(&[2, 9])));
    assert!(!tilde.contains(&v(&[2, 1])));
    assert!(!tilde.contains(&v(&[3, 0])));
    let three = spec(Operator::TildeEqual, v(&[1, 4, 5]));
    assert!(three.contains(&v(&[1, 4, 9])));
    assert!(!three.contains(&v(&[1, 5, 0])));
    assert!(!three.contains(&v(&[1, 4, 4])));
    assert!(!spec(Operator::TildeEqual, v(&[1])).contains(&v(&[1])));
}

#[test]
fn ordered_comparisons() {
    assert!(spec(Operator::LessThanEqual, v(&[23, 9, 1])).contains(&v(&[23, 9, 1])));
    assert!(spec(Operator::LessThanEqual, v(&[23, 9, 1])).contains(&v(&[22])));
    assert!(!spec(Operator::LessThanEqual, v(&[23, 9, 1])).contains(&v(&[23, 10])));
    assert!(spec(Operator::GreaterThanEqual, v(&[8])).contains(&v(&[8, 0, 0])));
    assert!(!spec(Operator::GreaterThanEqual, v(&[8])).contains(&v(&[7, 9])));
    assert!(spec(Operator::GreaterThan, v(&[21])).contains(&v(&[22, 1])));
    assert!(!spec(Operator::GreaterThan, v(&[21])).contains(&v(&[21])));
    assert!(spec(Operator::LessThan, v(&[1])).contains(&v(&[0, 9])));
    assert!(!spec(Operator::LessThan, v(&[1])).contains(&v(&[1])));
}

#[test]
fn exclusive_comparisons_leave_out_pre_and_post_releases_of_the_bound() {
    let less = spec(Operator::LessThan, v(&[1, 0]));
    assert!(!less.contains(&pre(&[1, 0], PreReleaseKind::Rc, 1)));
    assert!(less.contains(&pre(&[0, 9], PreReleaseKind::Rc, 1)));
    let less_pre = spec(Operator::LessThan, pre(&[1, 0], PreReleaseKind::Rc, 1));
    assert!(less_pre.contains(&pre(&[1, 0], PreReleaseKind::Beta, 1)));
    let greater = spec(Operator::GreaterThan, v(&[1, 0]));
    assert!(!greater.contains(&post(&[1, 0], 1)));
    assert!(greater.contains(&v(&[1, 0, 1])));
    let greater_post = spec(Operator::GreaterThan, post(&[1, 0], 1));
    assert!(greater_post.contains(&post(&[1, 0], 2)));
}

#[test]
fn specifier_sets_are_intersections() {
    let set = vec![
        spec(Operator::GreaterThanEqual, v(&[2, 2])),
        spec(Operator::LessThan, v(&[3])),
        spec(Operator::NotEqual, v(&[2, 5])),
    ];
    assert!(contains_all(&set, &v(&[2, 4])));
    assert!(!contains_all(&set, &v(&[2, 5])));
    assert!(!contains_all(&set, &v(&[3])));
    assert!(!contains_all(&set, &v(&[2, 1])));
    assert!(contains_all(&Vec::new(), &v(&[0])));
    assert!(!names_prerelease(&set));
    assert!(names_prerelease(&vec![spec(
        Operator::GreaterThanEqual,
        pre(&[5, 0, 0], PreReleaseKind::Beta, 0)
    )]));
    assert!(pins_version(&vec![spec(Operator::Equal, v(&[2, 4]))], &v(&[2, 4, 0])));
    assert!(!pins_version(&set, &v(&[2, 4])));
    assert!(spec(Operator::ExactEqual, v(&[2])).pins(&v(&[2])));
    assert!(!spec(Operator::GreaterThanEqual, v(&[2])).pins(&v(&[2])));
}

#[test]
fn texts_compare_lexicographically() {
    let order = |a: &str, b: &str| compare_text(&chars_of(a), &chars_of(b));
    assert_eq!(order("black", "click"), Order::Less);
    assert_eq!(order("click", "black"), Order::Greater);
    assert_eq!(order("mypy", "mypy-extensions"), Order::Less);
    assert_eq!(order("", ""), Order::Equal);
    assert_eq!(order("a", ""), Order::Greater);
    assert_eq!(order("Z", "a"), Order::Less);
    assert!(same_text("päth", "päth"));
    assert!(!same_text("a", "ab"));
}

#[test]
fn texts_are_found_inside_texts() {
    let find = |text: &str, needle: &str| find_text(&chars_of(text), &chars_of(needle));
    assert!(find("linux darwin", "darwin"));
    assert!(find("abc", ""));
    assert!(find("", ""));
    assert!(!find("abc", "abd"));
    assert!(!find("ab", "abc"));
    assert!(listed(&vec!["a".to_string(), "b".to_string()], "b"));
    assert!(!listed(&vec!["a".to_string()], "b"));
}

#[test]
fn names_are_normalized() {
    assert_eq!(normalize_name("Mypy_Extensions"), "mypy-extensions");
    assert_eq!(normalize_name("friendly--.__bard"), "friendly-bard");
    assert_eq!(normalize_name("FrIeNdLy.-_.-bArD"), "friendly-bard");
    assert_eq!(normalize_name("black"), "black");
    assert_eq!(normalize_name(""), "");
    assert_eq!(normalize_name("a."), "a-");
}

fn environment() -> MarkerEnvironment {
    let string_version = |text: &str, release: &[u64]| StringVersion {
        string: text.to_string(),
        version: v(release),
    };
    MarkerEnvironment {
        implementation_name: "cpython".to_string(),
        implementation_version: string_version("3.11.5", &[3, 11, 5]),
        os_name: "posix".to_string(),
        platform_machine: "arm64".to_string(),
        platform_python_implementation: "CPython".to_string(),
        platform_release: "21.6.0".to_string(),
        platform_system: "Darwin".to_string(),
        platform_version: "Darwin Kernel Version 21.6.0".to_string(),
        python_full_version: string_version("3.11.5", &[3, 11, 5]),
        python_version: string_version("3.11", &[3, 11]),
        sys_platform: "darwin".to_string(),
    }
}

fn python(operator: Operator, release: &[u64]) -> MarkerExpr {
    MarkerExpr::Version { key: VersionKey::PythonVersion, specifier: spec(operator, v(release)) }
}

fn system(operator: TextOp, value: &str) -> MarkerExpr {
    MarkerExpr::Text { key: TextKey::PlatformSystem, operator, value: value.to_string() }
}

#[test]
fn marker_comparisons() {
    let env = environment();
    assert!(python(Operator::GreaterThanEqual, &[3, 8]).evaluate(&env, None));
    assert!(!python(Operator::LessThan, &[3, 11]).evaluate(&env, None));
    assert!(system(TextOp::Equal, "Darwin").evaluate(&env, None));
    assert!(!system(TextOp::Equal, "Windows").evaluate(&env, None));
    assert!(system(TextOp::NotEqual, "Windows").evaluate(&env, None));
    assert!(system(TextOp::In, "Linux Darwin").evaluate(&env, None));
    assert!(system(TextOp::NotIn, "Linux Windows").evaluate(&env, None));
    assert!(system(TextOp::Contains, "arw").evaluate(&env, None));
    assert!(system(TextOp::NotContains, "x").evaluate(&env, None));
    assert!(system(TextOp::Less, "Linux").evaluate(&env, None));
    assert!(system(TextOp::GreaterEqual, "Darwin").evaluate(&env, None));
    assert_eq!(env.text(TextKey::SysPlatform), "darwin");
    assert_eq!(env.version(VersionKey::PythonFullVersion).release, vec![3, 11, 5]);
    assert!(compare_texts(TextOp::LessEqual, "a", "a"));
    assert!(compare_texts(TextOp::Greater, "b", "a"));
}

#[test]
fn extras_in_markers() {
    let env = environment();
    let colorama = MarkerExpr::Extra { name: "colorama".to_string() };
    assert!(colorama.evaluate(&env, Some("colorama")));
    assert!(!colorama.evaluate(&env, Some("d")));
    assert!(!colorama.evaluate(&env, None));
    let not_colorama = MarkerExpr::NotExtra { name: "colorama".to_string() };
    assert!(!not_colorama.evaluate(&env, Some("colorama")));
    assert!(not_colorama.evaluate(&env, None));
}

#[test]
fn a_marker_holds_where_one_clause_holds_in_full() {
    let env = environment();
    let marker = Marker {
        any_of: vec![
            vec![system(TextOp::Equal, "Windows")],
            vec![system(TextOp::Equal, "Darwin"), python(Operator::GreaterThanEqual, &[3, 12])],
        ],
    };
    assert!(!marker.evaluate(&env, None));
    let marker = Marker {
        any_of: vec![
            vec![system(TextOp::Equal, "Windows")],
            vec![system(TextOp::Equal, "Darwin"), python(Operator::GreaterThanEqual, &[3, 11])],
        ],
    };
    assert!(marker.evaluate(&env, None));
    assert!(!Marker { any_of: vec![] }.evaluate(&env, None));
    assert!(Marker { any_of: vec![vec![]] }.evaluate(&env, None));
}

#[test]
fn versions_are_read_from_their_normal_form() {
    for text in [
        "0",
        "23.9.1",
        "1.0.0",
        "20.8b1",
        "1rc2",
        "1a0",
        "1.0.post1",
        "1.0.dev3",
        "1.0a2.dev1",
        "1.0.post1.dev2",
        "1!2.0rc1.post2.dev3+ubuntu.1",
        "2024.1.1+cpu",
        "18446744073709551615",
    ] {
        let version = Version::parse(text).unwrap_or_else(|| panic!("{text} is not read"));
        assert_eq!(version.to_text(), text);
    }
    let version = Version::parse("1!2.0rc1.post2.dev3+ubuntu.1").unwrap();
    assert_eq!(version.epoch, 1);
    assert_eq!(version.release, vec![2, 0]);
    assert_eq!(version.pre, Some(PreRelease { kind: PreReleaseKind::Rc, number: 1 }));
    assert_eq!(version.post, Some(2));
    assert_eq!(version.dev, Some(3));
    assert_eq!(version.local, "ubuntu.1");
}

#[test]
fn texts_that_are_no_normal_form_are_not_read() {
    for text in [
        "",
        "1.",
        ".1",
        "01",
        "1.02",
        "0!1",
        "1!",
        "1.0rc",
        "1.0c1",
        "1.0RC1",
        "1.0.post",
        "1.0post1",
        "1.0-1",
        "1.0.dev",
        "1.0.dev1.post1",
        "1.0b1a1",
        "1.0+",
        "1.0+Cpu",
        "1.0+a_b",
        "v1.0",
        "1.0 ",
        "1..0",
        "18446744073709551616",
        "1.0.*",
    ] {
        assert!(Version::parse(text).is_none(), "{text} is read");
    }
}

#[test]
fn specifiers_are_read_from_their_normal_form() {
    for (text, operator) in [
        ("==1.0", Operator::Equal),
        ("==1.*", Operator::EqualStar),
        ("===1.0", Operator::ExactEqual),
        ("!=2.5", Operator::NotEqual),
        ("!=2.*", Operator::NotEqualStar),
        ("~=2.2", Operator::TildeEqual),
        ("<3", Operator::LessThan),
        ("<=23.9.1", Operator::LessThanEqual),
        (">21", Operator::GreaterThan),
        (">=5.0.0b0", Operator::GreaterThanEqual),
    ] {
        let specifier = Specifier::parse(text).unwrap_or_else(|| panic!("{text} is not read"));
        assert_eq!(specifier.operator, operator);
        assert_eq!(specifier.to_text(), text);
    }
    for text in ["", "1.0", "=1.0", "=>1.0", "<>1", "== 1.0", "<1.*", "~=1.*", "==*", "<=", ">=1.0,"] {
        assert!(Specifier::parse(text).is_none(), "{text} is read");
    }
}

#[test]
fn requirements_are_read_from_their_normal_form() {
    let r = Requirement::parse("black[colorama,d]>=22.1.0,<=23.9.1,!=23.1.*").unwrap();
    assert_eq!(r.name, "black");
    assert_eq!(r.extras, vec!["colorama".to_string(), "d".to_string()]);
    assert_eq!(r.specifiers.len(), 3);
    assert_eq!(r.specifiers[0].operator, Operator::GreaterThanEqual);
    assert_eq!(r.specifiers[0].version.release, vec![22, 1, 0]);
    assert_eq!(r.specifiers[1].operator, Operator::LessThanEqual);
    assert_eq!(r.specifiers[2].operator, Operator::NotEqualStar);
    assert_eq!(r.specifiers[2].version.release, vec![23, 1]);
    assert!(r.marker.is_none());
    for text in [
        "black",
        "black<=23.9.1",
        "mypy-extensions<0.4.4",
        "black[colorama]<=23.9.1",
        "black[colorama,d]>=22.1.0,<=23.9.1,!=23.1.*",
        "a[b]",
        "pkg==1!2.0rc1.post2.dev3+ubuntu.1",
    ] {
        let r = Requirement::parse(text).unwrap_or_else(|| panic!("{text} is not read"));
        assert_eq!(r.to_text(), text);
    }
    for text in [
        "",
        "Black",
        "black ",
        "black <1",
        "black[]",
        "black[colorama",
        "black[colorama,]",
        "black[colorama]]",
        "black<=23.9.1,",
        "black,<1",
        "black<=",
        "black<=23.9.1; python_version<'3.8'",
        "my_package",
        "[extra]",
        "<1",
    ] {
        assert!(Requirement::parse(text).is_none(), "{text} is read");
    }
}

#[test]
fn lines_of_a_graph_read_back_as_pins() {
    let r = Requirement::parse("black[colorama]==23.9.1").unwrap();
    assert_eq!(r.name, "black");
    assert_eq!(r.extras, vec!["colorama".to_string()]);
    assert_eq!(r.specifiers[0].operator, Operator::Equal);
    assert_eq!(text(&r.specifiers[0].version), "23.9.1");
}
