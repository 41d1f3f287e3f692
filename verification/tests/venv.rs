use puffin::cfg::write_cfg;
use puffin::interpreter::Interpreter;
use puffin::marker::{MarkerEnvironment, StringVersion};
use puffin::version::Version;
use puffin::text::{chars_of, push_decimal, replace_all, string_of};
use puffin::venv::{
    activation_script, create_bare_venv, plan_bare_venv, prepare_location, pyvenv_cfg_data,
    pyvenv_cfg_path, Existing, FsStep, Template, VenvError, VenvErrorKind, VenvPaths,
};

fn string_version(text: &str) -> StringVersion {
    StringVersion { string: text.to_string(), version: Version::parse(text).unwrap() }
}

fn python_311() -> Interpreter {
    Interpreter {
        sys_executable: "/usr/local/bin/python3.11".to_string(),
        base_prefix: "/usr/local".to_string(),
        base_exec_prefix: "/usr/local".to_string(),
        major: 3,
        minor: 11,
        markers: MarkerEnvironment {
            implementation_name: "cpython".to_string(),
            implementation_version: string_version("3.11.5"),
            os_name: "posix".to_string(),
            platform_machine: "arm64".to_string(),
            platform_python_implementation: "CPython".to_string(),
            platform_release: "21.6.0".to_string(),
            platform_system: "Darwin".to_string(),
            platform_version: "Darwin Kernel Version 21.6.0".to_string(),
            python_full_version: string_version("3.11.5"),
            python_version: string_version("3.11"),
            sys_platform: "darwin".to_string(),
        },
    }
}

fn replace(text: &str, from: &str, to: &str) -> String {
    string_of(&replace_all(&chars_of(text), &chars_of(from), &chars_of(to)))
}

fn decimal(n: u64) -> String {
    let mut out = Vec::new();
    push_decimal(&mut out, n);
    string_of(&out)
}

fn write(path: &str, contents: &str) -> FsStep {
    FsStep::WriteFile { path: path.to_string(), contents: contents.to_string() }
}

fn link(original: &str, link: &str) -> FsStep {
    FsStep::Symlink { original: original.to_string(), link: link.to_string() }
}

#[test]
fn cfg_lines_are_key_space_equals_space_value() {
    let mut out = String::new();
    let data = [("home", "/usr/bin".to_string()), ("implementation", "CPython".to_string())];
    write_cfg(&mut out, &data);
    assert_eq!(out, "home = /usr/bin\nimplementation = CPython\n");
}

#[test]
fn cfg_of_nothing_is_empty_and_appends() {
    let mut out = "# head\n".to_string();
    write_cfg(&mut out, &[]);
    assert_eq!(out, "# head\n");
    write_cfg(&mut out, &[("k", String::new())]);
    assert_eq!(out, "# head\nk = \n");
}

#[test]
fn decimal_numerals() {
    assert_eq!(decimal(0), "0");
    assert_eq!(decimal(7), "7");
    assert_eq!(decimal(10), "10");
    assert_eq!(decimal(311), "311");
    assert_eq!(decimal(u64::MAX), "18446744073709551615");
}

#[test]
fn chars_round_trip() {
    assert_eq!(string_of(&chars_of("päth/ü")), "päth/ü");
    assert_eq!(chars_of("ab"), vec!['a', 'b']);
}

#[test]
fn replace_every_occurrence_from_the_left() {
    assert_eq!(replace("a-b-c", "-", "+"), "a+b+c");
    assert_eq!(replace("aaa", "aa", "b"), "ba");
    assert_eq!(replace("abc", "x", "y"), "abc");
    assert_eq!(replace("", "x", "y"), "");
    assert_eq!(replace("xx", "x", "xx"), "xxxx");
    assert_eq!(replace("abc", "abcd", "y"), "abc");
}

#[test]
fn replace_agrees_with_std() {
    let cases = [
        ("abc", "", "-"),
        ("", "", "-"),
        ("{{ A }} and {{ A }}", "{{ A }}", "/venv"),
        ("ababab", "aba", "x"),
        ("ünï", "n", "nn"),
    ];
    for (text, from, to) in cases {
        assert_eq!(replace(text, from, to), text.replace(from, to));
    }
}

#[test]
fn activation_script_fills_both_paths() {
    let script = activation_script(
        "VIRTUAL_ENV='{{ VIRTUAL_ENV_DIR }}'\nsite={{ RELATIVE_SITE_PACKAGES }}\n",
        "/work/.venv",
        3,
        11,
    );
    assert_eq!(script, "VIRTUAL_ENV='/work/.venv'\nsite=../lib/python3.11/site-packages\n");
}

#[test]
fn pyvenv_cfg_keys_in_order() {
    let data = pyvenv_cfg_data("/usr/local/bin".to_string(), &python_311());
    let expected = vec![
        ("home", "/usr/local/bin".to_string()),
        ("implementation", "CPython".to_string()),
        ("version_info", "3.11".to_string()),
        ("include-system-site-packages", "false".to_string()),
        ("base-prefix", "/usr/local".to_string()),
        ("base-exec-prefix", "/usr/local".to_string()),
        ("base-executable", "/usr/local/bin/python3.11".to_string()),
    ];
    assert_eq!(data, expected);
}

#[test]
fn marker_file_path_is_joined() {
    assert_eq!(pyvenv_cfg_path("/work/.venv"), "/work/.venv/pyvenv.cfg");
    assert_eq!(pyvenv_cfg_path("/"), "/pyvenv.cfg");
    assert_eq!(pyvenv_cfg_path(""), "pyvenv.cfg");
    assert_eq!(pyvenv_cfg_path("rel/"), "rel/pyvenv.cfg");
}

#[test]
fn prepare_nothing_creates_the_directory() {
    assert_eq!(
        prepare_location(".venv", Existing::Nothing),
        Ok(vec![FsStep::CreateDirAll { path: ".venv".to_string() }])
    );
}

#[test]
fn prepare_existing_virtualenv_removes_it_first() {
    assert_eq!(
        prepare_location(".venv", Existing::Virtualenv),
        Ok(vec![
            FsStep::RemoveDirAll { path: ".venv".to_string() },
            FsStep::CreateDirAll { path: ".venv".to_string() },
        ])
    );
}

#[test]
fn prepare_refuses_a_directory_that_is_no_virtualenv() {
    let err = prepare_location("/home/me/project", Existing::Other).unwrap_err();
    assert_eq!(err, VenvError::NotAVirtualenv { location: "/home/me/project".to_string() });
    assert_eq!(err.kind(), VenvErrorKind::AlreadyExists);
    assert_eq!(err.message(), "The directory /home/me/project exists, but it is not virtualenv");
}

#[test]
fn no_parent_error_text() {
    assert_eq!(VenvError::NoParent.kind(), VenvErrorKind::NotFound);
    assert_eq!(
        VenvError::NoParent.message(),
        "The python interpreter needs to have a parent directory"
    );
}

#[test]
fn simple_version_is_major_and_minor() {
    assert_eq!(python_311().simple_version(), (3, 11));
}

fn templates() -> Vec<Template> {
    vec![
        Template {
            name: "activate".to_string(),
            body: "export VIRTUAL_ENV='{{ VIRTUAL_ENV_DIR }}'".to_string(),
        },
        Template {
            name: "activate_this.py".to_string(),
            body: "site = '{{ RELATIVE_SITE_PACKAGES }}'".to_string(),
        },
    ]
}

fn head_of_plan() -> Vec<FsStep> {
    vec![
        write("/work/.venv/.gitignore", "*"),
        FsStep::CreateDir { path: "/work/.venv/bin".to_string() },
        link("/usr/local/bin/python3.11", "/work/.venv/bin/python"),
        link("python", "/work/.venv/bin/python3"),
        link("python", "/work/.venv/bin/python3.11"),
        write("/work/.venv/bin/activate", "export VIRTUAL_ENV='/work/.venv'"),
        write("/work/.venv/bin/activate_this.py", "site = '../lib/python3.11/site-packages'"),
    ]
}

#[test]
fn bare_venv_plan_in_full() {
    let plan = create_bare_venv("/work/.venv", &python_311(), &templates(), "# patch\n");
    let mut expected = head_of_plan();
    expected.push(write(
        "/work/.venv/pyvenv.cfg",
        "home = /usr/local/bin\n\
         implementation = CPython\n\
         version_info = 3.11\n\
         include-system-site-packages = false\n\
         base-prefix = /usr/local\n\
         base-exec-prefix = /usr/local\n\
         base-executable = /usr/local/bin/python3.11\n",
    ));
    expected.push(FsStep::CreateDirAll {
        path: "/work/.venv/lib/python3.11/site-packages".to_string(),
    });
    expected.push(write("/work/.venv/lib/python3.11/site-packages/_virtualenv.py", "# patch\n"));
    expected.push(write(
        "/work/.venv/lib/python3.11/site-packages/_virtualenv.pth",
        "import _virtualenv",
    ));
    assert_eq!(plan.steps, expected);
    assert_eq!(
        plan.outcome,
        Ok(VenvPaths {
            root: "/work/.venv".to_string(),
            interpreter: "/work/.venv/bin/python".to_string(),
            bin: "/work/.venv/bin".to_string(),
            site_packages: "/work/.venv/lib/python3.11/site-packages".to_string(),
        })
    );
}

#[test]
fn interpreter_without_parent_stops_before_pyvenv_cfg() {
    let mut interpreter = python_311();
    interpreter.sys_executable = "/".to_string();
    let plan = create_bare_venv("/work/.venv", &interpreter, &templates(), "# patch\n");
    let mut expected = head_of_plan();
    expected[2] = link("/", "/work/.venv/bin/python");
    assert_eq!(plan.steps, expected);
    assert_eq!(plan.outcome, Err(VenvError::NoParent));
}

#[test]
fn plan_with_a_given_home() {
    let with = plan_bare_venv(
        "/v",
        &python_311(),
        Some("/opt/py/bin".to_string()),
        &Vec::new(),
        "",
    );
    assert_eq!(with.steps.len(), 9);
    assert_eq!(
        with.steps[5],
        write(
            "/v/pyvenv.cfg",
            "home = /opt/py/bin\n\
             implementation = CPython\n\
             version_info = 3.11\n\
             include-system-site-packages = false\n\
             base-prefix = /usr/local\n\
             base-exec-prefix = /usr/local\n\
             base-executable = /usr/local/bin/python3.11\n",
        )
    );
    let without = plan_bare_venv("/v", &python_311(), None, &Vec::new(), "");
    assert_eq!(without.steps, with.steps[..5].to_vec());
    assert_eq!(without.outcome, Err(VenvError::NoParent));
}

#[test]
fn home_is_the_parent_of_the_executable() {
    let mut interpreter = python_311();
    interpreter.sys_executable = "python".to_string();
    let plan = create_bare_venv("/v", &interpreter, &Vec::new(), "");
    match &plan.steps[5] {
        FsStep::WriteFile { contents, .. } => assert!(contents.starts_with("home = \n")),
        other => panic!("unexpected step {:?}", other),
    }
}
