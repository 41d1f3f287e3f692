//! The layout of a bare virtual environment: one without any package
//! installed. The library computes what is to be written; the caller writes it.

use crate::cfg::{cfg_text, entries, write_cfg};
use crate::interpreter::{Interpreter, InterpreterView};
use crate::path::{join, joined, parent, path_parent};
use crate::text::{chars_of, decimal, push_decimal, push_str, replace_all, replaced, string_of};
use vstd::prelude::*;
use vstd::string::StringExecFns;

verus! {

/// Absolute paths of the virtual environment.
#[derive(Debug, Clone, PartialEq, Eq)]
pub struct VenvPaths {
    /// The location of the environment, such as `.venv`.
    pub root: String,
    /// The Python interpreter inside the environment, `.venv/bin/python`.
    pub interpreter: String,
    /// The directory with the scripts, `.venv/bin`.
    pub bin: String,
    /// The directory that packages are installed to, for Python 3.11
    /// `.venv/lib/python3.11/site-packages`.
    pub site_packages: String,
}

/// The mathematical value of [`VenvPaths`].
pub struct VenvPathsView {
    pub root: Seq<char>,
    pub interpreter: Seq<char>,
    pub bin: Seq<char>,
    pub site_packages: Seq<char>,
}

impl View for VenvPaths {
    type V = VenvPathsView;

    open spec fn view(&self) -> VenvPathsView {
        VenvPathsView {
            root: self.root@,
            interpreter: self.interpreter@,
            bin: self.bin@,
            site_packages: self.site_packages@,
        }
    }
}

/// One change to the file system.
#[derive(Debug, Clone, PartialEq, Eq)]
pub enum FsStep {
    /// Remove the directory at `path` with all that it holds.
    RemoveDirAll { path: String },
    /// Create the directory at `path`; its parent exists.
    CreateDir { path: String },
    /// Create the directory at `path` and every missing parent.
    CreateDirAll { path: String },
    /// Create or overwrite the file at `path` with `contents`.
    WriteFile { path: String, contents: String },
    /// Create the symbolic link `link`, pointing to `original`.
    Symlink { original: String, link: String },
}

/// The mathematical value of an [`FsStep`].
pub enum FsStepView {
    RemoveDirAll { path: Seq<char> },
    CreateDir { path: Seq<char> },
    CreateDirAll { path: Seq<char> },
    WriteFile { path: Seq<char>, contents: Seq<char> },
    Symlink { original: Seq<char>, link: Seq<char> },
}

impl View for FsStep {
    type V = FsStepView;

    open spec fn view(&self) -> FsStepView {
        match self {
            FsStep::RemoveDirAll { path } => FsStepView::RemoveDirAll { path: path@ },
            FsStep::CreateDir { path } => FsStepView::CreateDir { path: path@ },
            FsStep::CreateDirAll { path } => FsStepView::CreateDirAll { path: path@ },
            FsStep::WriteFile { path, contents } => FsStepView::WriteFile {
                path: path@,
                contents: contents@,
            },
            FsStep::Symlink { original, link } => FsStepView::Symlink {
                original: original@,
                link: link@,
            },
        }
    }
}

/// The values of a list of steps, in order.
pub open spec fn steps_view(steps: Seq<FsStep>) -> Seq<FsStepView> {
    Seq::new(steps.len(), |i: int| steps[i]@)
}

/// An activation script before the environment's paths are filled in.
#[derive(Debug, Clone, PartialEq, Eq)]
pub struct Template {
    /// The file's name inside the scripts directory, such as `activate.fish`.
    pub name: String,
    /// The script, with `{{ VIRTUAL_ENV_DIR }}` and
    /// `{{ RELATIVE_SITE_PACKAGES }}` where the paths belong.
    pub body: String,
}

/// The mathematical value of a [`Template`].
pub struct TemplateView {
    pub name: Seq<char>,
    pub body: Seq<char>,
}

impl View for Template {
    type V = TemplateView;

    open spec fn view(&self) -> TemplateView {
        TemplateView { name: self.name@, body: self.body@ }
    }
}

/// The values of a list of templates, in order.
pub open spec fn templates_view(templates: Seq<Template>) -> Seq<TemplateView> {
    Seq::new(templates.len(), |i: int| templates[i]@)
}

/// Why no environment can be created.
#[derive(Debug, Clone, PartialEq, Eq)]
pub enum VenvError {
    /// Something that is no virtual environment stands at the location.
    NotAVirtualenv { location: String },
    /// The interpreter's executable has no parent directory.
    NoParent,
}

/// The mathematical value of a [`VenvError`].
pub enum VenvErrorView {
    NotAVirtualenv { location: Seq<char> },
    NoParent,
}

impl View for VenvError {
    type V = VenvErrorView;

    open spec fn view(&self) -> VenvErrorView {
        match self {
            VenvError::NotAVirtualenv { location } => VenvErrorView::NotAVirtualenv {
                location: location@,
            },
            VenvError::NoParent => VenvErrorView::NoParent,
        }
    }
}

/// The kind of I/O error that a [`VenvError`] is reported as.
#[derive(Debug, Clone, Copy, PartialEq, Eq)]
pub enum VenvErrorKind {
    AlreadyExists,
    NotFound,
}

impl VenvErrorView {
    /// The message shown to the user.
    pub open spec fn message(self) -> Seq<char> {
        match self {
            VenvErrorView::NotAVirtualenv { location } => "The directory "@ + location
                + " exists, but it is not virtualenv"@,
            VenvErrorView::NoParent => "The python interpreter needs to have a parent directory"@,
        }
    }
}

impl VenvError {
    /// The kind of I/O error to report.
    pub fn kind(&self) -> (k: VenvErrorKind)
        ensures
            k == (match self@ {
                VenvErrorView::NotAVirtualenv { .. } => VenvErrorKind::AlreadyExists,
                VenvErrorView::NoParent => VenvErrorKind::NotFound,
            }),
    {
        match self {
            VenvError::NotAVirtualenv { .. } => VenvErrorKind::AlreadyExists,
            VenvError::NoParent => VenvErrorKind::NotFound,
        }
    }

    /// The message shown to the user.
    pub fn message(&self) -> (m: String)
        ensures
            m@ == self@.message(),
    {
        match self {
            VenvError::NotAVirtualenv { location } => {
                let mut m = "The directory ".to_owned();
                m.append(location.as_str());
                m.append(" exists, but it is not virtualenv");
                m
            },
            VenvError::NoParent => "The python interpreter needs to have a parent directory".to_owned(),
        }
    }
}

/// What the caller found at the location before anything is written.
#[derive(Debug, Clone, Copy, PartialEq, Eq)]
pub enum Existing {
    /// Nothing exists at the location.
    Nothing,
    /// A directory with a `pyvenv.cfg` file in it.
    Virtualenv,
    /// Anything else.
    Other,
}

/// The file whose presence marks a directory as a virtual environment.
pub open spec fn marker_path(location: Seq<char>) -> Seq<char> {
    joined(location, "pyvenv.cfg"@)
}

/// The path of the file whose presence marks `location` as a virtual
/// environment.
pub fn pyvenv_cfg_path(location: &str) -> (p: String)
    ensures
        p@ == marker_path(location@),
{
    join(location, "pyvenv.cfg")
}

/// The steps that leave an empty directory at `location`, by what was found there.
pub open spec fn prepared(location: Seq<char>, found: Existing) -> Result<
    Seq<FsStepView>,
    VenvErrorView,
> {
    match found {
        Existing::Nothing => Ok(seq![FsStepView::CreateDirAll { path: location }]),
        Existing::Virtualenv => Ok(
            seq![
                FsStepView::RemoveDirAll { path: location },
                FsStepView::CreateDirAll { path: location },
            ],
        ),
        Existing::Other => Err(VenvErrorView::NotAVirtualenv { location }),
    }
}

/// The view of a result of steps.
pub open spec fn prepared_view(r: Result<Vec<FsStep>, VenvError>) -> Result<
    Seq<FsStepView>,
    VenvErrorView,
> {
    match r {
        Ok(steps) => Ok(steps_view(steps@)),
        Err(e) => Err(e@),
    }
}

/// Decides what to do with what stands at `location`: an existing virtual
/// environment is removed, anything else is left alone and reported.
pub fn prepare_location(location: &str, found: Existing) -> (r: Result<Vec<FsStep>, VenvError>)
    ensures
        prepared_view(r) == prepared(location@, found),
{
    let mut steps: Vec<FsStep> = Vec::new();
    match found {
        Existing::Nothing => {},
        Existing::Virtualenv => {
            steps.push(FsStep::RemoveDirAll { path: location.to_owned() });
        },
        Existing::Other => {
            return Err(VenvError::NotAVirtualenv { location: location.to_owned() });
        },
    }
    steps.push(FsStep::CreateDirAll { path: location.to_owned() });
    assert(steps_view(steps@) =~= prepared(location@, found)->Ok_0);
    Ok(steps)
}

/// The name `python3` for major version 3.
pub open spec fn python_major(major: u8) -> Seq<char> {
    "python"@ + decimal(major as nat)
}

/// The name `python3.11` for version 3.11.
pub open spec fn python_major_minor(major: u8, minor: u8) -> Seq<char> {
    "python"@ + decimal(major as nat) + "."@ + decimal(minor as nat)
}

/// The way from the scripts directory to the packages directory.
pub open spec fn relative_site_packages(major: u8, minor: u8) -> Seq<char> {
    "../lib/"@ + python_major_minor(major, minor) + "/site-packages"@
}

/// The packages directory of the environment at `location`.
pub open spec fn site_packages_path(location: Seq<char>, major: u8, minor: u8) -> Seq<char> {
    joined(joined(joined(location, "lib"@), python_major_minor(major, minor)), "site-packages"@)
}

/// An activation script with the environment's paths filled in.
pub open spec fn activator(template: Seq<char>, location: Seq<char>, major: u8, minor: u8) -> Seq<
    char,
> {
    replaced(
        replaced(template, "{{ VIRTUAL_ENV_DIR }}"@, location),
        "{{ RELATIVE_SITE_PACKAGES }}"@,
        relative_site_packages(major, minor),
    )
}

/// The entries of `pyvenv.cfg`, in the order in which they are written.
pub open spec fn cfg_entries(home: Seq<char>, interpreter: InterpreterView) -> Seq<
    (Seq<char>, Seq<char>),
> {
    seq![
        ("home"@, home),
        ("implementation"@, "CPython"@),
        ("version_info"@, interpreter.python_version),
        ("include-system-site-packages"@, "false"@),
        ("base-prefix"@, interpreter.base_prefix),
        ("base-exec-prefix"@, interpreter.base_exec_prefix),
        ("base-executable"@, interpreter.sys_executable),
    ]
}

fn python_name(major: u8, minor: Option<u8>) -> (name: Vec<char>)
    ensures
        name@ == (match minor {
            Some(m) => python_major_minor(major, m),
            None => python_major(major),
        }),
{
    let mut name: Vec<char> = Vec::new();
    push_str(&mut name, "python");
    push_decimal(&mut name, major as u64);
    match minor {
        Some(m) => {
            push_str(&mut name, ".");
            push_decimal(&mut name, m as u64);
        },
        None => {},
    }
    name
}

/// Fills the environment's paths into an activation script.
pub fn activation_script(template: &str, location: &str, major: u8, minor: u8) -> (script: String)
    ensures
        script@ == activator(template@, location@, major, minor),
{
    let mut rel: Vec<char> = Vec::new();
    push_str(&mut rel, "../lib/");
    let name = python_name(major, Some(minor));
    crate::text::push_all(&mut rel, &name);
    push_str(&mut rel, "/site-packages");
    let first = replace_all(
        &chars_of(template),
        &chars_of("{{ VIRTUAL_ENV_DIR }}"),
        &chars_of(location),
    );
    let second = replace_all(&first, &chars_of("{{ RELATIVE_SITE_PACKAGES }}"), &rel);
    string_of(&second)
}

/// The entries of `pyvenv.cfg` for an interpreter whose executable lies in
/// the directory `home`.
pub fn pyvenv_cfg_data(home: String, interpreter: &Interpreter) -> (data: Vec<
    (&'static str, String),
>)
    ensures
        entries(data@) == cfg_entries(home@, interpreter@),
{
    let mut data: Vec<(&'static str, String)> = Vec::new();
    data.push(("home", home));
    data.push(("implementation", "CPython".to_owned()));
    data.push(("version_info", interpreter.markers.python_version.string.clone()));
    data.push(("include-system-site-packages", "false".to_owned()));
    data.push(("base-prefix", interpreter.base_prefix.clone()));
    data.push(("base-exec-prefix", interpreter.base_exec_prefix.clone()));
    data.push(("base-executable", interpreter.sys_executable.clone()));
    assert(entries(data@) =~= cfg_entries(home@, interpreter@));
    data
}

/// What is to be done to create a bare environment, and what comes of it.
#[derive(Debug, PartialEq, Eq)]
pub struct VenvPlan {
    /// The changes to the file system, in the order in which they are made.
    /// The first one that fails ends the work with its error.
    pub steps: Vec<FsStep>,
    /// What is returned once every step is done.
    pub outcome: Result<VenvPaths, VenvError>,
}

/// The mathematical value of a [`VenvPlan`].
pub struct VenvPlanView {
    pub steps: Seq<FsStepView>,
    pub outcome: Result<VenvPathsView, VenvErrorView>,
}

impl View for VenvPlan {
    type V = VenvPlanView;

    open spec fn view(&self) -> VenvPlanView {
        VenvPlanView {
            steps: steps_view(self.steps@),
            outcome: match self.outcome {
                Ok(paths) => Ok(paths@),
                Err(e) => Err(e@),
            },
        }
    }
}

/// The text of an optional string.
pub open spec fn text_of(s: Option<String>) -> Option<Seq<char>> {
    match s {
        Some(t) => Some(t@),
        None => None,
    }
}

/// The paths of the environment at `location`.
pub open spec fn venv_paths(location: Seq<char>, interpreter: InterpreterView) -> VenvPathsView {
    VenvPathsView {
        root: location,
        interpreter: joined(joined(location, "bin"@), "python"@),
        bin: joined(location, "bin"@),
        site_packages: site_packages_path(location, interpreter.major, interpreter.minor),
    }
}

/// The steps that need no home directory of the interpreter: the ignore
/// file, the scripts directory, the three links to the interpreter, and one
/// activation script per template.
pub open spec fn head_steps(
    location: Seq<char>,
    interpreter: InterpreterView,
    templates: Seq<TemplateView>,
) -> Seq<FsStepView> {
    let bin = joined(location, "bin"@);
    seq![
        FsStepView::WriteFile { path: joined(location, ".gitignore"@), contents: "*"@ },
        FsStepView::CreateDir { path: bin },
        FsStepView::Symlink {
            original: interpreter.sys_executable,
            link: joined(bin, "python"@),
        },
        FsStepView::Symlink {
            original: "python"@,
            link: joined(bin, python_major(interpreter.major)),
        },
        FsStepView::Symlink {
            original: "python"@,
            link: joined(bin, python_major_minor(interpreter.major, interpreter.minor)),
        },
    ] + Seq::new(
        templates.len(),
        |i: int|
            FsStepView::WriteFile {
                path: joined(bin, templates[i].name),
                contents: activator(
                    templates[i].body,
                    location,
                    interpreter.major,
                    interpreter.minor,
                ),
            },
    )
}

/// The steps that follow once the interpreter's home directory is known:
/// `pyvenv.cfg`, the packages directory, and the two files of the
/// `_virtualenv` patch.
pub open spec fn tail_steps(
    location: Seq<char>,
    interpreter: InterpreterView,
    home: Seq<char>,
    patch: Seq<char>,
) -> Seq<FsStepView> {
    let site_packages = site_packages_path(location, interpreter.major, interpreter.minor);
    seq![
        FsStepView::WriteFile {
            path: joined(location, "pyvenv.cfg"@),
            contents: cfg_text(cfg_entries(home, interpreter)),
        },
        FsStepView::CreateDirAll { path: site_packages },
        FsStepView::WriteFile { path: joined(site_packages, "_virtualenv.py"@), contents: patch },
        FsStepView::WriteFile {
            path: joined(site_packages, "_virtualenv.pth"@),
            contents: "import _virtualenv"@,
        },
    ]
}

/// The plan for a bare environment at `location`, where `home` is the parent
/// directory of the interpreter's executable, if it has one. Without one
/// the first steps are still taken, and the work ends with an error before
/// `pyvenv.cfg` is written.
pub open spec fn bare_venv_plan(
    location: Seq<char>,
    interpreter: InterpreterView,
    home: Option<Seq<char>>,
    templates: Seq<TemplateView>,
    patch: Seq<char>,
) -> VenvPlanView {
    match home {
        None => VenvPlanView {
            steps: head_steps(location, interpreter, templates),
            outcome: Err(VenvErrorView::NoParent),
        },
        Some(h) => VenvPlanView {
            steps: head_steps(location, interpreter, templates) + tail_steps(
                location,
                interpreter,
                h,
                patch,
            ),
            outcome: Ok(venv_paths(location, interpreter)),
        },
    }
}

/// Plans a bare environment at `location`, an absolute path, given the
/// parent directory `home` of the interpreter's executable.
pub fn plan_bare_venv(
    location: &str,
    interpreter: &Interpreter,
    home: Option<String>,
    templates: &Vec<Template>,
    patch: &str,
) -> (plan: VenvPlan)
    ensures
        plan@ == bare_venv_plan(
            location@,
            interpreter@,
            text_of(home),
            templates_view(templates@),
            patch@,
        ),
{
    let ghost head = head_steps(location@, interpreter@, templates_view(templates@));
    let bin = join(location, "bin");
    let venv_python = join(bin.as_str(), "python");
    let major_name = string_of(&python_name(interpreter.major, None));
    let minor_name = string_of(&python_name(interpreter.major, Some(interpreter.minor)));
    let mut steps: Vec<FsStep> = Vec::new();
    steps.push(FsStep::WriteFile { path: join(location, ".gitignore"), contents: "*".to_owned() });
    steps.push(FsStep::CreateDir { path: bin.clone() });
    steps.push(
        FsStep::Symlink { original: interpreter.sys_executable.clone(), link: venv_python.clone() },
    );
    steps.push(
        FsStep::Symlink {
            original: "python".to_owned(),
            link: join(bin.as_str(), major_name.as_str()),
        },
    );
    steps.push(
        FsStep::Symlink {
            original: "python".to_owned(),
            link: join(bin.as_str(), minor_name.as_str()),
        },
    );
    assert(steps_view(steps@) =~= head.take(5));
    let mut i: usize = 0;
    while i < templates.len()
        invariant
            i <= templates.len(),
            head == head_steps(location@, interpreter@, templates_view(templates@)),
            bin@ == joined(location@, "bin"@),
            steps_view(steps@) == head.take(5 + i),
        decreases templates.len() - i,
    {
        let template = &templates[i];
        let script = activation_script(
            template.body.as_str(),
            location,
            interpreter.major,
            interpreter.minor,
        );
        let ghost before = steps_view(steps@);
        steps.push(FsStep::WriteFile { path: join(bin.as_str(), template.name.as_str()), contents: script });
        proof {
            assert(templates_view(templates@)[i as int] == templates@[i as int]@);
            assert(steps_view(steps@) =~= before.push(steps@.last()@));
            assert(head.take(5 + i + 1) =~= head.take(5 + i).push(head[5 + i]));
        }
        i = i + 1;
    }
    assert(head.take(5 + i) =~= head);
    match home {
        None => VenvPlan { steps, outcome: Err(VenvError::NoParent) },
        Some(h) => {
            let ghost tail = tail_steps(location@, interpreter@, h@, patch@);
            let lib = join(location, "lib");
            let versioned = join(lib.as_str(), minor_name.as_str());
            let site_packages = join(versioned.as_str(), "site-packages");
            let data = pyvenv_cfg_data(h, interpreter);
            let mut cfg = String::new();
            write_cfg(&mut cfg, data.as_slice());
            assert(cfg@ =~= cfg_text(cfg_entries(h@, interpreter@)));
            steps.push(FsStep::WriteFile { path: join(location, "pyvenv.cfg"), contents: cfg });
            steps.push(FsStep::CreateDirAll { path: site_packages.clone() });
            steps.push(
                FsStep::WriteFile {
                    path: join(site_packages.as_str(), "_virtualenv.py"),
                    contents: patch.to_owned(),
                },
            );
            steps.push(
                FsStep::WriteFile {
                    path: join(site_packages.as_str(), "_virtualenv.pth"),
                    contents: "import _virtualenv".to_owned(),
                },
            );
            assert(steps_view(steps@) =~= head + tail);
            VenvPlan {
                steps,
                outcome: Ok(
                    VenvPaths {
                        root: location.to_owned(),
                        interpreter: venv_python,
                        bin,
                        site_packages,
                    },
                ),
            }
        },
    }
}

/// Plans all the files that belong to a virtual environment without any
/// package installed, at the absolute path `location`, for `interpreter`.
/// The interpreter's home directory is the parent of its executable.
pub fn create_bare_venv(
    location: &str,
    interpreter: &Interpreter,
    templates: &Vec<Template>,
    patch: &str,
) -> (plan: VenvPlan)
    ensures
        plan@ == bare_venv_plan(
            location@,
            interpreter@,
            path_parent(interpreter@.sys_executable),
            templates_view(templates@),
            patch@,
        ),
{
    let home = parent(interpreter.sys_executable.as_str());
    assert(text_of(home) == path_parent(interpreter@.sys_executable));
    plan_bare_venv(location, interpreter, home, templates, patch)
}

} // verus!
