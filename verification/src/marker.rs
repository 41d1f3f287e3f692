//! Environment markers: conditions on the target environment under which a
//! requirement applies.

use crate::specifier::{satisfies, Specifier};
use crate::text::{chars_of, compare_text, contains_text, find_text, same_text, text_order};
use crate::version::{Order, Version, VersionView};
use vstd::prelude::*;

verus! {

/// A version of the environment, as text and as the version it denotes.
#[derive(Debug, Clone)]
pub struct StringVersion {
    pub string: String,
    pub version: Version,
}

/// The environment that markers are evaluated against.
#[derive(Debug, Clone)]
pub struct MarkerEnvironment {
    pub implementation_name: String,
    pub implementation_version: StringVersion,
    pub os_name: String,
    pub platform_machine: String,
    pub platform_python_implementation: String,
    pub platform_release: String,
    pub platform_system: String,
    pub platform_version: String,
    pub python_full_version: StringVersion,
    pub python_version: StringVersion,
    pub sys_platform: String,
}

/// The variables of the environment that hold a version.
#[derive(Debug, Clone, Copy, PartialEq, Eq, Structural)]
pub enum VersionKey {
    ImplementationVersion,
    PythonFullVersion,
    PythonVersion,
}

/// The variables of the environment that hold plain text.
#[derive(Debug, Clone, Copy, PartialEq, Eq, Structural)]
pub enum TextKey {
    ImplementationName,
    OsName,
    PlatformMachine,
    PlatformPythonImplementation,
    PlatformRelease,
    PlatformSystem,
    PlatformVersion,
    SysPlatform,
}

/// The comparisons of a variable of the environment with a text.
#[derive(Debug, Clone, Copy, PartialEq, Eq, Structural)]
pub enum TextOp {
    /// `variable == "text"`
    Equal,
    /// `variable != "text"`
    NotEqual,
    /// `variable < "text"`, in lexicographic order
    Less,
    /// `variable <= "text"`
    LessEqual,
    /// `variable > "text"`
    Greater,
    /// `variable >= "text"`
    GreaterEqual,
    /// `variable in "text"`: the variable's value stands in the text
    In,
    /// `variable not in "text"`
    NotIn,
    /// `"text" in variable`: the text stands in the variable's value
    Contains,
    /// `"text" not in variable`
    NotContains,
}

/// One comparison of a marker.
#[derive(Debug, Clone)]
pub enum MarkerExpr {
    /// A version of the environment lies in a specifier: `python_version >= "3.8"`.
    Version { key: VersionKey, specifier: Specifier },
    /// A text of the environment compared with a given text.
    Text { key: TextKey, operator: TextOp, value: String },
    /// `extra == "name"`
    Extra { name: String },
    /// `extra != "name"`
    NotExtra { name: String },
}

/// A marker in disjunctive normal form: it holds where every comparison of
/// one of its clauses holds.
#[derive(Debug, Clone)]
pub struct Marker {
    pub any_of: Vec<Vec<MarkerExpr>>,
}

/// The version that the environment holds under `key`.
pub open spec fn env_version(env: MarkerEnvironment, key: VersionKey) -> VersionView {
    match key {
        VersionKey::ImplementationVersion => env.implementation_version.version@,
        VersionKey::PythonFullVersion => env.python_full_version.version@,
        VersionKey::PythonVersion => env.python_version.version@,
    }
}

/// The text that the environment holds under `key`.
pub open spec fn env_text(env: MarkerEnvironment, key: TextKey) -> Seq<char> {
    match key {
        TextKey::ImplementationName => env.implementation_name@,
        TextKey::OsName => env.os_name@,
        TextKey::PlatformMachine => env.platform_machine@,
        TextKey::PlatformPythonImplementation => env.platform_python_implementation@,
        TextKey::PlatformRelease => env.platform_release@,
        TextKey::PlatformSystem => env.platform_system@,
        TextKey::PlatformVersion => env.platform_version@,
        TextKey::SysPlatform => env.sys_platform@,
    }
}

/// Whether the comparison holds of the variable's value `left` and the
/// marker's text `right`.
pub open spec fn text_holds(operator: TextOp, left: Seq<char>, right: Seq<char>) -> bool {
    match operator {
        TextOp::Equal => left == right,
        TextOp::NotEqual => left != right,
        TextOp::Less => text_order(left, right) == Order::Less,
        TextOp::LessEqual => text_order(left, right) != Order::Greater,
        TextOp::Greater => text_order(left, right) == Order::Greater,
        TextOp::GreaterEqual => text_order(left, right) != Order::Less,
        TextOp::In => contains_text(right, left),
        TextOp::NotIn => !contains_text(right, left),
        TextOp::Contains => contains_text(left, right),
        TextOp::NotContains => !contains_text(left, right),
    }
}

/// Whether the comparison holds in `env`, for a package that was asked for
/// with the extra `extra`, or with none.
pub open spec fn expr_holds(
    expr: MarkerExpr,
    env: MarkerEnvironment,
    extra: Option<Seq<char>>,
) -> bool {
    match expr {
        MarkerExpr::Version { key, specifier } => satisfies(
            specifier.operator,
            specifier.version@,
            env_version(env, key),
        ),
        MarkerExpr::Text { key, operator, value } => text_holds(
            operator,
            env_text(env, key),
            value@,
        ),
        MarkerExpr::Extra { name } => extra == Some(name@),
        MarkerExpr::NotExtra { name } => extra != Some(name@),
    }
}

/// Whether every comparison of the clause holds.
pub open spec fn clause_holds(
    clause: Seq<MarkerExpr>,
    env: MarkerEnvironment,
    extra: Option<Seq<char>>,
) -> bool {
    forall|i: int| 0 <= i < clause.len() ==> expr_holds(#[trigger] clause[i], env, extra)
}

/// Whether the marker holds: one of its clauses does.
pub open spec fn marker_holds(
    marker: Marker,
    env: MarkerEnvironment,
    extra: Option<Seq<char>>,
) -> bool {
    exists|j: int|
        0 <= j < marker.any_of.len() && clause_holds((#[trigger] marker.any_of@[j])@, env, extra)
}

/// Whether a requirement with this marker applies; one without marker always does.
pub open spec fn applies(
    marker: Option<Marker>,
    env: MarkerEnvironment,
    extra: Option<Seq<char>>,
) -> bool {
    match marker {
        Some(m) => marker_holds(m, env, extra),
        None => true,
    }
}

/// The text of an optional extra.
pub open spec fn extra_text(extra: Option<&str>) -> Option<Seq<char>> {
    match extra {
        Some(e) => Some(e@),
        None => None,
    }
}

impl MarkerEnvironment {
    /// The version held under `key`.
    pub fn version(&self, key: VersionKey) -> (v: &Version)
        ensures
            v@ == env_version(*self, key),
    {
        match key {
            VersionKey::ImplementationVersion => &self.implementation_version.version,
            VersionKey::PythonFullVersion => &self.python_full_version.version,
            VersionKey::PythonVersion => &self.python_version.version,
        }
    }

    /// The text held under `key`.
    pub fn text(&self, key: TextKey) -> (t: &str)
        ensures
            t@ == env_text(*self, key),
    {
        match key {
            TextKey::ImplementationName => self.implementation_name.as_str(),
            TextKey::OsName => self.os_name.as_str(),
            TextKey::PlatformMachine => self.platform_machine.as_str(),
            TextKey::PlatformPythonImplementation => self.platform_python_implementation.as_str(),
            TextKey::PlatformRelease => self.platform_release.as_str(),
            TextKey::PlatformSystem => self.platform_system.as_str(),
            TextKey::PlatformVersion => self.platform_version.as_str(),
            TextKey::SysPlatform => self.sys_platform.as_str(),
        }
    }
}

/// Whether the comparison holds of the variable's value `left` and the
/// marker's text `right`.
pub fn compare_texts(operator: TextOp, left: &str, right: &str) -> (b: bool)
    ensures
        b == text_holds(operator, left@, right@),
{
    let l = chars_of(left);
    let r = chars_of(right);
    match operator {
        TextOp::Equal => same_text(left, right),
        TextOp::NotEqual => !same_text(left, right),
        TextOp::Less => compare_text(&l, &r) == Order::Less,
        TextOp::LessEqual => compare_text(&l, &r) != Order::Greater,
        TextOp::Greater => compare_text(&l, &r) == Order::Greater,
        TextOp::GreaterEqual => compare_text(&l, &r) != Order::Less,
        TextOp::In => find_text(&r, &l),
        TextOp::NotIn => !find_text(&r, &l),
        TextOp::Contains => find_text(&l, &r),
        TextOp::NotContains => !find_text(&l, &r),
    }
}

impl MarkerExpr {
    /// Whether the comparison holds in `env`, for a package asked for with `extra`.
    pub fn evaluate(&self, env: &MarkerEnvironment, extra: Option<&str>) -> (b: bool)
        ensures
            b == expr_holds(*self, *env, extra_text(extra)),
    {
        match self {
            MarkerExpr::Version { key, specifier } => specifier.contains(env.version(*key)),
            MarkerExpr::Text { key, operator, value } => compare_texts(
                *operator,
                env.text(*key),
                value.as_str(),
            ),
            MarkerExpr::Extra { name } => match extra {
                Some(e) => same_text(e, name.as_str()),
                None => false,
            },
            MarkerExpr::NotExtra { name } => match extra {
                Some(e) => !same_text(e, name.as_str()),
                None => true,
            },
        }
    }
}

fn evaluate_clause(clause: &Vec<MarkerExpr>, env: &MarkerEnvironment, extra: Option<&str>) -> (b:
    bool)
    ensures
        b == clause_holds(clause@, *env, extra_text(extra)),
{
    let mut i: usize = 0;
    while i < clause.len()
        invariant
            i <= clause.len(),
            forall|k: int| 0 <= k < i ==> expr_holds(#[trigger] clause@[k], *env, extra_text(extra)),
        decreases clause.len() - i,
    {
        if !clause[i].evaluate(env, extra) {
            return false;
        }
        i = i + 1;
    }
    true
}

impl Marker {
    /// Whether the marker holds in `env`, for a package asked for with `extra`.
    pub fn evaluate(&self, env: &MarkerEnvironment, extra: Option<&str>) -> (b: bool)
        ensures
            b == marker_holds(*self, *env, extra_text(extra)),
    {
        let mut j: usize = 0;
        while j < self.any_of.len()
            invariant
                j <= self.any_of.len(),
                forall|k: int|
                    0 <= k < j ==> !clause_holds(
                        (#[trigger] self.any_of@[k])@,
                        *env,
                        extra_text(extra),
                    ),
            decreases self.any_of.len() - j,
        {
            if evaluate_clause(&self.any_of[j], env, extra) {
                return true;
            }
            j = j + 1;
        }
        false
    }
}

/// Whether a requirement with this marker applies in `env`, for a package
/// asked for with `extra`.
pub fn marker_applies(marker: &Option<Marker>, env: &MarkerEnvironment, extra: Option<&str>) -> (b:
    bool)
    ensures
        b == applies(*marker, *env, extra_text(extra)),
{
    match marker {
        Some(m) => m.evaluate(env, extra),
        None => true,
    }
}

} // verus!
