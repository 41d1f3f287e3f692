//! What the library reads of a Python interpreter.

use crate::marker::MarkerEnvironment;
use vstd::prelude::*;

verus! {

/// A Python interpreter, as far as an environment built on it depends on it.
#[derive(Debug, Clone)]
pub struct Interpreter {
    /// The interpreter's executable, `sys.executable`.
    pub sys_executable: String,
    /// `sys.base_prefix`.
    pub base_prefix: String,
    /// `sys.base_exec_prefix`.
    pub base_exec_prefix: String,
    /// The major version, `3` for Python 3.11.
    pub major: u8,
    /// The minor version, `11` for Python 3.11.
    pub minor: u8,
    /// The environment that markers are evaluated against.
    pub markers: MarkerEnvironment,
}

/// The mathematical value of an [`Interpreter`].
pub struct InterpreterView {
    pub sys_executable: Seq<char>,
    pub base_prefix: Seq<char>,
    pub base_exec_prefix: Seq<char>,
    pub major: u8,
    pub minor: u8,
    /// The marker value `python_version`, as the interpreter reports it.
    pub python_version: Seq<char>,
}

impl View for Interpreter {
    type V = InterpreterView;

    open spec fn view(&self) -> InterpreterView {
        InterpreterView {
            sys_executable: self.sys_executable@,
            base_prefix: self.base_prefix@,
            base_exec_prefix: self.base_exec_prefix@,
            major: self.major,
            minor: self.minor,
            python_version: self.markers.python_version.string@,
        }
    }
}

impl Interpreter {
    /// The `(major, minor)` version of the interpreter.
    pub fn simple_version(&self) -> (v: (u8, u8))
        ensures
            v == (self.major, self.minor),
    {
        (self.major, self.minor)
    }
}

} // verus!
