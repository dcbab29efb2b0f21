//! Error taxonomy: input, data, lock and configuration errors, each with a
//! fixed process exit code.

use vstd::prelude::*;

use crate::numtext::{dec_digits, push_dec};

verus! {

broadcast use vstd::string::group_string_axioms;

/// All error categories the library reports.
#[derive(Debug)]
pub enum TaskCtlError {
    /// The requested task was not found.
    TaskNotFound(u32),
    /// An invalid argument was provided.
    InvalidArgument(String),
    /// Adding the dependency would close a cycle; carries one offending path.
    CyclicDependency(String),
    /// A task cannot depend on itself.
    SelfDependency(u32),
    /// A stored record could not be decoded; carries the source path.
    ParseError { path: String, detail: String },
    /// Schema version tag did not match the expected one.
    SchemaMismatch { expected: u32, actual: u32 },
    /// The directory lock could not be acquired.
    LockError(String),
    /// The configuration could not be read or parsed.
    ConfigError(String),
    /// A generic I/O failure, reported by the caller that performed the I/O.
    Io(String),
}

impl TaskCtlError {
    /// The process exit code for this error category: 1 for input and I/O
    /// errors, 2 for data errors, 3 for lock errors, 4 for config errors.
    pub fn exit_code(&self) -> (code: i32)
        ensures
            code == self.spec_exit_code(),
    {
        match self {
            Self::TaskNotFound(_)
            | Self::InvalidArgument(_)
            | Self::CyclicDependency(_)
            | Self::SelfDependency(_) => 1,
            Self::ParseError { .. } | Self::SchemaMismatch { .. } => 2,
            Self::LockError(_) => 3,
            Self::ConfigError(_) => 4,
            Self::Io(_) => 1,
        }
    }

    /// The human-readable description of the error.
    pub fn message(&self) -> (r: String)
        ensures
            r@ == self.spec_message(),
    {
        let mut out = String::new();
        match self {
            Self::TaskNotFound(id) => {
                out.append("Task #");
                push_dec(&mut out, *id as u64);
                out.append(" does not exist");
            },
            Self::InvalidArgument(s) => {
                out.append("Invalid argument: ");
                out.append(s.as_str());
            },
            Self::CyclicDependency(s) => {
                out.append("Cyclic dependency detected (");
                out.append(s.as_str());
                out.append(")");
            },
            Self::SelfDependency(id) => {
                out.append("A task cannot depend on itself (#");
                push_dec(&mut out, *id as u64);
                out.append(")");
            },
            Self::ParseError { path, detail: _ } => {
                out.append("Failed to parse file: ");
                out.append(path.as_str());
            },
            Self::SchemaMismatch { expected, actual } => {
                out.append("Schema version mismatch (expected: ");
                push_dec(&mut out, *expected as u64);
                out.append(", actual: ");
                push_dec(&mut out, *actual as u64);
                out.append(")");
            },
            Self::LockError(_) => {
                out.append("Failed to acquire lock file");
            },
            Self::ConfigError(s) => {
                out.append("Failed to read configuration: ");
                out.append(s.as_str());
            },
            Self::Io(s) => {
                out.append(s.as_str());
            },
        }
        proof {
            assert(out@ =~= self.spec_message());
        }
        out
    }

    /// The description, as a function of the error value.
    pub open spec fn spec_message(&self) -> Seq<char> {
        match self {
            Self::TaskNotFound(id) => "Task #"@ + dec_digits(*id as nat)
                + " does not exist"@,
            Self::InvalidArgument(s) => "Invalid argument: "@ + s@,
            Self::CyclicDependency(s) => "Cyclic dependency detected ("@ + s@ + ")"@,
            Self::SelfDependency(id) => "A task cannot depend on itself (#"@
                + dec_digits(*id as nat) + ")"@,
            Self::ParseError { path, detail: _ } => "Failed to parse file: "@ + path@,
            Self::SchemaMismatch { expected, actual } => "Schema version mismatch (expected: "@
                + dec_digits(*expected as nat) + ", actual: "@ + dec_digits(*actual as nat)
                + ")"@,
            Self::LockError(_) => "Failed to acquire lock file"@,
            Self::ConfigError(s) => "Failed to read configuration: "@ + s@,
            Self::Io(s) => s@,
        }
    }

    /// The exit code, as a function of the error category alone.
    pub open spec fn spec_exit_code(&self) -> i32 {
        match self {
            Self::TaskNotFound(_)
            | Self::InvalidArgument(_)
            | Self::CyclicDependency(_)
            | Self::SelfDependency(_)
            | Self::Io(_) => 1,
            Self::ParseError { .. } | Self::SchemaMismatch { .. } => 2,
            Self::LockError(_) => 3,
            Self::ConfigError(_) => 4,
        }
    }
}

} // verus!
