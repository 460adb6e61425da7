//! Versioned documents: which document on disk can be loaded, and how an older one
//! is brought up to date.

use crate::path::{components, components_of};
use crate::text::{decimal, decimal_of, four, texts, two};
use vstd::prelude::*;

verus! {

/// Errors that occur while loading or saving persisted state.
#[derive(Debug)]
pub enum StateError {
    /// The state file could not be read.
    Read { path: String, message: String },
    /// The state file (or its directory / temp file) could not be written.
    Write { path: String, message: String },
    /// The temporary file could not be atomically renamed over the target.
    Persist { path: String, message: String },
    /// The state file path has no parent directory.
    InvalidPath { path: String },
    /// The state file contents could not be parsed.
    Parse { path: String, message: String },
    /// The state value could not be serialized.
    Serialize { message: String },
    /// The on-disk schema version is newer than this build supports.
    FutureVersion { found: u32, current: u32 },
    /// No migration is available from the on-disk schema version.
    UnsupportedVersion { found: u32, current: u32 },
}

impl StateError {
    /// What the error says.
    pub open spec fn text(&self) -> Seq<char> {
        match self {
            StateError::Read { path, message } => "failed to read state file "@ + path@ + ": "@
                + message@,
            StateError::Write { path, message } => "failed to write state at "@ + path@ + ": "@
                + message@,
            StateError::Persist { path, message } =>
                "failed to atomically persist state file "@ + path@ + ": "@ + message@,
            StateError::InvalidPath { path } => "state file path "@ + path@
                + " has no parent directory"@,
            StateError::Parse { path, message } => "failed to parse state file "@ + path@ + ": "@
                + message@,
            StateError::Serialize { message } => "failed to serialize state: "@ + message@,
            StateError::FutureVersion { found, current } => "state schema version "@ + decimal(
                *found as nat,
            ) + " is newer than supported version "@ + decimal(*current as nat)
                + "; upgrade Looper"@,
            StateError::UnsupportedVersion { found, current } =>
                "no migration available from schema version "@ + decimal(*found as nat)
                + " (current "@ + decimal(*current as nat) + ")"@,
        }
    }

    /// What the error says.
    pub fn message(&self) -> (r: String)
        ensures
            r@ == self.text(),
    {
        match self {
            StateError::Read { path, message } => four(
                "failed to read state file ",
                path.as_str(),
                ": ",
                message.as_str(),
            ),
            StateError::Write { path, message } => four(
                "failed to write state at ",
                path.as_str(),
                ": ",
                message.as_str(),
            ),
            StateError::Persist { path, message } => four(
                "failed to atomically persist state file ",
                path.as_str(),
                ": ",
                message.as_str(),
            ),
            StateError::InvalidPath { path } => {
                let mut s = two("state file path ", path.as_str());
                s.append(" has no parent directory");
                s
            },
            StateError::Parse { path, message } => four(
                "failed to parse state file ",
                path.as_str(),
                ": ",
                message.as_str(),
            ),
            StateError::Serialize { message } => two(
                "failed to serialize state: ",
                message.as_str(),
            ),
            StateError::FutureVersion { found, current } => {
                let mut s = four(
                    "state schema version ",
                    decimal_of(*found as u64).as_str(),
                    " is newer than supported version ",
                    decimal_of(*current as u64).as_str(),
                );
                s.append("; upgrade Looper");
                s
            },
            StateError::UnsupportedVersion { found, current } => {
                let mut s = four(
                    "no migration available from schema version ",
                    decimal_of(*found as u64).as_str(),
                    " (current ",
                    decimal_of(*current as u64).as_str(),
                );
                s.append(")");
                s
            },
        }
    }
}

/// A document that is persisted with a version, and can be migrated forward.
pub trait Versioned: Sized {
    /// The document as it is on disk, before it is given its type.
    type Raw;

    /// The current on-disk schema version.
    spec fn current() -> u32;

    /// Whether migrating a raw document one version up may give a result.
    spec fn step(from_version: u32, value: Self::Raw, result: Result<Self::Raw, StateError>) -> bool;

    /// The current on-disk schema version. Starts at `1`; goes up on a breaking change.
    fn schema_version() -> (r: u32)
        ensures
            r == Self::current(),
    ;

    /// Migrates a raw document from `from_version` to `from_version + 1`.
    fn migrate(from_version: u32, value: Self::Raw) -> (r: Result<Self::Raw, StateError>)
        ensures
            Self::step(from_version, value, r),
    ;
}

/// Whether migrating a raw document step by step, from one version to another, may
/// give a result: each step that succeeds hands its document to the next, and the
/// first one that fails ends it.
pub open spec fn steps_to<T: Versioned>(
    from: int,
    target: int,
    value: T::Raw,
    result: Result<T::Raw, StateError>,
) -> bool
    decreases target - from,
{
    if from >= target {
        result == Ok::<T::Raw, StateError>(value)
    } else {
        exists|mid: Result<T::Raw, StateError>|
            #[trigger] T::step(from as u32, value, mid) && match mid {
                Ok(next) => steps_to::<T>(from + 1, target, next, result),
                Err(e) => result == Err::<T::Raw, StateError>(e),
            }
    }
}

/// Whether loading a raw document of a version may give a result.
pub open spec fn migration_of<T: Versioned>(
    found: u32,
    value: T::Raw,
    result: Result<T::Raw, StateError>,
) -> bool {
    if found > T::current() {
        result == Err::<T::Raw, StateError>(
            StateError::FutureVersion { found, current: T::current() },
        )
    } else {
        steps_to::<T>(found as int, T::current() as int, value, result)
    }
}

/// Applies forward migrations until a raw document is at the current version.
pub fn migrate_to_current<T: Versioned>(found: u32, value: T::Raw) -> (r: Result<
    T::Raw,
    StateError,
>)
    ensures
        migration_of::<T>(found, value, r),
{
    let current: u32 = T::schema_version();
    if found > current {
        return Err(StateError::FutureVersion { found, current });
    }
    migrate_from::<T>(found, current, value)
}

fn migrate_from<T: Versioned>(from: u32, target: u32, value: T::Raw) -> (r: Result<
    T::Raw,
    StateError,
>)
    requires
        from <= target,
    ensures
        steps_to::<T>(from as int, target as int, value, r),
    decreases target - from,
{
    if from == target {
        return Ok(value);
    }
    let ghost before = value;
    let mid = T::migrate(from, value);
    let ghost m = mid;
    let ghost start = from as int;
    assert(T::step(start as u32, before, m));
    match mid {
        Ok(next) => migrate_from::<T>(from + 1, target, next),
        Err(e) => {
            let r = Err(e);
            assert(m is Err && r == Err::<T::Raw, StateError>(m->Err_0));
            r
        },
    }
}

/// A document of the current version is loaded as it is.
pub proof fn current_version_needs_no_migration<T: Versioned>(
    value: T::Raw,
    result: Result<T::Raw, StateError>,
)
    requires
        migration_of::<T>(T::current(), value, result),
    ensures
        result == Ok::<T::Raw, StateError>(value),
{
}

/// A document of a newer version is refused.
pub proof fn future_version_is_refused<T: Versioned>(
    found: u32,
    value: T::Raw,
    result: Result<T::Raw, StateError>,
)
    requires
        found > T::current(),
        migration_of::<T>(found, value, result),
    ensures
        result == Err::<T::Raw, StateError>(
            StateError::FutureVersion { found, current: T::current() },
        ),
{
}

/// Where a versioned document is kept: a single file.
#[derive(Debug, Clone)]
pub struct Store {
    pub path: String,
}

/// Whether a path has a parent directory: all but the root and the empty path do.
pub open spec fn has_parent(path: Seq<char>) -> bool {
    let c = components(path);
    c.len() > 0 && c.last() != "/"@
}

impl Store {
    /// A store for the document at `path`.
    pub fn new(path: String) -> (r: Self)
        ensures
            r.path == path,
    {
        Store { path }
    }

    /// The file path backing this store.
    pub fn path(&self) -> (r: &str)
        ensures
            r@ == self.path@,
    {
        self.path.as_str()
    }

    /// Whether a document can be saved at the path: it needs a directory to stand in.
    pub fn save_target(&self) -> (r: Result<(), StateError>)
        ensures
            r is Ok == has_parent(self.path@),
            r matches Err(e) ==> (e matches StateError::InvalidPath { path } && path@
                == self.path@),
    {
        let mut parts = components_of(self.path.as_str());
        let ghost all = texts(parts@);
        assert(all.len() == parts@.len());
        match parts.pop() {
            Some(last) => {
                assert(all.last() == last@);
                if crate::text::same(last.as_str(), "/") {
                    Err(StateError::InvalidPath { path: self.path.clone() })
                } else {
                    Ok(())
                }
            },
            None => Err(StateError::InvalidPath { path: self.path.clone() }),
        }
    }
}

} // verus!
