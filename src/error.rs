//! Status codes of the store and the errors of the engine.
use vstd::prelude::*;

verus! {

/// The store could not carry out an operation.
pub const STATUS_FAILED: i32 = 1001;

/// An argument named nothing the store holds in a form it can use.
pub const STATUS_INVALID_ARGUMENT: i32 = 1002;

/// The path or id named no entity.
pub const STATUS_NO_KEY: i32 = 1004;

/// The entry to create is already there.
pub const STATUS_KEY_EXISTS: i32 = 1005;

/// The description of a status code.
pub open spec fn status_message(code: i32) -> Seq<char> {
    if code == STATUS_FAILED {
        "Failed"@
    } else if code == STATUS_INVALID_ARGUMENT {
        "Invalid argument"@
    } else if code == STATUS_NO_KEY {
        "No such key"@
    } else if code == STATUS_KEY_EXISTS {
        "Key already defined"@
    } else {
        "Unknown error"@
    }
}

/// A status code of the store, never zero.
#[derive(Debug, Clone, Copy, PartialEq, Eq, Structural)]
pub struct Error {
    code: i32,
}

impl View for Error {
    type V = i32;

    closed spec fn view(&self) -> i32 {
        self.code
    }
}

impl Error {
    /// The error of a status code; a zero code, which denotes no error, becomes 1.
    pub fn from_code(code: i32) -> (r: Error)
        ensures
            r@ == (if code == 0 { 1 } else { code }),
            r@ != 0,
    {
        if code == 0 {
            Error { code: 1 }
        } else {
            Error { code }
        }
    }

    /// The status code.
    pub fn code(self) -> (r: i32)
        ensures
            r == self@,
    {
        self.code
    }

    /// A description of the error.
    pub fn message(self) -> (r: String)
        ensures
            r@ == status_message(self@),
    {
        let text: &str = if self.code == STATUS_FAILED {
            "Failed"
        } else if self.code == STATUS_INVALID_ARGUMENT {
            "Invalid argument"
        } else if self.code == STATUS_NO_KEY {
            "No such key"
        } else if self.code == STATUS_KEY_EXISTS {
            "Key already defined"
        } else {
            "Unknown error"
        };
        text.to_owned()
    }
}

/// The store calls whose failure aborts a run.
#[derive(Debug, Clone, Copy, PartialEq, Eq, Structural)]
pub enum StoreOperation {
    /// Writing the dictionary at a path.
    SetValue,
    /// Allocating a fresh child path in a collection.
    CreateUniqueChild,
    /// Adding a service to a set.
    AddService,
    /// Removing a service from a set.
    RemoveService,
    /// Writing the priority order of a set.
    SetServiceOrder,
    /// Adding a protocol to a service.
    AddProtocol,
    /// Enabling a service or a protocol.
    SetEnabled,
    /// Removing a set from the store.
    RemoveSet,
    /// Removing a service from the store.
    RemoveServiceEntity,
    /// Completing a service's configuration with defaults.
    EstablishDefaults,
    /// Creating a service for an interface.
    CreateService,
}

/// Why a run of the engine stopped.
#[derive(Debug, Clone, Copy, PartialEq, Eq, Structural)]
pub enum EngineError {
    /// A store mutation reported failure.
    StoreCallFailed { operation: StoreOperation, last_error: Error },
    /// A dictionary or entity that had to be there was absent.
    NotFound,
    /// A store call succeeded but what it promised did not hold afterwards.
    InvariantViolated,
}

} // verus!
