//! The PID namespace the tracer runs in.
//!
//! Kernel thread ids must be translated into the namespace of the tracer
//! unless it runs in the initial one.

use vstd::prelude::*;

verus! {

/// Inode number the kernel gives to the initial PID namespace.
pub const PID_NS_INIT_INO: u32 = 0xEFFFFFFC;

/// Namespace id the kernel gives to the initial PID namespace.
pub const PID_NS_INIT_ID: u64 = 4;

/// The PID namespace of the tracer.
#[derive(Clone, Copy, PartialEq, Eq, Debug, Structural)]
pub enum CurrentPidNamespace {
    Initial,
    Nested { inum: u32 },
    Unknown { inum: u32 },
    TargetOverride { inum: u32 },
}

/// The namespace told by its inode number and, when the kernel gives it,
/// its namespace id.
pub open spec fn spec_classify(inum: u32, ns_id: Option<u64>) -> CurrentPidNamespace {
    match ns_id {
        Some(id) => if id == PID_NS_INIT_ID {
            CurrentPidNamespace::Initial
        } else {
            CurrentPidNamespace::Nested { inum }
        },
        None => if inum == PID_NS_INIT_INO {
            CurrentPidNamespace::Initial
        } else {
            CurrentPidNamespace::Unknown { inum }
        },
    }
}

pub open spec fn spec_inum(ns: CurrentPidNamespace) -> Option<u32> {
    match ns {
        CurrentPidNamespace::Initial => None,
        CurrentPidNamespace::Nested { inum } => Some(inum),
        CurrentPidNamespace::Unknown { inum } => Some(inum),
        CurrentPidNamespace::TargetOverride { inum } => Some(inum),
    }
}

impl CurrentPidNamespace {
    /// The namespace of inode number `inum` and namespace id `ns_id`.
    pub fn classify(inum: u32, ns_id: Option<u64>) -> (r: Self)
        ensures
            r == spec_classify(inum, ns_id),
    {
        match ns_id {
            Some(id) => if id == PID_NS_INIT_ID {
                CurrentPidNamespace::Initial
            } else {
                CurrentPidNamespace::Nested { inum }
            },
            None => if inum == PID_NS_INIT_INO {
                CurrentPidNamespace::Initial
            } else {
                CurrentPidNamespace::Unknown { inum }
            },
        }
    }

    pub fn inum(&self) -> (r: Option<u32>)
        ensures
            r == spec_inum(*self),
    {
        match *self {
            Self::Initial => None,
            Self::Nested { inum } | Self::Unknown { inum } | Self::TargetOverride { inum } => Some(
                inum,
            ),
        }
    }
}

/// What the tracer knows of its PID namespace.
pub struct Detection {
    current_pid_namespace: CurrentPidNamespace,
}

impl Detection {
    pub closed spec fn namespace(&self) -> CurrentPidNamespace {
        self.current_pid_namespace
    }

    /// The namespace read from the system: its inode number and, if the
    /// kernel gives it, its namespace id.
    pub fn from_readings(inum: u32, ns_id: Option<u64>) -> (r: Self)
        ensures
            r.namespace() == spec_classify(inum, ns_id),
    {
        Self { current_pid_namespace: CurrentPidNamespace::classify(inum, ns_id) }
    }

    /// The namespace of inode number `pidns_inum` is imposed.
    pub fn with_target_override(pidns_inum: u32) -> (r: Self)
        ensures
            r.namespace() == (CurrentPidNamespace::TargetOverride { inum: pidns_inum }),
    {
        Self { current_pid_namespace: CurrentPidNamespace::TargetOverride { inum: pidns_inum } }
    }

    pub fn current_is_init_pidns(&self) -> (r: bool)
        ensures
            r == (self.namespace() is Initial),
    {
        matches!(self.current_pid_namespace, CurrentPidNamespace::Initial)
    }

    pub fn current_pidns_inum(&self) -> (r: Option<u32>)
        ensures
            r == spec_inum(self.namespace()),
    {
        self.current_pid_namespace.inum()
    }

    /// The namespace, for reporting.
    pub fn current_pid_namespace(&self) -> (r: CurrentPidNamespace)
        ensures
            r == self.namespace(),
    {
        self.current_pid_namespace
    }
}

} // verus!
