//! What a host keeps, and shows, of its sessions and of the permissions that
//! they ask for.
use vstd::prelude::*;

use crate::catalog::Preview;

verus! {

/// The life of a session.
#[derive(Clone, Copy, Debug, PartialEq, Eq, Structural)]
pub enum SessionState {
    Starting,
    Running,
    Stopping,
    Stopped,
    Failed,
}

impl SessionState {
    /// The session has ended.
    pub open spec fn is_over(self) -> bool {
        self == SessionState::Stopped || self == SessionState::Failed
    }

    /// The session has ended or is about to.
    pub open spec fn is_ending(self) -> bool {
        self == SessionState::Stopping || self.is_over()
    }

    pub open spec fn text(self) -> Seq<char> {
        match self {
            SessionState::Starting => "starting"@,
            SessionState::Running => "running"@,
            SessionState::Stopping => "stopping"@,
            SessionState::Stopped => "stopped"@,
            SessionState::Failed => "failed"@,
        }
    }

    pub fn over(self) -> (r: bool)
        ensures
            r == self.is_over(),
    {
        match self {
            SessionState::Stopped => true,
            SessionState::Failed => true,
            _ => false,
        }
    }

    pub fn ending(self) -> (r: bool)
        ensures
            r == self.is_ending(),
    {
        self == SessionState::Stopping || self.over()
    }

    pub fn name(self) -> (r: &'static str)
        ensures
            r@ == self.text(),
    {
        match self {
            SessionState::Starting => "starting",
            SessionState::Running => "running",
            SessionState::Stopping => "stopping",
            SessionState::Stopped => "stopped",
            SessionState::Failed => "failed",
        }
    }
}

/// The course of a permission.
#[derive(Clone, Copy, Debug, PartialEq, Eq, Structural)]
pub enum PermissionState {
    Pending,
    Realizing,
    Mounting,
    Publishing,
    Ready,
    Failed,
    Denied,
    Cancelled,
    Withdrawn,
}

impl PermissionState {
    /// Something may still come of it.
    pub open spec fn is_open(self) -> bool {
        self == PermissionState::Pending || self.is_under_way()
    }

    /// It was approved and is being carried out.
    pub open spec fn is_under_way(self) -> bool {
        self == PermissionState::Realizing || self == PermissionState::Mounting || self
            == PermissionState::Publishing
    }

    pub open spec fn text(self) -> Seq<char> {
        match self {
            PermissionState::Pending => "pending"@,
            PermissionState::Realizing => "realizing"@,
            PermissionState::Mounting => "mounting"@,
            PermissionState::Publishing => "publishing"@,
            PermissionState::Ready => "ready"@,
            PermissionState::Failed => "failed"@,
            PermissionState::Denied => "denied"@,
            PermissionState::Cancelled => "cancelled"@,
            PermissionState::Withdrawn => "withdrawn"@,
        }
    }

    pub fn open(self) -> (r: bool)
        ensures
            r == self.is_open(),
    {
        self == PermissionState::Pending || self.under_way()
    }

    pub fn under_way(self) -> (r: bool)
        ensures
            r == self.is_under_way(),
    {
        match self {
            PermissionState::Realizing => true,
            PermissionState::Mounting => true,
            PermissionState::Publishing => true,
            _ => false,
        }
    }

    pub fn name(self) -> (r: &'static str)
        ensures
            r@ == self.text(),
    {
        match self {
            PermissionState::Pending => "pending",
            PermissionState::Realizing => "realizing",
            PermissionState::Mounting => "mounting",
            PermissionState::Publishing => "publishing",
            PermissionState::Ready => "ready",
            PermissionState::Failed => "failed",
            PermissionState::Denied => "denied",
            PermissionState::Cancelled => "cancelled",
            PermissionState::Withdrawn => "withdrawn",
        }
    }
}

/// The kernel's identity of a running payload.
#[derive(Clone, Copy, Debug, PartialEq, Eq, Structural)]
pub struct Identity {
    pub pid: u32,
    pub helper_userns: u64,
    pub mount_owner: u64,
    pub source_mountns: u64,
    pub mountns: u64,
}

pub struct SessionRecord {
    pub docker_enabled: bool,
    pub docker_scope: Option<String>,
    pub id: String,
    pub agent_name: String,
    /// The owner; the host itself where there is none.
    pub parent: Option<String>,
    pub path: String,
    /// The configuration's name, as distinct from the name of this one launch.
    pub name: String,
    pub description: String,
    pub configuration: String,
    pub state: SessionState,
    pub identity: Option<Identity>,
    pub initial_packages: Vec<String>,
    pub packages: Vec<String>,
    pub terminal: String,
    pub pty_eof: bool,
    pub terminal_complete: bool,
    pub terminal_interrupted: bool,
    pub terminal_attached: bool,
    pub terminal_detached: bool,
    pub exit_code: Option<i32>,
    /// The host's own explanation of an end, fit to be seen in a sandbox.
    pub stop_reason: Option<String>,
    pub detail: Option<String>,
}

/// What a host is shown of a package, or of a Docker scope, that is asked for.
pub enum PreviewShown {
    Package(Preview),
    Description(String),
    Failed(String),
}

pub struct PermissionRecord {
    pub kind: String,
    pub scope: Option<String>,
    pub anonymous: bool,
    pub id: String,
    pub session: String,
    /// Kept though the session's own record may be gone, or its name given to another.
    pub agent_name: String,
    pub approval: String,
    pub package: String,
    pub reason: String,
    pub state: PermissionState,
    pub approved: Option<bool>,
    pub preview: Option<PreviewShown>,
    pub message: Option<String>,
}

/// All that a host shows at a time.
pub struct Snapshot {
    pub instance: String,
    pub sessions: Vec<SessionRecord>,
    pub permissions: Vec<PermissionRecord>,
}

} // verus!
