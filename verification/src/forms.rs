//! Request payloads of the service that owns the detection pipeline: plain
//! records handed over by the surrounding API layer.

use vstd::prelude::*;

verus! {

/// Fields accepted when updating a survey group.
pub struct UpdateGroupForm {
    pub name: Option<String>,
    pub cover: Option<String>,
    pub managers: Option<Vec<String>>,
}

/// A request to mint a group-membership invitation.
pub struct JoinInvitationForm {
    pub expire_at: i64,
    pub groups: Vec<String>,
    pub permission: i8,
}

/// Fields accepted when creating a survey project.
pub struct NewProjectForm {
    pub title: String,
    pub start_time: i32,
    pub duration: i32,
    pub running: bool,
}

/// Fields accepted when updating a survey project.
pub struct UpdateProjectForm {
    pub title: Option<String>,
    pub start_time: Option<i32>,
    pub duration: Option<i32>,
    pub running: Option<bool>,
}

/// Filters accepted when listing survey records.
pub struct RecordsQuery {
    pub user: Option<String>,
    pub project: Option<String>,
    pub group: Option<String>,
    pub from: Option<i64>,
    pub to: Option<i64>,
}

/// Fields accepted when creating a survey record.
pub struct NewRecordForm {
    pub group: String,
    pub time: i64,
    pub num: i64,
    pub position: String,
    pub collaborators: Option<Vec<String>>,
    pub attachments: Option<Vec<String>>,
    pub description: Option<String>,
}

/// Fields accepted when updating a survey record.
pub struct UpdateRecordForm {
    pub time: Option<i64>,
    pub num: Option<i64>,
    pub collaborators: Option<Vec<String>>,
    pub attachments: Option<Vec<String>>,
    pub description: Option<String>,
    pub position: Option<String>,
    pub group: Option<String>,
}

/// Fields accepted when saving a record draft.
pub struct UpdateDraftForm {
    pub time: Option<i32>,
    pub num: Option<i32>,
    pub collaborators: Option<Vec<String>>,
    pub attachments: Option<Vec<String>>,
    pub description: Option<String>,
    pub position: Option<String>,
}

/// Fields accepted when an administrator creates a user directly.
pub struct NewUserForm {
    pub name: String,
    pub password: String,
    pub email: String,
    pub permission: i8,
    pub groups: Option<Vec<String>>,
}

/// A request to activate a pending user by verification code.
pub struct NewUserFromInactive {
    pub code: String,
}

/// A login request.
pub struct LoginForm {
    pub id: String,
    pub password: String,
}

/// A request to mint a registration invitation.
pub struct NewInvitationForm {
    pub groups: Option<Vec<String>>,
    pub expire_at: i64,
    pub permission: i8,
}

/// Fields accepted when updating a user profile.
pub struct UpdateUserForm {
    pub name: Option<String>,
    pub avatar: Option<String>,
    pub permission: Option<i8>,
}

/// A self-service registration request, pending email verification.
pub struct CreateInactiveUserForm {
    pub invitation: String,
    pub email: String,
    pub password: String,
    pub name: String,
    pub lang: String,
}

} // verus!
