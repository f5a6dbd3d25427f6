//! The records the store persists — sessions, classification rules, user
//! settings — together with their mathematical views, and the error type of
//! the persistence layer.

use vstd::prelude::*;

verus! {

/// An activity session as the caller hands it in: the caller-assigned
/// unique `id`, the ISO-8601 UTC `start_time`, the length of the session,
/// and the grouping key whose meaning the store does not interpret.
pub struct Session {
    pub id: String,
    pub start_time: String,
    pub duration_seconds: i64,
    pub session_key: String,
}

/// Mathematical view of a [`Session`].
#[verifier::ext_equal]
pub struct SessionV {
    pub id: Seq<char>,
    pub start_time: Seq<char>,
    pub duration_seconds: int,
    pub session_key: Seq<char>,
}

impl View for Session {
    type V = SessionV;

    open spec fn view(&self) -> SessionV {
        SessionV {
            id: self.id@,
            start_time: self.start_time@,
            duration_seconds: self.duration_seconds as int,
            session_key: self.session_key@,
        }
    }
}

/// A session as the store keeps it: the caller's record plus the
/// store-written audit stamps.
pub struct SessionRow {
    pub session: Session,
    pub created_at: String,
    pub updated_at: String,
}

/// Mathematical view of a [`SessionRow`].
#[verifier::ext_equal]
pub struct SessionRowV {
    pub session: SessionV,
    pub created_at: Seq<char>,
    pub updated_at: Seq<char>,
}

impl View for SessionRow {
    type V = SessionRowV;

    open spec fn view(&self) -> SessionRowV {
        SessionRowV { session: self.session@, created_at: self.created_at@, updated_at: self.updated_at@ }
    }
}

/// The waste/productive category a classification rule assigns.
#[derive(Clone, Copy, PartialEq, Eq, Structural, Debug)]
pub enum RuleLabel {
    Waste,
    Productive,
}

impl RuleLabel {
    /// The label as the persistence layer spells it.
    pub fn text(&self) -> (r: String)
        ensures
            *self == RuleLabel::Waste ==> r@ == "waste"@,
            *self == RuleLabel::Productive ==> r@ == "productive"@,
    {
        match self {
            RuleLabel::Waste => "waste".to_owned(),
            RuleLabel::Productive => "productive".to_owned(),
        }
    }
}

/// What a classification rule binds, as the caller hands it in: the rule's
/// numeric `id` is store-assigned and therefore absent here. `(kind,
/// identifier)` is the rule's natural key: a second upsert with the same
/// pair replaces `label` and `is_active` instead of creating a second row.
pub struct RuleBinding {
    pub kind: String,
    pub identifier: String,
    pub label: RuleLabel,
    pub is_active: bool,
}

/// Mathematical view of a [`RuleBinding`].
#[verifier::ext_equal]
pub struct RuleBindingV {
    pub kind: Seq<char>,
    pub identifier: Seq<char>,
    pub label: RuleLabel,
    pub is_active: bool,
}

impl View for RuleBinding {
    type V = RuleBindingV;

    open spec fn view(&self) -> RuleBindingV {
        RuleBindingV {
            kind: self.kind@,
            identifier: self.identifier@,
            label: self.label,
            is_active: self.is_active,
        }
    }
}

/// A classification rule as the store reports it: the store-assigned `id`
/// together with the bound fields.
pub struct ClassificationRule {
    pub id: i64,
    pub kind: String,
    pub identifier: String,
    pub label: RuleLabel,
    pub is_active: bool,
}

/// Mathematical view of a [`ClassificationRule`].
#[verifier::ext_equal]
pub struct RuleV {
    pub id: int,
    pub kind: Seq<char>,
    pub identifier: Seq<char>,
    pub label: RuleLabel,
    pub is_active: bool,
}

impl View for ClassificationRule {
    type V = RuleV;

    open spec fn view(&self) -> RuleV {
        RuleV {
            id: self.id as int,
            kind: self.kind@,
            identifier: self.identifier@,
            label: self.label,
            is_active: self.is_active,
        }
    }
}

/// A classification rule as the store keeps it, with its audit stamps.
pub struct RuleRow {
    pub rule: ClassificationRule,
    pub created_at: String,
    pub updated_at: String,
}

/// Mathematical view of a [`RuleRow`].
#[verifier::ext_equal]
pub struct RuleRowV {
    pub rule: RuleV,
    pub created_at: Seq<char>,
    pub updated_at: Seq<char>,
}

impl View for RuleRow {
    type V = RuleRowV;

    open spec fn view(&self) -> RuleRowV {
        RuleRowV { rule: self.rule@, created_at: self.created_at@, updated_at: self.updated_at@ }
    }
}

/// A user setting: a unique key, its value, and the stamp of the last
/// write.
pub struct SettingRow {
    pub key: String,
    pub value: String,
    pub updated_at: String,
}

/// Mathematical view of a [`SettingRow`].
#[verifier::ext_equal]
pub struct SettingV {
    pub key: Seq<char>,
    pub value: Seq<char>,
    pub updated_at: Seq<char>,
}

impl View for SettingRow {
    type V = SettingV;

    open spec fn view(&self) -> SettingV {
        SettingV { key: self.key@, value: self.value@, updated_at: self.updated_at@ }
    }
}

/// Why a store operation failed.
#[derive(Clone, Copy, PartialEq, Eq, Structural, Debug)]
pub enum StorageError {
    /// The backing file or its directory could not be created or opened;
    /// fatal at startup.
    IoFailure,
    /// The schema could not be applied to the backing file; fatal at
    /// startup.
    SchemaFailure,
    /// A single operation failed; the store stays usable for later calls.
    OperationFailure,
    /// A non-blocking caller found the store lock held.
    LockUnavailable,
}

} // verus!
