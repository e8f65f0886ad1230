//! The corpus: an addressable phonetic index over immutable sources.
//!
//! Sources are never edited, only indexed; everything downstream is a span
//! reference. What is stored is derived here from a sidecar manifest plus
//! prosody frames: utterances, words, phones, diphones.
pub mod diphones;
pub mod features;
pub mod loader;
pub mod manifest;
pub mod normalize;
pub mod npz;
pub mod phones;
pub mod search;
pub mod speakers;

use crate::number::{real_text, Real};
use crate::text::{debug_text, dec, push_dec, push_signed, quoted, signed_dec};
use vstd::prelude::*;
use vstd::string::StringExecFns;

verus! {

/// Current corpus schema version (the database's `user_version`).
pub const SCHEMA_VERSION: i64 = 1;

/// Why corpus work is refused.
#[derive(Debug)]
pub enum CorpusError {
    UnknownManifestVersion(u32),
    SchemaTooNew { found: i64, supported: i64 },
    SchemaStale { found: i64, supported: i64 },
    UnknownPhoneLabel { label: String },
    FrameMismatch(String),
    Npz(String),
    IndexOutOfRange { what: &'static str, index: usize },
    InvalidInterval { what: &'static str, t_start: Real, t_end: Real },
    Contract(String),
}

/// What a corpus error says.
pub enum CorpusFault {
    UnknownManifestVersion(u32),
    SchemaTooNew { found: i64, supported: i64 },
    SchemaStale { found: i64, supported: i64 },
    UnknownPhoneLabel { label: Seq<char> },
    FrameMismatch(Seq<char>),
    Npz(Seq<char>),
    IndexOutOfRange { what: Seq<char>, index: int },
    InvalidInterval { what: Seq<char>, t_start: Real, t_end: Real },
    Contract(Seq<char>),
}

impl View for CorpusError {
    type V = CorpusFault;

    open spec fn view(&self) -> CorpusFault {
        match self {
            CorpusError::UnknownManifestVersion(v) => CorpusFault::UnknownManifestVersion(*v),
            CorpusError::SchemaTooNew { found, supported } => CorpusFault::SchemaTooNew {
                found: *found,
                supported: *supported,
            },
            CorpusError::SchemaStale { found, supported } => CorpusFault::SchemaStale {
                found: *found,
                supported: *supported,
            },
            CorpusError::UnknownPhoneLabel { label } => CorpusFault::UnknownPhoneLabel {
                label: label@,
            },
            CorpusError::FrameMismatch(s) => CorpusFault::FrameMismatch(s@),
            CorpusError::Npz(s) => CorpusFault::Npz(s@),
            CorpusError::IndexOutOfRange { what, index } => CorpusFault::IndexOutOfRange {
                what: what@,
                index: *index as int,
            },
            CorpusError::InvalidInterval { what, t_start, t_end } => CorpusFault::InvalidInterval {
                what: what@,
                t_start: *t_start,
                t_end: *t_end,
            },
            CorpusError::Contract(s) => CorpusFault::Contract(s@),
        }
    }
}

/// What a corpus error tells the user.
pub open spec fn corpus_message(fault: CorpusFault) -> Seq<char> {
    match fault {
        CorpusFault::UnknownManifestVersion(v) => "unsupported manifest schema_version "@ + dec(
            v as nat,
        ),
        CorpusFault::SchemaTooNew { found, supported } => "corpus schema version "@ + signed_dec(
            found as int,
        ) + " is newer than this build supports ("@ + signed_dec(supported as int) + ")"@,
        CorpusFault::SchemaStale { found, supported } => "corpus schema version "@ + signed_dec(
            found as int,
        ) + " is behind this build ("@ + signed_dec(supported as int)
            + ") — run `dipho ingest` to migrate"@,
        CorpusFault::UnknownPhoneLabel { label } => "unknown phone label "@ + debug_text(label),
        CorpusFault::FrameMismatch(s) => "prosody frames disagree with the manifest: "@ + s,
        CorpusFault::Npz(s) => "malformed prosody npz: "@ + s,
        CorpusFault::IndexOutOfRange { what, index } => what + " index "@ + dec(index as nat)
            + " is out of range"@,
        CorpusFault::InvalidInterval { what, t_start, t_end } => what + " has invalid interval ["@
            + real_text(t_start) + ", "@ + real_text(t_end) + "]"@,
        CorpusFault::Contract(s) => "manifest contract violation: "@ + s,
    }
}

impl CorpusError {
    /// What the error tells the user.
    pub fn message(&self) -> (s: String)
        ensures
            s@ == corpus_message(self@),
    {
        match self {
            CorpusError::UnknownManifestVersion(v) => {
                let mut s: String = "unsupported manifest schema_version ".to_owned();
                push_dec(&mut s, *v as u128);
                s
            },
            CorpusError::SchemaTooNew { found, supported } => {
                let mut s: String = "corpus schema version ".to_owned();
                push_signed(&mut s, *found);
                s.append(" is newer than this build supports (");
                push_signed(&mut s, *supported);
                s.append(")");
                s
            },
            CorpusError::SchemaStale { found, supported } => {
                let mut s: String = "corpus schema version ".to_owned();
                push_signed(&mut s, *found);
                s.append(" is behind this build (");
                push_signed(&mut s, *supported);
                s.append(") — run `dipho ingest` to migrate");
                s
            },
            CorpusError::UnknownPhoneLabel { label } => {
                let mut s: String = "unknown phone label ".to_owned();
                s.append(quoted(label.as_str()).as_str());
                s
            },
            CorpusError::FrameMismatch(detail) => {
                let mut s: String = "prosody frames disagree with the manifest: ".to_owned();
                s.append(detail.as_str());
                s
            },
            CorpusError::Npz(detail) => {
                let mut s: String = "malformed prosody npz: ".to_owned();
                s.append(detail.as_str());
                s
            },
            CorpusError::IndexOutOfRange { what, index } => {
                let mut s: String = (*what).to_owned();
                s.append(" index ");
                push_dec(&mut s, *index as u128);
                s.append(" is out of range");
                s
            },
            CorpusError::InvalidInterval { what, t_start, t_end } => {
                let mut s: String = (*what).to_owned();
                s.append(" has invalid interval [");
                s.append(t_start.text().as_str());
                s.append(", ");
                s.append(t_end.text().as_str());
                s.append("]");
                s
            },
            CorpusError::Contract(detail) => {
                let mut s: String = "manifest contract violation: ".to_owned();
                s.append(detail.as_str());
                s
            },
        }
    }
}

/// Why a database of the given schema version cannot be read by this build.
pub open spec fn schema_fault(found: i64) -> Option<CorpusFault> {
    if found > SCHEMA_VERSION {
        Some(CorpusFault::SchemaTooNew { found, supported: SCHEMA_VERSION })
    } else if found < SCHEMA_VERSION {
        Some(CorpusFault::SchemaStale { found, supported: SCHEMA_VERSION })
    } else {
        None
    }
}

/// Checks that a database is at exactly the supported schema version, for
/// read-only consumers, which cannot migrate.
pub fn ensure_schema_current(found: i64) -> (r: Result<(), CorpusError>)
    ensures
        match schema_fault(found) {
            Some(fault) => r is Err && r->Err_0@ == fault,
            None => r is Ok,
        },
{
    if found > SCHEMA_VERSION {
        Err(CorpusError::SchemaTooNew { found, supported: SCHEMA_VERSION })
    } else if found < SCHEMA_VERSION {
        Err(CorpusError::SchemaStale { found, supported: SCHEMA_VERSION })
    } else {
        Ok(())
    }
}

/// What a migration does to a database that is behind.
#[derive(Debug, Clone, Copy, PartialEq, Eq, Structural)]
pub struct Migration {
    /// Whether the tables are still to be created.
    pub create_tables: bool,
    /// The version to record.
    pub target: i64,
}

/// Plans the migration of a database at schema version `found`: none where it
/// is current, an error where it is newer than this build.
pub fn migrate(found: i64) -> (r: Result<Option<Migration>, CorpusError>)
    ensures
        if found > SCHEMA_VERSION {
            r is Err && r->Err_0@ == (CorpusFault::SchemaTooNew {
                found,
                supported: SCHEMA_VERSION,
            })
        } else if found == SCHEMA_VERSION {
            r == Ok::<Option<Migration>, CorpusError>(None)
        } else {
            r == Ok::<Option<Migration>, CorpusError>(
                Some(Migration { create_tables: found < 1, target: SCHEMA_VERSION }),
            )
        },
{
    if found > SCHEMA_VERSION {
        return Err(CorpusError::SchemaTooNew { found, supported: SCHEMA_VERSION });
    }
    if found == SCHEMA_VERSION {
        return Ok(None);
    }
    Ok(Some(Migration { create_tables: found < 1, target: SCHEMA_VERSION }))
}

/// A corpus is opened iff its schema is of version one; it is told whether another is
/// newer or stale.
pub proof fn law_only_the_current_schema_is_opened(found: i64)
    ensures
        schema_fault(found) is None <==> found == 1,
        found > 1 ==> schema_fault(found) == Some(CorpusFault::SchemaTooNew { found, supported: 1 }),
        found < 1 ==> schema_fault(found) == Some(CorpusFault::SchemaStale { found, supported: 1 }),
{
}

} // verus!
