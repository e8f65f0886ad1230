//! Ingest: a staged, resumable work directory keyed by origin id. Original
//! bytes, then the playback master and the analysis wav, then the sidecar's
//! stages, then the load into the corpus. Every stage that already produced
//! its output is skipped on a re-run.
pub mod normalize;
pub mod origin;
pub mod probe;
pub mod report;
pub mod sidecar;
pub mod stages;

use crate::corpus::loader::{LoadReport, SourceMeta};
use crate::path::{join_path, joined_path, parent, parent_of};
use crate::span::source_text;
use crate::text::{dec, push_dec, push_signed, signed_dec};
use normalize::MasterInfo;
use origin::{sanitize, sanitized, Input};
use vstd::prelude::*;
use vstd::string::StringExecFns;

verus! {

/// The directory of a corpus database: where it lies, or the current one.
pub open spec fn corpus_dir_of(db: Seq<char>) -> Seq<char> {
    match parent_of(db) {
        Some(dir) => if dir.len() == 0 {
            "."@
        } else {
            dir
        },
        None => "."@,
    }
}

/// The directory of a corpus database.
pub fn corpus_dir(db: &str) -> (s: String)
    ensures
        s@ == corpus_dir_of(db@),
{
    match parent(db) {
        Some(dir) => {
            if dir.as_str().is_empty() {
                ".".to_owned()
            } else {
                dir
            }
        },
        None => ".".to_owned(),
    }
}

/// The work directory of an origin: beside the corpus, under its sanitized id.
pub open spec fn workdir_of(db: Seq<char>, origin_id: Seq<char>) -> Seq<char> {
    joined_path(joined_path(corpus_dir_of(db), "ingest"@), sanitized(origin_id))
}

/// The work directory of an origin.
pub fn workdir(db: &str, origin_id: &str) -> (s: String)
    ensures
        s@ == workdir_of(db@, origin_id@),
{
    let base: String = join_path(corpus_dir(db).as_str(), "ingest");
    join_path(base.as_str(), sanitize(origin_id).as_str())
}

/// Whether ingest stops because the origin is in the corpus already: what it
/// tells then.
pub fn already_ingested(found: Option<i64>, force: bool) -> (r: Option<String>)
    ensures
        match found {
            Some(id) => if force {
                r is None
            } else {
                r is Some && r->0@ == "already ingested as source "@ + signed_dec(id as int)
                    + " — use --force to re-ingest"@
            },
            None => r is None,
        },
{
    match found {
        Some(id) => {
            if force {
                return None;
            }
            let mut s: String = "already ingested as source ".to_owned();
            push_signed(&mut s, id);
            s.append(" — use --force to re-ingest");
            Some(s)
        },
        None => None,
    }
}

/// What the corpus records of an ingested source.
pub fn source_meta(input: &Input, origin_id: &str, workdir: &str, master: MasterInfo) -> (meta:
    SourceMeta)
    ensures
        meta.origin@ == input.spec_text(),
        meta.origin_id@ == origin_id@,
        meta.original_path is Some,
        meta.original_path->0@ == joined_path(workdir@, "original.bin"@),
        meta.master_path@ == joined_path(workdir@, "master.mkv"@),
        meta.master_hash@ == master.master_hash@,
        meta.fps == master.fps,
        meta.has_video == master.has_video,
        meta.start_offsets is Some,
        meta.start_offsets->0@ == master.start_offsets@,
{
    SourceMeta {
        origin: input.text(),
        origin_id: origin_id.to_owned(),
        original_path: Some(join_path(workdir, "original.bin")),
        master_path: join_path(workdir, "master.mkv"),
        master_hash: master.master_hash,
        fps: master.fps,
        has_video: master.has_video,
        start_offsets: Some(master.start_offsets),
    }
}

/// What a finished load tells.
pub open spec fn loaded_of(report: LoadReport) -> Seq<char> {
    "loaded source "@ + source_text(report.source_id) + ": "@ + dec(report.speakers as nat)
        + " speakers, "@ + dec(report.utterances as nat) + " utterances, "@ + dec(
        report.words as nat,
    ) + " words, "@ + dec(report.phones as nat) + " phones, "@ + dec(report.diphones as nat)
        + " diphones"@
}

/// What a finished load tells.
pub fn loaded(report: &LoadReport) -> (s: String)
    ensures
        s@ == loaded_of(*report),
{
    let mut s: String = "loaded source ".to_owned();
    s.append(report.source_id.text().as_str());
    s.append(": ");
    push_dec(&mut s, report.speakers as u128);
    s.append(" speakers, ");
    push_dec(&mut s, report.utterances as u128);
    s.append(" utterances, ");
    push_dec(&mut s, report.words as u128);
    s.append(" words, ");
    push_dec(&mut s, report.phones as u128);
    s.append(" phones, ");
    push_dec(&mut s, report.diphones as u128);
    s.append(" diphones");
    s
}

/// A corpus's files stand beside its database; one named without a directory is in
/// the current one.
pub proof fn law_the_corpus_is_beside_its_database(dir: Seq<char>, name: Seq<char>, id: Seq<char>)
    requires
        crate::path::is_tidy(dir),
        crate::path::is_part(name),
    ensures
        corpus_dir_of(dir + "/"@ + name) == dir,
        workdir_of(dir + "/"@ + name, id) == dir + "/"@ + "ingest"@ + "/"@ + sanitized(id),
{
    crate::path::law_files_stand_in_their_directory(dir, name, name);
    reveal_strlit("/");
    reveal_strlit("ingest");
    let base = joined_path(dir, "ingest"@);
    assert(base =~= dir + "/"@ + "ingest"@);
    assert(base.last() == 't');
    assert(joined_path(base, sanitized(id)) =~= base + "/"@ + sanitized(id));
}

} // verus!
