//! Binding an edit file's sources manifest to a corpus. Precedence: a master
//! hash match binds; an origin id match with a sane duration binds with a
//! surfaced warning, the manifest updated only on explicit save; neither is a
//! typed error.
use super::{
    clip_views, info_views, missing_entry, missing_entry_message, ref_views, Clip, ClipView, Edl, SourceInfo, SourceInfoView, SourceMap,
    SourceRef, SourceRefView,
};
use crate::number::Rate;
use crate::path::{file_name, file_name_of};
use crate::span::{SourceId, Span};
use crate::text::{debug_text, quoted, texts};
use std::collections::{BTreeMap, HashMap};
use vstd::prelude::*;
use vstd::string::StringExecFns;

verus! {

broadcast use {vstd::std_specs::hash::group_hash_axioms, vstd::std_specs::btree::group_btree_axioms};

/// Duration sanity window for an origin-id-only rebind, in nanoseconds.
pub const REBIND_DURATION_TOLERANCE: i64 = 500_000_000;

/// One row of the corpus `sources` table, as the rebind input and the builder
/// for manifest entries and the compile-time source map.
#[derive(Debug)]
pub struct CorpusSource {
    pub id: SourceId,
    pub origin: String,
    pub origin_id: String,
    pub master_path: String,
    pub master_hash: String,
    /// In nanoseconds.
    pub duration: i64,
    /// The constant frame rate; none for audio-only sources.
    pub fps: Option<Rate>,
}

/// What a corpus source is.
pub struct CorpusSourceView {
    pub id: SourceId,
    pub origin: Seq<char>,
    pub origin_id: Seq<char>,
    pub master_path: Seq<char>,
    pub master_hash: Seq<char>,
    pub duration: int,
    pub fps: Option<Rate>,
}

impl View for CorpusSource {
    type V = CorpusSourceView;

    open spec fn view(&self) -> CorpusSourceView {
        CorpusSourceView {
            id: self.id,
            origin: self.origin@,
            origin_id: self.origin_id@,
            master_path: self.master_path@,
            master_hash: self.master_hash@,
            duration: self.duration as int,
            fps: self.fps,
        }
    }
}

impl Clone for CorpusSource {
    fn clone(&self) -> (r: Self)
        ensures
            r@ == self@,
    {
        CorpusSource {
            id: self.id,
            origin: self.origin.clone(),
            origin_id: self.origin_id.clone(),
            master_path: self.master_path.clone(),
            master_hash: self.master_hash.clone(),
            duration: self.duration,
            fps: self.fps,
        }
    }
}

/// The corpus rows of a list.
pub open spec fn corpus_views(corpus: Seq<CorpusSource>) -> Seq<CorpusSourceView> {
    Seq::new(corpus.len(), |i: int| corpus[i]@)
}

/// A source's manifest entry.
pub open spec fn manifest_entry(source: CorpusSourceView) -> SourceRefView {
    SourceRefView {
        origin: source.origin,
        origin_id: source.origin_id,
        master_filename: match file_name_of(source.master_path) {
            Some(name) => name,
            None => source.master_path,
        },
        duration: source.duration,
        master_hash: source.master_hash,
    }
}

/// What the compilers need of a source.
pub open spec fn compile_info(source: CorpusSourceView) -> SourceInfoView {
    SourceInfoView {
        master_path: source.master_path,
        duration: source.duration,
        fps: source.fps,
    }
}

impl CorpusSource {
    /// The source's manifest entry.
    pub fn source_ref(&self) -> (r: SourceRef)
        ensures
            r@ == manifest_entry(self@),
    {
        SourceRef {
            origin: self.origin.clone(),
            origin_id: self.origin_id.clone(),
            master_filename: match file_name(self.master_path.as_str()) {
                Some(name) => name,
                None => self.master_path.clone(),
            },
            duration: self.duration,
            master_hash: self.master_hash.clone(),
        }
    }

    /// What the compilers need of the source.
    pub fn source_info(&self) -> (r: SourceInfo)
        ensures
            r@ == compile_info(self@),
    {
        SourceInfo {
            master_path: self.master_path.clone(),
            duration: self.duration,
            fps: self.fps,
        }
    }
}

/// Why an edit does not bind to a corpus.
#[derive(Debug)]
pub enum RebindError {
    UnresolvedSource { origin_id: String, origin: String },
    MissingManifestEntry { clip_index: usize, source_id: SourceId },
}

/// What a rebind error says.
pub enum RebindFault {
    UnresolvedSource { origin_id: Seq<char>, origin: Seq<char> },
    MissingManifestEntry { clip_index: int, source_id: SourceId },
}

impl View for RebindError {
    type V = RebindFault;

    open spec fn view(&self) -> RebindFault {
        match self {
            RebindError::UnresolvedSource { origin_id, origin } => RebindFault::UnresolvedSource {
                origin_id: origin_id@,
                origin: origin@,
            },
            RebindError::MissingManifestEntry { clip_index, source_id } =>
                RebindFault::MissingManifestEntry {
                clip_index: *clip_index as int,
                source_id: *source_id,
            },
        }
    }
}

/// What a rebind error tells the user.
pub open spec fn rebind_message(fault: RebindFault) -> Seq<char> {
    match fault {
        RebindFault::UnresolvedSource { origin_id, origin } => "source "@ + debug_text(origin_id)
            + " ("@ + origin + ") is not in this corpus — ingest it, then reopen"@,
        RebindFault::MissingManifestEntry { clip_index, source_id } => missing_entry_message(
            clip_index,
            source_id,
        ),
    }
}

impl RebindError {
    /// What the error tells the user.
    pub fn message(&self) -> (s: String)
        ensures
            s@ == rebind_message(self@),
    {
        match self {
            RebindError::UnresolvedSource { origin_id, origin } => {
                let mut s: String = "source ".to_owned();
                s.append(quoted(origin_id.as_str()).as_str());
                s.append(" (");
                s.append(origin.as_str());
                s.append(") is not in this corpus — ingest it, then reopen");
                s
            },
            RebindError::MissingManifestEntry { clip_index, source_id } => missing_entry(
                *clip_index,
                *source_id,
            ),
        }
    }
}

/// A successfully bound edit: clip source ids rewritten to corpus ids, the
/// manifest rebuilt from corpus values (persisted only on explicit save), and
/// the source map ready for compilation. Unreferenced manifest entries are
/// pruned.
#[derive(Debug)]
pub struct Rebind {
    pub edl: Edl,
    pub source_map: SourceMap,
    /// One entry per origin-id-only bind (the master hash did not match).
    pub warnings: Vec<String>,
}

/// `x` put into an ascending sequence, unless it is there.
pub open spec fn with_id(ids: Seq<i64>, x: i64) -> Seq<i64>
    decreases ids.len(),
{
    if ids.len() == 0 || ids.last() < x {
        ids.push(x)
    } else if ids.last() == x {
        ids
    } else {
        with_id(ids.drop_last(), x).push(ids.last())
    }
}

/// The source ids that clips refer to, ascending, each once.
pub open spec fn referenced(clips: Seq<ClipView>) -> Seq<i64>
    decreases clips.len(),
{
    if clips.len() == 0 {
        Seq::empty()
    } else {
        with_id(referenced(clips.drop_last()), clips.last().span.source.0)
    }
}

/// The first clip at or after `from` on a source, or the number of clips.
pub open spec fn first_using(clips: Seq<ClipView>, id: i64, from: int) -> int
    decreases clips.len() - from,
{
    if from < 0 || from >= clips.len() || clips[from].span.source.0 == id {
        from
    } else {
        first_using(clips, id, from + 1)
    }
}

/// Whether a corpus source has an entry's master.
pub open spec fn hash_match(source: CorpusSourceView, entry: SourceRefView) -> bool {
    source.master_hash == entry.master_hash
}

/// Whether a corpus source has an entry's origin and about its duration.
pub open spec fn origin_match(source: CorpusSourceView, entry: SourceRefView) -> bool {
    source.origin_id == entry.origin_id && -REBIND_DURATION_TOLERANCE <= source.duration
        - entry.duration <= REBIND_DURATION_TOLERANCE
}

/// The first corpus source at or after `from` with an entry's master (or, for
/// `by_origin`, its origin), or the corpus length.
pub open spec fn first_match(
    corpus: Seq<CorpusSourceView>,
    entry: SourceRefView,
    by_origin: bool,
    from: int,
) -> int
    decreases corpus.len() - from,
{
    if from < 0 || from >= corpus.len() || (if by_origin {
        origin_match(corpus[from], entry)
    } else {
        hash_match(corpus[from], entry)
    }) {
        from
    } else {
        first_match(corpus, entry, by_origin, from + 1)
    }
}

/// What a rebind has found for some of the referenced ids.
pub struct Binding {
    pub mapping: Map<i64, i64>,
    pub sources: Map<i64, SourceRefView>,
    pub infos: Map<i64, SourceInfoView>,
    pub warnings: Seq<Seq<char>>,
}

/// The warning of an origin-id-only bind.
pub open spec fn rebound_warning(entry: SourceRefView) -> Seq<char> {
    "source "@ + entry.origin
        + " rebound by origin_id (master hash differs); manifest updates on save"@
}

/// One more id bound: by hash silently, else by origin with a warning.
pub open spec fn bind_one(
    so_far: Binding,
    id: i64,
    clips: Seq<ClipView>,
    manifest: Map<i64, SourceRefView>,
    corpus: Seq<CorpusSourceView>,
) -> Result<Binding, RebindFault> {
    if !manifest.contains_key(id) {
        Err(
            RebindFault::MissingManifestEntry {
                clip_index: first_using(clips, id, 0),
                source_id: SourceId(id),
            },
        )
    } else {
        let entry = manifest[id];
        let by_hash = first_match(corpus, entry, false, 0);
        let by_origin = first_match(corpus, entry, true, 0);
        if by_hash < corpus.len() {
            Ok(bound_to(so_far, id, corpus[by_hash], so_far.warnings))
        } else if by_origin < corpus.len() {
            Ok(
                bound_to(
                    so_far,
                    id,
                    corpus[by_origin],
                    so_far.warnings.push(rebound_warning(entry)),
                ),
            )
        } else {
            Err(
                RebindFault::UnresolvedSource { origin_id: entry.origin_id, origin: entry.origin },
            )
        }
    }
}

/// A binding with one id bound to a corpus source.
pub open spec fn bound_to(
    so_far: Binding,
    id: i64,
    source: CorpusSourceView,
    warnings: Seq<Seq<char>>,
) -> Binding {
    Binding {
        mapping: so_far.mapping.insert(id, source.id.0),
        sources: so_far.sources.insert(source.id.0, manifest_entry(source)),
        infos: so_far.infos.insert(source.id.0, compile_info(source)),
        warnings,
    }
}

/// The binding of a list of ids, in order; the first failure stands.
pub open spec fn bind_all(
    ids: Seq<i64>,
    clips: Seq<ClipView>,
    manifest: Map<i64, SourceRefView>,
    corpus: Seq<CorpusSourceView>,
) -> Result<Binding, RebindFault>
    decreases ids.len(),
{
    if ids.len() == 0 {
        Ok(
            Binding {
                mapping: Map::empty(),
                sources: Map::empty(),
                infos: Map::empty(),
                warnings: Seq::empty(),
            },
        )
    } else {
        match bind_all(ids.drop_last(), clips, manifest, corpus) {
            Err(fault) => Err(fault),
            Ok(so_far) => bind_one(so_far, ids.last(), clips, manifest, corpus),
        }
    }
}

/// A clip moved to another source.
pub open spec fn moved(clip: ClipView, id: i64) -> ClipView {
    ClipView { span: Span { source: SourceId(id), ..clip.span }, ..clip }
}

/// The clips with their sources rewritten.
pub open spec fn rewritten(clips: Seq<ClipView>, mapping: Map<i64, i64>) -> Seq<ClipView> {
    clips.map_values(|c: ClipView| moved(c, mapping[c.span.source.0]))
}

// ---------------------------------------------------------------------- laws

proof fn lemma_with_id(ids: Seq<i64>, x: i64)
    requires
        forall|i: int, j: int| 0 <= i < j < ids.len() ==> ids[i] < ids[j],
    ensures
        forall|i: int, j: int|
            0 <= i < j < with_id(ids, x).len() ==> with_id(ids, x)[i] < with_id(ids, x)[j],
        forall|y: i64| #[trigger] with_id(ids, x).contains(y) <==> ids.contains(y) || y == x,
    decreases ids.len(),
{
    let r = with_id(ids, x);
    if ids.len() == 0 || ids.last() < x {
        assert(r[ids.len() as int] == x);
        assert forall|y: i64| ids.contains(y) implies r.contains(y) by {
            let i = choose|i: int| 0 <= i < ids.len() && ids[i] == y;
            assert(r[i] == y);
        }
    } else if ids.last() == x {
        assert(ids[ids.len() - 1] == x);
    } else {
        let before = ids.drop_last();
        lemma_with_id(before, x);
        let q = with_id(before, x);
        assert(r == q.push(ids.last()));
        assert forall|i: int| 0 <= i < q.len() implies q[i] < ids.last() by {
            assert(q.contains(q[i]));
            if before.contains(q[i]) {
                let k = choose|k: int| 0 <= k < before.len() && before[k] == q[i];
                assert(ids[k] < ids[ids.len() - 1]);
            }
        }
        assert forall|y: i64| r.contains(y) <==> ids.contains(y) || y == x by {
            if r.contains(y) {
                let i = choose|i: int| 0 <= i < r.len() && r[i] == y;
                if i < q.len() {
                    assert(q.contains(y));
                    if before.contains(y) {
                        let k = choose|k: int| 0 <= k < before.len() && before[k] == y;
                        assert(ids[k] == y);
                    }
                } else {
                    assert(ids[ids.len() - 1] == y);
                }
            }
            if ids.contains(y) {
                let k = choose|k: int| 0 <= k < ids.len() && ids[k] == y;
                if k < before.len() {
                    assert(before[k] == y);
                    assert(before.contains(y));
                    assert(q.contains(y));
                    let m = choose|m: int| 0 <= m < q.len() && q[m] == y;
                    assert(r[m] == y);
                } else {
                    assert(r[q.len() as int] == y);
                }
            }
            if y == x {
                assert(q.contains(y));
                let m = choose|m: int| 0 <= m < q.len() && q[m] == y;
                assert(r[m] == y);
            }
        }
    }
}

/// The referenced ids ascend, and are exactly the clips' sources.
pub proof fn law_referenced_ids(clips: Seq<ClipView>)
    ensures
        forall|i: int, j: int|
            0 <= i < j < referenced(clips).len() ==> referenced(clips)[i] < referenced(clips)[j],
        forall|id: i64| #[trigger]
            referenced(clips).contains(id) <==> exists|k: int|
                0 <= k < clips.len() && (#[trigger] clips[k]).span.source.0 == id,
    decreases clips.len(),
{
    if clips.len() > 0 {
        let before = clips.drop_last();
        law_referenced_ids(before);
        lemma_with_id(referenced(before), clips.last().span.source.0);
        assert forall|id: i64| #[trigger] referenced(clips).contains(id) <==> exists|k: int|
            0 <= k < clips.len() && (#[trigger] clips[k]).span.source.0 == id by {
            if referenced(before).contains(id) {
                let k = choose|k: int|
                    0 <= k < before.len() && (#[trigger] before[k]).span.source.0 == id;
                assert(clips[k].span.source.0 == id);
            }
            if id == clips.last().span.source.0 {
                assert(clips[clips.len() - 1].span.source.0 == id);
            }
            if exists|k: int| 0 <= k < clips.len() && (#[trigger] clips[k]).span.source.0 == id {
                let k = choose|k: int|
                    0 <= k < clips.len() && (#[trigger] clips[k]).span.source.0 == id;
                if k < before.len() {
                    assert(before[k].span.source.0 == id);
                }
            }
        }
    } else {
        assert forall|id: i64| !(#[trigger] referenced(clips).contains(id)) by {}
    }
}

/// What a binding holds: every id of the list is mapped to a bound source, and
/// the manifest and the source map cover the same sources, each of them some
/// mapped id's.
pub open spec fn covers(b: Binding, ids: Seq<i64>) -> bool {
    &&& b.sources.dom() == b.infos.dom()
    &&& forall|id: i64| #[trigger] b.mapping.contains_key(id) <==> ids.contains(id)
    &&& forall|id: i64| #[trigger] b.mapping.contains_key(id) ==> b.infos.contains_key(b.mapping[id])
    &&& forall|s: i64|
        #[trigger] b.infos.contains_key(s) ==> exists|id: i64|
            #[trigger] b.mapping.contains_key(id) && b.mapping[id] == s
}

/// A bound edit's manifest and source map cover exactly the sources that its
/// clips refer to: unreferenced entries are pruned.
pub proof fn law_binding_covers(
    ids: Seq<i64>,
    clips: Seq<ClipView>,
    manifest: Map<i64, SourceRefView>,
    corpus: Seq<CorpusSourceView>,
)
    requires
        bind_all(ids, clips, manifest, corpus) is Ok,
    ensures
        covers(bind_all(ids, clips, manifest, corpus)->Ok_0, ids),
    decreases ids.len(),
{
    if ids.len() > 0 {
        let before = ids.drop_last();
        law_binding_covers(before, clips, manifest, corpus);
        let old_b = bind_all(before, clips, manifest, corpus)->Ok_0;
        let b = bind_all(ids, clips, manifest, corpus)->Ok_0;
        let last = ids.last();
        assert(ids[ids.len() - 1] == last);
        assert(b.sources.dom() =~= b.infos.dom());
        assert forall|id: i64| #[trigger] b.mapping.contains_key(id) <==> ids.contains(id) by {
            if before.contains(id) {
                let k = choose|k: int| 0 <= k < before.len() && before[k] == id;
                assert(ids[k] == id);
            }
            if ids.contains(id) && id != last {
                let k = choose|k: int| 0 <= k < ids.len() && ids[k] == id;
                assert(before[k] == id);
            }
            assert(b.mapping.contains_key(id) <==> old_b.mapping.contains_key(id) || id == last);
        }
        assert forall|id: i64| #[trigger]
            b.mapping.contains_key(id) implies b.infos.contains_key(b.mapping[id]) by {
            if id != last {
                assert(old_b.mapping.contains_key(id));
            }
        }
        assert forall|s: i64| #[trigger] b.infos.contains_key(s) implies exists|id: i64|
            #[trigger] b.mapping.contains_key(id) && b.mapping[id] == s by {
            if s == b.mapping[last] {
                assert(b.mapping.contains_key(last));
            } else {
                assert(old_b.infos.contains_key(s));
                if old_b.mapping.contains_key(last) && old_b.mapping[last] == s {
                    // The list binds `last` a second time, to the same source.
                    lemma_bound_once(before, clips, manifest, corpus, last);
                }
                let id = choose|id: i64| #[trigger]
                    old_b.mapping.contains_key(id) && old_b.mapping[id] == s;
                assert(b.mapping.contains_key(id) && b.mapping[id] == s);
            }
        }
    }
}

/// The source that an id binds to depends on its manifest entry alone.
proof fn lemma_bound_once(
    ids: Seq<i64>,
    clips: Seq<ClipView>,
    manifest: Map<i64, SourceRefView>,
    corpus: Seq<CorpusSourceView>,
    id: i64,
)
    requires
        bind_all(ids, clips, manifest, corpus) is Ok,
        bind_all(ids, clips, manifest, corpus)->Ok_0.mapping.contains_key(id),
    ensures
        manifest.contains_key(id),
        ({
            let by_hash = first_match(corpus, manifest[id], false, 0);
            let at = if by_hash < corpus.len() {
                by_hash
            } else {
                first_match(corpus, manifest[id], true, 0)
            };
            &&& at < corpus.len()
            &&& bind_all(ids, clips, manifest, corpus)->Ok_0.mapping[id] == corpus[at].id.0
        }),
    decreases ids.len(),
{
    if ids.last() != id {
        lemma_bound_once(ids.drop_last(), clips, manifest, corpus, id);
    }
}

/// No two sources of a corpus share an id or a master.
pub open spec fn told_apart(corpus: Seq<CorpusSourceView>) -> bool {
    forall|i: int, j: int|
        0 <= i < j < corpus.len() ==> (#[trigger] corpus[i]).id != (#[trigger] corpus[j]).id
            && corpus[i].master_hash != corpus[j].master_hash
}

/// Whether an id is a corpus source's, with the manifest entry of that source.
pub open spec fn names_source(
    corpus: Seq<CorpusSourceView>,
    id: i64,
    entry: SourceRefView,
) -> bool {
    exists|j: int|
        0 <= j < corpus.len() && (#[trigger] corpus[j]).id.0 == id && entry == manifest_entry(
            corpus[j],
        )
}

/// Whether every entry of a manifest is a corpus source's, under its id.
pub open spec fn taken_from(
    manifest: Map<i64, SourceRefView>,
    corpus: Seq<CorpusSourceView>,
) -> bool {
    forall|id: i64| #[trigger]
        manifest.contains_key(id) ==> names_source(corpus, id, manifest[id])
}

proof fn lemma_own_hash(corpus: Seq<CorpusSourceView>, j: int, from: int)
    requires
        told_apart(corpus),
        0 <= from <= j < corpus.len(),
    ensures
        first_match(corpus, manifest_entry(corpus[j]), false, from) == j,
    decreases j - from,
{
    if from < j {
        assert(corpus[from].master_hash != corpus[j].master_hash);
        lemma_own_hash(corpus, j, from + 1);
    }
}

proof fn lemma_taken_binds(
    ids: Seq<i64>,
    clips: Seq<ClipView>,
    manifest: Map<i64, SourceRefView>,
    corpus: Seq<CorpusSourceView>,
)
    requires
        told_apart(corpus),
        taken_from(manifest, corpus),
        forall|k: int| 0 <= k < ids.len() ==> manifest.contains_key(#[trigger] ids[k]),
    ensures
        bind_all(ids, clips, manifest, corpus) is Ok,
        bind_all(ids, clips, manifest, corpus)->Ok_0.warnings.len() == 0,
        bind_all(ids, clips, manifest, corpus)->Ok_0.sources == manifest.restrict(ids.to_set()),
        forall|id: i64| #[trigger]
            bind_all(ids, clips, manifest, corpus)->Ok_0.mapping.contains_key(id)
                <==> ids.contains(id),
        forall|id: i64| #[trigger]
            bind_all(ids, clips, manifest, corpus)->Ok_0.mapping.contains_key(id) ==> bind_all(
                ids,
                clips,
                manifest,
                corpus,
            )->Ok_0.mapping[id] == id,
    decreases ids.len(),
{
    let b = bind_all(ids, clips, manifest, corpus)->Ok_0;
    if ids.len() == 0 {
        assert(b.sources =~= manifest.restrict(ids.to_set()));
    } else {
        let before = ids.drop_last();
        let last = ids.last();
        assert(ids[ids.len() - 1] == last);
        assert forall|k: int| 0 <= k < before.len() implies manifest.contains_key(
            #[trigger] before[k],
        ) by {
            assert(ids[k] == before[k]);
        }
        lemma_taken_binds(before, clips, manifest, corpus);
        assert(names_source(corpus, last, manifest[last]));
        let j = choose|j: int|
            0 <= j < corpus.len() && (#[trigger] corpus[j]).id.0 == last && manifest[last]
                == manifest_entry(corpus[j]);
        lemma_own_hash(corpus, j, 0);
        let old_b = bind_all(before, clips, manifest, corpus)->Ok_0;
        assert(bind_all(ids, clips, manifest, corpus) == bind_one(
            old_b,
            last,
            clips,
            manifest,
            corpus,
        ));
        assert(b == bound_to(old_b, last, corpus[j], old_b.warnings));
        assert(b.mapping =~= old_b.mapping.insert(last, last));
        assert forall|id: i64| ids.contains(id) <==> before.contains(id) || id == last by {
            if before.contains(id) {
                let k = choose|k: int| 0 <= k < before.len() && before[k] == id;
                assert(ids[k] == id);
            }
            if ids.contains(id) && id != last {
                let k = choose|k: int| 0 <= k < ids.len() && ids[k] == id;
                assert(before[k] == id);
            }
        }
        assert(b.sources =~= manifest.restrict(ids.to_set()));
    }
}

/// An edit whose manifest was taken from a corpus binds to that corpus as it
/// is: silently, with its own manifest and every clip on its own source. It
/// takes a corpus whose sources' ids and masters differ; of two sources with
/// one master the first would be bound.
pub proof fn law_own_sources_bind_silently(
    clips: Seq<ClipView>,
    manifest: Map<i64, SourceRefView>,
    corpus: Seq<CorpusSourceView>,
)
    requires
        told_apart(corpus),
        taken_from(manifest, corpus),
        forall|i: int|
            0 <= i < clips.len() ==> manifest.contains_key((#[trigger] clips[i]).span.source.0),
    ensures
        bind_all(referenced(clips), clips, manifest, corpus) matches Ok(b) && {
            &&& b.warnings.len() == 0
            &&& b.sources == manifest.restrict(referenced(clips).to_set())
            &&& rewritten(clips, b.mapping) == clips
        },
{
    let ids = referenced(clips);
    law_referenced_ids(clips);
    assert forall|k: int| 0 <= k < ids.len() implies manifest.contains_key(#[trigger] ids[k]) by {
        assert(ids.contains(ids[k]));
    }
    lemma_taken_binds(ids, clips, manifest, corpus);
    let b = bind_all(ids, clips, manifest, corpus)->Ok_0;
    let out = rewritten(clips, b.mapping);
    assert forall|i: int| 0 <= i < clips.len() implies #[trigger] out[i] == clips[i] by {
        assert(ids.contains(clips[i].span.source.0));
        assert(b.mapping.contains_key(clips[i].span.source.0));
        assert(out[i] == moved(clips[i], clips[i].span.source.0));
    }
    assert(out =~= clips);
}

/// A bound edit's manifest is taken from the corpus that it was bound to.
pub proof fn law_bound_manifest_is_the_corpus_own(
    ids: Seq<i64>,
    clips: Seq<ClipView>,
    manifest: Map<i64, SourceRefView>,
    corpus: Seq<CorpusSourceView>,
)
    requires
        bind_all(ids, clips, manifest, corpus) is Ok,
    ensures
        taken_from(bind_all(ids, clips, manifest, corpus)->Ok_0.sources, corpus),
    decreases ids.len(),
{
    if ids.len() > 0 {
        let before = ids.drop_last();
        law_bound_manifest_is_the_corpus_own(before, clips, manifest, corpus);
        let old_b = bind_all(before, clips, manifest, corpus)->Ok_0;
        let b = bind_all(ids, clips, manifest, corpus)->Ok_0;
        let entry = manifest[ids.last()];
        let by_hash = first_match(corpus, entry, false, 0);
        let at = if by_hash < corpus.len() {
            by_hash
        } else {
            first_match(corpus, entry, true, 0)
        };
        lemma_match_index(corpus, entry, false, 0);
        lemma_match_index(corpus, entry, true, 0);
        assert(b.sources == old_b.sources.insert(corpus[at].id.0, manifest_entry(corpus[at])));
        assert forall|id: i64| #[trigger] b.sources.contains_key(id) implies names_source(
            corpus,
            id,
            b.sources[id],
        ) by {
            if id == corpus[at].id.0 {
                assert(corpus[at].id.0 == id);
            } else {
                assert(old_b.sources.contains_key(id));
            }
        }
    }
}

proof fn lemma_match_index(
    corpus: Seq<CorpusSourceView>,
    entry: SourceRefView,
    by_origin: bool,
    from: int,
)
    requires
        0 <= from <= corpus.len(),
    ensures
        from <= first_match(corpus, entry, by_origin, from) <= corpus.len(),
    decreases corpus.len() - from,
{
    if from < corpus.len() {
        lemma_match_index(corpus, entry, by_origin, from + 1);
    }
}

// ---------------------------------------------------------------- the binding

fn insert_id(ids: &mut Vec<i64>, x: i64)
    ensures
        final(ids)@ == with_id(old(ids)@, x),
{
    let ghost all = ids@;
    let mut i: usize = ids.len();
    let ghost mut tail: Seq<i64> = Seq::empty();
    assert(with_id(all.take(i as int), x) + tail =~= with_id(all, x)) by {
        assert(all.take(i as int) =~= all);
    }
    while i > 0 && ids[i - 1] > x
        invariant
            i <= all.len(),
            ids@ == all,
            tail == all.skip(i as int),
            with_id(all.take(i as int), x) + tail == with_id(all, x),
        decreases i,
    {
        proof {
            let now = all.take(i as int);
            assert(now.drop_last() =~= all.take(i - 1));
            assert(with_id(now, x) + tail =~= with_id(all.take(i - 1), x) + all.skip(i - 1));
            tail = all.skip(i - 1);
        }
        i = i - 1;
    }
    if i > 0 && ids[i - 1] == x {
        assert(all.take(i as int) + tail =~= all);
    } else {
        ids.insert(i, x);
        assert(ids@ =~= all.take(i as int).push(x) + tail);
    }
}

/// The source ids the edit's clips refer to, ascending.
pub fn referenced_ids(edl: &Edl) -> (ids: Vec<i64>)
    ensures
        ids@ == referenced(clip_views(edl.clips@)),
{
    let ghost clips = clip_views(edl.clips@);
    let mut ids: Vec<i64> = Vec::new();
    let mut i: usize = 0;
    assert(clips.take(0) =~= Seq::empty());
    while i < edl.clips.len()
        invariant
            i <= edl.clips@.len(),
            clips == clip_views(edl.clips@),
            ids@ == referenced(clips.take(i as int)),
        decreases edl.clips@.len() - i,
    {
        assert(clips.take(i + 1).drop_last() =~= clips.take(i as int));
        insert_id(&mut ids, edl.clips[i].span.source.0);
        i = i + 1;
    }
    assert(clips.take(i as int) =~= clips);
    ids
}

fn find_using(edl: &Edl, id: i64) -> (at: usize)
    ensures
        at == first_using(clip_views(edl.clips@), id, 0),
{
    let ghost clips = clip_views(edl.clips@);
    let mut i: usize = 0;
    while i < edl.clips.len() && edl.clips[i].span.source.0 != id
        invariant
            i <= edl.clips@.len(),
            clips == clip_views(edl.clips@),
            first_using(clips, id, 0) == first_using(clips, id, i as int),
        decreases edl.clips@.len() - i,
    {
        i = i + 1;
    }
    i
}

fn find_match(corpus: &Vec<CorpusSource>, entry: &SourceRef, by_origin: bool) -> (at: usize)
    ensures
        at == first_match(corpus_views(corpus@), entry@, by_origin, 0),
        at <= corpus@.len(),
{
    let ghost rows = corpus_views(corpus@);
    let mut i: usize = 0;
    while i < corpus.len()
        invariant
            i <= corpus@.len(),
            rows == corpus_views(corpus@),
            first_match(rows, entry@, by_origin, 0) == first_match(
                rows,
                entry@,
                by_origin,
                i as int,
            ),
        decreases corpus@.len() - i,
    {
        let source: &CorpusSource = &corpus[i];
        assert(rows[i as int] == source@);
        let hit: bool = if by_origin {
            let gap: i128 = source.duration as i128 - entry.duration as i128;
            source.origin_id == entry.origin_id && -(REBIND_DURATION_TOLERANCE as i128) <= gap
                && gap <= REBIND_DURATION_TOLERANCE as i128
        } else {
            source.master_hash == entry.master_hash
        };
        if hit {
            return i;
        }
        i = i + 1;
    }
    i
}

proof fn lemma_bind_stays(
    ids: Seq<i64>,
    clips: Seq<ClipView>,
    manifest: Map<i64, SourceRefView>,
    corpus: Seq<CorpusSourceView>,
    n: int,
)
    requires
        0 <= n <= ids.len(),
        bind_all(ids.take(n), clips, manifest, corpus) is Err,
    ensures
        bind_all(ids, clips, manifest, corpus) == bind_all(
            ids.take(n),
            clips,
            manifest,
            corpus,
        ),
    decreases ids.len() - n,
{
    if n == ids.len() {
        assert(ids.take(n) =~= ids);
    } else {
        assert(ids.take(n + 1).drop_last() =~= ids.take(n));
        lemma_bind_stays(ids, clips, manifest, corpus, n + 1);
    }
}

/// What a rebind returns for a binding.
pub open spec fn rebound(r: Rebind, clips: Seq<ClipView>, b: Binding) -> bool {
    &&& clip_views(r.edl.clips@) == rewritten(clips, b.mapping)
    &&& ref_views(r.edl.sources@) == b.sources
    &&& info_views(r.source_map@) == b.infos
    &&& texts(r.warnings@) == b.warnings
}

/// Binds an edit's sources to a corpus, in ascending order of their ids in
/// the edit.
pub fn rebind(edl: &Edl, corpus: &Vec<CorpusSource>) -> (r: Result<Rebind, RebindError>)
    ensures
        ({
            let clips = clip_views(edl.clips@);
            match bind_all(
                referenced(clips),
                clips,
                ref_views(edl.sources@),
                corpus_views(corpus@),
            ) {
                Ok(b) => r is Ok && rebound(r->Ok_0, clips, b),
                Err(fault) => r is Err && r->Err_0@ == fault,
            }
        }),
{
    let ghost clips = clip_views(edl.clips@);
    let ghost manifest = ref_views(edl.sources@);
    let ghost rows = corpus_views(corpus@);
    let ids: Vec<i64> = referenced_ids(edl);
    let mut mapping: HashMap<i64, i64> = HashMap::new();
    let mut sources: BTreeMap<i64, SourceRef> = BTreeMap::new();
    let mut source_map: SourceMap = HashMap::new();
    let mut warnings: Vec<String> = Vec::new();
    let ghost mut b = bind_all(ids@.take(0), clips, manifest, rows)->Ok_0;
    proof {
        assert(ref_views(sources@) =~= Map::empty());
        assert(info_views(source_map@) =~= Map::empty());
        assert(texts(warnings@) =~= Seq::empty());
        assert(mapping@ =~= Map::empty());
    }
    let mut k: usize = 0;
    while k < ids.len()
        invariant
            k <= ids@.len(),
            clips == clip_views(edl.clips@),
            manifest == ref_views(edl.sources@),
            rows == corpus_views(corpus@),
            ids@ == referenced(clips),
            bind_all(ids@.take(k as int), clips, manifest, rows) == Ok::<Binding, RebindFault>(b),
            mapping@ == b.mapping,
            ref_views(sources@) == b.sources,
            info_views(source_map@) == b.infos,
            texts(warnings@) == b.warnings,
        decreases ids@.len() - k,
    {
        let old_id: i64 = ids[k];
        proof {
            assert(ids@.take(k + 1).drop_last() =~= ids@.take(k as int));
            assert(ids@.take(k + 1).last() == old_id);
        }
        let entry: &SourceRef = match edl.sources.get(&old_id) {
            Some(entry) => entry,
            None => {
                proof {
                    lemma_bind_stays(ids@, clips, manifest, rows, k + 1);
                }
                return Err(
                    RebindError::MissingManifestEntry {
                        clip_index: find_using(edl, old_id),
                        source_id: SourceId(old_id),
                    },
                );
            },
        };
        assert(manifest[old_id] == entry@);
        let by_hash: usize = find_match(corpus, entry, false);
        let at: usize = if by_hash < corpus.len() {
            by_hash
        } else {
            let by_origin: usize = find_match(corpus, entry, true);
            if by_origin >= corpus.len() {
                proof {
                    lemma_bind_stays(ids@, clips, manifest, rows, k + 1);
                }
                return Err(
                    RebindError::UnresolvedSource {
                        origin_id: entry.origin_id.clone(),
                        origin: entry.origin.clone(),
                    },
                );
            }
            let mut warning: String = "source ".to_owned();
            warning.append(entry.origin.as_str());
            warning.append(
                " rebound by origin_id (master hash differs); manifest updates on save",
            );
            let ghost before = texts(warnings@);
            warnings.push(warning);
            assert(texts(warnings@) =~= before.push(rebound_warning(entry@)));
            by_origin
        };
        let bound: &CorpusSource = &corpus[at];
        assert(rows[at as int] == bound@);
        let ghost (refs_before, infos_before) = (ref_views(sources@), info_views(source_map@));
        let source_ref: SourceRef = bound.source_ref();
        let source_info: SourceInfo = bound.source_info();
        mapping.insert(old_id, bound.id.0);
        sources.insert(bound.id.0, source_ref);
        source_map.insert(bound.id.0, source_info);
        proof {
            assert(ref_views(sources@) =~= refs_before.insert(bound.id.0, source_ref@));
            assert(info_views(source_map@) =~= infos_before.insert(bound.id.0, source_info@));
            b = bind_all(ids@.take(k + 1), clips, manifest, rows)->Ok_0;
        }
        k = k + 1;
    }
    proof {
        assert(ids@.take(k as int) =~= ids@);
        law_binding_covers(ids@, clips, manifest, rows);
        law_referenced_ids(clips);
    }
    let mut new_clips: Vec<Clip> = Vec::new();
    let mut i: usize = 0;
    while i < edl.clips.len()
        invariant
            i <= edl.clips@.len(),
            clips == clip_views(edl.clips@),
            mapping@ == b.mapping,
            forall|c: int|
                #![trigger clips[c]]
                0 <= c < clips.len() ==> b.mapping.contains_key(clips[c].span.source.0),
            clip_views(new_clips@) =~= rewritten(clips, b.mapping).take(i as int),
        decreases edl.clips@.len() - i,
    {
        let ghost before = clip_views(new_clips@);
        let mut clip: Clip = edl.clips[i].clone();
        assert(clips[i as int] == edl.clips@[i as int]@);
        match mapping.get(&clip.span.source.0) {
            Some(id) => {
                clip.span.source = SourceId(*id);
            },
            None => {},
        }
        let ghost added = clip@;
        assert(added == rewritten(clips, b.mapping)[i as int]);
        new_clips.push(clip);
        assert(clip_views(new_clips@) =~= before.push(added));
        i = i + 1;
    }
    assert(clip_views(new_clips@) =~= rewritten(clips, b.mapping));
    Ok(Rebind { edl: Edl { clips: new_clips, sources }, source_map, warnings })
}

/// A bound edit passes its own manifest check: every rewritten clip's source
/// is in the manifest and in the source map.
pub proof fn law_bound_edit_is_covered(r: Rebind, clips: Seq<ClipView>, b: Binding)
    requires
        rebound(r, clips, b),
        covers(b, referenced(clips)),
    ensures
        forall|i: int|
            #![trigger r.edl.clips@[i]]
            0 <= i < r.edl.clips@.len() ==> r.edl.sources@.contains_key(
                r.edl.clips@[i].span.source.0,
            ) && r.source_map@.contains_key(r.edl.clips@[i].span.source.0),
{
    law_referenced_ids(clips);
    assert forall|i: int| #![trigger r.edl.clips@[i]] 0 <= i < r.edl.clips@.len() implies
        r.edl.sources@.contains_key(r.edl.clips@[i].span.source.0) && r.source_map@.contains_key(
        r.edl.clips@[i].span.source.0,
    ) by {
        let out = clip_views(r.edl.clips@);
        assert(out[i] == r.edl.clips@[i]@);
        assert(out.len() == rewritten(clips, b.mapping).len());
        assert(out[i] == moved(clips[i], b.mapping[clips[i].span.source.0]));
        assert(referenced(clips).contains(clips[i].span.source.0));
        assert(b.mapping.contains_key(clips[i].span.source.0));
        let s = out[i].span.source.0;
        assert(b.infos.contains_key(s));
        assert(b.sources.contains_key(s));
        assert(info_views(r.source_map@).contains_key(s));
        assert(ref_views(r.edl.sources@).contains_key(s));
    }
}

// ---------------------------------------------------------------------- laws

/// Whether a corpus source has the master that an entry names.
pub open spec fn same_master(corpus: Seq<CorpusSourceView>, entry: SourceRefView, j: int) -> bool {
    0 <= j < corpus.len() && corpus[j].master_hash == entry.master_hash
}

/// Whether a corpus source comes from where an entry does, and lasts as long, to
/// half a second.
pub open spec fn same_origin(corpus: Seq<CorpusSourceView>, entry: SourceRefView, j: int) -> bool {
    0 <= j < corpus.len() && corpus[j].origin_id == entry.origin_id && -500_000_000
        <= corpus[j].duration - entry.duration <= 500_000_000
}

/// Whether `j` is the source that an entry is bound to: the first with its master,
/// or, where none has it, the first of its origin.
pub open spec fn is_choice(corpus: Seq<CorpusSourceView>, entry: SourceRefView, j: int) -> bool {
    ||| same_master(corpus, entry, j) && forall|k: int|
        0 <= k < j ==> !#[trigger] same_master(corpus, entry, k)
    ||| same_origin(corpus, entry, j) && (forall|k: int| !#[trigger] same_master(corpus, entry, k))
        && forall|k: int| 0 <= k < j ==> !#[trigger] same_origin(corpus, entry, k)
}

proof fn lemma_first_match(
    corpus: Seq<CorpusSourceView>,
    entry: SourceRefView,
    by_origin: bool,
    from: int,
)
    requires
        0 <= from <= corpus.len(),
    ensures
        ({
            let j = first_match(corpus, entry, by_origin, from);
            let fits = |k: int|
                if by_origin {
                    same_origin(corpus, entry, k)
                } else {
                    same_master(corpus, entry, k)
                };
            &&& from <= j <= corpus.len()
            &&& j < corpus.len() ==> fits(j)
            &&& forall|k: int| from <= k < j ==> !(#[trigger] same_origin(corpus, entry, k)) || !by_origin
            &&& forall|k: int| from <= k < j ==> !(#[trigger] same_master(corpus, entry, k)) || by_origin
        }),
    decreases corpus.len() - from,
{
    if from < corpus.len() && !(if by_origin {
        origin_match(corpus[from], entry)
    } else {
        hash_match(corpus[from], entry)
    }) {
        lemma_first_match(corpus, entry, by_origin, from + 1);
    }
}

proof fn lemma_choice(corpus: Seq<CorpusSourceView>, entry: SourceRefView)
    ensures
        ({
            let by_hash = first_match(corpus, entry, false, 0);
            let by_origin = first_match(corpus, entry, true, 0);
            let j = if by_hash < corpus.len() {
                by_hash
            } else {
                by_origin
            };
            &&& j < corpus.len() ==> is_choice(corpus, entry, j)
            &&& j >= corpus.len() ==> forall|k: int|
                !(#[trigger] same_master(corpus, entry, k)) && !same_origin(corpus, entry, k)
            &&& by_hash < corpus.len() <==> exists|k: int| #[trigger] same_master(corpus, entry, k)
        }),
{
    lemma_first_match(corpus, entry, false, 0);
    lemma_first_match(corpus, entry, true, 0);
    let by_hash = first_match(corpus, entry, false, 0);
    let by_origin = first_match(corpus, entry, true, 0);
    if by_hash < corpus.len() {
        assert(same_master(corpus, entry, by_hash));
    } else {
        assert forall|k: int| !#[trigger] same_master(corpus, entry, k) by {}
        if by_origin >= corpus.len() {
            assert forall|k: int|
                !(#[trigger] same_master(corpus, entry, k)) && !same_origin(corpus, entry, k) by {
                assert(!same_origin(corpus, entry, k));
            }
        }
    }
}

/// Every id of a binding goes to the source that its entry chooses.
pub proof fn law_ids_are_bound_by_master_then_origin(
    ids: Seq<i64>,
    clips: Seq<ClipView>,
    manifest: Map<i64, SourceRefView>,
    corpus: Seq<CorpusSourceView>,
    id: i64,
) -> (j: int)
    requires
        bind_all(ids, clips, manifest, corpus) is Ok,
        ids.contains(id),
    ensures
        ({
            let b = bind_all(ids, clips, manifest, corpus)->Ok_0;
            &&& manifest.contains_key(id)
            &&& is_choice(corpus, manifest[id], j)
            &&& b.mapping.contains_key(id)
            &&& b.mapping[id] == corpus[j].id.0
            &&& b.sources.contains_key(corpus[j].id.0)
            &&& b.infos.contains_key(corpus[j].id.0)
        }),
    decreases ids.len(),
{
    let before = ids.drop_last();
    let last = ids.last();
    let entry = manifest[last];
    lemma_choice(corpus, entry);
    if id == last {
        if first_match(corpus, entry, false, 0) < corpus.len() {
            first_match(corpus, entry, false, 0)
        } else {
            first_match(corpus, entry, true, 0)
        }
    } else {
        let k = choose|k: int| 0 <= k < ids.len() && ids[k] == id;
        assert(before[k] == id);
        law_ids_are_bound_by_master_then_origin(before, clips, manifest, corpus, id)
    }
}

/// Whether the corpus has an entry's master.
pub open spec fn has_master(corpus: Seq<CorpusSourceView>, entry: SourceRefView) -> bool {
    exists|j: int| #[trigger] same_master(corpus, entry, j)
}

/// Whether the corpus has a source of an entry's origin.
pub open spec fn has_origin(corpus: Seq<CorpusSourceView>, entry: SourceRefView) -> bool {
    exists|j: int| #[trigger] same_origin(corpus, entry, j)
}

/// A binding succeeds iff every id has an entry and the corpus has its master or
/// its origin; it is silent iff it has every master.
pub proof fn law_edits_bind_iff_the_corpus_has_them(
    ids: Seq<i64>,
    clips: Seq<ClipView>,
    manifest: Map<i64, SourceRefView>,
    corpus: Seq<CorpusSourceView>,
)
    ensures
        bind_all(ids, clips, manifest, corpus) is Ok <==> forall|i: int|
            #![trigger ids[i]]
            0 <= i < ids.len() ==> manifest.contains_key(ids[i]) && (has_master(
                corpus,
                manifest[ids[i]],
            ) || has_origin(corpus, manifest[ids[i]])),
        bind_all(ids, clips, manifest, corpus) is Ok ==> (bind_all(
            ids,
            clips,
            manifest,
            corpus,
        )->Ok_0.warnings.len() == 0 <==> forall|i: int|
            #![trigger ids[i]]
            0 <= i < ids.len() ==> has_master(corpus, manifest[ids[i]])),
    decreases ids.len(),
{
    if ids.len() > 0 {
        let before = ids.drop_last();
        let n = ids.len() - 1;
        let entry = manifest[ids[n]];
        law_edits_bind_iff_the_corpus_has_them(before, clips, manifest, corpus);
        lemma_choice(corpus, entry);
        lemma_first_match(corpus, entry, false, 0);
        lemma_first_match(corpus, entry, true, 0);
        let by_hash = first_match(corpus, entry, false, 0);
        let by_origin = first_match(corpus, entry, true, 0);
        assert(by_hash < corpus.len() <==> has_master(corpus, entry));
        if by_origin < corpus.len() {
            assert(same_origin(corpus, entry, by_origin));
        }
        assert(by_origin < corpus.len() <==> has_origin(corpus, entry));
        assert forall|i: int| #![trigger ids[i]] 0 <= i < n implies before[i] == ids[i] by {}
        let was = bind_all(before, clips, manifest, corpus);
        let bound = |i: int|
            manifest.contains_key(ids[i]) && (has_master(corpus, manifest[ids[i]]) || has_origin(
                corpus,
                manifest[ids[i]],
            ));
        if was is Ok {
            assert forall|i: int| #![trigger ids[i]] 0 <= i < n implies bound(i) by {
                assert(before[i] == ids[i]);
            }
            if was->Ok_0.warnings.len() == 0 {
                assert forall|i: int| #![trigger ids[i]] 0 <= i < n implies has_master(
                    corpus,
                    manifest[ids[i]],
                ) by {
                    assert(before[i] == ids[i]);
                }
            } else {
                let i = choose|i: int|
                    #![trigger before[i]]
                    0 <= i < before.len() && !has_master(corpus, manifest[before[i]]);
                assert(ids[i] == before[i]);
            }
        } else {
            let i = choose|i: int|
                #![trigger before[i]]
                0 <= i < before.len() && !(manifest.contains_key(before[i]) && (has_master(
                    corpus,
                    manifest[before[i]],
                ) || has_origin(corpus, manifest[before[i]])));
            assert(ids[i] == before[i]);
            assert(!bound(i));
        }
    }
}

/// A source is described by its own origin, length and master, under the name of
/// its file, and compiled from its own file at its own rate.
pub proof fn law_sources_are_described_as_they_are(source: CorpusSourceView)
    ensures
        ({
            let (entry, info) = (manifest_entry(source), compile_info(source));
            &&& entry.origin == source.origin
            &&& entry.origin_id == source.origin_id
            &&& entry.duration == source.duration
            &&& entry.master_hash == source.master_hash
            &&& Some(entry.master_filename) == file_name_of(source.master_path) || file_name_of(
                source.master_path,
            ) is None
            &&& info.master_path == source.master_path
            &&& info.duration == source.duration
            &&& info.fps == source.fps
        }),
{
}

/// What a binding compiles from is the corpus's own: each info belongs to the
/// source with that id.
pub proof fn law_bound_infos_are_the_corpus_own(
    ids: Seq<i64>,
    clips: Seq<ClipView>,
    manifest: Map<i64, SourceRefView>,
    corpus: Seq<CorpusSourceView>,
    id: i64,
) -> (j: int)
    requires
        bind_all(ids, clips, manifest, corpus) is Ok,
        bind_all(ids, clips, manifest, corpus)->Ok_0.infos.contains_key(id),
    ensures
        0 <= j < corpus.len(),
        corpus[j].id.0 == id,
        ({
            let info = bind_all(ids, clips, manifest, corpus)->Ok_0.infos[id];
            &&& info.master_path == corpus[j].master_path
            &&& info.duration == corpus[j].duration
            &&& info.fps == corpus[j].fps
        }),
    decreases ids.len(),
{
    let before = ids.drop_last();
    if ids.len() == 0 {
        assert(false);
        0
    } else {
        let entry = manifest[ids.last()];
        lemma_choice(corpus, entry);
        lemma_first_match(corpus, entry, false, 0);
        lemma_first_match(corpus, entry, true, 0);
        let at = if first_match(corpus, entry, false, 0) < corpus.len() {
            first_match(corpus, entry, false, 0)
        } else {
            first_match(corpus, entry, true, 0)
        };
        if corpus[at].id.0 == id {
            at
        } else {
            law_bound_infos_are_the_corpus_own(before, clips, manifest, corpus, id)
        }
    }
}

/// A rebind moves each clip to where its source went, and changes nothing else of
/// it.
pub proof fn law_rebinding_changes_only_the_source(
    clips: Seq<ClipView>,
    mapping: Map<i64, i64>,
    i: int,
)
    requires
        0 <= i < clips.len(),
    ensures
        ({
            let (was, now) = (clips[i], rewritten(clips, mapping)[i]);
            &&& rewritten(clips, mapping).len() == clips.len()
            &&& now.span.source.0 == mapping[was.span.source.0]
            &&& now.span.t_start == was.span.t_start
            &&& now.span.t_end == was.span.t_end
            &&& now.span.channel == was.span.channel
            &&& now.transforms == was.transforms
            &&& now.provenance == was.provenance
            &&& now.label == was.label
        }),
{
}

/// What is told of an edit that cannot be bound: the first id, in order, that has
/// no entry, by the first clip on it; or that the corpus lacks, by its origin.
pub proof fn law_the_first_unbound_source_is_told(
    ids: Seq<i64>,
    clips: Seq<ClipView>,
    manifest: Map<i64, SourceRefView>,
    corpus: Seq<CorpusSourceView>,
) -> (n: int)
    requires
        bind_all(ids, clips, manifest, corpus) is Err,
    ensures
        0 <= n < ids.len(),
        bind_all(ids.take(n), clips, manifest, corpus) is Ok,
        ({
            let fault = bind_all(ids, clips, manifest, corpus)->Err_0;
            if manifest.contains_key(ids[n]) {
                &&& fault == RebindFault::UnresolvedSource {
                    origin_id: manifest[ids[n]].origin_id,
                    origin: manifest[ids[n]].origin,
                }
                &&& forall|j: int|
                    !(#[trigger] same_master(corpus, manifest[ids[n]], j)) && !same_origin(
                        corpus,
                        manifest[ids[n]],
                        j,
                    )
            } else {
                &&& fault matches RebindFault::MissingManifestEntry { clip_index, source_id }
                &&& source_id.0 == ids[n]
                &&& 0 <= clip_index <= clips.len()
                &&& clip_index < clips.len() ==> clips[clip_index].span.source.0 == ids[n]
                &&& forall|k: int|
                    #![trigger clips[k]]
                    0 <= k < clip_index ==> clips[k].span.source.0 != ids[n]
            }
        }),
    decreases ids.len(),
{
    if ids.len() == 0 {
        assert(false);
        0
    } else {
        let before = ids.drop_last();
        if bind_all(before, clips, manifest, corpus) is Err {
            let n = law_the_first_unbound_source_is_told(before, clips, manifest, corpus);
            assert(before.take(n) =~= ids.take(n));
            assert(before[n] == ids[n]);
            n
        } else {
            let n = ids.len() - 1;
            assert(ids.take(n) =~= before);
            lemma_choice(corpus, manifest[ids[n]]);
            lemma_first_using(clips, ids[n], 0);
            n
        }
    }
}

proof fn lemma_first_using(clips: Seq<ClipView>, id: i64, from: int)
    requires
        0 <= from <= clips.len(),
    ensures
        from <= first_using(clips, id, from) <= clips.len(),
        first_using(clips, id, from) < clips.len() ==> clips[first_using(
            clips,
            id,
            from,
        )].span.source.0 == id,
        forall|k: int|
            #![trigger clips[k]]
            from <= k < first_using(clips, id, from) ==> clips[k].span.source.0 != id,
    decreases clips.len() - from,
{
    if from < clips.len() && clips[from].span.source.0 != id {
        lemma_first_using(clips, id, from + 1);
    }
}

/// A binding by origin is told by the origin that the edit names.
pub proof fn law_rebound_origins_are_told(entry: SourceRefView)
    ensures
        crate::text::begins(rebound_warning(entry), "source "@ + entry.origin),
{
    let s = rebound_warning(entry);
    let head = "source "@ + entry.origin;
    assert(s.take(head.len() as int) =~= head);
}

} // verus!
