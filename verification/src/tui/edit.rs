//! The edit session: the in-memory edit plus everything that makes its
//! mutations safe: bounded undo and redo, and save and load with the mandatory
//! sources manifest.
use crate::edl::compile::{
    edit_fault, edit_segments, entry_texts, outputs, plan_preview, runs, segment_views, MpvEdl,
    PreviewPlan,
};
use crate::edl::rebind::{
    bind_all, compile_info, corpus_views, law_binding_covers, law_own_sources_bind_silently,
    law_referenced_ids,
    manifest_entry, names_source, rebind, referenced, referenced_ids, rewritten, taken_from,
    told_apart, CorpusSource, CorpusSourceView, RebindError,
};
use crate::edl::{
    clip_views, clone_clips, first_uncovered, info_views, lemma_first_uncovered, ref_views, Clip,
    ClipView, Edl, EdlCompileError, EdlLoadError, SourceInfo, SourceInfoView, SourceMap, SourceRef,
    SourceRefView,
};
use crate::number::{above, below, difference, shifted, Real};
use crate::path::{file_name, file_name_of, replace_file_name, with_file_name};
use crate::span::Span;
use crate::text::texts;
use std::collections::{BTreeMap, HashMap};
use vstd::prelude::*;
use vstd::std_specs::iter::IteratorSpec;
use vstd::string::StringExecFns;

verus! {

broadcast use {vstd::std_specs::hash::group_hash_axioms, vstd::std_specs::btree::group_btree_axioms};

/// Undo depth. Old states fall off the bottom.
pub const UNDO_LIMIT: usize = 200;

/// The smallest clip a trim may leave behind, in nanoseconds.
pub const MIN_CLIP_LEN: i64 = 1_000_000;

/// Which file an edit is opened from.
#[derive(Clone, Copy, Debug, PartialEq, Eq, Structural)]
pub enum OpenFrom {
    /// The recovery file.
    Autosave,
    /// The edit file itself.
    File,
    /// Neither is there: the session begins empty.
    Nothing,
}

/// Which file to open: the autosave is preferred (recovery).
pub fn open_from(autosave_exists: bool, file_exists: bool) -> (r: OpenFrom)
    ensures
        r == if autosave_exists {
            OpenFrom::Autosave
        } else if file_exists {
            OpenFrom::File
        } else {
            OpenFrom::Nothing
        },
{
    if autosave_exists {
        OpenFrom::Autosave
    } else if file_exists {
        OpenFrom::File
    } else {
        OpenFrom::Nothing
    }
}

/// Why an edit file does not open.
#[derive(Debug)]
pub enum OpenError {
    Load(EdlLoadError),
    Bind(RebindError),
}

impl OpenError {
    /// What was being done, for a session read from `file`.
    pub open spec fn spec_context(self, file: Seq<char>) -> Seq<char> {
        match self {
            OpenError::Load(_) => "loading edit "@ + file,
            OpenError::Bind(_) => "binding edit "@ + file + " to the corpus"@,
        }
    }

    /// What was being done, for a session read from `file`.
    pub fn context(&self, file: &str) -> (s: String)
        ensures
            s@ == self.spec_context(file@),
    {
        match self {
            OpenError::Load(_) => {
                let mut s: String = "loading edit ".to_owned();
                s.append(file);
                s
            },
            OpenError::Bind(_) => {
                let mut s: String = "binding edit ".to_owned();
                s.append(file);
                s.append(" to the corpus");
                s
            },
        }
    }
}

/// The recovery file of an edit file: `.autosave` after its name.
pub open spec fn autosave_of(path: Seq<char>) -> Seq<char> {
    match file_name_of(path) {
        Some(name) => with_file_name(path, name + ".autosave"@),
        None => with_file_name(path, ".autosave"@),
    }
}

/// The recovery file of an edit file.
pub fn autosave_path(path: &str) -> (s: String)
    ensures
        s@ == autosave_of(path@),
{
    match file_name(path) {
        Some(name) => {
            let mut n: String = name;
            n.append(".autosave");
            replace_file_name(path, n.as_str())
        },
        None => replace_file_name(path, ".autosave"),
    }
}

/// Which edge of a clip a trim moves.
#[derive(Clone, Copy, Debug, PartialEq, Eq, Structural)]
pub enum Edge {
    Start,
    End,
}

/// An edit in memory.
#[derive(Debug)]
pub struct EditSession {
    pub path: String,
    pub edl: Edl,
    /// Compile-time source map for every manifest source, from the corpus
    /// (rebind) or the search hit (append).
    pub source_map: SourceMap,
    /// The session began from the autosave, unsaved work from an earlier
    /// session; an explicit save commits it.
    pub recovered: bool,
    dirty: bool,
    undo: Vec<Vec<Clip>>,
    redo: Vec<Vec<Clip>>,
    /// The manifest entries that the saves have seen: an undo or a redo takes
    /// the entries of the clips it brings back from here.
    shelf: BTreeMap<i64, SourceRef>,
}

/// An edit in memory, as a value.
#[verifier::ext_equal]
pub struct SessionView {
    pub path: Seq<char>,
    pub clips: Seq<ClipView>,
    pub sources: Map<i64, SourceRefView>,
    pub infos: Map<i64, SourceInfoView>,
    pub recovered: bool,
    pub dirty: bool,
    pub undo: Seq<Seq<ClipView>>,
    pub redo: Seq<Seq<ClipView>>,
    pub shelf: Map<i64, SourceRefView>,
}

/// Earlier or later states.
pub open spec fn states(v: Seq<Vec<Clip>>) -> Seq<Seq<ClipView>> {
    Seq::new(v.len(), |i: int| clip_views(v[i]@))
}

impl View for EditSession {
    type V = SessionView;

    closed spec fn view(&self) -> SessionView {
        SessionView {
            path: self.path@,
            clips: clip_views(self.edl.clips@),
            sources: ref_views(self.edl.sources@),
            infos: info_views(self.source_map@),
            recovered: self.recovered,
            dirty: self.dirty,
            undo: states(self.undo@),
            redo: states(self.redo@),
            shelf: ref_views(self.shelf@),
        }
    }
}

/// A session without clips.
pub open spec fn empty_session(path: Seq<char>) -> SessionView {
    SessionView {
        path,
        clips: Seq::empty(),
        sources: Map::empty(),
        infos: Map::empty(),
        recovered: false,
        dirty: false,
        undo: Seq::empty(),
        redo: Seq::empty(),
        shelf: Map::empty(),
    }
}

/// Whether every clip's source is among some ids.
pub open spec fn covered(clips: Seq<ClipView>, ids: Set<i64>) -> bool {
    forall|i: int| 0 <= i < clips.len() ==> ids.contains((#[trigger] clips[i]).span.source.0)
}

impl SessionView {
    /// Undo and redo together hold at most the undo depth.
    pub open spec fn bounded(self) -> bool {
        self.undo.len() + self.redo.len() <= UNDO_LIMIT
    }

    /// The sources that have an entry in the manifest or on the shelf.
    pub open spec fn known(self) -> Set<i64> {
        self.sources.dom().union(self.shelf.dom())
    }

    /// The manifest has an entry for the source of every clip, and an undo or a
    /// redo finds the entries of the clips it brings back.
    pub open spec fn self_describing(self) -> bool {
        &&& covered(self.clips, self.sources.dom())
        &&& forall|k: int|
            0 <= k < self.undo.len() ==> covered(#[trigger] self.undo[k], self.known())
        &&& forall|k: int|
            0 <= k < self.redo.len() ==> covered(#[trigger] self.redo[k], self.known())
    }

    /// The stacks are within their depth, and the edit describes itself.
    pub open spec fn wf(self) -> bool {
        self.bounded() && self.self_describing()
    }

    /// The manifest with the shelved entries of the sources that some clips
    /// refer to.
    pub open spec fn filed(self, clips: Seq<ClipView>) -> Map<i64, SourceRefView> {
        self.shelf.restrict(referenced(clips).to_set()).union_prefer_right(self.sources)
    }

    /// The session after a mutation: the clips before it go on the undo stack,
    /// whose oldest state gives way at the depth, and redo is invalidated.
    pub open spec fn mutated(self, clips: Seq<ClipView>) -> SessionView {
        SessionView {
            clips,
            undo: (if self.undo.len() == UNDO_LIMIT {
                self.undo.drop_first()
            } else {
                self.undo
            }).push(self.clips),
            redo: Seq::empty(),
            dirty: true,
            ..self
        }
    }

    /// The session after an undo: the clips come back with their manifest
    /// entries.
    pub open spec fn undone(self) -> SessionView {
        if self.undo.len() == 0 {
            self
        } else {
            SessionView {
                clips: self.undo.last(),
                sources: self.filed(self.undo.last()),
                undo: self.undo.drop_last(),
                redo: self.redo.push(self.clips),
                dirty: true,
                ..self
            }
        }
    }

    /// The session after a redo: the clips come back with their manifest
    /// entries.
    pub open spec fn redone(self) -> SessionView {
        if self.redo.len() == 0 {
            self
        } else {
            SessionView {
                clips: self.redo.last(),
                sources: self.filed(self.redo.last()),
                redo: self.redo.drop_last(),
                undo: self.undo.push(self.clips),
                dirty: true,
                ..self
            }
        }
    }

    /// The session after a clip was appended: its source joins the manifest
    /// and the source map unless they hold it.
    pub open spec fn appended(
        self,
        clip: ClipView,
        source: CorpusSourceView,
    ) -> SessionView {
        let s = self.mutated(self.clips.push(clip));
        let id = source.id.0;
        SessionView {
            sources: if self.sources.contains_key(id) {
                self.sources
            } else {
                self.sources.insert(id, manifest_entry(source))
            },
            infos: if self.infos.contains_key(id) {
                self.infos
            } else {
                self.infos.insert(id, compile_info(source))
            },
            ..s
        }
    }

    /// Where a shift moves clip `index`; none where there is no such clip or
    /// slot.
    pub open spec fn shift_target(self, index: int, delta: int) -> Option<int> {
        if 0 <= index < self.clips.len() && 0 <= index + delta < self.clips.len() {
            Some(index + delta)
        } else {
            None
        }
    }

    /// The clips with two of them exchanged.
    pub open spec fn exchanged(self, i: int, j: int) -> Seq<ClipView> {
        self.clips.update(i, self.clips[j]).update(j, self.clips[i])
    }

    /// Clip `index` with one edge moved, where that leaves it inside its source
    /// and long enough.
    pub open spec fn trim_result(self, index: int, edge: Edge, delta: int) -> Option<ClipView> {
        if !(0 <= index < self.clips.len()) {
            None
        } else {
            let clip = self.clips[index];
            let t_start = if edge == Edge::Start {
                shifted(clip.span.t_start, delta)
            } else {
                clip.span.t_start
            };
            let t_end = if edge == Edge::End {
                shifted(clip.span.t_end, delta)
            } else {
                clip.span.t_end
            };
            if !self.infos.contains_key(clip.span.source.0) {
                None
            } else if !t_start.finite() || !t_end.finite() {
                None
            } else if below(t_start, 0) || above(t_end, self.infos[clip.span.source.0].duration + 1)
                || below(difference(t_end, t_start), MIN_CLIP_LEN as int) {
                None
            } else {
                Some(ClipView { span: Span { t_start, t_end, ..clip.span }, ..clip })
            }
        }
    }

    /// The session with its manifest pruned to the sources its clips refer to;
    /// the entries go on the shelf.
    pub open spec fn pruned(self) -> SessionView {
        SessionView {
            sources: self.sources.restrict(referenced(self.clips).to_set()),
            shelf: self.shelf.union_prefer_right(self.sources),
            ..self
        }
    }

    /// The session after an explicit save.
    pub open spec fn saved(self) -> SessionView {
        SessionView { dirty: false, recovered: false, ..self }
    }
}

// ------------------------------------------------------------------------ laws

/// An undo takes a mutation back.
pub proof fn law_undo_restores(s: SessionView, clips: Seq<ClipView>)
    ensures
        s.mutated(clips).undone().clips == s.clips,
        s.mutated(clips).undone().redo == seq![clips],
{
}

/// A redo takes an undo back, and an undo a redo: the clips and both stacks are
/// as they were, the manifest has lost nothing, and a save writes what it would
/// have written.
pub proof fn law_undo_and_redo_are_inverse(s: SessionView)
    requires
        s.wf(),
    ensures
        s.undo.len() > 0 ==> {
            let t = s.undone().redone();
            &&& t == (SessionView { dirty: true, sources: t.sources, ..s })
            &&& s.sources.submap_of(t.sources)
            &&& t.pruned().sources == s.pruned().sources
            &&& covered(s.undo.last(), s.sources.dom()) ==> t.sources == s.sources
        },
        s.redo.len() > 0 ==> {
            let t = s.redone().undone();
            &&& t == (SessionView { dirty: true, sources: t.sources, ..s })
            &&& s.sources.submap_of(t.sources)
            &&& t.pruned().sources == s.pruned().sources
            &&& covered(s.redo.last(), s.sources.dom()) ==> t.sources == s.sources
        },
{
    law_referenced_ids(s.clips);
    if s.undo.len() > 0 {
        law_referenced_ids(s.undo.last());
        let t = s.undone().redone();
        assert(t =~= (SessionView { dirty: true, sources: t.sources, ..s }));
        assert(t.pruned().sources =~= s.pruned().sources);
        if covered(s.undo.last(), s.sources.dom()) {
            assert(t.sources =~= s.sources);
        }
    }
    if s.redo.len() > 0 {
        law_referenced_ids(s.redo.last());
        let t = s.redone().undone();
        assert(t =~= (SessionView { dirty: true, sources: t.sources, ..s }));
        assert(t.pruned().sources =~= s.pruned().sources);
        if covered(s.redo.last(), s.sources.dom()) {
            assert(t.sources =~= s.sources);
        }
    }
}

/// A session begins with nothing to undo or redo, and every operation keeps
/// the stacks within the undo depth; a mutation leaves nothing to redo.
pub proof fn law_undo_depth_is_bounded(s: SessionView, clips: Seq<ClipView>)
    requires
        s.bounded(),
    ensures
        s.mutated(clips).bounded(),
        s.mutated(clips).redo.len() == 0,
        s.undone().bounded(),
        s.redone().bounded(),
        empty_session(s.path).bounded(),
{
}

proof fn lemma_filed_covers(s: SessionView, clips: Seq<ClipView>)
    requires
        covered(clips, s.known()),
    ensures
        covered(clips, s.filed(clips).dom()),
        s.sources.submap_of(s.filed(clips)),
        s.filed(clips).dom().subset_of(s.known()),
{
    law_referenced_ids(clips);
    assert forall|i: int| 0 <= i < clips.len() implies s.filed(clips).dom().contains(
        (#[trigger] clips[i]).span.source.0,
    ) by {
        let id = clips[i].span.source.0;
        assert(referenced(clips).contains(id));
        assert(s.known().contains(id));
    }
}

/// The manifest always has an entry for the source of every clip, so that what
/// is written next can be loaded again: an empty session has it so, and an
/// append, a mutation that keeps to the manifest's sources, an undo, a redo, a
/// prune and a save keep it so.
pub proof fn law_every_clip_keeps_its_entry(
    s: SessionView,
    clip: ClipView,
    source: CorpusSourceView,
    clips: Seq<ClipView>,
)
    requires
        s.wf(),
        clip.span.source == source.id,
        covered(clips, s.sources.dom()),
    ensures
        empty_session(s.path).wf(),
        s.appended(clip, source).wf(),
        s.mutated(clips).wf(),
        s.undone().wf(),
        s.redone().wf(),
        s.pruned().wf(),
        s.saved().wf(),
{
    lemma_mutated(s, clips);
    let a = s.appended(clip, source);
    assert(s.known().subset_of(a.known()));
    assert(a.self_describing()) by {
        assert forall|i: int| 0 <= i < a.clips.len() implies a.sources.dom().contains(
            (#[trigger] a.clips[i]).span.source.0,
        ) by {
            if i < s.clips.len() {
                assert(a.clips[i] == s.clips[i]);
            }
        }
        assert forall|k: int| 0 <= k < a.undo.len() implies covered(
            #[trigger] a.undo[k],
            a.known(),
        ) by {
            if k == a.undo.len() - 1 {
                assert(a.undo[k] == s.clips);
            } else if s.undo.len() == UNDO_LIMIT {
                assert(a.undo[k] == s.undo[k + 1]);
            } else {
                assert(a.undo[k] == s.undo[k]);
            }
        }
    }
    if s.undo.len() > 0 {
        let u = s.undone();
        assert(s.undo[s.undo.len() - 1] == s.undo.last());
        lemma_filed_covers(s, s.undo.last());
        assert(u.known() =~= s.known());
        assert(covered(s.clips, s.known()));
        assert forall|k: int| 0 <= k < u.undo.len() implies covered(
            #[trigger] u.undo[k],
            u.known(),
        ) by {
            assert(u.undo[k] == s.undo[k]);
        }
        assert forall|k: int| 0 <= k < u.redo.len() implies covered(
            #[trigger] u.redo[k],
            u.known(),
        ) by {
            if k < s.redo.len() {
                assert(u.redo[k] == s.redo[k]);
            }
        }
    }
    if s.redo.len() > 0 {
        let r = s.redone();
        assert(s.redo[s.redo.len() - 1] == s.redo.last());
        lemma_filed_covers(s, s.redo.last());
        assert(r.known() =~= s.known());
        assert(covered(s.clips, s.known()));
        assert forall|k: int| 0 <= k < r.redo.len() implies covered(
            #[trigger] r.redo[k],
            r.known(),
        ) by {
            assert(r.redo[k] == s.redo[k]);
        }
        assert forall|k: int| 0 <= k < r.undo.len() implies covered(
            #[trigger] r.undo[k],
            r.known(),
        ) by {
            if k < s.undo.len() {
                assert(r.undo[k] == s.undo[k]);
            }
        }
    }
    let p = s.pruned();
    assert(s.known().subset_of(p.known()));
    assert forall|i: int| 0 <= i < p.clips.len() implies p.sources.dom().contains(
        (#[trigger] p.clips[i]).span.source.0,
    ) by {
        assert(s.sources.dom().contains(s.clips[i].span.source.0));
        law_prune_keeps_referenced(s, i);
    }
    assert(p.self_describing());
}

proof fn lemma_mutated(s: SessionView, clips: Seq<ClipView>)
    requires
        s.wf(),
        covered(clips, s.sources.dom()),
    ensures
        s.mutated(clips).wf(),
{
    let m = s.mutated(clips);
    assert(m.known() == s.known());
    assert(covered(s.clips, s.known()));
    assert forall|k: int| 0 <= k < m.undo.len() implies covered(
        #[trigger] m.undo[k],
        m.known(),
    ) by {
        if k == m.undo.len() - 1 {
            assert(m.undo[k] == s.clips);
        } else if s.undo.len() == UNDO_LIMIT {
            assert(m.undo[k] == s.undo[k + 1]);
        } else {
            assert(m.undo[k] == s.undo[k]);
        }
    }
}

pub(crate) proof fn lemma_wf_kept(s: SessionView)
    requires
        s.wf(),
    ensures
        s.undone().wf(),
        s.redone().wf(),
        s.pruned().wf(),
{
    let clip: ClipView = arbitrary();
    let source: CorpusSourceView = arbitrary();
    law_every_clip_keeps_its_entry(
        s,
        ClipView { span: Span { source: source.id, ..clip.span }, ..clip },
        source,
        s.clips,
    );
}

proof fn lemma_take_one_more(ids: Seq<i64>, i: int)
    requires
        0 <= i < ids.len(),
    ensures
        ids.take(i + 1).to_set() == ids.take(i).to_set().insert(ids[i]),
{
    let (a, b) = (ids.take(i), ids.take(i + 1));
    assert(b =~= a.push(ids[i]));
    assert forall|x: i64| b.to_set().contains(x) <==> a.to_set().insert(ids[i]).contains(x) by {
        if a.contains(x) {
            let k = choose|k: int| 0 <= k < a.len() && a[k] == x;
            assert(b[k] == x);
        }
        if b.contains(x) && x != ids[i] {
            let k = choose|k: int| 0 <= k < b.len() && b[k] == x;
            assert(a[k] == x);
        }
        assert(b[i] == ids[i]);
    }
    assert(b.to_set() =~= a.to_set().insert(ids[i]));
}

/// Removing, exchanging and trimming clips keeps to the manifest's sources.
pub proof fn law_edits_keep_to_the_manifest(
    s: SessionView,
    i: int,
    j: int,
    edge: Edge,
    delta: int,
)
    requires
        s.wf(),
        0 <= i < s.clips.len(),
        0 <= j < s.clips.len(),
    ensures
        s.mutated(s.clips.remove(i)).wf(),
        s.mutated(s.exchanged(i, j)).wf(),
        s.trim_result(i, edge, delta) matches Some(clip) ==> s.mutated(
            s.clips.update(i, clip),
        ).wf(),
{
    let ids = s.sources.dom();
    let removed = s.clips.remove(i);
    assert forall|k: int| 0 <= k < removed.len() implies ids.contains(
        (#[trigger] removed[k]).span.source.0,
    ) by {
        assert(removed[k] == if k < i {
            s.clips[k]
        } else {
            s.clips[k + 1]
        });
    }
    lemma_mutated(s, removed);
    let swapped = s.exchanged(i, j);
    assert forall|k: int| 0 <= k < swapped.len() implies ids.contains(
        (#[trigger] swapped[k]).span.source.0,
    ) by {
        assert(ids.contains(s.clips[i].span.source.0) && ids.contains(s.clips[j].span.source.0));
        assert(ids.contains(s.clips[k].span.source.0));
    }
    lemma_mutated(s, swapped);
    if let Some(clip) = s.trim_result(i, edge, delta) {
        let trimmed = s.clips.update(i, clip);
        assert forall|k: int| 0 <= k < trimmed.len() implies ids.contains(
            (#[trigger] trimmed[k]).span.source.0,
        ) by {
            assert(ids.contains(s.clips[k].span.source.0));
        }
        lemma_mutated(s, trimmed);
    }
}

/// Pruning keeps the manifest entry of every clip's source.
pub proof fn law_prune_keeps_referenced(s: SessionView, i: int)
    requires
        0 <= i < s.clips.len(),
        s.sources.contains_key(s.clips[i].span.source.0),
    ensures
        s.pruned().sources.contains_key(s.clips[i].span.source.0),
        s.pruned().sources[s.clips[i].span.source.0] == s.sources[s.clips[i].span.source.0],
{
    law_referenced_ids(s.clips);
    assert(referenced(s.clips).contains(s.clips[i].span.source.0));
}

/// What a save writes, an open gives back: a session whose manifest was taken
/// from a corpus opens on that corpus with the same clips and the pruned
/// manifest, and without a warning.
pub proof fn law_saved_edits_reopen(s: SessionView, corpus: Seq<CorpusSourceView>)
    requires
        s.wf(),
        told_apart(corpus),
        taken_from(s.sources, corpus),
    ensures
        ({
            let written = s.pruned();
            bind_all(referenced(written.clips), written.clips, written.sources, corpus) matches Ok(
                b,
            ) && {
                &&& b.warnings.len() == 0
                &&& b.sources == written.sources
                &&& rewritten(written.clips, b.mapping) == s.clips
            }
        }),
{
    let written = s.pruned();
    assert forall|i: int| 0 <= i < written.clips.len() implies written.sources.contains_key(
        (#[trigger] written.clips[i]).span.source.0,
    ) by {
        assert(s.sources.dom().contains(s.clips[i].span.source.0));
        law_prune_keeps_referenced(s, i);
    }
    assert forall|id: i64| #[trigger] written.sources.contains_key(id) implies names_source(
        corpus,
        id,
        written.sources[id],
    ) by {
        assert(s.sources.contains_key(id));
    }
    law_own_sources_bind_silently(written.clips, written.sources, corpus);
    let ids = referenced(written.clips).to_set();
    assert(written.sources.restrict(ids) =~= written.sources);
}

/// A manifest taken from a corpus stays so, shelf and all: appending a clip of a
/// corpus source, any other mutation, an undo, a redo and a prune keep it.
pub proof fn law_manifests_stay_the_corpus_own(
    s: SessionView,
    clip: ClipView,
    source: CorpusSourceView,
    clips: Seq<ClipView>,
    corpus: Seq<CorpusSourceView>,
)
    requires
        corpus.contains(source),
        taken_from(s.sources, corpus),
        taken_from(s.shelf, corpus),
    ensures
        ({
            let t = s.appended(clip, source);
            taken_from(t.sources, corpus) && taken_from(t.shelf, corpus)
        }),
        ({
            let t = s.mutated(clips);
            taken_from(t.sources, corpus) && taken_from(t.shelf, corpus)
        }),
        ({
            let t = s.undone();
            taken_from(t.sources, corpus) && taken_from(t.shelf, corpus)
        }),
        ({
            let t = s.redone();
            taken_from(t.sources, corpus) && taken_from(t.shelf, corpus)
        }),
        ({
            let t = s.pruned();
            taken_from(t.sources, corpus) && taken_from(t.shelf, corpus)
        }),
{
    let at = choose|at: int| 0 <= at < corpus.len() && corpus[at] == source;
    let t = s.appended(clip, source);
    assert forall|id: i64| #[trigger] t.sources.contains_key(id) implies names_source(
        corpus,
        id,
        t.sources[id],
    ) by {
        if s.sources.contains_key(id) {
            assert(t.sources[id] == s.sources[id]);
        } else {
            assert(corpus[at].id.0 == id);
        }
    }
    if s.undo.len() > 0 {
        lemma_filed_taken(s, s.undo.last(), corpus);
    }
    if s.redo.len() > 0 {
        lemma_filed_taken(s, s.redo.last(), corpus);
    }
    let p = s.pruned();
    assert forall|id: i64| #[trigger] p.sources.contains_key(id) implies names_source(
        corpus,
        id,
        p.sources[id],
    ) by {
        assert(s.sources.contains_key(id));
    }
    assert forall|id: i64| #[trigger] p.shelf.contains_key(id) implies names_source(
        corpus,
        id,
        p.shelf[id],
    ) by {
        assert(s.sources.contains_key(id) || s.shelf.contains_key(id));
    }
}

proof fn lemma_filed_taken(s: SessionView, clips: Seq<ClipView>, corpus: Seq<CorpusSourceView>)
    requires
        taken_from(s.sources, corpus),
        taken_from(s.shelf, corpus),
    ensures
        taken_from(s.filed(clips), corpus),
{
    assert forall|id: i64| #[trigger] s.filed(clips).contains_key(id) implies names_source(
        corpus,
        id,
        s.filed(clips)[id],
    ) by {
        assert(s.sources.contains_key(id) || s.shelf.contains_key(id));
    }
}

/// A trim that is accepted leaves the clip inside its source and no shorter
/// than the smallest clip.
pub proof fn law_trims_stay_inside(s: SessionView, index: int, edge: Edge, delta: int)
    requires
        s.trim_result(index, edge, delta) is Some,
    ensures
        ({
            let span = s.trim_result(index, edge, delta)->0.span;
            &&& span.source == s.clips[index].span.source
            &&& span.t_start.finite() && span.t_end.finite()
            &&& 0 <= span.t_start.nanos()
            &&& span.t_start.nanos() + MIN_CLIP_LEN <= span.t_end.nanos()
            &&& span.t_end.nanos() <= s.infos[span.source.0].duration + 1
        }),
{
}

proof fn lemma_bound_is_covered(
    clips: Seq<ClipView>,
    manifest: Map<i64, SourceRefView>,
    corpus: Seq<CorpusSourceView>,
)
    ensures
        bind_all(referenced(clips), clips, manifest, corpus) matches Ok(b) ==> covered(
            rewritten(clips, b.mapping),
            b.sources.dom(),
        ),
{
    if let Ok(b) = bind_all(referenced(clips), clips, manifest, corpus) {
        law_referenced_ids(clips);
        law_binding_covers(referenced(clips), clips, manifest, corpus);
        let out = rewritten(clips, b.mapping);
        assert forall|i: int| 0 <= i < out.len() implies b.sources.dom().contains(
            (#[trigger] out[i]).span.source.0,
        ) by {
            let id = clips[i].span.source.0;
            assert(referenced(clips).contains(id));
            assert(b.mapping.contains_key(id));
            assert(b.infos.contains_key(b.mapping[id]));
            assert(b.infos.dom().contains(b.mapping[id]));
        }
    }
}

// --------------------------------------------------------------------- methods

impl EditSession {
    /// A session without clips.
    pub fn empty(path: String) -> (s: Self)
        ensures
            s@ == empty_session(path@),
            s@.wf(),
    {
        let s = EditSession {
            path,
            edl: Edl::empty(),
            source_map: HashMap::new(),
            recovered: false,
            dirty: false,
            undo: Vec::new(),
            redo: Vec::new(),
            shelf: BTreeMap::new(),
        };
        proof {
            assert(s@.shelf =~= Map::empty());
            assert(s@.clips =~= Seq::empty());
            assert(s@.sources =~= Map::empty());
            assert(s@.infos =~= Map::empty());
            assert(s@.undo =~= Seq::empty());
            assert(s@.redo =~= Seq::empty());
        }
        s
    }

    /// A session of an edit that was read, its manifest checked and rebound to
    /// the corpus, with the rebind warnings. Nothing read is an empty session.
    /// Recovered work is dirty until an explicit save.
    pub fn open(path: String, read: Option<(Edl, bool)>, corpus: &Vec<CorpusSource>) -> (r: Result<
        (Self, Vec<String>),
        OpenError,
    >)
        ensures
            match read {
                None => r is Ok && r->Ok_0.0@ == empty_session(path@) && r->Ok_0.1@.len() == 0,
                Some((edl, recovered)) => {
                    let clips = clip_views(edl.clips@);
                    let at = first_uncovered(clips, edl.sources@.dom(), 0);
                    if at < clips.len() {
                        r == Err::<(Self, Vec<String>), OpenError>(
                            OpenError::Load(
                                EdlLoadError::MissingManifestEntry {
                                    clip_index: at as usize,
                                    source_id: clips[at].span.source,
                                },
                            ),
                        )
                    } else {
                        match bind_all(
                            referenced(clips),
                            clips,
                            ref_views(edl.sources@),
                            corpus_views(corpus@),
                        ) {
                            Ok(b) => {
                                &&& r is Ok
                                &&& r->Ok_0.0@ == (SessionView {
                                    clips: rewritten(clips, b.mapping),
                                    sources: b.sources,
                                    infos: b.infos,
                                    recovered,
                                    dirty: recovered,
                                    ..empty_session(path@)
                                })
                                &&& texts(r->Ok_0.1@) == b.warnings
                            },
                            Err(fault) => r is Err && (r->Err_0 matches OpenError::Bind(e)
                                && e@ == fault),
                        }
                    }
                },
            },
            r is Ok ==> r->Ok_0.0@.wf(),
    {
        match read {
            None => Ok((EditSession::empty(path), Vec::new())),
            Some((edl, recovered)) => {
                proof {
                    lemma_first_uncovered(clip_views(edl.clips@), edl.sources@.dom(), 0);
                }
                match edl.check_manifest() {
                    Ok(()) => {},
                    Err(e) => {
                        return Err(OpenError::Load(e));
                    },
                }
                match rebind(&edl, corpus) {
                    Ok(bound) => {
                        let s = EditSession {
                            path,
                            edl: bound.edl,
                            source_map: bound.source_map,
                            recovered,
                            dirty: recovered,
                            undo: Vec::new(),
                            redo: Vec::new(),
                            shelf: BTreeMap::new(),
                        };
                        proof {
                            assert(s@.undo =~= Seq::empty());
                            assert(s@.redo =~= Seq::empty());
                            assert(s@.shelf =~= Map::empty());
                            lemma_bound_is_covered(
                                clip_views(edl.clips@),
                                ref_views(edl.sources@),
                                corpus_views(corpus@),
                            );
                        }
                        Ok((s, bound.warnings))
                    },
                    Err(e) => Err(OpenError::Bind(e)),
                }
            },
        }
    }

    /// Whether there is unsaved work.
    pub fn dirty(&self) -> (b: bool)
        ensures
            b == self@.dirty,
    {
        self.dirty
    }

    /// The clips.
    pub fn clips(&self) -> (v: &Vec<Clip>)
        ensures
            clip_views(v@) == self@.clips,
    {
        &self.edl.clips
    }

    /// Where the edit is saved.
    pub fn path(&self) -> (s: &str)
        ensures
            s@ == self@.path,
    {
        self.path.as_str()
    }

    /// Whether the session began from the autosave.
    pub fn recovered(&self) -> (b: bool)
        ensures
            b == self@.recovered,
    {
        self.recovered
    }

    /// Compiles the edit: the preview plan and the mpv EDL of its segments.
    pub fn compile(&self) -> (r: Result<(PreviewPlan, MpvEdl), EdlCompileError>)
        ensures
            match edit_fault(self@.clips, self@.infos) {
                Some(fault) => r is Err && r->Err_0@ == fault,
                None => {
                    &&& r is Ok
                    &&& compiled(r->Ok_0.0, self@)
                    &&& r->Ok_0.1@ == entry_texts(edit_segments(self@.clips, self@.infos))
                },
            },
    {
        match plan_preview(&self.edl, &self.source_map) {
            Ok(plan) => {
                let mpv: MpvEdl = MpvEdl::from_plan(&plan);
                Ok((plan, mpv))
            },
            Err(e) => Err(e),
        }
    }

    /// Every mutation goes through this first: push the current clips for undo,
    /// invalidate redo.
    fn snapshot(&mut self)
        ensures
            final(self)@ == old(self)@.mutated(old(self)@.clips),
            final(self).edl == old(self).edl,
            final(self).source_map == old(self).source_map,
    {
        let ghost before = states(self.undo@);
        if self.undo.len() == UNDO_LIMIT {
            self.undo.remove(0);
            assert(states(self.undo@) =~= before.drop_first());
        }
        let ghost kept = states(self.undo@);
        let copy: Vec<Clip> = clone_clips(&self.edl.clips);
        self.undo.push(copy);
        assert(states(self.undo@) =~= kept.push(clip_views(copy@)));
        self.redo.clear();
        assert(states(self.redo@) =~= Seq::empty());
        self.dirty = true;
    }

    /// Appends a clip.
    pub fn append(&mut self, clip: Clip, source: &CorpusSource)
        ensures
            final(self)@ == old(self)@.appended(clip@, source@),
            old(self)@.wf() && clip@.span.source == source@.id ==> final(self)@.wf(),
    {
        let ghost before = self@;
        self.snapshot();
        let id: i64 = source.id.0;
        let ghost (refs, infos) = (ref_views(self.edl.sources@), info_views(self.source_map@));
        if !self.edl.sources.contains_key(&id) {
            let entry: SourceRef = source.source_ref();
            self.edl.sources.insert(id, entry);
            assert(ref_views(self.edl.sources@) =~= refs.insert(id, manifest_entry(source@)));
        }
        if !self.source_map.contains_key(&id) {
            let info: SourceInfo = source.source_info();
            self.source_map.insert(id, info);
            assert(info_views(self.source_map@) =~= infos.insert(id, compile_info(source@)));
        }
        let ghost added = clip@;
        self.edl.clips.push(clip);
        assert(clip_views(self.edl.clips@) =~= before.clips.push(added));
        assert(self@ =~= before.appended(added, source@));
        proof {
            if before.wf() && added.span.source == source@.id {
                law_every_clip_keeps_its_entry(before, added, source@, before.clips);
            }
        }
    }

    /// Removes a clip.
    pub fn remove(&mut self, index: usize) -> (done: bool)
        ensures
            done == (index < old(self)@.clips.len()),
            final(self)@ == if done {
                old(self)@.mutated(old(self)@.clips.remove(index as int))
            } else {
                old(self)@
            },
            old(self)@.wf() ==> final(self)@.wf(),
    {
        let ghost before = self@;
        if index >= self.edl.clips.len() {
            return false;
        }
        self.snapshot();
        self.edl.clips.remove(index);
        assert(clip_views(self.edl.clips@) =~= before.clips.remove(index as int));
        assert(self@ =~= before.mutated(before.clips.remove(index as int)));
        proof {
            if before.wf() {
                law_edits_keep_to_the_manifest(before, index as int, index as int, Edge::Start, 0);
            }
        }
        true
    }

    /// Moves the clip at `index` by `delta` slots, exchanging it with the clip
    /// there; returns its new index when it moved.
    pub fn shift(&mut self, index: usize, delta: isize) -> (r: Option<usize>)
        ensures
            r is Some == old(self)@.shift_target(index as int, delta as int) is Some,
            r is Some ==> r->0 == old(self)@.shift_target(index as int, delta as int)->0,
            final(self)@ == match r {
                Some(to) => old(self)@.mutated(old(self)@.exchanged(index as int, to as int)),
                None => old(self)@,
            },
            old(self)@.wf() ==> final(self)@.wf(),
    {
        let ghost before = self@;
        let n: usize = self.edl.clips.len();
        let to: i128 = index as i128 + delta as i128;
        if index >= n || to < 0 || to >= n as i128 {
            return None;
        }
        let to: usize = to as usize;
        self.snapshot();
        if index != to {
            let (lo, hi): (usize, usize) = if index < to {
                (index, to)
            } else {
                (to, index)
            };
            let ghost start = self.edl.clips@;
            let later: Clip = self.edl.clips.remove(hi);
            self.edl.clips.insert(lo, later);
            let earlier: Clip = self.edl.clips.remove(lo + 1);
            self.edl.clips.insert(hi, earlier);
            assert(self.edl.clips@ =~= start.update(lo as int, start[hi as int]).update(
                hi as int,
                start[lo as int],
            ));
        }
        assert(clip_views(self.edl.clips@) =~= before.exchanged(index as int, to as int));
        assert(self@ =~= before.mutated(before.exchanged(index as int, to as int)));
        proof {
            if before.wf() {
                law_edits_keep_to_the_manifest(before, index as int, to as int, Edge::Start, 0);
            }
        }
        Some(to)
    }

    /// Nudges one edge of a clip by `delta` nanoseconds. Rejected, without
    /// mutation, when the result would leave the source or collapse the clip.
    pub fn trim(&mut self, index: usize, edge: Edge, delta: i64) -> (done: bool)
        ensures
            done == old(self)@.trim_result(index as int, edge, delta as int) is Some,
            final(self)@ == match old(self)@.trim_result(index as int, edge, delta as int) {
                Some(clip) => old(self)@.mutated(old(self)@.clips.update(index as int, clip)),
                None => old(self)@,
            },
            old(self)@.wf() ==> final(self)@.wf(),
    {
        let ghost before = self@;
        if index >= self.edl.clips.len() {
            return false;
        }
        let span: Span = self.edl.clips[index].span;
        assert(before.clips[index as int] == self.edl.clips@[index as int]@);
        let duration: i64 = match self.source_map.get(&span.source.0) {
            Some(info) => info.duration,
            None => {
                return false;
            },
        };
        assert(before.infos[span.source.0].duration == duration);
        let t_start: Real = match edge {
            Edge::Start => span.t_start.shift(delta),
            Edge::End => span.t_start,
        };
        let t_end: Real = match edge {
            Edge::Start => span.t_end,
            Edge::End => span.t_end.shift(delta),
        };
        match (t_start, t_end) {
            (Real::Nano(_), Real::Nano(_)) => {},
            _ => {
                return false;
            },
        }
        if t_start.is_below(0) || t_end.is_above(duration as i128 + 1) || t_end.minus(
            t_start,
        ).is_below(MIN_CLIP_LEN as i128) {
            return false;
        }
        self.snapshot();
        let ghost start = self.edl.clips@;
        self.edl.clips[index].span.t_start = t_start;
        self.edl.clips[index].span.t_end = t_end;
        proof {
            let clip = before.trim_result(index as int, edge, delta as int)->0;
            assert(self.edl.clips@[index as int]@ =~= clip);
            assert(clip_views(self.edl.clips@) =~= before.clips.update(index as int, clip));
            assert(self@ =~= before.mutated(before.clips.update(index as int, clip)));
            if before.wf() {
                law_edits_keep_to_the_manifest(
                    before,
                    index as int,
                    index as int,
                    edge,
                    delta as int,
                );
            }
        }
        true
    }

    /// Takes the manifest entries of the clips from the shelf, where the
    /// manifest lacks them.
    fn file_entries(&mut self)
        ensures
            final(self)@ == (SessionView {
                sources: old(self)@.filed(old(self)@.clips),
                ..old(self)@
            }),
    {
        let ghost before = self@;
        let ids: Vec<i64> = referenced_ids(&self.edl);
        let mut i: usize = 0;
        let ghost done = |n: int|
            before.shelf.restrict(ids@.take(n).to_set()).union_prefer_right(before.sources);
        proof {
            assert(ids@.take(0).to_set() =~= Set::empty());
            assert(self@.sources =~= done(0));
        }
        while i < ids.len()
            invariant
                i <= ids@.len(),
                ids@ == referenced(before.clips),
                done == |n: int|
                    before.shelf.restrict(ids@.take(n).to_set()).union_prefer_right(before.sources),
                self@ == (SessionView { sources: done(i as int), ..before }),
            decreases ids@.len() - i,
        {
            let id: i64 = ids[i];
            let ghost held = self@;
            proof {
                lemma_take_one_more(ids@, i as int);
            }
            if !self.edl.sources.contains_key(&id) {
                assert(!held.sources.contains_key(id));
                match self.shelf.get(&id) {
                    Some(entry) => {
                        let copy: SourceRef = entry.clone();
                        assert(before.shelf.contains_key(id) && before.shelf[id] == copy@);
                        self.edl.sources.insert(id, copy);
                        assert(self@.sources =~= held.sources.insert(id, copy@));
                    },
                    None => {
                        assert(!before.shelf.contains_key(id));
                    },
                }
            } else {
                assert(held.sources.contains_key(id));
            }
            assert(self@.sources =~= done(i + 1));
            assert(self@ =~= (SessionView { sources: done(i + 1), ..before }));
            i = i + 1;
        }
        assert(ids@.take(i as int) =~= ids@);
    }

    /// Takes the last mutation back.
    pub fn undo(&mut self) -> (done: bool)
        ensures
            done == (old(self)@.undo.len() > 0),
            final(self)@ == old(self)@.undone(),
            old(self)@.wf() ==> final(self)@.wf(),
    {
        let ghost before = self@;
        match self.undo.pop() {
            None => false,
            Some(clips) => {
                assert(states(self.undo@) =~= before.undo.drop_last());
                let mut current: Vec<Clip> = clips;
                std::mem::swap(&mut self.edl.clips, &mut current);
                let ghost replaced = clip_views(current@);
                self.redo.push(current);
                assert(states(self.redo@) =~= before.redo.push(replaced));
                self.dirty = true;
                self.file_entries();
                assert(self@ =~= before.undone());
                proof {
                    if before.wf() {
                        lemma_wf_kept(before);
                    }
                }
                true
            },
        }
    }

    /// Takes the last undo back.
    pub fn redo(&mut self) -> (done: bool)
        ensures
            done == (old(self)@.redo.len() > 0),
            final(self)@ == old(self)@.redone(),
            old(self)@.wf() ==> final(self)@.wf(),
    {
        let ghost before = self@;
        match self.redo.pop() {
            None => false,
            Some(clips) => {
                assert(states(self.redo@) =~= before.redo.drop_last());
                let mut current: Vec<Clip> = clips;
                std::mem::swap(&mut self.edl.clips, &mut current);
                let ghost replaced = clip_views(current@);
                self.undo.push(current);
                assert(states(self.undo@) =~= before.undo.push(replaced));
                self.dirty = true;
                self.file_entries();
                assert(self@ =~= before.redone());
                proof {
                    if before.wf() {
                        lemma_wf_kept(before);
                    }
                }
                true
            },
        }
    }

    /// Puts every manifest entry on the shelf.
    fn shelve(&mut self)
        ensures
            final(self)@ == (SessionView {
                shelf: old(self)@.shelf.union_prefer_right(old(self)@.sources),
                ..old(self)@
            }),
    {
        let ghost before = self@;
        let mut ids: Vec<i64> = Vec::new();
        let ghost keys = self.edl.sources.keys().remaining();
        for id in it: self.edl.sources.keys()
            invariant
                it.seq() == keys,
                ids@ == keys.unref().take(it.index()),
        {
            ids.push(*id);
        }
        assert(ids@ =~= keys.unref());
        assert(ids@.to_set() =~= before.sources.dom());
        let mut i: usize = 0;
        let ghost done = |n: int|
            before.shelf.union_prefer_right(before.sources.restrict(ids@.take(n).to_set()));
        proof {
            assert(ids@.take(0).to_set() =~= Set::empty());
            assert(self@.shelf =~= done(0));
        }
        while i < ids.len()
            invariant
                i <= ids@.len(),
                done == |n: int|
                    before.shelf.union_prefer_right(
                        before.sources.restrict(ids@.take(n).to_set()),
                    ),
                self@ == (SessionView { shelf: done(i as int), ..before }),
            decreases ids@.len() - i,
        {
            let id: i64 = ids[i];
            let ghost held = self@;
            proof {
                lemma_take_one_more(ids@, i as int);
            }
            if let Some(entry) = self.edl.sources.get(&id) {
                let copy: SourceRef = entry.clone();
                assert(before.sources[id] == copy@);
                self.shelf.insert(id, copy);
                assert(self@.shelf =~= held.shelf.insert(id, copy@));
            } else {
                assert(!before.sources.contains_key(id));
            }
            assert(self@.shelf =~= done(i + 1));
            assert(self@ =~= (SessionView { shelf: done(i + 1), ..before }));
            i = i + 1;
        }
        assert(ids@.take(i as int) =~= ids@);
        assert(before.sources.restrict(ids@.to_set()) =~= before.sources);
    }

    /// Prunes unreferenced manifest entries, before an explicit save. They stay
    /// at hand for an undo or a redo.
    pub fn prune(&mut self)
        ensures
            final(self)@ == old(self)@.pruned(),
            old(self)@.wf() ==> final(self)@.wf(),
    {
        let ghost before = self@;
        self.shelve();
        let ids: Vec<i64> = referenced_ids(&self.edl);
        let mut kept: BTreeMap<i64, SourceRef> = BTreeMap::new();
        let mut i: usize = 0;
        proof {
            assert(ids@.take(0).to_set() =~= Set::empty());
            assert(ref_views(kept@) =~= before.sources.restrict(ids@.take(0).to_set()));
        }
        while i < ids.len()
            invariant
                i <= ids@.len(),
                ref_views(self.edl.sources@) == before.sources,
                ref_views(kept@) =~= before.sources.restrict(ids@.take(i as int).to_set()),
            decreases ids@.len() - i,
        {
            let id: i64 = ids[i];
            let ghost so_far = ref_views(kept@);
            proof {
                lemma_take_one_more(ids@, i as int);
            }
            match self.edl.sources.get(&id) {
                Some(entry) => {
                    let copy: SourceRef = entry.clone();
                    assert(before.sources[id] == copy@);
                    kept.insert(id, copy);
                    assert(ref_views(kept@) =~= so_far.insert(id, copy@));
                },
                None => {
                    assert(!before.sources.contains_key(id));
                },
            }
            i = i + 1;
        }
        assert(ids@.take(i as int) =~= ids@);
        self.edl.sources = kept;
        assert(self@ =~= before.pruned());
        proof {
            if before.wf() {
                lemma_wf_kept(before);
            }
        }
    }

    /// Records that the edit file was written.
    pub fn mark_saved(&mut self)
        ensures
            final(self)@ == old(self)@.saved(),
            old(self)@.wf() ==> final(self)@.wf(),
    {
        self.dirty = false;
        self.recovered = false;
    }
}

/// What a compiled session's plan is.
pub open spec fn compiled(plan: PreviewPlan, s: SessionView) -> bool {
    &&& segment_views(plan.segments@) == edit_segments(s.clips, s.infos)
    &&& crate::edl::compile::interval_views(plan.clip_output@) == outputs(
        s.clips,
        s.infos,
        runs(s.clips),
    )
    &&& plan.wf()
}

/// A change of clips is remembered: what they were is the last thing to undo,
/// after what there was before, of which the oldest gives way only where two
/// hundred are kept. Nothing else of the edit changes.
pub proof fn law_changes_are_remembered(s: SessionView, clips: Seq<ClipView>, k: int)
    requires
        s.bounded(),
        0 <= k < s.undo.len(),
    ensures
        ({
            let t = s.mutated(clips);
            let dropped: int = if s.undo.len() == 200 {
                1
            } else {
                0
            };
            &&& t.clips == clips
            &&& t.undo.len() == s.undo.len() + 1 - dropped
            &&& t.undo.last() == s.clips
            &&& k >= dropped ==> t.undo[k - dropped] == s.undo[k]
            &&& t.redo.len() == 0
            &&& t.dirty
            &&& t.path == s.path && t.sources == s.sources && t.infos == s.infos
            &&& t.shelf == s.shelf && t.recovered == s.recovered
        }),
{
}

/// An appended clip stands last, after the clips as they were; its source is
/// described in the manifest and can be compiled, and the other sources stay as
/// they are.
pub proof fn law_appended_clips_stand_last(
    s: SessionView,
    clip: ClipView,
    source: CorpusSourceView,
    i: int,
    id: i64,
)
    requires
        0 <= i < s.clips.len(),
        id != source.id.0,
    ensures
        ({
            let t = s.appended(clip, source);
            &&& t.clips.len() == s.clips.len() + 1
            &&& t.clips.last() == clip
            &&& t.clips[i] == s.clips[i]
            &&& t.undo.last() == s.clips
            &&& t.sources.contains_key(source.id.0) && t.infos.contains_key(source.id.0)
            &&& !s.sources.contains_key(source.id.0) ==> t.sources[source.id.0].origin_id
                == source.origin_id && t.sources[source.id.0].master_hash == source.master_hash
                && t.sources[source.id.0].duration == source.duration
            &&& !s.infos.contains_key(source.id.0) ==> t.infos[source.id.0].master_path
                == source.master_path && t.infos[source.id.0].duration == source.duration
                && t.infos[source.id.0].fps == source.fps
            &&& s.sources.contains_key(source.id.0) ==> t.sources[source.id.0]
                == s.sources[source.id.0]
            &&& t.sources.contains_key(id) == s.sources.contains_key(id)
            &&& s.sources.contains_key(id) ==> t.sources[id] == s.sources[id]
            &&& t.infos.contains_key(id) == s.infos.contains_key(id)
            &&& s.infos.contains_key(id) ==> t.infos[id] == s.infos[id]
        }),
{
}

/// A shift exchanges a clip with the one that stands so many places on, where
/// there is one, and leaves all others.
pub proof fn law_shifts_exchange_two_clips(s: SessionView, index: int, delta: int, k: int)
    requires
        0 <= index < s.clips.len(),
        0 <= k < s.clips.len(),
    ensures
        s.shift_target(index, delta) is Some <==> 0 <= index + delta < s.clips.len(),
        s.shift_target(index, delta) matches Some(to) ==> {
            let out = s.exchanged(index, to);
            &&& to - index == delta
            &&& out.len() == s.clips.len()
            &&& out[index] == s.clips[to]
            &&& out[to] == s.clips[index]
            &&& k != index && k != to ==> out[k] == s.clips[k]
        },
{
}

/// A trim moves the chosen edge by the given time and nothing else of the clip. It
/// is refused iff the clip would begin before its source, end more than a
/// nanosecond after it, or be shorter than a millisecond.
pub proof fn law_trims_move_one_edge(
    s: SessionView,
    index: int,
    edge: Edge,
    delta: int,
    from: i64,
    to: i64,
)
    requires
        0 <= index < s.clips.len(),
        s.clips[index].span.t_start == Real::Nano(from),
        s.clips[index].span.t_end == Real::Nano(to),
        s.infos.contains_key(s.clips[index].span.source.0),
        i64::MIN <= from + delta <= i64::MAX,
        i64::MIN <= to + delta <= i64::MAX,
        0 <= s.infos[s.clips[index].span.source.0].duration < i64::MAX,
    ensures
        ({
            let was = s.clips[index];
            let a = from + if edge is Start {
                delta
            } else {
                0
            };
            let b = to + if edge is End {
                delta
            } else {
                0
            };
            match s.trim_result(index, edge, delta) {
                Some(now) => {
                    &&& 0 <= a && b <= s.infos[was.span.source.0].duration + 1 && b - a >= 1_000_000
                    &&& now.span.t_start == Real::Nano(a as i64)
                    &&& now.span.t_end == Real::Nano(b as i64)
                    &&& now.span.source == was.span.source
                    &&& now.span.channel == was.span.channel
                    &&& now.transforms == was.transforms
                    &&& now.provenance == was.provenance
                    &&& now.label == was.label
                },
                None => a < 0 || b > s.infos[was.span.source.0].duration + 1 || b - a < 1_000_000,
            }
        }),
{
}

/// A prune drops exactly the entries that no clip refers to, and forgets none: what
/// leaves the manifest is on the shelf.
pub proof fn law_prunes_drop_only_the_unused(s: SessionView, id: i64)
    ensures
        s.pruned().sources.contains_key(id) <==> s.sources.contains_key(id) && exists|i: int|
            #![trigger s.clips[i]]
            0 <= i < s.clips.len() && s.clips[i].span.source.0 == id,
        s.pruned().sources.contains_key(id) ==> s.pruned().sources[id] == s.sources[id],
        s.sources.contains_key(id) ==> s.pruned().shelf.contains_key(id) && s.pruned().shelf[id]
            == s.sources[id],
        s.shelf.contains_key(id) ==> s.pruned().shelf.contains_key(id),
        s.pruned().clips == s.clips,
        s.pruned().undo == s.undo,
        s.pruned().redo == s.redo,
{
    law_referenced_ids(s.clips);
    if referenced(s.clips).contains(id) {
        let k = choose|k: int|
            0 <= k < s.clips.len() && (#[trigger] s.clips[k]).span.source.0 == id;
        assert(s.clips[k].span.source.0 == id);
    }
}

/// An undo brings back the clips that were remembered last, with the manifest's
/// entries and those of the shelf that they need; it makes the edit dirty.
pub proof fn law_undo_brings_entries_back(s: SessionView, i: int)
    requires
        s.wf(),
        s.undo.len() > 0,
        0 <= i < s.undo.last().len(),
    ensures
        ({
            let t = s.undone();
            let id = t.clips[i].span.source.0;
            &&& t.clips == s.undo.last()
            &&& t.sources.contains_key(id)
            &&& t.sources[id] == if s.sources.contains_key(id) {
                s.sources[id]
            } else {
                s.shelf[id]
            }
            &&& t.dirty
            &&& t.redo.last() == s.clips
            &&& t.undo.len() == s.undo.len() - 1
        }),
{
    law_referenced_ids(s.undo.last());
    assert(covered(s.undo[s.undo.len() - 1], s.known()));
    let id = s.undo.last()[i].span.source.0;
    assert(referenced(s.undo.last()).contains(id));
    assert(s.known().contains(id));
}

/// A save leaves the edit clean and no longer recovered, and changes nothing else.
pub proof fn law_saves_only_clean(s: SessionView)
    ensures
        !s.saved().dirty,
        !s.saved().recovered,
        s.saved().clips == s.clips && s.saved().sources == s.sources && s.saved().infos == s.infos,
        s.saved().undo == s.undo && s.saved().redo == s.redo && s.saved().shelf == s.shelf,
        s.saved().path == s.path,
{
}

/// The recovery file stands beside the edit file, under its name and `.autosave`.
pub proof fn law_autosaves_stand_beside(dir: Seq<char>, name: Seq<char>)
    requires
        crate::path::is_tidy(dir),
        crate::path::is_part(name),
    ensures
        autosave_of(dir + "/"@ + name) == dir + "/"@ + (name + ".autosave"@),
{
    crate::path::law_files_stand_in_their_directory(dir, name, name + ".autosave"@);
}

} // verus!
