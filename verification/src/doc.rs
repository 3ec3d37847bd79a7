//! The document intermediate representation.
//!
//! A `Doc` tree describes printable output without committing to a layout:
//! texts, soft and hard line breaks, indentation, groups that break or stay
//! flat as a whole, fills that break pair by pair, and conditional texts
//! keyed to a group's resolved break state. Docs are held in an arena,
//! children before parents, exactly like the syntax tree.
//!
//! The ghost `DocModel` is the mathematical view of one arena entry: the
//! tree it denotes, with children inlined. Contracts about doc
//! construction speak in terms of this view.

use vstd::prelude::*;

verus! {

/// One arena entry: a doc node holding its children by index.
pub enum DocKind {
    /// Verbatim text.
    Text(Vec<u8>),
    /// Ordered concatenation with no break semantics of its own.
    Array(Vec<usize>),
    /// A space when flat, a newline plus indentation when broken.
    Line,
    /// Nothing when flat, a newline plus indentation when broken.
    SoftLine,
    /// Always a newline; forces every enclosing group to break.
    HardLine,
    /// Increases indentation for newlines rendered within.
    Indent(Vec<usize>),
    /// The unit of break-or-flat decision.
    Group { parts: Vec<usize>, should_break: bool, id: Option<u32> },
    /// Alternating content/separator docs, breaking pair by pair.
    Fill(Vec<usize>),
    /// One of two texts, selected by a group's resolved break state: the
    /// enclosing group's when no identifier is named, a named group's
    /// otherwise.
    IfBreak { break_text: Vec<u8>, flat_text: Vec<u8>, group_id: Option<u32> },
}

/// The doc arena of one formatting run, together with the run-scoped
/// counter that hands out group identifiers.
pub struct DocArena {
    pub docs: Vec<DocKind>,
    pub next_id: u32,
}

/// The mathematical view of a doc: the tree one arena entry denotes.
#[verifier::ext_equal]
pub enum DocModel {
    Text(Seq<u8>),
    Array(Seq<DocModel>),
    Line,
    SoftLine,
    HardLine,
    Indent(Seq<DocModel>),
    Group { parts: Seq<DocModel>, should_break: bool, id: Option<u32> },
    Fill(Seq<DocModel>),
    IfBreak { break_text: Seq<u8>, flat_text: Seq<u8>, group_id: Option<u32> },
}

/// The children of one arena entry, as indices.
pub open spec fn doc_children(d: DocKind) -> Seq<usize> {
    match d {
        DocKind::Array(cs) => cs@,
        DocKind::Indent(cs) => cs@,
        DocKind::Group { parts, .. } => parts@,
        DocKind::Fill(cs) => cs@,
        _ => Seq::empty(),
    }
}

/// Every child index of doc `d` lies strictly below `i`.
pub open spec fn doc_wf(d: DocKind, i: int) -> bool {
    forall|j: int| 0 <= j < doc_children(d).len() ==> (#[trigger] doc_children(d)[j]) < i
}

/// A well-formed arena: every doc's children lie strictly below it.
pub open spec fn arena_wf(a: DocArena) -> bool {
    forall|i: int| 0 <= i < a.docs@.len() ==> #[trigger] doc_wf(a.docs@[i], i)
}

/// The tree denoted by arena entry `i`.
pub open spec fn doc_model(a: DocArena, i: int) -> DocModel
    decreases i, 1int, 0int,
{
    match a.docs@[i] {
        DocKind::Text(s) => DocModel::Text(s@),
        DocKind::Array(cs) => DocModel::Array(doc_models_below(a, cs@, i)),
        DocKind::Line => DocModel::Line,
        DocKind::SoftLine => DocModel::SoftLine,
        DocKind::HardLine => DocModel::HardLine,
        DocKind::Indent(cs) => DocModel::Indent(doc_models_below(a, cs@, i)),
        DocKind::Group { parts, should_break, id } => DocModel::Group {
            parts: doc_models_below(a, parts@, i),
            should_break,
            id,
        },
        DocKind::Fill(cs) => DocModel::Fill(doc_models_below(a, cs@, i)),
        DocKind::IfBreak { break_text, flat_text, group_id } => DocModel::IfBreak {
            break_text: break_text@,
            flat_text: flat_text@,
            group_id,
        },
    }
}

/// The trees denoted by a list of entries, each of which must lie below
/// `bound`; an out-of-place index denotes a bare line, which a well-formed
/// arena never holds.
pub open spec fn doc_models_below(a: DocArena, ids: Seq<usize>, bound: int) -> Seq<DocModel>
    decreases bound, 0int, ids.len(),
{
    if ids.len() == 0 {
        Seq::empty()
    } else {
        let head = if 0 <= ids[0] < bound {
            doc_model(a, ids[0] as int)
        } else {
            DocModel::Line
        };
        seq![head] + doc_models_below(a, ids.drop_first(), bound)
    }
}

/// The views of a list of arena entries.
pub open spec fn models_of(a: DocArena, ids: Seq<usize>) -> Seq<DocModel> {
    Seq::new(
        ids.len(),
        |j: int|
            if 0 <= j < ids.len() {
                doc_model(a, ids[j] as int)
            } else {
                DocModel::Line
            },
    )
}

/// `models_of` maps indexing through to `doc_model`.
pub proof fn lemma_models_of_index(a: DocArena, ids: Seq<usize>, j: int)
    requires
        0 <= j < ids.len(),
    ensures
        models_of(a, ids).len() == ids.len(),
        models_of(a, ids)[j] == doc_model(a, ids[j] as int),
{
}

/// `doc_models_below` keeps the length of its list.
pub proof fn lemma_below_len(a: DocArena, ids: Seq<usize>, bound: int)
    ensures
        doc_models_below(a, ids, bound).len() == ids.len(),
    decreases ids.len(),
{
    if ids.len() > 0 {
        lemma_below_len(a, ids.drop_first(), bound);
    }
}

/// `doc_models_below` maps indexing through to `doc_model`.
pub proof fn lemma_below_index(a: DocArena, ids: Seq<usize>, bound: int, j: int)
    requires
        forall|k: int| 0 <= k < ids.len() ==> ids[k] < bound,
        0 <= j < ids.len(),
    ensures
        doc_models_below(a, ids, bound).len() == ids.len(),
        doc_models_below(a, ids, bound)[j] == doc_model(a, ids[j] as int),
    decreases ids.len(),
{
    lemma_below_len(a, ids, bound);
    if j > 0 {
        lemma_below_index(a, ids.drop_first(), bound, j - 1);
    }
}

/// With every index below the bound, the two list views agree.
pub proof fn lemma_below_is_models_of(a: DocArena, ids: Seq<usize>, bound: int)
    requires
        forall|k: int| 0 <= k < ids.len() ==> ids[k] < bound,
    ensures
        doc_models_below(a, ids, bound) == models_of(a, ids),
{
    lemma_below_len(a, ids, bound);
    assert forall|j: int| 0 <= j < ids.len() implies doc_models_below(a, ids, bound)[j]
        == models_of(a, ids)[j] by {
        lemma_below_index(a, ids, bound, j);
        lemma_models_of_index(a, ids, j);
    }
    assert(doc_models_below(a, ids, bound) =~= models_of(a, ids));
}

/// Unfolds the view of an entry with children to `models_of` form.
pub proof fn lemma_doc_model_children(a: DocArena, i: int)
    requires
        arena_wf(a),
        0 <= i < a.docs@.len(),
    ensures
        (match a.docs@[i] {
            DocKind::Array(cs) => doc_model(a, i) == DocModel::Array(models_of(a, cs@)),
            DocKind::Indent(cs) => doc_model(a, i) == DocModel::Indent(models_of(a, cs@)),
            DocKind::Group { parts, should_break, id } => doc_model(a, i) == (DocModel::Group {
                parts: models_of(a, parts@),
                should_break,
                id,
            }),
            DocKind::Fill(cs) => doc_model(a, i) == DocModel::Fill(models_of(a, cs@)),
            _ => true,
        }),
{
    assert(doc_wf(a.docs@[i], i));
    lemma_below_is_models_of(a, doc_children(a.docs@[i]), i);
}

/// Growing the arena never changes the view of an entry that was already
/// there.
pub proof fn lemma_doc_model_prefix(a1: DocArena, a2: DocArena, i: int)
    requires
        arena_wf(a1),
        arena_wf(a2),
        a1.docs@.is_prefix_of(a2.docs@),
        0 <= i < a1.docs@.len(),
    ensures
        doc_model(a1, i) == doc_model(a2, i),
    decreases i,
{
    let d = a1.docs@[i];
    assert(a2.docs@[i] == d);
    assert(doc_wf(d, i));
    let ch = doc_children(d);
    assert forall|j: int| 0 <= j < ch.len() implies doc_model(a1, ch[j] as int) == doc_model(
        a2,
        ch[j] as int,
    ) by {
        lemma_doc_model_prefix(a1, a2, ch[j] as int);
    }
    assert forall|j: int| 0 <= j < ch.len() implies doc_models_below(a1, ch, i)[j]
        == doc_models_below(a2, ch, i)[j] by {
        lemma_below_index(a1, ch, i, j);
        lemma_below_index(a2, ch, i, j);
    }
    lemma_below_len(a1, ch, i);
    lemma_below_len(a2, ch, i);
    assert(doc_models_below(a1, ch, i) =~= doc_models_below(a2, ch, i));
}

impl DocArena {
    /// Creates an empty arena with the identifier counter at zero.
    pub fn new() -> (a: DocArena)
        ensures
            a.docs@.len() == 0,
            arena_wf(a),
            a.next_id == 0,
    {
        DocArena { docs: Vec::new(), next_id: 0 }
    }

    /// Hands out a fresh group identifier.
    pub fn next_group_id(&mut self) -> (id: u32)
        requires
            old(self).next_id < 0xffff_ffff_u32,
        ensures
            id == old(self).next_id,
            final(self).next_id == old(self).next_id + 1,
            final(self).docs@ == old(self).docs@,
    {
        let id = self.next_id;
        self.next_id = self.next_id + 1;
        id
    }

    /// Appends one doc whose children are already in the arena.
    pub fn push_doc(&mut self, d: DocKind) -> (i: usize)
        requires
            arena_wf(*old(self)),
            doc_wf(d, old(self).docs@.len() as int),
        ensures
            i == old(self).docs@.len(),
            final(self).docs@ == old(self).docs@.push(d),
            final(self).next_id == old(self).next_id,
            arena_wf(*final(self)),
            old(self).docs@.is_prefix_of(final(self).docs@),
    {
        let i = self.docs.len();
        self.docs.push(d);
        proof {
            assert forall|k: int| 0 <= k < self.docs@.len() implies doc_wf(
                #[trigger] self.docs@[k],
                k,
            ) by {
                if k < old(self).docs@.len() {
                    assert(self.docs@[k] == old(self).docs@[k]);
                }
            }
            assert(old(self).docs@.is_prefix_of(self.docs@));
        }
        i
    }

    /// After a push, the children of the pushed entry keep the views they
    /// had in the arena before the push.
    proof fn lemma_pushed_models(self, prev: DocArena, ids: Seq<usize>)
        requires
            arena_wf(prev),
            arena_wf(self),
            prev.docs@.is_prefix_of(self.docs@),
            forall|j: int| 0 <= j < ids.len() ==> ids[j] < prev.docs@.len(),
        ensures
            models_of(self, ids) == models_of(prev, ids),
    {
        assert forall|j: int| 0 <= j < ids.len() implies models_of(self, ids)[j] == models_of(
            prev,
            ids,
        )[j] by {
            lemma_models_of_index(self, ids, j);
            lemma_models_of_index(prev, ids, j);
            lemma_doc_model_prefix(prev, self, ids[j] as int);
        }
        assert(models_of(self, ids) =~= models_of(prev, ids));
    }

    /// Appends a text doc.
    pub fn text(&mut self, s: Vec<u8>) -> (i: usize)
        requires
            arena_wf(*old(self)),
        ensures
            i == old(self).docs@.len(),
            final(self).docs@ == old(self).docs@.push(DocKind::Text(s)),
            final(self).next_id == old(self).next_id,
            arena_wf(*final(self)),
            old(self).docs@.is_prefix_of(final(self).docs@),
            doc_model(*final(self), i as int) == DocModel::Text(s@),
    {
        let ghost sv = s@;
        let i = self.push_doc(DocKind::Text(s));
        proof {
            assert(doc_model(*self, i as int) == DocModel::Text(sv));
        }
        i
    }

    /// Appends a soft `Line`.
    pub fn line(&mut self) -> (i: usize)
        requires
            arena_wf(*old(self)),
        ensures
            i == old(self).docs@.len(),
            final(self).docs@ == old(self).docs@.push(DocKind::Line),
            final(self).next_id == old(self).next_id,
            arena_wf(*final(self)),
            old(self).docs@.is_prefix_of(final(self).docs@),
            doc_model(*final(self), i as int) == DocModel::Line,
    {
        self.push_doc(DocKind::Line)
    }

    /// Appends a `SoftLine`.
    pub fn softline(&mut self) -> (i: usize)
        requires
            arena_wf(*old(self)),
        ensures
            i == old(self).docs@.len(),
            final(self).docs@ == old(self).docs@.push(DocKind::SoftLine),
            final(self).next_id == old(self).next_id,
            arena_wf(*final(self)),
            old(self).docs@.is_prefix_of(final(self).docs@),
            doc_model(*final(self), i as int) == DocModel::SoftLine,
    {
        self.push_doc(DocKind::SoftLine)
    }

    /// Appends a `HardLine`.
    pub fn hardline(&mut self) -> (i: usize)
        requires
            arena_wf(*old(self)),
        ensures
            i == old(self).docs@.len(),
            final(self).docs@ == old(self).docs@.push(DocKind::HardLine),
            final(self).next_id == old(self).next_id,
            arena_wf(*final(self)),
            old(self).docs@.is_prefix_of(final(self).docs@),
            doc_model(*final(self), i as int) == DocModel::HardLine,
    {
        self.push_doc(DocKind::HardLine)
    }

    /// Appends a concatenation of docs already in the arena.
    pub fn array(&mut self, children: Vec<usize>) -> (i: usize)
        requires
            arena_wf(*old(self)),
            forall|j: int| 0 <= j < children@.len() ==> children@[j] < old(self).docs@.len(),
        ensures
            i == old(self).docs@.len(),
            final(self).next_id == old(self).next_id,
            arena_wf(*final(self)),
            old(self).docs@.is_prefix_of(final(self).docs@),
            final(self).docs@.len() == old(self).docs@.len() + 1,
            doc_model(*final(self), i as int) == DocModel::Array(models_of(*old(self), children@)),
    {
        let ghost cv = children@;
        let i = self.push_doc(DocKind::Array(children));
        proof {
            lemma_doc_model_children(*self, i as int);
            self.lemma_pushed_models(*old(self), cv);
        }
        i
    }

    /// Appends an indented concatenation of docs already in the arena.
    pub fn indent(&mut self, children: Vec<usize>) -> (i: usize)
        requires
            arena_wf(*old(self)),
            forall|j: int| 0 <= j < children@.len() ==> children@[j] < old(self).docs@.len(),
        ensures
            i == old(self).docs@.len(),
            final(self).next_id == old(self).next_id,
            arena_wf(*final(self)),
            old(self).docs@.is_prefix_of(final(self).docs@),
            final(self).docs@.len() == old(self).docs@.len() + 1,
            doc_model(*final(self), i as int) == DocModel::Indent(models_of(*old(self), children@)),
    {
        let ghost cv = children@;
        let i = self.push_doc(DocKind::Indent(children));
        proof {
            lemma_doc_model_children(*self, i as int);
            self.lemma_pushed_models(*old(self), cv);
        }
        i
    }

    /// Appends a group over docs already in the arena.
    pub fn group(&mut self, parts: Vec<usize>, should_break: bool, id: Option<u32>) -> (i: usize)
        requires
            arena_wf(*old(self)),
            forall|j: int| 0 <= j < parts@.len() ==> parts@[j] < old(self).docs@.len(),
        ensures
            i == old(self).docs@.len(),
            final(self).next_id == old(self).next_id,
            arena_wf(*final(self)),
            old(self).docs@.is_prefix_of(final(self).docs@),
            final(self).docs@.len() == old(self).docs@.len() + 1,
            doc_model(*final(self), i as int) == (DocModel::Group {
                parts: models_of(*old(self), parts@),
                should_break,
                id,
            }),
    {
        let ghost cv = parts@;
        let i = self.push_doc(DocKind::Group { parts, should_break, id });
        proof {
            lemma_doc_model_children(*self, i as int);
            self.lemma_pushed_models(*old(self), cv);
        }
        i
    }

    /// Appends a fill over docs already in the arena.
    pub fn fill(&mut self, parts: Vec<usize>) -> (i: usize)
        requires
            arena_wf(*old(self)),
            forall|j: int| 0 <= j < parts@.len() ==> parts@[j] < old(self).docs@.len(),
        ensures
            i == old(self).docs@.len(),
            final(self).next_id == old(self).next_id,
            arena_wf(*final(self)),
            old(self).docs@.is_prefix_of(final(self).docs@),
            final(self).docs@.len() == old(self).docs@.len() + 1,
            doc_model(*final(self), i as int) == DocModel::Fill(models_of(*old(self), parts@)),
    {
        let ghost cv = parts@;
        let i = self.push_doc(DocKind::Fill(parts));
        proof {
            lemma_doc_model_children(*self, i as int);
            self.lemma_pushed_models(*old(self), cv);
        }
        i
    }

    /// Appends a conditional text.
    pub fn if_break(&mut self, break_text: Vec<u8>, flat_text: Vec<u8>, id: Option<u32>) -> (i: usize)
        requires
            arena_wf(*old(self)),
        ensures
            i == old(self).docs@.len(),
            final(self).next_id == old(self).next_id,
            arena_wf(*final(self)),
            old(self).docs@.is_prefix_of(final(self).docs@),
            final(self).docs@.len() == old(self).docs@.len() + 1,
            doc_model(*final(self), i as int) == (DocModel::IfBreak {
                break_text: break_text@,
                flat_text: flat_text@,
                group_id: id,
            }),
    {
        let ghost bt = break_text@;
        let ghost ft = flat_text@;
        let i = self.push_doc(DocKind::IfBreak { break_text, flat_text, group_id: id });
        proof {
            assert(doc_model(*self, i as int) == (DocModel::IfBreak {
                break_text: bt,
                flat_text: ft,
                group_id: id,
            }));
        }
        i
    }
}

/// Whether every conditional text inside `m` names only identifiers of
/// groups that enclose it (the identifiers in `env` count as enclosing).
/// The printer resolves and records a group's break state before its
/// contents render, so under this scoping every named identifier is
/// resolved before the conditional text that names it.
pub open spec fn model_scoped(m: DocModel, env: Set<u32>) -> bool
    decreases m,
{
    match m {
        DocModel::IfBreak { group_id: Some(g), .. } => env.contains(g),
        DocModel::Group { parts, id, .. } => {
            let env2 = match id {
                Some(g) => env.insert(g),
                None => env,
            };
            forall|j: int| 0 <= j < parts.len() ==> model_scoped(#[trigger] parts[j], env2)
        },
        DocModel::Array(parts) => forall|j: int|
            0 <= j < parts.len() ==> model_scoped(#[trigger] parts[j], env),
        DocModel::Indent(parts) => forall|j: int|
            0 <= j < parts.len() ==> model_scoped(#[trigger] parts[j], env),
        DocModel::Fill(parts) => forall|j: int|
            0 <= j < parts.len() ==> model_scoped(#[trigger] parts[j], env),
        _ => true,
    }
}

/// Whether some conditional text inside `m` names the group id `g`.
pub open spec fn model_refs(m: DocModel, g: u32) -> bool
    decreases m,
{
    match m {
        DocModel::IfBreak { group_id: Some(g2), .. } => g2 == g,
        DocModel::Group { parts, .. } => exists|j: int|
            0 <= j < parts.len() && model_refs(#[trigger] parts[j], g),
        DocModel::Array(parts) => exists|j: int|
            0 <= j < parts.len() && model_refs(#[trigger] parts[j], g),
        DocModel::Indent(parts) => exists|j: int|
            0 <= j < parts.len() && model_refs(#[trigger] parts[j], g),
        DocModel::Fill(parts) => exists|j: int|
            0 <= j < parts.len() && model_refs(#[trigger] parts[j], g),
        _ => false,
    }
}

} // verus!
