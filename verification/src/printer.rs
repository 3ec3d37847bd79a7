//! The layout engine.
//!
//! Rendering walks a doc tree and decides, per group, whether it prints
//! flat or broken: a group stays flat only when its flattened content,
//! together with everything that remains on the current line after it,
//! fits the width budget. A fill decides the same question independently
//! for each adjacent content/separator pair. Hard lines always break and
//! force every enclosing group to break. Resolved break states of
//! identified groups are recorded in a run-scoped table that conditional
//! texts consult.
//!
//! The width test (`fits`) is specified exactly: each executable fits
//! function is proved equal to its specification. The walk keeps, in
//! `rest`, one frame per ancestor with the position of its next unprinted
//! child, so the fits test can see what remains on the line after a group.

use vstd::prelude::*;
use crate::doc::{arena_wf, doc_children, doc_model, doc_models_below, doc_wf, model_refs, DocArena, DocKind, DocModel};

verus! {

/// Rendering mode of a region: flat on one line, or broken.
#[derive(Clone, Copy, PartialEq, Eq, Structural, Debug)]
pub enum Mode {
    Flat,
    Break,
}

/// Outcome of a width test over a prefix of the remaining output: it fits
/// and leaves a budget, the line surely ends before overflow, or it
/// overflows.
#[derive(Clone, Copy, PartialEq, Eq, Structural, Debug)]
pub enum FitOutcome {
    Fits(usize),
    LineEnd,
    Overflow,
}

/// One suspended ancestor during the walk: the node, the index of its next
/// unprinted child, and the indentation and mode it was being printed in.
#[derive(Clone, Copy, PartialEq, Eq, Structural, Debug)]
pub struct RestFrame {
    pub ind: usize,
    pub mode: Mode,
    pub doc: usize,
    pub from: usize,
}

/// The recorded break state of group `g`, if it was resolved.
pub open spec fn table_get(table: Seq<Option<bool>>, g: u32) -> Option<bool> {
    if 0 <= g < table.len() {
        table[g as int]
    } else {
        None
    }
}

/// Which text an `IfBreak` selects: the named group's recorded state when
/// an identifier is given, else the current mode. An identifier with no
/// recorded state selects the flat text; that default is defensive only —
/// a conditional text in a well-scoped doc (`model_scoped`) names an
/// enclosing group's identifier, whose state the walk records before
/// rendering the group's contents, and the formatter's docs are proved
/// well-scoped.
pub open spec fn if_break_takes_break(
    table: Seq<Option<bool>>,
    group_id: Option<u32>,
    mode: Mode,
) -> bool {
    match group_id {
        Some(g) => table_get(table, g) == Some(true),
        None => mode == Mode::Break,
    }
}

/// Whether doc `i` contains an unconditional hard line.
pub open spec fn spec_has_hard(a: DocArena, i: int) -> bool
    decreases i, 1int, 0int,
{
    match a.docs@[i] {
        DocKind::HardLine => true,
        d => spec_has_hard_list(a, doc_children(d), i),
    }
}

pub open spec fn spec_has_hard_list(a: DocArena, ids: Seq<usize>, bound: int) -> bool
    decreases bound, 0int, ids.len(),
{
    if ids.len() == 0 {
        false
    } else {
        (0 <= ids[0] < bound && spec_has_hard(a, ids[0] as int)) || spec_has_hard_list(
            a,
            ids.drop_first(),
            bound,
        )
    }
}

proof fn lemma_has_hard_list_exists(a: DocArena, ids: Seq<usize>, bound: int)
    ensures
        spec_has_hard_list(a, ids, bound) == exists|j: int|
            0 <= j < ids.len() && 0 <= ids[j] < bound && spec_has_hard(a, #[trigger] ids[j] as int),
    decreases ids.len(),
{
    if ids.len() > 0 {
        lemma_has_hard_list_exists(a, ids.drop_first(), bound);
        if spec_has_hard_list(a, ids, bound) {
            if 0 <= ids[0] < bound && spec_has_hard(a, ids[0] as int) {
                assert(0 <= ids[0] < bound && spec_has_hard(a, ids[0] as int));
            } else {
                let j = choose|j: int|
                    0 <= j < ids.drop_first().len() && 0 <= ids.drop_first()[j] < bound
                        && spec_has_hard(a, #[trigger] ids.drop_first()[j] as int);
                assert(ids[j + 1] == ids.drop_first()[j]);
                assert(spec_has_hard(a, ids[j + 1] as int));
            }
        }
        if exists|j: int|
            0 <= j < ids.len() && 0 <= ids[j] < bound && spec_has_hard(
                a,
                #[trigger] ids[j] as int,
            ) {
            let j = choose|j: int|
                0 <= j < ids.len() && 0 <= ids[j] < bound && spec_has_hard(
                    a,
                    #[trigger] ids[j] as int,
                );
            if j > 0 {
                assert(ids.drop_first()[j - 1] == ids[j]);
            }
        }
    }
}

/// Number of children of arena entry `i`.
fn doc_child_count(a: &DocArena, i: usize) -> (n: usize)
    requires
        i < a.docs@.len(),
    ensures
        n == doc_children(a.docs@[i as int]).len(),
{
    match &a.docs[i] {
        DocKind::Array(cs) => cs.len(),
        DocKind::Indent(cs) => cs.len(),
        DocKind::Group { parts, .. } => parts.len(),
        DocKind::Fill(cs) => cs.len(),
        _ => 0,
    }
}

/// The `k`-th child of arena entry `i`.
fn doc_child_at(a: &DocArena, i: usize, k: usize) -> (c: usize)
    requires
        i < a.docs@.len(),
        k < doc_children(a.docs@[i as int]).len(),
    ensures
        c == doc_children(a.docs@[i as int])[k as int],
        arena_wf(*a) ==> c < i,
{
    proof {
        if arena_wf(*a) {
            assert(doc_wf(a.docs@[i as int], i as int));
        }
    }
    match &a.docs[i] {
        DocKind::Array(cs) => cs[k],
        DocKind::Indent(cs) => cs[k],
        DocKind::Group { parts, .. } => parts[k],
        DocKind::Fill(cs) => cs[k],
        _ => 0,
    }
}

/// Whether doc `i` contains an unconditional hard line.
pub fn has_hard(a: &DocArena, i: usize) -> (r: bool)
    requires
        arena_wf(*a),
        i < a.docs@.len(),
    ensures
        r == spec_has_hard(*a, i as int),
    decreases i,
{
    proof {
        assert(doc_wf(a.docs@[i as int], i as int));
    }
    let is_hard = match &a.docs[i] {
        DocKind::HardLine => true,
        _ => false,
    };
    if is_hard {
        return true;
    }
    let ghost ids = doc_children(a.docs@[i as int]);
    proof {
        lemma_has_hard_list_exists(*a, ids, i as int);
    }
    let n = doc_child_count(a, i);
    let mut k: usize = 0;
    while k < n
        invariant
            arena_wf(*a),
            i < a.docs@.len(),
            n == ids.len(),
            ids == doc_children(a.docs@[i as int]),
            k <= n,
            forall|j: int| 0 <= j < k ==> !spec_has_hard(*a, #[trigger] ids[j] as int),
        decreases n - k,
    {
        let c = doc_child_at(a, i, k);
        if has_hard(a, c) {
            proof {
                lemma_has_hard_list_exists(*a, ids, i as int);
            }
            return true;
        }
        k += 1;
    }
    proof {
        lemma_has_hard_list_exists(*a, ids, i as int);
    }
    false
}

/// The width test for one doc rendered in `mode` with `rem` columns left
/// on the line.
pub open spec fn spec_fits_doc(
    a: DocArena,
    i: int,
    mode: Mode,
    table: Seq<Option<bool>>,
    rem: usize,
) -> FitOutcome
    decreases i, 1int, 0int,
{
    match a.docs@[i] {
        DocKind::Text(s) => if s@.len() <= rem {
            FitOutcome::Fits((rem - s@.len()) as usize)
        } else {
            FitOutcome::Overflow
        },
        DocKind::Line => if mode == Mode::Flat {
            if rem >= 1 {
                FitOutcome::Fits((rem - 1) as usize)
            } else {
                FitOutcome::Overflow
            }
        } else {
            FitOutcome::LineEnd
        },
        DocKind::SoftLine => if mode == Mode::Flat {
            FitOutcome::Fits(rem)
        } else {
            FitOutcome::LineEnd
        },
        DocKind::HardLine => FitOutcome::LineEnd,
        DocKind::IfBreak { break_text, flat_text, group_id } => {
            let txt = if if_break_takes_break(table, group_id, mode) {
                break_text@
            } else {
                flat_text@
            };
            if txt.len() <= rem {
                FitOutcome::Fits((rem - txt.len()) as usize)
            } else {
                FitOutcome::Overflow
            }
        },
        DocKind::Array(cs) => spec_fits_list(a, cs@, 0, mode, table, rem, i),
        DocKind::Indent(cs) => spec_fits_list(a, cs@, 0, mode, table, rem, i),
        DocKind::Group { parts, should_break, .. } => {
            let m2 = if should_break || spec_has_hard_list(a, parts@, i) {
                Mode::Break
            } else {
                mode
            };
            spec_fits_list(a, parts@, 0, m2, table, rem, i)
        },
        DocKind::Fill(cs) => spec_fits_list(a, cs@, 0, mode, table, rem, i),
    }
}

/// The width test over `ids[from..]`, threading the remaining budget.
pub open spec fn spec_fits_list(
    a: DocArena,
    ids: Seq<usize>,
    from: int,
    mode: Mode,
    table: Seq<Option<bool>>,
    rem: usize,
    bound: int,
) -> FitOutcome
    decreases bound, 0int, ids.len() - from,
{
    if !(0 <= from < ids.len()) {
        FitOutcome::Fits(rem)
    } else {
        let o = if 0 <= ids[from] < bound {
            spec_fits_doc(a, ids[from] as int, mode, table, rem)
        } else {
            FitOutcome::Fits(rem)
        };
        match o {
            FitOutcome::Fits(r) => spec_fits_list(a, ids, from + 1, mode, table, r, bound),
            FitOutcome::LineEnd => FitOutcome::LineEnd,
            FitOutcome::Overflow => FitOutcome::Overflow,
        }
    }
}

/// The width test over the suspended ancestors, innermost first: what
/// remains on the current line after the doc under test.
pub open spec fn spec_fits_frames(
    a: DocArena,
    frames: Seq<RestFrame>,
    k: int,
    table: Seq<Option<bool>>,
    rem: usize,
) -> FitOutcome
    decreases k,
{
    if k <= 0 {
        FitOutcome::Fits(rem)
    } else {
        let fr = frames[k - 1];
        let o = spec_fits_list(
            a,
            doc_children(a.docs@[fr.doc as int]),
            fr.from as int,
            fr.mode,
            table,
            rem,
            fr.doc as int,
        );
        match o {
            FitOutcome::Fits(r) => spec_fits_frames(a, frames, k - 1, table, r),
            FitOutcome::LineEnd => FitOutcome::LineEnd,
            FitOutcome::Overflow => FitOutcome::Overflow,
        }
    }
}

/// Validity of the suspended-ancestor frames against the arena.
pub open spec fn frames_wf(a: DocArena, frames: Seq<RestFrame>) -> bool {
    forall|f: int|
        0 <= f < frames.len() ==> (#[trigger] frames[f]).doc < a.docs@.len() && frames[f].from
            <= doc_children(a.docs@[frames[f].doc as int]).len()
}


/// The state a rendering walk threads: the bytes emitted so far, the
/// current column, and the recorded break states of identified groups.
#[verifier::ext_equal]
pub struct RenderState {
    pub out: Seq<u8>,
    pub pos: usize,
    pub table: Seq<Option<bool>>,
}

/// `n` space bytes.
pub open spec fn spaces(n: int) -> Seq<u8>
    decreases n,
{
    if n <= 0 {
        Seq::empty()
    } else {
        spaces(n - 1).push(32u8)
    }
}

/// Emitting verbatim text: append it and advance the column, saturating.
pub open spec fn spec_emit_text(st: RenderState, txt: Seq<u8>) -> RenderState {
    RenderState {
        out: st.out + txt,
        pos: (if txt.len() > usize::MAX - st.pos {
            usize::MAX
        } else {
            (st.pos + txt.len()) as usize
        }),
        table: st.table,
    }
}

/// Emitting a line break: a newline, the indentation, and the column reset
/// to the indentation.
pub open spec fn spec_break_line(st: RenderState, ind: usize) -> RenderState {
    RenderState { out: st.out + seq![10u8] + spaces(ind as int), pos: ind, table: st.table }
}

/// The rendering of doc `i` at indentation `ind` in `mode`, starting from
/// state `st`, with `frames` holding the pending siblings of every
/// suspended ancestor. This is the layout algorithm itself, stated as a
/// function: every hard line becomes a newline at the current
/// indentation; a group resolves broken when forced (its flag, or a hard
/// line inside), else flat exactly when its flattened content plus
/// everything remaining on the line fits the width; an identified group
/// records its resolution before its contents render; a fill decides
/// flat-or-broken independently per content/separator pair.
pub open spec fn spec_render_node(
    a: DocArena,
    st: RenderState,
    frames: Seq<RestFrame>,
    i: int,
    ind: usize,
    mode: Mode,
    width: usize,
) -> RenderState
    decreases i, 2int, 0int,
{
    match a.docs@[i] {
        DocKind::Text(s) => spec_emit_text(st, s@),
        DocKind::Line => if mode == Mode::Flat {
            spec_emit_text(st, seq![32u8])
        } else {
            spec_break_line(st, ind)
        },
        DocKind::SoftLine => if mode == Mode::Break {
            spec_break_line(st, ind)
        } else {
            st
        },
        DocKind::HardLine => spec_break_line(st, ind),
        DocKind::IfBreak { break_text, flat_text, group_id } => {
            if if_break_takes_break(st.table, group_id, mode) {
                spec_emit_text(st, break_text@)
            } else {
                spec_emit_text(st, flat_text@)
            }
        },
        DocKind::Array(_) => spec_render_children(a, st, frames, i, ind, mode, width, 0),
        DocKind::Indent(_) => {
            let ind2 = if ind > usize::MAX - 2 {
                ind
            } else {
                (ind + 2) as usize
            };
            spec_render_children(a, st, frames, i, ind2, mode, width, 0)
        },
        DocKind::Group { should_break, id, .. } => {
            let forced = should_break || spec_has_hard(a, i);
            let gmode = if forced {
                Mode::Break
            } else {
                let rem = if st.pos >= width {
                    0
                } else {
                    (width - st.pos) as usize
                };
                let head = spec_fits_list(
                    a,
                    doc_children(a.docs@[i]),
                    0,
                    Mode::Flat,
                    st.table,
                    rem,
                    i,
                );
                let whole = match head {
                    FitOutcome::Fits(r) => spec_fits_frames(
                        a,
                        frames,
                        frames.len() as int,
                        st.table,
                        r,
                    ),
                    FitOutcome::LineEnd => FitOutcome::LineEnd,
                    FitOutcome::Overflow => FitOutcome::Overflow,
                };
                match whole {
                    FitOutcome::Overflow => Mode::Break,
                    _ => Mode::Flat,
                }
            };
            let st2 = match id {
                Some(g) => if g < st.table.len() {
                    RenderState {
                        table: st.table.update(g as int, Some(gmode == Mode::Break)),
                        ..st
                    }
                } else {
                    st
                },
                None => st,
            };
            spec_render_children(a, st2, frames, i, ind, gmode, width, 0)
        },
        DocKind::Fill(_) => spec_render_fill(a, st, frames, i, ind, mode, width, 0),
    }
}

/// The rendering of the children of `i` from position `k` on, each child
/// rendered with a frame for its pending siblings.
pub open spec fn spec_render_children(
    a: DocArena,
    st: RenderState,
    frames: Seq<RestFrame>,
    i: int,
    ind: usize,
    mode: Mode,
    width: usize,
    k: int,
) -> RenderState
    decreases i, 1int, doc_children(a.docs@[i]).len() - k,
{
    let ids = doc_children(a.docs@[i]);
    if !(0 <= k < ids.len()) {
        st
    } else {
        let c = ids[k];
        let st2 = if 0 <= c < i {
            spec_render_node(
                a,
                st,
                frames.push(
                    RestFrame { ind, mode, doc: i as usize, from: (k + 1) as usize },
                ),
                c as int,
                ind,
                mode,
                width,
            )
        } else {
            st
        };
        spec_render_children(a, st2, frames, i, ind, mode, width, k + 1)
    }
}

/// The rendering of a fill's parts from position `k` on.
pub open spec fn spec_render_fill(
    a: DocArena,
    st: RenderState,
    frames: Seq<RestFrame>,
    i: int,
    ind: usize,
    mode: Mode,
    width: usize,
    k: int,
) -> RenderState
    decreases i, 1int, doc_children(a.docs@[i]).len() - k,
{
    let ids = doc_children(a.docs@[i]);
    let n = ids.len() as int;
    if !(0 <= k < n) {
        st
    } else {
        let rem = if st.pos >= width {
            0
        } else {
            (width - st.pos) as usize
        };
        let content = ids[k];
        let content_fits = !(spec_fits_doc(a, content as int, Mode::Flat, st.table, rem)
            matches FitOutcome::Overflow);
        if k + 1 >= n {
            let m = if content_fits {
                Mode::Flat
            } else {
                Mode::Break
            };
            let st2 = if 0 <= content < i {
                spec_render_node(
                    a,
                    st,
                    frames.push(
                        RestFrame { ind, mode, doc: i as usize, from: (k + 1) as usize },
                    ),
                    content as int,
                    ind,
                    m,
                    width,
                )
            } else {
                st
            };
            spec_render_fill(a, st2, frames, i, ind, mode, width, k + 1)
        } else {
            let sep = ids[k + 1];
            let pair_fits = if k + 2 >= n {
                content_fits
            } else {
                let second = ids[k + 2];
                match spec_fits_doc(a, content as int, Mode::Flat, st.table, rem) {
                    FitOutcome::Fits(r1) => match spec_fits_doc(
                        a,
                        sep as int,
                        Mode::Flat,
                        st.table,
                        r1,
                    ) {
                        FitOutcome::Fits(r2) => !(spec_fits_doc(
                            a,
                            second as int,
                            Mode::Flat,
                            st.table,
                            r2,
                        ) matches FitOutcome::Overflow),
                        FitOutcome::LineEnd => true,
                        FitOutcome::Overflow => false,
                    },
                    FitOutcome::LineEnd => true,
                    FitOutcome::Overflow => false,
                }
            };
            let cmode = if pair_fits || content_fits {
                Mode::Flat
            } else {
                Mode::Break
            };
            let smode = if pair_fits {
                Mode::Flat
            } else {
                Mode::Break
            };
            let st2 = if 0 <= content < i {
                spec_render_node(
                    a,
                    st,
                    frames.push(
                        RestFrame { ind, mode, doc: i as usize, from: (k + 1) as usize },
                    ),
                    content as int,
                    ind,
                    cmode,
                    width,
                )
            } else {
                st
            };
            let st3 = if 0 <= sep < i {
                spec_render_node(
                    a,
                    st2,
                    frames.push(
                        RestFrame { ind, mode, doc: i as usize, from: (k + 2) as usize },
                    ),
                    sep as int,
                    ind,
                    smode,
                    width,
                )
            } else {
                st2
            };
            spec_render_fill(a, st3, frames, i, ind, mode, width, k + 2)
        }
    }
}

/// The empty table of a fresh run: one unresolved slot per handed-out
/// group identifier.
pub open spec fn fresh_table(a: DocArena) -> Seq<Option<bool>> {
    Seq::new(a.next_id as nat, |j: int| None)
}

/// The text the printer produces for the doc rooted at `root` at the
/// given width.
pub open spec fn spec_print(a: DocArena, root: int, width: usize) -> Seq<u8> {
    spec_render_node(
        a,
        RenderState { out: Seq::empty(), pos: 0, table: fresh_table(a) },
        Seq::empty(),
        root,
        0,
        Mode::Break,
        width,
    ).out
}

/// The width test for one doc; proved equal to its specification.
pub fn fits_doc(
    a: &DocArena,
    i: usize,
    mode: Mode,
    table: &Vec<Option<bool>>,
    rem: usize,
) -> (r: FitOutcome)
    requires
        arena_wf(*a),
        i < a.docs@.len(),
    ensures
        r == spec_fits_doc(*a, i as int, mode, table@, rem),
    decreases i, 1int, 0int,
{
    proof {
        assert(doc_wf(a.docs@[i as int], i as int));
    }
    match &a.docs[i] {
        DocKind::Text(s) => {
            if s.len() <= rem {
                FitOutcome::Fits(rem - s.len())
            } else {
                FitOutcome::Overflow
            }
        },
        DocKind::Line => {
            if mode == Mode::Flat {
                if rem >= 1 {
                    FitOutcome::Fits(rem - 1)
                } else {
                    FitOutcome::Overflow
                }
            } else {
                FitOutcome::LineEnd
            }
        },
        DocKind::SoftLine => {
            if mode == Mode::Flat {
                FitOutcome::Fits(rem)
            } else {
                FitOutcome::LineEnd
            }
        },
        DocKind::HardLine => FitOutcome::LineEnd,
        DocKind::IfBreak { break_text, flat_text, group_id } => {
            let use_break = match group_id {
                Some(g) => {
                    let gi = *g as usize;
                    if gi < table.len() {
                        match table[gi] {
                            Some(b) => b,
                            None => false,
                        }
                    } else {
                        false
                    }
                },
                None => mode == Mode::Break,
            };
            let txt = if use_break {
                break_text
            } else {
                flat_text
            };
            if txt.len() <= rem {
                FitOutcome::Fits(rem - txt.len())
            } else {
                FitOutcome::Overflow
            }
        },
        DocKind::Array(_) => fits_list(a, i, 0, mode, table, rem),
        DocKind::Indent(_) => fits_list(a, i, 0, mode, table, rem),
        DocKind::Group { should_break, .. } => {
            let m2 = if *should_break || has_hard(a, i) {
                Mode::Break
            } else {
                mode
            };
            fits_list(a, i, 0, m2, table, rem)
        },
        DocKind::Fill(_) => fits_list(a, i, 0, mode, table, rem),
    }
}

/// The width test over the children of `i` starting at `from`.
fn fits_list(
    a: &DocArena,
    i: usize,
    from: usize,
    mode: Mode,
    table: &Vec<Option<bool>>,
    rem: usize,
) -> (r: FitOutcome)
    requires
        arena_wf(*a),
        i < a.docs@.len(),
    ensures
        r == spec_fits_list(
            *a,
            doc_children(a.docs@[i as int]),
            from as int,
            mode,
            table@,
            rem,
            i as int,
        ),
    decreases i, 0int, doc_child_count_spec(*a, i as int) - from,
{
    let n = doc_child_count(a, i);
    if from >= n {
        return FitOutcome::Fits(rem);
    }
    let c = doc_child_at(a, i, from);
    let o = fits_doc(a, c, mode, table, rem);
    match o {
        FitOutcome::Fits(r) => fits_list(a, i, from + 1, mode, table, r),
        FitOutcome::LineEnd => FitOutcome::LineEnd,
        FitOutcome::Overflow => FitOutcome::Overflow,
    }
}

/// Ghost child count, for termination measures.
pub open spec fn doc_child_count_spec(a: DocArena, i: int) -> int {
    doc_children(a.docs@[i]).len() as int
}

/// The width test over the suspended ancestors, topmost (innermost) first.
fn fits_frames(
    a: &DocArena,
    frames: &Vec<RestFrame>,
    k: usize,
    table: &Vec<Option<bool>>,
    rem: usize,
) -> (r: FitOutcome)
    requires
        arena_wf(*a),
        frames_wf(*a, frames@),
        k <= frames@.len(),
    ensures
        r == spec_fits_frames(*a, frames@, k as int, table@, rem),
    decreases k,
{
    if k == 0 {
        return FitOutcome::Fits(rem);
    }
    let fr = frames[k - 1];
    let o = fits_list(a, fr.doc, fr.from, fr.mode, table, rem);
    match o {
        FitOutcome::Fits(r) => fits_frames(a, frames, k - 1, table, r),
        FitOutcome::LineEnd => FitOutcome::LineEnd,
        FitOutcome::Overflow => FitOutcome::Overflow,
    }
}

/// Appends `txt` to the output and advances the column, saturating.
fn emit_text(out: &mut Vec<u8>, pos: &mut usize, txt: &Vec<u8>)
    ensures
        final(out)@ == old(out)@ + txt@,
        *final(pos) == (if txt@.len() > usize::MAX - *old(pos) {
            usize::MAX
        } else {
            (*old(pos) + txt@.len()) as usize
        }),
{
    let mut j: usize = 0;
    while j < txt.len()
        invariant
            j <= txt@.len(),
            out@ == old(out)@ + txt@.take(j as int),
        decreases txt@.len() - j,
    {
        out.push(txt[j]);
        proof {
            assert(old(out)@ + txt@.take(j as int) + seq![txt@[j as int]] =~= old(out)@
                + txt@.take(j as int + 1));
        }
        j += 1;
    }
    proof {
        assert(old(out)@ + txt@.take(txt@.len() as int) =~= old(out)@ + txt@);
    }
    if txt.len() > usize::MAX - *pos {
        *pos = usize::MAX;
    } else {
        *pos = *pos + txt.len();
    }
}

/// Appends a newline plus `ind` spaces and resets the column to `ind`.
fn break_line(out: &mut Vec<u8>, pos: &mut usize, ind: usize)
    ensures
        *final(pos) == ind,
        final(out)@ == old(out)@ + seq![10u8] + spaces(ind as int),
{
    out.push(10u8);
    proof {
        assert(old(out)@.push(10u8) =~= old(out)@ + seq![10u8] + spaces(0));
    }
    let mut s: usize = 0;
    while s < ind
        invariant
            s <= ind,
            out@ == old(out)@ + seq![10u8] + spaces(s as int),
        decreases ind - s,
    {
        out.push(32u8);
        proof {
            assert((old(out)@ + seq![10u8] + spaces(s as int)).push(32u8) =~= old(out)@ + seq![
                10u8,
            ] + spaces(s as int + 1));
        }
        s += 1;
    }
    *pos = ind;
}

/// Renders one doc in the given indentation and mode; proved equal to the
/// specification-level rendering. `rest` holds one frame per suspended
/// ancestor, so group fits tests can see what remains on the line; it is
/// restored before returning.
fn print_node(
    a: &DocArena,
    out: &mut Vec<u8>,
    pos: &mut usize,
    table: &mut Vec<Option<bool>>,
    rest: &mut Vec<RestFrame>,
    i: usize,
    ind: usize,
    mode: Mode,
    width: usize,
)
    requires
        arena_wf(*a),
        i < a.docs@.len(),
        frames_wf(*a, old(rest)@),
    ensures
        final(rest)@ == old(rest)@,
        ({
            let st = spec_render_node(
                *a,
                (RenderState { out: old(out)@, pos: *old(pos), table: old(table)@ }),
                old(rest)@,
                i as int,
                ind,
                mode,
                width,
            );
            final(out)@ == st.out && *final(pos) == st.pos && final(table)@ == st.table
        }),
    decreases i,
{
    proof {
        assert(doc_wf(a.docs@[i as int], i as int));
    }
    let ghost st0 = RenderState { out: out@, pos: *pos, table: table@ };
    match &a.docs[i] {
        DocKind::Text(s) => {
            emit_text(out, pos, s);
        },
        DocKind::Line => {
            if mode == Mode::Flat {
                out.push(32u8);
                if *pos < usize::MAX {
                    *pos = *pos + 1;
                }
                proof {
                    assert(out@ =~= st0.out + seq![32u8]);
                }
            } else {
                break_line(out, pos, ind);
            }
        },
        DocKind::SoftLine => {
            if mode == Mode::Break {
                break_line(out, pos, ind);
            }
        },
        DocKind::HardLine => {
            break_line(out, pos, ind);
        },
        DocKind::IfBreak { break_text, flat_text, group_id } => {
            let use_break = match group_id {
                Some(g) => {
                    let gi = *g as usize;
                    if gi < table.len() {
                        match table[gi] {
                            Some(b) => b,
                            None => false,
                        }
                    } else {
                        false
                    }
                },
                None => mode == Mode::Break,
            };
            proof {
                assert(use_break == if_break_takes_break(st0.table, *group_id, mode));
            }
            if use_break {
                emit_text(out, pos, break_text);
            } else {
                emit_text(out, pos, flat_text);
            }
        },
        DocKind::Array(_) => {
            print_children(a, out, pos, table, rest, i, ind, mode, width);
        },
        DocKind::Indent(_) => {
            let ind2 = if ind > usize::MAX - 2 {
                ind
            } else {
                ind + 2
            };
            print_children(a, out, pos, table, rest, i, ind2, mode, width);
        },
        DocKind::Group { should_break, id, .. } => {
            let forced = *should_break || has_hard(a, i);
            let gmode = if forced {
                Mode::Break
            } else {
                let rem = if *pos >= width {
                    0
                } else {
                    width - *pos
                };
                let head = fits_list(a, i, 0, Mode::Flat, table, rem);
                let whole = match head {
                    FitOutcome::Fits(r) => fits_frames(a, rest, rest.len(), table, r),
                    FitOutcome::LineEnd => FitOutcome::LineEnd,
                    FitOutcome::Overflow => FitOutcome::Overflow,
                };
                match whole {
                    FitOutcome::Overflow => Mode::Break,
                    _ => Mode::Flat,
                }
            };
            match id {
                Some(g) => {
                    let gi = *g as usize;
                    if gi < table.len() {
                        table[gi] = Some(gmode == Mode::Break);
                    }
                },
                None => {},
            }
            let ghost st2 = RenderState { out: out@, pos: *pos, table: table@ };
            print_children(a, out, pos, table, rest, i, ind, gmode, width);
            proof {
                let stspec = match id {
                    Some(g) => if g < st0.table.len() {
                        RenderState {
                            table: st0.table.update(
                                g as int,
                                Some(gmode == Mode::Break),
                            ),
                            ..st0
                        }
                    } else {
                        st0
                    },
                    None => st0,
                };
                assert(st2 =~= stspec);
            }
        },
        DocKind::Fill(_) => {
            print_fill(a, out, pos, table, rest, i, ind, mode, width);
        },
    }
}

/// Renders the children of `i` in order, keeping a frame for the pending
/// siblings while inside each child; proved equal to the specification.
fn print_children(
    a: &DocArena,
    out: &mut Vec<u8>,
    pos: &mut usize,
    table: &mut Vec<Option<bool>>,
    rest: &mut Vec<RestFrame>,
    i: usize,
    ind: usize,
    mode: Mode,
    width: usize,
)
    requires
        arena_wf(*a),
        i < a.docs@.len(),
        frames_wf(*a, old(rest)@),
    ensures
        final(rest)@ == old(rest)@,
        ({
            let st = spec_render_children(
                *a,
                (RenderState { out: old(out)@, pos: *old(pos), table: old(table)@ }),
                old(rest)@,
                i as int,
                ind,
                mode,
                width,
                0,
            );
            final(out)@ == st.out && *final(pos) == st.pos && final(table)@ == st.table
        }),
    decreases i, 0int,
{
    proof {
        assert(doc_wf(a.docs@[i as int], i as int));
    }
    let ghost rest0 = rest@;
    let ghost st0 = RenderState { out: out@, pos: *pos, table: table@ };
    let n = doc_child_count(a, i);
    let mut k: usize = 0;
    while k < n
        invariant
            arena_wf(*a),
            i < a.docs@.len(),
            n == doc_children(a.docs@[i as int]).len(),
            k <= n,
            rest@ == rest0,
            frames_wf(*a, rest0),
            spec_render_children(*a, st0, rest0, i as int, ind, mode, width, 0)
                == spec_render_children(
                *a,
                (RenderState { out: out@, pos: *pos, table: table@ }),
                rest0,
                i as int,
                ind,
                mode,
                width,
                k as int,
            ),
        decreases n - k,
    {
        let ghost stc = RenderState { out: out@, pos: *pos, table: table@ };
        let c = doc_child_at(a, i, k);
        rest.push(RestFrame { ind, mode, doc: i, from: k + 1 });
        proof {
            assert(forall|f: int| 0 <= f < rest0.len() ==> rest@[f] == rest0[f]);
        }
        print_node(a, out, pos, table, rest, c, ind, mode, width);
        let _ = rest.pop();
        proof {
            assert(rest@ =~= rest0);
            let fr = RestFrame { ind, mode, doc: i, from: (k + 1) as usize };
            let stn = spec_render_node(
                *a,
                stc,
                rest0.push(fr),
                c as int,
                ind,
                mode,
                width,
            );
            assert((RenderState { out: out@, pos: *pos, table: table@ }) =~= stn);
        }
        k += 1;
    }
}

/// Renders a fill: content/separator pairs, each deciding independently
/// whether it fits flat on the remaining width; proved equal to the
/// specification.
fn print_fill(
    a: &DocArena,
    out: &mut Vec<u8>,
    pos: &mut usize,
    table: &mut Vec<Option<bool>>,
    rest: &mut Vec<RestFrame>,
    i: usize,
    ind: usize,
    mode: Mode,
    width: usize,
)
    requires
        arena_wf(*a),
        i < a.docs@.len(),
        frames_wf(*a, old(rest)@),
    ensures
        final(rest)@ == old(rest)@,
        ({
            let st = spec_render_fill(
                *a,
                (RenderState { out: old(out)@, pos: *old(pos), table: old(table)@ }),
                old(rest)@,
                i as int,
                ind,
                mode,
                width,
                0,
            );
            final(out)@ == st.out && *final(pos) == st.pos && final(table)@ == st.table
        }),
    decreases i, 0int,
{
    proof {
        assert(doc_wf(a.docs@[i as int], i as int));
    }
    let ghost rest0 = rest@;
    let ghost st0 = RenderState { out: out@, pos: *pos, table: table@ };
    let n = doc_child_count(a, i);
    let mut from: usize = 0;
    while from < n
        invariant
            arena_wf(*a),
            i < a.docs@.len(),
            n == doc_children(a.docs@[i as int]).len(),
            from <= n,
            rest@ == rest0,
            frames_wf(*a, rest0),
            spec_render_fill(*a, st0, rest0, i as int, ind, mode, width, 0)
                == spec_render_fill(
                *a,
                (RenderState { out: out@, pos: *pos, table: table@ }),
                rest0,
                i as int,
                ind,
                mode,
                width,
                from as int,
            ),
        decreases n - from,
    {
        let ghost stc = RenderState { out: out@, pos: *pos, table: table@ };
        let rem = if *pos >= width {
            0
        } else {
            width - *pos
        };
        let content = doc_child_at(a, i, from);
        let content_fits = match fits_doc(a, content, Mode::Flat, table, rem) {
            FitOutcome::Overflow => false,
            _ => true,
        };
        if from + 1 >= n {
            let m = if content_fits {
                Mode::Flat
            } else {
                Mode::Break
            };
            rest.push(RestFrame { ind, mode, doc: i, from: from + 1 });
            proof {
                assert(forall|f: int| 0 <= f < rest0.len() ==> rest@[f] == rest0[f]);
            }
            print_node(a, out, pos, table, rest, content, ind, m, width);
            let _ = rest.pop();
            proof {
                assert(rest@ =~= rest0);
                let fr = RestFrame { ind, mode, doc: i, from: (from + 1) as usize };
                let stn = spec_render_node(
                    *a,
                    stc,
                    rest0.push(fr),
                    content as int,
                    ind,
                    m,
                    width,
                );
                assert((RenderState { out: out@, pos: *pos, table: table@ }) =~= stn);
            }
            from = from + 1;
        } else {
            let sep = doc_child_at(a, i, from + 1);
            let pair_fits = if from + 2 >= n {
                content_fits
            } else {
                let second = doc_child_at(a, i, from + 2);
                match fits_doc(a, content, Mode::Flat, table, rem) {
                    FitOutcome::Fits(r1) => match fits_doc(a, sep, Mode::Flat, table, r1) {
                        FitOutcome::Fits(r2) => match fits_doc(
                            a,
                            second,
                            Mode::Flat,
                            table,
                            r2,
                        ) {
                            FitOutcome::Overflow => false,
                            _ => true,
                        },
                        FitOutcome::LineEnd => true,
                        FitOutcome::Overflow => false,
                    },
                    FitOutcome::LineEnd => true,
                    FitOutcome::Overflow => false,
                }
            };
            let cm = if pair_fits || content_fits {
                Mode::Flat
            } else {
                Mode::Break
            };
            let sm = if pair_fits {
                Mode::Flat
            } else {
                Mode::Break
            };
            rest.push(RestFrame { ind, mode, doc: i, from: from + 1 });
            proof {
                assert(forall|f: int| 0 <= f < rest0.len() ==> rest@[f] == rest0[f]);
            }
            print_node(a, out, pos, table, rest, content, ind, cm, width);
            let _ = rest.pop();
            proof {
                assert(rest@ =~= rest0);
            }
            let ghost stmid = RenderState { out: out@, pos: *pos, table: table@ };
            rest.push(RestFrame { ind, mode, doc: i, from: from + 2 });
            proof {
                assert(forall|f: int| 0 <= f < rest0.len() ==> rest@[f] == rest0[f]);
            }
            print_node(a, out, pos, table, rest, sep, ind, sm, width);
            let _ = rest.pop();
            proof {
                assert(rest@ =~= rest0);
                let fr1 = RestFrame { ind, mode, doc: i, from: (from + 1) as usize };
                let fr2 = RestFrame { ind, mode, doc: i, from: (from + 2) as usize };
                let st2 = spec_render_node(
                    *a,
                    stc,
                    rest0.push(fr1),
                    content as int,
                    ind,
                    cm,
                    width,
                );
                assert(stmid =~= st2);
                let st3 = spec_render_node(*a, st2, rest0.push(fr2), sep as int, ind, sm, width);
                assert((RenderState { out: out@, pos: *pos, table: table@ }) =~= st3);
            }
            from = from + 2;
        }
    }
}

/// Renders the doc rooted at `root` into a byte buffer. The output is
/// exactly the specification-level rendering: every hard line a newline at
/// the current indentation, every group resolved flat only when its
/// flattened content plus the rest of the line fits `width`, fills packed
/// pair by pair, and conditional texts following the recorded break
/// states.
pub fn print(a: &DocArena, root: usize, width: usize) -> (out: Vec<u8>)
    requires
        arena_wf(*a),
        root < a.docs@.len(),
    ensures
        out@ == spec_print(*a, root as int, width),
{
    let mut out: Vec<u8> = Vec::new();
    let mut pos: usize = 0;
    let mut table: Vec<Option<bool>> = Vec::new();
    let n = a.next_id as usize;
    let mut j: usize = 0;
    while j < n
        invariant
            j <= n,
            table@.len() == j,
            forall|idx: int| 0 <= idx < j ==> table@[idx] is None,
        decreases n - j,
    {
        table.push(None);
        j += 1;
    }
    proof {
        assert(table@ =~= fresh_table(*a));
    }
    let mut rest: Vec<RestFrame> = Vec::new();
    print_node(a, &mut out, &mut pos, &mut table, &mut rest, root, 0, Mode::Break, width);
    out
}

/// The group identifiers a doc's width test can consult: those named by
/// the conditional texts inside it.
pub open spec fn doc_ref_ids(a: DocArena, i: int) -> Set<u32>
    decreases i, 1int, 0int,
{
    match a.docs@[i] {
        DocKind::IfBreak { group_id: Some(g), .. } => Set::empty().insert(g),
        d => list_ref_ids(a, doc_children(d), i),
    }
}

pub open spec fn list_ref_ids(a: DocArena, ids: Seq<usize>, bound: int) -> Set<u32>
    decreases bound, 0int, ids.len(),
{
    if ids.len() == 0 {
        Set::empty()
    } else {
        let head = if 0 <= ids[0] < bound {
            doc_ref_ids(a, ids[0] as int)
        } else {
            Set::empty()
        };
        head.union(list_ref_ids(a, ids.drop_first(), bound))
    }
}

proof fn lemma_list_ref_sub(a: DocArena, ids: Seq<usize>, bound: int, k: int)
    requires
        0 <= k < ids.len(),
        0 <= ids[k] < bound,
    ensures
        doc_ref_ids(a, ids[k] as int).subset_of(list_ref_ids(a, ids, bound)),
    decreases k,
{
    if k == 0 {
    } else {
        assert(ids.drop_first()[k - 1] == ids[k]);
        lemma_list_ref_sub(a, ids.drop_first(), bound, k - 1);
    }
}

/// Group independence: the width computation that resolves a group reads
/// only the doc itself and the break states of the groups its conditional
/// texts name. Two state tables that agree on those identifiers give the
/// same outcome, so resolving any group outside the doc — in particular a
/// sibling that does not nest it — never changes the doc's own
/// flat-rendering length computation.
pub proof fn lemma_fits_table_independent(
    a: DocArena,
    i: int,
    mode: Mode,
    t1: Seq<Option<bool>>,
    t2: Seq<Option<bool>>,
    rem: usize,
)
    requires
        forall|g: u32| doc_ref_ids(a, i).contains(g) ==> table_get(t1, g) == table_get(t2, g),
    ensures
        spec_fits_doc(a, i, mode, t1, rem) == spec_fits_doc(a, i, mode, t2, rem),
    decreases i, 1int, 0int,
{
    match a.docs@[i] {
        DocKind::IfBreak { group_id, .. } => {
            match group_id {
                Some(g) => {
                    assert(doc_ref_ids(a, i).contains(g));
                },
                None => {},
            }
        },
        DocKind::Array(cs) => {
            lemma_fits_list_table_independent(a, cs@, 0, mode, t1, t2, rem, i);
        },
        DocKind::Indent(cs) => {
            lemma_fits_list_table_independent(a, cs@, 0, mode, t1, t2, rem, i);
        },
        DocKind::Group { parts, should_break, .. } => {
            let m2 = if should_break || spec_has_hard_list(a, parts@, i) {
                Mode::Break
            } else {
                mode
            };
            lemma_fits_list_table_independent(a, parts@, 0, m2, t1, t2, rem, i);
        },
        DocKind::Fill(cs) => {
            lemma_fits_list_table_independent(a, cs@, 0, mode, t1, t2, rem, i);
        },
        _ => {},
    }
}

proof fn lemma_fits_list_table_independent(
    a: DocArena,
    ids: Seq<usize>,
    from: int,
    mode: Mode,
    t1: Seq<Option<bool>>,
    t2: Seq<Option<bool>>,
    rem: usize,
    bound: int,
)
    requires
        forall|g: u32|
            list_ref_ids(a, ids, bound).contains(g) ==> table_get(t1, g) == table_get(t2, g),
    ensures
        spec_fits_list(a, ids, from, mode, t1, rem, bound) == spec_fits_list(
            a,
            ids,
            from,
            mode,
            t2,
            rem,
            bound,
        ),
    decreases bound, 0int, ids.len() - from,
{
    if 0 <= from < ids.len() {
        if 0 <= ids[from] < bound {
            lemma_list_ref_sub(a, ids, bound, from);
            lemma_fits_table_independent(a, ids[from] as int, mode, t1, t2, rem);
        }
        let o = if 0 <= ids[from] < bound {
            spec_fits_doc(a, ids[from] as int, mode, t1, rem)
        } else {
            FitOutcome::Fits(rem)
        };
        match o {
            FitOutcome::Fits(r) => {
                lemma_fits_list_table_independent(a, ids, from + 1, mode, t1, t2, r, bound);
            },
            _ => {},
        }
    }
}

/// The width test only spends budget: when a doc fits with `r` columns
/// left, it consumed `rem - r` of the `rem` it was given. Together with
/// the group rule — a group stays flat only when this test accepts its
/// flattened content followed by everything still pending on the line —
/// this bounds what a flat-resolved region may place on the current line.
pub proof fn lemma_fits_spends_budget(
    a: DocArena,
    i: int,
    mode: Mode,
    table: Seq<Option<bool>>,
    rem: usize,
)
    ensures
        (spec_fits_doc(a, i, mode, table, rem) matches FitOutcome::Fits(r) ==> r <= rem),
    decreases i, 1int, 0int,
{
    match a.docs@[i] {
        DocKind::Array(cs) => {
            lemma_fits_list_spends_budget(a, cs@, 0, mode, table, rem, i);
        },
        DocKind::Indent(cs) => {
            lemma_fits_list_spends_budget(a, cs@, 0, mode, table, rem, i);
        },
        DocKind::Group { parts, should_break, .. } => {
            let m2 = if should_break || spec_has_hard_list(a, parts@, i) {
                Mode::Break
            } else {
                mode
            };
            lemma_fits_list_spends_budget(a, parts@, 0, m2, table, rem, i);
        },
        DocKind::Fill(cs) => {
            lemma_fits_list_spends_budget(a, cs@, 0, mode, table, rem, i);
        },
        _ => {},
    }
}

proof fn lemma_fits_list_spends_budget(
    a: DocArena,
    ids: Seq<usize>,
    from: int,
    mode: Mode,
    table: Seq<Option<bool>>,
    rem: usize,
    bound: int,
)
    ensures
        (spec_fits_list(a, ids, from, mode, table, rem, bound) matches FitOutcome::Fits(r) ==> r
            <= rem),
    decreases bound, 0int, ids.len() - from,
{
    if 0 <= from < ids.len() {
        if 0 <= ids[from] < bound {
            lemma_fits_spends_budget(a, ids[from] as int, mode, table, rem);
        }
        let o = if 0 <= ids[from] < bound {
            spec_fits_doc(a, ids[from] as int, mode, table, rem)
        } else {
            FitOutcome::Fits(rem)
        };
        match o {
            FitOutcome::Fits(r) => {
                lemma_fits_list_spends_budget(a, ids, from + 1, mode, table, r, bound);
            },
            _ => {},
        }
    }
}

proof fn lemma_list_ref_ids_exists(a: DocArena, ids: Seq<usize>, bound: int, g: u32)
    ensures
        list_ref_ids(a, ids, bound).contains(g) == exists|k: int|
            0 <= k < ids.len() && 0 <= ids[k] < bound && doc_ref_ids(
                a,
                #[trigger] ids[k] as int,
            ).contains(g),
    decreases bound, 0int, ids.len(),
{
    if ids.len() > 0 {
        lemma_list_ref_ids_exists(a, ids.drop_first(), bound, g);
        if list_ref_ids(a, ids, bound).contains(g) {
            if 0 <= ids[0] < bound && doc_ref_ids(a, ids[0] as int).contains(g) {
                assert(0 <= ids[0] < bound && doc_ref_ids(a, ids[0] as int).contains(g));
            } else {
                let k = choose|k: int|
                    0 <= k < ids.drop_first().len() && 0 <= ids.drop_first()[k] < bound
                        && doc_ref_ids(a, #[trigger] ids.drop_first()[k] as int).contains(g);
                assert(ids[k + 1] == ids.drop_first()[k]);
                assert(doc_ref_ids(a, ids[k + 1] as int).contains(g));
            }
        }
        if exists|k: int|
            0 <= k < ids.len() && 0 <= ids[k] < bound && doc_ref_ids(
                a,
                #[trigger] ids[k] as int,
            ).contains(g) {
            let k = choose|k: int|
                0 <= k < ids.len() && 0 <= ids[k] < bound && doc_ref_ids(
                    a,
                    #[trigger] ids[k] as int,
                ).contains(g);
            if k > 0 {
                assert(ids.drop_first()[k - 1] == ids[k]);
            }
        }
    }
}

/// The identifiers a doc's width test can consult are exactly those its
/// view names: the arena-level and model-level reference sets agree.
pub proof fn lemma_ref_ids_are_model_refs(a: DocArena, i: int, g: u32)
    requires
        arena_wf(a),
        0 <= i < a.docs@.len(),
    ensures
        doc_ref_ids(a, i).contains(g) == model_refs(doc_model(a, i), g),
    decreases i, 1int, 0int,
{
    assert(doc_wf(a.docs@[i], i));
    let d = a.docs@[i];
    let ch = doc_children(d);
    lemma_list_ref_ids_exists(a, ch, i, g);
    crate::doc::lemma_below_len(a, ch, i);
    assert forall|k: int| 0 <= k < ch.len() implies (doc_ref_ids(a, ch[k] as int).contains(g)
        == model_refs(#[trigger] doc_models_below(a, ch, i)[k], g)) by {
        crate::doc::lemma_below_index(a, ch, i, k);
        lemma_ref_ids_are_model_refs(a, ch[k] as int, g);
    }
    match d {
        DocKind::IfBreak { group_id, .. } => {
            match group_id {
                Some(g2) => {
                    assert(doc_ref_ids(a, i) == Set::empty().insert(g2));
                    assert(doc_ref_ids(a, i).contains(g) == (g == g2));
                    assert(model_refs(doc_model(a, i), g) == (g2 == g));
                },
                None => {
                    assert(doc_ref_ids(a, i) == list_ref_ids(a, Seq::empty(), i));
                    assert(!list_ref_ids(a, Seq::empty(), i).contains(g));
                    assert(!model_refs(doc_model(a, i), g));
                },
            }
        },
        DocKind::Text(_) => {
            assert(!list_ref_ids(a, Seq::empty(), i).contains(g));
            assert(!model_refs(doc_model(a, i), g));
        },
        DocKind::Line => {
            assert(!list_ref_ids(a, Seq::empty(), i).contains(g));
            assert(!model_refs(doc_model(a, i), g));
        },
        DocKind::SoftLine => {
            assert(!list_ref_ids(a, Seq::empty(), i).contains(g));
            assert(!model_refs(doc_model(a, i), g));
        },
        DocKind::HardLine => {
            assert(!list_ref_ids(a, Seq::empty(), i).contains(g));
            assert(!model_refs(doc_model(a, i), g));
        },
        DocKind::Array(_) => {
            let parts = doc_models_below(a, ch, i);
            assert(doc_model(a, i) == DocModel::Array(parts));
            if doc_ref_ids(a, i).contains(g) {
                let k = choose|k: int|
                    0 <= k < ch.len() && 0 <= ch[k] < i && doc_ref_ids(
                        a,
                        #[trigger] ch[k] as int,
                    ).contains(g);
                assert(0 <= k < parts.len() && model_refs(parts[k], g));
                let m = DocModel::Array(parts);
                assert(m->Array_0 == parts);
                assert(model_refs(m, g));
            }
            if model_refs(doc_model(a, i), g) {
                let k = choose|k: int|
                    0 <= k < parts.len() && model_refs(#[trigger] parts[k], g);
                assert(doc_ref_ids(a, ch[k] as int).contains(g));
                assert(doc_ref_ids(a, i).contains(g));
            }
        },
        DocKind::Indent(_) => {
            let parts = doc_models_below(a, ch, i);
            assert(doc_model(a, i) == DocModel::Indent(parts));
            if doc_ref_ids(a, i).contains(g) {
                let k = choose|k: int|
                    0 <= k < ch.len() && 0 <= ch[k] < i && doc_ref_ids(
                        a,
                        #[trigger] ch[k] as int,
                    ).contains(g);
                assert(0 <= k < parts.len() && model_refs(parts[k], g));
                let m = DocModel::Indent(parts);
                assert(m->Indent_0 == parts);
                assert(model_refs(m, g));
            }
            if model_refs(doc_model(a, i), g) {
                let k = choose|k: int|
                    0 <= k < parts.len() && model_refs(#[trigger] parts[k], g);
                assert(doc_ref_ids(a, ch[k] as int).contains(g));
                assert(doc_ref_ids(a, i).contains(g));
            }
        },
        DocKind::Group { should_break, id, .. } => {
            let parts = doc_models_below(a, ch, i);
            assert(doc_model(a, i) == (DocModel::Group { parts, should_break, id }));
            if doc_ref_ids(a, i).contains(g) {
                let k = choose|k: int|
                    0 <= k < ch.len() && 0 <= ch[k] < i && doc_ref_ids(
                        a,
                        #[trigger] ch[k] as int,
                    ).contains(g);
                assert(0 <= k < parts.len() && model_refs(parts[k], g));
                let m = (DocModel::Group { parts, should_break, id });
                assert(m->Group_parts == parts);
                assert(model_refs(m, g));
            }
            if model_refs(doc_model(a, i), g) {
                let k = choose|k: int|
                    0 <= k < parts.len() && model_refs(#[trigger] parts[k], g);
                assert(doc_ref_ids(a, ch[k] as int).contains(g));
                assert(doc_ref_ids(a, i).contains(g));
            }
        },
        DocKind::Fill(_) => {
            let parts = doc_models_below(a, ch, i);
            assert(doc_model(a, i) == DocModel::Fill(parts));
            if doc_ref_ids(a, i).contains(g) {
                let k = choose|k: int|
                    0 <= k < ch.len() && 0 <= ch[k] < i && doc_ref_ids(
                        a,
                        #[trigger] ch[k] as int,
                    ).contains(g);
                assert(0 <= k < parts.len() && model_refs(parts[k], g));
                let m = DocModel::Fill(parts);
                assert(m->Fill_0 == parts);
                assert(model_refs(m, g));
            }
            if model_refs(doc_model(a, i), g) {
                let k = choose|k: int|
                    0 <= k < parts.len() && model_refs(#[trigger] parts[k], g);
                assert(doc_ref_ids(a, ch[k] as int).contains(g));
                assert(doc_ref_ids(a, i).contains(g));
            }
        },
    }
}

} // verus!
