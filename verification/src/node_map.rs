//! What the node map decides without drawing: which files stand beside a
//! focused one, and the badge a file carries.

use vstd::prelude::*;

use crate::graph::{edge_views, EdgeModel};
use crate::model::{EdgeKind, FileId, SpecFile, Specbase};

verus! {

/// Strictly increasing, hence without repeats.
pub open spec fn ids_sorted(s: Seq<usize>) -> bool {
    forall|i: int, j: int| 0 <= i < j < s.len() ==> #[trigger] s[i] < #[trigger] s[j]
}

/// The files that edges from `file` point at, `file` itself aside.
pub open spec fn points_at(edges: Seq<EdgeModel>, file: nat, t: nat) -> bool {
    exists|k: int|
        0 <= k < edges.len() && (#[trigger] edges[k]).from.file == file && edges[k].to.file != file
            && edges[k].to.file == t
}

/// The files whose edges point at `file`, `file` itself aside.
pub open spec fn pointed_from(edges: Seq<EdgeModel>, file: nat, t: nat) -> bool {
    exists|k: int|
        0 <= k < edges.len() && (#[trigger] edges[k]).to.file == file && edges[k].from.file != file
            && edges[k].from.file == t
}

/// Adds `x` to a strictly increasing list, unless it is there already.
fn insert_id(v: &mut Vec<usize>, x: usize)
    requires
        ids_sorted(old(v)@),
    ensures
        ids_sorted(final(v)@),
        forall|y: usize| final(v)@.contains(y) <==> (old(v)@.contains(y) || y == x),
{
    let ghost before = v@;
    let mut p: usize = 0;
    while p < v.len() && v[p] < x
        invariant
            p <= v@.len(),
            before == v@,
            forall|j: int| 0 <= j < p ==> #[trigger] before[j] < x,
        decreases v@.len() - p,
    {
        p += 1;
    }
    if p < v.len() && v[p] == x {
        assert(v@[p as int] == x);
        assert(v@.contains(x));
        return;
    }
    v.insert(p, x);
    assert(v@ =~= before.insert(p as int, x));
    assert forall|i: int, j: int| 0 <= i < j < v@.len() implies #[trigger] v@[i] < #[trigger] v@[j] by {
        if j < p {
            assert(before[i] < before[j]);
        } else if j == p {
            assert(before[i] < x);
        } else if i == p {
            assert(x < before[p as int]);
            if j > p + 1 {
                assert(before[p as int] < before[j - 1]);
            }
        } else if i < p {
            assert(before[i] < before[j - 1]);
        } else {
            assert(before[i - 1] < before[j - 1]);
        }
    }
    assert forall|y: usize| #[trigger] v@.contains(y) implies before.contains(y) || y == x by {
        let k = choose|k: int| 0 <= k < v@.len() && v@[k] == y;
        if k < p {
            assert(before[k] == y);
        } else if k > p {
            assert(before[k - 1] == y);
        }
    }
    assert forall|y: usize| before.contains(y) || y == x implies #[trigger] v@.contains(y) by {
        if y == x {
            assert(v@[p as int] == y);
        } else {
            let k = choose|k: int| 0 <= k < before.len() && before[k] == y;
            if k < p {
                assert(v@[k] == y);
            } else {
                assert(v@[k + 1] == y);
            }
        }
    }
}

/// Whether a strictly increasing list holds `x`.
fn holds_id(v: &Vec<usize>, x: usize) -> (r: bool)
    ensures
        r == v@.contains(x),
{
    let mut k: usize = 0;
    while k < v.len()
        invariant
            k <= v@.len(),
            forall|j: int| 0 <= j < k ==> v@[j] != x,
        decreases v@.len() - k,
    {
        if v[k] == x {
            return true;
        }
        k += 1;
    }
    false
}

/// The files that point at `file`, and the files `file` points at, each in
/// order and once. A file on both sides is only reported as outgoing, so it
/// is laid out once.
pub fn neighbours(specbase: &Specbase, file: FileId) -> (r: (Vec<FileId>, Vec<FileId>))
    ensures
        ids_sorted(r.0@),
        ids_sorted(r.1@),
        forall|t: usize|
            r.1@.contains(t) <==> points_at(edge_views(specbase.edges@), file as nat, t as nat),
        forall|t: usize|
            r.0@.contains(t) <==> (pointed_from(edge_views(specbase.edges@), file as nat, t as nat)
                && !points_at(edge_views(specbase.edges@), file as nat, t as nat)),
        forall|t: usize| r.0@.contains(t) ==> !r.1@.contains(t),
        !r.0@.contains(file),
        !r.1@.contains(file),
{
    let ghost es = edge_views(specbase.edges@);
    let mut incoming: Vec<FileId> = Vec::new();
    let mut outgoing: Vec<FileId> = Vec::new();
    let mut k: usize = 0;
    while k < specbase.edges.len()
        invariant
            k <= specbase.edges@.len(),
            es == edge_views(specbase.edges@),
            ids_sorted(incoming@),
            ids_sorted(outgoing@),
            forall|t: usize|
                outgoing@.contains(t) <==> points_at(es.take(k as int), file as nat, t as nat),
            forall|t: usize|
                incoming@.contains(t) <==> pointed_from(es.take(k as int), file as nat, t as nat),
        decreases specbase.edges@.len() - k,
    {
        let e = specbase.edges[k];
        let ghost prefix = es.take(k as int);
        let ghost next = es.take(k + 1);
        assert(next =~= prefix.push(e@));
        if e.from.file == file && e.to.file != file {
            insert_id(&mut outgoing, e.to.file);
        } else if e.to.file == file && e.from.file != file {
            insert_id(&mut incoming, e.from.file);
        }
        assert forall|t: usize| outgoing@.contains(t) <==> points_at(next, file as nat, t as nat) by {
            if points_at(next, file as nat, t as nat) {
                let q = choose|q: int|
                    0 <= q < next.len() && (#[trigger] next[q]).from.file == file && next[q].to.file != file
                        && next[q].to.file == t;
                if q < prefix.len() {
                    assert(prefix[q] == next[q]);
                }
            }
            if points_at(prefix, file as nat, t as nat) {
                let q = choose|q: int|
                    0 <= q < prefix.len() && (#[trigger] prefix[q]).from.file == file && prefix[q].to.file
                        != file && prefix[q].to.file == t;
                assert(next[q] == prefix[q]);
            }
            if e.from.file == file && e.to.file != file && t == e.to.file {
                assert(next[k as int] == e@);
            }
        }
        assert forall|t: usize| incoming@.contains(t) <==> pointed_from(next, file as nat, t as nat) by {
            if pointed_from(next, file as nat, t as nat) {
                let q = choose|q: int|
                    0 <= q < next.len() && (#[trigger] next[q]).to.file == file && next[q].from.file != file
                        && next[q].from.file == t;
                if q < prefix.len() {
                    assert(prefix[q] == next[q]);
                }
            }
            if pointed_from(prefix, file as nat, t as nat) {
                let q = choose|q: int|
                    0 <= q < prefix.len() && (#[trigger] prefix[q]).to.file == file && prefix[q].from.file
                        != file && prefix[q].from.file == t;
                assert(next[q] == prefix[q]);
            }
            if e.to.file == file && e.from.file != file && t == e.from.file {
                assert(next[k as int] == e@);
            }
        }
        k += 1;
    }
    assert(es.take(specbase.edges@.len() as int) =~= es);
    let mut kept: Vec<FileId> = Vec::new();
    let mut j: usize = 0;
    while j < incoming.len()
        invariant
            j <= incoming@.len(),
            ids_sorted(incoming@),
            ids_sorted(kept@),
            forall|i: int| 0 <= i < kept@.len() ==> exists|q: int| 0 <= q < j && incoming@[q] == #[trigger] kept@[i],
            forall|t: usize|
                kept@.contains(t) <==> (exists|q: int| 0 <= q < j && incoming@[q] == t) && !outgoing@.contains(t),
        decreases incoming@.len() - j,
    {
        let id = incoming[j];
        let ghost before = kept@;
        if !holds_id(&outgoing, id) {
            proof {
                assert forall|i: int| 0 <= i < before.len() implies #[trigger] before[i] < id by {
                    let q = choose|q: int| 0 <= q < j && incoming@[q] == before[i];
                    assert(incoming@[q] < incoming@[j as int]);
                }
            }
            kept.push(id);
            assert forall|a: int, b: int| 0 <= a < b < kept@.len() implies #[trigger] kept@[a] < #[trigger] kept@[b] by {
                if b < before.len() {
                    assert(before[a] < before[b]);
                }
            }
            assert forall|t: usize| kept@.contains(t) <==> before.contains(t) || t == id by {
                if kept@.contains(t) {
                    let q = choose|q: int| 0 <= q < kept@.len() && kept@[q] == t;
                    if q < before.len() {
                        assert(before[q] == t);
                    }
                }
                if before.contains(t) {
                    let q = choose|q: int| 0 <= q < before.len() && before[q] == t;
                    assert(kept@[q] == t);
                }
                if t == id {
                    assert(kept@[before.len() as int] == t);
                }
            }
        }
        assert forall|i: int| 0 <= i < kept@.len() implies exists|q: int| 0 <= q < j + 1 && incoming@[q] == #[trigger] kept@[i] by {
            if i < before.len() {
                assert(kept@[i] == before[i]);
                let q = choose|q: int| 0 <= q < j && incoming@[q] == before[i];
                assert(incoming@[q] == kept@[i]);
            } else {
                assert(incoming@[j as int] == kept@[i]);
            }
        }
        assert forall|t: usize| kept@.contains(t) <==> (exists|q: int| 0 <= q < j + 1 && incoming@[q] == t) && !outgoing@.contains(t) by {
            if exists|q: int| 0 <= q < j + 1 && incoming@[q] == t {
                let q = choose|q: int| 0 <= q < j + 1 && incoming@[q] == t;
                if q < j {
                    assert(exists|q2: int| 0 <= q2 < j && incoming@[q2] == t);
                }
            }
            if kept@.contains(t) && before.contains(t) {
                assert(exists|q2: int| 0 <= q2 < j && incoming@[q2] == t);
            }
        }
        j += 1;
    }
    proof {
        if pointed_from(es, file as nat, file as nat) {
            let q = choose|q: int|
                0 <= q < es.len() && (#[trigger] es[q]).to.file == file && es[q].from.file != file
                    && es[q].from.file == file;
        }
        if points_at(es, file as nat, file as nat) {
            let q = choose|q: int|
                0 <= q < es.len() && (#[trigger] es[q]).from.file == file && es[q].to.file != file
                    && es[q].to.file == file;
        }
        assert forall|t: usize| kept@.contains(t) <==> (incoming@.contains(t) && !outgoing@.contains(t)) by {
            if incoming@.contains(t) {
                let q = choose|q: int| 0 <= q < incoming@.len() && incoming@[q] == t;
                assert(exists|q2: int| 0 <= q2 < incoming@.len() && incoming@[q2] == t);
            }
        }
    }
    (kept, outgoing)
}

/// How a file's node is outlined.
#[derive(Debug, Clone, Copy, PartialEq, Eq, Structural)]
pub enum Outline {
    /// Selected, or the node the canvas is focused on.
    Selected,
    Hovered,
    /// Not reached from the project's entry point.
    Unreached,
    Plain,
}

/// A node's outline, and whether it is drawn dashed.
#[derive(Debug, Clone, Copy, PartialEq, Eq, Structural)]
pub struct NodeOutline {
    pub outline: Outline,
    pub dashed: bool,
}

/// The outline of `file`'s node: selection and focus first, then the
/// pointer, then whether the file is reached; only an unreached node that is
/// neither selected nor under the pointer is dashed.
pub open spec fn outline_spec(
    selected: Option<usize>,
    focused: Option<usize>,
    hovered: Option<usize>,
    file: usize,
    reached: bool,
) -> NodeOutline {
    let is_selected = selected == Some(file) || focused == Some(file);
    let is_hovered = hovered == Some(file);
    NodeOutline {
        outline: if is_selected {
            Outline::Selected
        } else if is_hovered {
            Outline::Hovered
        } else if !reached {
            Outline::Unreached
        } else {
            Outline::Plain
        },
        dashed: !(reached || is_selected || is_hovered),
    }
}

pub fn node_outline(
    selected: Option<usize>,
    focused: Option<usize>,
    hovered: Option<usize>,
    file: usize,
    reached: bool,
) -> (r: NodeOutline)
    ensures
        r == outline_spec(selected, focused, hovered, file, reached),
{
    let is_selected = match (selected, focused) {
        (Some(s), _) if s == file => true,
        (_, Some(f)) if f == file => true,
        _ => false,
    };
    let is_hovered = match hovered {
        Some(h) => h == file,
        None => false,
    };
    let outline = if is_selected {
        Outline::Selected
    } else if is_hovered {
        Outline::Hovered
    } else if !reached {
        Outline::Unreached
    } else {
        Outline::Plain
    };
    NodeOutline { outline, dashed: !(reached || is_selected || is_hovered) }
}

/// The badge a file's node carries: the configuration file, or the entry.
pub fn badge_text(file: &SpecFile) -> (r: Option<&'static str>)
    ensures
        file.is_config ==> (r matches Some(s) && s@ == "config"@),
        !file.is_config && file.is_entry ==> (r matches Some(s) && s@ == "entry"@),
        !file.is_config && !file.is_entry ==> r is None,
{
    proof {
        reveal_strlit("config");
        reveal_strlit("entry");
    }
    if file.is_config {
        Some("config")
    } else if file.is_entry {
        Some("entry")
    } else {
        None
    }
}

// ------------------------------------------------------------ the canvas

/// What the pointer and the keys change on the canvas: the selected node,
/// the node being dragged, and whether the canvas is focused on a node.
#[derive(Debug, Clone, Copy, PartialEq, Eq, Structural)]
pub struct CanvasState {
    pub selected: Option<usize>,
    pub dragging: Option<usize>,
    pub focused: bool,
}

/// Something the pointer or the keys did; `hit` is the node under the
/// pointer, if any.
#[derive(Debug, Clone, Copy, PartialEq, Eq, Structural)]
pub enum CanvasEvent {
    Click { hit: Option<usize> },
    DoubleClick { hit: Option<usize> },
    /// A drag begins, with the primary button or another one.
    DragStart { primary: bool, hit: Option<usize> },
    DragStop,
    Escape,
}

/// What the canvas does besides changing its state.
#[derive(Debug, Clone, Copy, PartialEq, Eq, Structural)]
pub enum CanvasAction {
    Nothing,
    /// Focus on a node, or leave the focus with `None`.
    Focus(Option<usize>),
    /// Frame everything that is drawn.
    FitAll,
}

/// Focusing on a node selects it; focusing or leaving the focus lets go of
/// any node being dragged.
pub open spec fn focus_state(state: CanvasState, file: Option<usize>) -> CanvasState {
    CanvasState {
        selected: match file {
            Some(f) => Some(f),
            None => state.selected,
        },
        dragging: None,
        focused: file is Some,
    }
}

/// A click selects what it hits, the background selecting nothing. Only a
/// drag with the primary button picks a node up; any other drag pans the
/// canvas. A double click on a node focuses on it; on the background it
/// leaves the focus, or frames everything when there is none. Escape leaves
/// the focus.
pub open spec fn canvas_step_spec(state: CanvasState, event: CanvasEvent) -> (CanvasState, CanvasAction) {
    match event {
        CanvasEvent::Click { hit } => (CanvasState { selected: hit, ..state }, CanvasAction::Nothing),
        CanvasEvent::DragStart { primary, hit } => (
            CanvasState { dragging: if primary { hit } else { None }, ..state },
            CanvasAction::Nothing,
        ),
        CanvasEvent::DragStop => (CanvasState { dragging: None, ..state }, CanvasAction::Nothing),
        CanvasEvent::DoubleClick { hit } => match hit {
            Some(f) => (focus_state(state, Some(f)), CanvasAction::Focus(Some(f))),
            None => if state.focused {
                (focus_state(state, None), CanvasAction::Focus(None))
            } else {
                (state, CanvasAction::FitAll)
            },
        },
        CanvasEvent::Escape => if state.focused {
            (focus_state(state, None), CanvasAction::Focus(None))
        } else {
            (state, CanvasAction::Nothing)
        },
    }
}

pub fn canvas_step(state: CanvasState, event: CanvasEvent) -> (r: (CanvasState, CanvasAction))
    ensures
        r == canvas_step_spec(state, event),
{
    let leave = CanvasState { selected: state.selected, dragging: None, focused: false };
    match event {
        CanvasEvent::Click { hit } => (CanvasState { selected: hit, ..state }, CanvasAction::Nothing),
        CanvasEvent::DragStart { primary, hit } => {
            let dragging = if primary {
                hit
            } else {
                None
            };
            (CanvasState { dragging, ..state }, CanvasAction::Nothing)
        },
        CanvasEvent::DragStop => (CanvasState { dragging: None, ..state }, CanvasAction::Nothing),
        CanvasEvent::DoubleClick { hit } => match hit {
            Some(f) => (
                CanvasState { selected: Some(f), dragging: None, focused: true },
                CanvasAction::Focus(Some(f)),
            ),
            None => if state.focused {
                (leave, CanvasAction::Focus(None))
            } else {
                (state, CanvasAction::FitAll)
            },
        },
        CanvasEvent::Escape => if state.focused {
            (leave, CanvasAction::Focus(None))
        } else {
            (state, CanvasAction::Nothing)
        },
    }
}

/// The topmost of the nodes under the pointer: the last one drawn, which is
/// the last one `hits` marks.
pub fn topmost(hits: &Vec<bool>) -> (r: Option<usize>)
    ensures
        match r {
            Some(i) => i < hits@.len() && hits@[i as int] && forall|j: int| i < j < hits@.len() ==> !#[trigger] hits@[j],
            None => forall|j: int| 0 <= j < hits@.len() ==> !#[trigger] hits@[j],
        },
{
    let mut i = hits.len();
    while i > 0
        invariant
            i <= hits@.len(),
            forall|j: int| i <= j < hits@.len() ==> !#[trigger] hits@[j],
        decreases i,
    {
        if hits[i - 1] {
            return Some(i - 1);
        }
        i -= 1;
    }
    None
}

/// How a connection is coloured.
#[derive(Debug, Clone, Copy, PartialEq, Eq, Structural)]
pub enum EdgeTone {
    /// It touches the selected node or, with none selected, the one under
    /// the pointer.
    Highlight,
    /// Another one touches that node: the colour of its kind, dimmed.
    Dimmed(EdgeKind),
    /// No node is selected or under the pointer: the colour of its kind.
    Base(EdgeKind),
}

pub open spec fn edge_tone_spec(
    selected: Option<usize>,
    hovered: Option<usize>,
    from_file: usize,
    to_file: usize,
    kind: EdgeKind,
) -> EdgeTone {
    let highlight = match selected {
        Some(f) => Some(f),
        None => hovered,
    };
    match highlight {
        Some(f) => if from_file == f || to_file == f {
            EdgeTone::Highlight
        } else {
            EdgeTone::Dimmed(kind)
        },
        None => EdgeTone::Base(kind),
    }
}

pub fn edge_tone(
    selected: Option<usize>,
    hovered: Option<usize>,
    from_file: usize,
    to_file: usize,
    kind: EdgeKind,
) -> (r: EdgeTone)
    ensures
        r == edge_tone_spec(selected, hovered, from_file, to_file, kind),
{
    let highlight = match selected {
        Some(f) => Some(f),
        None => hovered,
    };
    match highlight {
        Some(f) => if from_file == f || to_file == f {
            EdgeTone::Highlight
        } else {
            EdgeTone::Dimmed(kind)
        },
        None => EdgeTone::Base(kind),
    }
}

} // verus!
