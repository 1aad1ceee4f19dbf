//! The builder: folds parse events into templates, one per node.

use std::collections::HashMap;

use vstd::prelude::*;

use crate::json::{quote, quoted};
use crate::template::{
    fold_units, lemma_fold_alternates, alternates, pushed, separated, Anchor, Hole, StringHole,
    TemplateItem, Unit,
};

verus! {

broadcast use vstd::std_specs::hash::group_hash_axioms;

/// One parse event of a YAML-style document. Anchor numbers come from the
/// event source; `0` is what the source gives a node that has no anchor.
#[derive(Debug, Clone)]
pub enum Event {
    StreamStart,
    StreamEnd,
    DocumentStart,
    DocumentEnd,
    /// A reference to the node with this anchor.
    Alias(usize),
    /// A scalar's text and anchor.
    Scalar(String, usize),
    /// The start of a sequence and its anchor.
    SequenceStart(usize),
    SequenceEnd,
    /// The start of a mapping and its anchor.
    MappingStart(usize),
    MappingEnd,
}

/// Why a document could not be built.
#[derive(Debug, Clone, Copy, PartialEq, Eq, Structural)]
pub enum EditingError {
    /// The events ended before a top-level node was closed.
    Syntax,
    /// An alias named a node that was still open.
    RecursiveRef,
}

impl EditingError {
    /// A message for the user.
    pub fn message(&self) -> (r: &'static str)
        ensures
            *self == EditingError::Syntax ==> r@ == "Unexpected end of document"@,
            *self == EditingError::RecursiveRef ==> r@ == "Recursive reference has been found"@,
    {
        match self {
            EditingError::Syntax => "Unexpected end of document",
            EditingError::RecursiveRef => "Recursive reference has been found",
        }
    }
}

/// Abstract value of an open node.
pub struct OpenNode {
    pub anchor: usize,
    pub units: Seq<Unit>,
    pub value_next: bool,
}

/// Abstract value of the builder: finished templates by anchor, the open
/// nodes innermost last, and the terminal state if one was reached.
pub struct EditModel {
    pub anchors: Map<usize, Seq<Unit>>,
    pub stack: Seq<OpenNode>,
    pub finished: Option<Result<usize, EditingError>>,
}

pub open spec fn initial_model() -> EditModel {
    EditModel { anchors: Map::empty(), stack: seq![], finished: None }
}

/// Whether a node with anchor `r` is open.
pub open spec fn is_open_anchor(m: EditModel, r: usize) -> bool {
    exists|i: int| 0 <= i < m.stack.len() && #[trigger] m.stack[i].anchor == r
}

/// Pushes a unit into the innermost open node.
pub open spec fn push_top(m: EditModel, u: Unit) -> EditModel {
    let top = m.stack.last();
    EditModel {
        stack: m.stack.update(
            m.stack.len() - 1,
            OpenNode {
                anchor: top.anchor,
                units: pushed(top.units, top.value_next, u),
                value_next: !top.value_next,
            },
        ),
        ..m
    }
}

/// Closes the innermost open node: `stored` is kept under its anchor, and
/// its units go into its parent, or it becomes the root.
pub open spec fn close_with(m: EditModel, stored: Seq<Unit>) -> EditModel {
    let top = m.stack.last();
    let anchors = m.anchors.insert(top.anchor, stored);
    let rest = m.stack.drop_last();
    if rest.len() > 0 {
        let parent = rest.last();
        EditModel {
            anchors,
            stack: rest.update(
                rest.len() - 1,
                OpenNode {
                    anchor: parent.anchor,
                    units: separated(parent.units, parent.value_next) + top.units,
                    value_next: !parent.value_next,
                },
            ),
            finished: m.finished,
        }
    } else {
        EditModel { anchors, stack: rest, finished: Some(Ok(top.anchor)) }
    }
}

/// Closes the innermost open node, keeping its finished template.
pub open spec fn close_top(m: EditModel) -> EditModel {
    close_with(m, fold_units(m.stack.last().units, seq![]))
}

/// Opens a node whose template starts with `c`.
pub open spec fn open_node(m: EditModel, a: usize, c: char) -> EditModel {
    EditModel {
        stack: m.stack.push(OpenNode { anchor: a, units: seq![Unit::Char(c)], value_next: false }),
        ..m
    }
}

/// Ends the innermost node with `c`; an end with no open node changes nothing.
pub open spec fn end_node(m: EditModel, c: char) -> EditModel {
    if m.stack.len() == 0 {
        m
    } else {
        close_top(push_top(m, Unit::Char(c)))
    }
}

/// What one event does to the builder. Once failed, it stays as it is.
pub open spec fn step(m: EditModel, ev: Event) -> EditModel {
    if m.finished matches Some(Err(_)) {
        m
    } else {
        match ev {
            Event::Scalar(s, a) => {
                let t = Unit::Text(quoted(s@));
                let m1 = EditModel { anchors: m.anchors.insert(a, seq![t]), ..m };
                if m.stack.len() == 0 {
                    EditModel { finished: Some(Ok(a)), ..m1 }
                } else {
                    push_top(m1, t)
                }
            },
            Event::SequenceStart(a) => open_node(m, a, '['),
            Event::MappingStart(a) => open_node(m, a, '{'),
            Event::SequenceEnd => end_node(m, ']'),
            Event::MappingEnd => end_node(m, '}'),
            Event::Alias(r) => {
                if is_open_anchor(m, r) {
                    EditModel { finished: Some(Err(EditingError::RecursiveRef)), ..m }
                } else if m.stack.len() == 0 {
                    EditModel { finished: Some(Err(EditingError::Syntax)), ..m }
                } else {
                    push_top(m, Unit::Ref(r))
                }
            },
            _ => m,
        }
    }
}

/// The builder after the events `evs`, from a fresh start.
pub open spec fn run(evs: Seq<Event>) -> EditModel
    decreases evs.len(),
{
    if evs.len() == 0 {
        initial_model()
    } else {
        step(run(evs.drop_last()), evs.last())
    }
}

/// Where a builder ends when the events stop: the root's anchor, or why
/// there is none.
pub open spec fn outcome(m: EditModel) -> Result<usize, EditingError> {
    match m.finished {
        Some(Err(e)) => Err(e),
        Some(Ok(a)) => if m.stack.len() == 0 {
            Ok(a)
        } else {
            Err(EditingError::Syntax)
        },
        None => Err(EditingError::Syntax),
    }
}

/// Every stored template alternates texts and references.
pub open spec fn model_wf(m: EditModel) -> bool {
    forall|k: usize| #[trigger] m.anchors.contains_key(k) ==> alternates(m.anchors[k])
}

/// An alias costs the same whatever node it names: it adds at most two
/// units (a separator and the reference) to the innermost template, and
/// leaves the finished templates as they are.
pub proof fn lemma_alias_is_constant_size(m: EditModel, r: usize)
    requires
        !(m.finished matches Some(Err(_))),
        !is_open_anchor(m, r),
        m.stack.len() > 0,
    ensures
        step(m, Event::Alias(r)).anchors == m.anchors,
        step(m, Event::Alias(r)).stack.len() == m.stack.len(),
        step(m, Event::Alias(r)).stack.last().units.len() <= m.stack.last().units.len() + 2,
        forall|i: int|
            0 <= i < m.stack.len() - 1 ==> #[trigger] step(m, Event::Alias(r)).stack[i]
                == m.stack[i],
{
}

/// An open node and its template so far.
#[derive(Debug)]
struct StackItem {
    anchor: Anchor,
    template: StringHole,
}

impl StackItem {
    spec fn node(self) -> OpenNode {
        OpenNode {
            anchor: self.anchor.0,
            units: self.template.units(),
            value_next: self.template.expects_value(),
        }
    }

    fn new(anchor: Anchor) -> (r: StackItem)
        ensures
            r.node() == (OpenNode { anchor: anchor.0, units: seq![], value_next: true }),
    {
        StackItem { anchor, template: StringHole::new() }
    }

    fn push(&mut self, item: TemplateItem)
        ensures
            final(self).node() == (OpenNode {
                anchor: old(self).anchor.0,
                units: pushed(old(self).template.units(), old(self).template.expects_value(), item.unit()),
                value_next: !old(self).template.expects_value(),
            }),
    {
        self.template.push(item)
    }
}

/// The builder: takes parse events one at a time.
#[derive(Debug)]
pub struct Editing {
    anchors: HashMap<usize, Hole>,
    anchor_stack: Vec<StackItem>,
    finished: Option<Result<Anchor, EditingError>>,
}

/// The templates of a table, by anchor.
pub open spec fn table_of(m: HashMap<usize, Hole>) -> Map<usize, Seq<Unit>> {
    Map::new(|k: usize| m@.contains_key(k), |k: usize| m@[k].units())
}

impl Editing {
    /// Abstract value of the builder.
    pub closed spec fn model(&self) -> EditModel {
        EditModel {
            anchors: table_of(self.anchors),
            stack: self.anchor_stack@.map_values(|s: StackItem| s.node()),
            finished: match self.finished {
                Some(Ok(a)) => Some(Ok(a.0)),
                Some(Err(e)) => Some(Err(e)),
                None => None,
            },
        }
    }

    /// Every finished template alternates texts and references.
    pub open spec fn wf(&self) -> bool {
        model_wf(self.model())
    }

    /// The finished templates and the root's anchor, or why the events
    /// did not make a document.
    pub(crate) fn finish(self) -> (r: Result<(HashMap<usize, Hole>, Anchor), EditingError>)
        ensures
            match r {
                Ok((m, a)) => outcome(self.model()) == Ok::<usize, EditingError>(a.0) && table_of(m)
                    == self.model().anchors,
                Err(e) => outcome(self.model()) == Err::<usize, EditingError>(e),
            },
    {
        if self.anchor_stack.len() > 0 {
            return match self.finished {
                Some(Err(e)) => Err(e),
                _ => Err(EditingError::Syntax),
            };
        }
        match self.finished {
            Some(Ok(starts)) => Ok((self.anchors, starts)),
            Some(Err(e)) => Err(e),
            None => Err(EditingError::Syntax),
        }
    }

    /// A builder that has seen no event.
    pub fn new() -> (r: Editing)
        ensures
            r.model() == initial_model(),
            r.wf(),
    {
        let r = Editing { anchors: HashMap::new(), anchor_stack: Vec::new(), finished: None };
        assert(r.model().anchors =~= Map::<usize, Seq<Unit>>::empty());
        assert(r.model().stack =~= Seq::<OpenNode>::empty());
        r
    }

    /// Keeps `h` as the finished template of anchor `a`.
    fn store(&mut self, a: usize, h: Hole)
        ensures
            final(self).model() == (EditModel {
                anchors: old(self).model().anchors.insert(a, h.units()),
                ..old(self).model()
            }),
    {
        self.anchors.insert(a, h);
        assert(self.model().anchors =~= old(self).model().anchors.insert(a, h.units()));
    }

    /// Pushes a unit into the innermost open node.
    fn push_top(&mut self, item: TemplateItem)
        requires
            old(self).model().stack.len() > 0,
        ensures
            final(self).model() == push_top(old(self).model(), item.unit()),
    {
        let ghost m = self.model();
        match self.anchor_stack.pop() {
            Some(mut top) => {
                top.push(item);
                self.anchor_stack.push(top);
                assert(self.model().stack =~= push_top(m, item.unit()).stack);
            },
            None => {},
        }
    }

    /// Closes the innermost open node.
    fn fold_up(&mut self)
        requires
            old(self).model().stack.len() > 0,
            old(self).wf(),
        ensures
            final(self).model() == close_top(old(self).model()),
            final(self).wf(),
    {
        let ghost m = self.model();
        if let Some(mut a) = self.anchor_stack.pop() {
            let ghost rest = self.model().stack;
            assert(rest =~= m.stack.drop_last());
            let ghost child = a.template.units();
            proof {
                lemma_fold_alternates(child, seq![]);
            }
            self.store(a.anchor.0, a.template.fold());
            match self.anchor_stack.pop() {
                Some(mut last) => {
                    last.template.append(&mut a.template);
                    self.anchor_stack.push(last);
                    assert(self.model().stack =~= close_top(m).stack);
                },
                None => {
                    self.finished = Some(Ok(a.anchor));
                },
            }
            assert(self.model().anchors =~= close_top(m).anchors);
        }
    }

    fn is_open(&self, r: usize) -> (b: bool)
        ensures
            b == is_open_anchor(self.model(), r),
    {
        let n = self.anchor_stack.len();
        let mut i: usize = 0;
        while i < n
            invariant
                n == self.anchor_stack@.len(),
                i <= n,
                forall|j: int| 0 <= j < i ==> self.model().stack[j].anchor != r,
            decreases n - i,
        {
            if self.anchor_stack[i].anchor.0 == r {
                assert(self.model().stack[i as int].anchor == r);
                return true;
            }
            i = i + 1;
        }
        false
    }

    /// Folds one event into the builder.
    pub fn on_event(&mut self, ev: &Event)
        requires
            old(self).wf(),
        ensures
            final(self).model() == step(old(self).model(), *ev),
            final(self).wf(),
    {
        if let Some(Err(_)) = self.finished {
            return;
        }
        match ev {
            Event::Scalar(s, a) => {
                let q = quote(s.as_str());
                let item = TemplateItem::Text(q.clone());
                let h = Hole::text(q);
                self.store(*a, h);
                if self.anchor_stack.len() == 0 {
                    self.finished = Some(Ok(Anchor(*a)));
                } else {
                    self.push_top(item);
                }
            },
            Event::SequenceStart(a) | Event::MappingStart(a) => {
                let c = if let Event::SequenceStart(_) = ev {
                    '['
                } else {
                    '{'
                };
                let mut top = StackItem::new(Anchor(*a));
                top.push(TemplateItem::Char(c));
                self.anchor_stack.push(top);
                assert(self.model().stack =~= open_node(old(self).model(), *a, c).stack);
            },
            Event::SequenceEnd | Event::MappingEnd => {
                let c = if let Event::SequenceEnd = ev {
                    ']'
                } else {
                    '}'
                };
                if self.anchor_stack.len() > 0 {
                    self.push_top(TemplateItem::Char(c));
                    self.fold_up();
                }
            },
            Event::Alias(r) => {
                if self.is_open(*r) {
                    self.finished = Some(Err(EditingError::RecursiveRef));
                } else if self.anchor_stack.len() == 0 {
                    self.finished = Some(Err(EditingError::Syntax));
                } else {
                    self.push_top(TemplateItem::Ref(Anchor(*r)));
                }
            },
            _ => {},
        }
    }
}

} // verus!
