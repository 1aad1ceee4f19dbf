//! The folded snapshot of a document and its lazy expansion.

use std::collections::HashMap;

use vstd::prelude::*;

use crate::builder::{is_open_anchor, model_wf, outcome, run, table_of, Editing, EditingError, Event};
use crate::template::{alternates, piece_unit, Anchor, Hole, Unit};

verus! {

broadcast use vstd::std_specs::hash::group_hash_axioms;

/// The chunks that the units `q` expand to, resolving references in `t`,
/// with at most `fuel` nested resolutions; `None` where that is not enough.
/// A reference with no template in `t` expands to nothing.
pub open spec fn expand(t: Map<usize, Seq<Unit>>, q: Seq<Unit>, fuel: nat) -> Option<
    Seq<Seq<char>>,
>
    decreases fuel, q.len(),
{
    if q.len() == 0 {
        Some(seq![])
    } else {
        let rest = q.drop_first();
        match q[0] {
            Unit::Text(s) => match expand(t, rest, fuel) {
                Some(r) => Some(seq![s] + r),
                None => None,
            },
            Unit::Char(c) => match expand(t, rest, fuel) {
                Some(r) => Some(seq![seq![c]] + r),
                None => None,
            },
            Unit::Ref(a) => if !t.contains_key(a) {
                expand(t, rest, fuel)
            } else if fuel == 0 {
                None
            } else {
                match (expand(t, t[a], (fuel - 1) as nat), expand(t, rest, fuel)) {
                    (Some(x), Some(y)) => Some(x + y),
                    _ => None,
                }
            },
        }
    }
}

/// Whether `q` expands to a finite output: no reference cycle is reached.
pub open spec fn expands(t: Map<usize, Seq<Unit>>, q: Seq<Unit>) -> bool {
    exists|f: nat| #[trigger] expand(t, q, f) is Some
}

/// The chunks that `q` expands to, where it expands finitely.
pub open spec fn pending(t: Map<usize, Seq<Unit>>, q: Seq<Unit>) -> Seq<Seq<char>> {
    if expands(t, q) {
        expand(t, q, choose|f: nat| #[trigger] expand(t, q, f) is Some)->0
    } else {
        seq![]
    }
}

pub open spec fn combine(a: Option<Seq<Seq<char>>>, b: Option<Seq<Seq<char>>>) -> Option<
    Seq<Seq<char>>,
> {
    match (a, b) {
        (Some(x), Some(y)) => Some(x + y),
        _ => None,
    }
}

/// More fuel does not change a finite expansion.
pub proof fn lemma_expand_mono(t: Map<usize, Seq<Unit>>, q: Seq<Unit>, f: nat, g: nat)
    requires
        f <= g,
        expand(t, q, f) is Some,
    ensures
        expand(t, q, g) == expand(t, q, f),
    decreases f, q.len(),
{
    if q.len() > 0 {
        let rest = q.drop_first();
        lemma_expand_mono(t, rest, f, g);
        if let Unit::Ref(a) = q[0] {
            if t.contains_key(a) {
                lemma_expand_mono(t, t[a], (f - 1) as nat, (g - 1) as nat);
            }
        }
    }
}

/// The expansion of a concatenation is the concatenation of the expansions.
pub proof fn lemma_expand_concat(t: Map<usize, Seq<Unit>>, a: Seq<Unit>, b: Seq<Unit>, f: nat)
    ensures
        expand(t, a + b, f) == combine(expand(t, a, f), expand(t, b, f)),
    decreases a.len(),
{
    if a.len() == 0 {
        assert(a + b =~= b);
        if let Some(y) = expand(t, b, f) {
            assert(seq![] + y =~= y);
        }
    } else {
        let rest = a.drop_first();
        assert((a + b).drop_first() =~= rest + b);
        assert((a + b)[0] == a[0]);
        lemma_expand_concat(t, rest, b, f);
        match (expand(t, rest, f), expand(t, b, f)) {
            (Some(x), Some(y)) => {
                match a[0] {
                    Unit::Text(s) => {
                        assert(seq![s] + (x + y) =~= (seq![s] + x) + y);
                    },
                    Unit::Char(c) => {
                        assert(seq![seq![c]] + (x + y) =~= (seq![seq![c]] + x) + y);
                    },
                    Unit::Ref(r) => {
                        if t.contains_key(r) && f > 0 {
                            if let Some(z) = expand(t, t[r], (f - 1) as nat) {
                                assert(z + (x + y) =~= (z + x) + y);
                            }
                        }
                    },
                }
            },
            _ => {},
        }
    }
}

/// Any fuel that suffices gives the pending chunks.
pub proof fn lemma_pending(t: Map<usize, Seq<Unit>>, q: Seq<Unit>, f: nat)
    requires
        expand(t, q, f) is Some,
    ensures
        expands(t, q),
        pending(t, q) == expand(t, q, f)->0,
{
    let g = choose|g: nat| #[trigger] expand(t, q, g) is Some;
    if f <= g {
        lemma_expand_mono(t, q, f, g);
    } else {
        lemma_expand_mono(t, q, g, f);
    }
}

/// The snapshot of a built document: a finished template for each anchor,
/// and the anchor of the root.
#[derive(Debug, Clone)]
pub struct Folded {
    anchors: HashMap<usize, Hole>,
    starts: Anchor,
}

impl Folded {
    pub closed spec fn table(&self) -> Map<usize, Seq<Unit>> {
        table_of(self.anchors)
    }

    pub closed spec fn root(&self) -> usize {
        self.starts.0
    }

    /// Every template alternates texts and references.
    pub open spec fn wf(&self) -> bool {
        forall|k: usize| #[trigger] self.table().contains_key(k) ==> alternates(self.table()[k])
    }

    /// The units that an expansion starts from.
    pub open spec fn root_units(&self) -> Seq<Unit> {
        if self.table().contains_key(self.root()) {
            self.table()[self.root()]
        } else {
            seq![]
        }
    }

    /// Whether the whole document expands finitely.
    pub open spec fn expands(&self) -> bool {
        expands(self.table(), self.root_units())
    }

    /// The chunks of the fully expanded document, every alias substituted.
    pub open spec fn eager(&self) -> Seq<Seq<char>> {
        pending(self.table(), self.root_units())
    }

    /// The snapshot of a builder that has met the end of its events.
    pub fn try_from(editing: Editing) -> (r: Result<Folded, EditingError>)
        requires
            editing.wf(),
        ensures
            match r {
                Ok(f) => outcome(editing.model()) == Ok::<usize, EditingError>(f.root()) && f.table()
                    == editing.model().anchors && f.wf(),
                Err(e) => outcome(editing.model()) == Err::<usize, EditingError>(e),
            },
    {
        let ghost m = editing.model();
        match editing.finish() {
            Ok((anchors, starts)) => {
                let r = Folded { anchors, starts };
                assert(model_wf(m));
                Ok(r)
            },
            Err(e) => Err(e),
        }
    }

    /// Starts a traversal of the document.
    pub fn iter(&self) -> (r: FoldedIter<'_>)
        ensures
            r.snapshot() == *self,
            r.queue() == self.root_units(),
    {
        let mut stack: Vec<Result<String, Anchor>> = Vec::new();
        assert(queue_of(stack@) =~= Seq::<Unit>::empty());
        match self.anchors.get(&self.starts.0) {
            Some(h) => {
                push_hole(&mut stack, h);
                assert(h.units() + Seq::<Unit>::empty() =~= h.units());
            },
            None => {},
        }
        FoldedIter { folded: self, stack }
    }

    /// The first `limit` chunks of the expanded document, or all of them
    /// where it has fewer.
    pub fn render(&self, limit: usize) -> (r: Vec<String>)
        requires
            self.wf(),
        ensures
            self.expands() ==> r@.map_values(|s: String| s@) == self.eager().take(
                if limit < self.eager().len() {
                    limit as int
                } else {
                    self.eager().len() as int
                },
            ),
    {
        let mut out: Vec<String> = Vec::new();
        let mut it = self.iter();
        let mut i: usize = 0;
        while i < limit
            invariant
                it.snapshot() == *self,
                it.wf(),
                i <= limit,
                out@.len() == i,
                self.expands() ==> it.expands() && self.eager() == out@.map_values(
                    |s: String| s@,
                ) + it.pending(),
            decreases limit - i,
        {
            let ghost before = out@.map_values(|s: String| s@);
            match it.next() {
                Some(s) => {
                    let ghost v = s@;
                    out.push(s);
                    assert(out@.map_values(|s: String| s@) =~= before.push(v));
                    proof {
                        if self.expands() {
                            assert(self.eager() =~= out@.map_values(|s: String| s@) + it.pending());
                        }
                    }
                },
                None => {
                    proof {
                        if self.expands() {
                            assert(self.eager() =~= before);
                            assert(before.take(before.len() as int) =~= before);
                        }
                    }
                    return out;
                },
            }
            i = i + 1;
        }
        proof {
            if self.expands() {
                let v = out@.map_values(|s: String| s@);
                assert(self.eager().take(limit as int) =~= v);
            }
        }
        out
    }
}

/// Builds the snapshot of the document that `events` describe.
pub fn build(events: &Vec<Event>) -> (r: Result<Folded, EditingError>)
    ensures
        match r {
            Ok(f) => outcome(run(events@)) == Ok::<usize, EditingError>(f.root()) && f.table()
                == run(events@).anchors && f.wf(),
            Err(e) => outcome(run(events@)) == Err::<usize, EditingError>(e),
        },
{
    let mut st = Editing::new();
    let n = events.len();
    let mut i: usize = 0;
    assert(events@.take(0) =~= Seq::<Event>::empty());
    while i < n
        invariant
            n == events@.len(),
            i <= n,
            st.wf(),
            st.model() == run(events@.take(i as int)),
        decreases n - i,
    {
        st.on_event(&events[i]);
        assert(events@.take(i + 1).drop_last() =~= events@.take(i as int));
        i = i + 1;
    }
    assert(events@.take(n as int) =~= events@);
    Folded::try_from(st)
}

/// An alias to a node that is still open makes the whole document fail as
/// a recursive reference, whatever events come after it.
pub proof fn lemma_cycle_rejected(events: Seq<Event>, i: int)
    requires
        0 <= i < events.len(),
        events[i] matches Event::Alias(r) && is_open_anchor(run(events.take(i)), r),
        !(run(events.take(i)).finished matches Some(Err(_))),
    ensures
        outcome(run(events)) == Err::<usize, EditingError>(EditingError::RecursiveRef),
    decreases events.len(),
{
    if events.len() == i + 1 {
        assert(events.drop_last() =~= events.take(i));
    } else {
        assert(events.drop_last().take(i) =~= events.take(i));
        lemma_cycle_rejected(events.drop_last(), i);
    }
}

/// The units of a traversal's work queue, kept as a stack: front last.
pub open spec fn queue_of(st: Seq<Result<String, Anchor>>) -> Seq<Unit> {
    Seq::new(st.len(), |i: int| piece_unit(st[st.len() - 1 - i]))
}

/// Puts the units of `h` in front of the queue.
fn push_hole(stack: &mut Vec<Result<String, Anchor>>, h: &Hole)
    ensures
        queue_of(final(stack)@) == h.units() + queue_of(old(stack)@),
{
    let ghost rest = queue_of(stack@);
    let mut j = h.len();
    assert(h.units().skip(j as int) + rest =~= rest);
    while j > 0
        invariant
            j <= h.units().len(),
            queue_of(stack@) == h.units().skip(j as int) + rest,
        decreases j,
    {
        j = j - 1;
        let piece = match h.get(j) {
            Ok(s) => Ok(s.clone()),
            Err(a) => Err(*a),
        };
        let ghost before = queue_of(stack@);
        stack.push(piece);
        assert(queue_of(stack@) =~= seq![piece_unit(piece)] + before);
        assert(h.units().skip(j as int) =~= seq![h.units()[j as int]] + h.units().skip(j + 1));
        assert(queue_of(stack@) =~= h.units().skip(j as int) + rest);
    }
    assert(h.units().skip(0) =~= h.units());
}

/// How far a traversal is from its next chunk.
spec fn distance(q: Seq<Unit>) -> nat {
    if q.len() > 0 && q[0] is Text {
        0
    } else {
        q.len() + 1
    }
}

/// A traversal of a snapshot: yields the chunks of the expanded document
/// one at a time, resolving a reference only when it reaches it.
pub struct FoldedIter<'a> {
    folded: &'a Folded,
    stack: Vec<Result<String, Anchor>>,
}

impl<'a> FoldedIter<'a> {
    /// The snapshot under traversal.
    pub closed spec fn snapshot(&self) -> Folded {
        *self.folded
    }

    /// The units still to expand, front first.
    pub closed spec fn queue(&self) -> Seq<Unit> {
        queue_of(self.stack@)
    }

    pub open spec fn wf(&self) -> bool {
        self.snapshot().wf()
    }

    pub open spec fn expands(&self) -> bool {
        expands(self.snapshot().table(), self.queue())
    }

    /// The chunks still to come.
    pub open spec fn pending(&self) -> Seq<Seq<char>> {
        pending(self.snapshot().table(), self.queue())
    }

    /// The next chunk of output, or `None` when the document is done.
    pub fn next(&mut self) -> (r: Option<String>)
        requires
            old(self).wf(),
        ensures
            final(self).snapshot() == old(self).snapshot(),
            old(self).expands() ==> final(self).expands() && match r {
                Some(s) => old(self).pending() == seq![s@] + final(self).pending(),
                None => old(self).pending() == Seq::<Seq<char>>::empty()
                    && final(self).queue() == Seq::<Unit>::empty(),
            },
    {
        let ghost t = self.folded.table();
        loop
            invariant
                self.folded == old(self).folded,
                self.wf(),
                t == self.folded.table(),
                old(self).expands() ==> self.expands() && old(self).pending() == self.pending(),
            decreases distance(self.queue()),
        {
            let ghost q = self.queue();
            match self.stack.pop() {
                None => {
                    assert(q =~= Seq::<Unit>::empty());
                    proof {
                        if old(self).expands() {
                            lemma_pending(t, q, 0);
                        }
                    }
                    return None;
                },
                Some(Ok(s)) => {
                    assert(self.queue() =~= q.drop_first());
                    proof {
                        if old(self).expands() {
                            let f = choose|f: nat| #[trigger] expand(t, q, f) is Some;
                            lemma_pending(t, q, f);
                            lemma_pending(t, self.queue(), f);
                        }
                    }
                    return Some(s);
                },
                Some(Err(a)) => {
                    let ghost rest = self.queue();
                    assert(rest =~= q.drop_first());
                    match self.folded.anchors.get(&a.0) {
                        None => {
                            proof {
                                if old(self).expands() {
                                    let f = choose|f: nat| #[trigger] expand(t, q, f) is Some;
                                    lemma_pending(t, q, f);
                                    lemma_pending(t, rest, f);
                                }
                            }
                        },
                        Some(h) => {
                            push_hole(&mut self.stack, h);
                            proof {
                                assert(t[a.0] == h.units());
                                if old(self).expands() {
                                    let f = choose|f: nat| #[trigger] expand(t, q, f) is Some;
                                    lemma_pending(t, q, f);
                                    lemma_expand_mono(t, h.units(), (f - 1) as nat, f);
                                    lemma_expand_concat(t, h.units(), rest, f);
                                    lemma_pending(t, self.queue(), f);
                                }
                                if h.units().len() > 0 {
                                    assert(t.contains_key(a.0));
                                    assert(alternates(h.units()));
                                    assert(h.units()[0] is Text);
                                    assert(self.queue()[0] == h.units()[0]);
                                }
                            }
                        },
                    }
                },
            }
        }
    }
}

} // verus!
