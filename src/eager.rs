//! The eager reading of a document, and its agreement with the lazy one.
//!
//! The eager builder substitutes an alias by the full text of the node that
//! it names at the moment it meets the alias, so it never holds a reference.

use vstd::prelude::*;

use crate::builder::{
    close_top, close_with, is_open_anchor, open_node, outcome, push_top, run, step, EditModel, EditingError,
    Event, OpenNode,
};
use crate::folded::{
    expand, expands, lemma_expand_concat, lemma_expand_mono, lemma_pending, pending, Folded,
};
use crate::template::{fold_units, pushed, separated, Unit};

verus! {

/// The characters of a unit; a reference has none of its own.
pub open spec fn unit_text(u: Unit) -> Seq<char> {
    match u {
        Unit::Char(c) => seq![c],
        Unit::Text(s) => s,
        Unit::Ref(_) => seq![],
    }
}

/// The characters of a sequence of units.
pub open spec fn text_of(units: Seq<Unit>) -> Seq<char>
    decreases units.len(),
{
    if units.len() == 0 {
        seq![]
    } else {
        unit_text(units[0]) + text_of(units.drop_first())
    }
}

/// The chunks of an output, joined.
pub open spec fn flat(chunks: Seq<Seq<char>>) -> Seq<char>
    decreases chunks.len(),
{
    if chunks.len() == 0 {
        seq![]
    } else {
        chunks[0] + flat(chunks.drop_first())
    }
}

/// The text stored for anchor `r`, or nothing.
pub open spec fn text_at(a: Map<usize, Seq<Unit>>, r: usize) -> Seq<char> {
    if a.contains_key(r) {
        text_of(a[r])
    } else {
        seq![]
    }
}

/// A unit with its reference, if any, replaced by the text it names in `a`.
pub open spec fn subst_unit(a: Map<usize, Seq<Unit>>, u: Unit) -> Unit {
    match u {
        Unit::Ref(r) => Unit::Text(text_at(a, r)),
        _ => u,
    }
}

pub open spec fn subst(a: Map<usize, Seq<Unit>>, units: Seq<Unit>) -> Seq<Unit> {
    units.map_values(|u: Unit| subst_unit(a, u))
}

/// Ends the innermost node eagerly: what is kept is its whole text.
pub open spec fn end_eager(m: EditModel, c: char) -> EditModel {
    if m.stack.len() == 0 {
        m
    } else {
        let m1 = push_top(m, Unit::Char(c));
        close_with(m1, seq![Unit::Text(text_of(m1.stack.last().units))])
    }
}

/// What one event does to the eager builder: an alias becomes the text of
/// the node it names; all else is as in the lazy builder.
pub open spec fn step_eager(m: EditModel, ev: Event) -> EditModel {
    if m.finished matches Some(Err(_)) {
        m
    } else {
        match ev {
            Event::Alias(r) => {
                if is_open_anchor(m, r) {
                    EditModel { finished: Some(Err(EditingError::RecursiveRef)), ..m }
                } else if m.stack.len() == 0 {
                    EditModel { finished: Some(Err(EditingError::Syntax)), ..m }
                } else {
                    push_top(m, Unit::Text(text_at(m.anchors, r)))
                }
            },
            Event::SequenceEnd => end_eager(m, ']'),
            Event::MappingEnd => end_eager(m, '}'),
            _ => step(m, ev),
        }
    }
}

/// The eager builder after the events `evs`, from a fresh start.
pub open spec fn run_eager(evs: Seq<Event>) -> EditModel
    decreases evs.len(),
{
    if evs.len() == 0 {
        EditModel { anchors: Map::empty(), stack: seq![], finished: None }
    } else {
        step_eager(run_eager(evs.drop_last()), evs.last())
    }
}

/// Whether `ev` gives anchor `r` to a node.
pub open spec fn defines(ev: Event, r: usize) -> bool {
    match ev {
        Event::Scalar(_, a) => a == r,
        Event::SequenceStart(a) => a == r,
        Event::MappingStart(a) => a == r,
        _ => false,
    }
}

/// No alias names an anchor that a node at or after the alias is given.
pub open spec fn no_forward_alias(evs: Seq<Event>) -> bool {
    forall|i: int, j: int|
        0 <= i <= j < evs.len() && #[trigger] evs[i] is Alias ==> !defines(
            #[trigger] evs[j],
            evs[i]->Alias_0,
        )
}

/// Every reference in `units` satisfies `p`.
pub open spec fn all_refs(units: Seq<Unit>, p: spec_fn(usize) -> bool) -> bool {
    forall|j: int| 0 <= j < units.len() && (#[trigger] units[j]) is Ref ==> p(units[j]->Ref_0)
}

proof fn lemma_flat_concat(a: Seq<Seq<char>>, b: Seq<Seq<char>>)
    ensures
        flat(a + b) == flat(a) + flat(b),
    decreases a.len(),
{
    if a.len() == 0 {
        assert(a + b =~= b);
    } else {
        assert((a + b).drop_first() =~= a.drop_first() + b);
        lemma_flat_concat(a.drop_first(), b);
        assert(a[0] + (flat(a.drop_first()) + flat(b)) =~= (a[0] + flat(a.drop_first())) + flat(
            b,
        ));
    }
}

proof fn lemma_text_concat(a: Seq<Unit>, b: Seq<Unit>)
    ensures
        text_of(a + b) == text_of(a) + text_of(b),
    decreases a.len(),
{
    if a.len() == 0 {
        assert(a + b =~= b);
    } else {
        assert((a + b).drop_first() =~= a.drop_first() + b);
        lemma_text_concat(a.drop_first(), b);
        assert(unit_text(a[0]) + (text_of(a.drop_first()) + text_of(b)) =~= (unit_text(a[0])
            + text_of(a.drop_first())) + text_of(b));
    }
}

proof fn lemma_subst_concat(a: Map<usize, Seq<Unit>>, x: Seq<Unit>, y: Seq<Unit>)
    ensures
        subst(a, x + y) == subst(a, x) + subst(a, y),
{
    assert(subst(a, x + y) =~= subst(a, x) + subst(a, y));
}

proof fn lemma_subst_separated(a: Map<usize, Seq<Unit>>, units: Seq<Unit>, vn: bool)
    ensures
        subst(a, separated(units, vn)) == separated(subst(a, units), vn),
{
    let s = subst(a, units);
    if units.len() > 0 {
        assert(s.last() == subst_unit(a, units.last()));
        assert(s[0] == subst_unit(a, units[0]));
    }
    match crate::template::separator(units, vn) {
        Some(c) => {
            assert(subst(a, units.push(Unit::Char(c))) =~= s.push(Unit::Char(c)));
        },
        None => {},
    }
}

proof fn lemma_subst_pushed(a: Map<usize, Seq<Unit>>, units: Seq<Unit>, vn: bool, u: Unit)
    ensures
        subst(a, pushed(units, vn, u)) == pushed(subst(a, units), vn, subst_unit(a, u)),
{
    lemma_subst_separated(a, units, vn);
    if u is Char {
        assert(subst(a, units.push(u)) =~= subst(a, units).push(u));
    } else {
        let sep = separated(units, vn);
        assert(subst(a, sep.push(u)) =~= subst(a, sep).push(subst_unit(a, u)));
    }
}

/// Replacing the entry of an anchor that no reference names changes nothing.
proof fn lemma_subst_frame(
    a: Map<usize, Seq<Unit>>,
    k: usize,
    v: Seq<Unit>,
    units: Seq<Unit>,
)
    requires
        all_refs(units, |r: usize| r != k),
    ensures
        subst(a.insert(k, v), units) == subst(a, units),
{
    assert forall|j: int| 0 <= j < units.len() implies subst_unit(a.insert(k, v), units[j])
        == subst_unit(a, units[j]) by {
        if units[j] is Ref {
            assert(units[j]->Ref_0 != k);
        }
    }
    assert(subst(a.insert(k, v), units) =~= subst(a, units));
}

/// Every reference of a folded template comes from the template.
proof fn lemma_fold_refs(units: Seq<Unit>, lit: Seq<char>, p: spec_fn(usize) -> bool)
    requires
        all_refs(units, p),
    ensures
        all_refs(fold_units(units, lit), p),
    decreases units.len(),
{
    if units.len() > 0 {
        let rest = units.drop_first();
        assert(all_refs(rest, p)) by {
            assert forall|j: int| 0 <= j < rest.len() && (#[trigger] rest[j]) is Ref implies p(
                rest[j]->Ref_0,
            ) by {
                assert(rest[j] == units[j + 1]);
            }
        }
        match units[0] {
            Unit::Char(c) => lemma_fold_refs(rest, lit.push(c), p),
            Unit::Text(s) => lemma_fold_refs(rest, lit + s, p),
            Unit::Ref(r) => {
                lemma_fold_refs(rest, seq![], p);
                let head = seq![Unit::Text(lit), Unit::Ref(r)];
                let tl = fold_units(rest, seq![]);
                assert forall|j: int|
                    0 <= j < (head + tl).len() && (#[trigger] (head + tl)[j]) is Ref implies p(
                    (head + tl)[j]->Ref_0,
                ) by {
                    if j >= 2 {
                        assert((head + tl)[j] == tl[j - 2]);
                    } else {
                        assert(units[0] is Ref);
                    }
                }
            },
        }
    }
}

proof fn lemma_all_refs_rest(units: Seq<Unit>, p: spec_fn(usize) -> bool)
    requires
        units.len() > 0,
        all_refs(units, p),
    ensures
        all_refs(units.drop_first(), p),
        units[0] is Ref ==> p(units[0]->Ref_0),
{
    let rest = units.drop_first();
    assert forall|j: int| 0 <= j < rest.len() && (#[trigger] rest[j]) is Ref implies p(
        rest[j]->Ref_0,
    ) by {
        assert(rest[j] == units[j + 1]);
    }
}

/// Changing the table at an anchor that no expansion reaches changes no
/// expansion.
proof fn lemma_expand_frame(
    t: Map<usize, Seq<Unit>>,
    t2: Map<usize, Seq<Unit>>,
    rank: spec_fn(usize) -> nat,
    k: usize,
    q: Seq<Unit>,
    f: nat,
)
    requires
        forall|x: usize| x != k ==> t.contains_key(x) == t2.contains_key(x),
        forall|x: usize| x != k && t.contains_key(x) ==> t[x] == t2[x],
        forall|x: usize|
            #[trigger] t.contains_key(x) && x != k ==> all_refs(
                t[x],
                |r: usize| r != k && (t.contains_key(r) ==> rank(r) < rank(x)),
            ),
        all_refs(q, |r: usize| r != k && (t.contains_key(r) ==> rank(r) < f)),
    ensures
        expand(t2, q, f) == expand(t, q, f),
    decreases f, q.len(),
{
    if q.len() > 0 {
        let rest = q.drop_first();
        lemma_all_refs_rest(q, |r: usize| r != k && (t.contains_key(r) ==> rank(r) < f));
        lemma_expand_frame(t, t2, rank, k, rest, f);
        if let Unit::Ref(r) = q[0] {
            if t.contains_key(r) {
                let inner = t[r];
                assert(all_refs(inner, |x: usize| x != k && (t.contains_key(x) ==> rank(x) < (f - 1) as nat))) by {
                    assert(all_refs(inner, |x: usize| x != k && (t.contains_key(x) ==> rank(x) < rank(r))));
                    assert forall|j: int| 0 <= j < inner.len() && (#[trigger] inner[j]) is Ref implies
                        inner[j]->Ref_0 != k && (t.contains_key(inner[j]->Ref_0) ==> rank(inner[j]->Ref_0) < (f - 1) as nat) by {
                    }
                }
                lemma_expand_frame(t, t2, rank, k, inner, (f - 1) as nat);
            }
        }
    }
}

/// The joined expansion of a folded template is its text with every
/// reference replaced by the text that it names.
proof fn lemma_fold_text(
    t: Map<usize, Seq<Unit>>,
    a: Map<usize, Seq<Unit>>,
    rank: spec_fn(usize) -> nat,
    units: Seq<Unit>,
    lit: Seq<char>,
    f: nat,
)
    requires
        all_refs(
            units,
            |r: usize|
                (t.contains_key(r) ==> rank(r) < f && expand(t, t[r], rank(r)) is Some && flat(
                    expand(t, t[r], rank(r))->0,
                ) == text_at(a, r)) && (!t.contains_key(r) ==> !a.contains_key(r)),
        ),
    ensures
        expand(t, fold_units(units, lit), f) is Some,
        flat(expand(t, fold_units(units, lit), f)->0) == lit + text_of(subst(a, units)),
    decreases units.len(),
{
    let p = |r: usize|
        (t.contains_key(r) ==> rank(r) < f && expand(t, t[r], rank(r)) is Some && flat(
            expand(t, t[r], rank(r))->0,
        ) == text_at(a, r)) && (!t.contains_key(r) ==> !a.contains_key(r));
    if units.len() == 0 {
        assert(subst(a, units) =~= Seq::<Unit>::empty());
        if lit.len() > 0 {
            let one = seq![Unit::Text(lit)];
            assert(one.drop_first() =~= Seq::<Unit>::empty());
            assert(expand(t, Seq::<Unit>::empty(), f) == Some(Seq::<Seq<char>>::empty()));
            assert(expand(t, one, f) == Some(seq![lit] + Seq::<Seq<char>>::empty()));
            let c = seq![lit] + Seq::<Seq<char>>::empty();
            assert(c.drop_first() =~= Seq::<Seq<char>>::empty());
            assert(flat(Seq::<Seq<char>>::empty()) == Seq::<char>::empty());
            assert(c[0] == lit);
            assert(flat(c) == c[0] + flat(c.drop_first()));
            assert(flat(c) =~= lit);
        } else {
            assert(lit =~= Seq::<char>::empty());
        }
        assert(lit + text_of(subst(a, units)) =~= lit);
    } else {
        let rest = units.drop_first();
        lemma_all_refs_rest(units, p);
        let su = subst(a, units);
        assert(su.drop_first() =~= subst(a, rest));
        assert(su[0] == subst_unit(a, units[0]));
        match units[0] {
            Unit::Char(c) => {
                lemma_fold_text(t, a, rank, rest, lit.push(c), f);
                assert(lit.push(c) + text_of(subst(a, rest)) =~= lit + (seq![c] + text_of(
                    subst(a, rest),
                )));
            },
            Unit::Text(s) => {
                lemma_fold_text(t, a, rank, rest, lit + s, f);
                assert((lit + s) + text_of(subst(a, rest)) =~= lit + (s + text_of(
                    subst(a, rest),
                )));
            },
            Unit::Ref(r) => {
                lemma_fold_text(t, a, rank, rest, seq![], f);
                let head = seq![Unit::Text(lit), Unit::Ref(r)];
                let tl = fold_units(rest, seq![]);
                lemma_expand_concat(t, head, tl, f);
                let one = seq![Unit::Ref(r)];
                assert(head.drop_first() =~= one);
                assert(one.drop_first() =~= Seq::<Unit>::empty());
                assert(expand(t, Seq::<Unit>::empty(), f) == Some(Seq::<Seq<char>>::empty()));
                let x = if t.contains_key(r) {
                    lemma_expand_mono(t, t[r], rank(r), (f - 1) as nat);
                    expand(t, t[r], rank(r))->0
                } else {
                    Seq::<Seq<char>>::empty()
                };
                assert(expand(t, one, f) == Some(x + Seq::<Seq<char>>::empty())) by {
                    if !t.contains_key(r) {
                        assert(x + Seq::<Seq<char>>::empty() =~= Seq::<Seq<char>>::empty());
                    }
                }
                assert(x + Seq::<Seq<char>>::empty() =~= x);
                let he = seq![lit] + x;
                assert(expand(t, head, f) == Some(he));
                assert(flat(x) == text_at(a, r));
                assert(he.drop_first() =~= x);
                assert(flat(he) == lit + flat(x));
                let te = expand(t, tl, f)->0;
                lemma_flat_concat(he, te);
                assert(Seq::<char>::empty() + text_of(subst(a, rest)) =~= text_of(subst(a, rest)));
                assert(unit_text(su[0]) == text_at(a, r));
                assert((lit + flat(x)) + text_of(subst(a, rest)) =~= lit + (text_at(a, r) + text_of(
                    subst(a, rest),
                )));
            },
        }
    }
}

proof fn lemma_all_refs_concat(a: Seq<Unit>, b: Seq<Unit>, p: spec_fn(usize) -> bool)
    requires
        all_refs(a, p),
        all_refs(b, p),
    ensures
        all_refs(a + b, p),
{
    assert forall|j: int| 0 <= j < (a + b).len() && (#[trigger] (a + b)[j]) is Ref implies p(
        (a + b)[j]->Ref_0,
    ) by {
        if j < a.len() {
            assert((a + b)[j] == a[j]);
        } else {
            assert((a + b)[j] == b[j - a.len()]);
        }
    }
}

proof fn lemma_all_refs_pushed(units: Seq<Unit>, vn: bool, u: Unit, p: spec_fn(usize) -> bool)
    requires
        all_refs(units, p),
        u is Ref ==> p(u->Ref_0),
    ensures
        all_refs(separated(units, vn), p),
        all_refs(pushed(units, vn, u), p),
{
    let sep = separated(units, vn);
    assert forall|j: int| 0 <= j < sep.len() && (#[trigger] sep[j]) is Ref implies p(
        sep[j]->Ref_0,
    ) by {
        if j < units.len() {
            assert(sep[j] == units[j]);
        }
    }
    let base = if u is Char {
        units
    } else {
        sep
    };
    assert forall|j: int|
        0 <= j < base.push(u).len() && (#[trigger] base.push(u)[j]) is Ref implies p(
        base.push(u)[j]->Ref_0,
    ) by {
        if j < base.len() {
            assert(base.push(u)[j] == base[j]);
        }
    }
}

/// Whether a reference to `r` in the lazy state `m` is in order: what it
/// names was finished before `bound`, is not open, and is never given to
/// another node by the events `rest` still to come.
pub open spec fn ref_ok(
    m: EditModel,
    rank: spec_fn(usize) -> nat,
    bound: nat,
    rest: Seq<Event>,
    r: usize,
) -> bool {
    &&& (m.anchors.contains_key(r) ==> rank(r) < bound)
    &&& !is_open_anchor(m, r)
    &&& forall|i: int| 0 <= i < rest.len() ==> !defines(#[trigger] rest[i], r)
}

/// The entry of anchor `k` expands finitely, to the text that the eager
/// builder keeps for it.
pub open spec fn entry_ok(
    m: EditModel,
    e: EditModel,
    rank: spec_fn(usize) -> nat,
    n: nat,
    rest: Seq<Event>,
    k: usize,
) -> bool {
    &&& rank(k) < n
    &&& expand(m.anchors, m.anchors[k], rank(k)) is Some
    &&& flat(expand(m.anchors, m.anchors[k], rank(k))->0) == text_at(e.anchors, k)
    &&& all_refs(m.anchors[k], |r: usize| ref_ok(m, rank, rank(k), rest, r))
}

/// The lazy state `m` and the eager state `e` after the same `n` events,
/// with `rest` still to come: the eager one is the lazy one with every
/// reference replaced by the text it names.
pub open spec fn related(
    m: EditModel,
    e: EditModel,
    rank: spec_fn(usize) -> nat,
    n: nat,
    rest: Seq<Event>,
) -> bool {
    &&& m.finished == e.finished
    &&& m.stack.len() == e.stack.len()
    &&& forall|i: int|
        0 <= i < m.stack.len() ==> #[trigger] e.stack[i] == (OpenNode {
            anchor: m.stack[i].anchor,
            units: subst(e.anchors, m.stack[i].units),
            value_next: m.stack[i].value_next,
        })
    &&& m.anchors.dom() == e.anchors.dom()
    &&& forall|k: usize| #[trigger] m.anchors.contains_key(k) ==> entry_ok(m, e, rank, n, rest, k)
    &&& forall|i: int|
        0 <= i < m.stack.len() ==> all_refs(
            #[trigger] m.stack[i].units,
            |r: usize| ref_ok(m, rank, n, rest, r),
        )
    &&& (m.finished matches Some(Ok(a)) ==> m.anchors.contains_key(a))
}

proof fn lemma_open_prefix(m2: EditModel, m: EditModel)
    requires
        m2.stack.len() <= m.stack.len(),
        forall|i: int| 0 <= i < m2.stack.len() ==> m2.stack[i].anchor == m.stack[i].anchor,
    ensures
        forall|r: usize| is_open_anchor(m2, r) ==> is_open_anchor(m, r),
{
    assert forall|r: usize| is_open_anchor(m2, r) implies is_open_anchor(m, r) by {
        let i = choose|i: int| 0 <= i < m2.stack.len() && #[trigger] m2.stack[i].anchor == r;
        assert(m.stack[i].anchor == r);
    }
}

proof fn lemma_ref_ok_tail(
    m: EditModel,
    rank: spec_fn(usize) -> nat,
    bound: nat,
    bound2: nat,
    ev: Event,
    tail: Seq<Event>,
    r: usize,
)
    requires
        ref_ok(m, rank, bound, seq![ev] + tail, r),
        bound <= bound2,
    ensures
        ref_ok(m, rank, bound2, tail, r),
        !defines(ev, r),
{
    let rest = seq![ev] + tail;
    assert(rest[0] == ev);
    assert forall|i: int| 0 <= i < tail.len() implies !defines(#[trigger] tail[i], r) by {
        assert(tail[i] == rest[i + 1]);
    }
}

/// A step that at most sets the terminal state keeps the two related.
proof fn lemma_step_keep(
    m: EditModel,
    e: EditModel,
    rank: spec_fn(usize) -> nat,
    n: nat,
    ev: Event,
    tail: Seq<Event>,
    fin: Option<Result<usize, EditingError>>,
)
    requires
        related(m, e, rank, n, seq![ev] + tail),
        fin matches Some(Ok(a)) ==> m.anchors.contains_key(a),
    ensures
        related(
            EditModel { finished: fin, ..m },
            EditModel { finished: fin, ..e },
            rank,
            n + 1,
            tail,
        ),
{
    let rest = seq![ev] + tail;
    let m2 = EditModel { finished: fin, ..m };
    let e2 = EditModel { finished: fin, ..e };
    assert forall|r: usize| is_open_anchor(m2, r) == is_open_anchor(m, r) by {
        if is_open_anchor(m2, r) {
            let i = choose|i: int| 0 <= i < m2.stack.len() && #[trigger] m2.stack[i].anchor == r;
            assert(m.stack[i].anchor == r);
        }
        if is_open_anchor(m, r) {
            let i = choose|i: int| 0 <= i < m.stack.len() && #[trigger] m.stack[i].anchor == r;
            assert(m2.stack[i].anchor == r);
        }
    }
    assert forall|k: usize| #[trigger] m2.anchors.contains_key(k) implies entry_ok(m2, e2, rank, n + 1, tail, k) by {
        assert(entry_ok(m, e, rank, n, rest, k));
        let u = m.anchors[k];
        assert forall|j: int| 0 <= j < u.len() && (#[trigger] u[j]) is Ref implies ref_ok(m2, rank, rank(k), tail, u[j]->Ref_0) by {
            lemma_ref_ok_next(m, m2, rank, rank, rank(k), rank(k), ev, tail, u[j]->Ref_0);
        }
    }
    assert forall|i: int| 0 <= i < m2.stack.len() implies all_refs(#[trigger] m2.stack[i].units, |r: usize| ref_ok(m2, rank, n + 1, tail, r)) by {
        let u = m.stack[i].units;
        assert(all_refs(u, |r: usize| ref_ok(m, rank, n, rest, r)));
        assert forall|j: int| 0 <= j < u.len() && (#[trigger] u[j]) is Ref implies ref_ok(m2, rank, n + 1, tail, u[j]->Ref_0) by {
            lemma_ref_ok_next(m, m2, rank, rank, n, n + 1, ev, tail, u[j]->Ref_0);
        }
    }
    assert forall|i: int| 0 <= i < m2.stack.len() implies #[trigger] e2.stack[i] == (OpenNode {
        anchor: m2.stack[i].anchor,
        units: subst(e2.anchors, m2.stack[i].units),
        value_next: m2.stack[i].value_next,
    }) by {
        assert(e.stack[i] == e.stack[i]);
    }
}

proof fn lemma_ref_ok_next(
    m: EditModel,
    m2: EditModel,
    rank: spec_fn(usize) -> nat,
    rank2: spec_fn(usize) -> nat,
    bound: nat,
    bound2: nat,
    ev: Event,
    tail: Seq<Event>,
    r: usize,
)
    requires
        ref_ok(m, rank, bound, seq![ev] + tail, r),
        bound <= bound2,
        m2.anchors.contains_key(r) ==> m.anchors.contains_key(r) && rank2(r) == rank(r),
        is_open_anchor(m2, r) ==> is_open_anchor(m, r),
    ensures
        ref_ok(m2, rank2, bound2, tail, r),
{
    lemma_ref_ok_tail(m, rank, bound, bound2, ev, tail, r);
}

/// The table of `m` is ranked: each entry names only entries of lower rank,
/// and none names `k`.
proof fn lemma_ranked(
    m: EditModel,
    e: EditModel,
    rank: spec_fn(usize) -> nat,
    n: nat,
    rest: Seq<Event>,
    k: usize,
)
    requires
        forall|x: usize| #[trigger] m.anchors.contains_key(x) ==> entry_ok(m, e, rank, n, rest, x),
        is_open_anchor(m, k) || (rest.len() > 0 && defines(rest[0], k)),
    ensures
        forall|x: usize|
            #[trigger] m.anchors.contains_key(x) && x != k ==> all_refs(
                m.anchors[x],
                |r: usize| r != k && (m.anchors.contains_key(r) ==> rank(r) < rank(x)),
            ),
{
    assert forall|x: usize| #[trigger] m.anchors.contains_key(x) && x != k implies all_refs(
        m.anchors[x],
        |r: usize| r != k && (m.anchors.contains_key(r) ==> rank(r) < rank(x)),
    ) by {
        assert(entry_ok(m, e, rank, n, rest, x));
        let u = m.anchors[x];
        assert forall|j: int| 0 <= j < u.len() && (#[trigger] u[j]) is Ref implies u[j]->Ref_0
            != k && (m.anchors.contains_key(u[j]->Ref_0) ==> rank(u[j]->Ref_0) < rank(x)) by {
            assert(ref_ok(m, rank, rank(x), rest, u[j]->Ref_0));
        }
    }
}

/// `rank` with `k` given rank `n`.
pub open spec fn rank_with(rank: spec_fn(usize) -> nat, k: usize, n: nat) -> spec_fn(usize) -> nat {
    |x: usize| if x == k { n } else { rank(x) }
}

proof fn lemma_step_scalar(
    m: EditModel,
    e: EditModel,
    rank: spec_fn(usize) -> nat,
    n: nat,
    s: String,
    k: usize,
    tail: Seq<Event>,
)
    requires
        related(m, e, rank, n, seq![Event::Scalar(s, k)] + tail),
        !(m.finished matches Some(Err(_))),
    ensures
        related(
            step(m, Event::Scalar(s, k)),
            step_eager(e, Event::Scalar(s, k)),
            rank_with(rank, k, n),
            n + 1,
            tail,
        ),
{
    let ev = Event::Scalar(s, k);
    let rest = seq![ev] + tail;
    assert(rest[0] == ev);
    let rank2 = rank_with(rank, k, n);
    let t = Unit::Text(crate::json::quoted(s@));
    let m2 = step(m, ev);
    let e2 = step_eager(e, ev);
    let tt = m.anchors;
    let tt2 = m2.anchors;
    assert(tt2 == tt.insert(k, seq![t]));
    assert(e2.anchors == e.anchors.insert(k, seq![t]));
    assert(m2.stack.len() == m.stack.len());
    assert forall|i: int| 0 <= i < m.stack.len() implies m2.stack[i].anchor == m.stack[i].anchor by {}
    lemma_open_prefix(m2, m);
    lemma_ranked(m, e, rank, n, rest, k);
    // references of the old state never name k
    assert forall|i: int| 0 <= i < m.stack.len() implies all_refs(#[trigger] m.stack[i].units, |r: usize| r != k) by {
        let u = m.stack[i].units;
        assert(all_refs(u, |r: usize| ref_ok(m, rank, n, rest, r)));
        assert forall|j: int| 0 <= j < u.len() && (#[trigger] u[j]) is Ref implies u[j]->Ref_0 != k by {
            lemma_ref_ok_tail(m, rank, n, n, ev, tail, u[j]->Ref_0);
        }
    }
    // the entries
    assert forall|x: usize| #[trigger] tt2.contains_key(x) implies entry_ok(m2, e2, rank2, n + 1, tail, x) by {
        if x == k {
            let one = seq![t];
            assert(one.drop_first() =~= Seq::<Unit>::empty());
            assert(expand(tt2, Seq::<Unit>::empty(), n) == Some(Seq::<Seq<char>>::empty()));
            let c = seq![crate::json::quoted(s@)] + Seq::<Seq<char>>::empty();
            assert(expand(tt2, one, n) == Some(c));
            assert(c.drop_first() =~= Seq::<Seq<char>>::empty());
            assert(flat(Seq::<Seq<char>>::empty()) == Seq::<char>::empty());
            assert(c[0] == crate::json::quoted(s@));
            assert(flat(c) =~= crate::json::quoted(s@));
            assert(text_of(one) =~= crate::json::quoted(s@)) by {
                assert(text_of(Seq::<Unit>::empty()) == Seq::<char>::empty());
            }
            assert(all_refs(one, |r: usize| ref_ok(m2, rank2, rank2(x), tail, r)));
        } else {
            assert(entry_ok(m, e, rank, n, rest, x));
            let u = tt[x];
            lemma_expand_frame(tt, tt2, rank, k, u, rank(x));
            assert forall|j: int| 0 <= j < u.len() && (#[trigger] u[j]) is Ref implies ref_ok(m2, rank2, rank2(x), tail, u[j]->Ref_0) by {
                let r = u[j]->Ref_0;
                lemma_ref_ok_tail(m, rank, rank(x), rank(x), ev, tail, r);
                lemma_ref_ok_next(m, m2, rank, rank2, rank(x), rank(x), ev, tail, r);
            }
        }
    }
    // the open nodes
    assert forall|i: int| 0 <= i < m2.stack.len() implies all_refs(
        #[trigger] m2.stack[i].units,
        |r: usize| ref_ok(m2, rank2, n + 1, tail, r),
    ) by {
        let u = m.stack[i].units;
        assert(all_refs(u, |r: usize| ref_ok(m, rank, n, rest, r)));
        let p2 = |r: usize| ref_ok(m2, rank2, n + 1, tail, r);
        assert forall|j: int| 0 <= j < u.len() && (#[trigger] u[j]) is Ref implies p2(u[j]->Ref_0) by {
            let r = u[j]->Ref_0;
            lemma_ref_ok_tail(m, rank, n, n, ev, tail, r);
            lemma_ref_ok_next(m, m2, rank, rank2, n, n + 1, ev, tail, r);
        }
        if i == m.stack.len() - 1 {
            lemma_all_refs_pushed(u, m.stack[i].value_next, t, p2);
        }
    }
    assert forall|i: int| 0 <= i < m2.stack.len() implies #[trigger] e2.stack[i] == (OpenNode {
        anchor: m2.stack[i].anchor,
        units: subst(e2.anchors, m2.stack[i].units),
        value_next: m2.stack[i].value_next,
    }) by {
        let u = m.stack[i].units;
        lemma_subst_frame(e.anchors, k, seq![t], u);
        if i == m.stack.len() - 1 {
            lemma_subst_pushed(e2.anchors, u, m.stack[i].value_next, t);
        }
    }
    assert(m2.finished == e2.finished);
    assert(m2.stack.len() == e2.stack.len());
    assert(m2.anchors.dom() =~= e2.anchors.dom());
    assert(m2.finished matches Some(Ok(a)) ==> m2.anchors.contains_key(a));
}

proof fn lemma_step_open(
    m: EditModel,
    e: EditModel,
    rank: spec_fn(usize) -> nat,
    n: nat,
    ev: Event,
    k: usize,
    c: char,
    tail: Seq<Event>,
)
    requires
        related(m, e, rank, n, seq![ev] + tail),
        defines(ev, k),
    ensures
        related(open_node(m, k, c), open_node(e, k, c), rank, n + 1, tail),
{
    let rest = seq![ev] + tail;
    let m2 = open_node(m, k, c);
    let e2 = open_node(e, k, c);
    let len = m.stack.len();
    assert forall|r: usize| r != k && is_open_anchor(m2, r) implies is_open_anchor(m, r) by {
        let i = choose|i: int| 0 <= i < m2.stack.len() && #[trigger] m2.stack[i].anchor == r;
        assert(i < len);
        assert(m.stack[i].anchor == r);
    }
    assert forall|x: usize| #[trigger] m2.anchors.contains_key(x) implies entry_ok(m2, e2, rank, n + 1, tail, x) by {
        assert(entry_ok(m, e, rank, n, rest, x));
        let u = m.anchors[x];
        assert forall|j: int| 0 <= j < u.len() && (#[trigger] u[j]) is Ref implies ref_ok(m2, rank, rank(x), tail, u[j]->Ref_0) by {
            lemma_ref_ok_tail(m, rank, rank(x), rank(x), ev, tail, u[j]->Ref_0);
            lemma_ref_ok_next(m, m2, rank, rank, rank(x), rank(x), ev, tail, u[j]->Ref_0);
        }
    }
    assert forall|i: int| 0 <= i < m2.stack.len() implies all_refs(#[trigger] m2.stack[i].units, |r: usize| ref_ok(m2, rank, n + 1, tail, r)) by {
        if i < len {
            let u = m.stack[i].units;
            assert(all_refs(u, |r: usize| ref_ok(m, rank, n, rest, r)));
            assert forall|j: int| 0 <= j < u.len() && (#[trigger] u[j]) is Ref implies ref_ok(m2, rank, n + 1, tail, u[j]->Ref_0) by {
                lemma_ref_ok_tail(m, rank, n, n, ev, tail, u[j]->Ref_0);
                lemma_ref_ok_next(m, m2, rank, rank, n, n + 1, ev, tail, u[j]->Ref_0);
            }
        }
    }
    assert forall|i: int| 0 <= i < m2.stack.len() implies #[trigger] e2.stack[i] == (OpenNode {
        anchor: m2.stack[i].anchor,
        units: subst(e2.anchors, m2.stack[i].units),
        value_next: m2.stack[i].value_next,
    }) by {
        if i < len {
            assert(e.stack[i] == e.stack[i]);
        } else {
            assert(subst(e2.anchors, seq![Unit::Char(c)]) =~= seq![Unit::Char(c)]);
        }
    }
}

proof fn lemma_step_alias(
    m: EditModel,
    e: EditModel,
    rank: spec_fn(usize) -> nat,
    n: nat,
    r: usize,
    tail: Seq<Event>,
)
    requires
        related(m, e, rank, n, seq![Event::Alias(r)] + tail),
        !(m.finished matches Some(Err(_))),
        forall|i: int| 0 <= i < tail.len() ==> !defines(#[trigger] tail[i], r),
    ensures
        related(step(m, Event::Alias(r)), step_eager(e, Event::Alias(r)), rank, n + 1, tail),
{
    let ev = Event::Alias(r);
    let rest = seq![ev] + tail;
    assert forall|x: usize| is_open_anchor(m, x) == is_open_anchor(e, x) by {
        if is_open_anchor(m, x) {
            let i = choose|i: int| 0 <= i < m.stack.len() && #[trigger] m.stack[i].anchor == x;
            assert(e.stack[i].anchor == x);
        }
        if is_open_anchor(e, x) {
            let i = choose|i: int| 0 <= i < e.stack.len() && #[trigger] e.stack[i].anchor == x;
            assert(m.stack[i].anchor == x);
        }
    }
    if is_open_anchor(m, r) {
        lemma_step_keep(m, e, rank, n, ev, tail, Some(Err(EditingError::RecursiveRef)));
    } else if m.stack.len() == 0 {
        lemma_step_keep(m, e, rank, n, ev, tail, Some(Err(EditingError::Syntax)));
    } else {
        let u0 = Unit::Ref(r);
        let m2 = push_top(m, u0);
        let e2 = step_eager(e, ev);
        assert(e2 == push_top(e, subst_unit(e.anchors, u0)));
        let len = m.stack.len();
        assert forall|i: int| 0 <= i < len implies m2.stack[i].anchor == m.stack[i].anchor by {}
        lemma_open_prefix(m2, m);
        assert(ref_ok(m, rank, n + 1, tail, r)) by {
            if m.anchors.contains_key(r) {
                assert(entry_ok(m, e, rank, n, rest, r));
            }
        }
        assert forall|x: usize| #[trigger] m2.anchors.contains_key(x) implies entry_ok(m2, e2, rank, n + 1, tail, x) by {
            assert(entry_ok(m, e, rank, n, rest, x));
            let u = m.anchors[x];
            assert forall|j: int| 0 <= j < u.len() && (#[trigger] u[j]) is Ref implies ref_ok(m2, rank, rank(x), tail, u[j]->Ref_0) by {
                lemma_ref_ok_next(m, m2, rank, rank, rank(x), rank(x), ev, tail, u[j]->Ref_0);
            }
        }
        assert forall|i: int| 0 <= i < m2.stack.len() implies all_refs(#[trigger] m2.stack[i].units, |x: usize| ref_ok(m2, rank, n + 1, tail, x)) by {
            let u = m.stack[i].units;
            let p2 = |x: usize| ref_ok(m2, rank, n + 1, tail, x);
            assert(all_refs(u, |x: usize| ref_ok(m, rank, n, rest, x)));
            assert forall|j: int| 0 <= j < u.len() && (#[trigger] u[j]) is Ref implies p2(u[j]->Ref_0) by {
                lemma_ref_ok_next(m, m2, rank, rank, n, n + 1, ev, tail, u[j]->Ref_0);
            }
            if i == len - 1 {
                assert(p2(r));
                lemma_all_refs_pushed(u, m.stack[i].value_next, u0, p2);
            }
        }
        assert forall|i: int| 0 <= i < m2.stack.len() implies #[trigger] e2.stack[i] == (OpenNode {
            anchor: m2.stack[i].anchor,
            units: subst(e2.anchors, m2.stack[i].units),
            value_next: m2.stack[i].value_next,
        }) by {
            assert(e.stack[i] == e.stack[i]);
            if i == len - 1 {
                lemma_subst_pushed(e.anchors, m.stack[i].units, m.stack[i].value_next, u0);
            }
        }
    }
}

proof fn lemma_step_end(
    m: EditModel,
    e: EditModel,
    rank: spec_fn(usize) -> nat,
    n: nat,
    ev: Event,
    c: char,
    tail: Seq<Event>,
)
    requires
        related(m, e, rank, n, seq![ev] + tail),
        m.stack.len() > 0,
        !defines(ev, m.stack.last().anchor),
    ensures
        related(
            close_top(push_top(m, Unit::Char(c))),
            end_eager(e, c),
            rank_with(rank, m.stack.last().anchor, n),
            n + 1,
            tail,
        ),
{
    let rest = seq![ev] + tail;
    let len = m.stack.len();
    let k = m.stack.last().anchor;
    let rank2 = rank_with(rank, k, n);
    let tt = m.anchors;
    let ea = e.anchors;
    let m1 = push_top(m, Unit::Char(c));
    let e1 = push_top(e, Unit::Char(c));
    let top = m.stack[len - 1];
    let uu = pushed(top.units, top.value_next, Unit::Char(c));
    assert(m1.stack[len - 1].units == uu);
    assert(e.stack[len - 1] == e.stack[len - 1]);
    lemma_subst_pushed(ea, top.units, top.value_next, Unit::Char(c));
    assert(e1.stack[len - 1].units == subst(ea, uu));
    let fu = fold_units(uu, seq![]);
    let m2 = close_top(m1);
    let e2 = end_eager(e, c);
    let x_text = text_of(subst(ea, uu));
    assert(m2.anchors == tt.insert(k, fu));
    assert(e2.anchors == ea.insert(k, seq![Unit::Text(x_text)]));
    let ea2 = e2.anchors;
    let tt2 = m2.anchors;
    assert(is_open_anchor(m, k)) by {
        assert(m.stack[len - 1].anchor == k);
    }
    // the stack of m2 is a prefix of that of m, anchor by anchor
    assert(m2.stack.len() == len - 1);
    assert forall|i: int| 0 <= i < len - 1 implies m2.stack[i].anchor == m.stack[i].anchor by {}
    lemma_open_prefix(m2, m);
    lemma_ranked(m, e, rank, n, rest, k);
    // the references of the closing node
    let pclose = |r: usize|
        (tt2.contains_key(r) ==> rank2(r) < n && expand(tt2, tt2[r], rank2(r)) is Some && flat(
            expand(tt2, tt2[r], rank2(r))->0,
        ) == text_at(ea2, r)) && (!tt2.contains_key(r) ==> !ea2.contains_key(r));
    let pnew = |r: usize| ref_ok(m2, rank2, n, tail, r);
    let pne = |r: usize| r != k;
    assert(all_refs(top.units, |r: usize| ref_ok(m, rank, n, rest, r)));
    assert forall|j: int| 0 <= j < uu.len() && (#[trigger] uu[j]) is Ref implies pclose(uu[j]->Ref_0)
        && pnew(uu[j]->Ref_0) && pne(uu[j]->Ref_0) by {
        assert(uu[j] == top.units[j]);
        let r = uu[j]->Ref_0;
        assert(ref_ok(m, rank, n, rest, r));
        assert(r != k);
        lemma_ref_ok_next(m, m2, rank, rank2, n, n, ev, tail, r);
        if tt.contains_key(r) {
            assert(entry_ok(m, e, rank, n, rest, r));
            let ur = tt[r];
            assert(all_refs(ur, |x: usize| x != k && (tt.contains_key(x) ==> rank(x) < rank(r))));
            lemma_expand_frame(tt, tt2, rank, k, ur, rank(r));
        }
    }
    lemma_fold_text(tt2, ea2, rank2, uu, seq![], n);
    lemma_subst_frame(ea, k, seq![Unit::Text(x_text)], uu);
    assert(Seq::<char>::empty() + text_of(subst(ea2, uu)) =~= x_text);
    assert(text_of(seq![Unit::Text(x_text)]) =~= x_text) by {
        assert(seq![Unit::Text(x_text)].drop_first() =~= Seq::<Unit>::empty());
        assert(text_of(Seq::<Unit>::empty()) == Seq::<char>::empty());
    }
    lemma_fold_refs(uu, seq![], pnew);
    // the entries
    assert forall|x: usize| #[trigger] tt2.contains_key(x) implies entry_ok(m2, e2, rank2, n + 1, tail, x) by {
        if x != k {
            assert(entry_ok(m, e, rank, n, rest, x));
            let u = tt[x];
            lemma_expand_frame(tt, tt2, rank, k, u, rank(x));
            assert forall|j: int| 0 <= j < u.len() && (#[trigger] u[j]) is Ref implies ref_ok(m2, rank2, rank2(x), tail, u[j]->Ref_0) by {
                let r = u[j]->Ref_0;
                assert(ref_ok(m, rank, rank(x), rest, r));
                lemma_ref_ok_next(m, m2, rank, rank2, rank(x), rank(x), ev, tail, r);
            }
        }
    }
    // the open nodes
    assert forall|i: int| 0 <= i < m2.stack.len() implies all_refs(#[trigger] m2.stack[i].units, |r: usize| ref_ok(m2, rank2, n + 1, tail, r)) by {
        let u = m.stack[i].units;
        let p2 = |r: usize| ref_ok(m2, rank2, n + 1, tail, r);
        assert(all_refs(u, |r: usize| ref_ok(m, rank, n, rest, r)));
        assert forall|j: int| 0 <= j < u.len() && (#[trigger] u[j]) is Ref implies p2(u[j]->Ref_0) by {
            let r = u[j]->Ref_0;
            assert(ref_ok(m, rank, n, rest, r));
            lemma_ref_ok_next(m, m2, rank, rank2, n, n + 1, ev, tail, r);
        }
        if i == len - 2 {
            assert forall|j: int| 0 <= j < uu.len() && (#[trigger] uu[j]) is Ref implies p2(uu[j]->Ref_0) by {
                assert(pnew(uu[j]->Ref_0));
            }
            lemma_all_refs_pushed(u, m.stack[i].value_next, Unit::Char(c), p2);
            lemma_all_refs_concat(separated(u, m.stack[i].value_next), uu, p2);
        }
    }
    assert forall|i: int| 0 <= i < m2.stack.len() implies #[trigger] e2.stack[i] == (OpenNode {
        anchor: m2.stack[i].anchor,
        units: subst(e2.anchors, m2.stack[i].units),
        value_next: m2.stack[i].value_next,
    }) by {
        let u = m.stack[i].units;
        assert(e.stack[i] == e.stack[i]);
        assert(all_refs(u, |r: usize| ref_ok(m, rank, n, rest, r)));
        assert forall|j: int| 0 <= j < u.len() && (#[trigger] u[j]) is Ref implies pne(u[j]->Ref_0) by {
            assert(ref_ok(m, rank, n, rest, u[j]->Ref_0));
        }
        lemma_subst_frame(ea, k, seq![Unit::Text(x_text)], u);
        if i == len - 2 {
            let vn = m.stack[i].value_next;
            lemma_subst_separated(ea, u, vn);
            lemma_subst_concat(ea, separated(u, vn), uu);
            lemma_all_refs_pushed(u, vn, Unit::Char(c), pne);
            lemma_all_refs_concat(separated(u, vn), uu, pne);
            lemma_subst_frame(ea, k, seq![Unit::Text(x_text)], separated(u, vn) + uu);
        }
    }
    assert(m2.finished == e2.finished);
    assert(m2.anchors.dom() =~= e2.anchors.dom());
}

/// After the events `evs`, with `tail` still to come, the lazy and the
/// eager builders are related, under some ranking of the lazy table.
proof fn lemma_runs_related(evs: Seq<Event>, tail: Seq<Event>) -> (rank: spec_fn(usize) -> nat)
    requires
        no_forward_alias(evs + tail),
    ensures
        related(run(evs), run_eager(evs), rank, evs.len() as nat, tail),
    decreases evs.len(),
{
    if evs.len() == 0 {
        let rank = |x: usize| 0nat;
        let m = run(evs);
        assert(m.anchors.dom() =~= run_eager(evs).anchors.dom());
        rank
    } else {
        let pre = evs.drop_last();
        let ev = evs.last();
        let all = evs + tail;
        let rest = seq![ev] + tail;
        assert(pre + rest =~= all);
        let rank = lemma_runs_related(pre, rest);
        let m = run(pre);
        let e = run_eager(pre);
        let n = pre.len() as nat;
        assert(all[n as int] == ev);
        if m.finished matches Some(Err(_)) {
            lemma_step_keep(m, e, rank, n, ev, tail, m.finished);
            assert(run(evs) == EditModel { finished: m.finished, ..m });
            assert(run_eager(evs) == EditModel { finished: m.finished, ..e });
            rank
        } else {
            match ev {
                Event::Scalar(s, k) => {
                    lemma_step_scalar(m, e, rank, n, s, k, tail);
                    rank_with(rank, k, n)
                },
                Event::SequenceStart(k) => {
                    lemma_step_open(m, e, rank, n, ev, k, '[', tail);
                    rank
                },
                Event::MappingStart(k) => {
                    lemma_step_open(m, e, rank, n, ev, k, '{', tail);
                    rank
                },
                Event::SequenceEnd | Event::MappingEnd => {
                    let c = if ev is SequenceEnd {
                        ']'
                    } else {
                        '}'
                    };
                    if m.stack.len() == 0 {
                        lemma_step_keep(m, e, rank, n, ev, tail, m.finished);
                        assert(run(evs) == EditModel { finished: m.finished, ..m });
                        assert(run_eager(evs) == EditModel { finished: m.finished, ..e });
                        rank
                    } else {
                        lemma_step_end(m, e, rank, n, ev, c, tail);
                        rank_with(rank, m.stack.last().anchor, n)
                    }
                },
                Event::Alias(r) => {
                    assert forall|i: int| 0 <= i < tail.len() implies !defines(#[trigger] tail[i], r) by {
                        assert(all[n + 1 + i] == tail[i]);
                    }
                    lemma_step_alias(m, e, rank, n, r, tail);
                    rank
                },
                _ => {
                    lemma_step_keep(m, e, rank, n, ev, tail, m.finished);
                    assert(run(evs) == EditModel { finished: m.finished, ..m });
                    assert(run_eager(evs) == EditModel { finished: m.finished, ..e });
                    rank
                },
            }
        }
    }
}

/// Expanding lazily gives what substituting every alias eagerly gives:
/// where no alias names an anchor given to a node at or after it, the lazy
/// and the eager builders succeed or fail alike, and on success the root's
/// template expands finitely, its chunks joined being the eager text.
pub proof fn lemma_lazy_matches_eager(evs: Seq<Event>)
    requires
        no_forward_alias(evs),
    ensures
        outcome(run(evs)) == outcome(run_eager(evs)),
        outcome(run(evs)) matches Ok(a) ==> {
            let t = run(evs).anchors;
            &&& t.contains_key(a)
            &&& expands(t, t[a])
            &&& flat(pending(t, t[a])) == text_at(run_eager(evs).anchors, a)
        },
{
    assert(evs + Seq::<Event>::empty() =~= evs);
    let rank = lemma_runs_related(evs, seq![]);
    let m = run(evs);
    let e = run_eager(evs);
    if let Ok(a) = outcome(m) {
        assert(m.finished == Some(Ok::<usize, EditingError>(a)));
        assert(entry_ok(m, e, rank, evs.len() as nat, seq![], a));
        lemma_pending(m.anchors, m.anchors[a], rank(a));
    }
}

/// A snapshot built from events in which no alias names an anchor given to
/// a node at or after it expands finitely, and its chunks joined are the
/// text of the eagerly built document.
pub proof fn lemma_snapshot_matches_eager(evs: Seq<Event>, f: Folded)
    requires
        no_forward_alias(evs),
        outcome(run(evs)) == Ok::<usize, EditingError>(f.root()),
        f.table() == run(evs).anchors,
    ensures
        outcome(run_eager(evs)) == Ok::<usize, EditingError>(f.root()),
        f.expands(),
        flat(f.eager()) == text_at(run_eager(evs).anchors, f.root()),
{
    lemma_lazy_matches_eager(evs);
}

} // verus!
