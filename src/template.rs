//! Templates: the output of one node, with references to other nodes left open.

use vstd::prelude::*;

use crate::json::push_char;

verus! {

/// Identity of a node that an alias may refer to.
#[derive(Debug, Clone, Copy, PartialEq, Eq, Structural, PartialOrd, Ord, Hash)]
pub struct Anchor(pub usize);

/// One emission unit of a template as it is being built.
#[derive(Debug, Clone)]
pub enum TemplateItem {
    /// Structural punctuation: a bracket, a brace or a separator.
    Char(char),
    /// A finished literal, already quoted.
    Text(String),
    /// The output of another node, resolved at expansion time.
    Ref(Anchor),
}

/// Abstract value of an emission unit.
pub enum Unit {
    Char(char),
    Text(Seq<char>),
    Ref(usize),
}

impl TemplateItem {
    pub open spec fn unit(self) -> Unit {
        match self {
            TemplateItem::Char(c) => Unit::Char(c),
            TemplateItem::Text(s) => Unit::Text(s@),
            TemplateItem::Ref(a) => Unit::Ref(a.0),
        }
    }
}

/// Abstract value of a unit of a finished template.
pub open spec fn piece_unit(p: Result<String, Anchor>) -> Unit {
    match p {
        Ok(s) => Unit::Text(s@),
        Err(a) => Unit::Ref(a.0),
    }
}

pub open spec fn units_of(items: Seq<TemplateItem>) -> Seq<Unit> {
    items.map_values(|i: TemplateItem| i.unit())
}

pub open spec fn pieces_units(ps: Seq<Result<String, Anchor>>) -> Seq<Unit> {
    ps.map_values(|p: Result<String, Anchor>| piece_unit(p))
}

/// An opening bracket or brace.
pub open spec fn is_open(u: Unit) -> bool {
    u == Unit::Char('[') || u == Unit::Char('{')
}

/// The separator that goes before the next content unit of a template,
/// where `value_next` tells whether a mapping waits for a value.
pub open spec fn separator(units: Seq<Unit>, value_next: bool) -> Option<char> {
    if units.len() == 0 || is_open(units.last()) {
        None
    } else if units[0] == Unit::Char('[') {
        Some(',')
    } else if units[0] == Unit::Char('{') {
        if value_next {
            Some(':')
        } else {
            Some(',')
        }
    } else {
        None
    }
}

/// The units followed by the separator that the next content unit needs.
pub open spec fn separated(units: Seq<Unit>, value_next: bool) -> Seq<Unit> {
    match separator(units, value_next) {
        Some(c) => units.push(Unit::Char(c)),
        None => units,
    }
}

/// The units after pushing `u`: punctuation goes in as it is, anything
/// else behind the separator that it needs.
pub open spec fn pushed(units: Seq<Unit>, value_next: bool, u: Unit) -> Seq<Unit> {
    if u is Char {
        units.push(u)
    } else {
        separated(units, value_next).push(u)
    }
}

/// Coalesces runs of literal units, starting with the pending literal `lit`,
/// into single texts; a reference is always preceded by a text, possibly empty.
pub open spec fn fold_units(units: Seq<Unit>, lit: Seq<char>) -> Seq<Unit>
    decreases units.len(),
{
    if units.len() == 0 {
        if lit.len() > 0 {
            seq![Unit::Text(lit)]
        } else {
            seq![]
        }
    } else {
        match units[0] {
            Unit::Char(c) => fold_units(units.drop_first(), lit.push(c)),
            Unit::Text(s) => fold_units(units.drop_first(), lit + s),
            Unit::Ref(a) => seq![Unit::Text(lit), Unit::Ref(a)] + fold_units(
                units.drop_first(),
                seq![],
            ),
        }
    }
}

/// Texts at even positions, references at odd ones.
pub open spec fn alternates(units: Seq<Unit>) -> bool {
    forall|i: int|
        0 <= i < units.len() ==> if i % 2 == 0 {
            #[trigger] units[i] is Text
        } else {
            units[i] is Ref
        }
}

proof fn lemma_alternates_concat(a: Seq<Unit>, b: Seq<Unit>)
    requires
        alternates(a),
        alternates(b),
        a.len() % 2 == 0,
    ensures
        alternates(a + b),
{
    assert forall|i: int| 0 <= i < (a + b).len() implies if i % 2 == 0 {
        #[trigger] (a + b)[i] is Text
    } else {
        (a + b)[i] is Ref
    } by {
        if i >= a.len() {
            assert((a + b)[i] == b[i - a.len()]);
            assert((i - a.len()) % 2 == i % 2);
        }
    }
}

/// Folding always gives alternating texts and references.
pub proof fn lemma_fold_alternates(units: Seq<Unit>, lit: Seq<char>)
    ensures
        alternates(fold_units(units, lit)),
    decreases units.len(),
{
    if units.len() > 0 {
        lemma_fold_alternates(units.drop_first(), lit);
        lemma_fold_alternates(units.drop_first(), seq![]);
        lemma_fold_alternates(units.drop_first(), lit.push(units[0]->Char_0));
        if let Unit::Text(s) = units[0] {
            lemma_fold_alternates(units.drop_first(), lit + s);
        }
        if let Unit::Ref(a) = units[0] {
            let head = seq![Unit::Text(lit), Unit::Ref(a)];
            assert(alternates(head)) by {
                assert forall|i: int| 0 <= i < head.len() implies if i % 2 == 0 {
                    #[trigger] head[i] is Text
                } else {
                    head[i] is Ref
                } by {
                    if i == 0 {
                    } else {
                    }
                }
            }
            lemma_alternates_concat(head, fold_units(units.drop_first(), seq![]));
        }
    }
}

/// A template under construction.
#[derive(Debug, Clone)]
pub struct StringHole {
    data: Vec<TemplateItem>,
    value_next: bool,
}

/// A finished template: texts and references, alternating, text first.
#[derive(Debug, Clone)]
pub struct Hole(Vec<Result<String, Anchor>>);

impl Hole {
    pub closed spec fn units(&self) -> Seq<Unit> {
        pieces_units(self.0@)
    }

    /// A hole of one finished literal.
    pub fn text(s: String) -> (r: Hole)
        ensures
            r.units() == seq![Unit::Text(s@)],
    {
        let r = Hole(vec![Ok(s)]);
        assert(r.units() =~= seq![Unit::Text(s@)]);
        r
    }

    pub fn len(&self) -> (r: usize)
        ensures
            r == self.units().len(),
    {
        self.0.len()
    }

    /// The unit at `i`, as a literal or a reference.
    pub fn get(&self, i: usize) -> (r: &Result<String, Anchor>)
        requires
            i < self.units().len(),
        ensures
            piece_unit(*r) == self.units()[i as int],
    {
        &self.0[i]
    }
}

impl StringHole {
    pub closed spec fn units(&self) -> Seq<Unit> {
        units_of(self.data@)
    }

    /// Whether a mapping template waits for a value next.
    pub closed spec fn expects_value(&self) -> bool {
        self.value_next
    }

    pub fn new() -> (r: StringHole)
        ensures
            r.units() == Seq::<Unit>::empty(),
            r.expects_value(),
    {
        let r = StringHole { data: Vec::new(), value_next: true };
        assert(r.units() =~= Seq::<Unit>::empty());
        r
    }

    pub fn singleton(a: TemplateItem) -> (r: StringHole)
        ensures
            r.units() == seq![a.unit()],
            r.expects_value(),
    {
        let r = StringHole { data: vec![a], value_next: true };
        assert(r.units() =~= seq![a.unit()]);
        r
    }

    /// Pushes the separator that the next content unit needs, if any;
    /// tells whether one was pushed.
    fn prepend_comma(&mut self) -> (r: bool)
        ensures
            final(self).units() == separated(old(self).units(), old(self).expects_value()),
            final(self).expects_value() == old(self).expects_value(),
            r == (separator(old(self).units(), old(self).expects_value()) is Some),
    {
        let n = self.data.len();
        if n == 0 {
            return false;
        }
        let last_open = match &self.data[n - 1] {
            TemplateItem::Char(c) => *c == '{' || *c == '[',
            _ => false,
        };
        assert(last_open == is_open(self.units().last()));
        if last_open {
            return false;
        }
        let sep = match &self.data[0] {
            TemplateItem::Char(c) => {
                if *c == '[' {
                    Some(',')
                } else if *c == '{' {
                    if self.value_next {
                        Some(':')
                    } else {
                        Some(',')
                    }
                } else {
                    None
                }
            },
            _ => None,
        };
        assert(sep == separator(self.units(), self.value_next));
        match sep {
            Some(c) => {
                self.data.push(TemplateItem::Char(c));
                assert(self.units() =~= old(self).units().push(Unit::Char(c)));
                true
            },
            None => false,
        }
    }

    /// Pushes one unit, behind the separator that it needs.
    pub fn push(&mut self, item: TemplateItem)
        ensures
            final(self).units() == pushed(old(self).units(), old(self).expects_value(), item.unit()),
            final(self).expects_value() == !old(self).expects_value(),
    {
        if !matches!(item, TemplateItem::Char(_)) {
            self.prepend_comma();
        }
        let ghost before = self.units();
        self.data.push(item);
        assert(self.units() =~= before.push(item.unit()));
        self.value_next = !self.value_next;
    }

    /// Appends the units of a closed child template, counted as one content unit.
    pub fn append(&mut self, item: &mut StringHole)
        ensures
            final(self).units() == separated(old(self).units(), old(self).expects_value())
                + old(item).units(),
            final(self).expects_value() == !old(self).expects_value(),
            final(item).units() == Seq::<Unit>::empty(),
    {
        self.prepend_comma();
        let ghost before = self.units();
        self.data.append(&mut item.data);
        assert(self.units() =~= before + old(item).units());
        assert(item.units() =~= Seq::<Unit>::empty());
        self.value_next = !self.value_next;
    }

    /// The finished template: each run of literal units becomes one text.
    pub fn fold(&self) -> (r: Hole)
        ensures
            r.units() == fold_units(self.units(), seq![]),
    {
        let mut res: Vec<Result<String, Anchor>> = Vec::new();
        let mut st = String::new();
        let n = self.data.len();
        let mut i: usize = 0;
        assert(pieces_units(res@) =~= Seq::<Unit>::empty());
        assert(self.units().skip(0) =~= self.units());
        while i < n
            invariant
                n == self.data@.len(),
                i <= n,
                fold_units(self.units(), seq![]) == pieces_units(res@) + fold_units(
                    self.units().skip(i as int),
                    st@,
                ),
            decreases n - i,
        {
            let ghost rest = self.units().skip(i as int);
            assert(rest.drop_first() =~= self.units().skip(i + 1));
            assert(rest[0] == self.data@[i as int].unit());
            match &self.data[i] {
                TemplateItem::Char(c) => {
                    push_char(&mut st, *c);
                },
                TemplateItem::Text(s) => {
                    st.append(s.as_str());
                },
                TemplateItem::Ref(r) => {
                    let ghost before = pieces_units(res@);
                    let ghost lit = st@;
                    res.push(Ok(st));
                    res.push(Err(*r));
                    assert(pieces_units(res@) =~= before + seq![Unit::Text(lit), Unit::Ref(r.0)]);
                    st = String::new();
                    assert(fold_units(rest, lit) == seq![Unit::Text(lit), Unit::Ref(r.0)]
                        + fold_units(self.units().skip(i + 1), st@));
                },
            }
            i = i + 1;
        }
        assert(self.units().skip(n as int).len() == 0);
        let ghost before = pieces_units(res@);
        if !st.as_str().is_empty() {
            let ghost lit = st@;
            res.push(Ok(st));
            assert(pieces_units(res@) =~= before + seq![Unit::Text(lit)]);
        } else {
            assert(before + fold_units(self.units().skip(n as int), st@) =~= before);
        }
        Hole(res)
    }
}

} // verus!
