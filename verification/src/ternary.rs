use vstd::prelude::*;

verus! {

/// A ternary value: Negative (-1), Zero (0), or Positive (+1).
#[derive(Clone, Copy, Debug, PartialEq, Eq, Hash, Structural)]
pub enum Ternary {
    Neg,
    Zero,
    Pos,
}

/// The integer a ternary value stands for.
pub open spec fn ternary_value(t: Ternary) -> int {
    match t {
        Ternary::Neg => -1,
        Ternary::Zero => 0,
        Ternary::Pos => 1,
    }
}

impl Ternary {
    pub fn to_i8(self) -> (r: i8)
        ensures
            r as int == ternary_value(self),
            self == Ternary::Neg ==> r == -1,
            self == Ternary::Zero ==> r == 0,
            self == Ternary::Pos ==> r == 1,
    {
        match self {
            Ternary::Neg => -1,
            Ternary::Zero => 0,
            Ternary::Pos => 1,
        }
    }
}

/// A single element in a ternary pattern.
#[derive(Clone, Copy, Debug, PartialEq, Eq, Structural)]
pub enum PatternElem {
    /// Match exactly this ternary value.
    Exact(Ternary),
    /// Match any ternary value (wildcard).
    Any,
    /// Match either of two values.
    Alt(Ternary, Ternary),
    /// Match anything except this value.
    Not(Ternary),
}

/// Whether a pattern element accepts a value.
pub open spec fn elem_accepts(elem: PatternElem, val: Ternary) -> bool {
    match elem {
        PatternElem::Exact(t) => t == val,
        PatternElem::Any => true,
        PatternElem::Alt(a, b) => val == a || val == b,
        PatternElem::Not(t) => val != t,
    }
}

/// A value that `elem` accepts: every element accepts one.
pub open spec fn accepted_value(elem: PatternElem) -> Ternary {
    match elem {
        PatternElem::Exact(t) => t,
        PatternElem::Any => Ternary::Zero,
        PatternElem::Alt(a, _) => a,
        PatternElem::Not(t) => match t {
            Ternary::Zero => Ternary::Pos,
            _ => Ternary::Zero,
        },
    }
}

/// An input matches a pattern when it has the pattern's length and every
/// element of the pattern accepts the value at the same position.
pub open spec fn pattern_matches(elems: Seq<PatternElem>, input: Seq<Ternary>) -> bool {
    &&& input.len() == elems.len()
    &&& forall|i: int| 0 <= i < elems.len() ==> #[trigger] elem_accepts(elems[i], input[i])
}

/// Each value stands for its integer: `Neg` for -1, `Zero` for 0 and `Pos` for +1, so
/// the three are ordered `Neg < Zero < Pos` and no two stand for the same integer.
pub proof fn lemma_ternary_values(t: Ternary, u: Ternary)
    ensures
        ternary_value(Ternary::Neg) == -1,
        ternary_value(Ternary::Zero) == 0,
        ternary_value(Ternary::Pos) == 1,
        -1 <= ternary_value(t) <= 1,
        ternary_value(t) == ternary_value(u) <==> t == u,
{
}

/// What each kind of element accepts: `Exact(t)` only `t`; `Any` every value;
/// `Alt(a, b)` exactly `a` and `b`; `Not(t)` every value but `t`.
pub proof fn lemma_element_meaning(t: Ternary, a: Ternary, b: Ternary, v: Ternary)
    ensures
        elem_accepts(PatternElem::Exact(t), v) <==> v == t,
        elem_accepts(PatternElem::Any, v),
        elem_accepts(PatternElem::Alt(a, b), v) <==> (v == a || v == b),
        elem_accepts(PatternElem::Alt(a, b), a),
        elem_accepts(PatternElem::Alt(a, b), b),
        elem_accepts(PatternElem::Not(t), v) <==> v != t,
        !elem_accepts(PatternElem::Not(t), t),
{
}

/// Every element accepts some value, and `accepted_value` is one.
pub proof fn lemma_accepted_value(elem: PatternElem)
    ensures
        elem_accepts(elem, accepted_value(elem)),
{
}

/// The empty pattern matches exactly the empty input.
pub proof fn lemma_pattern_empty(w: Seq<Ternary>)
    ensures
        pattern_matches(Seq::<PatternElem>::empty(), w) <==> w.len() == 0,
{
}

/// A pattern matches only inputs of its own length.
pub proof fn lemma_pattern_length(elems: Seq<PatternElem>, w: Seq<Ternary>)
    ensures
        pattern_matches(elems, w) ==> w.len() == elems.len(),
{
}

/// A one-element pattern matches exactly the one-value inputs whose value the element
/// accepts.
pub proof fn lemma_pattern_single(e: PatternElem, v: Ternary)
    ensures
        pattern_matches(seq![e], seq![v]) <==> elem_accepts(e, v),
{
    if elem_accepts(e, v) {
        assert forall|i: int| 0 <= i < 1 implies #[trigger] elem_accepts(seq![e][i], seq![v][i]) by {
            assert(seq![e][i] == e && seq![v][i] == v);
        }
    }
    if pattern_matches(seq![e], seq![v]) {
        assert(elem_accepts(seq![e][0], seq![v][0]));
    }
}

/// Patterns match piece by piece: `e1 + e2` matches `w1 + w2`, with `w1` as long as `e1`,
/// exactly when `e1` matches `w1` and `e2` matches `w2`.
pub proof fn lemma_pattern_concat(e1: Seq<PatternElem>, e2: Seq<PatternElem>, w1: Seq<Ternary>, w2: Seq<Ternary>)
    requires
        w1.len() == e1.len(),
    ensures
        pattern_matches(e1 + e2, w1 + w2) <==> pattern_matches(e1, w1) && pattern_matches(e2, w2),
{
    let e = e1 + e2;
    let w = w1 + w2;
    if pattern_matches(e, w) {
        assert forall|i: int| 0 <= i < e1.len() implies #[trigger] elem_accepts(e1[i], w1[i]) by {
            assert(elem_accepts(e[i], w[i]));
        }
        assert forall|i: int| 0 <= i < e2.len() implies #[trigger] elem_accepts(e2[i], w2[i]) by {
            assert(elem_accepts(e[i + e1.len()], w[i + e1.len()]));
        }
    }
    if pattern_matches(e1, w1) && pattern_matches(e2, w2) {
        assert forall|i: int| 0 <= i < e.len() implies #[trigger] elem_accepts(e[i], w[i]) by {
            if i < e1.len() {
                assert(elem_accepts(e1[i], w1[i]));
            } else {
                assert(elem_accepts(e2[i - e1.len()], w2[i - e1.len()]));
            }
        }
    }
}

/// A compiled pattern: a sequence of PatternElems.
#[derive(Clone, Debug)]
pub struct TernaryPattern {
    pub elements: Vec<PatternElem>,
}

impl TernaryPattern {
    /// Create a pattern from a vector of PatternElems.
    pub fn new(elements: Vec<PatternElem>) -> (p: Self)
        ensures
            p.elements@ == elements@,
    {
        TernaryPattern { elements }
    }

    /// Create an exact-match pattern from a ternary sequence.
    pub fn exact(seq: &[Ternary]) -> (p: Self)
        ensures
            p.elements@.len() == seq@.len(),
            forall|i: int| 0 <= i < seq@.len() ==> p.elements@[i] == PatternElem::Exact(#[trigger] seq@[i]),
    {
        let mut elements: Vec<PatternElem> = Vec::new();
        let mut i: usize = 0;
        while i < seq.len()
            invariant
                i <= seq@.len(),
                elements@.len() == i,
                forall|j: int| 0 <= j < i ==> elements@[j] == PatternElem::Exact(#[trigger] seq@[j]),
            decreases seq@.len() - i,
        {
            elements.push(PatternElem::Exact(seq[i]));
            i = i + 1;
        }
        TernaryPattern { elements }
    }

    /// Check if an element matches a ternary value.
    pub fn elem_matches(elem: PatternElem, val: Ternary) -> (r: bool)
        ensures
            r == elem_accepts(elem, val),
            elem matches PatternElem::Exact(t) ==> (r <==> val == t),
            elem is Any ==> r,
            elem matches PatternElem::Alt(a, b) ==> (r <==> (val == a || val == b)),
            elem matches PatternElem::Not(t) ==> (r <==> val != t),
    {
        match elem {
            PatternElem::Exact(t) => t == val,
            PatternElem::Any => true,
            PatternElem::Alt(a, b) => val == a || val == b,
            PatternElem::Not(t) => val != t,
        }
    }
}

} // verus!
