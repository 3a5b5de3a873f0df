//! Sequences of axis labels: where a label occurs, and in which order the
//! labels of an expression come.

use vstd::prelude::*;

verus! {

/// The positions at which `c` occurs in `labels`, in increasing order.
pub open spec fn positions(labels: Seq<char>, c: char) -> Seq<int>
    decreases labels.len(),
{
    if labels.len() == 0 {
        Seq::empty()
    } else {
        let before = positions(labels.drop_last(), c);
        if labels.last() == c {
            before.push(labels.len() - 1)
        } else {
            before
        }
    }
}

/// The distinct labels of a sequence, in the order of their first occurrences.
pub open spec fn distinct(labels: Seq<char>) -> Seq<char>
    decreases labels.len(),
{
    if labels.len() == 0 {
        Seq::empty()
    } else {
        let before = distinct(labels.drop_last());
        if before.contains(labels.last()) {
            before
        } else {
            before.push(labels.last())
        }
    }
}

/// The sequences of `rows`, one after the other.
pub open spec fn joined(rows: Seq<Seq<char>>) -> Seq<char>
    decreases rows.len(),
{
    if rows.len() == 0 {
        Seq::empty()
    } else {
        joined(rows.drop_last()) + rows.last()
    }
}

/// The contents of a vector of vectors.
pub open spec fn rows<T>(v: Seq<Vec<T>>) -> Seq<Seq<T>> {
    Seq::new(v.len(), |i: int| v[i]@)
}

/// The labels of the axes of some inputs and some outputs, as an einsum
/// expression such as `mk,kn->mn` lists them: one label for each axis of each
/// slot, the same label on the axes that run together.
#[verifier::ext_equal]
pub struct Expr {
    pub inputs: Seq<Seq<char>>,
    pub outputs: Seq<Seq<char>>,
}

impl Expr {
    /// The distinct labels: first those of the outputs, then those that only
    /// the inputs have, each in the order of first occurrence.
    pub open spec fn labels(self) -> Seq<char> {
        distinct(joined(self.outputs) + joined(self.inputs))
    }

    /// Whether the label occurs anywhere.
    pub open spec fn has(self, c: char) -> bool {
        self.labels().contains(c)
    }

    /// How many axes of an input carry the label.
    pub open spec fn count_in(self, slot: int, c: char) -> nat {
        positions(self.inputs[slot], c).len()
    }

    /// How many axes of an output carry the label.
    pub open spec fn count_out(self, slot: int, c: char) -> nat {
        positions(self.outputs[slot], c).len()
    }

    /// The first axis of an input that carries the label.
    pub open spec fn first_in(self, slot: int, c: char) -> int {
        positions(self.inputs[slot], c)[0]
    }

    /// The first axis of an output that carries the label.
    pub open spec fn first_out(self, slot: int, c: char) -> int {
        positions(self.outputs[slot], c)[0]
    }
}

/// Positions are those of the label, in increasing order, and all of them.
pub proof fn lemma_positions(labels: Seq<char>, c: char)
    ensures
        forall|i: int|
            0 <= i < positions(labels, c).len() ==> 0 <= #[trigger] positions(labels, c)[i]
                < labels.len() && labels[positions(labels, c)[i]] == c,
        forall|i: int, j: int|
            0 <= i < j < positions(labels, c).len() ==> #[trigger] positions(labels, c)[i]
                < #[trigger] positions(labels, c)[j],
        forall|p: int|
            0 <= p < labels.len() && #[trigger] labels[p] == c ==> positions(labels, c).contains(p),
        positions(labels, c).len() > 0 <==> labels.contains(c),
    decreases labels.len(),
{
    if labels.len() > 0 {
        let short = labels.drop_last();
        lemma_positions(short, c);
        let before = positions(short, c);
        let all = positions(labels, c);
        assert forall|p: int| 0 <= p < labels.len() && #[trigger] labels[p] == c implies all.contains(
            p,
        ) by {
            if p < labels.len() - 1 {
                assert(short[p] == c);
                let i = choose|i: int| 0 <= i < before.len() && before[i] == p;
                assert(all[i] == p);
            } else {
                assert(all[all.len() - 1] == p);
            }
        }
        if labels.contains(c) {
            let p = choose|p: int| 0 <= p < labels.len() && labels[p] == c;
            assert(all.contains(p));
        }
        if all.len() > 0 {
            assert(labels[all[0]] == c);
        }
    }
}

/// A label that occurs once occurs nowhere but at its one position.
pub proof fn lemma_single(labels: Seq<char>, c: char)
    requires
        positions(labels, c).len() == 1,
    ensures
        0 <= positions(labels, c)[0] < labels.len(),
        labels[positions(labels, c)[0]] == c,
        forall|p: int|
            0 <= p < labels.len() && #[trigger] labels[p] == c ==> p == positions(labels, c)[0],
{
    lemma_positions(labels, c);
    assert forall|p: int| 0 <= p < labels.len() && #[trigger] labels[p] == c implies p == positions(
        labels,
        c,
    )[0] by {
        let i = choose|i: int|
            0 <= i < positions(labels, c).len() && positions(labels, c)[i] == p;
        assert(i == 0);
    }
}

/// If a label sits at `p` and nowhere else, `p` is its one position.
pub proof fn lemma_single_at(labels: Seq<char>, c: char, p: int)
    requires
        0 <= p < labels.len(),
        labels[p] == c,
        forall|q: int| 0 <= q < labels.len() && #[trigger] labels[q] == c ==> q == p,
    ensures
        positions(labels, c) == seq![p],
{
    lemma_positions(labels, c);
    let all = positions(labels, c);
    assert(all.contains(p));
    if all.len() > 1 {
        assert(all[0] < all[1]);
        assert(labels[all[0]] == c && labels[all[1]] == c);
    }
    assert(all =~= seq![p]);
}

/// A label that does not occur has no position.
pub proof fn lemma_absent(labels: Seq<char>, c: char)
    requires
        !labels.contains(c),
    ensures
        positions(labels, c) == Seq::<int>::empty(),
{
    lemma_positions(labels, c);
    assert(positions(labels, c) =~= Seq::<int>::empty());
}

/// The distinct labels of a sequence are its labels, each once.
pub proof fn lemma_distinct(labels: Seq<char>)
    ensures
        distinct(labels).no_duplicates(),
        distinct(labels).len() <= labels.len(),
        forall|c: char| #[trigger] distinct(labels).contains(c) <==> labels.contains(c),
    decreases labels.len(),
{
    if labels.len() > 0 {
        let short = labels.drop_last();
        lemma_distinct(short);
        let before = distinct(short);
        let all = distinct(labels);
        assert forall|c: char| #[trigger] all.contains(c) <==> labels.contains(c) by {
            if all.contains(c) {
                if before.contains(c) {
                    assert(short.contains(c));
                    let p = choose|p: int| 0 <= p < short.len() && short[p] == c;
                    assert(labels[p] == c);
                } else {
                    assert(c == labels.last());
                    assert(labels[labels.len() - 1] == c);
                }
            }
            if labels.contains(c) {
                let p = choose|p: int| 0 <= p < labels.len() && labels[p] == c;
                if p < labels.len() - 1 {
                    assert(short[p] == c);
                    assert(before.contains(c));
                    let i = choose|i: int| 0 <= i < before.len() && before[i] == c;
                    assert(all[i] == c);
                } else if before.contains(c) {
                    assert(all == before);
                } else {
                    assert(all[before.len() as int] == c);
                }
            }
        }
    }
}

/// A label of the joined rows is a label of one of them.
pub proof fn lemma_joined(rows: Seq<Seq<char>>, c: char)
    ensures
        joined(rows).contains(c) <==> exists|i: int|
            0 <= i < rows.len() && (#[trigger] rows[i]).contains(c),
    decreases rows.len(),
{
    if rows.len() > 0 {
        let short = rows.drop_last();
        lemma_joined(short, c);
        let before = joined(short);
        let all = joined(rows);
        if all.contains(c) {
            let p = choose|p: int| 0 <= p < all.len() && all[p] == c;
            if p < before.len() {
                assert(before[p] == c);
                let i = choose|i: int| 0 <= i < short.len() && (#[trigger] short[i]).contains(c);
                assert(rows[i].contains(c));
            } else {
                assert(rows.last()[p - before.len()] == c);
                assert(rows[rows.len() - 1].contains(c));
            }
        }
        if exists|i: int| 0 <= i < rows.len() && (#[trigger] rows[i]).contains(c) {
            let i = choose|i: int| 0 <= i < rows.len() && (#[trigger] rows[i]).contains(c);
            if i < rows.len() - 1 {
                assert(short[i].contains(c));
                let p = choose|p: int| 0 <= p < before.len() && before[p] == c;
                assert(all[p] == c);
            } else {
                let p = choose|p: int| 0 <= p < rows.last().len() && rows.last()[p] == c;
                assert(all[before.len() + p] == c);
            }
        }
    }
}

/// The labels of an expression are those of its outputs and its inputs.
pub proof fn lemma_has(e: Expr, c: char)
    ensures
        e.has(c) <==> (exists|i: int|
            0 <= i < e.outputs.len() && (#[trigger] e.outputs[i]).contains(c)) || (exists|i: int|
            0 <= i < e.inputs.len() && (#[trigger] e.inputs[i]).contains(c)),
        e.labels().no_duplicates(),
{
    lemma_distinct(joined(e.outputs) + joined(e.inputs));
    lemma_joined(e.outputs, c);
    lemma_joined(e.inputs, c);
    let a = joined(e.outputs);
    let b = joined(e.inputs);
    if (a + b).contains(c) {
        let p = choose|p: int| 0 <= p < (a + b).len() && (a + b)[p] == c;
        if p < a.len() {
            assert(a[p] == c);
        } else {
            assert(b[p - a.len()] == c);
        }
    }
    if a.contains(c) {
        let p = choose|p: int| 0 <= p < a.len() && a[p] == c;
        assert((a + b)[p] == c);
    }
    if b.contains(c) {
        let p = choose|p: int| 0 <= p < b.len() && b[p] == c;
        assert((a + b)[a.len() + p] == c);
    }
}

} // verus!
