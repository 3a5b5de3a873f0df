//! Axes mappings of one input and one output as sequences of axis operators.

use vstd::prelude::*;

use crate::axes::AxesMapping;
use crate::error::Error;
use crate::labels::{Expr, lemma_positions, positions};
use crate::ops::AxisOp;

verus! {

/// The labels that are also among others.
pub open spec fn shared(labels: Seq<char>, others: Seq<char>) -> Seq<char> {
    labels.filter(|c: char| others.contains(c))
}

/// The operators that remove the axes whose labels are not among others, the last
/// one first.
pub open spec fn removals(labels: Seq<char>, others: Seq<char>) -> Seq<AxisOp>
    decreases labels.len(),
{
    if labels.len() == 0 {
        Seq::empty()
    } else {
        let before = removals(labels.drop_last(), others);
        if others.contains(labels.last()) {
            before
        } else {
            seq![AxisOp::Rm((labels.len() - 1) as usize)] + before
        }
    }
}

/// The labels after one has been moved to a position.
pub open spec fn moved_to(labels: Seq<char>, c: char, ix: int) -> Seq<char> {
    labels.remove(positions(labels, c)[0]).insert(ix, c)
}

/// The operators that bring labels into the order of a target, one position after
/// the other.
pub open spec fn moves(labels: Seq<char>, target: Seq<char>, ix: int) -> Seq<AxisOp>
    decreases target.len() - ix,
{
    if ix >= target.len() {
        Seq::empty()
    } else if labels[ix] == target[ix] {
        moves(labels, target, ix + 1)
    } else {
        seq![AxisOp::Move(positions(labels, target[ix])[0] as usize, ix as usize)] + moves(
            moved_to(labels, target[ix], ix),
            target,
            ix + 1,
        )
    }
}

/// The operators that add the axes among the first whose labels are not among
/// others.
pub open spec fn insertions(labels: Seq<char>, others: Seq<char>, n: int) -> Seq<AxisOp>
    decreases n,
{
    if n <= 0 {
        Seq::empty()
    } else {
        let before = insertions(labels, others, n - 1);
        if others.contains(labels[n - 1]) {
            before
        } else {
            before.push(AxisOp::Add((n - 1) as usize))
        }
    }
}

/// What the translation of a mapping into axis operators comes to: it must have
/// one input and one output, neither with a label twice.
pub open spec fn axis_ops(e: Expr) -> Result<Seq<AxisOp>, Error> {
    if e.inputs.len() == 1 && e.outputs.len() == 1 && e.inputs[0].no_duplicates()
        && e.outputs[0].no_duplicates() {
        let from = e.inputs[0];
        let to = e.outputs[0];
        Ok(
            removals(from, to) + moves(shared(from, to), shared(to, from), 0) + insertions(
                to,
                from,
                to.len() as int,
            ),
        )
    } else {
        Err(Error::NotAPermutation)
    }
}

fn holds(labels: &Vec<char>, c: char) -> (r: bool)
    ensures
        r == labels@.contains(c),
{
    for i in 0..labels.len()
        invariant
            forall|j: int| 0 <= j < i ==> labels@[j] != c,
    {
        if labels[i] == c {
            return true;
        }
    }
    false
}

fn has_no_duplicates(labels: &Vec<char>) -> (r: bool)
    ensures
        r == labels@.no_duplicates(),
{
    for i in 0..labels.len()
        invariant
            forall|p: int, q: int| 0 <= p < q < i ==> labels@[p] != labels@[q],
    {
        for j in 0..i
            invariant
                i < labels@.len(),
                forall|p: int| 0 <= p < j ==> labels@[p] != labels@[i as int],
        {
            if labels[j] == labels[i] {
                return false;
            }
        }
    }
    true
}

fn keep_shared(labels: &Vec<char>, others: &Vec<char>) -> (r: Vec<char>)
    ensures
        r@ == shared(labels@, others@),
{
    let ghost pred = |c: char| others@.contains(c);
    let mut kept: Vec<char> = Vec::new();
    assert(labels@.take(0).filter(pred) =~= Seq::empty()) by {
        reveal(Seq::filter);
    }
    for i in 0..labels.len()
        invariant
            pred == (|c: char| others@.contains(c)),
            kept@ == labels@.take(i as int).filter(pred),
    {
        let c = labels[i];
        proof {
            assert(labels@.take(i + 1).drop_last() =~= labels@.take(i as int));
            assert(labels@.take(i + 1).last() == c);
            reveal(Seq::filter);
        }
        if holds(others, c) {
            kept.push(c);
        }
    }
    assert(labels@.take(labels@.len() as int) =~= labels@);
    kept
}

/// The shared labels are those that both have, each once.
proof fn lemma_shared(labels: Seq<char>, others: Seq<char>)
    requires
        labels.no_duplicates(),
    ensures
        shared(labels, others).no_duplicates(),
        forall|c: char| #[trigger]
            shared(labels, others).contains(c) <==> labels.contains(c) && others.contains(c),
    decreases labels.len(),
{
    reveal(Seq::filter);
    if labels.len() > 0 {
        let short = labels.drop_last();
        lemma_shared(short, others);
        let before = shared(short, others);
        let all = shared(labels, others);
        let last = labels.last();
        assert(!short.contains(last)) by {
            if short.contains(last) {
                let p = choose|p: int| 0 <= p < short.len() && short[p] == last;
                assert(labels[p] == labels[labels.len() - 1]);
            }
        }
        assert(!before.contains(last));
        assert forall|c: char| #[trigger] all.contains(c) <==> labels.contains(c)
            && others.contains(c) by {
            assert(before.contains(c) <==> short.contains(c) && others.contains(c));
            if labels.contains(c) {
                let p = choose|p: int| 0 <= p < labels.len() && labels[p] == c;
                if p < short.len() {
                    assert(short[p] == c);
                }
            }
            if short.contains(c) {
                let p = choose|p: int| 0 <= p < short.len() && short[p] == c;
                assert(labels[p] == c);
            }
            if before.contains(c) {
                let p = choose|p: int| 0 <= p < before.len() && before[p] == c;
                assert(all[p] == c);
            }
            if others.contains(last) {
                assert(all[all.len() - 1] == last);
            }
            assert(labels[labels.len() - 1] == last);
        }
    }
}

/// Whether labels are those of a target, with the first ones in place already.
pub open spec fn sorts(labels: Seq<char>, target: Seq<char>, ix: int) -> bool {
    &&& 0 <= ix <= target.len()
    &&& labels.len() == target.len()
    &&& labels.no_duplicates()
    &&& target.no_duplicates()
    &&& forall|c: char| #[trigger] target.contains(c) ==> labels.contains(c)
    &&& forall|p: int| 0 <= p < ix ==> labels[p] == #[trigger] target[p]
}

/// Distinct labels with the same members are as many.
proof fn lemma_same_members(a: Seq<char>, b: Seq<char>)
    requires
        a.no_duplicates(),
        b.no_duplicates(),
        forall|c: char| #[trigger] a.contains(c) <==> b.contains(c),
    ensures
        a.len() == b.len(),
{
    a.unique_seq_to_set();
    b.unique_seq_to_set();
    assert(a.to_set() =~= b.to_set()) by {
        assert forall|c: char| a.to_set().contains(c) <==> b.to_set().contains(c) by {
            assert(a.contains(c) <==> b.contains(c));
        }
    }
}

/// The next label is further on, and moving it leaves one more in place.
proof fn lemma_move(labels: Seq<char>, target: Seq<char>, ix: int)
    requires
        sorts(labels, target, ix),
        ix < target.len(),
    ensures
        labels[ix] == target[ix] ==> sorts(labels, target, ix + 1),
        labels[ix] != target[ix] ==> ix < positions(labels, target[ix])[0] < labels.len()
            && sorts(moved_to(labels, target[ix], ix), target, ix + 1),
{
    let c = target[ix];
    assert(target.contains(c));
    assert(labels.contains(c));
    lemma_positions(labels, c);
    let from = positions(labels, c)[0];
    assert(labels[from] == c);
    if labels[ix] != c {
        assert(from > ix) by {
            if from < ix {
                assert(labels[from] == target[from]);
            }
        }
        let after = moved_to(labels, c, ix);
        let old_at = |p: int|
            if p < ix || p > from {
                p
            } else if p == ix {
                from
            } else {
                p - 1
            };
        assert forall|p: int| 0 <= p < after.len() implies #[trigger] after[p]
            == labels[old_at(p)] by {}
        assert forall|p: int, q: int|
            0 <= p < after.len() && 0 <= q < after.len() && p != q implies after[p]
            != after[q] by {
            assert(old_at(p) != old_at(q));
            assert(labels[old_at(p)] != labels[old_at(q)]);
        }
        assert forall|d: char| #[trigger] target.contains(d) implies after.contains(d) by {
            let q = choose|q: int| 0 <= q < labels.len() && labels[q] == d;
            let p = if q < ix || q > from {
                q
            } else if q == from {
                ix
            } else {
                q + 1
            };
            assert(old_at(p) == q);
            assert(after[p] == d);
        }
        assert forall|p: int| 0 <= p < ix + 1 implies after[p] == #[trigger] target[p] by {
            if p < ix {
                assert(labels[p] == target[p]);
            }
        }
    }
}

/// The first position of a label.
fn find(labels: &Vec<char>, c: char) -> (r: usize)
    requires
        labels@.contains(c),
    ensures
        r == positions(labels@, c)[0],
        r < labels@.len(),
{
    proof {
        lemma_positions(labels@, c);
    }
    let ghost all = positions(labels@, c);
    for i in 0..labels.len()
        invariant
            all == positions(labels@, c),
            all.len() > 0,
            forall|p: int|
                0 <= p < all.len() ==> 0 <= #[trigger] all[p] < labels@.len() && labels@[all[p]]
                    == c,
            forall|p: int, q: int| 0 <= p < q < all.len() ==> #[trigger] all[p] < #[trigger] all[q],
            forall|p: int|
                0 <= p < labels@.len() && #[trigger] labels@[p] == c ==> all.contains(p),
            forall|j: int| 0 <= j < i ==> labels@[j] != c,
    {
        if labels[i] == c {
            proof {
                let j = choose|j: int| 0 <= j < all.len() && all[j] == i;
                assert(labels@[all[0]] == c);
                if j > 0 {
                    assert(all[0] < all[j]);
                }
            }
            return i;
        }
    }
    assert(labels@[all[0]] == c);
    0
}

fn plan_removals(labels: &Vec<char>, others: &Vec<char>) -> (r: Vec<AxisOp>)
    ensures
        r@ == removals(labels@, others@),
{
    let mut ops: Vec<AxisOp> = Vec::new();
    let mut i = labels.len();
    assert(labels@.take(i as int) =~= labels@);
    assert(ops@ + removals(labels@.take(i as int), others@) =~= removals(labels@, others@));
    while i > 0
        invariant
            i <= labels@.len(),
            ops@ + removals(labels@.take(i as int), others@) == removals(labels@, others@),
        decreases i,
    {
        let ghost before = ops@;
        let ghost head = labels@.take(i as int);
        i = i - 1;
        assert(head.drop_last() =~= labels@.take(i as int));
        if !holds(others, labels[i]) {
            ops.push(AxisOp::Rm(i));
            assert(before + removals(head, others@) =~= ops@ + removals(
                labels@.take(i as int),
                others@,
            ));
        }
    }
    assert(ops@ =~= removals(labels@, others@));
    ops
}

fn plan_moves(labels: Vec<char>, target: &Vec<char>) -> (r: Vec<AxisOp>)
    requires
        sorts(labels@, target@, 0),
    ensures
        r@ == moves(labels@, target@, 0),
{
    let ghost start = labels@;
    let mut current = labels;
    let mut ops: Vec<AxisOp> = Vec::new();
    assert(ops@ + moves(current@, target@, 0) =~= moves(start, target@, 0));
    for ix in 0..target.len()
        invariant
            sorts(current@, target@, ix as int),
            ops@ + moves(current@, target@, ix as int) == moves(start, target@, 0),
    {
        let ghost before = ops@;
        let ghost labels = current@;
        let c = target[ix];
        proof {
            lemma_move(labels, target@, ix as int);
            assert(target@.contains(c));
        }
        if current[ix] != c {
            let from = find(&current, c);
            ops.push(AxisOp::Move(from, ix));
            current.remove(from);
            current.insert(ix, c);
            proof {
                assert(current@ == moved_to(labels, c, ix as int));
                assert(before + moves(labels, target@, ix as int) =~= ops@ + moves(
                    current@,
                    target@,
                    ix + 1,
                ));
            }
        }
    }
    assert(ops@ =~= moves(start, target@, 0));
    ops
}

fn plan_insertions(labels: &Vec<char>, others: &Vec<char>) -> (r: Vec<AxisOp>)
    ensures
        r@ == insertions(labels@, others@, labels@.len() as int),
{
    let mut ops: Vec<AxisOp> = Vec::new();
    for i in 0..labels.len()
        invariant
            ops@ == insertions(labels@, others@, i as int),
    {
        if !holds(others, labels[i]) {
            ops.push(AxisOp::Add(i));
        }
    }
    ops
}

impl AxesMapping {
    /// The axis operators that take the axes of the input to those of the output:
    /// axes that only the input has are removed, then the others are brought into
    /// their order, then axes that only the output has are added.
    pub fn translate_to_axis_ops(&self) -> (r: Result<Vec<AxisOp>, Error>)
        ensures
            match r {
                Ok(ops) => axis_ops(self@) == Ok::<Seq<AxisOp>, Error>(ops@),
                Err(e) => axis_ops(self@) == Err::<Seq<AxisOp>, Error>(e),
            },
    {
        if self.input_count() != 1 || self.output_count() != 1 {
            return Err(Error::NotAPermutation);
        }
        let from = self.input_labels(0);
        let to = self.output_labels(0);
        if !has_no_duplicates(from) || !has_no_duplicates(to) {
            return Err(Error::NotAPermutation);
        }
        let mut ops = plan_removals(from, to);
        let kept = keep_shared(from, to);
        let target = keep_shared(to, from);
        proof {
            lemma_shared(from@, to@);
            lemma_shared(to@, from@);
            lemma_same_members(kept@, target@);
        }
        let mut ordering = plan_moves(kept, &target);
        let mut adding = plan_insertions(to, from);
        ops.append(&mut ordering);
        ops.append(&mut adding);
        Ok(ops)
    }
}

/// The shape after a sequence of changes, if they are possible.
pub open spec fn changed<D>(ops: Seq<AxisOp>, shape: Seq<D>, one: D) -> Option<Seq<D>>
    decreases ops.len(),
{
    if ops.len() == 0 {
        Some(shape)
    } else {
        match changed(ops.drop_last(), shape, one) {
            Some(s) => ops.last().change(s, one),
            None => None,
        }
    }
}

/// A shape with the dimensions of labels, but one for the labels that are not
/// among others.
pub open spec fn dims_for<D>(
    labels: Seq<char>,
    others: Seq<char>,
    dims: spec_fn(char) -> D,
    one: D,
) -> Seq<D> {
    Seq::new(
        labels.len(),
        |p: int|
            if others.contains(labels[p]) {
                dims(labels[p])
            } else {
                one
            },
    )
}

/// The dimensions of labels.
pub open spec fn dims_at<D>(labels: Seq<char>, dims: spec_fn(char) -> D) -> Seq<D> {
    Seq::new(labels.len(), |p: int| dims(labels[p]))
}

proof fn lemma_changed_add<D>(a: Seq<AxisOp>, b: Seq<AxisOp>, shape: Seq<D>, one: D)
    requires
        changed(a, shape, one) is Some,
    ensures
        changed(a + b, shape, one) == changed(b, changed(a, shape, one)->0, one),
    decreases b.len(),
{
    if b.len() == 0 {
        assert(a + b =~= a);
    } else {
        lemma_changed_add(a, b.drop_last(), shape, one);
        assert((a + b).drop_last() =~= a + b.drop_last());
    }
}

proof fn lemma_changed_first<D>(op: AxisOp, b: Seq<AxisOp>, shape: Seq<D>, one: D)
    requires
        op.change(shape, one) is Some,
    ensures
        changed(seq![op] + b, shape, one) == changed(b, op.change(shape, one)->0, one),
{
    let a = seq![op];
    assert(a.drop_last() =~= Seq::empty());
    reveal_with_fuel(changed, 2);
    lemma_changed_add(a, b, shape, one);
}

proof fn lemma_removals<D>(
    labels: Seq<char>,
    others: Seq<char>,
    dims: spec_fn(char) -> D,
    one: D,
    tail: Seq<D>,
)
    requires
        labels.len() <= usize::MAX,
    ensures
        changed(removals(labels, others), dims_for(labels, others, dims, one) + tail, one) == Some(
            dims_at(shared(labels, others), dims) + tail,
        ),
    decreases labels.len(),
{
    reveal(Seq::filter);
    let shape = dims_for(labels, others, dims, one) + tail;
    let kept = dims_at(shared(labels, others), dims) + tail;
    if labels.len() == 0 {
        assert(shape =~= kept);
    } else {
        let short = labels.drop_last();
        let last = labels.last();
        let before = dims_for(short, others, dims, one);
        if others.contains(last) {
            let longer = seq![dims(last)] + tail;
            lemma_removals(short, others, dims, one, longer);
            assert(before + longer =~= shape);
            assert(dims_at(shared(short, others), dims) + longer =~= kept);
        } else {
            lemma_removals(short, others, dims, one, tail);
            let op = AxisOp::Rm((labels.len() - 1) as usize);
            assert(shape[labels.len() - 1] == one);
            assert(shape.remove(labels.len() - 1) =~= before + tail);
            lemma_changed_first(op, removals(short, others), shape, one);
        }
    }
}

proof fn lemma_moves<D>(
    labels: Seq<char>,
    target: Seq<char>,
    ix: int,
    dims: spec_fn(char) -> D,
    one: D,
)
    requires
        sorts(labels, target, ix),
        labels.len() <= usize::MAX,
    ensures
        changed(moves(labels, target, ix), dims_at(labels, dims), one) == Some(
            dims_at(target, dims),
        ),
    decreases target.len() - ix,
{
    if ix >= target.len() {
        assert(labels =~= target);
    } else {
        lemma_move(labels, target, ix);
        if labels[ix] == target[ix] {
            lemma_moves(labels, target, ix + 1, dims, one);
        } else {
            let c = target[ix];
            let from = positions(labels, c)[0];
            lemma_positions(labels, c);
            assert(labels.contains(c)) by {
                assert(target.contains(c));
            }
            assert(labels[from] == c);
            let after = moved_to(labels, c, ix);
            lemma_moves(after, target, ix + 1, dims, one);
            let op = AxisOp::Move(from as usize, ix as usize);
            let shape = dims_at(labels, dims);
            assert(shape.remove(from).insert(ix, shape[from]) =~= dims_at(after, dims));
            lemma_changed_first(op, moves(after, target, ix + 1), shape, one);
        }
    }
}

proof fn lemma_insertions<D>(
    labels: Seq<char>,
    others: Seq<char>,
    n: int,
    dims: spec_fn(char) -> D,
    one: D,
)
    requires
        0 <= n <= labels.len() <= usize::MAX,
    ensures
        changed(
            insertions(labels, others, n),
            dims_at(shared(labels, others), dims),
            one,
        ) == Some(
            dims_for(labels.take(n), others, dims, one) + dims_at(
                shared(labels.skip(n), others),
                dims,
            ),
        ),
    decreases n,
{
    let pred = |c: char| others.contains(c);
    let start = dims_at(shared(labels, others), dims);
    if n == 0 {
        assert(labels.skip(0) =~= labels);
        assert(dims_for(labels.take(0), others, dims, one) + start =~= start);
    } else {
        lemma_insertions(labels, others, n - 1, dims, one);
        let c = labels[n - 1];
        let before = dims_for(labels.take(n - 1), others, dims, one);
        let rest = dims_at(shared(labels.skip(n), others), dims);
        assert(labels.skip(n - 1) =~= seq![c] + labels.skip(n));
        Seq::filter_distributes_over_add(seq![c], labels.skip(n), pred);
        assert(seq![c].filter(pred) =~= if others.contains(c) {
            seq![c]
        } else {
            Seq::empty()
        }) by {
            reveal(Seq::filter);
            assert(seq![c].drop_last() =~= Seq::empty());
            reveal_with_fuel(Seq::filter, 2);
        }
        let now = dims_for(labels.take(n), others, dims, one) + rest;
        let earlier = before + dims_at(shared(labels.skip(n - 1), others), dims);
        if others.contains(c) {
            assert(earlier =~= now);
        } else {
            assert(shared(labels.skip(n - 1), others) =~= shared(labels.skip(n), others));
            assert(earlier.insert(n - 1, one) =~= now);
            let ops = insertions(labels, others, n);
            assert(ops.drop_last() =~= insertions(labels, others, n - 1));
        }
    }
}

/// The axis operators of a mapping take a shape with the dimensions of the labels
/// of the input to one with the dimensions of the labels of the output: an axis
/// that only the input has must have the dimension one, and one that only the
/// output has gets it.
pub proof fn lemma_axis_ops<D>(e: Expr, ops: Seq<AxisOp>, dims: spec_fn(char) -> D, one: D)
    requires
        axis_ops(e) == Ok::<Seq<AxisOp>, Error>(ops),
        e.inputs[0].len() <= usize::MAX,
        e.outputs[0].len() <= usize::MAX,
    ensures
        changed(ops, dims_for(e.inputs[0], e.outputs[0], dims, one), one) == Some(
            dims_for(e.outputs[0], e.inputs[0], dims, one),
        ),
{
    let from = e.inputs[0];
    let to = e.outputs[0];
    let kept = shared(from, to);
    let target = shared(to, from);
    let first = removals(from, to);
    let second = moves(kept, target, 0);
    let third = insertions(to, from, to.len() as int);
    let start = dims_for(from, to, dims, one);
    let none = Seq::<D>::empty();
    lemma_shared(from, to);
    lemma_shared(to, from);
    lemma_same_members(kept, target);
    lemma_removals(from, to, dims, one, none);
    assert(start + none =~= start);
    assert(dims_at(kept, dims) + none =~= dims_at(kept, dims));
    from.lemma_filter_len(|c: char| to.contains(c));
    lemma_moves(kept, target, 0, dims, one);
    lemma_changed_add(first, second, start, one);
    lemma_insertions(to, from, to.len() as int, dims, one);
    lemma_changed_add(first + second, third, start, one);
    assert(to.take(to.len() as int) =~= to);
    assert(to.skip(to.len() as int) =~= Seq::empty());
    assert(shared(to.skip(to.len() as int), from) =~= Seq::empty()) by {
        reveal(Seq::filter);
    }
    assert(dims_for(to, from, dims, one) + dims_at(
        shared(to.skip(to.len() as int), from),
        dims,
    ) =~= dims_for(to, from, dims, one));
}

/// Where operators can be applied, so can the first of them.
proof fn lemma_changed_prefix<D>(op: AxisOp, b: Seq<AxisOp>, shape: Seq<D>, one: D)
    requires
        changed(seq![op] + b, shape, one) is Some,
    ensures
        op.change(shape, one) is Some,
    decreases b.len(),
{
    let all = seq![op] + b;
    if b.len() == 0 {
        assert(all =~= seq![op]);
        assert(all.drop_last() =~= Seq::empty());
        reveal_with_fuel(changed, 2);
    } else {
        assert(all.drop_last() =~= seq![op] + b.drop_last());
        lemma_changed_prefix(op, b.drop_last(), shape, one);
    }
}

/// Only axes of dimension one can be removed.
proof fn lemma_removed_units<D>(labels: Seq<char>, others: Seq<char>, shape: Seq<D>, one: D)
    requires
        labels.len() <= shape.len(),
        labels.len() <= usize::MAX,
        changed(removals(labels, others), shape, one) is Some,
    ensures
        forall|p: int|
            0 <= p < labels.len() && !others.contains(#[trigger] labels[p]) ==> shape[p] == one,
    decreases labels.len(),
{
    if labels.len() > 0 {
        let short = labels.drop_last();
        let last = labels.len() - 1;
        if others.contains(labels.last()) {
            lemma_removed_units(short, others, shape, one);
        } else {
            let op = AxisOp::Rm(last as usize);
            let rest = removals(short, others);
            lemma_changed_prefix(op, rest, shape, one);
            lemma_changed_first(op, rest, shape, one);
            lemma_removed_units(short, others, shape.remove(last), one);
        }
        assert forall|p: int|
            0 <= p < labels.len() && !others.contains(#[trigger] labels[p]) implies shape[p]
            == one by {
            if p < last {
                assert(short[p] == labels[p]);
            }
        }
    }
}

/// Where the axis operators of a mapping can be applied, an axis that only the input has
/// has the dimension one.
pub proof fn lemma_axis_ops_units<D>(e: Expr, ops: Seq<AxisOp>, shape: Seq<D>, one: D)
    requires
        axis_ops(e) == Ok::<Seq<AxisOp>, Error>(ops),
        shape.len() == e.inputs[0].len(),
        e.inputs[0].len() <= usize::MAX,
        changed(ops, shape, one) is Some,
    ensures
        forall|p: int|
            0 <= p < shape.len() && !e.outputs[0].contains(#[trigger] e.inputs[0][p]) ==> shape[p]
                == one,
{
    let (from, to) = (e.inputs[0], e.outputs[0]);
    let first = removals(from, to);
    let rest = moves(shared(from, to), shared(to, from), 0) + insertions(
        to,
        from,
        to.len() as int,
    );
    assert(ops =~= first + rest);
    lemma_changed_some(first, rest, shape, one);
    lemma_removed_units(from, to, shape, one);
}

/// Where operators can be applied, so can the first ones.
proof fn lemma_changed_some<D>(a: Seq<AxisOp>, b: Seq<AxisOp>, shape: Seq<D>, one: D)
    requires
        changed(a + b, shape, one) is Some,
    ensures
        changed(a, shape, one) is Some,
    decreases b.len(),
{
    if b.len() == 0 {
        assert(a + b =~= a);
    } else {
        assert((a + b).drop_last() =~= a + b.drop_last());
        lemma_changed_some(a, b.drop_last(), shape, one);
    }
}

} // verus!
