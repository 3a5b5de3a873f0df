//! Axes mappings: how the axes of the inputs and of the outputs of an operator
//! run together.

use vstd::prelude::*;

use crate::error::Error;
use crate::labels::{Expr, distinct, joined, positions, rows};

verus! {

/// An input or an output slot.
#[derive(Clone, Copy, Debug, PartialEq, Eq, Structural)]
pub enum InOut {
    In(usize),
    Out(usize),
}

/// One axis of a mapping: its label, and the positions at which it occurs in
/// each input and in each output.
#[derive(Clone, Debug, PartialEq, Eq)]
pub struct Axis {
    pub repr: char,
    pub inputs: Vec<Vec<usize>>,
    pub outputs: Vec<Vec<usize>>,
}

/// Whether machine integers are the given integers.
pub open spec fn same(found: Seq<usize>, expected: Seq<int>) -> bool {
    &&& found.len() == expected.len()
    &&& forall|i: int| 0 <= i < found.len() ==> #[trigger] found[i] == expected[i]
}

/// Whether each row of positions is where `c` occurs in the same row of labels.
pub open spec fn places(found: Seq<Vec<usize>>, labels: Seq<Seq<char>>, c: char) -> bool {
    &&& found.len() == labels.len()
    &&& forall|s: int|
        0 <= s < found.len() ==> same((#[trigger] found[s])@, positions(labels[s], c))
}

impl Axis {
    /// Whether this is the axis that carries the label `c` in `e`.
    pub open spec fn is_of(&self, e: Expr, c: char) -> bool {
        &&& self.repr == c
        &&& places(self.inputs@, e.inputs, c)
        &&& places(self.outputs@, e.outputs, c)
    }
}

/// Whether these are the axes of `e`, in the order of its labels.
pub open spec fn axes_of(axes: Seq<Axis>, e: Expr) -> bool {
    &&& axes.len() == e.labels().len()
    &&& forall|i: int| 0 <= i < axes.len() ==> (#[trigger] axes[i]).is_of(e, e.labels()[i])
}

fn find_positions(labels: &Vec<char>, c: char) -> (r: Vec<usize>)
    ensures
        same(r@, positions(labels@, c)),
{
    let mut found: Vec<usize> = Vec::new();
    for i in 0..labels.len()
        invariant
            same(found@, positions(labels@.take(i as int), c)),
    {
        assert(labels@.take(i + 1).drop_last() =~= labels@.take(i as int));
        if labels[i] == c {
            found.push(i);
        }
    }
    assert(labels@.take(labels@.len() as int) =~= labels@);
    found
}

fn find_places(slots: &Vec<Vec<char>>, c: char) -> (r: Vec<Vec<usize>>)
    ensures
        places(r@, rows(slots@), c),
{
    let mut found: Vec<Vec<usize>> = Vec::new();
    for s in 0..slots.len()
        invariant
            found@.len() == s,
            forall|t: int|
                0 <= t < s ==> same((#[trigger] found@[t])@, positions(slots@[t]@, c)),
    {
        found.push(find_positions(&slots[s], c));
    }
    found
}

fn join_rows(slots: &Vec<Vec<char>>, all: &mut Vec<char>)
    ensures
        final(all)@ == old(all)@ + joined(rows(slots@)),
{
    let ghost start = all@;
    let ghost full = rows(slots@);
    assert(all@ =~= start + joined(full.take(0)));
    for s in 0..slots.len()
        invariant
            full == rows(slots@),
            all@ == start + joined(full.take(s as int)),
    {
        let ghost before = all@;
        let row = &slots[s];
        for p in 0..row.len()
            invariant
                all@ == before + row@.take(p as int),
        {
            all.push(row[p]);
            assert(row@.take(p + 1) =~= row@.take(p as int).push(row@[p as int]));
            assert(all@ =~= before + row@.take(p + 1));
        }
        assert(row@.take(row@.len() as int) =~= row@);
        assert(full.take(s + 1).drop_last() =~= full.take(s as int));
        assert(full.take(s + 1).last() == row@);
        assert(all@ =~= start + joined(full.take(s + 1)));
    }
    assert(full.take(slots@.len() as int) =~= full);
}

fn contains_label(labels: &Vec<char>, c: char) -> (r: bool)
    ensures
        r == labels@.contains(c),
{
    for i in 0..labels.len()
        invariant
            forall|j: int| 0 <= j < i ==> labels@[j] != c,
    {
        if labels[i] == c {
            return true;
        }
    }
    false
}

fn keep_distinct(labels: &Vec<char>) -> (r: Vec<char>)
    ensures
        r@ == distinct(labels@),
{
    let mut kept: Vec<char> = Vec::new();
    for i in 0..labels.len()
        invariant
            kept@ == distinct(labels@.take(i as int)),
    {
        assert(labels@.take(i + 1).drop_last() =~= labels@.take(i as int));
        if !contains_label(&kept, labels[i]) {
            kept.push(labels[i]);
        }
    }
    assert(labels@.take(labels@.len() as int) =~= labels@);
    kept
}

fn label_at(labels: &Vec<char>, i: usize) -> (r: char)
    requires
        i < labels@.len(),
    ensures
        r == labels@[i as int],
{
    labels[i]
}

fn build_axes(inputs: &Vec<Vec<char>>, outputs: &Vec<Vec<char>>, labels: &Vec<char>) -> (r: Vec<
    Axis,
>)
    ensures
        r@.len() == labels@.len(),
        forall|i: int|
            0 <= i < r@.len() ==> (#[trigger] r@[i]).is_of(
                Expr { inputs: rows(inputs@), outputs: rows(outputs@) },
                labels@[i],
            ),
{
    let mut found: Vec<Axis> = Vec::new();
    for i in 0..labels.len()
        invariant
            found@.len() == i,
            forall|j: int|
                0 <= j < i ==> (#[trigger] found@[j]).is_of(
                    Expr { inputs: rows(inputs@), outputs: rows(outputs@) },
                    labels@[j],
                ),
    {
        let c = label_at(labels, i);
        let axis = Axis {
            repr: c,
            inputs: find_places(inputs, c),
            outputs: find_places(outputs, c),
        };
        found.push(axis);
    }
    found
}

/// A copy of a vector of labels.
fn copy_row(row: &Vec<char>) -> (r: Vec<char>)
    ensures
        r@ == row@,
{
    let mut copy: Vec<char> = Vec::new();
    for p in 0..row.len()
        invariant
            copy@ == row@.take(p as int),
    {
        copy.push(row[p]);
        assert(row@.take(p + 1) =~= row@.take(p as int).push(row@[p as int]));
    }
    assert(row@.take(row@.len() as int) =~= row@);
    copy
}

/// A copy of labels, with a label put in at a position of one slot.
fn copy_rows_with(slots: &Vec<Vec<char>>, slot: usize, pos: usize, c: char) -> (r: Vec<Vec<char>>)
    requires
        slot < slots@.len(),
        pos <= slots@[slot as int]@.len(),
    ensures
        rows(r@) == rows(slots@).update(
            slot as int,
            rows(slots@)[slot as int].insert(pos as int, c),
        ),
{
    let mut copy: Vec<Vec<char>> = Vec::new();
    for s in 0..slots.len()
        invariant
            slot < slots@.len(),
            pos <= slots@[slot as int]@.len(),
            copy@.len() == s,
            forall|t: int|
                0 <= t < s ==> (#[trigger] copy@[t])@ == if t == slot {
                    slots@[t]@.insert(pos as int, c)
                } else {
                    slots@[t]@
                },
    {
        let mut row = copy_row(&slots[s]);
        if s == slot {
            row.insert(pos, c);
        }
        copy.push(row);
    }
    assert(rows(copy@) =~= rows(slots@).update(
        slot as int,
        rows(slots@)[slot as int].insert(pos as int, c),
    ));
    copy
}

/// The labels with `from` replaced by `to`.
pub open spec fn relabel(labels: Seq<char>, from: char, to: char) -> Seq<char> {
    Seq::new(
        labels.len(),
        |p: int|
            if labels[p] == from {
                to
            } else {
                labels[p]
            },
    )
}

/// The rows of labels with `from` replaced by `to`.
pub open spec fn relabel_rows(labels: Seq<Seq<char>>, from: char, to: char) -> Seq<Seq<char>> {
    Seq::new(labels.len(), |s: int| relabel(labels[s], from, to))
}

fn copy_rows_relabelled(slots: &Vec<Vec<char>>, from: char, to: char) -> (r: Vec<Vec<char>>)
    ensures
        rows(r@) == relabel_rows(rows(slots@), from, to),
{
    let mut copy: Vec<Vec<char>> = Vec::new();
    for s in 0..slots.len()
        invariant
            copy@.len() == s,
            forall|t: int|
                0 <= t < s ==> (#[trigger] copy@[t])@ == relabel(slots@[t]@, from, to),
    {
        let row = &slots[s];
        let mut out: Vec<char> = Vec::new();
        for p in 0..row.len()
            invariant
                out@ == relabel(row@, from, to).take(p as int),
        {
            let c = row[p];
            out.push(
                if c == from {
                    to
                } else {
                    c
                },
            );
            assert(out@ =~= relabel(row@, from, to).take(p + 1));
        }
        assert(out@ =~= relabel(row@, from, to));
        copy.push(out);
    }
    assert(rows(copy@) =~= relabel_rows(rows(slots@), from, to));
    copy
}

/// The rows that the slots select.
pub open spec fn select_rows(labels: Seq<Seq<char>>, slots: Seq<usize>) -> Seq<Seq<char>> {
    Seq::new(slots.len(), |i: int| labels[slots[i] as int])
}

/// Whether each of the slots exists.
pub open spec fn in_range(slots: Seq<usize>, count: nat) -> bool {
    forall|i: int| 0 <= i < slots.len() ==> #[trigger] slots[i] < count
}

fn copy_selected(labels: &Vec<Vec<char>>, slots: &Vec<usize>) -> (r: Option<Vec<Vec<char>>>)
    ensures
        r is Some <==> in_range(slots@, labels@.len()),
        r matches Some(v) ==> rows(v@) == select_rows(rows(labels@), slots@),
{
    let mut copy: Vec<Vec<char>> = Vec::new();
    for i in 0..slots.len()
        invariant
            copy@.len() == i,
            forall|j: int| 0 <= j < i ==> #[trigger] slots@[j] < labels@.len(),
            forall|j: int|
                0 <= j < i ==> (#[trigger] copy@[j])@ == labels@[slots@[j] as int]@,
    {
        if slots[i] >= labels.len() {
            return None;
        }
        copy.push(copy_row(&labels[slots[i]]));
    }
    assert(rows(copy@) =~= select_rows(rows(labels@), slots@));
    Some(copy)
}

impl Expr {
    /// With one more axis in a slot, at a position, under a label.
    pub open spec fn with(self, io: InOut, pos: int, c: char) -> Expr {
        match io {
            InOut::In(slot) => Expr {
                inputs: self.inputs.update(
                    slot as int,
                    self.inputs[slot as int].insert(pos, c),
                ),
                outputs: self.outputs,
            },
            InOut::Out(slot) => Expr {
                inputs: self.inputs,
                outputs: self.outputs.update(
                    slot as int,
                    self.outputs[slot as int].insert(pos, c),
                ),
            },
        }
    }

    /// Whether an axis can be put in there.
    pub open spec fn fits(self, io: InOut, pos: int) -> bool {
        match io {
            InOut::In(slot) => slot < self.inputs.len() && 0 <= pos
                <= self.inputs[slot as int].len(),
            InOut::Out(slot) => slot < self.outputs.len() && 0 <= pos
                <= self.outputs[slot as int].len(),
        }
    }

    /// With the axes of two labels made to run together under the first.
    pub open spec fn linked(self, a: char, b: char) -> Expr {
        Expr {
            inputs: relabel_rows(self.inputs, b, a),
            outputs: relabel_rows(self.outputs, b, a),
        }
    }

    /// Restricted to some of the inputs and some of the outputs.
    pub open spec fn restricted(self, inputs: Seq<usize>, outputs: Seq<usize>) -> Expr {
        Expr {
            inputs: select_rows(self.inputs, inputs),
            outputs: select_rows(self.outputs, outputs),
        }
    }

    /// With the first two inputs exchanged.
    pub open spec fn swapped(self) -> Expr {
        Expr {
            inputs: self.inputs.update(0, self.inputs[1]).update(1, self.inputs[0]),
            outputs: self.outputs,
        }
    }

    /// Whether `c` is the first unused label from `a` on.
    pub open spec fn first_free(self, c: char) -> bool {
        &&& 'a' as int <= c as int
        &&& !self.has(c)
        &&& forall|d: char| 'a' as int <= d as int && (d as int) < (c as int) ==> #[trigger] self.has(d)
    }

    /// The first unused label from `a` on, if there is one.
    pub open spec fn free_label(self) -> Option<char> {
        if exists|c: char| #[trigger] self.first_free(c) {
            Some(choose|c: char| #[trigger] self.first_free(c))
        } else {
            None
        }
    }
}

/// A character is a code point that is no surrogate.
proof fn lemma_char_range(c: char)
    ensures
        (c as int) < 0xD800 || 0xDFFF < (c as int) <= 0x10FFFF,
{
}

/// `char::from_u32`: the character of a code point; none for the surrogates and
/// for what lies beyond the last code point.
#[verifier::external_body]
fn char_of(code: u32) -> (r: Option<char>)
    ensures
        r is Some <==> (code < 0xD800 || 0xDFFF < code <= 0x10FFFF),
        r matches Some(c) ==> c as int == code,
{
    char::from_u32(code)
}

/// An axes mapping: the labels of the axes of each slot, and the axes that they
/// make up.
#[derive(Debug)]
pub struct AxesMapping {
    inputs: Vec<Vec<char>>,
    outputs: Vec<Vec<char>>,
    axes: Vec<Axis>,
}

impl View for AxesMapping {
    type V = Expr;

    closed spec fn view(&self) -> Expr {
        Expr { inputs: rows(self.inputs@), outputs: rows(self.outputs@) }
    }
}

impl AxesMapping {
    #[verifier::type_invariant]
    spec fn consistent(self) -> bool {
        axes_of(self.axes@, self@)
    }

    /// The mapping with the given labels on the axes of its inputs and outputs.
    pub fn from_labels(inputs: Vec<Vec<char>>, outputs: Vec<Vec<char>>) -> (r: AxesMapping)
        ensures
            r@ == (Expr { inputs: rows(inputs@), outputs: rows(outputs@) }),
    {
        let mut all: Vec<char> = Vec::new();
        join_rows(&outputs, &mut all);
        join_rows(&inputs, &mut all);
        assert(all@ =~= joined(rows(outputs@)) + joined(rows(inputs@)));
        let labels = keep_distinct(&all);
        let axes = build_axes(&inputs, &outputs, &labels);
        AxesMapping { inputs, outputs, axes }
    }

    /// All the axes, those of the outputs first.
    pub fn iter_all_axes(&self) -> (r: &Vec<Axis>)
        ensures
            axes_of(r@, self@),
    {
        proof {
            use_type_invariant(self);
        }
        &self.axes
    }

    pub fn input_count(&self) -> (r: usize)
        ensures
            r == self@.inputs.len(),
    {
        self.inputs.len()
    }

    pub fn output_count(&self) -> (r: usize)
        ensures
            r == self@.outputs.len(),
    {
        self.outputs.len()
    }

    /// The labels of the axes of an input.
    pub fn input_labels(&self, slot: usize) -> (r: &Vec<char>)
        requires
            slot < self@.inputs.len(),
        ensures
            r@ == self@.inputs[slot as int],
    {
        &self.inputs[slot]
    }

    /// The labels of the axes of an output.
    pub fn output_labels(&self, slot: usize) -> (r: &Vec<char>)
        requires
            slot < self@.outputs.len(),
        ensures
            r@ == self@.outputs[slot as int],
    {
        &self.outputs[slot]
    }

    /// The axis that carries a label.
    pub fn axis(&self, c: char) -> (r: Result<&Axis, Error>)
        ensures
            match r {
                Ok(axis) => self@.has(c) && axis.is_of(self@, c),
                Err(e) => !self@.has(c) && e == Error::UnknownLabel,
            },
    {
        proof {
            use_type_invariant(self);
        }
        for i in 0..self.axes.len()
            invariant
                axes_of(self.axes@, self@),
                forall|j: int| 0 <= j < i ==> self@.labels()[j] != c,
        {
            if self.axes[i].repr == c {
                assert(self@.labels()[i as int] == c);
                return Ok(&self.axes[i]);
            }
        }
        Err(Error::UnknownLabel)
    }

    fn has_label(&self, c: char) -> (r: bool)
        ensures
            r == self@.has(c),
    {
        match self.axis(c) {
            Ok(_) => true,
            Err(_) => false,
        }
    }

    /// The first label from `a` on that no axis carries.
    pub fn available_label(&self) -> (r: Result<char, Error>)
        ensures
            match r {
                Ok(c) => self@.free_label() == Some(c) && self@.first_free(c),
                Err(e) => self@.free_label() is None && e == Error::NoLabelLeft,
            },
    {
        let mut code: u32 = 0x61;
        assert('a' as int == 0x61);
        while code <= 0x10FFFF
            invariant
                0x61 <= code <= 0x110000,
                'a' as int == 0x61,
                forall|d: char| 0x61 <= d as int && (d as int) < code ==> #[trigger] self@.has(d),
            decreases 0x110000 - code,
        {
            match char_of(code) {
                Some(c) => {
                    if !self.has_label(c) {
                        assert(self@.first_free(c));
                        proof {
                            let other = choose|d: char| #[trigger] self@.first_free(d);
                            assert(self@.first_free(other));
                            if (other as int) < (c as int) {
                                assert(self@.has(other));
                            } else if (c as int) < (other as int) {
                                assert(self@.has(c));
                            }
                        }
                        return Ok(c);
                    }
                },
                None => {},
            }
            proof {
                assert forall|d: char| 0x61 <= d as int && (d as int) < code + 1 implies
                    #[trigger] self@.has(d) by {
                    lemma_char_range(d);
                }
            }
            code = code + 1;
        }
        proof {
            assert forall|c: char| !self@.first_free(c) by {
                lemma_char_range(c);
                if 'a' as int <= c as int {
                    assert(self@.has(c));
                }
            }
        }
        Err(Error::NoLabelLeft)
    }

    /// With one more axis, at a position of a slot, under a label of its own.
    pub fn with_extra_axis(&self, repr: char, io: InOut, pos: usize) -> (r: Result<
        AxesMapping,
        Error,
    >)
        ensures
            match r {
                Ok(m) => !self@.has(repr) && self@.fits(io, pos as int) && m@ == self@.with(
                    io,
                    pos as int,
                    repr,
                ),
                Err(Error::DuplicateLabel) => self@.has(repr),
                Err(e) => e == Error::BadPosition && !self@.has(repr) && !self@.fits(
                    io,
                    pos as int,
                ),
            },
    {
        if self.has_label(repr) {
            return Err(Error::DuplicateLabel);
        }
        self.put(repr, io, pos)
    }

    /// With one more axis, at a position of a slot, under a label in use.
    pub fn with_extra_axis_occurency(&self, repr: char, io: InOut, pos: usize) -> (r: Result<
        AxesMapping,
        Error,
    >)
        ensures
            match r {
                Ok(m) => self@.has(repr) && self@.fits(io, pos as int) && m@ == self@.with(
                    io,
                    pos as int,
                    repr,
                ),
                Err(Error::UnknownLabel) => !self@.has(repr),
                Err(e) => e == Error::BadPosition && self@.has(repr) && !self@.fits(
                    io,
                    pos as int,
                ),
            },
    {
        if !self.has_label(repr) {
            return Err(Error::UnknownLabel);
        }
        self.put(repr, io, pos)
    }

    fn put(&self, repr: char, io: InOut, pos: usize) -> (r: Result<AxesMapping, Error>)
        ensures
            match r {
                Ok(m) => self@.fits(io, pos as int) && m@ == self@.with(io, pos as int, repr),
                Err(e) => e == Error::BadPosition && !self@.fits(io, pos as int),
            },
    {
        match io {
            InOut::In(slot) => {
                if slot >= self.inputs.len() || pos > self.inputs[slot].len() {
                    return Err(Error::BadPosition);
                }
                Ok(
                    AxesMapping::from_labels(
                        copy_rows_with(&self.inputs, slot, pos, repr),
                        self.copy_outputs(),
                    ),
                )
            },
            InOut::Out(slot) => {
                if slot >= self.outputs.len() || pos > self.outputs[slot].len() {
                    return Err(Error::BadPosition);
                }
                Ok(
                    AxesMapping::from_labels(
                        self.copy_inputs(),
                        copy_rows_with(&self.outputs, slot, pos, repr),
                    ),
                )
            },
        }
    }

    fn copy_inputs(&self) -> (r: Vec<Vec<char>>)
        ensures
            rows(r@) == self@.inputs,
    {
        copy_rows(&self.inputs)
    }

    fn copy_outputs(&self) -> (r: Vec<Vec<char>>)
        ensures
            rows(r@) == self@.outputs,
    {
        copy_rows(&self.outputs)
    }

    /// With the axes of two labels made to run together under the first.
    pub fn linking(&self, a: char, b: char) -> (r: Result<AxesMapping, Error>)
        ensures
            match r {
                Ok(m) => self@.has(a) && self@.has(b) && m@ == self@.linked(a, b),
                Err(e) => e == Error::UnknownLabel && !(self@.has(a) && self@.has(b)),
            },
    {
        if !self.has_label(a) || !self.has_label(b) {
            return Err(Error::UnknownLabel);
        }
        Ok(
            AxesMapping::from_labels(
                copy_rows_relabelled(&self.inputs, b, a),
                copy_rows_relabelled(&self.outputs, b, a),
            ),
        )
    }

    /// Restricted to some of the inputs and some of the outputs.
    pub fn extract_sub_mapping(&self, inputs: &Vec<usize>, outputs: &Vec<usize>) -> (r: Result<
        AxesMapping,
        Error,
    >)
        ensures
            match r {
                Ok(m) => in_range(inputs@, self@.inputs.len()) && in_range(
                    outputs@,
                    self@.outputs.len(),
                ) && m@ == self@.restricted(inputs@, outputs@),
                Err(e) => e == Error::BadPosition && !(in_range(inputs@, self@.inputs.len())
                    && in_range(outputs@, self@.outputs.len())),
            },
    {
        match (copy_selected(&self.inputs, inputs), copy_selected(&self.outputs, outputs)) {
            (Some(i), Some(o)) => Ok(AxesMapping::from_labels(i, o)),
            _ => Err(Error::BadPosition),
        }
    }

    /// With the first two inputs exchanged.
    pub fn swapping_inputs(&self) -> (r: AxesMapping)
        requires
            self@.inputs.len() >= 2,
        ensures
            r@ == self@.swapped(),
    {
        let mut inputs: Vec<Vec<char>> = Vec::new();
        inputs.push(copy_row(&self.inputs[1]));
        inputs.push(copy_row(&self.inputs[0]));
        for s in 2..self.inputs.len()
            invariant
                self@.inputs.len() >= 2,
                inputs@.len() == s,
                rows(inputs@) == self@.swapped().inputs.take(s as int),
        {
            inputs.push(copy_row(&self.inputs[s]));
            assert(rows(inputs@) =~= self@.swapped().inputs.take(s + 1));
        }
        assert(rows(inputs@) =~= self@.swapped().inputs);
        AxesMapping::from_labels(inputs, self.copy_outputs())
    }
}

fn copy_rows(slots: &Vec<Vec<char>>) -> (r: Vec<Vec<char>>)
    ensures
        rows(r@) == rows(slots@),
{
    let mut copy: Vec<Vec<char>> = Vec::new();
    for s in 0..slots.len()
        invariant
            copy@.len() == s,
            forall|t: int| 0 <= t < s ==> (#[trigger] copy@[t])@ == slots@[t]@,
    {
        copy.push(copy_row(&slots[s]));
    }
    assert(rows(copy@) =~= rows(slots@));
    copy
}

impl Clone for AxesMapping {
    fn clone(&self) -> (r: AxesMapping)
        ensures
            r@ == self@,
    {
        AxesMapping::from_labels(self.copy_inputs(), self.copy_outputs())
    }
}

/// A slot has no more axes than a machine can count.
pub proof fn lemma_labels_fit(axes: &AxesMapping)
    ensures
        forall|s: int| 0 <= s < axes@.inputs.len() ==> (#[trigger] axes@.inputs[s]).len() <= usize::MAX,
        forall|s: int|
            0 <= s < axes@.outputs.len() ==> (#[trigger] axes@.outputs[s]).len() <= usize::MAX,
{
    assert forall|s: int| 0 <= s < axes@.inputs.len() implies (#[trigger] axes@.inputs[s]).len()
        <= usize::MAX by {
        assert(axes.inputs@[s].len() == axes@.inputs[s].len());
    }
    assert forall|s: int| 0 <= s < axes@.outputs.len() implies (#[trigger] axes@.outputs[s]).len()
        <= usize::MAX by {
        assert(axes.outputs@[s].len() == axes@.outputs[s].len());
    }
}

/// Whether rows are others, with an element put into one of them.
pub open spec fn is_put(
    rows: Seq<Seq<char>>,
    others: Seq<Seq<char>>,
    slot: int,
    pos: int,
    c: char,
) -> bool {
    &&& rows.len() == others.len()
    &&& rows[slot][pos] == c
    &&& rows[slot].remove(pos) == others[slot]
    &&& forall|s: int| 0 <= s < rows.len() && s != slot ==> #[trigger] rows[s] == others[s]
}

/// An axis that is added to an input, or to the output, is where it was asked for, with
/// its label, and leaves the others in their order.
pub proof fn lemma_added_axis(e: Expr, io: InOut, pos: int, c: char)
    requires
        e.fits(io, pos),
    ensures
        match io {
            InOut::In(slot) => is_put(
                e.with(io, pos, c).inputs,
                e.inputs,
                slot as int,
                pos,
                c,
            ) && e.with(io, pos, c).outputs == e.outputs,
            InOut::Out(slot) => is_put(
                e.with(io, pos, c).outputs,
                e.outputs,
                slot as int,
                pos,
                c,
            ) && e.with(io, pos, c).inputs == e.inputs,
        },
{
    let f = e.with(io, pos, c);
    match io {
        InOut::In(slot) => {
            assert(f.inputs[slot as int].remove(pos) =~= e.inputs[slot as int]);
        },
        InOut::Out(slot) => {
            assert(f.outputs[slot as int].remove(pos) =~= e.outputs[slot as int]);
        },
    }
}

/// Where the axes of two labels are made to run together, an axis of the second gets the
/// first, and any other keeps its label.
pub proof fn lemma_linked_axis(e: Expr, a: char, b: char, s: int, p: int)
    ensures
        0 <= s < e.inputs.len() && 0 <= p < e.inputs[s].len() ==> e.linked(a, b).inputs[s][p] == (
        if e.inputs[s][p] == b {
            a
        } else {
            e.inputs[s][p]
        }),
        0 <= s < e.outputs.len() && 0 <= p < e.outputs[s].len() ==> e.linked(a, b).outputs[s][p]
            == (if e.outputs[s][p] == b {
            a
        } else {
            e.outputs[s][p]
        }),
{
}

} // verus!
