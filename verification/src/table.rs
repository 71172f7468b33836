//! Dense tables of probability cells, stored in an `ndarray` array.
//!
//! A cell is the bit pattern of a 32-bit float; the library never computes
//! with a cell, it only stores cells and hands them back.

use vstd::prelude::*;

verus! {

/// What a table holds, as mathematics: the length of each axis and the cells
/// in logical order (the last axis varies fastest).
pub struct TableView {
    pub shape: Seq<nat>,
    pub cells: Seq<u32>,
}

/// A dense table of cells. The array inside is opaque to the verifier: its
/// shape and its cells are known only through `table_shape` and
/// `table_cells`.
#[verifier::external_body]
#[derive(Debug)]
pub struct Table {
    inner: ndarray::ArrayD<u32>,
}

/// The axis lengths of the array inside a table, as `shape()` reports them.
pub uninterp spec fn table_shape(t: Table) -> Seq<usize>;

/// The cells of the array inside a table, in the order in which `iter()`
/// visits them.
pub uninterp spec fn table_cells(t: Table) -> Seq<u32>;

/// The axis lengths as natural numbers.
pub open spec fn dims(shape: Seq<usize>) -> Seq<nat> {
    Seq::new(shape.len(), |i: int| shape[i] as nat)
}

/// The product of all numbers of a sequence; 1 for the empty sequence.
pub open spec fn product(s: Seq<nat>) -> nat
    decreases s.len(),
{
    if s.len() == 0 {
        1
    } else {
        product(s.drop_last()) * s.last()
    }
}

/// The product of the numbers of a sequence that are not zero.
pub open spec fn nonzero_product(s: Seq<nat>) -> nat
    decreases s.len(),
{
    if s.len() == 0 {
        1
    } else if s.last() == 0 {
        nonzero_product(s.drop_last())
    } else {
        nonzero_product(s.drop_last()) * s.last()
    }
}

/// Whether an array of this shape can be made from `len` cells: the non-zero
/// axis lengths must multiply to at most `isize::MAX`, and all axis lengths
/// must multiply to `len`.
pub open spec fn admissible(shape: Seq<nat>, len: nat) -> bool {
    nonzero_product(shape) <= isize::MAX && product(shape) == len
}

/// A sequence that holds a zero has product zero.
pub proof fn lemma_product_zero(s: Seq<nat>, i: int)
    requires
        0 <= i < s.len(),
        s[i] == 0,
    ensures
        product(s) == 0,
    decreases s.len(),
{
    if i < s.len() - 1 {
        lemma_product_zero(s.drop_last(), i);
        assert(0 * s.last() == 0) by (nonlinear_arith);
    } else {
        assert(product(s.drop_last()) * 0 == 0) by (nonlinear_arith);
    }
}

/// The product of positive numbers is positive, and no smaller than the
/// product of any of its prefixes.
pub proof fn lemma_product_grows(s: Seq<nat>, k: int)
    requires
        0 <= k <= s.len(),
        forall|i: int| 0 <= i < s.len() ==> #[trigger] s[i] >= 1,
    ensures
        1 <= product(s.take(k)) <= product(s),
    decreases s.len() - k,
{
    lemma_product_positive(s.take(k));
    if k == s.len() {
        assert(s.take(k) =~= s);
    } else {
        lemma_product_grows(s, k + 1);
        assert(s.take(k + 1).drop_last() =~= s.take(k));
        let a = product(s.take(k));
        let x = s[k];
        assert(product(s.take(k + 1)) == a * x);
        assert(a <= a * x) by (nonlinear_arith)
            requires
                x >= 1,
                a >= 0,
        ;
    }
}

/// The product of positive numbers is positive.
pub proof fn lemma_product_positive(s: Seq<nat>)
    requires
        forall|i: int| 0 <= i < s.len() ==> #[trigger] s[i] >= 1,
    ensures
        product(s) >= 1,
    decreases s.len(),
{
    if s.len() > 0 {
        lemma_product_positive(s.drop_last());
        let a = product(s.drop_last());
        let x = s.last();
        assert(a * x >= 1) by (nonlinear_arith)
            requires
                a >= 1,
                x >= 1,
        ;
    }
}

/// Shapes that differ as lists of machine numbers differ as lists of
/// natural numbers.
pub proof fn lemma_dims_injective(a: Seq<usize>, b: Seq<usize>)
    ensures
        dims(a) == dims(b) <==> a == b,
{
    if dims(a) == dims(b) {
        assert(a.len() == dims(a).len());
        assert(b.len() == dims(b).len());
        assert forall|i: int| 0 <= i < a.len() implies a[i] == b[i] by {
            assert(dims(a)[i] == dims(b)[i]);
        }
        assert(a =~= b);
    }
}

/// Each number of the sequence, with one in place of zero.
pub open spec fn zeros_lifted(s: Seq<nat>) -> Seq<nat> {
    Seq::new(
        s.len(),
        |i: int|
            if s[i] == 0 {
                1nat
            } else {
                s[i]
            },
    )
}

/// The product of the numbers that are not zero is the product of all
/// numbers once each zero is taken for one.
pub proof fn lemma_nonzero_product(s: Seq<nat>)
    ensures
        nonzero_product(s) == product(zeros_lifted(s)),
    decreases s.len(),
{
    if s.len() > 0 {
        lemma_nonzero_product(s.drop_last());
        assert(zeros_lifted(s).drop_last() =~= zeros_lifted(s.drop_last()));
        assert(product(zeros_lifted(s.drop_last())) * 1 == product(zeros_lifted(s.drop_last())));
    }
}

/// The product of the non-zero numbers of a shape, or `None` where it is
/// more than `isize::MAX`.
pub(crate) fn nonzero_size(shape: &Vec<usize>) -> (r: Option<usize>)
    ensures
        match r {
            Some(size) => size == nonzero_product(dims(shape@)) && size <= isize::MAX,
            None => nonzero_product(dims(shape@)) > isize::MAX,
        },
{
    let ghost lifted = zeros_lifted(dims(shape@));
    let mut total: usize = 1;
    let mut k: usize = 0;
    proof {
        lemma_nonzero_product(dims(shape@));
        assert(lifted.take(0) =~= Seq::<nat>::empty());
    }
    while k < shape.len()
        invariant
            k <= shape@.len(),
            lifted == zeros_lifted(dims(shape@)),
            nonzero_product(dims(shape@)) == product(lifted),
            total == product(lifted.take(k as int)),
        decreases shape@.len() - k,
    {
        let d = shape[k];
        proof {
            assert(lifted.take(k + 1).drop_last() =~= lifted.take(k as int));
            lemma_product_grows(lifted, k + 1);
        }
        if d != 0 {
            match total.checked_mul(d) {
                Some(t) => {
                    total = t;
                },
                None => {
                    return None;
                },
            }
        } else {
            assert(total * 1 == total);
        }
        k += 1;
    }
    assert(lifted.take(k as int) =~= lifted);
    if total > isize::MAX as usize {
        None
    } else {
        Some(total)
    }
}

impl View for Table {
    type V = TableView;

    open spec fn view(&self) -> TableView {
        TableView { shape: dims(table_shape(*self)), cells: table_cells(*self) }
    }
}

/// `ndarray::ArrayD::from_shape_vec` with a shape given as a slice: the
/// array in standard layout over `cells`, or nothing where the shape's size
/// is not the number of cells. The crate multiplies the axis lengths
/// unchecked to lay out the strides before it checks the shape, so the call
/// is made only for a shape whose non-zero axis lengths multiply to at most
/// `isize::MAX`; for such a shape the crate's own check of that bound
/// passes.
#[verifier::external_body]
fn array_from_shape_vec(shape: &Vec<usize>, cells: Vec<u32>) -> (r: Option<Table>)
    requires
        nonzero_product(dims(shape@)) <= isize::MAX,
    ensures
        r is Some <==> product(dims(shape@)) == cells@.len(),
        r matches Some(t) ==> table_shape(t) == shape@ && table_cells(t) == cells@,
{
    match ndarray::ArrayD::from_shape_vec(ndarray::IxDyn(shape), cells) {
        Ok(inner) => Some(Table { inner }),
        Err(_) => None,
    }
}

/// `ndarray::ArrayBase::shape`: the axis lengths, copied out of the array.
#[verifier::external_body]
fn array_shape(t: &Table) -> (shape: Vec<usize>)
    ensures
        shape@ == table_shape(*t),
{
    t.inner.shape().to_vec()
}

/// `ndarray::ArrayBase::iter`: the cells in logical order, copied out of the
/// array. There are as many as the axis lengths multiply to, which is what
/// `len` reports.
#[verifier::external_body]
fn array_cells(t: &Table) -> (cells: Vec<u32>)
    ensures
        cells@ == table_cells(*t),
        cells@.len() == product(dims(table_shape(*t))),
{
    t.inner.iter().cloned().collect()
}

/// `Clone` of `ndarray::ArrayBase`: an array of the same shape that holds
/// the same cells.
#[verifier::external_body]
fn array_clone(t: &Table) -> (r: Table)
    ensures
        table_shape(r) == table_shape(*t),
        table_cells(r) == table_cells(*t),
{
    Table { inner: t.inner.clone() }
}

impl Table {
    /// The table of the given shape over the given cells, row-major; `None`
    /// where the shape does not go with the number of cells, or is beyond
    /// what a table can have.
    pub fn from_shape_vec(shape: &Vec<usize>, cells: Vec<u32>) -> (r: Option<Table>)
        ensures
            r is Some <==> admissible(dims(shape@), cells@.len()),
            r matches Some(t) ==> t@ == (TableView { shape: dims(shape@), cells: cells@ }),
    {
        match nonzero_size(shape) {
            Some(_) => array_from_shape_vec(shape, cells),
            None => None,
        }
    }

    /// The length of each axis.
    pub fn shape(&self) -> (shape: Vec<usize>)
        ensures
            dims(shape@) == self@.shape,
    {
        array_shape(self)
    }

    /// The cells in row-major order, as many as the shape holds.
    pub fn cells(&self) -> (cells: Vec<u32>)
        ensures
            cells@ == self@.cells,
            cells@.len() == product(self@.shape),
    {
        array_cells(self)
    }
}

impl Clone for Table {
    fn clone(&self) -> (r: Table)
        ensures
            r@ == self@,
    {
        array_clone(self)
    }
}

} // verus!
