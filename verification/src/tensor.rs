//! A minimal integer tensor: a shape vector and row-major data.
//!
//! The relative-position encoder only needs integer-valued tensors with
//! construction, rank inspection, element access and `unsqueeze`; everything
//! is held as plain vectors so that every operation can be verified.

use vstd::prelude::*;

verus! {

/// Number of elements a shape describes: the product of its extents.
pub open spec fn shape_count(s: Seq<usize>) -> int
    decreases s.len(),
{
    if s.len() == 0 {
        1
    } else {
        s[0] * shape_count(s.skip(1))
    }
}

/// Inserting an extent of one anywhere leaves the element count unchanged.
pub proof fn lemma_shape_count_insert_one(s: Seq<usize>, d: int)
    requires
        0 <= d <= s.len(),
    ensures
        shape_count(s.insert(d, 1usize)) == shape_count(s),
    decreases d,
{
    let t = s.insert(d, 1usize);
    if d == 0 {
        assert(t.skip(1) =~= s);
        assert(shape_count(t) == 1 * shape_count(s));
    } else {
        assert(t[0] == s[0]);
        assert(t.skip(1) =~= s.skip(1).insert(d - 1, 1usize));
        lemma_shape_count_insert_one(s.skip(1), d - 1);
    }
}

/// An integer tensor of arbitrary rank, stored row-major.
#[derive(Debug)]
pub struct IntTensor {
    shape: Vec<usize>,
    data: Vec<i64>,
}

impl IntTensor {
    /// The tensor's extents.
    pub closed spec fn dims(self) -> Seq<usize> {
        self.shape@
    }

    /// The tensor's elements in row-major order.
    pub closed spec fn elems(self) -> Seq<i64> {
        self.data@
    }

    /// The data holds exactly one element per position of the shape.
    pub open spec fn wf(self) -> bool {
        self.elems().len() == shape_count(self.dims())
    }

    /// Row-major element of a rank-3 tensor.
    pub open spec fn index3(self, d0: int, d1: int, d2: int) -> int {
        self.elems()[(d0 * self.dims()[1] + d1) * self.dims()[2] + d2] as int
    }

    pub fn rank(&self) -> (r: usize)
        ensures
            r == self.dims().len(),
    {
        self.shape.len()
    }

    pub fn dim(&self, d: usize) -> (r: usize)
        requires
            d < self.dims().len(),
        ensures
            r == self.dims()[d as int],
    {
        self.shape[d]
    }

    /// Builds a tensor from a shape and matching row-major data.
    pub fn from_parts(shape: Vec<usize>, data: Vec<i64>) -> (t: IntTensor)
        requires
            data@.len() == shape_count(shape@),
        ensures
            t.wf(),
            t.dims() == shape@,
            t.elems() == data@,
    {
        IntTensor { shape, data }
    }

    /// Element access for rank-3 tensors.
    pub fn at3(&self, d0: usize, d1: usize, d2: usize) -> (r: i64)
        requires
            self.wf(),
            self.dims().len() == 3,
            d0 < self.dims()[0],
            d1 < self.dims()[1],
            d2 < self.dims()[2],
        ensures
            r == self.index3(d0 as int, d1 as int, d2 as int),
    {
        let n: usize = self.data.len();
        proof {
            lemma_index3_in_range(*self, d0 as int, d1 as int, d2 as int);
            assert(n == self.elems().len());
        }
        self.data[(d0 * self.shape[1] + d1) * self.shape[2] + d2]
    }

    /// Number of stored elements.
    pub fn flat_len(&self) -> (r: usize)
        ensures
            r == self.elems().len(),
    {
        self.data.len()
    }

    /// Element at a row-major position.
    pub fn flat_at(&self, n: usize) -> (r: i64)
        requires
            n < self.elems().len(),
        ensures
            r == self.elems()[n as int],
    {
        self.data[n]
    }

    /// The extents as a fresh vector.
    pub fn dims_vec(&self) -> (r: Vec<usize>)
        ensures
            r@ == self.dims(),
    {
        copy_dims(&self.shape)
    }

    /// A fresh tensor with the same shape and data.
    pub fn duplicate(&self) -> (t: IntTensor)
        ensures
            t.dims() == self.dims(),
            t.elems() == self.elems(),
    {
        IntTensor { shape: copy_dims(&self.shape), data: copy_elems(&self.data) }
    }

    /// Inserts a singleton extent before position `dim`, keeping the data.
    pub fn unsqueeze(&self, dim: usize) -> (t: IntTensor)
        requires
            self.wf(),
            dim <= self.dims().len(),
        ensures
            t.wf(),
            t.dims() == self.dims().insert(dim as int, 1usize),
            t.dims().len() == self.dims().len() + 1,
            t.elems() == self.elems(),
    {
        let mut shape: Vec<usize> = copy_dims(&self.shape);
        shape.insert(dim, 1);
        let data: Vec<i64> = copy_elems(&self.data);
        proof {
            lemma_shape_count_insert_one(self.shape@, dim as int);
        }
        IntTensor { shape, data }
    }
}

/// The flat position of a rank-3 index lies inside the data.
pub proof fn lemma_index3_in_range(t: IntTensor, d0: int, d1: int, d2: int)
    requires
        t.wf(),
        t.dims().len() == 3,
        0 <= d0 < t.dims()[0],
        0 <= d1 < t.dims()[1],
        0 <= d2 < t.dims()[2],
    ensures
        0 <= d0 * t.dims()[1],
        d0 * t.dims()[1] + d1 < t.elems().len(),
        0 <= (d0 * t.dims()[1] + d1) * t.dims()[2],
        (d0 * t.dims()[1] + d1) * t.dims()[2] + d2 < t.elems().len(),
{
    let s0 = t.dims()[0] as int;
    let s1 = t.dims()[1] as int;
    let s2 = t.dims()[2] as int;
    let s = t.dims();
    let s_1 = s.skip(1);
    let s_2 = s_1.skip(1);
    let s_3 = s_2.skip(1);
    assert(s_3 =~= Seq::<usize>::empty());
    assert(shape_count(s_3) == 1);
    assert(s_2[0] == s2 && s_1[0] == s1);
    assert(shape_count(s_2) == s2 * 1);
    assert(shape_count(s_1) == s1 * (s2 * 1));
    assert(shape_count(s) == s0 * (s1 * (s2 * 1)));
    assert(0 <= d0 * s1 && d0 * s1 + d1 < s0 * (s1 * (s2 * 1))
        && 0 <= (d0 * s1 + d1) * s2
        && (d0 * s1 + d1) * s2 + d2 < s0 * (s1 * (s2 * 1))) by (nonlinear_arith)
        requires
            0 <= d0 < s0,
            0 <= d1 < s1,
            0 <= d2 < s2,
    ;
}

fn copy_dims(v: &Vec<usize>) -> (r: Vec<usize>)
    ensures
        r@ == v@,
{
    let mut r: Vec<usize> = Vec::new();
    let mut i: usize = 0;
    while i < v.len()
        invariant
            0 <= i <= v@.len(),
            r@ == v@.take(i as int),
        decreases v@.len() - i,
    {
        r.push(v[i]);
        proof {
            assert(v@.take(i + 1) =~= v@.take(i as int).push(v@[i as int]));
        }
        i = i + 1;
    }
    proof {
        assert(v@.take(v@.len() as int) =~= v@);
    }
    r
}

fn copy_elems(v: &Vec<i64>) -> (r: Vec<i64>)
    ensures
        r@ == v@,
{
    let mut r: Vec<i64> = Vec::new();
    let mut i: usize = 0;
    while i < v.len()
        invariant
            0 <= i <= v@.len(),
            r@ == v@.take(i as int),
        decreases v@.len() - i,
    {
        r.push(v[i]);
        proof {
            assert(v@.take(i + 1) =~= v@.take(i as int).push(v@[i as int]));
        }
        i = i + 1;
    }
    proof {
        assert(v@.take(v@.len() as int) =~= v@);
    }
    r
}

} // verus!
