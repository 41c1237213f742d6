//! A trace: field elements in row-major order, and the helpers that build one
//! row at a time.
use vstd::prelude::*;

verus! {

/// A row-major trace of canonical field elements, `width` columns per row.
pub struct Trace {
    pub values: Vec<u64>,
    pub width: usize,
}

/// Row `k` of a row-major sequence of values.
pub open spec fn row_of_values(values: Seq<u64>, width: int, k: int) -> Seq<u64> {
    values.subrange(k * width, (k + 1) * width)
}

impl Trace {
    /// The trace is a whole number of rows of a positive width.
    pub open spec fn wf(&self) -> bool {
        &&& self.width > 0
        &&& (self.values@.len() as int) % (self.width as int) == 0
    }

    pub open spec fn rows(&self) -> int {
        (self.values@.len() as int) / (self.width as int)
    }

    pub open spec fn row(&self, k: int) -> Seq<u64> {
        row_of_values(self.values@, self.width as int, k)
    }

    /// Every row of the trace is `row`.
    pub open spec fn repeats(&self, row: Seq<u64>, rows: int) -> bool {
        &&& self.width as int == row.len()
        &&& self.values@.len() == rows * row.len()
        &&& forall|i: int| 0 <= i < self.values@.len() ==> #[trigger] self.values@[i] == row[i % (
            row.len() as int)]
    }
}

/// `row` with one entry raised by one in the field.
pub open spec fn raise(row: Seq<u64>, at: int) -> Seq<u64> {
    row.update(at, crate::field::add_spec(row[at] as int, 1) as u64)
}

/// A sequence of zeros.
pub open spec fn zero_seq(n: int) -> Seq<u64> {
    Seq::new(n as nat, |i: int| 0u64)
}

/// `s` with the entries from `start` on replaced by `t`.
pub open spec fn splice(s: Seq<u64>, start: int, t: Seq<u64>) -> Seq<u64> {
    Seq::new(
        s.len(),
        |i: int|
            if start <= i < start + t.len() {
                t[i - start]
            } else {
                s[i]
            },
    )
}

/// A row of `n` zeros.
pub fn zeros(n: usize) -> (v: Vec<u64>)
    ensures
        v@ == zero_seq(n as int),
{
    let mut v: Vec<u64> = Vec::with_capacity(n);
    let mut i: usize = 0;
    while i < n
        invariant
            i <= n,
            v@ == zero_seq(i as int),
        decreases n - i,
    {
        v.push(0);
        i += 1;
        assert(v@ =~= zero_seq(i as int));
    }
    v
}

/// Copy `src` into `row` from column `start`.
pub fn put(row: &mut Vec<u64>, start: usize, src: &[u64])
    requires
        start + src@.len() <= old(row)@.len(),
    ensures
        final(row)@ == splice(old(row)@, start as int, src@),
{
    let n = src.len();
    let len = row.len();
    let mut j: usize = 0;
    while j < n
        invariant
            n == src@.len(),
            len == row@.len(),
            start + n <= row@.len(),
            j <= n,
            row@ == splice(old(row)@, start as int, src@.subrange(0, j as int)),
        decreases n - j,
    {
        row.set(start + j, src[j]);
        j += 1;
        assert(row@ =~= splice(old(row)@, start as int, src@.subrange(0, j as int)));
    }
    assert(src@.subrange(0, n as int) =~= src@);
}

/// Append `src` to `row`.
pub fn append(row: &mut Vec<u64>, src: &[u64])
    ensures
        final(row)@ == old(row)@ + src@,
{
    let n = src.len();
    let mut j: usize = 0;
    while j < n
        invariant
            n == src@.len(),
            j <= n,
            row@ == old(row)@ + src@.subrange(0, j as int),
        decreases n - j,
    {
        row.push(src[j]);
        j += 1;
        assert(row@ =~= old(row)@ + src@.subrange(0, j as int));
    }
    assert(src@.subrange(0, n as int) =~= src@);
}

/// A trace of `rows` copies of one row.
pub fn repeat(row: &Vec<u64>, rows: usize) -> (t: Trace)
    requires
        row@.len() > 0,
        rows * row@.len() <= usize::MAX,
    ensures
        t.repeats(row@, rows as int),
        t.wf(),
{
    let w = row.len();
    let mut values: Vec<u64> = Vec::new();
    let mut r: usize = 0;
    while r < rows
        invariant
            w == row@.len(),
            w > 0,
            r <= rows,
            rows * w <= usize::MAX,
            values@.len() == r * w,
            forall|i: int| 0 <= i < values@.len() ==> #[trigger] values@[i] == row@[i % (w as int)],
        decreases rows - r,
    {
        let mut j: usize = 0;
        assert(r * w + w <= rows * w) by (nonlinear_arith)
            requires
                r < rows,
        ;
        while j < w
            invariant
                w == row@.len(),
                w > 0,
                j <= w,
                r < rows,
                r * w + w <= usize::MAX,
                values@.len() == r * w + j,
                forall|i: int|
                    0 <= i < values@.len() ==> #[trigger] values@[i] == row@[i % (w as int)],
            decreases w - j,
        {
            proof {
                let i = (r * w + j) as int;
                assert(i % (w as int) == j) by {
                    vstd::arithmetic::div_mod::lemma_fundamental_div_mod(i, w as int);
                    vstd::arithmetic::div_mod::lemma_mod_multiples_vanish(r as int, j as int, w as int);
                    vstd::arithmetic::div_mod::lemma_small_mod(j as nat, w as nat);
                    assert(i == (w as int) * (r as int) + j) by (nonlinear_arith)
                        requires
                            i == (r * w + j) as int,
                    ;
                }
            }
            values.push(row[j]);
            j += 1;
        }
        r += 1;
        assert(values@.len() == r * w) by (nonlinear_arith)
            requires
                values@.len() == (r - 1) * w + w,
        ;
    }
    proof {
        assert((values@.len() as int) % (w as int) == 0) by {
            vstd::arithmetic::div_mod::lemma_mod_multiples_basic(rows as int, w as int);
        }
    }
    Trace { values, width: w }
}

/// A trace of one copy of a row holds exactly that row.
pub proof fn lemma_repeats_one(t: Trace, row: Seq<u64>)
    requires
        t.repeats(row, 1),
        row.len() > 0,
    ensures
        t.values@ == row,
{
    assert forall|i: int| 0 <= i < row.len() implies #[trigger] t.values@[i] == row[i] by {
        vstd::arithmetic::div_mod::lemma_small_mod(i as nat, row.len());
    }
    assert(t.values@ =~= row);
}

/// Each row of a repeated trace is the repeated row.
pub proof fn lemma_repeats_row(t: Trace, row: Seq<u64>, rows: int, k: int)
    requires
        t.repeats(row, rows),
        row.len() > 0,
        0 <= k < rows,
    ensures
        t.row(k) == row,
{
    let w = row.len() as int;
    assert((k + 1) * w <= rows * w) by (nonlinear_arith)
        requires
            k < rows,
            w > 0,
    ;
    assert(k * w >= 0) by (nonlinear_arith)
        requires
            k >= 0,
            w > 0,
    ;
    assert forall|j: int| 0 <= j < w implies #[trigger] t.row(k)[j] == row[j] by {
        assert((k + 1) * w == k * w + w) by (nonlinear_arith);
        let i = k * w + j;
        assert(t.values@[i] == row[i % w]);
        vstd::arithmetic::div_mod::lemma_mod_multiples_vanish(k, j, w);
        vstd::arithmetic::div_mod::lemma_small_mod(j as nat, w as nat);
        assert(i % w == j) by {
            assert(i == w * k + j) by (nonlinear_arith)
                requires
                    i == k * w + j,
            ;
        }
    }
    assert((k + 1) * w == k * w + w) by (nonlinear_arith);
    assert(t.row(k) =~= row);
}

} // verus!
