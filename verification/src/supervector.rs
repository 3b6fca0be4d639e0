//! Supervector spaces of dimension (p|q) and the block layout of operators
//! on them: M = [A B; C D] with A p×p, B p×q, C q×p, D q×q.

use vstd::prelude::*;

verus! {

/// A supervector space of dimension (p|q).
#[derive(Debug, Clone, Copy)]
pub struct SuperVectorSpace {
    /// Bosonic (even) dimension.
    pub p: usize,
    /// Fermionic (odd) dimension.
    pub q: usize,
}

impl SuperVectorSpace {
    pub fn new(p: usize, q: usize) -> (s: Self)
        ensures
            s.p == p,
            s.q == q,
    {
        SuperVectorSpace { p, q }
    }

    /// p + q.
    pub fn total_dimension(&self) -> (n: usize)
        requires
            self.p + self.q <= usize::MAX,
        ensures
            n == self.p + self.q,
    {
        self.p + self.q
    }
}

/// The entry in row `i`, column `j` of the block matrix [A B; C D] whose
/// A block is p×p.
pub open spec fn block_entry<T>(
    p: nat,
    a: Seq<Vec<T>>,
    b: Seq<Vec<T>>,
    c: Seq<Vec<T>>,
    d: Seq<Vec<T>>,
    i: int,
    j: int,
) -> T {
    if i < p {
        if j < p {
            a[i]@[j]
        } else {
            b[i]@[j - p]
        }
    } else {
        if j < p {
            c[i - p]@[j]
        } else {
            d[i - p]@[j - p]
        }
    }
}

/// The blocks hold the entries that assembling a (p|q) matrix reads:
/// A p×p, B p×q, C q×p and D q×q (extra rows and columns are ignored).
pub open spec fn blocks_cover<T>(
    p: nat,
    q: nat,
    a: Seq<Vec<T>>,
    b: Seq<Vec<T>>,
    c: Seq<Vec<T>>,
    d: Seq<Vec<T>>,
) -> bool {
    &&& a.len() >= p
    &&& forall|i: int| 0 <= i < p ==> #[trigger] a[i].len() >= p
    &&& q > 0 ==> b.len() >= p && forall|i: int| 0 <= i < p ==> #[trigger] b[i].len() >= q
    &&& p > 0 ==> c.len() >= q && forall|i: int| 0 <= i < q ==> #[trigger] c[i].len() >= p
    &&& d.len() >= q
    &&& forall|i: int| 0 <= i < q ==> #[trigger] d[i].len() >= q
}

/// Each block of [A B; C D] is found again at its place: entry (i, j) of
/// A at (i, j), of B at (i, p + j), of C at (p + i, j) and of D at
/// (p + i, p + j), with no block transposed or moved.
pub proof fn lemma_blocks_recovered<T>(
    p: nat,
    q: nat,
    a: Seq<Vec<T>>,
    b: Seq<Vec<T>>,
    c: Seq<Vec<T>>,
    d: Seq<Vec<T>>,
)
    ensures
        forall|i: int, j: int|
            0 <= i < p && 0 <= j < p ==> #[trigger] block_entry(p, a, b, c, d, i, j) == a[i]@[j],
        forall|i: int, j: int|
            0 <= i < p && 0 <= j < q ==> #[trigger] block_entry(p, a, b, c, d, i, p + j)
                == b[i]@[j],
        forall|i: int, j: int|
            0 <= i < q && 0 <= j < p ==> #[trigger] block_entry(p, a, b, c, d, p + i, j)
                == c[i]@[j],
        forall|i: int, j: int|
            0 <= i < q && 0 <= j < q ==> #[trigger] block_entry(p, a, b, c, d, p + i, p + j)
                == d[i]@[j],
{
}

/// Appends the entries `src[0..len]` to `row`.
fn extend_row<T: Copy>(row: &mut Vec<T>, src: &Vec<T>, len: usize)
    requires
        src.len() >= len,
    ensures
        final(row)@ == old(row)@ + src@.take(len as int),
{
    let mut j: usize = 0;
    while j < len
        invariant
            j <= len,
            src.len() >= len,
            row@ == old(row)@ + src@.take(j as int),
        decreases len - j,
    {
        row.push(src[j]);
        assert(src@.take(j + 1) =~= src@.take(j as int).push(src@[j as int]));
        j = j + 1;
    }
}

/// Lays the blocks A (p×p), B (p×q), C (q×p), D (q×q) out as the rows of
/// the (p+q)×(p+q) matrix [A B; C D]: rows and columns 0..p are even,
/// p..p+q odd.
pub fn assemble_blocks<T: Copy>(
    p: usize,
    q: usize,
    a: &[Vec<T>],
    b: &[Vec<T>],
    c: &[Vec<T>],
    d: &[Vec<T>],
) -> (data: Vec<Vec<T>>)
    requires
        p + q <= usize::MAX,
        blocks_cover(p as nat, q as nat, a@, b@, c@, d@),
    ensures
        data.len() == p + q,
        forall|i: int| 0 <= i < p + q ==> (#[trigger] data@[i]).len() == p + q,
        forall|i: int, j: int|
            0 <= i < p + q && 0 <= j < p + q ==> (#[trigger] data@[i]@[j]) == block_entry(
                p as nat,
                a@,
                b@,
                c@,
                d@,
                i,
                j,
            ),
        forall|i: int, j: int|
            0 <= i < p && 0 <= j < p ==> (#[trigger] data@[i]@[j]) == a@[i]@[j],
        forall|i: int, j: int|
            0 <= i < p && 0 <= j < q ==> (#[trigger] data@[i]@[p + j]) == b@[i]@[j],
        forall|i: int, j: int|
            0 <= i < q && 0 <= j < p ==> (#[trigger] data@[p + i]@[j]) == c@[i]@[j],
        forall|i: int, j: int|
            0 <= i < q && 0 <= j < q ==> (#[trigger] data@[p + i]@[p + j]) == d@[i]@[j],
{
    let n = p + q;
    let mut data: Vec<Vec<T>> = Vec::new();
    let mut i: usize = 0;
    while i < n
        invariant
            i <= n,
            n == p + q,
            blocks_cover(p as nat, q as nat, a@, b@, c@, d@),
            data.len() == i,
            forall|r: int| 0 <= r < i ==> (#[trigger] data@[r]).len() == n,
            forall|r: int, j: int|
                0 <= r < i && 0 <= j < n ==> (#[trigger] data@[r]@[j]) == block_entry(
                    p as nat,
                    a@,
                    b@,
                    c@,
                    d@,
                    r,
                    j,
                ),
        decreases n - i,
    {
        let mut row: Vec<T> = Vec::new();
        if i < p {
            assert(a@[i as int].len() >= p);
            extend_row(&mut row, &a[i], p);
            if q > 0 {
                assert(b@[i as int].len() >= q);
                extend_row(&mut row, &b[i], q);
            }
            assert(row@.len() == n);
            assert forall|j: int| 0 <= j < n implies (#[trigger] row@[j]) == block_entry(
                p as nat,
                a@,
                b@,
                c@,
                d@,
                i as int,
                j,
            ) by {
                if j < p {
                    assert(row@[j] == a@[i as int]@[j]);
                } else {
                    assert(row@[j] == b@[i as int]@[j - p]);
                }
            }
        } else {
            assert(d@[i - p].len() >= q);
            if p > 0 {
                assert(c@[i - p].len() >= p);
                extend_row(&mut row, &c[i - p], p);
            }
            extend_row(&mut row, &d[i - p], q);
            assert(row@.len() == n);
            assert forall|j: int| 0 <= j < n implies (#[trigger] row@[j]) == block_entry(
                p as nat,
                a@,
                b@,
                c@,
                d@,
                i as int,
                j,
            ) by {
                if j < p {
                    assert(row@[j] == c@[i - p]@[j]);
                } else {
                    assert(row@[j] == d@[i - p]@[j - p]);
                }
            }
        }
        data.push(row);
        i = i + 1;
    }
    proof {
        lemma_blocks_recovered(p as nat, q as nat, a@, b@, c@, d@);
    }
    data
}

/// The `rows`×`cols` block of `data` whose top-left entry is
/// `data[row0][col0]`.
pub fn sub_block<T: Copy>(
    data: &Vec<Vec<T>>,
    row0: usize,
    col0: usize,
    rows: usize,
    cols: usize,
) -> (blk: Vec<Vec<T>>)
    requires
        row0 + rows <= data.len(),
        col0 + cols <= usize::MAX,
        forall|i: int| row0 <= i < row0 + rows ==> (#[trigger] data@[i]).len() >= col0 + cols,
    ensures
        blk.len() == rows,
        forall|i: int| 0 <= i < rows ==> (#[trigger] blk@[i]).len() == cols,
        forall|i: int, j: int|
            0 <= i < rows && 0 <= j < cols ==> (#[trigger] blk@[i]@[j]) == data@[row0 + i]@[col0
                + j],
{
    let mut blk: Vec<Vec<T>> = Vec::new();
    let mut i: usize = 0;
    while i < rows
        invariant
            i <= rows,
            row0 + rows <= data.len(),
            col0 + cols <= usize::MAX,
            forall|r: int| row0 <= r < row0 + rows ==> (#[trigger] data@[r]).len() >= col0 + cols,
            blk.len() == i,
            forall|r: int| 0 <= r < i ==> (#[trigger] blk@[r]).len() == cols,
            forall|r: int, j: int|
                0 <= r < i && 0 <= j < cols ==> (#[trigger] blk@[r]@[j]) == data@[row0 + r]@[col0
                    + j],
        decreases rows - i,
    {
        let src = &data[row0 + i];
        let mut row: Vec<T> = Vec::new();
        let mut j: usize = 0;
        while j < cols
            invariant
                j <= cols,
                src.len() >= col0 + cols,
                col0 + cols <= usize::MAX,
                row.len() == j,
                forall|k: int| 0 <= k < j ==> (#[trigger] row@[k]) == src@[col0 + k],
            decreases cols - j,
        {
            row.push(src[col0 + j]);
            j = j + 1;
        }
        blk.push(row);
        i = i + 1;
    }
    blk
}

/// The square matrix with `diag` on its diagonal and `zero` elsewhere.
pub fn diagonal_matrix<T: Copy>(diag: &Vec<T>, zero: T) -> (data: Vec<Vec<T>>)
    ensures
        data.len() == diag.len(),
        forall|i: int| 0 <= i < diag.len() ==> (#[trigger] data@[i]).len() == diag.len(),
        forall|i: int, j: int|
            0 <= i < diag.len() && 0 <= j < diag.len() ==> (#[trigger] data@[i]@[j]) == if i
                == j {
                diag@[i]
            } else {
                zero
            },
{
    let n = diag.len();
    let mut data: Vec<Vec<T>> = Vec::new();
    let mut i: usize = 0;
    while i < n
        invariant
            i <= n,
            n == diag.len(),
            data.len() == i,
            forall|r: int| 0 <= r < i ==> (#[trigger] data@[r]).len() == n,
            forall|r: int, j: int|
                0 <= r < i && 0 <= j < n ==> (#[trigger] data@[r]@[j]) == if r == j {
                    diag@[r]
                } else {
                    zero
                },
        decreases n - i,
    {
        let mut row: Vec<T> = Vec::new();
        let mut j: usize = 0;
        while j < n
            invariant
                j <= n,
                i < n,
                n == diag.len(),
                row.len() == j,
                forall|k: int| 0 <= k < j ==> (#[trigger] row@[k]) == if i == k {
                    diag@[i as int]
                } else {
                    zero
                },
            decreases n - j,
        {
            if i == j {
                row.push(diag[i]);
            } else {
                row.push(zero);
            }
            j = j + 1;
        }
        data.push(row);
        i = i + 1;
    }
    data
}

} // verus!
