//! Dense binary matrix engine over GF(2): row-echelon reduction with an
//! operation log, rank, kernel extraction, and the incremental growth
//! primitives used by the annihilator search.

use vstd::prelude::*;

verus! {

/// A GF(2) element is stored as a byte holding 0 or 1.
pub open spec fn is_bit(x: u8) -> bool {
    x == 0 || x == 1
}

/// The smaller of two lengths.
pub open spec fn min2(a: int, b: int) -> int {
    if a <= b {
        a
    } else {
        b
    }
}

/// A row of width `w` whose entries are all GF(2) elements.
pub open spec fn row_wf(r: Seq<u8>, w: int) -> bool {
    r.len() == w && forall|k: int| 0 <= k < r.len() ==> is_bit(#[trigger] r[k])
}

/// Column count of a matrix: the width of its first row (0 when empty).
pub open spec fn spec_ncols(m: Seq<Seq<u8>>) -> int {
    if m.len() == 0 {
        0
    } else {
        m[0].len() as int
    }
}

/// A rectangular matrix of GF(2) elements.
pub open spec fn mat_wf(m: Seq<Seq<u8>>) -> bool {
    forall|i: int| 0 <= i < m.len() ==> row_wf(#[trigger] m[i], spec_ncols(m))
}

/// Index of the first nonzero entry of a row, or the row's length if the
/// row is all zero.
pub open spec fn leading(r: Seq<u8>) -> int
    decreases r.len(),
{
    if r.len() == 0 {
        0
    } else if r[0] != 0 {
        0
    } else {
        1 + leading(r.drop_first())
    }
}

pub proof fn lemma_leading_props(r: Seq<u8>)
    ensures
        0 <= leading(r) <= r.len(),
        forall|k: int| 0 <= k < leading(r) ==> r[k] == 0,
        leading(r) < r.len() ==> r[leading(r)] != 0,
    decreases r.len(),
{
    if r.len() == 0 {
    } else if r[0] != 0 {
    } else {
        lemma_leading_props(r.drop_first());
        assert forall|k: int| 0 <= k < leading(r) implies r[k] == 0 by {
            if k > 0 {
                assert(r.drop_first()[k - 1] == r[k]);
            }
        }
        if leading(r) < r.len() {
            assert(r.drop_first()[leading(r) - 1] == r[leading(r)]);
        }
    }
}

pub proof fn lemma_leading_from_props(r: Seq<u8>, p: int)
    requires
        0 <= p <= r.len(),
        forall|k: int| 0 <= k < p ==> r[k] == 0,
        p < r.len() ==> r[p] != 0,
    ensures
        leading(r) == p,
    decreases r.len(),
{
    if r.len() == 0 {
    } else if p == 0 {
        if r.len() > 0 && r[0] == 0 {
            lemma_leading_props(r);
        }
    } else {
        assert(r[0] == 0);
        assert forall|k: int| 0 <= k < p - 1 implies r.drop_first()[k] == 0 by {
            assert(r.drop_first()[k] == r[k + 1]);
        }
        assert(p - 1 < r.drop_first().len() ==> r.drop_first()[p - 1] != 0);
        lemma_leading_from_props(r.drop_first(), p - 1);
    }
}

/// Reduced row-echelon form: leading entries move strictly right as rows go
/// down (zero rows at the bottom), and a column holding some row's leading
/// entry is zero in every other row.
pub open spec fn rref(m: Seq<Seq<u8>>, cols: int) -> bool {
    &&& forall|i: int, j: int|
        0 <= i < j < m.len() && leading(#[trigger] m[j]) < cols ==> leading(#[trigger] m[i])
            < leading(m[j])
    &&& forall|i: int, j: int|
        0 <= i < m.len() && 0 <= j < m.len() && i != j && leading(#[trigger] m[j]) < cols
            ==> (#[trigger] m[i])[leading(m[j])] == 0
}

/// Entrywise XOR of two rows, as mod-2 addition on bytes.
pub open spec fn row_xor(a: Seq<u8>, b: Seq<u8>) -> Seq<u8> {
    Seq::new(a.len(), |k: int| ((a[k] + b[k]) % 2) as u8)
}

/// The operation log is valid for a matrix of `rows` rows: every recorded
/// (target, source) pair names two distinct rows.
pub open spec fn ops_wf(ops: Seq<(usize, usize)>, rows: int) -> bool {
    forall|k: int|
        0 <= k < ops.len() ==> (#[trigger] ops[k]).0 < rows && ops[k].1 < rows && ops[k].0
            != ops[k].1
}

/// One elementary operation on a matrix: XOR row `s` into row `t`.
pub open spec fn apply_op_mat(m: Seq<Seq<u8>>, t: int, s: int) -> Seq<Seq<u8>> {
    m.update(t, row_xor(m[t], m[s]))
}

/// Replay a whole operation log on a matrix, in recorded order.
pub open spec fn apply_ops_mat(ops: Seq<(usize, usize)>, m: Seq<Seq<u8>>) -> Seq<Seq<u8>>
    decreases ops.len(),
{
    if ops.len() == 0 {
        m
    } else {
        let p = ops.last();
        apply_op_mat(apply_ops_mat(ops.drop_last(), m), p.0 as int, p.1 as int)
    }
}

/// One elementary operation on a column vector: XOR entry `s` into entry `t`.
pub open spec fn apply_op_vec(v: Seq<u8>, t: int, s: int) -> Seq<u8> {
    v.update(t, ((v[t] + v[s]) % 2) as u8)
}

/// Replay a whole operation log on a column vector, in recorded order.
pub open spec fn apply_ops_vec(ops: Seq<(usize, usize)>, v: Seq<u8>) -> Seq<u8>
    decreases ops.len(),
{
    if ops.len() == 0 {
        v
    } else {
        let p = ops.last();
        apply_op_vec(apply_ops_vec(ops.drop_last(), v), p.0 as int, p.1 as int)
    }
}

pub proof fn lemma_apply_ops_mat_push(ops: Seq<(usize, usize)>, m: Seq<Seq<u8>>, op: (usize, usize))
    ensures
        apply_ops_mat(ops.push(op), m) == apply_op_mat(
            apply_ops_mat(ops, m),
            op.0 as int,
            op.1 as int,
        ),
{
    assert(ops.push(op).drop_last() =~= ops);
    assert(ops.push(op).last() == op);
}

pub proof fn lemma_apply_ops_vec_push(ops: Seq<(usize, usize)>, v: Seq<u8>, op: (usize, usize))
    ensures
        apply_ops_vec(ops.push(op), v) == apply_op_vec(
            apply_ops_vec(ops, v),
            op.0 as int,
            op.1 as int,
        ),
{
    assert(ops.push(op).drop_last() =~= ops);
    assert(ops.push(op).last() == op);
}

/// The printed digit of one GF(2) entry.
pub open spec fn digit_char(x: u8) -> char {
    if x == 1 {
        '1'
    } else {
        '0'
    }
}

/// The first `k` entries of a row rendered as `1, 0, 1`.
pub open spec fn repr_of_row(r: Seq<u8>, k: int) -> Seq<char>
    decreases k,
{
    if k <= 0 {
        Seq::empty()
    } else if k == 1 {
        seq![digit_char(r[0])]
    } else {
        repr_of_row(r, k - 1) + seq![',', ' '] + seq![digit_char(r[k - 1])]
    }
}

/// The first `k` rows rendered as `[1, 0], [0, 1]`.
pub open spec fn repr_of_rows(m: Seq<Seq<u8>>, k: int) -> Seq<char>
    decreases k,
{
    if k <= 0 {
        Seq::empty()
    } else if k == 1 {
        seq!['['] + repr_of_row(m[0], m[0].len() as int) + seq![']']
    } else {
        repr_of_rows(m, k - 1) + seq![',', ' '] + seq!['['] + repr_of_row(
            m[k - 1],
            m[k - 1].len() as int,
        ) + seq![']']
    }
}

/// A whole matrix rendered as `[[1, 0], [0, 1]]`.
pub open spec fn repr_of_mat(m: Seq<Seq<u8>>) -> Seq<char> {
    seq!['['] + repr_of_rows(m, m.len() as int) + seq![']']
}

/// Dense binary matrix over GF(2), stored as rows of 0/1 bytes.
#[derive(Clone)]
pub struct VanderMonde {
    pub elements: Vec<Vec<u8>>,
}

impl View for VanderMonde {
    type V = Seq<Seq<u8>>;

    open spec fn view(&self) -> Seq<Seq<u8>> {
        self.elements@.map_values(|r: Vec<u8>| r@)
    }
}

impl VanderMonde {
    /// The matrix is rectangular and every entry is a GF(2) element.
    pub open spec fn wf(self) -> bool {
        mat_wf(self@)
    }

    pub open spec fn spec_nrows(self) -> int {
        self@.len() as int
    }

    pub open spec fn spec_ncols(self) -> int {
        spec_ncols(self@)
    }

    pub fn new(elements: Vec<Vec<u8>>) -> (r: Self)
        ensures
            r@ == elements@.map_values(|v: Vec<u8>| v@),
    {
        VanderMonde { elements }
    }

    /// Rows rendered as digit lists, bracketed and joined by commas:
    /// `[[1, 0], [0, 1]]`.
    #[verifier::loop_isolation(false)]
    pub fn __repr__(&self) -> (s: String)
        requires
            self.wf(),
        ensures
            s@ == repr_of_mat(self@),
    {
        proof {
            reveal_strlit("[");
            reveal_strlit("]");
            reveal_strlit(", ");
            reveal_strlit("0");
            reveal_strlit("1");
        }
        let mut s = String::new();
        s.append("[");
        let rows = self.nrows();
        let mut i: usize = 0;
        while i < rows
            invariant
                i <= rows,
                s@ == seq!['['] + repr_of_rows(self@, i as int),
            decreases rows - i,
        {
            let ghost before_row = s@;
            if i > 0 {
                s.append(", ");
            }
            s.append("[");
            let cols = self.ncols();
            let mut j: usize = 0;
            while j < cols
                invariant
                    j <= cols,
                    i < rows,
                    s@ == before_row + (if i > 0 {
                        seq![',', ' ']
                    } else {
                        Seq::<char>::empty()
                    }) + seq!['['] + repr_of_row(self@[i as int], j as int),
                decreases cols - j,
            {
                if j > 0 {
                    s.append(", ");
                }
                if self.entry(i, j) == 1 {
                    s.append("1");
                } else {
                    s.append("0");
                }
                proof {
                    assert(digit_char(self@[i as int][j as int]) == (if self@[i as int][j as int]
                        == 1 {
                        '1'
                    } else {
                        '0'
                    }));
                    assert(s@ =~= before_row + (if i > 0 {
                        seq![',', ' ']
                    } else {
                        Seq::<char>::empty()
                    }) + seq!['['] + repr_of_row(self@[i as int], j + 1));
                }
                j = j + 1;
            }
            s.append("]");
            proof {
                assert(s@ =~= seq!['['] + repr_of_rows(self@, i + 1));
            }
            i = i + 1;
        }
        s.append("]");
        proof {
            assert(s@ =~= repr_of_mat(self@));
        }
        s
    }

    fn nrows(&self) -> (r: usize)
        ensures
            r == self.spec_nrows(),
    {
        self.elements.len()
    }

    fn ncols(&self) -> (r: usize)
        ensures
            r == self.spec_ncols(),
    {
        if !self.elements.is_empty() {
            self.elements[0].len()
        } else {
            0
        }
    }

    fn swap_rows(&mut self, row1: usize, row2: usize)
        requires
            row1 < old(self)@.len(),
            row2 < old(self)@.len(),
        ensures
            final(self)@ == old(self)@.update(row1 as int, old(self)@[row2 as int]).update(
                row2 as int,
                old(self)@[row1 as int],
            ),
    {
        let a = copy_row(&self.elements[row1]);
        let b = copy_row(&self.elements[row2]);
        self.elements[row1] = b;
        self.elements[row2] = a;
        proof {
            assert(final(self)@ =~= old(self)@.update(row1 as int, old(self)@[row2 as int]).update(
                row2 as int,
                old(self)@[row1 as int],
            ));
        }
    }

    fn append_row(&mut self, v: Vec<u8>)
        ensures
            final(self)@ == old(self)@.push(v@),
    {
        self.elements.push(v);
        proof {
            assert(final(self)@ =~= old(self)@.push(v@));
        }
    }

    #[verifier::loop_isolation(false)]
    fn append_column(&mut self, v: Vec<u8>)
        requires
            v@.len() == old(self)@.len(),
        ensures
            final(self)@.len() == old(self)@.len(),
            forall|i: int|
                0 <= i < old(self)@.len() ==> #[trigger] final(self)@[i] == old(self)@[i].push(
                    v@[i],
                ),
    {
        let rows = self.nrows();
        let mut i: usize = 0;
        while i < rows
            invariant
                i <= rows,
                rows == old(self)@.len(),
                v@.len() == rows,
                self@.len() == rows,
                forall|k: int| 0 <= k < i ==> #[trigger] self@[k] == old(self)@[k].push(v@[k]),
                forall|k: int| i <= k < rows ==> #[trigger] self@[k] == old(self)@[k],
            decreases rows - i,
        {
            let mut row = copy_row(&self.elements[i]);
            proof {
                assert(self@[i as int] == self.elements@[i as int]@);
                assert(row@ == old(self)@[i as int]);
            }
            row.push(v[i]);
            let ghost pre = self@;
            self.elements[i] = row;
            proof {
                assert(self@[i as int] == row@);
                assert(forall|k: int| 0 <= k < rows && k != i ==> #[trigger] self@[k] == pre[k]);
            }
            i = i + 1;
        }
    }

    /// First index holding a 1 in a row of GF(2) elements, or `None` for an
    /// all-zero row.
    #[verifier::loop_isolation(false)]
    pub fn get_pivot(row: &Vec<u8>) -> (r: Option<usize>)
        requires
            forall|k: int| 0 <= k < row@.len() ==> is_bit(#[trigger] row@[k]),
        ensures
            match r {
                Some(k) => k == leading(row@) && leading(row@) < row@.len(),
                None => leading(row@) == row@.len(),
            },
    {
        proof {
            lemma_leading_props(row@);
        }
        let n = row.len();
        let mut k: usize = 0;
        while k < n
            invariant
                k <= n,
                n == row@.len(),
                forall|j: int| 0 <= j < k ==> row@[j] == 0,
            decreases n - k,
        {
            if row[k] == 1 {
                proof {
                    lemma_leading_from_props(row@, k as int);
                }
                return Some(k);
            }
            k = k + 1;
        }
        proof {
            lemma_leading_from_props(row@, n as int);
        }
        None
    }
}

impl VanderMonde {
    /// Read one matrix entry.
    fn entry(&self, i: usize, j: usize) -> (r: u8)
        requires
            i < self@.len(),
            j < self@[i as int].len(),
        ensures
            r == self@[i as int][j as int],
    {
        proof {
            assert(self@[i as int] == self.elements@[i as int]@);
        }
        self.elements[i][j]
    }

    /// XOR row `s` into row `t`, the single primitive the reduction uses.
    #[verifier::loop_isolation(false)]
    fn xor_row_into(&mut self, t: usize, s: usize)
        requires
            old(self).wf(),
            t < old(self)@.len(),
            s < old(self)@.len(),
            t != s,
        ensures
            final(self)@ == apply_op_mat(old(self)@, t as int, s as int),
            final(self).wf(),
            final(self)@.len() == old(self)@.len(),
            final(self).spec_ncols() == old(self).spec_ncols(),
    {
        let cols = self.ncols();
        let mut new_row: Vec<u8> = Vec::new();
        let mut j: usize = 0;
        while j < cols
            invariant
                j <= cols,
                new_row@ == row_xor(old(self)@[t as int], old(self)@[s as int]).subrange(
                    0,
                    j as int,
                ),
            decreases cols - j,
        {
            let x = self.elements[t][j];
            let y = self.elements[s][j];
            new_row.push((x + y) % 2);
            proof {
                assert(new_row@ =~= row_xor(old(self)@[t as int], old(self)@[s as int]).subrange(
                    0,
                    j + 1,
                ));
            }
            j = j + 1;
        }
        proof {
            assert(new_row@ =~= row_xor(old(self)@[t as int], old(self)@[s as int]));
        }
        self.elements[t] = new_row;
        proof {
            assert(final(self)@ =~= apply_op_mat(old(self)@, t as int, s as int));
            assert(final(self).spec_ncols() == old(self).spec_ncols());
            assert forall|i: int| 0 <= i < final(self)@.len() implies row_wf(
                #[trigger] final(self)@[i],
                final(self).spec_ncols(),
            ) by {
                assert(row_wf(old(self)@[i], old(self).spec_ncols()));
            }
        }
    }

    /// Gaussian elimination over GF(2) to reduced row-echelon form.
    ///
    /// Returns the reduced matrix together with the log of elementary row
    /// operations "XOR source into target" that turns `self` into it; a row
    /// exchange is recorded as the three-XOR swap so that the log stays in a
    /// single operation vocabulary.  Reducing an already-reduced matrix
    /// leaves it unchanged and logs nothing.
    #[verifier::loop_isolation(false)]
    pub fn row_echelon_form(&self) -> (res: (VanderMonde, Vec<(usize, usize)>))
        requires
            self.wf(),
        ensures
            res.0.wf(),
            res.0@.len() == self@.len(),
            res.0.spec_ncols() == self.spec_ncols(),
            ops_wf(res.1@, self@.len() as int),
            res.0@ == apply_ops_mat(res.1@, self@),
            rref(res.0@, self.spec_ncols()),
            rref(self@, self.spec_ncols()) ==> res.1@.len() == 0 && res.0@ == self@,
    {
        let mut m = VanderMonde { elements: copy_matrix(&self.elements) };
        proof {
            assert(m@ =~= self@);
        }
        let rows = m.nrows();
        let cols = m.ncols();
        let mut operations: Vec<(usize, usize)> = Vec::new();
        let mut lead: usize = 0;
        let mut r: usize = 0;
        while r < rows && lead < cols
            invariant
                r <= rows,
                lead <= cols,
                m.wf(),
                m@.len() == rows,
                m.spec_ncols() == cols,
                ops_wf(operations@, rows as int),
                m@ == apply_ops_mat(operations@, self@),
                forall|i: int| 0 <= i < r ==> leading(#[trigger] m@[i]) < lead,
                forall|i: int, j: int|
                    #![trigger m@[i], m@[j]]
                    0 <= i < j < r ==> leading(m@[i]) < leading(m@[j]),
                forall|i: int, c: int|
                    #![trigger m@[i][c]]
                    r <= i < rows && 0 <= c < lead ==> m@[i][c] == 0,
                forall|i: int, ii: int|
                    #![trigger m@[ii], m@[i]]
                    0 <= i < r && 0 <= ii < rows && ii != i ==> m@[ii][leading(m@[i])] == 0,
                rref(self@, cols as int) ==> operations@.len() == 0 && m@ == self@,
            decreases cols - lead,
        {
            // look for a pivot row at or below r in the current column
            let mut i = r;
            loop
                invariant
                    r <= i <= rows,
                    forall|k: int| r <= k < i ==> m@[k][lead as int] == 0,
                decreases rows - i,
            {
                if i == rows {
                    break ;
                }
                if m.entry(i, lead) != 0 {
                    break ;
                }
                i = i + 1;
            }
            if i == rows {
                // the column is zero at and below r: move to the next column
                lead = lead + 1;
            } else {
                proof {
                    assert(is_bit(m@[i as int][lead as int]));
                    assert(m@[i as int][lead as int] == 1);
                }
                if i != r {
                    proof {
                        // an already-reduced matrix never needs an exchange
                        if rref(self@, cols as int) {
                            lemma_leading_from_props(m@[i as int], lead as int);
                            lemma_leading_props(m@[r as int]);
                            assert(leading(m@[i as int]) == lead);
                            assert(forall|c: int| 0 <= c <= lead ==> m@[r as int][c] == 0);
                            assert(leading(m@[r as int]) > lead);
                            assert(false);
                        }
                    }
                    let ghost before = m@;
                    let ghost a = m@[r as int];
                    let ghost b = m@[i as int];
                    let ghost ops0 = operations@;
                    m.swap_rows(r, i);
                    operations.push((r, i));
                    operations.push((i, r));
                    operations.push((r, i));
                    proof {
                        lemma_apply_ops_mat_push(ops0, self@, (r, i));
                        lemma_apply_ops_mat_push(ops0.push((r, i)), self@, (i, r));
                        lemma_apply_ops_mat_push(ops0.push((r, i)).push((i, r)), self@, (r, i));
                        assert(ops0.push((r, i)).push((i, r)).push((r, i)) =~= operations@);
                        assert(apply_ops_mat(ops0, self@) == before);
                        let m1 = apply_op_mat(before, r as int, i as int);
                        let m2 = apply_op_mat(m1, i as int, r as int);
                        let m3 = apply_op_mat(m2, r as int, i as int);
                        assert(row_wf(a, cols as int));
                        assert(row_wf(b, cols as int));
                        assert(m1 == before.update(r as int, row_xor(a, b)));
                        assert(m2 == m1.update(i as int, row_xor(b, row_xor(a, b))));
                        assert(row_xor(b, row_xor(a, b)) =~= a);
                        assert(m3 == m2.update(r as int, row_xor(row_xor(a, b), a)));
                        assert(row_xor(row_xor(a, b), a) =~= b);
                        assert(m@ =~= before.update(r as int, b).update(i as int, a));
                        assert(m3 =~~= m@);
                        assert(m@ == apply_ops_mat(operations@, self@));
                        // structural invariants survive the exchange of two
                        // rows at or below r
                        assert(forall|k: int|
                            0 <= k < r ==> #[trigger] m@[k] == before[k]);
                    }
                }
                proof {
                    assert(m@[r as int][lead as int] == 1);
                    assert forall|c: int| 0 <= c < lead implies m@[r as int][c] == 0 by {}
                    lemma_leading_from_props(m@[r as int], lead as int);
                }
                let ghost pivot = m@[r as int];
                // clear every other 1 in the pivot column
                let mut ii: usize = 0;
                while ii < rows
                    invariant
                        ii <= rows,
                        r < rows,
                        lead < cols,
                        m.wf(),
                        m@.len() == rows,
                        m.spec_ncols() == cols,
                        ops_wf(operations@, rows as int),
                        m@ == apply_ops_mat(operations@, self@),
                        m@[r as int] == pivot,
                        leading(pivot) == lead,
                        row_wf(pivot, cols as int),
                        forall|k: int|
                            0 <= k < ii && k != r ==> #[trigger] m@[k][lead as int] == 0,
                        forall|i2: int| 0 <= i2 < r ==> leading(#[trigger] m@[i2]) < lead,
                        forall|i2: int, j2: int|
                            #![trigger m@[i2], m@[j2]]
                            0 <= i2 < j2 < r ==> leading(m@[i2]) < leading(m@[j2]),
                        forall|i2: int, c: int|
                            #![trigger m@[i2][c]]
                            r <= i2 < rows && 0 <= c < lead ==> m@[i2][c] == 0,
                        forall|i2: int, ii2: int|
                            #![trigger m@[ii2], m@[i2]]
                            0 <= i2 < r && 0 <= ii2 < rows && ii2 != i2 ==> m@[ii2][leading(
                                m@[i2],
                            )] == 0,
                        rref(self@, cols as int) ==> operations@.len() == 0 && m@ == self@,
                    decreases rows - ii,
                {
                    if ii != r {
                        let e = m.entry(ii, lead);
                        if e == 1 {
                            proof {
                                // an already-reduced matrix has nothing to clear
                                if rref(self@, cols as int) {
                                    assert(m@[ii as int][leading(m@[r as int])] == 0);
                                    assert(false);
                                }
                            }
                            let ghost pre = m@;
                            let ghost preops = operations@;
                            m.xor_row_into(ii, r);
                            operations.push((ii, r));
                            proof {
                                lemma_apply_ops_mat_push(preops, self@, (ii, r));
                                assert(m@ == apply_ops_mat(operations@, self@));
                                let nr = row_xor(pre[ii as int], pivot);
                                assert(m@ == pre.update(ii as int, nr));
                                lemma_leading_props(pivot);
                                assert forall|c: int| 0 <= c < lead implies pivot[c] == 0 by {}
                                assert(nr.len() == cols);
                                assert forall|c: int| 0 <= c < lead && pre[ii as int][c] == 0
                                    implies nr[c] == 0 by {}
                                assert(nr[lead as int] == 0);
                                if ii < r {
                                    // a pivot row above keeps its leading entry
                                    let ld = leading(pre[ii as int]);
                                    lemma_leading_props(pre[ii as int]);
                                    assert forall|k: int| 0 <= k < ld implies nr[k] == 0 by {
                                        assert(pre[ii as int][k] == 0);
                                        assert(pivot[k] == 0);
                                    }
                                    assert(pre[r as int][ld] == 0);
                                    assert(nr[ld] == pre[ii as int][ld]);
                                    assert(nr[ld] != 0);
                                    lemma_leading_from_props(nr, ld);
                                    assert(leading(m@[ii as int]) == ld);
                                }
                                // other rows keep the zeros in settled pivot columns
                                assert forall|i2: int|
                                    0 <= i2 < r && i2 != ii implies nr[leading(m@[i2])] == 0 by {
                                    assert(m@[i2] == pre[i2]);
                                    lemma_leading_props(pre[i2]);
                                    assert(leading(pre[i2]) < lead);
                                    assert(pre[ii as int][leading(pre[i2])] == 0);
                                    assert(pre[r as int][leading(pre[i2])] == 0);
                                    assert(nr[leading(pre[i2])] == ((pre[ii as int][leading(
                                        pre[i2],
                                    )] + pivot[leading(pre[i2])]) % 2) as u8);
                                }
                            }
                        }
                    }
                    ii = ii + 1;
                }
                lead = lead + 1;
                r = r + 1;
            }
        }
        proof {
            // on exit every row at or below r is all zero up to `cols`
            assert forall|i: int, j: int|
                #![trigger m@[i], m@[j]]
                0 <= i < j < m@.len() && leading(m@[j]) < cols implies leading(m@[i]) < leading(
                m@[j],
            ) by {
                if j >= r {
                    lemma_leading_from_props(m@[j], cols as int);
                }
                if i >= r {
                    lemma_leading_from_props(m@[i], cols as int);
                }
            }
            assert forall|i: int, j: int|
                #![trigger m@[i], m@[j]]
                0 <= i < m@.len() && 0 <= j < m@.len() && i != j && leading(m@[j]) < cols implies
                    m@[i][leading(m@[j])] == 0 by {
                if j >= r {
                    lemma_leading_from_props(m@[j], cols as int);
                }
            }
            assert(rref(m@, cols as int));
        }
        (m, operations)
    }

    /// Number of distinct pivot columns, scanning each row for its first 1.
    /// Computed from the matrix as it currently stands.
    #[verifier::loop_isolation(false)]
    pub fn rank(&self) -> (r: usize)
        requires
            self.wf(),
        ensures
            r == rank_spec(self@, self.spec_ncols()),
    {
        let rows = self.nrows();
        let ghost cols = self.spec_ncols();
        let mut count: usize = 0;
        let mut pivot_columns: Vec<usize> = Vec::new();
        let mut i: usize = 0;
        while i < rows
            invariant
                i <= rows,
                count == rank_upto(self@, cols, i as int),
                count <= i,
                forall|c: usize|
                    #[trigger] pivot_columns@.contains(c) <==> exists|j: int|
                        0 <= j < i && leading(#[trigger] self@[j]) == c && leading(self@[j])
                            < cols,
            decreases rows - i,
        {
            proof {
                assert(self@[i as int] == self.elements@[i as int]@);
                assert(row_wf(self@[i as int], cols));
            }
            let p = VanderMonde::get_pivot(&self.elements[i]);
            if let Some(col) = p {
                proof {
                    lemma_leading_props(self@[i as int]);
                    assert(leading(self@[i as int]) == col as int);
                    assert(leading(self@[i as int]) < cols);
                }
                if !vec_contains(&pivot_columns, col) {
                    let ghost oldpc = pivot_columns@;
                    pivot_columns.push(col);
                    count = count + 1;
                    proof {
                        assert(forall|j: int|
                            0 <= j < i ==> leading(#[trigger] self@[j]) != leading(
                                self@[i as int],
                            ));
                        assert forall|c: usize| #[trigger]
                            pivot_columns@.contains(c) implies (exists|j: int|
                            0 <= j < i + 1 && leading(#[trigger] self@[j]) == c && leading(
                                self@[j],
                            ) < cols) by {
                            if c == col {
                                assert(leading(self@[i as int]) == c && leading(self@[i as int])
                                    < cols);
                            } else {
                                let idx = choose|idx: int|
                                    0 <= idx < pivot_columns@.len() && pivot_columns@[idx] == c;
                                assert(oldpc[idx] == c);
                                assert(oldpc.contains(c));
                            }
                        }
                        assert forall|c: usize|
                            (exists|j: int|
                                0 <= j < i + 1 && leading(#[trigger] self@[j]) == c && leading(
                                    self@[j],
                                ) < cols) implies #[trigger] pivot_columns@.contains(c) by {
                            let j = choose|j: int|
                                0 <= j < i + 1 && leading(#[trigger] self@[j]) == c && leading(
                                    self@[j],
                                ) < cols;
                            if j < i {
                                assert(oldpc.contains(c));
                                let idx = choose|idx: int|
                                    0 <= idx < oldpc.len() && oldpc[idx] == c;
                                assert(pivot_columns@[idx] == c);
                            } else {
                                assert(pivot_columns@.last() == c);
                            }
                        }
                    }
                } else {
                    proof {
                        let j = choose|j: int|
                            0 <= j < i && leading(#[trigger] self@[j]) == col && leading(self@[j])
                                < cols;
                        assert(leading(self@[j]) == leading(self@[i as int]));
                    }
                }
            }
            i = i + 1;
        }
        count
    }
    /// One incremental growth step at search index `idx`.
    ///
    /// The new row evaluates every monomial seen so far at the freshly
    /// introduced point (the last of `support_slice`); the new column
    /// evaluates the freshly introduced monomial (the last of `monom_slice`)
    /// at every earlier point, then replays the recorded operation log so
    /// that the column matches the already-reduced rows.  The column is
    /// appended before the row so that the row's final entry meets the
    /// still-unreduced column state.
    #[verifier::loop_isolation(false)]
    pub fn compute_next(
        &self,
        monom_slice: Vec<String>,
        support_slice: Vec<String>,
        idx: usize,
        operations: Vec<(usize, usize)>,
    ) -> (res: Self)
        requires
            self.wf(),
            self@.len() == idx,
            self.spec_ncols() == idx,
            monom_slice@.len() == idx + 1,
            support_slice@.len() == idx + 1,
            forall|i: int| 0 <= i < monom_slice@.len() ==> binstr((#[trigger] monom_slice@[i])@),
            forall|i: int|
                0 <= i < support_slice@.len() ==> binstr((#[trigger] support_slice@[i])@),
            forall|k: int|
                0 <= k < operations@.len() ==> (#[trigger] operations@[k]).0 < idx
                    && operations@[k].1 < idx,
        ensures
            res.wf(),
            res@.len() == idx + 1,
            res.spec_ncols() == idx + 1,
            res@ == push_col(
                self@,
                apply_ops_vec(
                    operations@,
                    Seq::new(
                        idx as nat,
                        |k: int| eval01(support_slice@[k]@, monom_slice@[idx as int]@),
                    ),
                ),
            ).push(
                Seq::new(
                    (idx + 1) as nat,
                    |k: int| eval01(support_slice@[idx as int]@, monom_slice@[k]@),
                ),
            ),
    {
        let mut m_copy = VanderMonde { elements: copy_matrix(&self.elements) };
        proof {
            assert(m_copy@ =~= self@);
        }
        let last_support: &String = &support_slice[idx];
        let last_monom: &String = &monom_slice[idx];
        let mut row: Vec<u8> = Vec::new();
        let mut i: usize = 0;
        while i < idx + 1
            invariant
                i <= idx + 1,
                row@.len() == i,
                forall|k: int|
                    0 <= k < i ==> #[trigger] row@[k] == eval01(
                        support_slice@[idx as int]@,
                        monom_slice@[k]@,
                    ),
            decreases idx + 1 - i,
        {
            row.push(str_ops(last_support.as_str(), monom_slice[i].as_str()));
            i = i + 1;
        }
        let mut column: Vec<u8> = Vec::new();
        let mut k: usize = 0;
        while k < idx
            invariant
                k <= idx,
                column@.len() == k,
                forall|j: int|
                    0 <= j < k ==> #[trigger] column@[j] == eval01(
                        support_slice@[j]@,
                        monom_slice@[idx as int]@,
                    ),
            decreases idx - k,
        {
            column.push(str_ops(support_slice[k].as_str(), last_monom.as_str()));
            k = k + 1;
        }
        proof {
            assert(column@ =~= Seq::new(
                idx as nat,
                |k: int| eval01(support_slice@[k]@, monom_slice@[idx as int]@),
            ));
            assert(row@ =~= Seq::new(
                (idx + 1) as nat,
                |k: int| eval01(support_slice@[idx as int]@, monom_slice@[k]@),
            ));
        }
        let n_vect = apply_operations(&operations, column);
        m_copy.append_column(n_vect);
        m_copy.append_row(row);
        proof {
            assert(m_copy@ =~= push_col(
                self@,
                apply_ops_vec(
                    operations@,
                    Seq::new(
                        idx as nat,
                        |k: int| eval01(support_slice@[k]@, monom_slice@[idx as int]@),
                    ),
                ),
            ).push(
                Seq::new(
                    (idx + 1) as nat,
                    |k: int| eval01(support_slice@[idx as int]@, monom_slice@[k]@),
                ),
            ));
            assert forall|i2: int| 0 <= i2 < m_copy@.len() implies row_wf(
                #[trigger] m_copy@[i2],
                idx + 1,
            ) by {
                if i2 < idx {
                    assert(row_wf(self@[i2], idx as int));
                }
            }
        }
        m_copy
    }

    /// Append one evaluated row per point: row `j` evaluates every monomial
    /// of `monom_slice` at point `j` of `support_slice`.
    #[verifier::loop_isolation(false)]
    pub fn fill_rows(&self, support_slice: Vec<String>, monom_slice: Vec<String>) -> (res: Self)
        requires
            self.wf(),
            self@.len() == 0 || self.spec_ncols() == monom_slice@.len(),
            forall|i: int| 0 <= i < monom_slice@.len() ==> binstr((#[trigger] monom_slice@[i])@),
            forall|i: int|
                0 <= i < support_slice@.len() ==> binstr((#[trigger] support_slice@[i])@),
        ensures
            res@ == self@ + Seq::new(
                support_slice@.len(),
                |j: int|
                    Seq::new(
                        monom_slice@.len(),
                        |k: int| eval01(support_slice@[j]@, monom_slice@[k]@),
                    ),
            ),
    {
        let mut m_copy = VanderMonde { elements: copy_matrix(&self.elements) };
        proof {
            assert(m_copy@ =~= self@);
        }
        let slen = support_slice.len();
        let mlen = monom_slice.len();
        let mut j: usize = 0;
        while j < slen
            invariant
                j <= slen,
                slen == support_slice@.len(),
                mlen == monom_slice@.len(),
                m_copy@ == self@ + Seq::new(
                    j as nat,
                    |j2: int|
                        Seq::new(
                            monom_slice@.len(),
                            |k: int| eval01(support_slice@[j2]@, monom_slice@[k]@),
                        ),
                ),
            decreases slen - j,
        {
            let mut row: Vec<u8> = Vec::new();
            let mut i: usize = 0;
            while i < mlen
                invariant
                    i <= mlen,
                    j < slen,
                    slen == support_slice@.len(),
                    mlen == monom_slice@.len(),
                    row@.len() == i,
                    forall|k: int|
                        0 <= k < i ==> #[trigger] row@[k] == eval01(
                            support_slice@[j as int]@,
                            monom_slice@[k]@,
                        ),
                decreases mlen - i,
            {
                row.push(str_ops(support_slice[j].as_str(), monom_slice[i].as_str()));
                i = i + 1;
            }
            proof {
                assert(row@ =~= Seq::new(
                    monom_slice@.len(),
                    |k: int| eval01(support_slice@[j as int]@, monom_slice@[k]@),
                ));
            }
            m_copy.append_row(row);
            proof {
                assert(m_copy@ =~= self@ + Seq::new(
                    (j + 1) as nat,
                    |j2: int|
                        Seq::new(
                            monom_slice@.len(),
                            |k: int| eval01(support_slice@[j2]@, monom_slice@[k]@),
                        ),
                ));
            }
            j = j + 1;
        }
        m_copy
    }

    /// Null-space basis of a matrix in reduced row-echelon form: one vector
    /// per free column, each satisfying `M · v = 0 (mod 2)`.
    #[verifier::loop_isolation(false)]
    pub fn kernel(&self) -> (result: Vec<Vec<u8>>)
        requires
            self.wf(),
            rref(self@, self.spec_ncols()),
        ensures
            result@.len() == self.spec_ncols() - rank_spec(self@, self.spec_ncols()),
            forall|t: int|
                0 <= t < result@.len() ==> row_wf((#[trigger] result@[t])@, self.spec_ncols()),
            forall|t: int| 0 <= t < result@.len() ==> has_a_one((#[trigger] result@[t])@),
            forall|t: int, i: int|
                #![trigger result@[t], self@[i]]
                0 <= t < result@.len() && 0 <= i < self@.len() ==> dot(self@[i], result@[t]@) % 2
                    == 0,
    {
        let rows = self.nrows();
        let cols = self.ncols();
        let mut pivots: Vec<(usize, usize)> = Vec::new();
        let mut free_columns: Vec<usize> = Vec::new();
        let mut row_index: usize = 0;
        let mut j: usize = 0;
        proof {
            assert forall|t: int| 0 <= t < rows implies leading(#[trigger] self@[t]) >= 0 by {
                lemma_leading_props(self@[t]);
            }
        }
        while j < cols
            invariant
                j <= cols,
                row_index <= rows,
                row_index <= j,
                pivots@.len() == row_index,
                forall|t: int|
                    0 <= t < row_index ==> (#[trigger] pivots@[t]).0 == leading(self@[t])
                        && pivots@[t].1 == t,
                forall|t: int| 0 <= t < row_index ==> leading(#[trigger] self@[t]) < j,
                forall|t: int| row_index <= t < rows ==> leading(#[trigger] self@[t]) >= j,
                free_columns@.len() + row_index == j,
                forall|q: int| 0 <= q < free_columns@.len() ==> #[trigger] free_columns@[q] < j,
                forall|q: int, t: int|
                    #![trigger free_columns@[q], self@[t]]
                    0 <= q < free_columns@.len() && 0 <= t < rows ==> leading(self@[t])
                        != free_columns@[q],
            decreases cols - j,
        {
            let mut is_piv = false;
            if row_index < rows {
                if self.entry(row_index, j) == 1 {
                    is_piv = true;
                }
            }
            if is_piv {
                proof {
                    lemma_leading_props(self@[row_index as int]);
                    assert(leading(self@[row_index as int]) == j);
                    assert forall|t: int|
                        row_index + 1 <= t < rows implies leading(#[trigger] self@[t]) >= j
                        + 1 by {
                        if leading(self@[t]) < cols {
                            assert(leading(self@[row_index as int]) < leading(self@[t]));
                        }
                    }
                }
                pivots.push((j, row_index));
                row_index = row_index + 1;
            } else {
                proof {
                    assert forall|t: int| 0 <= t < rows implies leading(#[trigger] self@[t])
                        != j by {
                        if t >= row_index && leading(self@[t]) == j {
                            lemma_leading_props(self@[t]);
                            if t == row_index {
                                assert(self@[t][j as int] != 0);
                                assert(false);
                            } else {
                                assert(leading(self@[row_index as int]) < leading(self@[t]));
                                assert(false);
                            }
                        }
                    }
                    assert forall|t: int|
                        row_index <= t < rows implies leading(#[trigger] self@[t]) >= j + 1 by {}
                }
                free_columns.push(j);
            }
            j = j + 1;
        }
        let ghost bound = row_index as int;
        proof {
            lemma_rank_counts_pivot_rows(self@, cols as int, bound, rows as int);
            assert(rank_spec(self@, cols as int) == bound);
            // rows past the last pivot are entirely zero
            assert forall|t: int, c: int|
                #![trigger self@[t][c]]
                bound <= t < rows && 0 <= c < cols implies self@[t][c] == 0 by {
                lemma_leading_props(self@[t]);
            }
        }
        let mut kernel_base: Vec<Vec<u8>> = Vec::new();
        let mut q: usize = 0;
        while q < free_columns.len()
            invariant
                q <= free_columns@.len(),
                kernel_base@.len() == q,
                forall|t: int|
                    0 <= t < q ==> row_wf((#[trigger] kernel_base@[t])@, cols as int),
                forall|t: int| 0 <= t < q ==> has_a_one((#[trigger] kernel_base@[t])@),
                forall|t: int, i: int|
                    #![trigger kernel_base@[t], self@[i]]
                    0 <= t < q && 0 <= i < rows ==> dot(self@[i], kernel_base@[t]@) % 2 == 0,
            decreases free_columns@.len() - q,
        {
            let free_col = free_columns[q];
            let mut kernel_vector = zero_vec(cols);
            kernel_vector[free_col] = 1;
            let mut t: usize = 0;
            while t < pivots.len()
                invariant
                    t <= pivots@.len(),
                    free_col < cols,
                    kernel_vector@.len() == cols,
                    kernel_vector@[free_col as int] == 1,
                    forall|c: int|
                        0 <= c < kernel_vector@.len() ==> is_bit(#[trigger] kernel_vector@[c]),
                    forall|c: int|
                        #![trigger kernel_vector@[c]]
                        0 <= c < cols && c != free_col && !(exists|s: int|
                            0 <= s < t && (#[trigger] pivots@[s]).0 == c) ==> kernel_vector@[c]
                            == 0,
                    forall|s: int|
                        0 <= s < t ==> kernel_vector@[(#[trigger] pivots@[s]).0 as int]
                            == self@[pivots@[s].1 as int][free_col as int],
                decreases pivots@.len() - t,
            {
                let pair = pivots[t];
                let p_index = pair.0;
                let p_row = pair.1;
                proof {
                    assert(p_index == leading(self@[t as int]) && p_row == t);
                    assert(leading(self@[t as int]) < cols);
                    assert(free_col != p_index);
                    lemma_leading_props(self@[t as int]);
                    assert(is_bit(self@[t as int][p_index as int]));
                    assert(self@[t as int][p_index as int] == 1);
                }
                let mut sum: u8 = 0;
                let mut col: usize = 0;
                while col < cols
                    invariant
                        col <= cols,
                        is_bit(sum),
                        sum == (if col > free_col {
                            self@[p_row as int][free_col as int]
                        } else {
                            0
                        }),
                    decreases cols - col,
                {
                    if col != p_index {
                        let prod = self.entry(p_row, col) * kernel_vector[col];
                        proof {
                            assert(0u8 ^ 0u8 == 0u8 && 0u8 ^ 1u8 == 1u8 && 1u8 ^ 0u8 == 1u8 && 1u8
                                ^ 1u8 == 0u8) by (bit_vector);
                            if col == free_col {
                                assert(prod == self@[p_row as int][free_col as int]);
                            } else if exists|s: int|
                                0 <= s < t && (#[trigger] pivots@[s]).0 == col {
                                let s = choose|s: int|
                                    0 <= s < t && (#[trigger] pivots@[s]).0 == col;
                                assert(col == leading(self@[s]));
                                assert(self@[p_row as int][leading(self@[s])] == 0);
                                assert(prod == 0);
                            } else {
                                assert(kernel_vector@[col as int] == 0);
                                assert(prod == 0);
                            }
                        }
                        sum = sum ^ prod;
                    }
                    col = col + 1;
                }
                let ghost pre_kv = kernel_vector@;
                kernel_vector[p_index] = sum;
                proof {
                    assert(sum == self@[p_row as int][free_col as int]);
                    assert forall|s: int|
                        0 <= s < t + 1 implies kernel_vector@[(#[trigger] pivots@[s]).0 as int]
                        == self@[pivots@[s].1 as int][free_col as int] by {
                        if s < t {
                            assert(pivots@[s].0 == leading(self@[s]));
                            assert(pivots@[t as int].0 == leading(self@[t as int]));
                            assert(leading(self@[s]) != leading(self@[t as int]));
                            assert(kernel_vector@[pivots@[s].0 as int] == pre_kv[pivots@[s].0 as int]);
                        }
                    }
                }
                t = t + 1;
            }
            proof {
                // every matrix row is orthogonal to the finished vector
                assert forall|i: int| 0 <= i < rows implies dot(self@[i], kernel_vector@) % 2
                    == 0 by {
                    assert(self@[i].len() == cols);
                    if i < bound {
                        let ci = leading(self@[i]);
                        lemma_leading_props(self@[i]);
                        assert(pivots@[i].0 == ci && pivots@[i].1 == i);
                        assert(kernel_vector@[ci] == self@[i][free_col as int]);
                        assert(self@[i][ci] == 1);
                        assert forall|c: int|
                            0 <= c < cols && c != free_col as int && c != ci implies ((
                            #[trigger] self@[i][c]) as int) * (kernel_vector@[c] as int) == 0 by {
                            if exists|s: int| 0 <= s < pivots@.len() && (#[trigger] pivots@[s]).0
                                == c {
                                let s = choose|s: int|
                                    0 <= s < pivots@.len() && (#[trigger] pivots@[s]).0 == c;
                                assert(c == leading(self@[s]));
                                assert(s != i);
                                assert(self@[i][leading(self@[s])] == 0);
                            } else {
                                assert(kernel_vector@[c] == 0);
                            }
                        }
                        lemma_dot_two_terms(
                            self@[i],
                            kernel_vector@,
                            cols as int,
                            free_col as int,
                            ci,
                        );
                    } else {
                        assert forall|c: int|
                            0 <= c < cols implies ((#[trigger] self@[i][c]) as int) * (
                            kernel_vector@[c] as int) == 0 by {}
                        lemma_dot_two_terms(
                            self@[i],
                            kernel_vector@,
                            cols as int,
                            -1,
                            -2,
                        );
                    }
                }
            }
            let ghost kvv = kernel_vector@;
            let ghost pre_kb = kernel_base@;
            kernel_base.push(kernel_vector);
            proof {
                assert(kernel_base@[q as int]@ == kvv);
                assert(kvv[free_col as int] == 1 && 0 <= free_col < kvv.len());
                assert(has_a_one(kvv));
                assert(row_wf((kernel_base@[q as int])@, cols as int));
            }
            q = q + 1;
        }
        kernel_base
    }
}

/// Under the echelon shape, the rank equals the number of pivot rows.
proof fn lemma_rank_counts_pivot_rows(m: Seq<Seq<u8>>, cols: int, bound: int, k: int)
    requires
        0 <= bound <= m.len(),
        0 <= k <= m.len(),
        forall|t: int| 0 <= t < bound ==> leading(#[trigger] m[t]) < cols,
        forall|t: int| bound <= t < m.len() ==> leading(#[trigger] m[t]) >= cols,
        forall|i: int, j: int|
            #![trigger m[i], m[j]]
            0 <= i < j < m.len() && leading(m[j]) < cols ==> leading(m[i]) < leading(m[j]),
    ensures
        rank_upto(m, cols, k) == min2(k, bound),
    decreases k,
{
    if k > 0 {
        lemma_rank_counts_pivot_rows(m, cols, bound, k - 1);
        if k - 1 < bound {
            assert forall|j: int| 0 <= j < k - 1 implies leading(#[trigger] m[j]) != leading(
                m[k - 1],
            ) by {
                if j < bound {
                    assert(leading(m[j]) < leading(m[k - 1]));
                }
            }
        }
    }
}

/// A fresh all-zero vector.
fn zero_vec(n: usize) -> (r: Vec<u8>)
    ensures
        r@.len() == n,
        forall|k: int| 0 <= k < n ==> r@[k] == 0,
{
    let mut r: Vec<u8> = Vec::new();
    let mut i: usize = 0;
    while i < n
        invariant
            i <= n,
            r@.len() == i,
            forall|k: int| 0 <= k < i ==> r@[k] == 0,
        decreases n - i,
    {
        r.push(0);
        i = i + 1;
    }
    r
}

/// Linear scan membership test.
fn vec_contains(v: &Vec<usize>, x: usize) -> (b: bool)
    ensures
        b == v@.contains(x),
{
    let n = v.len();
    let mut k: usize = 0;
    while k < n
        invariant
            k <= n,
            n == v@.len(),
            forall|j: int| 0 <= j < k ==> v@[j] != x,
        decreases n - k,
    {
        if v[k] == x {
            return true;
        }
        k = k + 1;
    }
    false
}

/// Rank of the first `k` rows: a row counts when its leading entry falls
/// inside the matrix and no earlier row leads in the same column, exactly
/// the fold-into-a-set count that the engine computes.
pub open spec fn rank_upto(m: Seq<Seq<u8>>, cols: int, k: int) -> int
    decreases k,
{
    if k <= 0 {
        0
    } else {
        rank_upto(m, cols, k - 1) + if leading(m[k - 1]) < cols && (forall|j: int|
            0 <= j < k - 1 ==> leading(#[trigger] m[j]) != leading(m[k - 1])) {
            1int
        } else {
            0int
        }
    }
}

/// Rank of a matrix in its current state: the number of distinct pivot
/// columns over all rows.
pub open spec fn rank_spec(m: Seq<Seq<u8>>, cols: int) -> int {
    rank_upto(m, cols, m.len() as int)
}

/// The set of pivot columns among the first `k` rows.
pub open spec fn pivot_cols_upto(m: Seq<Seq<u8>>, cols: int, k: int) -> Set<int>
    decreases k,
{
    if k <= 0 {
        Set::empty()
    } else {
        let s = pivot_cols_upto(m, cols, k - 1);
        if leading(m[k - 1]) < cols {
            s.insert(leading(m[k - 1]))
        } else {
            s
        }
    }
}

pub proof fn lemma_pivot_cols_upto(m: Seq<Seq<u8>>, cols: int, k: int)
    ensures
        pivot_cols_upto(m, cols, k).finite(),
        forall|c: int|
            pivot_cols_upto(m, cols, k).contains(c) <==> exists|j: int|
                0 <= j < k && leading(#[trigger] m[j]) == c && c < cols,
        rank_upto(m, cols, k) == pivot_cols_upto(m, cols, k).len(),
    decreases k,
{
    if k <= 0 {
    } else {
        lemma_pivot_cols_upto(m, cols, k - 1);
        let s = pivot_cols_upto(m, cols, k - 1);
        let ld = leading(m[k - 1]);
        if ld < cols {
            if forall|j: int| 0 <= j < k - 1 ==> leading(#[trigger] m[j]) != ld {
                assert(!s.contains(ld));
                assert(s.insert(ld).len() == s.len() + 1);
            } else {
                let j = choose|j: int| 0 <= j < k - 1 && leading(#[trigger] m[j]) == ld;
                assert(s.contains(ld));
                assert(s.insert(ld) =~= s);
            }
        }
        assert forall|c: int|
            pivot_cols_upto(m, cols, k).contains(c) <==> exists|j: int|
                0 <= j < k && leading(#[trigger] m[j]) == c && c < cols by {
            if pivot_cols_upto(m, cols, k).contains(c) {
                if ld < cols && c == ld {
                    assert(0 <= k - 1 < k && leading(m[k - 1]) == c && c < cols);
                } else {
                    assert(s.contains(c));
                }
            }
            if exists|j: int| 0 <= j < k && leading(#[trigger] m[j]) == c && c < cols {
                let j = choose|j: int| 0 <= j < k && leading(#[trigger] m[j]) == c && c < cols;
                if j < k - 1 {
                    assert(s.contains(c));
                    assert(pivot_cols_upto(m, cols, k).contains(c));
                }
            }
        }
    }
}

/// The rank never exceeds the row count.
pub proof fn lemma_rank_le_rows(m: Seq<Seq<u8>>, cols: int, k: int)
    requires
        k >= 0,
    ensures
        0 <= rank_upto(m, cols, k) <= k,
    decreases k,
{
    if k > 0 {
        lemma_rank_le_rows(m, cols, k - 1);
    }
}

/// The rank never exceeds the column count.
pub proof fn lemma_rank_le_cols(m: Seq<Seq<u8>>, cols: int)
    requires
        cols >= 0,
        forall|i: int| 0 <= i < m.len() ==> (#[trigger] m[i]).len() == cols,
    ensures
        rank_spec(m, cols) <= cols,
{
    let k = m.len() as int;
    lemma_pivot_cols_upto(m, cols, k);
    let s = pivot_cols_upto(m, cols, k);
    assert forall|c: int| s.contains(c) implies vstd::set_lib::set_int_range(0, cols).contains(
        c,
    ) by {
        let j = choose|j: int| 0 <= j < k && leading(#[trigger] m[j]) == c && c < cols;
        lemma_leading_props(m[j]);
    }
    vstd::set_lib::lemma_int_range(0, cols);
    vstd::set_lib::lemma_len_subset(s, vstd::set_lib::set_int_range(0, cols));
}

/// An all-zero matrix has rank zero.
pub proof fn lemma_rank_zero_matrix(m: Seq<Seq<u8>>, cols: int, k: int)
    requires
        k <= m.len(),
        forall|i: int| 0 <= i < m.len() ==> (#[trigger] m[i]).len() == cols,
        forall|i: int, c: int| #![trigger m[i][c]] 0 <= i < m.len() && 0 <= c < cols ==> m[i][c] == 0,
    ensures
        rank_upto(m, cols, k) == 0,
    decreases k,
{
    if k > 0 {
        lemma_rank_zero_matrix(m, cols, k - 1);
        lemma_leading_from_props(m[k - 1], cols);
    }
}

/// The vector is nonzero: some coordinate holds a 1.
pub open spec fn has_a_one(v: Seq<u8>) -> bool {
    exists|c: int| 0 <= c < v.len() && v[c] == 1
}

/// Mod-2 inner product, summed over the first `k` coordinates.
pub open spec fn dot_prefix(a: Seq<u8>, b: Seq<u8>, k: int) -> int
    decreases k,
{
    if k <= 0 {
        0
    } else {
        dot_prefix(a, b, k - 1) + (a[k - 1] as int) * (b[k - 1] as int)
    }
}

/// Inner product of two vectors over their common length.
pub open spec fn dot(a: Seq<u8>, b: Seq<u8>) -> int {
    dot_prefix(a, b, min2(a.len() as int, b.len() as int))
}

/// When at most the coordinates `k1` and `k2` contribute, the inner product
/// collapses to those two products.
pub proof fn lemma_dot_two_terms(a: Seq<u8>, b: Seq<u8>, k: int, k1: int, k2: int)
    requires
        k >= 0,
        k1 != k2,
        forall|j: int| 0 <= j < k && j != k1 && j != k2 ==> ((#[trigger] a[j]) as int) * (b[j] as int) == 0,
    ensures
        dot_prefix(a, b, k) == (if 0 <= k1 < k {
            (a[k1] as int) * (b[k1] as int)
        } else {
            0
        }) + (if 0 <= k2 < k {
            (a[k2] as int) * (b[k2] as int)
        } else {
            0
        }),
    decreases k,
{
    if k > 0 {
        lemma_dot_two_terms(a, b, k - 1, k1, k2);
    }
}

/// A bit-string: every character is `'0'` or `'1'`.
pub open spec fn binstr(s: Seq<char>) -> bool {
    forall|k: int| 0 <= k < s.len() ==> (#[trigger] s[k]) == '0' || s[k] == '1'
}

/// Character views of a list of strings.
pub open spec fn str_views(v: Seq<String>) -> Seq<Seq<char>> {
    v.map_values(|s: String| s@)
}

/// Over the common length of point `p` and monomial `m`, every variable the
/// monomial requires is set in the point.
pub open spec fn covers(p: Seq<char>, m: Seq<char>) -> bool {
    forall|k: int|
        0 <= k < min2(p.len() as int, m.len() as int) ==> ((#[trigger] m[k]) == '1' ==> p[k]
            == '1')
}

/// GF(2) evaluation of monomial `m` at point `p`.
pub open spec fn eval01(p: Seq<char>, m: Seq<char>) -> u8 {
    if covers(p, m) {
        1u8
    } else {
        0u8
    }
}

/// Monomial containment for equal-width bit-strings.
pub open spec fn submonom(sub: Seq<char>, m: Seq<char>) -> bool {
    forall|k: int| 0 <= k < sub.len() ==> ((#[trigger] sub[k]) == '1' ==> m[k] == '1')
}

/// Mod-2 sum, over the first `k` monomials contained in the point `p`, of
/// the candidate's coefficients: the candidate polynomial's value at `p`.
pub open spec fn anf_sum(p: Seq<char>, g: Seq<u8>, maps: Seq<Seq<char>>, k: int) -> int
    decreases k,
{
    if k <= 0 {
        0
    } else {
        anf_sum(p, g, maps, k - 1) + if submonom(maps[k - 1], p) {
            g[k - 1] as int
        } else {
            0int
        }
    }
}

/// Append one entry of `c` to the end of each row of `m`.
pub open spec fn push_col(m: Seq<Seq<u8>>, c: Seq<u8>) -> Seq<Seq<u8>> {
    Seq::new(m.len(), |i: int| m[i].push(c[i]))
}

proof fn lemma_apply_ops_mat_shape(ops: Seq<(usize, usize)>, m: Seq<Seq<u8>>, w: int)
    requires
        forall|i: int| 0 <= i < m.len() ==> (#[trigger] m[i]).len() == w,
        forall|k: int|
            0 <= k < ops.len() ==> (#[trigger] ops[k]).0 < m.len() && ops[k].1 < m.len(),
    ensures
        apply_ops_mat(ops, m).len() == m.len(),
        forall|i: int|
            0 <= i < m.len() ==> (#[trigger] apply_ops_mat(ops, m)[i]).len() == w,
    decreases ops.len(),
{
    if ops.len() > 0 {
        assert(forall|k: int|
            0 <= k < ops.drop_last().len() ==> (#[trigger] ops.drop_last()[k]) == ops[k]);
        lemma_apply_ops_mat_shape(ops.drop_last(), m, w);
    }
}

/// Replaying a reduction's operation log onto a column appended to the
/// matrix agrees with replaying the log over the extended matrix: the
/// appended column evolves exactly as if it had been part of every recorded
/// row operation.
pub proof fn lemma_replay_on_appended_column(ops: Seq<(usize, usize)>, m: Seq<Seq<u8>>, c: Seq<u8>, w: int)
    requires
        c.len() == m.len(),
        forall|i: int| 0 <= i < m.len() ==> (#[trigger] m[i]).len() == w,
        forall|k: int|
            0 <= k < ops.len() ==> (#[trigger] ops[k]).0 < m.len() && ops[k].1 < m.len(),
    ensures
        apply_ops_mat(ops, push_col(m, c)) == push_col(apply_ops_mat(ops, m), apply_ops_vec(ops, c)),
    decreases ops.len(),
{
    if ops.len() == 0 {
    } else {
        let ops0 = ops.drop_last();
        let p = ops.last();
        assert(forall|k: int|
            0 <= k < ops0.len() ==> (#[trigger] ops0[k]) == ops[k]);
        lemma_replay_on_appended_column(ops0, m, c, w);
        lemma_apply_ops_mat_shape(ops0, m, w);
        let m0 = apply_ops_mat(ops0, m);
        let c0 = apply_ops_vec(ops0, c);
        let t = p.0 as int;
        let s = p.1 as int;
        assert(apply_ops_vec(ops0, c).len() == c.len()) by {
            lemma_apply_ops_vec_len(ops0, c);
        }
        assert(apply_ops_mat(ops, push_col(m, c)) == apply_op_mat(push_col(m0, c0), t, s));
        assert(row_xor(push_col(m0, c0)[t], push_col(m0, c0)[s]) =~= row_xor(m0[t], m0[s]).push(
            ((c0[t] + c0[s]) % 2) as u8,
        ));
        assert(apply_op_mat(push_col(m0, c0), t, s) =~~= push_col(
            apply_op_mat(m0, t, s),
            apply_op_vec(c0, t, s),
        ));
    }
}

proof fn lemma_apply_ops_vec_len(ops: Seq<(usize, usize)>, v: Seq<u8>)
    requires
        forall|k: int|
            0 <= k < ops.len() ==> (#[trigger] ops[k]).0 < v.len() && ops[k].1 < v.len(),
    ensures
        apply_ops_vec(ops, v).len() == v.len(),
    decreases ops.len(),
{
    if ops.len() > 0 {
        assert(forall|k: int|
            0 <= k < ops.drop_last().len() ==> (#[trigger] ops.drop_last()[k]) == ops[k]);
        lemma_apply_ops_vec_len(ops.drop_last(), v);
    }
}

/// Evaluate the monomial `s2` at the point `s1`: per position, the point's
/// digit is raised to the monomial's digit and the digits are multiplied
/// out, which over bit-strings is 1 exactly when the monomial's support is
/// contained in the point's.
#[verifier::loop_isolation(false)]
pub fn str_ops(s1: &str, s2: &str) -> (r: u8)
    requires
        binstr(s1@),
        binstr(s2@),
    ensures
        r == eval01(s1@, s2@),
{
    let n1 = s1.unicode_len();
    let n2 = s2.unicode_len();
    let n = if n1 <= n2 {
        n1
    } else {
        n2
    };
    let mut acc: u8 = 1;
    let mut k: usize = 0;
    while k < n
        invariant
            k <= n,
            n == min2(s1@.len() as int, s2@.len() as int),
            acc == (if forall|j: int| 0 <= j < k ==> !((#[trigger] s2@[j]) == '1' && s1@[j] == '0') {
                1u8
            } else {
                0u8
            }),
        decreases n - k,
    {
        let c1 = s1.get_char(k);
        let c2 = s2.get_char(k);
        if c2 == '1' && c1 == '0' {
            acc = 0;
        }
        k = k + 1;
    }
    proof {
        if covers(s1@, s2@) {
            assert(forall|j: int| 0 <= j < n ==> !((#[trigger] s2@[j]) == '1' && s1@[j] == '0'));
        } else {
            if forall|j: int| 0 <= j < n ==> !((#[trigger] s2@[j]) == '1' && s1@[j] == '0') {
                assert forall|j: int|
                    0 <= j < min2(s1@.len() as int, s2@.len() as int) implies ((#[trigger] s2@[j])
                    == '1' ==> s1@[j] == '1') by {
                    assert(s1@[j] == '0' || s1@[j] == '1');
                }
                assert(covers(s1@, s2@));
            }
        }
    }
    acc
}

/// True when every variable of the first monomial also occurs in the second.
#[verifier::loop_isolation(false)]
pub fn is_submonomial(sub_monom: &str, monom: &str) -> (r: bool)
    requires
        binstr(sub_monom@),
        binstr(monom@),
        sub_monom@.len() == monom@.len(),
    ensures
        r == submonom(sub_monom@, monom@),
{
    let n = sub_monom.unicode_len();
    let mut k: usize = 0;
    while k < n
        invariant
            k <= n,
            n == sub_monom@.len(),
            forall|j: int| 0 <= j < k ==> ((#[trigger] sub_monom@[j]) == '1' ==> monom@[j] == '1'),
        decreases n - k,
    {
        let c1 = sub_monom.get_char(k);
        let c2 = monom.get_char(k);
        if c1 == '1' && c2 != '1' {
            return false;
        }
        k = k + 1;
    }
    true
}

/// Replay a recorded operation log over a freshly evaluated column.
#[verifier::loop_isolation(false)]
pub fn apply_operations(operations: &Vec<(usize, usize)>, v: Vec<u8>) -> (r: Vec<u8>)
    requires
        forall|k: int|
            0 <= k < operations@.len() ==> (#[trigger] operations@[k]).0 < v@.len()
                && operations@[k].1 < v@.len(),
        forall|k: int| 0 <= k < v@.len() ==> is_bit(#[trigger] v@[k]),
    ensures
        r@ == apply_ops_vec(operations@, v@),
        r@.len() == v@.len(),
        forall|k: int| 0 <= k < r@.len() ==> is_bit(#[trigger] r@[k]),
{
    let mut result = v;
    let n = operations.len();
    let mut k: usize = 0;
    while k < n
        invariant
            k <= n,
            n == operations@.len(),
            result@ == apply_ops_vec(operations@.subrange(0, k as int), v@),
            result@.len() == v@.len(),
            forall|j: int| 0 <= j < result@.len() ==> is_bit(#[trigger] result@[j]),
        decreases n - k,
    {
        let pair = operations[k];
        let op1 = pair.0;
        let op2 = pair.1;
        let val = (result[op1] + result[op2]) % 2;
        let ghost pre = result@;
        result[op1] = val;
        proof {
            assert(operations@.subrange(0, k + 1).drop_last() =~= operations@.subrange(
                0,
                k as int,
            ));
            lemma_apply_ops_vec_push(operations@.subrange(0, k as int), v@, pair);
            assert(operations@.subrange(0, k + 1) =~= operations@.subrange(0, k as int).push(
                pair,
            ));
            assert(result@ =~= apply_op_vec(pre, op1 as int, op2 as int));
        }
        k = k + 1;
    }
    proof {
        assert(operations@.subrange(0, n as int) =~= operations@);
    }
    result
}

/// Check a candidate annihilator against every point of a target set.
///
/// For each point, the candidate's value is the mod-2 sum of its
/// coefficients over the monomials contained in the point.  Returns
/// `(true, None)` when the candidate vanishes on every point, else
/// `(false, Some((i, p)))` for the first point `p` (at index `i`) where it
/// evaluates to 1.
#[verifier::loop_isolation(false)]
pub fn verify(z: Vec<String>, g: Vec<u8>, mapping: Vec<String>) -> (res: (bool, Option<(usize, String)>))
    requires
        g@.len() <= mapping@.len(),
        forall|i: int| 0 <= i < g@.len() ==> is_bit(#[trigger] g@[i]),
        forall|i: int| 0 <= i < g@.len() ==> binstr((#[trigger] mapping@[i])@),
        forall|j: int| 0 <= j < z@.len() ==> binstr((#[trigger] z@[j])@),
        forall|i: int, j: int|
            #![trigger mapping@[i], z@[j]]
            0 <= i < g@.len() && 0 <= j < z@.len() ==> mapping@[i]@.len() == z@[j]@.len(),
    ensures
        res.0 <==> (forall|j: int|
            0 <= j < z@.len() ==> anf_sum((#[trigger] z@[j])@, g@, str_views(mapping@), g@.len() as int)
                % 2 == 0),
        res.0 ==> res.1 is None,
        !res.0 ==> res.1 is Some && {
            let (idx, p) = res.1.unwrap();
            &&& idx < z@.len()
            &&& p@ == z@[idx as int]@
            &&& anf_sum(z@[idx as int]@, g@, str_views(mapping@), g@.len() as int) % 2 == 1
            &&& forall|j: int|
                0 <= j < idx ==> anf_sum((#[trigger] z@[j])@, g@, str_views(mapping@), g@.len() as int)
                    % 2 == 0
        },
{
    let zlen = z.len();
    let glen = g.len();
    let mut idx: usize = 0;
    while idx < zlen
        invariant
            idx <= zlen,
            zlen == z@.len(),
            glen == g@.len(),
            forall|j: int|
                0 <= j < idx ==> anf_sum((#[trigger] z@[j])@, g@, str_views(mapping@), g@.len() as int)
                    % 2 == 0,
        decreases zlen - idx,
    {
        let item: &String = &z[idx];
        let mut acc: u8 = 0;
        let mut i: usize = 0;
        while i < glen
            invariant
                i <= glen,
                glen == g@.len(),
                idx < z@.len(),
                item@ == z@[idx as int]@,
                acc == anf_sum(z@[idx as int]@, g@, str_views(mapping@), i as int) % 2,
            decreases glen - i,
        {
            proof {
                assert(str_views(mapping@)[i as int] == mapping@[i as int]@);
            }
            if is_submonomial(mapping[i].as_str(), item.as_str()) {
                acc = (acc + g[i]) % 2;
            }
            i = i + 1;
        }
        if acc == 1 {
            let p = copy_string(item);
            return (false, Some((idx, p)));
        }
        idx = idx + 1;
    }
    (true, None)
}

/// Clone one string.
fn copy_string(s: &String) -> (r: String)
    ensures
        r@ == s@,
{
    s.clone()
}

/// Entrywise copy of a whole matrix.
fn copy_matrix(m: &Vec<Vec<u8>>) -> (r: Vec<Vec<u8>>)
    ensures
        r@.len() == m@.len(),
        forall|i: int| 0 <= i < m@.len() ==> #[trigger] r@[i]@ == m@[i]@,
{
    let mut r: Vec<Vec<u8>> = Vec::new();
    let n = m.len();
    let mut i: usize = 0;
    while i < n
        invariant
            i <= n,
            n == m@.len(),
            r@.len() == i,
            forall|k: int| 0 <= k < i ==> #[trigger] r@[k]@ == m@[k]@,
        decreases n - i,
    {
        r.push(copy_row(&m[i]));
        i = i + 1;
    }
    r
}

/// Entrywise copy of one row.
fn copy_row(v: &Vec<u8>) -> (r: Vec<u8>)
    ensures
        r@ == v@,
{
    let mut r: Vec<u8> = Vec::new();
    let n = v.len();
    let mut i: usize = 0;
    while i < n
        invariant
            i <= n,
            n == v@.len(),
            r@ == v@.subrange(0, i as int),
        decreases n - i,
    {
        r.push(v[i]);
        proof {
            assert(r@ =~= v@.subrange(0, i + 1));
        }
        i = i + 1;
    }
    proof {
        assert(v@.subrange(0, n as int) =~= v@);
    }
    r
}

} // verus!

