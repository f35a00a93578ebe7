//! Monomial enumeration, the annihilator search, and the immunity evaluator.

use crate::vandermonde::VanderMonde;
use crate::vandermonde::binstr;
use crate::vandermonde::eval01;
use crate::vandermonde::is_bit;
use crate::vandermonde::str_ops;
use crate::vandermonde::str_views;
use crate::vandermonde::verify;
use vstd::prelude::*;

verus! {

/// The `k`-element subsets of `{lo, …, n-1}`, each listed in increasing
/// order, enumerated in lexicographic order.
pub open spec fn combos_from(lo: int, n: int, k: nat) -> Seq<Seq<int>>
    decreases n - lo, k,
{
    if k == 0 {
        seq![Seq::<int>::empty()]
    } else if lo >= n {
        Seq::empty()
    } else {
        combos_from(lo + 1, n, (k - 1) as nat).map_values(|s: Seq<int>| seq![lo] + s)
            + combos_from(lo + 1, n, k)
    }
}

/// Bit-string of width `n` for a set of variable indices: string position
/// `p` holds `'1'` exactly when index `n-1-p` is chosen (position 0 shows
/// the highest index).
pub open spec fn render_subset(s: Seq<int>, n: int) -> Seq<char> {
    Seq::new(n as nat, |p: int| if s.contains(n - 1 - p) { '1' } else { '0' })
}

/// The monomial universe of width `n` up to degree `r`: all weight classes
/// in ascending order, each class in lexicographic order of its subsets.
pub open spec fn monomials_upto(n: int, r: int) -> Seq<Seq<char>>
    decreases r + 1,
{
    if r < 0 {
        Seq::empty()
    } else {
        monomials_upto(n, r - 1) + combos_from(0, n, r as nat).map_values(
            |s: Seq<int>| render_subset(s, n),
        )
    }
}

/// Powers of two.
pub open spec fn pow2(n: nat) -> int
    decreases n,
{
    if n == 0 {
        1
    } else {
        2 * pow2((n - 1) as nat)
    }
}

/// Binary rendering of `i` with fixed width `n`, most significant digit
/// first.
pub open spec fn bin_render(i: int, n: nat) -> Seq<char>
    decreases n,
{
    if n == 0 {
        Seq::empty()
    } else {
        bin_render(i / 2, (n - 1) as nat).push(
            if i % 2 == 1 {
                '1'
            } else {
                '0'
            },
        )
    }
}

/// The width-`n` renderings of the indices `j < k` whose table entry equals
/// `val`, in ascending index order.
pub open spec fn set_renders(t: Seq<u8>, n: nat, val: u8, k: int) -> Seq<Seq<char>>
    decreases k,
{
    if k <= 0 {
        Seq::empty()
    } else {
        set_renders(t, n, val, k - 1) + if t[k - 1] == val {
            seq![bin_render(k - 1, n)]
        } else {
            Seq::empty()
        }
    }
}

/// Number of `'1'` characters in a bit-string: the degree of a monomial,
/// or the size of a point's support.
pub open spec fn weight(s: Seq<char>) -> int
    decreases s.len(),
{
    if s.len() == 0 {
        0
    } else {
        weight(s.drop_last()) + if s.last() == '1' {
            1int
        } else {
            0int
        }
    }
}

/// Count of `'1'` characters in a bit-string.
pub fn hamming_weight(word: &str) -> (r: usize)
    ensures
        r == weight(word@),
{
    let n = word.unicode_len();
    let mut count: usize = 0;
    let mut k: usize = 0;
    while k < n
        invariant
            k <= n,
            n == word@.len(),
            count == weight(word@.subrange(0, k as int)),
            count <= k,
        decreases n - k,
    {
        let c = word.get_char(k);
        proof {
            assert(word@.subrange(0, k + 1).drop_last() =~= word@.subrange(0, k as int));
            assert(word@.subrange(0, k + 1).last() == word@[k as int]);
        }
        if c == '1' {
            count = count + 1;
        }
        k = k + 1;
    }
    proof {
        assert(word@.subrange(0, n as int) =~= word@);
    }
    count
}

/// A subset as enumerated for one weight class: `k` indices drawn from
/// `{lo, …, n-1}`, in increasing order.
pub open spec fn combo_ok(s: Seq<int>, lo: int, n: int, k: nat) -> bool {
    &&& s.len() == k
    &&& forall|a: int| 0 <= a < s.len() ==> lo <= #[trigger] s[a] < n
    &&& forall|a: int, b: int| 0 <= a < b < s.len() ==> s[a] < s[b]
}

pub proof fn lemma_combos_elements(lo: int, n: int, k: nat)
    ensures
        forall|t: int|
            0 <= t < combos_from(lo, n, k).len() ==> combo_ok(
                #[trigger] combos_from(lo, n, k)[t],
                lo,
                n,
                k,
            ),
    decreases n - lo, k,
{
    if k == 0 {
        assert(combos_from(lo, n, k)[0] =~= Seq::<int>::empty());
    } else if lo >= n {
    } else {
        lemma_combos_elements(lo + 1, n, (k - 1) as nat);
        lemma_combos_elements(lo + 1, n, k);
        let first = combos_from(lo + 1, n, (k - 1) as nat).map_values(
            |s: Seq<int>| seq![lo] + s,
        );
        let rest = combos_from(lo + 1, n, k);
        assert forall|t: int| 0 <= t < combos_from(lo, n, k).len() implies combo_ok(
            #[trigger] combos_from(lo, n, k)[t],
            lo,
            n,
            k,
        ) by {
            if t < first.len() {
                let inner = combos_from(lo + 1, n, (k - 1) as nat)[t];
                assert(combos_from(lo, n, k)[t] == seq![lo] + inner);
                assert(combo_ok(inner, lo + 1, n, (k - 1) as nat));
                let s = seq![lo] + inner;
                assert(s.len() == k);
                assert forall|a: int| 0 <= a < s.len() implies lo <= #[trigger] s[a] < n by {
                    if a == 0 {
                        assert(s[0] == lo);
                    } else {
                        assert(s[a] == inner[a - 1]);
                    }
                }
                assert forall|a: int, b: int| 0 <= a < b < s.len() implies s[a] < s[b] by {
                    if a == 0 {
                        assert(s[0] == lo);
                        assert(s[b] == inner[b - 1]);
                        assert(lo + 1 <= inner[b - 1]);
                    } else {
                        assert(s[a] == inner[a - 1] && s[b] == inner[b - 1]);
                    }
                }
            } else {
                assert(combos_from(lo, n, k)[t] == rest[t - first.len()]);
                assert(combo_ok(rest[t - first.len()], lo + 1, n, k));
            }
        }
    }
}

proof fn lemma_push_contains(s: Seq<int>, x: int, v: int)
    ensures
        s.push(x).contains(v) <==> (s.contains(v) || v == x),
{
    if s.push(x).contains(v) {
        let i = choose|i: int| 0 <= i < s.push(x).len() && s.push(x)[i] == v;
        if i < s.len() {
            assert(s[i] == v);
        }
    }
    if s.contains(v) {
        let i = choose|i: int| 0 <= i < s.len() && s[i] == v;
        assert(s.push(x)[i] == v);
    }
    if v == x {
        assert(s.push(x)[s.len() as int] == v);
    }
}

proof fn lemma_weight_no_ones(s: Seq<char>)
    requires
        forall|k: int| 0 <= k < s.len() ==> (#[trigger] s[k]) != '1',
    ensures
        weight(s) == 0,
    decreases s.len(),
{
    if s.len() > 0 {
        assert(forall|k: int|
            0 <= k < s.drop_last().len() ==> (#[trigger] s.drop_last()[k]) == s[k]);
        lemma_weight_no_ones(s.drop_last());
    }
}

proof fn lemma_weight_update(s: Seq<char>, q: int)
    requires
        0 <= q < s.len(),
        s[q] != '1',
    ensures
        weight(s.update(q, '1')) == weight(s) + 1,
    decreases s.len(),
{
    if q == s.len() - 1 {
        assert(s.update(q, '1').drop_last() =~= s.drop_last());
        assert(s.update(q, '1').last() == '1');
    } else {
        assert(s.update(q, '1').drop_last() =~= s.drop_last().update(q, '1'));
        assert(s.update(q, '1').last() == s.last());
        lemma_weight_update(s.drop_last(), q);
    }
}

proof fn lemma_weight_render(s: Seq<int>, n: int)
    requires
        n >= 0,
        forall|a: int| 0 <= a < s.len() ==> 0 <= #[trigger] s[a] < n,
        forall|a: int, b: int| 0 <= a < b < s.len() ==> s[a] != s[b],
    ensures
        weight(render_subset(s, n)) == s.len(),
    decreases s.len(),
{
    if s.len() == 0 {
        assert forall|k: int| 0 <= k < render_subset(s, n).len() implies (
        #[trigger] render_subset(s, n)[k]) != '1' by {
            if s.contains(n - 1 - k) {
                let a = choose|a: int| 0 <= a < s.len() && s[a] == n - 1 - k;
            }
        }
        lemma_weight_no_ones(render_subset(s, n));
    } else {
        let s0 = s.drop_last();
        let x = s.last();
        assert(forall|a: int| 0 <= a < s0.len() ==> (#[trigger] s0[a]) == s[a]);
        lemma_weight_render(s0, n);
        assert(s =~= s0.push(x));
        assert forall|p: int|
            0 <= p < n implies render_subset(s, n)[p] == render_subset(s0, n).update(
            n - 1 - x,
            '1',
        )[p] by {
            lemma_push_contains(s0, x, n - 1 - p);
            if p == n - 1 - x {
                assert(s.contains(n - 1 - p));
            } else {
                assert(n - 1 - p != x);
            }
        }
        assert(render_subset(s, n) =~= render_subset(s0, n).update(n - 1 - x, '1'));
        assert(render_subset(s0, n)[n - 1 - x] != '1') by {
            if s0.contains(x) {
                let a = choose|a: int| 0 <= a < s0.len() && s0[a] == x;
                assert(s[a] == s[s.len() - 1]);
            }
        }
        lemma_weight_update(render_subset(s0, n), n - 1 - x);
    }
}

/// A member of the monomial universe: width `n`, binary, degree at most `r`.
pub open spec fn monom_ok(m: Seq<char>, n: int, r: int) -> bool {
    m.len() == n && binstr(m) && weight(m) <= r
}

pub proof fn lemma_monomials_props(n: int, r: int)
    requires
        n >= 0,
    ensures
        forall|t: int|
            0 <= t < monomials_upto(n, r).len() ==> monom_ok(
                #[trigger] monomials_upto(n, r)[t],
                n,
                r,
            ),
        r >= 0 ==> monomials_upto(n, r).len() >= 1,
    decreases r + 1,
{
    if r < 0 {
    } else {
        lemma_monomials_props(n, r - 1);
        lemma_combos_elements(0, n, r as nat);
        let prev = monomials_upto(n, r - 1);
        let fresh = combos_from(0, n, r as nat).map_values(|s: Seq<int>| render_subset(s, n));
        assert forall|t: int| 0 <= t < monomials_upto(n, r).len() implies monom_ok(
            #[trigger] monomials_upto(n, r)[t],
            n,
            r,
        ) by {
            if t < prev.len() {
                assert(monomials_upto(n, r)[t] == prev[t]);
                assert(monom_ok(prev[t], n, r - 1));
            } else {
                let s = combos_from(0, n, r as nat)[t - prev.len()];
                assert(monomials_upto(n, r)[t] == render_subset(s, n));
                assert(combo_ok(s, 0, n, r as nat));
                assert forall|a: int, b: int| 0 <= a < b < s.len() implies s[a] != s[b] by {
                    assert(s[a] < s[b]);
                }
                lemma_weight_render(s, n);
            }
        }
        if r == 0 {
            assert(combos_from(0, n, 0).len() == 1);
            assert(monomials_upto(n, 0).len() >= 1);
        }
    }
}

/// The universe opens with the constant monomial and everything after it
/// has positive degree.
pub proof fn lemma_monomials_first(n: int, r: int)
    requires
        n >= 0,
        r >= 0,
    ensures
        monomials_upto(n, r).len() >= 1,
        monomials_upto(n, r)[0] == render_subset(Seq::<int>::empty(), n),
        forall|t: int|
            1 <= t < monomials_upto(n, r).len() ==> weight(#[trigger] monomials_upto(n, r)[t])
                >= 1,
        n >= 1 && r >= 1 ==> monomials_upto(n, r).len() >= 2,
    decreases r,
{
    lemma_combos_elements(0, n, r as nat);
    let prev = monomials_upto(n, r - 1);
    let fresh = combos_from(0, n, r as nat).map_values(|s: Seq<int>| render_subset(s, n));
    if r == 0 {
        assert(combos_from(0, n, 0) =~= seq![Seq::<int>::empty()]);
        assert(monomials_upto(n, 0)[0] == render_subset(Seq::<int>::empty(), n));
    } else {
        lemma_monomials_first(n, r - 1);
        assert(monomials_upto(n, r)[0] == prev[0]);
        assert forall|t: int| 1 <= t < monomials_upto(n, r).len() implies weight(
            #[trigger] monomials_upto(n, r)[t],
        ) >= 1 by {
            if t < prev.len() {
                assert(monomials_upto(n, r)[t] == prev[t]);
            } else {
                let s = combos_from(0, n, r as nat)[t - prev.len()];
                assert(monomials_upto(n, r)[t] == render_subset(s, n));
                assert(combo_ok(s, 0, n, r as nat));
                assert forall|a: int, b: int| 0 <= a < b < s.len() implies s[a] != s[b] by {
                    assert(s[a] < s[b]);
                }
                lemma_weight_render(s, n);
            }
        }
        if n >= 1 && r >= 1 {
            if r == 1 {
                assert(combos_from(1, n, 0) =~= seq![Seq::<int>::empty()]);
                assert(combos_from(0, n, 1).len() >= combos_from(1, n, 0).map_values(
                    |s: Seq<int>| seq![0] + s,
                ).len());
                assert(fresh.len() >= 1);
                assert(monomials_upto(n, 1).len() >= prev.len() + 1);
            }
        }
    }
}

/// The universe hands the annihilator search a point set and a monomial
/// list in good shape: the constant monomial leads and covers the first
/// point, and every later monomial has positive degree.
pub open spec fn nondegenerate_universe(z: Seq<String>, e: Seq<String>) -> bool {
    &&& z.len() >= 1
    &&& e.len() >= 2
    &&& eval01(z[0]@, e[0]@) == 1
    &&& forall|t: int| 1 <= t < e.len() ==> weight((#[trigger] e[t])@) >= 1
}

/// Any degree that the search reports out of a bounded universe stays
/// within the universe's degree bound.
pub proof fn lemma_branch_degree_bounded(e: Seq<String>, d: usize, n: int, r: int)
    requires
        n >= 0,
        str_views(e) == monomials_upto(n, r),
        exists|t: int| 0 <= t < e.len() && d == weight((#[trigger] e[t])@),
    ensures
        d <= r,
{
    lemma_monomials_props(n, r);
    let t = choose|t: int| 0 <= t < e.len() && d == weight((#[trigger] e[t])@);
    assert(e[t]@ == str_views(e)[t]);
    assert(monom_ok(str_views(e)[t], n, r));
}

/// The Monomial Enumerator is deterministic: two runs that meet the
/// enumerator's contract on the same arguments produced the same sequence.
pub proof fn lemma_enumerator_deterministic(a: Seq<Seq<char>>, b: Seq<Seq<char>>, n: int, r: int)
    requires
        a == monomials_upto(n, r),
        b == monomials_upto(n, r),
    ensures
        a == b,
{
}

pub proof fn lemma_bin_render_props(i: int, n: nat)
    ensures
        bin_render(i, n).len() == n,
        binstr(bin_render(i, n)),
    decreases n,
{
    if n > 0 {
        lemma_bin_render_props(i / 2, (n - 1) as nat);
        assert forall|k: int| 0 <= k < bin_render(i, n).len() implies (#[trigger] bin_render(
            i,
            n,
        )[k]) == '0' || bin_render(i, n)[k] == '1' by {
            if k < n - 1 {
                assert(bin_render(i, n)[k] == bin_render(i / 2, (n - 1) as nat)[k]);
            }
        }
    }
}

pub proof fn lemma_set_renders_props(t: Seq<u8>, n: nat, val: u8, k: int)
    ensures
        forall|q: int|
            0 <= q < set_renders(t, n, val, k).len() ==> ((#[trigger] set_renders(t, n, val, k)[q]).len()
                == n && binstr(set_renders(t, n, val, k)[q])),
        (forall|j: int| 0 <= j < k ==> (#[trigger] t[j]) != val) ==> set_renders(t, n, val, k).len()
            == 0,
        set_renders(t, n, val, k).len() <= (if k >= 0 { k } else { 0 }),
        forall|j: int| 0 <= j < k && (#[trigger] t[j]) == val ==> set_renders(t, n, val, k).len() >= 1,
    decreases k,
{
    if k > 0 {
        lemma_set_renders_props(t, n, val, k - 1);
        lemma_bin_render_props(k - 1, n);
    }
}

pub proof fn lemma_pow2_ge(n: nat)
    ensures
        pow2(n) >= n + 1,
    decreases n,
{
    if n > 0 {
        lemma_pow2_ge((n - 1) as nat);
    }
}

/// Integer views of subsets delivered as machine-word index lists.
pub open spec fn usizes_view(v: Seq<Vec<usize>>) -> Seq<Seq<int>> {
    v.map_values(|x: Vec<usize>| x@.map_values(|u: usize| u as int))
}

proof fn lemma_usize_seq_contains(c: Seq<usize>, v: usize)
    ensures
        c.map_values(|u: usize| u as int).contains(v as int) <==> c.contains(v),
{
    let ci = c.map_values(|u: usize| u as int);
    if ci.contains(v as int) {
        let i = choose|i: int| 0 <= i < ci.len() && ci[i] == v as int;
        assert(c[i] as int == v as int);
        assert(c[i] == v);
    }
    if c.contains(v) {
        let i = choose|i: int| 0 <= i < c.len() && c[i] == v;
        assert(ci[i] == v as int);
    }
}

/// Relies on itertools' `combinations` over a range iterator: it yields the
/// `k`-element subsets of `{0, …, n-1}`, each as an increasing index list,
/// in lexicographic order.
#[verifier::external_body]
fn combinations_of(n: usize, k: usize) -> (r: Vec<Vec<usize>>)
    ensures
        usizes_view(r@) == combos_from(0, n as int, k as nat),
{
    itertools::Itertools::combinations(0..n, k).collect()
}

/// Linear scan membership test over an index list.
fn contains_usize(v: &Vec<usize>, x: usize) -> (b: bool)
    ensures
        b == v@.contains(x),
{
    let n = v.len();
    let mut k: usize = 0;
    while k < n
        invariant
            k <= n,
            n == v@.len(),
            forall|j: int| 0 <= j < k ==> v@[j] != x,
        decreases n - k,
    {
        if v[k] == x {
            return true;
        }
        k = k + 1;
    }
    false
}

/// Analyzer for one Boolean function, held as its explicit truth table.
#[derive(Clone)]
pub struct AlgebraicImmunity {
    pub truth_table: Vec<u8>,
}

impl AlgebraicImmunity {
    pub fn new(truth_table: Vec<u8>) -> (r: Self)
        ensures
            r.truth_table@ == truth_table@,
    {
        AlgebraicImmunity { truth_table }
    }

    /// The monomial universe: every bit-string of width `n` with weight at
    /// most `r`, grouped by ascending weight and, within a weight class, in
    /// lexicographic order of the chosen variable subsets.  Deterministic by
    /// contract: the result is a function of `n` and `r` alone.
    #[verifier::loop_isolation(false)]
    pub fn generate_combinations(n: usize, r: usize) -> (result: Vec<String>)
        requires
            r < usize::MAX,
        ensures
            str_views(result@) == monomials_upto(n as int, r as int),
    {
        let mut all_combinations: Vec<String> = Vec::new();
        let mut k: usize = 0;
        while k < r + 1
            invariant
                k <= r + 1,
                str_views(all_combinations@) == monomials_upto(n as int, k as int - 1),
            decreases r + 1 - k,
        {
            let combos = combinations_of(n, k);
            proof {
                lemma_combos_elements(0, n as int, k as nat);
            }
            let clen = combos.len();
            let ghost fresh = combos_from(0, n as int, k as nat).map_values(
                |s: Seq<int>| render_subset(s, n as int),
            );
            let mut t: usize = 0;
            while t < clen
                invariant
                    t <= clen,
                    clen == combos@.len(),
                    usizes_view(combos@) == combos_from(0, n as int, k as nat),
                    fresh == combos_from(0, n as int, k as nat).map_values(
                        |s: Seq<int>| render_subset(s, n as int),
                    ),
                    str_views(all_combinations@) == monomials_upto(n as int, k as int - 1)
                        + fresh.subrange(0, t as int),
                decreases clen - t,
            {
                let ghost cs = usizes_view(combos@)[t as int];
                let c = &combos[t];
                proof {
                    assert(cs == c@.map_values(|u: usize| u as int));
                }
                let mut binary_string = String::new();
                let mut p: usize = 0;
                while p < n
                    invariant
                        p <= n,
                        cs == c@.map_values(|u: usize| u as int),
                        binary_string@ =~= render_subset(cs, n as int).subrange(0, p as int),
                    decreases n - p,
                {
                    let var = n - 1 - p;
                    proof {
                        reveal_strlit("0");
                        reveal_strlit("1");
                        lemma_usize_seq_contains(c@, var);
                    }
                    if contains_usize(c, var) {
                        binary_string.append("1");
                    } else {
                        binary_string.append("0");
                    }
                    proof {
                        assert(binary_string@ =~= render_subset(cs, n as int).subrange(
                            0,
                            p + 1,
                        ));
                    }
                    p = p + 1;
                }
                proof {
                    assert(binary_string@ =~= render_subset(cs, n as int));
                }
                let ghost pre = all_combinations@;
                all_combinations.push(binary_string);
                proof {
                    assert(fresh[t as int] == render_subset(cs, n as int));
                    assert(str_views(all_combinations@) =~= str_views(pre).push(
                        render_subset(cs, n as int),
                    ));
                    assert(str_views(all_combinations@) =~= monomials_upto(n as int, k as int - 1)
                        + fresh.subrange(0, t + 1));
                }
                t = t + 1;
            }
            proof {
                assert(fresh.subrange(0, fresh.len() as int) =~= fresh);
                assert(str_views(all_combinations@) =~= monomials_upto(n as int, k as int));
            }
            k = k + 1;
        }
        all_combinations
    }

    /// Width-`n` binary renderings of the truth table's indices, split into
    /// the one-set (entries equal to 1) and the zero-set, each in ascending
    /// index order.
    #[verifier::loop_isolation(false)]
    pub fn compute_z(&self, n: usize) -> (res: (Vec<String>, Vec<String>))
        requires
            forall|i: int|
                0 <= i < self.truth_table@.len() ==> is_bit(#[trigger] self.truth_table@[i]),
        ensures
            str_views(res.0@) == set_renders(
                self.truth_table@,
                n as nat,
                1,
                self.truth_table@.len() as int,
            ),
            str_views(res.1@) == set_renders(
                self.truth_table@,
                n as nat,
                0,
                self.truth_table@.len() as int,
            ),
    {
        let mut true_idxs: Vec<String> = Vec::new();
        let mut false_idxs: Vec<String> = Vec::new();
        let len = self.truth_table.len();
        let mut i: usize = 0;
        while i < len
            invariant
                i <= len,
                len == self.truth_table@.len(),
                str_views(true_idxs@) == set_renders(self.truth_table@, n as nat, 1, i as int),
                str_views(false_idxs@) == set_renders(self.truth_table@, n as nat, 0, i as int),
            decreases len - i,
        {
            let bin_str = to_bin(i, n);
            let ghost pre_t = true_idxs@;
            let ghost pre_f = false_idxs@;
            if self.truth_table[i] == 1 {
                true_idxs.push(bin_str);
                proof {
                    assert(str_views(true_idxs@) =~= str_views(pre_t).push(
                        bin_render(i as int, n as nat),
                    ));
                    assert(str_views(true_idxs@) =~= set_renders(
                        self.truth_table@,
                        n as nat,
                        1,
                        i + 1,
                    ));
                    assert(str_views(false_idxs@) =~= set_renders(
                        self.truth_table@,
                        n as nat,
                        0,
                        i + 1,
                    ));
                }
            } else {
                false_idxs.push(bin_str);
                proof {
                    assert(str_views(false_idxs@) =~= str_views(pre_f).push(
                        bin_render(i as int, n as nat),
                    ));
                    assert(str_views(false_idxs@) =~= set_renders(
                        self.truth_table@,
                        n as nat,
                        0,
                        i + 1,
                    ));
                    assert(str_views(true_idxs@) =~= set_renders(
                        self.truth_table@,
                        n as nat,
                        1,
                        i + 1,
                    ));
                }
            }
            i = i + 1;
        }
        (true_idxs, false_idxs)
    }
}

impl AlgebraicImmunity {
    /// Search the given point set for the minimal-degree annihilator.
    ///
    /// The evaluation matrix grows by one point and one monomial per step,
    /// in universe order.  At the first rank deficiency the first kernel
    /// vector is checked against every point not yet incorporated; if it
    /// vanishes everywhere the degree of the newest monomial is the answer,
    /// and otherwise the first falsifying point is swapped forward so the
    /// next step must account for it.  When the points or the universe run
    /// out, the degree follows from the final matrix's rank: the last
    /// processed monomial if the matrix is rank-deficient, else the next
    /// untried monomial, else the last monomial of the universe.
    #[verifier::loop_isolation(false)]
    pub fn find_min_annihilator(z: Vec<String>, e: Vec<String>) -> (res: Option<usize>)
        requires
            z@.len() >= 1,
            forall|i: int| 0 <= i < z@.len() ==> binstr((#[trigger] z@[i])@),
            forall|i: int| 0 <= i < e@.len() ==> binstr((#[trigger] e@[i])@),
            forall|i: int| 0 <= i < z@.len() ==> (#[trigger] z@[i])@.len() == z@[0]@.len(),
            forall|i: int| 0 <= i < e@.len() ==> (#[trigger] e@[i])@.len() == z@[0]@.len(),
        ensures
            res is Some <==> e@.len() > 0,
            res matches Some(d) ==> exists|t: int|
                0 <= t < e@.len() && d == weight((#[trigger] e@[t])@),
            nondegenerate_universe(z@, e@) ==> res is Some && res.unwrap() >= 1,
    {
        let max_number_of_monimials = e.len();
        if max_number_of_monimials == 0 {
            return None;
        }
        let ghost w = z@[0]@.len();
        let mut z = z;
        let cell = str_ops(z[0].as_str(), e[0].as_str());
        let mut first_row: Vec<u8> = Vec::new();
        first_row.push(cell);
        let mut elements: Vec<Vec<u8>> = Vec::new();
        elements.push(first_row);
        let mut vander_monde = VanderMonde::new(elements);
        let ghost init = vander_monde@;
        proof {
            assert(vander_monde@.len() == 1);
            assert(vander_monde.spec_ncols() == 1);
            assert(vander_monde.wf());
        }
        let mut idx: usize = 0;
        let mut i: usize = 1;
        let mut operations: Vec<(usize, usize)> = Vec::new();
        let n_iters = z.len();
        while i < n_iters && i < max_number_of_monimials
            invariant
                1 <= i <= n_iters,
                i <= max_number_of_monimials,
                idx == i - 1,
                n_iters == z@.len(),
                max_number_of_monimials == e@.len(),
                vander_monde.wf(),
                vander_monde@.len() == i,
                vander_monde.spec_ncols() == i,
                forall|j: int| 0 <= j < z@.len() ==> binstr((#[trigger] z@[j])@),
                forall|j: int| 0 <= j < z@.len() ==> (#[trigger] z@[j])@.len() == w,
                forall|k: int|
                    0 <= k < operations@.len() ==> (#[trigger] operations@[k]).0 < i
                        && operations@[k].1 < i,
                i == 1 ==> vander_monde@ == init,
            decreases n_iters - i,
        {
            let monom_slice = prefix_strings(&e, i + 1);
            let support_slice = prefix_strings(&z, i + 1);
            proof {
                assert forall|j: int| 0 <= j < monom_slice@.len() implies binstr(
                    (#[trigger] monom_slice@[j])@,
                ) by {
                    assert(monom_slice@[j]@ == e@[j]@);
                }
                assert forall|j: int| 0 <= j < support_slice@.len() implies binstr(
                    (#[trigger] support_slice@[j])@,
                ) by {
                    assert(support_slice@[j]@ == z@[j]@);
                }
            }
            vander_monde = vander_monde.compute_next(monom_slice, support_slice, i, copy_ops(
                &operations,
            ));
            let reduced = vander_monde.row_echelon_form();
            vander_monde = reduced.0;
            let operations_i = reduced.1;
            if vander_monde.rank() < i + 1 {
                let kernel = vander_monde.kernel();
                proof {
                    assert(kernel@.len() > 0);
                }
                let k = &kernel[0];
                let g = copy_bits(k);
                let mapping = prefix_strings(&e, i + 1);
                let remaining = suffix_strings(&z, i + 1);
                proof {
                    assert(crate::vandermonde::row_wf(kernel@[0]@, i + 1));
                    assert(g@ == kernel@[0]@);
                    assert forall|j: int| 0 <= j < g@.len() implies is_bit(#[trigger] g@[j]) by {}
                    assert forall|j: int| 0 <= j < g@.len() implies binstr(
                        (#[trigger] mapping@[j])@,
                    ) by {
                        assert(mapping@[j]@ == e@[j]@);
                    }
                    assert forall|j: int| 0 <= j < remaining@.len() implies binstr(
                        (#[trigger] remaining@[j])@,
                    ) by {
                        assert(remaining@[j]@ == z@[i + 1 + j]@);
                    }
                    assert forall|a: int, b: int|
                        #![trigger mapping@[a], remaining@[b]]
                        0 <= a < g@.len() && 0 <= b < remaining@.len() implies mapping@[a]@.len()
                        == remaining@[b]@.len() by {
                        assert(mapping@[a]@ == e@[a]@);
                        assert(remaining@[b]@ == z@[i + 1 + b]@);
                    }
                }
                let outcome = verify(remaining, g, mapping);
                let vanish_on_z = outcome.0;
                let vanish_index_opt = outcome.1;
                if vanish_on_z {
                    return Some(hamming_weight(e[i].as_str()));
                } else if let Some(vanish_index) = vanish_index_opt {
                    let new_index = i + vanish_index.0 + 1;
                    if new_index < z.len() {
                        swap_strings(&mut z, i + 1, new_index);
                    }
                }
            }
            i = i + 1;
            idx = idx + 1;
            extend_ops(&mut operations, operations_i);
        }
        if vander_monde.rank() < i {
            proof {
                if i == 1 && cell == 1 {
                    // a monomial that covers the first point gives the
                    // one-cell starting matrix full rank
                    assert(vander_monde@ == init);
                    assert(init[0] == seq![cell]);
                    assert(seq![cell][0] == 1u8);
                    assert(crate::vandermonde::leading(seq![cell]) == 0);
                    assert(crate::vandermonde::rank_upto(init, 1, 0) == 0);
                    assert(crate::vandermonde::rank_spec(init, 1) == 1);
                    assert(false);
                }
            }
            return Some(hamming_weight(e[idx].as_str()));
        }
        if i < max_number_of_monimials {
            return Some(hamming_weight(e[idx + 1].as_str()));
        }
        Some(hamming_weight(e[max_number_of_monimials - 1].as_str()))
    }
}

impl AlgebraicImmunity {
    /// Algebraic immunity of the Boolean function with the given truth
    /// table over `n` variables.
    ///
    /// The table is split into one-set and zero-set; a constant function
    /// (either set empty) has immunity 0.  Otherwise the annihilator search
    /// runs independently on both sets against the monomial universe up to
    /// degree `(n+1)/2`, in parallel, and the smaller reported degree wins;
    /// the result never exceeds `(n+1)/2`.
    pub fn algebraic_immunity(truth_table: Vec<u8>, n: usize) -> (res: usize)
        requires
            n >= 1,
            truth_table@.len() == pow2(n as nat),
            forall|i: int| 0 <= i < truth_table@.len() ==> is_bit(#[trigger] truth_table@[i]),
        ensures
            res <= (n + 1) / 2,
            (forall|i: int| 0 <= i < truth_table@.len() ==> truth_table@[i] == 0) ==> res == 0,
            (forall|i: int| 0 <= i < truth_table@.len() ==> truth_table@[i] == 1) ==> res == 0,
            ((exists|i: int| 0 <= i < truth_table@.len() && truth_table@[i] == 1) && (exists|
                j: int,
            | 0 <= j < truth_table@.len() && truth_table@[j] == 0)) ==> res >= 1,
    {
        let restricted_ai = Self::new(truth_table);
        let tlen = restricted_ai.truth_table.len();
        proof {
            lemma_pow2_ge(n as nat);
            lemma_set_renders_props(restricted_ai.truth_table@, n as nat, 1, tlen as int);
            lemma_set_renders_props(restricted_ai.truth_table@, n as nat, 0, tlen as int);
        }
        let zs = restricted_ai.compute_z(n);
        let z = zs.0;
        let z_c = zs.1;
        if z.is_empty() || z_c.is_empty() {
            proof {
                let tt = restricted_ai.truth_table@;
                if (exists|i: int| 0 <= i < tt.len() && tt[i] == 1) && (exists|j: int|
                    0 <= j < tt.len() && tt[j] == 0) {
                    let i1 = choose|i: int| 0 <= i < tt.len() && tt[i] == 1;
                    let j0 = choose|j: int| 0 <= j < tt.len() && tt[j] == 0;
                    assert(set_renders(tt, n as nat, 1, tlen as int).len() >= 1);
                    assert(set_renders(tt, n as nat, 0, tlen as int).len() >= 1);
                    assert(z@.len() == str_views(z@).len());
                    assert(z_c@.len() == str_views(z_c@).len());
                    assert(false);
                }
            }
            return 0;
        }
        let r = (n + 1) / 2;
        let e = Self::generate_combinations(n, r);
        proof {
            lemma_monomials_props(n as int, r as int);
        }
        proof {
            assert forall|i: int| 0 <= i < z@.len() implies binstr((#[trigger] z@[i])@)
                && z@[i]@.len() == n by {
                assert(z@[i]@ == str_views(z@)[i]);
            }
            assert forall|i: int| 0 <= i < z_c@.len() implies binstr((#[trigger] z_c@[i])@)
                && z_c@[i]@.len() == n by {
                assert(z_c@[i]@ == str_views(z_c@)[i]);
            }
            assert forall|i: int| 0 <= i < e@.len() implies binstr((#[trigger] e@[i])@)
                && e@[i]@.len() == n by {
                assert(e@[i]@ == str_views(e@)[i]);
                assert(monom_ok(str_views(e@)[i], n as int, r as int));
            }
            lemma_monomials_first(n as int, r as int);
            assert(e@[0]@ == str_views(e@)[0]);
            assert(e@[0]@ == render_subset(Seq::<int>::empty(), n as int));
            assert forall|kk: int| 0 <= kk < e@[0]@.len() implies (#[trigger] e@[0]@[kk])
                != '1' by {
                assert(!Seq::<int>::empty().contains(n as int - 1 - kk));
            }
            assert(crate::vandermonde::covers(z@[0]@, e@[0]@));
            assert(crate::vandermonde::covers(z_c@[0]@, e@[0]@));
            assert forall|t: int| 1 <= t < e@.len() implies weight((#[trigger] e@[t])@) >= 1 by {
                assert(e@[t]@ == str_views(e@)[t]);
            }
            assert(nondegenerate_universe(z@, e@));
            assert(nondegenerate_universe(z_c@, e@));
        }
        let results = search_pair(&z, &e, &z_c);
        let res: usize = match results {
            (Some(a), Some(b)) => if a <= b {
                a
            } else {
                b
            },
            (Some(a), None) => a,
            (None, Some(b)) => b,
            (None, None) => 0,
        };
        proof {
            if results.0 is Some {
                let t = choose|t: int|
                    0 <= t < e@.len() && results.0.unwrap() == weight((#[trigger] e@[t])@);
                assert(e@[t]@ == str_views(e@)[t]);
                assert(monom_ok(str_views(e@)[t], n as int, r as int));
            }
            if results.1 is Some {
                let t = choose|t: int|
                    0 <= t < e@.len() && results.1.unwrap() == weight((#[trigger] e@[t])@);
                assert(e@[t]@ == str_views(e@)[t]);
                assert(monom_ok(str_views(e@)[t], n as int, r as int));
            }
        }
        res
    }
}

/// Run the annihilator search on the one-set and the zero-set in parallel.
///
/// Relies on rayon's `join`: it runs the two closures to completion on
/// worker threads and returns their two results as a pair.  Each closure
/// only hands a copy of one point set and of the universe to this crate's
/// `find_min_annihilator`, so each half of the pair satisfies exactly that
/// function's contract.
#[verifier::external_body]
fn search_pair(z: &Vec<String>, e: &Vec<String>, z_c: &Vec<String>) -> (r: (
    Option<usize>,
    Option<usize>,
))
    requires
        z@.len() >= 1,
        z_c@.len() >= 1,
        forall|i: int| 0 <= i < z@.len() ==> binstr((#[trigger] z@[i])@),
        forall|i: int| 0 <= i < z_c@.len() ==> binstr((#[trigger] z_c@[i])@),
        forall|i: int| 0 <= i < e@.len() ==> binstr((#[trigger] e@[i])@),
        forall|i: int| 0 <= i < z@.len() ==> (#[trigger] z@[i])@.len() == z@[0]@.len(),
        forall|i: int| 0 <= i < e@.len() ==> (#[trigger] e@[i])@.len() == z@[0]@.len(),
        forall|i: int| 0 <= i < z_c@.len() ==> (#[trigger] z_c@[i])@.len() == z_c@[0]@.len(),
        forall|i: int| 0 <= i < e@.len() ==> (#[trigger] e@[i])@.len() == z_c@[0]@.len(),
    ensures
        r.0 is Some <==> e@.len() > 0,
        r.0 matches Some(d) ==> exists|t: int|
            0 <= t < e@.len() && d == weight((#[trigger] e@[t])@),
        r.1 is Some <==> e@.len() > 0,
        r.1 matches Some(d) ==> exists|t: int|
            0 <= t < e@.len() && d == weight((#[trigger] e@[t])@),
        nondegenerate_universe(z@, e@) ==> r.0 is Some && r.0.unwrap() >= 1,
        nondegenerate_universe(z_c@, e@) ==> r.1 is Some && r.1.unwrap() >= 1,
{
    rayon::join(
        || AlgebraicImmunity::find_min_annihilator(z.clone(), e.clone()),
        || AlgebraicImmunity::find_min_annihilator(z_c.clone(), e.clone()),
    )
}

/// Entrywise copy of a bit vector.
fn copy_bits(v: &Vec<u8>) -> (r: Vec<u8>)
    ensures
        r@ == v@,
{
    let n = v.len();
    let mut r: Vec<u8> = Vec::new();
    let mut i: usize = 0;
    while i < n
        invariant
            i <= n,
            n == v@.len(),
            r@ == v@.subrange(0, i as int),
        decreases n - i,
    {
        r.push(v[i]);
        proof {
            assert(r@ =~= v@.subrange(0, i + 1));
        }
        i = i + 1;
    }
    proof {
        assert(v@.subrange(0, n as int) =~= v@);
    }
    r
}

/// First `k` strings of a list, copied.
fn prefix_strings(v: &Vec<String>, k: usize) -> (r: Vec<String>)
    requires
        k <= v@.len(),
    ensures
        r@.len() == k,
        forall|j: int| 0 <= j < k ==> (#[trigger] r@[j])@ == v@[j]@,
{
    let mut r: Vec<String> = Vec::new();
    let mut i: usize = 0;
    while i < k
        invariant
            i <= k,
            k <= v@.len(),
            r@.len() == i,
            forall|j: int| 0 <= j < i ==> (#[trigger] r@[j])@ == v@[j]@,
        decreases k - i,
    {
        r.push(v[i].clone());
        i = i + 1;
    }
    r
}

/// The strings of a list from position `from` on, copied.
fn suffix_strings(v: &Vec<String>, from: usize) -> (r: Vec<String>)
    requires
        from <= v@.len(),
    ensures
        r@.len() == v@.len() - from,
        forall|j: int| 0 <= j < r@.len() ==> (#[trigger] r@[j])@ == v@[from + j]@,
{
    let n = v.len();
    let mut r: Vec<String> = Vec::new();
    let mut i: usize = from;
    while i < n
        invariant
            from <= i <= n,
            n == v@.len(),
            r@.len() == i - from,
            forall|j: int| 0 <= j < r@.len() ==> (#[trigger] r@[j])@ == v@[from + j]@,
        decreases n - i,
    {
        r.push(v[i].clone());
        i = i + 1;
    }
    r
}

/// Copy of an operation log.
fn copy_ops(v: &Vec<(usize, usize)>) -> (r: Vec<(usize, usize)>)
    ensures
        r@ == v@,
{
    let n = v.len();
    let mut r: Vec<(usize, usize)> = Vec::new();
    let mut i: usize = 0;
    while i < n
        invariant
            i <= n,
            n == v@.len(),
            r@ == v@.subrange(0, i as int),
        decreases n - i,
    {
        r.push(v[i]);
        proof {
            assert(r@ =~= v@.subrange(0, i + 1));
        }
        i = i + 1;
    }
    proof {
        assert(v@.subrange(0, n as int) =~= v@);
    }
    r
}

/// Append a fresh log fragment to the running log.
fn extend_ops(dst: &mut Vec<(usize, usize)>, src: Vec<(usize, usize)>)
    ensures
        final(dst)@ == old(dst)@ + src@,
{
    let n = src.len();
    let mut i: usize = 0;
    while i < n
        invariant
            i <= n,
            n == src@.len(),
            dst@ == old(dst)@ + src@.subrange(0, i as int),
        decreases n - i,
    {
        dst.push(src[i]);
        proof {
            assert(dst@ =~= old(dst)@ + src@.subrange(0, i + 1));
        }
        i = i + 1;
    }
    proof {
        assert(old(dst)@ + src@.subrange(0, n as int) =~= old(dst)@ + src@);
    }
}

/// Exchange two strings of a list.
fn swap_strings(v: &mut Vec<String>, a: usize, b: usize)
    requires
        a < old(v)@.len(),
        b < old(v)@.len(),
    ensures
        final(v)@.len() == old(v)@.len(),
        final(v)@[a as int]@ == old(v)@[b as int]@,
        final(v)@[b as int]@ == old(v)@[a as int]@,
        forall|j: int|
            0 <= j < old(v)@.len() && j != a && j != b ==> (#[trigger] final(v)@[j])@ == old(
                v,
            )@[j]@,
{
    let sa = v[a].clone();
    let sb = v[b].clone();
    v[a] = sb;
    v[b] = sa;
}

/// Width-`n` binary rendering of `i`, most significant digit first.
fn to_bin(i: usize, n: usize) -> (s: String)
    ensures
        s@ == bin_render(i as int, n as nat),
    decreases n,
{
    if n == 0 {
        String::new()
    } else {
        let mut s = to_bin(i / 2, n - 1);
        proof {
            reveal_strlit("0");
            reveal_strlit("1");
        }
        if i % 2 == 1 {
            s.append("1");
        } else {
            s.append("0");
        }
        proof {
            assert(s@ =~= bin_render(i as int, n as nat));
        }
        s
    }
}

} // verus!
