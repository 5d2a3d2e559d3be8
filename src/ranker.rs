//! GF2 rank by sparse Gaussian elimination, with a reusable workspace.
//!
//! Rows are reduced one after the other against the pivot rows found so far,
//! each pivot keyed by its leading (smallest) column. A row that reduces to
//! nothing is dependent; otherwise it becomes the pivot of its leading column.

use vstd::prelude::*;

use crate::matrix::{bounded, strictly_sorted, ParityCheckMatrix};

verus! {

/// The dense form over `n` columns of a set of columns.
pub open spec fn dense(s: Seq<usize>, n: nat) -> Seq<bool> {
    Seq::new(n, |c: int| s.contains(c as usize))
}

/// The dense rows of `checks` over `n` columns.
pub open spec fn dense_rows(checks: Seq<Seq<usize>>, n: nat) -> Seq<Seq<bool>> {
    Seq::new(checks.len(), |i: int| dense(checks[i], n))
}

/// The sum over GF2 of two dense rows.
pub open spec fn xor_rows(a: Seq<bool>, b: Seq<bool>) -> Seq<bool> {
    Seq::new(a.len(), |c: int| a[c] != b[c])
}

/// A table of `n` empty rows of `n` columns.
pub open spec fn no_pivots(n: nat) -> Seq<Seq<bool>> {
    Seq::new(n, |c: int| Seq::new(n, |d: int| false))
}

/// Reduces `row`, from column `c` on, against the pivot table `piv`, in which
/// `piv[c]` is the pivot whose leading column is `c` when `piv[c][c]` holds.
/// Stops at the first set column that has no pivot.
pub open spec fn reduce(row: Seq<bool>, piv: Seq<Seq<bool>>, c: nat) -> Seq<bool>
    decreases row.len() - c,
{
    if c >= row.len() {
        row
    } else if row[c as int] {
        if piv[c as int][c as int] {
            reduce(xor_rows(row, piv[c as int]), piv, c + 1)
        } else {
            row
        }
    } else {
        reduce(row, piv, c + 1)
    }
}

/// The first set column of `row` from `c` on.
pub open spec fn first_set(row: Seq<bool>, c: nat) -> Option<nat>
    decreases row.len() - c,
{
    if c >= row.len() {
        None
    } else if row[c as int] {
        Some(c)
    } else {
        first_set(row, c + 1)
    }
}

/// The pivot table and the number of pivots after eliminating `rows` in order.
pub open spec fn eliminate(rows: Seq<Seq<bool>>, n: nat) -> (Seq<Seq<bool>>, nat)
    decreases rows.len(),
{
    if rows.len() == 0 {
        (no_pivots(n), 0)
    } else {
        let (piv, rank) = eliminate(rows.drop_last(), n);
        let red = reduce(rows.last(), piv, 0);
        match first_set(red, 0) {
            Some(l) => (piv.update(l as int, red), rank + 1),
            None => (piv, rank),
        }
    }
}

/// The GF2 rank of the matrix whose rows are `checks` over `n` columns: the
/// number of pivots that Gaussian elimination finds.
pub open spec fn gf2_rank(checks: Seq<Seq<usize>>, n: nat) -> nat {
    eliminate(dense_rows(checks, n), n).1
}

proof fn lemma_first_set(row: Seq<bool>, c: nat, l: nat)
    requires
        c <= l <= row.len(),
        forall|d: int| c <= d < l ==> !row[d],
    ensures
        l < row.len() && row[l as int] ==> first_set(row, c) == Some(l),
        l == row.len() ==> first_set(row, c) is None,
    decreases l - c,
{
    if c < l {
        lemma_first_set(row, c + 1, l);
    }
}

proof fn lemma_reduce_stops(row: Seq<bool>, piv: Seq<Seq<bool>>, c: nat, l: nat)
    requires
        c <= l < row.len(),
        forall|d: int| c <= d < l ==> !row[d],
        row[l as int],
        !piv[l as int][l as int],
    ensures
        reduce(row, piv, c) == row,
    decreases l - c,
{
    if c < l {
        lemma_reduce_stops(row, piv, c + 1, l);
    }
}

/// Reusable scratch space of the rank computation: one slot per column for a
/// pivot row, and one dense row. Clean between uses.
#[derive(Debug)]
pub struct Ressources {
    rank_mtx: Vec<Vec<usize>>,
    sum_vec: Vec<bool>,
}

impl Ressources {
    /// The number of columns that `self` serves.
    pub closed spec fn size(&self) -> nat {
        self.sum_vec@.len()
    }

    /// `true` when `self` holds no pivot and an empty dense row.
    pub closed spec fn clean(&self) -> bool {
        &&& self.rank_mtx@.len() == self.sum_vec@.len()
        &&& forall|c: int| 0 <= c < self.sum_vec@.len() ==> !self.sum_vec@[c]
        &&& forall|c: int| 0 <= c < self.rank_mtx@.len() ==> (#[trigger] self.rank_mtx@[c])@.len() == 0
    }

    /// Creates a clean workspace for matrices of `n_bits` bits.
    pub fn with_n_bits(n_bits: usize) -> (r: Self)
        ensures
            r.clean(),
            r.size() == n_bits,
    {
        let mut rank_mtx: Vec<Vec<usize>> = Vec::new();
        let mut sum_vec: Vec<bool> = Vec::new();
        let mut c: usize = 0;
        while c < n_bits
            invariant
                c <= n_bits,
                rank_mtx@.len() == c,
                sum_vec@.len() == c,
                forall|d: int| 0 <= d < c ==> !sum_vec@[d],
                forall|d: int| 0 <= d < c ==> (#[trigger] rank_mtx@[d])@.len() == 0,
            decreases n_bits - c,
        {
            rank_mtx.push(Vec::new());
            sum_vec.push(false);
            c = c + 1;
        }
        Ressources { rank_mtx, sum_vec }
    }
}

/// Adds the row `row` (a set of columns below the length of `sum`) to the dense row `sum`.
fn toggle(sum: &mut Vec<bool>, row: &[usize])
    requires
        strictly_sorted(row@),
        bounded(row@, old(sum)@.len()),
        old(sum)@.len() <= usize::MAX,
    ensures
        final(sum)@ == xor_rows(old(sum)@, dense(row@, old(sum)@.len())),
{
    let ghost s0 = sum@;
    let ghost n = s0.len();
    let mut k: usize = 0;
    while k < row.len()
        invariant
            k <= row@.len(),
            strictly_sorted(row@),
            bounded(row@, n),
            n == s0.len(),
            n <= usize::MAX,
            sum@ == xor_rows(s0, dense(row@.subrange(0, k as int), n)),
        decreases row@.len() - k,
    {
        let b = row[k];
        let v = sum[b];
        sum[b] = !v;
        k = k + 1;
        assert forall|c: int| 0 <= c < n implies sum@[c] == xor_rows(s0, dense(row@.subrange(0, k as int), n))[c] by {
            let p = row@.subrange(0, k - 1);
            let q = row@.subrange(0, k as int);
            assert(q =~= p.push(b));
            if c == b as int {
                assert(q[k - 1] == b);
                if p.contains(b) {
                    let t = choose|t: int| 0 <= t < p.len() && p[t] == b;
                    assert(row@[t] < row@[k - 1]);
                }
            } else {
                if q.contains(c as usize) {
                    let t = choose|t: int| 0 <= t < q.len() && q[t] == c as usize;
                    if t < k - 1 {
                        assert(p[t] == c as usize);
                    }
                }
                if p.contains(c as usize) {
                    let t = choose|t: int| 0 <= t < p.len() && p[t] == c as usize;
                    assert(q[t] == c as usize);
                }
            }
        }
        assert(sum@ =~= xor_rows(s0, dense(row@.subrange(0, k as int), n)));
    }
    assert(row@.subrange(0, k as int) =~= row@);
}

/// The relation between the sparse pivot slots and the dense pivot table.
pub open spec fn pivots_match(slots: Seq<Vec<usize>>, piv: Seq<Seq<bool>>, n: nat) -> bool {
    &&& slots.len() == n
    &&& piv.len() == n
    &&& forall|c: int|
        0 <= c < n ==> {
            let s = (#[trigger] slots[c])@;
            &&& strictly_sorted(s)
            &&& bounded(s, n)
            &&& (s.len() > 0 ==> s[0] == c)
            &&& piv[c] == dense(s, n)
        }
}

impl ParityCheckMatrix {
    /// Computes the rank of `self`.
    pub fn get_rank(&self) -> (r: usize)
        requires
            self.wf(),
        ensures
            r == gf2_rank(self.checks(), self.spec_n_bits()),
    {
        let mut ressources = Ressources::with_n_bits(self.get_n_bits());
        self.rank_mut(&mut ressources)
    }

    /// Computes the rank of `self` in the workspace `ressources`, which is
    /// left clean for the next call.
    pub fn rank_mut(&self, ressources: &mut Ressources) -> (r: usize)
        requires
            self.wf(),
            old(ressources).clean(),
            old(ressources).size() == self.spec_n_bits(),
        ensures
            r == gf2_rank(self.checks(), self.spec_n_bits()),
            final(ressources).clean(),
            final(ressources).size() == old(ressources).size(),
    {
        let ghost cs = self.checks();
        let n = self.get_n_bits();
        let ghost nn = n as nat;
        let nc = self.get_n_checks();
        let mut rank: usize = 0;
        let ghost mut piv = no_pivots(nn);
        proof {
            assert forall|c: int| 0 <= c < n implies piv[c] == dense(
                (#[trigger] ressources.rank_mtx@[c])@,
                nn,
            ) by {
                assert(piv[c] =~= dense(ressources.rank_mtx@[c]@, nn));
            }
            assert(dense_rows(cs.subrange(0, 0), nn) =~= Seq::<Seq<bool>>::empty());
        }
        let mut i: usize = 0;
        while i < nc
            invariant
                self.wf(),
                cs == self.checks(),
                nc == cs.len(),
                n == self.spec_n_bits(),
                nn == n,
                i <= nc,
                rank <= i,
                ressources.sum_vec@.len() == n,
                forall|c: int| 0 <= c < n ==> !ressources.sum_vec@[c],
                pivots_match(ressources.rank_mtx@, piv, nn),
                eliminate(dense_rows(cs.subrange(0, i as int), nn), nn) == (piv, rank as nat),
            decreases nc - i,
        {
            let check = self.get_check(i).unwrap();
            let bits = check.as_ref();
            assert(self.spec_check(i as int) == cs[i as int]);
            let ghost row = dense(cs[i as int], nn);
            toggle(&mut ressources.sum_vec, bits);
            assert(ressources.sum_vec@ =~= row);
            let mut c: usize = 0;
            let mut lead: usize = n;
            while lead == n && c < n
                invariant
                    n == nn,
                    c <= n,
                    ressources.sum_vec@.len() == n,
                    pivots_match(ressources.rank_mtx@, piv, nn),
                    forall|d: int| 0 <= d < c ==> !ressources.sum_vec@[d],
                    reduce(ressources.sum_vec@, piv, c as nat) == reduce(row, piv, 0),
                    lead == n || (lead == c && c < n && ressources.sum_vec@[c as int] && !piv[c as int][c as int]),
                decreases (n - c) + (if lead == n { 1int } else { 0int }),
            {
                if ressources.sum_vec[c] {
                    if ressources.rank_mtx[c].len() > 0 {
                        assert(ressources.rank_mtx@[c as int]@[0] == c);
                        assert(piv[c as int][c as int]);
                        toggle(&mut ressources.sum_vec, ressources.rank_mtx[c].as_slice());
                        assert forall|d: int| 0 <= d <= c implies !ressources.sum_vec@[d] by {
                            let s = ressources.rank_mtx@[c as int]@;
                            if d < c && s.contains(d as usize) {
                                let t = choose|t: int| 0 <= t < s.len() && s[t] == d as usize;
                                if t > 0 {
                                    assert(s[0] < s[t]);
                                }
                            }
                        }
                        c = c + 1;
                    } else {
                        assert(!piv[c as int][c as int]) by {
                            let s = ressources.rank_mtx@[c as int]@;
                            assert(piv[c as int] == dense(s, nn));
                            if piv[c as int][c as int] {
                                assert(s.contains(c));
                            }
                        }
                        lead = c;
                    }
                } else {
                    c = c + 1;
                }
            }
            let ghost red = reduce(row, piv, 0);
            if lead < n {
                proof {
                    assert(reduce(ressources.sum_vec@, piv, lead as nat) == ressources.sum_vec@);
                    lemma_first_set(red, 0, lead as nat);
                }
                let ghost rm0 = ressources.rank_mtx@;
                let mut new_row: Vec<usize> = Vec::new();
                let mut d: usize = lead;
                while d < n
                    invariant
                        n == nn,
                        lead < n,
                        lead <= d <= n,
                        ressources.rank_mtx@ == rm0,
                        red.len() == n,
                        red[lead as int],
                        forall|e: int| 0 <= e < lead ==> !red[e],
                        ressources.sum_vec@.len() == n,
                        forall|e: int| 0 <= e < d ==> !ressources.sum_vec@[e],
                        forall|e: int| d <= e < n ==> ressources.sum_vec@[e] == red[e],
                        strictly_sorted(new_row@),
                        forall|t: int| 0 <= t < new_row@.len() ==> lead <= #[trigger] new_row@[t] < d,
                        d > lead ==> new_row@.len() > 0 && new_row@[0] == lead,
                        forall|e: int| lead <= e < d ==> (new_row@.contains(e as usize) == red[e]),
                    decreases n - d,
                {
                    let ghost r0 = new_row@;
                    if ressources.sum_vec[d] {
                        new_row.push(d);
                        ressources.sum_vec.set(d, false);
                    }
                    d = d + 1;
                    assert forall|e: int| lead <= e < d implies (new_row@.contains(e as usize) == red[e]) by {
                        if e < d - 1 {
                            if new_row@.contains(e as usize) {
                                let t = choose|t: int| 0 <= t < new_row@.len() && new_row@[t] == e as usize;
                                if t < r0.len() {
                                    assert(r0[t] == e as usize);
                                }
                            }
                            if r0.contains(e as usize) {
                                let t = choose|t: int| 0 <= t < r0.len() && r0[t] == e as usize;
                                assert(new_row@[t] == e as usize);
                            }
                        } else {
                            if red[e] {
                                assert(new_row@[new_row@.len() - 1] == e as usize);
                            } else if new_row@.contains(e as usize) {
                                let t = choose|t: int| 0 <= t < new_row@.len() && new_row@[t] == e as usize;
                                assert(r0[t] < d - 1);
                            }
                        }
                    }
                }
                assert(dense(new_row@, nn) =~= red) by {
                    assert forall|e: int| 0 <= e < n implies dense(new_row@, nn)[e] == red[e] by {
                        if e < lead && new_row@.contains(e as usize) {
                            let t = choose|t: int| 0 <= t < new_row@.len() && new_row@[t] == e as usize;
                        }
                    }
                }
                assert(new_row@.len() > 0 && new_row@[0] == lead);
                assert(bounded(new_row@, nn));
                let ghost nr = new_row@;
                ressources.rank_mtx.set(lead, new_row);
                proof {
                    let piv0 = piv;
                    piv = piv.update(lead as int, red);
                    assert forall|c: int| 0 <= c < n implies {
                        let s = (#[trigger] ressources.rank_mtx@[c])@;
                        &&& strictly_sorted(s)
                        &&& bounded(s, nn)
                        &&& (s.len() > 0 ==> s[0] == c)
                        &&& piv[c] == dense(s, nn)
                    } by {
                        if c == lead as int {
                            assert(ressources.rank_mtx@[c]@ == nr);
                        } else {
                            assert(ressources.rank_mtx@[c] == rm0[c]);
                        }
                    }
                }
                rank = rank + 1;
            } else {
                proof {
                    assert(reduce(ressources.sum_vec@, piv, n as nat) == ressources.sum_vec@);
                    lemma_first_set(red, 0, nn);
                }
            }
            proof {
                let rows = dense_rows(cs.subrange(0, i + 1), nn);
                assert(rows.drop_last() =~= dense_rows(cs.subrange(0, i as int), nn));
                assert(rows.last() == row);
            }
            i = i + 1;
        }
        assert(cs.subrange(0, nc as int) =~= cs);
        let mut c: usize = 0;
        while c < n
            invariant
                c <= n,
                ressources.rank_mtx@.len() == n,
                ressources.sum_vec@.len() == n,
                forall|d: int| 0 <= d < n ==> !ressources.sum_vec@[d],
                forall|d: int| 0 <= d < c ==> (#[trigger] ressources.rank_mtx@[d])@.len() == 0,
            decreases n - c,
        {
            ressources.rank_mtx.set(c, Vec::new());
            c = c + 1;
        }
        rank
    }
}

/// The checks of the `n`-bit identity matrix.
pub open spec fn identity_checks(n: nat) -> Seq<Seq<usize>> {
    Seq::new(n, |i: int| seq![i as usize])
}

/// The pivot table after eliminating the first `k` rows of the `n`-bit identity.
spec fn identity_pivots(n: nat, k: nat) -> Seq<Seq<bool>> {
    Seq::new(
        n,
        |c: int|
            if c < k {
                dense(seq![c as usize], n)
            } else {
                Seq::new(n, |d: int| false)
            },
    )
}

proof fn lemma_identity_prefix(n: nat, k: nat)
    requires
        k <= n <= usize::MAX,
    ensures
        eliminate(dense_rows(identity_checks(k), n), n) == (identity_pivots(n, k), k),
    decreases k,
{
    let rows = dense_rows(identity_checks(k), n);
    if k == 0 {
        assert(rows =~= Seq::<Seq<bool>>::empty());
        assert(identity_pivots(n, 0) =~= no_pivots(n));
    } else {
        lemma_identity_prefix(n, (k - 1) as nat);
        assert(rows.drop_last() =~= dense_rows(identity_checks((k - 1) as nat), n));
        let l = (k - 1) as nat;
        let e = rows.last();
        let piv = identity_pivots(n, l);
        assert(e == dense(seq![l as usize], n));
        assert forall|d: int| 0 <= d < n implies e[d] == (d == l) by {
            let one = seq![l as usize];
            if one.contains(d as usize) {
                let t = choose|t: int| 0 <= t < one.len() && one[t] == d as usize;
            }
            if d == l {
                assert(one[0] == d as usize);
            }
        }
        lemma_reduce_stops(e, piv, 0, l);
        lemma_first_set(e, 0, l);
        assert(piv.update(l as int, e) =~= identity_pivots(n, k));
    }
}

/// The `n`-bit identity has `n` checks, each of one bit, and rank `n`.
pub proof fn lemma_identity_rank(n: nat)
    requires
        n < usize::MAX,
    ensures
        identity_checks(n).len() == n,
        forall|i: int| 0 <= i < n ==> (#[trigger] identity_checks(n)[i]).len() == 1,
        gf2_rank(identity_checks(n), n) == n,
{
    lemma_identity_prefix(n, n);
}

/// The number of columns `c < k` that hold a pivot in `piv`.
spec fn n_pivots(piv: Seq<Seq<bool>>, k: nat) -> nat
    decreases k,
{
    if k == 0 {
        0
    } else {
        n_pivots(piv, (k - 1) as nat) + if piv[k - 1][k - 1] {
            1nat
        } else {
            0nat
        }
    }
}

/// The shape of a pivot table over `n` columns: the pivot of column `c`, when
/// there is one, has no set column before `c`.
spec fn pivot_table(piv: Seq<Seq<bool>>, n: nat) -> bool {
    &&& piv.len() == n
    &&& forall|c: int| 0 <= c < n ==> (#[trigger] piv[c]).len() == n
    &&& forall|c: int, d: int| 0 <= d < c < n && piv[c][c] ==> !(#[trigger] piv[c][d])
}

proof fn lemma_n_pivots_le(piv: Seq<Seq<bool>>, k: nat)
    ensures
        n_pivots(piv, k) <= k,
    decreases k,
{
    if k > 0 {
        lemma_n_pivots_le(piv, (k - 1) as nat);
    }
}

proof fn lemma_n_pivots_update(piv: Seq<Seq<bool>>, l: int, r: Seq<bool>, k: nat)
    requires
        0 <= l < piv.len(),
        k <= piv.len(),
        !piv[l][l],
        r.len() > l,
        r[l],
    ensures
        n_pivots(piv.update(l, r), k) == n_pivots(piv, k) + if l < k {
            1nat
        } else {
            0nat
        },
    decreases k,
{
    if k > 0 {
        lemma_n_pivots_update(piv, l, r, (k - 1) as nat);
    }
}

proof fn lemma_first_set_found(row: Seq<bool>, c: nat, l: nat)
    requires
        first_set(row, c) == Some(l),
    ensures
        c <= l < row.len(),
        row[l as int],
        forall|d: int| c <= d < l ==> !row[d],
    decreases row.len() - c,
{
    if c < row.len() && !row[c as int] {
        lemma_first_set_found(row, c + 1, l);
    }
}

proof fn lemma_reduce_lands_off_pivots(row: Seq<bool>, piv: Seq<Seq<bool>>, n: nat, c: nat)
    requires
        pivot_table(piv, n),
        row.len() == n,
        c <= n,
        forall|d: int| 0 <= d < c ==> !row[d],
    ensures
        reduce(row, piv, c).len() == n,
        first_set(reduce(row, piv, c), 0) matches Some(l) ==> !piv[l as int][l as int],
    decreases n - c,
{
    if c >= n {
        lemma_first_set(row, 0, n);
    } else if row[c as int] {
        if piv[c as int][c as int] {
            let x = xor_rows(row, piv[c as int]);
            assert forall|d: int| 0 <= d < c + 1 implies !x[d] by {
                if d < c {
                    assert(!piv[c as int][d]);
                }
            }
            lemma_reduce_lands_off_pivots(x, piv, n, c + 1);
        } else {
            lemma_first_set(row, 0, c);
        }
    } else {
        lemma_reduce_lands_off_pivots(row, piv, n, c + 1);
    }
}

proof fn lemma_eliminate_shape(rows: Seq<Seq<bool>>, n: nat)
    requires
        forall|i: int| 0 <= i < rows.len() ==> (#[trigger] rows[i]).len() == n,
    ensures
        pivot_table(eliminate(rows, n).0, n),
        eliminate(rows, n).1 == n_pivots(eliminate(rows, n).0, n),
        eliminate(rows, n).1 <= rows.len(),
    decreases rows.len(),
{
    if rows.len() == 0 {
        lemma_no_pivots_count(n, n);
    } else {
        lemma_eliminate_shape(rows.drop_last(), n);
        let (piv, rank) = eliminate(rows.drop_last(), n);
        let red = reduce(rows.last(), piv, 0);
        lemma_reduce_lands_off_pivots(rows.last(), piv, n, 0);
        if let Some(l) = first_set(red, 0) {
            lemma_first_set_found(red, 0, l);
            lemma_n_pivots_update(piv, l as int, red, n);
            let p2 = piv.update(l as int, red);
            assert forall|c: int, d: int| 0 <= d < c < n && p2[c][c] implies !(#[trigger] p2[c][d]) by {
                if c != l {
                    assert(p2[c] == piv[c]);
                }
            }
        }
    }
}

proof fn lemma_no_pivots_count(n: nat, k: nat)
    requires
        k <= n,
    ensures
        n_pivots(no_pivots(n), k) == 0,
    decreases k,
{
    if k > 0 {
        lemma_no_pivots_count(n, (k - 1) as nat);
    }
}

/// The rank is at most the number of checks and at most the number of bits.
pub proof fn lemma_rank_bounds(checks: Seq<Seq<usize>>, n: nat)
    ensures
        gf2_rank(checks, n) <= checks.len(),
        gf2_rank(checks, n) <= n,
{
    let rows = dense_rows(checks, n);
    lemma_eliminate_shape(rows, n);
    lemma_n_pivots_le(eliminate(rows, n).0, n);
}

} // verus!
