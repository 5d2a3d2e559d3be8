//! A sparse parity-check matrix over GF2, stored as one flat array of bit
//! indices and a table of offsets that delimits each check.

use vstd::prelude::*;

use crate::gf2::GF2;

verus! {

/// `true` when the elements of `s` are in strictly increasing order.
pub open spec fn strictly_sorted(s: Seq<usize>) -> bool {
    forall|i: int, j: int| 0 <= i < j < s.len() ==> s[i] < s[j]
}

/// `true` when every element of `s` is below `n`.
pub open spec fn bounded(s: Seq<usize>, n: nat) -> bool {
    forall|i: int| 0 <= i < s.len() ==> s[i] < n
}

/// The members of `raw` below `k`, in increasing order and without repetition.
pub open spec fn members_below(raw: Seq<usize>, k: nat) -> Seq<usize>
    decreases k,
{
    if k == 0 {
        seq![]
    } else {
        let prev = members_below(raw, (k - 1) as nat);
        if raw.contains((k - 1) as usize) {
            prev.push((k - 1) as usize)
        } else {
            prev
        }
    }
}

/// The checks that a list of raw checks over `n` bits is stored as: each one
/// sorted and deduplicated, the empty ones left out.
pub open spec fn stored_checks(raws: Seq<Seq<usize>>, n: nat) -> Seq<Seq<usize>>
    decreases raws.len(),
{
    if raws.len() == 0 {
        seq![]
    } else {
        let prev = stored_checks(raws.drop_last(), n);
        let c = members_below(raws.last(), n);
        if c.len() > 0 {
            prev.push(c)
        } else {
            prev
        }
    }
}

/// The indices `j < k` of the checks among `checks` that hold bit `c`, in increasing order.
pub open spec fn incident(checks: Seq<Seq<usize>>, c: usize, k: nat) -> Seq<usize>
    decreases k,
{
    if k == 0 {
        seq![]
    } else {
        let prev = incident(checks, c, (k - 1) as nat);
        if checks[k - 1].contains(c) {
            prev.push((k - 1) as usize)
        } else {
            prev
        }
    }
}

/// The checks of the transpose of a matrix with checks `checks` over `n` bits.
pub open spec fn transposed_checks(checks: Seq<Seq<usize>>, n: nat) -> Seq<Seq<usize>> {
    Seq::new(n, |c: int| incident(checks, c as usize, checks.len()))
}

/// `s` with `k` added to each element.
pub open spec fn shifted(s: Seq<usize>, k: nat) -> Seq<usize> {
    s.map_values(|b: usize| (b + k) as usize)
}

/// The elements of `check` that occur in `bits`, in the order of `check`.
pub open spec fn kept(check: Seq<usize>, bits: Seq<usize>) -> Seq<usize>
    decreases check.len(),
{
    if check.len() == 0 {
        seq![]
    } else {
        let prev = kept(check.drop_last(), bits);
        if bits.contains(check.last()) {
            prev.push(check.last())
        } else {
            prev
        }
    }
}

/// The checks of a projection onto `bits`: each check restricted to `bits`,
/// the ones left empty dropped.
pub open spec fn kept_checks(checks: Seq<Seq<usize>>, bits: Seq<usize>) -> Seq<Seq<usize>>
    decreases checks.len(),
{
    if checks.len() == 0 {
        seq![]
    } else {
        let prev = kept_checks(checks.drop_last(), bits);
        let c = kept(checks.last(), bits);
        if c.len() > 0 {
            prev.push(c)
        } else {
            prev
        }
    }
}

/// The parity of the number of ones that `message` holds at the positions of `check`.
pub open spec fn parity(check: Seq<usize>, message: Seq<GF2>) -> bool
    decreases check.len(),
{
    if check.len() == 0 {
        false
    } else {
        parity(check.drop_last(), message) != message[check.last() as int].is_one()
    }
}

/// The checks of the horizontal concatenation of `left` (over `nl` bits) with `right`.
pub open spec fn hcat_checks(left: Seq<Seq<usize>>, right: Seq<Seq<usize>>, nl: nat) -> Seq<Seq<usize>> {
    Seq::new(
        left.len(),
        |i: int|
            left[i] + (if i < right.len() {
                shifted(right[i], nl)
            } else {
                Seq::<usize>::empty()
            }),
    )
}

/// The checks of the block-diagonal concatenation of `left` (over `nl` bits) with `right`.
pub open spec fn dcat_checks(left: Seq<Seq<usize>>, right: Seq<Seq<usize>>, nl: nat) -> Seq<Seq<usize>> {
    left + Seq::new(right.len(), |i: int| shifted(right[i], nl))
}

/// The positions below `k` that do not occur in `bits`, in increasing order.
pub open spec fn members_not_in(bits: Seq<usize>, k: nat) -> Seq<usize>
    decreases k,
{
    if k == 0 {
        seq![]
    } else {
        let prev = members_not_in(bits, (k - 1) as nat);
        if bits.contains((k - 1) as usize) {
            prev
        } else {
            prev.push((k - 1) as usize)
        }
    }
}

/// The edges `(check, bit)` of `checks`, ordered by check first.
pub open spec fn edges(checks: Seq<Seq<usize>>) -> Seq<(usize, usize)>
    decreases checks.len(),
{
    if checks.len() == 0 {
        seq![]
    } else {
        edges(checks.drop_last()) + checks.last().map_values(|b: usize| ((checks.len() - 1) as usize, b))
    }
}

/// The raw checks of the circulant matrix of period `l` shifting down by the offsets `offs`.
pub open spec fn circulant_down_rows(offs: Seq<usize>, l: nat) -> Seq<Seq<usize>> {
    Seq::new(l, |i: int| offs.map_values(|j: usize| ((l - j + i) % (l as int)) as usize))
}

/// The raw checks of the circulant matrix of period `l` shifting right by the offsets `offs`.
pub open spec fn circulant_right_rows(offs: Seq<usize>, l: nat) -> Seq<Seq<usize>> {
    Seq::new(l, |i: int| offs.map_values(|j: usize| ((j + i) % (l as int)) as usize))
}

/// The contents of a vector of rows.
pub open spec fn rows_view(v: Seq<Vec<usize>>) -> Seq<Seq<usize>> {
    Seq::new(v.len(), |j: int| v[j]@)
}

/// The sum of the lengths of the sequences in `s`.
pub open spec fn total_len(s: Seq<Seq<usize>>) -> nat
    decreases s.len(),
{
    if s.len() == 0 {
        0
    } else {
        total_len(s.drop_last()) + s.last().len()
    }
}

proof fn lemma_total_len_empty_rows(s: Seq<Seq<usize>>)
    requires
        forall|j: int| 0 <= j < s.len() ==> (#[trigger] s[j]).len() == 0,
    ensures
        total_len(s) == 0,
    decreases s.len(),
{
    if s.len() > 0 {
        lemma_total_len_empty_rows(s.drop_last());
    }
}

proof fn lemma_total_len_prefix(s: Seq<Seq<usize>>, c: int)
    requires
        0 <= c <= s.len(),
    ensures
        total_len(s.subrange(0, c)) <= total_len(s),
    decreases s.len() - c,
{
    if c < s.len() {
        lemma_total_len_prefix(s, c + 1);
        assert(s.subrange(0, c + 1).drop_last() =~= s.subrange(0, c));
    } else {
        assert(s.subrange(0, c) =~= s);
    }
}

proof fn lemma_total_len_push_at(s: Seq<Seq<usize>>, b: int, x: usize)
    requires
        0 <= b < s.len(),
    ensures
        total_len(s.update(b, s[b].push(x))) == total_len(s) + 1,
    decreases s.len(),
{
    let t = s.update(b, s[b].push(x));
    if b == s.len() - 1 {
        assert(t.drop_last() =~= s.drop_last());
    } else {
        lemma_total_len_push_at(s.drop_last(), b, x);
        assert(t.drop_last() =~= s.drop_last().update(b, s[b].push(x)));
    }
}

/// `incident` lists, in increasing order, exactly the checks below `k` that hold `c`.
pub proof fn lemma_incident(checks: Seq<Seq<usize>>, c: usize, k: nat)
    requires
        k <= checks.len(),
        k <= usize::MAX + 1,
    ensures
        strictly_sorted(incident(checks, c, k)),
        bounded(incident(checks, c, k), k),
        incident(checks, c, k).len() <= k,
        forall|x: usize| #[trigger]
            incident(checks, c, k).contains(x) <==> (x < k && checks[x as int].contains(c)),
    decreases k,
{
    if k > 0 {
        let p = incident(checks, c, (k - 1) as nat);
        lemma_incident(checks, c, (k - 1) as nat);
        let q = incident(checks, c, k);
        assert forall|x: usize| #[trigger] q.contains(x) <==> (x < k && checks[x as int].contains(c)) by {
            if checks[k - 1].contains(c) {
                assert(q == p.push((k - 1) as usize));
                if q.contains(x) {
                    let t = choose|t: int| 0 <= t < q.len() && q[t] == x;
                    if t < p.len() {
                        assert(p.contains(x));
                    }
                }
                if x < k && checks[x as int].contains(c) {
                    if x == k - 1 {
                        assert(q[q.len() - 1] == x);
                    } else {
                        assert(p.contains(x));
                        let t = choose|t: int| 0 <= t < p.len() && p[t] == x;
                        assert(q[t] == x);
                    }
                }
            }
        }
    }
}

/// Two strictly increasing sequences with the same members are equal.
pub proof fn lemma_sorted_unique(a: Seq<usize>, b: Seq<usize>)
    requires
        strictly_sorted(a),
        strictly_sorted(b),
        forall|x: usize| a.contains(x) <==> b.contains(x),
    ensures
        a == b,
    decreases a.len() + b.len(),
{
    if a.len() == 0 {
        if b.len() > 0 {
            assert(b.contains(b[0]));
        }
        assert(a =~= b);
    } else if b.len() == 0 {
        assert(a.contains(a[0]));
    } else {
        assert(a.contains(a[0]));
        assert(b.contains(b[0]));
        let ia = choose|t: int| 0 <= t < a.len() && a[t] == b[0];
        let ib = choose|t: int| 0 <= t < b.len() && b[t] == a[0];
        assert(a[0] <= a[ia]);
        assert(b[0] <= b[ib]);
        assert(a[0] == b[0]);
        let a1 = a.drop_first();
        let b1 = b.drop_first();
        assert forall|x: usize| a1.contains(x) <==> b1.contains(x) by {
            if a1.contains(x) {
                let t = choose|t: int| 0 <= t < a1.len() && a1[t] == x;
                assert(a[t + 1] == x);
                assert(a.contains(x));
                let u = choose|u: int| 0 <= u < b.len() && b[u] == x;
                assert(a[0] < a[t + 1]);
                assert(u != 0);
                assert(b1[u - 1] == x);
            }
            if b1.contains(x) {
                let t = choose|t: int| 0 <= t < b1.len() && b1[t] == x;
                assert(b[t + 1] == x);
                assert(b.contains(x));
                let u = choose|u: int| 0 <= u < a.len() && a[u] == x;
                assert(b[0] < b[t + 1]);
                assert(u != 0);
                assert(a1[u - 1] == x);
            }
        }
        lemma_sorted_unique(a1, b1);
        assert(a =~= seq![a[0]] + a1);
        assert(b =~= seq![b[0]] + b1);
    }
}

/// A strictly increasing sequence whose members all occur in `raw` is no longer than `raw`.
proof fn lemma_sorted_subset_len(s: Seq<usize>, raw: Seq<usize>)
    requires
        strictly_sorted(s),
        forall|x: usize| #[trigger] s.contains(x) ==> raw.contains(x),
    ensures
        s.len() <= raw.len(),
{
    assert(s.no_duplicates()) by {
        assert forall|i: int, j: int| 0 <= i < s.len() && 0 <= j < s.len() && i != j implies s[i] != s[j] by {
            if i < j {
                assert(s[i] < s[j]);
            } else {
                assert(s[j] < s[i]);
            }
        }
    }
    s.unique_seq_to_set();
    assert forall|x: usize| s.to_set().contains(x) implies raw.to_set().contains(x) by {
        vstd::set::axiom_set_new(|a: usize| s.contains(a), x);
        vstd::set::axiom_set_new(|a: usize| raw.contains(a), x);
    }
    vstd::seq_lib::seq_to_set_is_finite(raw);
    vstd::set_lib::lemma_len_subset(s.to_set(), raw.to_set());
    raw.lemma_cardinality_of_set();
}

proof fn lemma_total_len_uniform(s: Seq<Seq<usize>>, w: nat)
    requires
        forall|j: int| 0 <= j < s.len() ==> (#[trigger] s[j]).len() == w,
    ensures
        total_len(s) == s.len() * w,
    decreases s.len(),
{
    if s.len() > 0 {
        lemma_total_len_uniform(s.drop_last(), w);
        let n = s.len();
        assert((n - 1) * w + w == n * w) by (nonlinear_arith);
    }
}

/// `members_below` lists, in increasing order, the members of `raw` below `k`.
proof fn lemma_members_below(raw: Seq<usize>, k: nat)
    requires
        k <= usize::MAX + 1,
    ensures
        strictly_sorted(members_below(raw, k)),
        bounded(members_below(raw, k), k),
        forall|x: usize| #[trigger] members_below(raw, k).contains(x) <==> (x < k && raw.contains(x)),
    decreases k,
{
    if k > 0 {
        lemma_members_below(raw, (k - 1) as nat);
        let p = members_below(raw, (k - 1) as nat);
        let q = members_below(raw, k);
        assert forall|x: usize| #[trigger] q.contains(x) <==> (x < k && raw.contains(x)) by {
            if raw.contains((k - 1) as usize) {
                assert(q == p.push((k - 1) as usize));
                if q.contains(x) {
                    let t = choose|t: int| 0 <= t < q.len() && q[t] == x;
                    if t < p.len() {
                        assert(p.contains(x));
                    }
                }
                if x < k && raw.contains(x) {
                    if x == k - 1 {
                        assert(q[q.len() - 1] == x);
                    } else {
                        assert(p.contains(x));
                        let t = choose|t: int| 0 <= t < p.len() && p[t] == x;
                        assert(q[t] == x);
                    }
                }
            }
        }
    }
}

/// The bits of `raw` in increasing order, each once.
fn canonical_check(raw: &Vec<usize>, n: usize) -> (r: Vec<usize>)
    requires
        bounded(raw@, n as nat),
    ensures
        r@ == members_below(raw@, n as nat),
        strictly_sorted(r@),
        bounded(r@, n as nat),
        r@.len() <= raw@.len(),
{
    let mut out: Vec<usize> = Vec::new();
    let mut last: usize = 0;
    let mut done = false;
    while !done
        invariant
            bounded(raw@, n as nat),
            strictly_sorted(out@),
            bounded(out@, n as nat),
            out@.len() <= raw@.len(),
            out@.len() > 0 ==> last == out@[out@.len() - 1],
            forall|x: usize| #[trigger] out@.contains(x) <==> (raw@.contains(x) && out@.len() > 0 && x <= last),
            done ==> forall|x: usize| #[trigger] raw@.contains(x) ==> out@.contains(x),
        decreases raw@.len() + 1 - out@.len() - (if done { 1int } else { 0int }),
    {
        let has_last = out.len() > 0;
        let mut found = false;
        let mut best: usize = 0;
        let mut k: usize = 0;
        while k < raw.len()
            invariant
                k <= raw@.len(),
                has_last == (out@.len() > 0),
                found ==> raw@.contains(best) && (!has_last || best > last),
                forall|t: int| 0 <= t < k && (!has_last || raw@[t] > last) ==> found && best <= raw@[t],
            decreases raw@.len() - k,
        {
            let x = raw[k];
            if !has_last || x > last {
                if !found || x < best {
                    best = x;
                    found = true;
                }
            }
            k = k + 1;
        }
        if found {
            let ghost o = out@;
            out.push(best);
            assert forall|x: usize| #[trigger] out@.contains(x) <==> (raw@.contains(x) && x <= best) by {
                if out@.contains(x) {
                    let t = choose|t: int| 0 <= t < out@.len() && out@[t] == x;
                    if t < o.len() {
                        assert(o.contains(x));
                    }
                }
                if raw@.contains(x) && x <= best {
                    if x == best {
                        assert(out@[o.len() as int] == x);
                    } else {
                        let t = choose|t: int| 0 <= t < raw@.len() && raw@[t] == x;
                        assert(has_last && x <= last);
                        assert(o.contains(x));
                        let u = choose|u: int| 0 <= u < o.len() && o[u] == x;
                        assert(out@[u] == x);
                    }
                }
            }
            proof {
                let b = best;
                assert(raw@.contains(b));
                let t = choose|t: int| 0 <= t < raw@.len() && raw@[t] == b;
                assert(b < n);
                lemma_sorted_subset_len(out@, raw@);
            }
            last = best;
        } else {
            done = true;
            assert forall|x: usize| #[trigger] raw@.contains(x) implies out@.contains(x) by {
                let t = choose|t: int| 0 <= t < raw@.len() && raw@[t] == x;
            }
        }
    }
    proof {
        lemma_members_below(raw@, n as nat);
        assert forall|x: usize| out@.contains(x) <==> members_below(raw@, n as nat).contains(x) by {
            if raw@.contains(x) {
                let t = choose|t: int| 0 <= t < raw@.len() && raw@[t] == x;
            }
        }
        lemma_sorted_unique(out@, members_below(raw@, n as nat));
    }
    out
}

/// Appends the elements of `bits` plus `shift` to `row`.
fn append_shifted(row: &mut Vec<usize>, bits: &[usize], shift: usize, bound: usize)
    requires
        strictly_sorted(old(row)@),
        forall|t: int| 0 <= t < old(row)@.len() ==> old(row)@[t] < shift,
        strictly_sorted(bits@),
        bounded(bits@, bound as nat),
        shift + bound <= usize::MAX,
    ensures
        final(row)@ == old(row)@ + shifted(bits@, shift as nat),
        strictly_sorted(final(row)@),
        bounded(final(row)@, (shift + bound) as nat),
{
    let ghost r0 = row@;
    let mut k: usize = 0;
    while k < bits.len()
        invariant
            k <= bits@.len(),
            strictly_sorted(bits@),
            bounded(bits@, bound as nat),
            shift + bound <= usize::MAX,
            forall|t: int| 0 <= t < r0.len() ==> r0[t] < shift,
            strictly_sorted(r0),
            row@ == r0 + shifted(bits@.subrange(0, k as int), shift as nat),
            strictly_sorted(row@),
            forall|t: int| 0 <= t < row@.len() ==> row@[t] < shift + bound,
            k < bits@.len() ==> forall|t: int| 0 <= t < row@.len() ==> row@[t] < bits@[k as int] + shift,
        decreases bits@.len() - k,
    {
        row.push(bits[k] + shift);
        k = k + 1;
        assert(row@ =~= r0 + shifted(bits@.subrange(0, k as int), shift as nat));
        if k < bits.len() {
            assert(bits@[k - 1] < bits@[k as int]);
        }
    }
    assert(bits@.subrange(0, k as int) =~= bits@);
}

/// `true` when `bits` holds `b`.
fn slice_contains(bits: &[usize], b: usize) -> (r: bool)
    ensures
        r == bits@.contains(b),
{
    let mut k: usize = 0;
    while k < bits.len()
        invariant
            k <= bits@.len(),
            !bits@.subrange(0, k as int).contains(b),
        decreases bits@.len() - k,
    {
        if bits[k] == b {
            assert(bits@[k as int] == b);
            return true;
        }
        k = k + 1;
        assert forall|t: int| 0 <= t < k implies bits@.subrange(0, k as int)[t] != b by {
            if t < k - 1 {
                assert(bits@.subrange(0, k - 1)[t] == bits@[t]);
            }
        }
    }
    assert(bits@.subrange(0, k as int) =~= bits@);
    false
}

/// A borrowed view of one check: its bits in increasing order.
#[derive(Debug, Clone, Copy, PartialEq)]
pub struct CheckView<'a> {
    bits: &'a [usize],
}

impl<'a> CheckView<'a> {
    /// The bits of the check.
    pub closed spec fn view(&self) -> Seq<usize> {
        self.bits@
    }

    /// Creates a view over `bits`.
    pub fn from_slice(bits: &'a [usize]) -> (r: Self)
        ensures
            r.view() == bits@,
    {
        CheckView { bits }
    }

    /// The bits of the check as a slice.
    pub fn as_ref(&self) -> (r: &'a [usize])
        ensures
            r@ == self.view(),
    {
        self.bits
    }

    /// The number of bits in the check.
    pub fn get_n_bits(&self) -> (r: usize)
        ensures
            r == self.view().len(),
    {
        self.bits.len()
    }

    /// The XOR of the values of `message` at the positions of the check.
    pub fn compute_syndrome(&self, message: &[GF2]) -> (r: GF2)
        requires
            bounded(self.view(), message@.len()),
        ensures
            r.is_one() == parity(self.view(), message@),
    {
        let mut acc = GF2::B0;
        let mut k: usize = 0;
        while k < self.bits.len()
            invariant
                k <= self.view().len(),
                bounded(self.view(), message@.len()),
                acc.is_one() == parity(self.view().subrange(0, k as int), message@),
            decreases self.view().len() - k,
        {
            assert(self.view().subrange(0, k + 1).drop_last() =~= self.view().subrange(0, k as int));
            acc = acc.add(message[self.bits[k]]);
            k = k + 1;
        }
        assert(self.view().subrange(0, k as int) =~= self.view());
        acc
    }
}

/// A sparse implementation of a parity check matrix.
#[derive(Debug, Clone, PartialEq)]
pub struct ParityCheckMatrix {
    check_ranges: Vec<usize>,
    bit_indices: Vec<usize>,
    n_bits: usize,
}

impl ParityCheckMatrix {
    /// The offset table: check `i` spans `spec_ranges()[i] .. spec_ranges()[i + 1]`.
    pub closed spec fn spec_ranges(&self) -> Seq<usize> {
        self.check_ranges@
    }

    /// The bit indices of all checks, concatenated in check order.
    pub closed spec fn spec_indices(&self) -> Seq<usize> {
        self.bit_indices@
    }

    /// The number of bits.
    pub closed spec fn spec_n_bits(&self) -> nat {
        self.n_bits as nat
    }

    pub open spec fn spec_n_checks(&self) -> nat {
        (self.spec_ranges().len() - 1) as nat
    }

    pub open spec fn spec_check(&self, i: int) -> Seq<usize> {
        self.spec_indices().subrange(self.spec_ranges()[i] as int, self.spec_ranges()[i + 1] as int)
    }

    /// The checks, each as the increasing sequence of its bits.
    pub open spec fn checks(&self) -> Seq<Seq<usize>> {
        Seq::new(self.spec_n_checks(), |i: int| self.spec_check(i))
    }

    /// Well-formedness of the flat layout.
    pub open spec fn wf(&self) -> bool {
        let r = self.spec_ranges();
        &&& 1 <= r.len() <= usize::MAX
        &&& self.spec_n_bits() <= usize::MAX
        &&& r[0] == 0
        &&& r[r.len() - 1] == self.spec_indices().len()
        &&& forall|i: int, j: int| 0 <= i <= j < r.len() ==> r[i] <= r[j]
        &&& forall|i: int|
            0 <= i < self.spec_n_checks() ==> strictly_sorted(#[trigger] self.spec_check(i))
                && bounded(self.spec_check(i), self.spec_n_bits())
    }

    // ***** Construction *****

    /// Creates an empty parity check matrix: 0 bit and 0 check.
    pub fn new() -> (r: Self)
        ensures
            r.wf(),
            r.spec_n_bits() == 0,
            r.checks() == Seq::<Seq<usize>>::empty(),
    {
        Self::with_n_bits(0)
    }

    /// Creates a parity check matrix with `n_bits` bits and no checks.
    pub fn with_n_bits(n_bits: usize) -> (r: Self)
        ensures
            r.wf(),
            r.spec_n_bits() == n_bits,
            r.checks() == Seq::<Seq<usize>>::empty(),
            r.spec_indices().len() == 0,
    {
        let mut check_ranges: Vec<usize> = Vec::new();
        check_ranges.push(0);
        let r = Self { check_ranges, bit_indices: Vec::new(), n_bits };
        assert(r.checks() =~= Seq::<Seq<usize>>::empty());
        r
    }

    /// Appends `check` as the last check of `self`.
    fn add_check(&mut self, check: &Vec<usize>)
        requires
            old(self).wf(),
            strictly_sorted(check@),
            bounded(check@, old(self).spec_n_bits()),
            old(self).spec_indices().len() + check@.len() <= usize::MAX,
        ensures
            final(self).wf(),
            final(self).spec_n_bits() == old(self).spec_n_bits(),
            final(self).checks() == old(self).checks().push(check@),
            final(self).spec_indices().len() == old(self).spec_indices().len() + check@.len(),
    {
        let ghost old_self = *self;
        let start = self.bit_indices.len();
        let mut k: usize = 0;
        while k < check.len()
            invariant
                k <= check@.len(),
                self.n_bits == old_self.n_bits,
                self.check_ranges@ == old_self.check_ranges@,
                self.bit_indices@ == old_self.bit_indices@ + check@.subrange(0, k as int),
                start == old_self.bit_indices@.len(),
                start + check@.len() <= usize::MAX,
            decreases check@.len() - k,
        {
            self.bit_indices.push(check[k]);
            k = k + 1;
            assert(self.bit_indices@ =~= old_self.bit_indices@ + check@.subrange(0, k as int));
        }
        assert(check@.subrange(0, k as int) =~= check@);
        self.check_ranges.push(start + check.len());
        let _ = self.check_ranges.len();
        let ghost n = old_self.spec_n_checks() as int;
        assert forall|i: int| 0 <= i < n implies #[trigger] self.spec_check(i) == old_self.spec_check(i) by {
            assert(old_self.spec_ranges()[i] <= old_self.spec_ranges()[i + 1]);
            assert(old_self.spec_ranges()[i + 1] <= old_self.spec_ranges()[n]);
            assert(self.spec_check(i) =~= old_self.spec_check(i));
        }
        assert(self.spec_check(n) =~= check@);
        assert(self.checks() =~= old_self.checks().push(check@));
        assert forall|i: int, j: int| 0 <= i <= j < self.check_ranges@.len() implies
            self.check_ranges@[i] <= self.check_ranges@[j] by {
            if j == n + 1 && i <= n {
                assert(old_self.spec_ranges()[i] <= old_self.spec_ranges()[n]);
            }
        }
        assert forall|i: int| 0 <= i < self.spec_n_checks() implies strictly_sorted(
            #[trigger] self.spec_check(i),
        ) && bounded(self.spec_check(i), self.spec_n_bits()) by {
            if i < n {
                assert(self.spec_check(i) == old_self.spec_check(i));
            }
        }
    }

    /// Creates the `n_bits` identity matrix: check `i` is `{i}`.
    pub fn identity_with_n_bits(n_bits: usize) -> (r: ParityCheckMatrix)
        requires
            n_bits < usize::MAX,
        ensures
            r.wf(),
            r.spec_n_bits() == n_bits,
            r.checks() == crate::ranker::identity_checks(n_bits as nat),
    {
        let mut r = Self::with_n_bits(n_bits);
        let mut i: usize = 0;
        while i < n_bits
            invariant
                i <= n_bits < usize::MAX,
                r.wf(),
                r.spec_n_bits() == n_bits,
                r.spec_indices().len() == i,
                r.checks() == Seq::new(i as nat, |j: int| seq![j as usize]),
            decreases n_bits - i,
        {
            let mut check: Vec<usize> = Vec::new();
            check.push(i);
            r.add_check(&check);
            i = i + 1;
            assert(r.checks() =~= Seq::new(i as nat, |j: int| seq![j as usize]));
        }
        assert(r.checks() =~= crate::ranker::identity_checks(n_bits as nat));
        r
    }

    /// Sets the checks of `self` from `checks`, each an unordered list of bit
    /// positions. Each check is stored sorted and with each bit once; the
    /// checks left empty are dropped. An empty list leaves `self` as it is.
    pub fn with_checks(self, checks: Vec<Vec<usize>>) -> (r: Self)
        requires
            self.wf(),
            forall|i: int| 0 <= i < checks@.len() ==> bounded(#[trigger] checks@[i]@, self.spec_n_bits()),
            total_len(checks.deep_view()) <= usize::MAX,
        ensures
            checks@.len() == 0 ==> r == self,
            checks@.len() > 0 ==> r.wf() && r.spec_n_bits() == self.spec_n_bits()
                && r.checks() == stored_checks(checks.deep_view(), self.spec_n_bits()),
    {
        if checks.len() == 0 {
            return self;
        }
        let n = self.n_bits;
        let ghost raws = checks.deep_view();
        let mut r = Self::with_n_bits(n);
        let mut i: usize = 0;
        while i < checks.len()
            invariant
                i <= checks@.len(),
                raws == checks.deep_view(),
                n == self.spec_n_bits(),
                total_len(raws) <= usize::MAX,
                forall|j: int| 0 <= j < checks@.len() ==> bounded(#[trigger] checks@[j]@, n as nat),
                r.wf(),
                r.spec_n_bits() == n,
                r.spec_indices().len() <= total_len(raws.subrange(0, i as int)),
                r.checks() == stored_checks(raws.subrange(0, i as int), n as nat),
            decreases checks@.len() - i,
        {
            let check = canonical_check(&checks[i], n);
            proof {
                lemma_total_len_prefix(raws, i + 1);
            }
            assert(raws.subrange(0, i + 1).drop_last() =~= raws.subrange(0, i as int));
            assert(raws[i as int] == checks@[i as int]@);
            if check.len() > 0 {
                r.add_check(&check);
            }
            i = i + 1;
        }
        assert(raws.subrange(0, i as int) =~= raws);
        r
    }

    // ***** Getters *****

    /// Returns the number of bits in `self`.
    pub fn get_n_bits(&self) -> (r: usize)
        ensures
            r == self.spec_n_bits(),
    {
        self.n_bits
    }

    /// Returns the number of checks in `self`.
    pub fn get_n_checks(&self) -> (r: usize)
        requires
            self.wf(),
        ensures
            r == self.checks().len(),
    {
        self.check_ranges.len() - 1
    }

    /// Returns the number of edges in `self`, that is the sum of the check degrees.
    pub fn get_n_edges(&self) -> (r: usize)
        requires
            self.wf(),
        ensures
            r == self.spec_indices().len(),
            r == total_len(self.checks()),
    {
        proof {
            self.lemma_edges_prefix(self.spec_n_checks() as int);
            assert(self.checks().subrange(0, self.spec_n_checks() as int) =~= self.checks());
        }
        self.bit_indices.len()
    }

    proof fn lemma_edges_prefix(&self, i: int)
        requires
            self.wf(),
            0 <= i <= self.spec_n_checks(),
        ensures
            total_len(self.checks().subrange(0, i)) == self.spec_ranges()[i],
        decreases i,
    {
        if i == 0 {
            assert(self.checks().subrange(0, 0) =~= Seq::<Seq<usize>>::empty());
        } else {
            self.lemma_edges_prefix(i - 1);
            assert(self.checks().subrange(0, i).drop_last() =~= self.checks().subrange(0, i - 1));
            assert(self.spec_ranges()[i - 1] <= self.spec_ranges()[i]);
        }
    }

    /// Returns a view over check `check`, or `None` when there is no such check.
    pub fn get_check(&self, check: usize) -> (r: Option<CheckView<'_>>)
        requires
            self.wf(),
        ensures
            r.is_some() == (check < self.checks().len()),
            r.is_some() ==> r.unwrap().view() == self.checks()[check as int],
    {
        if check < self.check_ranges.len() - 1 {
            let start = self.check_ranges[check];
            let end = self.check_ranges[check + 1];
            let bits = vstd::slice::slice_subrange(self.bit_indices.as_slice(), start, end);
            Some(CheckView::from_slice(bits))
        } else {
            None
        }
    }

    /// Returns the offset table of `self`.
    pub(crate) fn check_ranges(&self) -> (r: &[usize])
        ensures
            r@ == self.spec_ranges(),
    {
        self.check_ranges.as_slice()
    }

    /// Returns the flat array of bit indices of `self`.
    pub(crate) fn bit_indices(&self) -> (r: &[usize])
        ensures
            r@ == self.spec_indices(),
    {
        self.bit_indices.as_slice()
    }

    /// Returns the degree of each check in `self`.
    pub fn get_check_degrees(&self) -> (r: Vec<usize>)
        requires
            self.wf(),
        ensures
            r@ == Seq::new(self.checks().len(), |i: int| self.checks()[i].len() as usize),
    {
        let mut r: Vec<usize> = Vec::new();
        let n = self.check_ranges.len() - 1;
        let mut i: usize = 0;
        while i < n
            invariant
                self.wf(),
                n == self.checks().len(),
                i <= n,
                r@ == Seq::new(i as nat, |j: int| self.checks()[j].len() as usize),
            decreases n - i,
        {
            assert(self.spec_ranges()[i as int] <= self.spec_ranges()[i + 1]);
            r.push(self.check_ranges[i + 1] - self.check_ranges[i]);
            i = i + 1;
            assert(r@ =~= Seq::new(i as nat, |j: int| self.checks()[j].len() as usize));
        }
        r
    }

    /// Gets the transpose of `self`: bit `b` of the result's check `c` is set
    /// iff check `b` of `self` holds bit `c`. Empty checks of the result are kept.
    pub fn get_transposed_matrix(&self) -> (r: Self)
        requires
            self.wf(),
        ensures
            r.wf(),
            r.spec_n_bits() == self.checks().len(),
            r.checks() == transposed_checks(self.checks(), self.spec_n_bits()),
            r.spec_indices().len() == self.spec_indices().len(),
    {
        let ghost cs = self.checks();
        let n = self.n_bits;
        let nc = self.check_ranges.len() - 1;
        let mut cols: Vec<Vec<usize>> = Vec::new();
        let mut c: usize = 0;
        while c < n
            invariant
                c <= n,
                cols@.len() == c,
                forall|j: int| 0 <= j < c ==> (#[trigger] cols@[j])@ == Seq::<usize>::empty(),
            decreases n - c,
        {
            cols.push(Vec::new());
            c = c + 1;
        }
        assert(rows_view(cols@) =~= Seq::new(n as nat, |j: int| incident(cs, j as usize, 0)));
        proof {
            lemma_total_len_empty_rows(rows_view(cols@));
        }
        let mut i: usize = 0;
        while i < nc
            invariant
                self.wf(),
                cs == self.checks(),
                nc == cs.len(),
                n == self.spec_n_bits(),
                i <= nc,
                cols@.len() == n,
                rows_view(cols@) == Seq::new(n as nat, |j: int| incident(cs, j as usize, i as nat)),
                total_len(rows_view(cols@)) == self.spec_ranges()[i as int],
            decreases nc - i,
        {
            let start = self.check_ranges[i];
            let end = self.check_ranges[i + 1];
            assert(start <= end);
            assert(end <= self.spec_ranges()[nc as int]);
            let ghost row = cs[i as int];
            assert forall|j: int| 0 <= j < n implies (#[trigger] cols@[j])@ == incident(cs, j as usize, i as nat) by {
                assert(rows_view(cols@)[j] == cols@[j]@);
            }
            assert(row.subrange(0, 0) =~= Seq::<usize>::empty());
            let mut k: usize = start;
            while k < end
                invariant
                    self.wf(),
                    cs == self.checks(),
                    nc == cs.len(),
                    n == self.spec_n_bits(),
                    i < nc,
                    start == self.spec_ranges()[i as int],
                    end == self.spec_ranges()[i + 1],
                    start <= k <= end <= self.spec_indices().len(),
                    row == cs[i as int],
                    cols@.len() == n,
                    forall|j: int| 0 <= j < n ==> (#[trigger] cols@[j])@ == (if row.subrange(0, k - start).contains(j as usize) {
                        incident(cs, j as usize, i as nat).push(i)
                    } else {
                        incident(cs, j as usize, i as nat)
                    }),
                    total_len(rows_view(cols@)) == k,
                decreases end - k,
            {
                let b = self.bit_indices[k];
                assert(row[k - start] == b);
                assert(b < n);
                let ghost before = rows_view(cols@);
                assert(!row.subrange(0, k - start).contains(b)) by {
                    if row.subrange(0, k - start).contains(b) {
                        let t = choose|t: int| 0 <= t < k - start && row[t] == b;
                        assert(row[t] < row[k - start]);
                    }
                }
                cols[b].push(i);
                proof {
                    lemma_total_len_push_at(before, b as int, i);
                    assert(rows_view(cols@) =~= before.update(b as int, before[b as int].push(i)));
                }
                k = k + 1;
                assert forall|j: int| 0 <= j < n implies (#[trigger] cols@[j])@ == (if row.subrange(0, k - start).contains(j as usize) {
                    incident(cs, j as usize, i as nat).push(i)
                } else {
                    incident(cs, j as usize, i as nat)
                }) by {
                    let s0 = row.subrange(0, k - 1 - start);
                    let s1 = row.subrange(0, k - start);
                    assert(s1 =~= s0.push(b));
                    if j != b as int {
                        if s1.contains(j as usize) {
                            let t = choose|t: int| 0 <= t < s1.len() && s1[t] == j as usize;
                            assert(s0[t] == j as usize);
                        }
                        if s0.contains(j as usize) {
                            let t = choose|t: int| 0 <= t < s0.len() && s0[t] == j as usize;
                            assert(s1[t] == j as usize);
                        }
                    } else {
                        assert(s1[s1.len() - 1] == b);
                    }
                }
            }
            assert(row.subrange(0, end - start) =~= row);
            i = i + 1;
            assert(rows_view(cols@) =~= Seq::new(n as nat, |j: int| incident(cs, j as usize, i as nat)));
        }
        let ghost all = rows_view(cols@);
        assert(total_len(all) == self.spec_indices().len());
        let mut r = Self::with_n_bits(nc);
        let mut c: usize = 0;
        while c < n
            invariant
                c <= n,
                nc == cs.len(),
                cols@.len() == n,
                rows_view(cols@) == all,
                all == Seq::new(n as nat, |j: int| incident(cs, j as usize, nc as nat)),
                total_len(all) <= usize::MAX,
                r.wf(),
                r.spec_n_bits() == nc,
                r.spec_indices().len() == total_len(all.subrange(0, c as int)),
                r.checks() == all.subrange(0, c as int),
            decreases n - c,
        {
            proof {
                lemma_incident(cs, c as usize, nc as nat);
                lemma_total_len_prefix(all, c + 1);
                assert(all.subrange(0, c + 1).drop_last() =~= all.subrange(0, c as int));
            }
            r.add_check(&cols[c]);
            c = c + 1;
            assert(r.checks() =~= all.subrange(0, c as int));
        }
        assert(all.subrange(0, n as int) =~= transposed_checks(cs, n as nat));
        assert(all.subrange(0, n as int) =~= all);
        r
    }

    /// Transposing twice gives back the checks of any well-formed matrix.
    pub proof fn lemma_transpose_involution(m: &ParityCheckMatrix)
        requires
            m.wf(),
        ensures
            transposed_checks(transposed_checks(m.checks(), m.spec_n_bits()), m.checks().len())
                == m.checks(),
    {
        let cs = m.checks();
        let n = m.spec_n_bits();
        let nc = cs.len();
        let t = transposed_checks(cs, n);
        let tt = transposed_checks(t, nc);
        assert forall|b: int| 0 <= b < nc implies #[trigger] tt[b] == cs[b] by {
            lemma_incident(t, b as usize, n);
            assert forall|x: usize| tt[b].contains(x) <==> cs[b].contains(x) by {
                if x < n {
                    lemma_incident(cs, x, nc);
                    assert(t[x as int] == incident(cs, x, nc));
                }
                if cs[b].contains(x) {
                    let u = choose|u: int| 0 <= u < cs[b].len() && cs[b][u] == x;
                    assert(m.spec_check(b) == cs[b]);
                    assert(x < n);
                }
            }
            assert(m.spec_check(b) == cs[b]);
            lemma_sorted_unique(tt[b], cs[b]);
        }
        assert(tt =~= cs);
    }

    /// Returns the degree of each bit in `self`: the number of checks that hold it.
    pub fn get_bit_degrees(&self) -> (r: Vec<usize>)
        requires
            self.wf(),
        ensures
            r@ == Seq::new(
                self.spec_n_bits(),
                |b: int| incident(self.checks(), b as usize, self.checks().len()).len() as usize,
            ),
    {
        let t = self.get_transposed_matrix();
        let r = t.get_check_degrees();
        assert(r@ =~= Seq::new(
            self.spec_n_bits(),
            |b: int| incident(self.checks(), b as usize, self.checks().len()).len() as usize,
        ));
        r
    }

    /// Computes the syndrome of `message`: for each check, the XOR of the
    /// values of `message` at its bits.
    pub fn get_syndrome_of(&self, message: &[GF2]) -> (r: Vec<GF2>)
        requires
            self.wf(),
            self.spec_n_bits() <= message@.len(),
        ensures
            r@.len() == self.checks().len(),
            forall|i: int| 0 <= i < r@.len() ==> (#[trigger] r@[i]).is_one() == parity(self.checks()[i], message@),
    {
        let mut r: Vec<GF2> = Vec::new();
        let n = self.check_ranges.len() - 1;
        let mut i: usize = 0;
        while i < n
            invariant
                self.wf(),
                self.spec_n_bits() <= message@.len(),
                n == self.checks().len(),
                i <= n,
                r@.len() == i,
                forall|j: int| 0 <= j < i ==> (#[trigger] r@[j]).is_one() == parity(self.checks()[j], message@),
            decreases n - i,
        {
            let check = self.get_check(i).unwrap();
            assert(self.spec_check(i as int) == self.checks()[i as int]);
            r.push(check.compute_syndrome(message));
            i = i + 1;
        }
        r
    }

    /// Checks if `message` is a codeword of `self`: every check has an even
    /// number of ones of `message` on its bits.
    pub fn has_codeword(&self, message: &[GF2]) -> (r: bool)
        requires
            self.wf(),
            self.spec_n_bits() <= message@.len(),
        ensures
            r == forall|i: int| 0 <= i < self.checks().len() ==> !parity(#[trigger] self.checks()[i], message@),
    {
        let n = self.check_ranges.len() - 1;
        let mut i: usize = 0;
        while i < n
            invariant
                self.wf(),
                self.spec_n_bits() <= message@.len(),
                n == self.checks().len(),
                i <= n,
                forall|j: int| 0 <= j < i ==> !parity(#[trigger] self.checks()[j], message@),
            decreases n - i,
        {
            let check = self.get_check(i).unwrap();
            assert(self.spec_check(i as int) == self.checks()[i as int]);
            if check.compute_syndrome(message) == GF2::B1 {
                return false;
            }
            i = i + 1;
        }
        true
    }

    /// Returns a view of each check of `self`, in order.
    pub fn checks_iter(&self) -> (r: Vec<CheckView<'_>>)
        requires
            self.wf(),
        ensures
            r@.len() == self.checks().len(),
            forall|i: int| 0 <= i < r@.len() ==> (#[trigger] r@[i]).view() == self.checks()[i],
    {
        let mut r: Vec<CheckView<'_>> = Vec::new();
        let n = self.check_ranges.len() - 1;
        let mut i: usize = 0;
        while i < n
            invariant
                self.wf(),
                n == self.checks().len(),
                i <= n,
                r@.len() == i,
                forall|j: int| 0 <= j < i ==> (#[trigger] r@[j]).view() == self.checks()[j],
            decreases n - i,
        {
            r.push(self.get_check(i).unwrap());
            i = i + 1;
        }
        r
    }

    /// Returns all edges `(check, bit)` of `self`, ordered by check first.
    pub fn edges_iter(&self) -> (r: Vec<(usize, usize)>)
        requires
            self.wf(),
        ensures
            r@ == edges(self.checks()),
    {
        let ghost cs = self.checks();
        let mut r: Vec<(usize, usize)> = Vec::new();
        let n = self.check_ranges.len() - 1;
        let mut i: usize = 0;
        while i < n
            invariant
                self.wf(),
                cs == self.checks(),
                n == cs.len(),
                i <= n,
                r@ == edges(cs.subrange(0, i as int)),
            decreases n - i,
        {
            let check = self.get_check(i).unwrap();
            let bits = check.as_ref();
            let ghost r0 = r@;
            let mut k: usize = 0;
            while k < bits.len()
                invariant
                    k <= bits@.len(),
                    bits@ == cs[i as int],
                    r@ == r0 + bits@.subrange(0, k as int).map_values(|b: usize| (i, b)),
                decreases bits@.len() - k,
            {
                r.push((i, bits[k]));
                k = k + 1;
                assert(r@ =~= r0 + bits@.subrange(0, k as int).map_values(|b: usize| (i, b)));
            }
            assert(cs.subrange(0, i + 1).drop_last() =~= cs.subrange(0, i as int));
            assert(bits@.subrange(0, k as int) =~= bits@);
            i = i + 1;
        }
        assert(cs.subrange(0, n as int) =~= cs);
        r
    }

    /// Returns the horizontal concatenation of `self` with `other`: check `i`
    /// holds the bits of check `i` of `self` and those of check `i` of `other`
    /// (if any) shifted by the bit count of `self`.
    pub fn get_horizontal_concat_with(&self, other: &ParityCheckMatrix) -> (r: ParityCheckMatrix)
        requires
            self.wf(),
            other.wf(),
            self.spec_n_bits() + other.spec_n_bits() <= usize::MAX,
            self.spec_indices().len() + other.spec_indices().len() <= usize::MAX,
        ensures
            r.wf(),
            r.spec_n_bits() == self.spec_n_bits() + other.spec_n_bits(),
            r.checks() == hcat_checks(self.checks(), other.checks(), self.spec_n_bits()),
            r.spec_indices().len() <= self.spec_indices().len() + other.spec_indices().len(),
    {
        let ghost target = hcat_checks(self.checks(), other.checks(), self.spec_n_bits());
        let nl = self.n_bits;
        let ncl = self.check_ranges.len() - 1;
        let ncr = other.check_ranges.len() - 1;
        let mut r = Self::with_n_bits(nl + other.n_bits);
        let mut i: usize = 0;
        while i < ncl
            invariant
                self.wf(),
                other.wf(),
                nl == self.spec_n_bits(),
                ncl == self.checks().len(),
                ncr == other.checks().len(),
                self.spec_n_bits() + other.spec_n_bits() <= usize::MAX,
                self.spec_indices().len() + other.spec_indices().len() <= usize::MAX,
                target == hcat_checks(self.checks(), other.checks(), self.spec_n_bits()),
                i <= ncl,
                r.wf(),
                r.spec_n_bits() == nl + other.spec_n_bits(),
                r.checks() == target.subrange(0, i as int),
                r.spec_indices().len() <= self.spec_ranges()[i as int] + other.spec_ranges()[
                    if i < ncr { i as int } else { ncr as int }
                ],
            decreases ncl - i,
        {
            let mut row: Vec<usize> = Vec::new();
            let left = self.get_check(i).unwrap();
            assert(self.spec_check(i as int) == self.checks()[i as int]);
            append_shifted(&mut row, left.as_ref(), 0, nl);
            assert(shifted(self.checks()[i as int], 0) =~= self.checks()[i as int]);
            assert(self.spec_ranges()[i as int] <= self.spec_ranges()[i + 1]);
            assert(self.spec_ranges()[i + 1] <= self.spec_ranges()[ncl as int]);
            if i < ncr {
                let right = other.get_check(i).unwrap();
                assert(other.spec_check(i as int) == other.checks()[i as int]);
                append_shifted(&mut row, right.as_ref(), nl, other.n_bits);
                assert(other.spec_ranges()[i as int] <= other.spec_ranges()[i + 1]);
                assert(other.spec_ranges()[i + 1] <= other.spec_ranges()[ncr as int]);
            } else {
                assert(row@ =~= row@ + Seq::<usize>::empty());
            }
            assert(row@ == target[i as int]);
            r.add_check(&row);
            i = i + 1;
            assert(r.checks() =~= target.subrange(0, i as int));
            if i < ncr {
                assert(other.spec_ranges()[i - 1] <= other.spec_ranges()[i as int]);
            }
        }
        assert(target.subrange(0, i as int) =~= target);
        if ncr > 0 {
            assert(other.spec_ranges()[if ncl < ncr { ncl as int } else { ncr as int }] <= other.spec_ranges()[ncr as int]);
        }
        r
    }

    /// Returns the block-diagonal concatenation of `self` with `other`: the
    /// checks of `self`, then those of `other` shifted by the bit count of `self`.
    pub fn get_diagonal_concat_with(&self, other: &ParityCheckMatrix) -> (r: ParityCheckMatrix)
        requires
            self.wf(),
            other.wf(),
            self.spec_n_bits() + other.spec_n_bits() <= usize::MAX,
            self.spec_indices().len() + other.spec_indices().len() <= usize::MAX,
        ensures
            r.wf(),
            r.spec_n_bits() == self.spec_n_bits() + other.spec_n_bits(),
            r.checks() == dcat_checks(self.checks(), other.checks(), self.spec_n_bits()),
            r.spec_indices().len() == self.spec_indices().len() + other.spec_indices().len(),
    {
        let ghost target = dcat_checks(self.checks(), other.checks(), self.spec_n_bits());
        let nl = self.n_bits;
        let ncl = self.check_ranges.len() - 1;
        let ncr = other.check_ranges.len() - 1;
        let mut r = Self::with_n_bits(nl + other.n_bits);
        let mut i: usize = 0;
        while i < ncl
            invariant
                self.wf(),
                other.wf(),
                nl == self.spec_n_bits(),
                ncl == self.checks().len(),
                self.spec_n_bits() + other.spec_n_bits() <= usize::MAX,
                self.spec_indices().len() + other.spec_indices().len() <= usize::MAX,
                target == dcat_checks(self.checks(), other.checks(), self.spec_n_bits()),
                i <= ncl,
                r.wf(),
                r.spec_n_bits() == nl + other.spec_n_bits(),
                r.checks() == target.subrange(0, i as int),
                r.spec_indices().len() == self.spec_ranges()[i as int],
            decreases ncl - i,
        {
            let mut row: Vec<usize> = Vec::new();
            let left = self.get_check(i).unwrap();
            assert(self.spec_check(i as int) == self.checks()[i as int]);
            append_shifted(&mut row, left.as_ref(), 0, nl);
            assert(shifted(self.checks()[i as int], 0) =~= self.checks()[i as int]);
            assert(self.spec_ranges()[i + 1] <= self.spec_ranges()[ncl as int]);
            r.add_check(&row);
            i = i + 1;
            assert(r.checks() =~= target.subrange(0, i as int));
        }
        let mut j: usize = 0;
        while j < ncr
            invariant
                self.wf(),
                other.wf(),
                nl == self.spec_n_bits(),
                ncl == self.checks().len(),
                ncr == other.checks().len(),
                self.spec_n_bits() + other.spec_n_bits() <= usize::MAX,
                self.spec_indices().len() + other.spec_indices().len() <= usize::MAX,
                target == dcat_checks(self.checks(), other.checks(), self.spec_n_bits()),
                j <= ncr,
                r.wf(),
                r.spec_n_bits() == nl + other.spec_n_bits(),
                r.checks() == target.subrange(0, ncl + j),
                r.spec_indices().len() == self.spec_indices().len() + other.spec_ranges()[j as int],
            decreases ncr - j,
        {
            let mut row: Vec<usize> = Vec::new();
            let right = other.get_check(j).unwrap();
            assert(other.spec_check(j as int) == other.checks()[j as int]);
            append_shifted(&mut row, right.as_ref(), nl, other.n_bits);
            assert(row@ =~= shifted(other.checks()[j as int], nl as nat));
            assert(other.spec_ranges()[j + 1] <= other.spec_ranges()[ncr as int]);
            r.add_check(&row);
            j = j + 1;
            assert(r.checks() =~= target.subrange(0, ncl + j));
        }
        assert(target.subrange(0, ncl + j) =~= target);
        r
    }

    /// Returns `self` restricted to the given `bits`: each check keeps only
    /// the bits that occur in `bits`; the checks left empty are dropped.
    pub fn keep(&self, bits: &[usize]) -> (r: Self)
        requires
            self.wf(),
        ensures
            r.wf(),
            r.spec_n_bits() == self.spec_n_bits(),
            r.checks() == kept_checks(self.checks(), bits@),
    {
        let ghost cs = self.checks();
        let n = self.check_ranges.len() - 1;
        let mut r = Self::with_n_bits(self.n_bits);
        let mut i: usize = 0;
        while i < n
            invariant
                self.wf(),
                cs == self.checks(),
                n == cs.len(),
                i <= n,
                r.wf(),
                r.spec_n_bits() == self.spec_n_bits(),
                r.checks() == kept_checks(cs.subrange(0, i as int), bits@),
                r.spec_indices().len() <= self.spec_ranges()[i as int],
            decreases n - i,
        {
            let check = self.get_check(i).unwrap();
            let cb = check.as_ref();
            assert(self.spec_check(i as int) == cs[i as int]);
            let mut row: Vec<usize> = Vec::new();
            let mut k: usize = 0;
            while k < cb.len()
                invariant
                    k <= cb@.len(),
                    cb@ == cs[i as int],
                    strictly_sorted(cb@),
                    bounded(cb@, self.spec_n_bits()),
                    row@ == kept(cb@.subrange(0, k as int), bits@),
                    strictly_sorted(row@),
                    bounded(row@, self.spec_n_bits()),
                    row@.len() <= k,
                    k < cb@.len() ==> forall|t: int| 0 <= t < row@.len() ==> row@[t] < cb@[k as int],
                decreases cb@.len() - k,
            {
                let b = cb[k];
                assert(cb@.subrange(0, k + 1).drop_last() =~= cb@.subrange(0, k as int));
                if slice_contains(bits, b) {
                    row.push(b);
                }
                k = k + 1;
                if k < cb.len() {
                    assert(cb@[k - 1] < cb@[k as int]);
                }
            }
            assert(cb@.subrange(0, k as int) =~= cb@);
            assert(cs.subrange(0, i + 1).drop_last() =~= cs.subrange(0, i as int));
            assert(self.spec_ranges()[i as int] <= self.spec_ranges()[i + 1]);
            assert(self.spec_ranges()[i + 1] <= self.spec_ranges()[n as int]);
            if row.len() > 0 {
                r.add_check(&row);
            }
            i = i + 1;
        }
        assert(cs.subrange(0, n as int) =~= cs);
        r
    }

    /// Returns `self` without the given `bits`: the projection onto the bits
    /// of `self` that do not occur in `bits`.
    pub fn without(&self, bits: &[usize]) -> (r: Self)
        requires
            self.wf(),
        ensures
            r.wf(),
            r.spec_n_bits() == self.spec_n_bits(),
            r.checks() == kept_checks(self.checks(), members_not_in(bits@, self.spec_n_bits())),
    {
        let mut to_keep: Vec<usize> = Vec::new();
        let mut c: usize = 0;
        while c < self.n_bits
            invariant
                c <= self.spec_n_bits(),
                to_keep@ == members_not_in(bits@, c as nat),
            decreases self.spec_n_bits() - c,
        {
            if !slice_contains(bits, c) {
                to_keep.push(c);
            }
            c = c + 1;
        }
        self.keep(to_keep.as_slice())
    }

    /// The generalized bicycle construction from `self` (A) and `b` (B): the
    /// block-diagonal concatenation of [A | B] with [Bᵀ | Aᵀ]. Whether A and B
    /// commute is not checked.
    pub fn gbc(&self, b: &ParityCheckMatrix) -> (r: ParityCheckMatrix)
        requires
            self.wf(),
            b.wf(),
            self.spec_n_bits() + b.spec_n_bits() + self.checks().len() + b.checks().len() <= usize::MAX,
            2 * (self.spec_indices().len() + b.spec_indices().len()) <= usize::MAX,
        ensures
            r.wf(),
            r.spec_n_bits() == self.spec_n_bits() + b.spec_n_bits() + b.checks().len() + self.checks().len(),
            r.checks() == dcat_checks(
                hcat_checks(self.checks(), b.checks(), self.spec_n_bits()),
                hcat_checks(
                    transposed_checks(b.checks(), b.spec_n_bits()),
                    transposed_checks(self.checks(), self.spec_n_bits()),
                    b.checks().len(),
                ),
                self.spec_n_bits() + b.spec_n_bits(),
            ),
    {
        let hx = self.get_horizontal_concat_with(b);
        let bt = b.get_transposed_matrix();
        let at = self.get_transposed_matrix();
        let hz = bt.get_horizontal_concat_with(&at);
        hx.get_diagonal_concat_with(&hz)
    }

    /// The `l`-bit permutation matrix of one cyclic shift: check 0 is
    /// `{l - 1}` and check `i > 0` is `{i - 1}`.
    pub fn permu_matrix(l: usize) -> (r: ParityCheckMatrix)
        requires
            1 <= l < usize::MAX,
        ensures
            r.wf(),
            r.spec_n_bits() == l,
            r.checks() == Seq::new(
                l as nat,
                |i: int| seq![if i == 0 { (l - 1) as usize } else { (i - 1) as usize }],
            ),
    {
        let ghost target = Seq::new(
            l as nat,
            |i: int| seq![if i == 0 { (l - 1) as usize } else { (i - 1) as usize }],
        );
        let mut r = Self::with_n_bits(l);
        let mut i: usize = 0;
        while i < l
            invariant
                1 <= l < usize::MAX,
                i <= l,
                r.wf(),
                r.spec_n_bits() == l,
                r.spec_indices().len() == i,
                target == Seq::new(
                    l as nat,
                    |i: int| seq![if i == 0 { (l - 1) as usize } else { (i - 1) as usize }],
                ),
                r.checks() == target.subrange(0, i as int),
            decreases l - i,
        {
            let mut check: Vec<usize> = Vec::new();
            if i == 0 {
                check.push(l - 1);
            } else {
                check.push(i - 1);
            }
            r.add_check(&check);
            i = i + 1;
            assert(r.checks() =~= target.subrange(0, i as int));
        }
        assert(target.subrange(0, i as int) =~= target);
        r
    }

    /// The circulant matrix of period `l` in which check `i` holds the bits
    /// `(l - j + i) mod l` for each offset `j` of `indices`.
    pub fn circulant_down(indices: &Vec<usize>, l: usize) -> (r: ParityCheckMatrix)
        requires
            forall|t: int| 0 <= t < indices@.len() ==> indices@[t] <= l,
            l + l <= usize::MAX,
            l * indices@.len() <= usize::MAX,
        ensures
            r.wf(),
            r.spec_n_bits() == l,
            r.checks() == stored_checks(circulant_down_rows(indices@, l as nat), l as nat),
    {
        let ghost target = circulant_down_rows(indices@, l as nat);
        let mut checks: Vec<Vec<usize>> = Vec::new();
        let mut i: usize = 0;
        while i < l
            invariant
                forall|t: int| 0 <= t < indices@.len() ==> indices@[t] <= l,
                l + l <= usize::MAX,
                i <= l,
                target == circulant_down_rows(indices@, l as nat),
                checks@.len() == i,
                forall|t: int| 0 <= t < i ==> (#[trigger] checks@[t])@ == target[t],
                forall|t: int| 0 <= t < i ==> bounded((#[trigger] checks@[t])@, l as nat),
            decreases l - i,
        {
            let mut row: Vec<usize> = Vec::new();
            let mut k: usize = 0;
            while k < indices.len()
                invariant
                    forall|t: int| 0 <= t < indices@.len() ==> indices@[t] <= l,
                    l + l <= usize::MAX,
                    i < l,
                    k <= indices@.len(),
                    row@ == indices@.subrange(0, k as int).map_values(
                        |j: usize| ((l - j + i) % (l as int)) as usize,
                    ),
                    bounded(row@, l as nat),
                decreases indices@.len() - k,
            {
                let j = indices[k];
                row.push((l - j + i) % l);
                k = k + 1;
                assert(row@ =~= indices@.subrange(0, k as int).map_values(
                    |j: usize| ((l - j + i) % (l as int)) as usize,
                ));
            }
            assert(indices@.subrange(0, k as int) =~= indices@);
            checks.push(row);
            i = i + 1;
        }
        let r0 = Self::with_n_bits(l);
        assert forall|t: int| 0 <= t < l implies #[trigger] checks.deep_view()[t] == target[t] by {
            assert(checks.deep_view()[t] =~= checks@[t]@);
        }
        assert(checks.deep_view() =~= target);
        proof {
            lemma_total_len_uniform(target, indices@.len());
        }
        if l == 0 {
            assert(stored_checks(target, 0) =~= Seq::<Seq<usize>>::empty());
        }
        r0.with_checks(checks)
    }

    /// The circulant matrix of period `l` in which check `i` holds the bits
    /// `(j + i) mod l` for each offset `j` of `indices`.
    pub fn circulant_right(indices: &Vec<usize>, l: usize) -> (r: ParityCheckMatrix)
        requires
            forall|t: int| 0 <= t < indices@.len() ==> indices@[t] + l <= usize::MAX + 1,
            l * indices@.len() <= usize::MAX,
        ensures
            r.wf(),
            r.spec_n_bits() == l,
            r.checks() == stored_checks(circulant_right_rows(indices@, l as nat), l as nat),
    {
        let ghost target = circulant_right_rows(indices@, l as nat);
        let mut checks: Vec<Vec<usize>> = Vec::new();
        let mut i: usize = 0;
        while i < l
            invariant
                forall|t: int| 0 <= t < indices@.len() ==> indices@[t] + l <= usize::MAX + 1,
                i <= l,
                target == circulant_right_rows(indices@, l as nat),
                checks@.len() == i,
                forall|t: int| 0 <= t < i ==> (#[trigger] checks@[t])@ == target[t],
                forall|t: int| 0 <= t < i ==> bounded((#[trigger] checks@[t])@, l as nat),
            decreases l - i,
        {
            let mut row: Vec<usize> = Vec::new();
            let mut k: usize = 0;
            while k < indices.len()
                invariant
                    forall|t: int| 0 <= t < indices@.len() ==> indices@[t] + l <= usize::MAX + 1,
                    i < l,
                    k <= indices@.len(),
                    row@ == indices@.subrange(0, k as int).map_values(
                        |j: usize| ((j + i) % (l as int)) as usize,
                    ),
                    bounded(row@, l as nat),
                decreases indices@.len() - k,
            {
                let j = indices[k];
                row.push((j + i) % l);
                k = k + 1;
                assert(row@ =~= indices@.subrange(0, k as int).map_values(
                    |j: usize| ((j + i) % (l as int)) as usize,
                ));
            }
            assert(indices@.subrange(0, k as int) =~= indices@);
            checks.push(row);
            i = i + 1;
        }
        let r0 = Self::with_n_bits(l);
        assert forall|t: int| 0 <= t < l implies #[trigger] checks.deep_view()[t] == target[t] by {
            assert(checks.deep_view()[t] =~= checks@[t]@);
        }
        assert(checks.deep_view() =~= target);
        proof {
            lemma_total_len_uniform(target, indices@.len());
        }
        if l == 0 {
            assert(stored_checks(target, 0) =~= Seq::<Seq<usize>>::empty());
        }
        r0.with_checks(checks)
    }
}

} // verus!
