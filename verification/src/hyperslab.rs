//! The hyperslab planner: turns optional per-axis start, count and stride
//! vectors into a fully specified addressing plan, inferring missing counts,
//! detecting ambiguous growth requests and computing how far each unlimited
//! axis must grow before a write.
//!
//! Every rule lives in a spec function (`plan_read_spec`, `plan_write_spec`,
//! `plan_single_spec`); the executable planners are proved to return exactly
//! what those functions say, for every input.

use vstd::prelude::*;
use crate::error::NcError;

verus! {

/// The product of a sequence of axis lengths; 1 for the empty sequence, so a
/// rank-0 variable has length 1.
pub open spec fn product(s: Seq<usize>) -> int
    decreases s.len(),
{
    if s.len() == 0 {
        1
    } else {
        product(s.drop_last()) * (s.last() as int)
    }
}

/// A product of lengths is never negative.
pub proof fn lemma_product_nonneg(s: Seq<usize>)
    ensures
        product(s) >= 0,
    decreases s.len(),
{
    if s.len() > 0 {
        lemma_product_nonneg(s.drop_last());
        assert(product(s.drop_last()) * (s.last() as int) >= 0) by (nonlinear_arith)
            requires
                product(s.drop_last()) >= 0,
                s.last() as int >= 0,
        ;
    }
}

/// If some length is zero, the product is zero.
pub proof fn lemma_product_zero(s: Seq<usize>, i: int)
    requires
        0 <= i < s.len(),
        s[i] == 0,
    ensures
        product(s) == 0,
    decreases s.len(),
{
    if i == s.len() - 1 {
        assert(product(s) == product(s.drop_last()) * 0);
    } else {
        lemma_product_zero(s.drop_last(), i);
        assert(product(s) == 0 * (s.last() as int));
    }
}

/// Splitting one factor off the front of a prefix product.
pub proof fn lemma_product_take_step(s: Seq<usize>, i: int)
    requires
        0 <= i < s.len(),
    ensures
        product(s.take(i + 1)) == product(s.take(i)) * (s[i] as int),
{
    assert(s.take(i + 1).drop_last() =~= s.take(i));
    assert(s.take(i + 1).last() == s[i]);
}

/// Computes the product of the entries of `v`, or reports that it exceeds
/// `usize::MAX`.
pub fn checked_product(v: &Vec<usize>) -> (r: Option<usize>)
    ensures
        match r {
            Some(p) => p as int == product(v@),
            None => product(v@) > usize::MAX,
        },
{
    let mut acc: usize = 1;
    let mut over: bool = false;
    let mut i: usize = 0;
    proof {
        assert(v@.take(0) =~= Seq::<usize>::empty());
    }
    while i < v.len()
        invariant
            i <= v@.len(),
            !over ==> acc as int == product(v@.take(i as int)),
            over ==> product(v@.take(i as int)) > usize::MAX,
        decreases v@.len() - i,
    {
        let x = v[i];
        proof {
            lemma_product_take_step(v@, i as int);
        }
        if over {
            if x == 0 {
                over = false;
                acc = 0;
                proof {
                    assert(product(v@.take(i + 1)) == product(v@.take(i as int)) * 0);
                    assert(product(v@.take(i + 1)) == 0);
                }
            } else {
                proof {
                    assert(product(v@.take(i as int)) * (x as int) >= product(v@.take(i as int)))
                        by (nonlinear_arith)
                        requires
                            product(v@.take(i as int)) > 0,
                            x as int >= 1,
                    ;
                }
            }
        } else {
            match acc.checked_mul(x) {
                Some(p) => {
                    acc = p;
                }
                None => {
                    over = true;
                }
            }
        }
        i = i + 1;
    }
    proof {
        assert(v@.take(v@.len() as int) =~= v@);
    }
    if over {
        None
    } else {
        Some(acc)
    }
}

/// Copies a vector of axis values.
pub fn copy_usizes(v: &Vec<usize>) -> (r: Vec<usize>)
    ensures
        r@ == v@,
{
    let mut r: Vec<usize> = Vec::new();
    let mut i: usize = 0;
    while i < v.len()
        invariant
            i <= v@.len(),
            r@ == v@.take(i as int),
        decreases v@.len() - i,
    {
        r.push(v[i]);
        proof {
            assert(v@.take(i as int).push(v@[i as int]) =~= v@.take(i + 1));
        }
        i = i + 1;
    }
    proof {
        assert(v@.take(v@.len() as int) =~= v@);
    }
    r
}

/// Copies a byte vector.
pub fn copy_bytes(v: &Vec<u8>) -> (r: Vec<u8>)
    ensures
        r@ == v@,
{
    let mut r: Vec<u8> = Vec::new();
    let mut i: usize = 0;
    while i < v.len()
        invariant
            i <= v@.len(),
            r@ == v@.take(i as int),
        decreases v@.len() - i,
    {
        r.push(v[i]);
        proof {
            assert(v@.take(i as int).push(v@[i as int]) =~= v@.take(i + 1));
        }
        i = i + 1;
    }
    proof {
        assert(v@.take(v@.len() as int) =~= v@);
    }
    r
}

/// Whether two index vectors are equal.
pub fn usizes_eq(a: &Vec<usize>, b: &Vec<usize>) -> (r: bool)
    ensures
        r == (a@ == b@),
{
    if a.len() != b.len() {
        return false;
    }
    let mut i: usize = 0;
    while i < a.len()
        invariant
            a@.len() == b@.len(),
            i <= a@.len(),
            forall|j: int| 0 <= j < i ==> a@[j] == b@[j],
        decreases a@.len() - i,
    {
        if a[i] != b[i] {
            return false;
        }
        i = i + 1;
    }
    proof {
        assert(a@ =~= b@);
    }
    true
}

/// The optional argument vectors seen abstractly.
pub open spec fn opt_view(o: Option<&Vec<usize>>) -> Option<Seq<usize>> {
    match o {
        Some(v) => Some(v@),
        None => None,
    }
}

/// The start vector actually used: the supplied one, or all zeros.
pub open spec fn eff_start(start: Option<Seq<usize>>, rank: nat) -> Seq<usize> {
    match start {
        Some(s) => s,
        None => Seq::new(rank, |i: int| 0usize),
    }
}

/// The stride vector actually used: the supplied one, or all ones.
pub open spec fn eff_stride(stride: Option<Seq<usize>>, rank: nat) -> Seq<usize> {
    match stride {
        Some(s) => s,
        None => Seq::new(rank, |i: int| 1usize),
    }
}

/// How many points of an axis of length `len` are addressable starting at
/// `start` and stepping by `stride`: the strided extent of the axis.
/// Meaningful when `stride >= 1` and `start <= len`.
pub open spec fn axis_extent(len: usize, start: usize, stride: usize) -> int {
    if start >= len {
        0
    } else {
        1 + (len - 1 - start) / (stride as int)
    }
}

/// A fully specified addressing plan, as the specs speak of it.
pub ghost struct PlanShape {
    /// Per-axis first index.
    pub start: Seq<usize>,
    /// Per-axis number of elements.
    pub count: Seq<usize>,
    /// Per-axis step.
    pub stride: Seq<usize>,
    /// Per-axis dimension length after the growth a write performs; equals
    /// the current shape wherever no growth is needed.
    pub grow: Seq<usize>,
}

/// A fully specified addressing plan: per-axis start, count and stride, the
/// post-growth axis lengths, and the total element count of the region.
pub struct SlabPlan {
    /// Per-axis first index.
    pub start: Vec<usize>,
    /// Per-axis number of elements.
    pub count: Vec<usize>,
    /// Per-axis step.
    pub stride: Vec<usize>,
    /// Per-axis dimension length after growth; equals the current shape
    /// wherever no growth is needed.
    pub grow: Vec<usize>,
    /// The product of all counts.
    pub total: usize,
}

impl SlabPlan {
    /// The plan as the specs speak of it.
    pub open spec fn view_spec(self) -> PlanShape {
        PlanShape {
            start: self.start@,
            count: self.count@,
            stride: self.stride@,
            grow: self.grow@,
        }
    }

    /// Internal consistency: all vectors share the variable's rank and
    /// `total` is the product of the counts.
    pub open spec fn consistent(self, rank: nat) -> bool {
        &&& self.start@.len() == rank
        &&& self.count@.len() == rank
        &&& self.stride@.len() == rank
        &&& self.grow@.len() == rank
        &&& self.total as int == product(self.count@)
        &&& forall|i: int| 0 <= i < rank ==> self.stride@[i] >= 1
        &&& forall|i: int|
            0 <= i < rank ==> (self.count@[i] == 0 || (self.start@[i] + (self.count@[i] - 1)
                * self.stride@[i] < self.grow@[i]))
    }
}

/// The result of planning, as the specs speak of it.
pub ghost enum PlanOutcome {
    /// The plan that was produced.
    Planned(PlanShape),
    /// The error that was reported.
    Refused(NcError),
}

/// Whether the planning result `r` is exactly what the outcome `o` says:
/// the same plan, or the same error kind.
pub open spec fn outcome_of(o: PlanOutcome, r: Result<SlabPlan, NcError>) -> bool {
    match r {
        Ok(p) => o == PlanOutcome::Planned(p.view_spec()),
        Err(e) => o == PlanOutcome::Refused(e),
    }
}

/// The rank checks shared by every request: each supplied vector must have
/// exactly one entry per axis of the variable.
pub open spec fn ranks_ok(
    rank: nat,
    start: Option<Seq<usize>>,
    count: Option<Seq<usize>>,
    stride: Option<Seq<usize>>,
) -> bool {
    &&& match start {
        Some(s) => s.len() == rank,
        None => true,
    }
    &&& match count {
        Some(c) => c.len() == rank,
        None => true,
    }
    &&& match stride {
        Some(d) => d.len() == rank,
        None => true,
    }
}

/// Whether every stride entry is at least one.
pub open spec fn all_pos(d: Seq<usize>) -> bool {
    forall|i: int| 0 <= i < d.len() ==> d[i] >= 1
}

/// Whether every supplied stride entry is at least one.
pub open spec fn strides_ok(stride: Option<Seq<usize>>) -> bool {
    match stride {
        Some(d) => all_pos(d),
        None => true,
    }
}

/// Whether every start index is at most the length of the axis it
/// addresses.
pub open spec fn starts_ok(shape: Seq<usize>, st: Seq<usize>) -> bool {
    forall|i: int| 0 <= i < shape.len() ==> st[i] <= shape[i]
}

/// Whether every start index on a fixed-length axis is at most that axis's
/// length.
pub open spec fn fixed_starts_ok(shape: Seq<usize>, unlimited: Seq<bool>, st: Seq<usize>) -> bool {
    forall|i: int| 0 <= i < shape.len() && !unlimited[i] ==> st[i] <= shape[i]
}

/// Whether the region stays inside every fixed-length axis; unlimited axes
/// are free to grow.
pub open spec fn fixed_region_within(
    shape: Seq<usize>,
    unlimited: Seq<bool>,
    st: Seq<usize>,
    ct: Seq<usize>,
    sd: Seq<usize>,
) -> bool {
    forall|i: int|
        0 <= i < shape.len() && !unlimited[i] ==> (ct[i] == 0 || st[i] + (ct[i] - 1) * sd[i]
            < shape[i])
}

/// Whether every unlimited axis's post-growth length fits the machine.
pub open spec fn growth_fits(
    shape: Seq<usize>,
    unlimited: Seq<bool>,
    st: Seq<usize>,
    ct: Seq<usize>,
    sd: Seq<usize>,
) -> bool {
    forall|i: int|
        0 <= i < shape.len() && unlimited[i] ==> needed_len(st[i], ct[i], sd[i]) <= usize::MAX
}

/// Whether the region stays inside the axis lengths `limit`:
/// per axis, either nothing is read or the last touched index is in range.
pub open spec fn region_within(
    limit: Seq<usize>,
    st: Seq<usize>,
    ct: Seq<usize>,
    sd: Seq<usize>,
) -> bool {
    forall|i: int|
        0 <= i < limit.len() ==> (ct[i] == 0 || st[i] + (ct[i] - 1) * sd[i] < limit[i])
}

/// What the planner does with a read request: the defaulting, validation and
/// error rules, stated once.
pub open spec fn plan_read_spec(
    shape: Seq<usize>,
    start: Option<Seq<usize>>,
    count: Option<Seq<usize>>,
    stride: Option<Seq<usize>>,
) -> PlanOutcome {
    let rank = shape.len();
    let st = eff_start(start, rank);
    let sd = eff_stride(stride, rank);
    if !ranks_ok(rank, start, count, stride) {
        PlanOutcome::Refused(NcError::DimensionMismatch)
    } else if !strides_ok(stride) {
        PlanOutcome::Refused(NcError::InvalidStride)
    } else if count is None && !starts_ok(shape, st) {
        PlanOutcome::Refused(NcError::DimensionMismatch)
    } else {
        let ct = match count {
            Some(c) => c,
            None => Seq::new(rank, |i: int| axis_extent(shape[i], st[i], sd[i]) as usize),
        };
        if !region_within(shape, st, ct, sd) {
            PlanOutcome::Refused(NcError::DimensionMismatch)
        } else if product(ct) > usize::MAX {
            PlanOutcome::Refused(NcError::DimensionMismatch)
        } else {
            PlanOutcome::Planned(PlanShape { start: st, count: ct, stride: sd, grow: shape })
        }
    }
}

/// The axis length a write must grow an axis to so that the region fits:
/// the index one past the last touched point, or zero when nothing is
/// written on the axis.
pub open spec fn needed_len(st: usize, ct: usize, sd: usize) -> int {
    if ct == 0 {
        0
    } else {
        st + (ct - 1) * sd + 1
    }
}

/// The post-growth lengths for a write: unlimited axes grow to what the
/// region needs, every other axis keeps its length.
pub open spec fn grown_lengths(
    shape: Seq<usize>,
    unlimited: Seq<bool>,
    st: Seq<usize>,
    ct: Seq<usize>,
    sd: Seq<usize>,
) -> Seq<int> {
    Seq::new(
        shape.len(),
        |i: int|
            if unlimited[i] && needed_len(st[i], ct[i], sd[i]) > shape[i] {
                needed_len(st[i], ct[i], sd[i])
            } else {
                shape[i] as int
            },
    )
}

/// How many axes of the variable are unlimited.
pub open spec fn count_unlimited(s: Seq<bool>) -> nat
    decreases s.len(),
{
    if s.len() == 0 {
        0
    } else {
        count_unlimited(s.drop_last()) + if s.last() {
            1nat
        } else {
            0nat
        }
    }
}

/// The first unlimited axis; meaningful when one exists.
pub open spec fn first_unlimited(s: Seq<bool>) -> int
    decreases s.len(),
{
    if s.len() == 0 {
        0
    } else if s[0] {
        0
    } else {
        1 + first_unlimited(s.drop_first())
    }
}

/// Splitting one flag off the front of a prefix count.
pub proof fn lemma_count_unlimited_take_step(s: Seq<bool>, i: int)
    requires
        0 <= i < s.len(),
    ensures
        count_unlimited(s.take(i + 1)) == count_unlimited(s.take(i)) + if s[i] {
            1nat
        } else {
            0nat
        },
{
    assert(s.take(i + 1).drop_last() =~= s.take(i));
    assert(s.take(i + 1).last() == s[i]);
}

/// One set flag makes the count at least one.
pub proof fn lemma_one_unlimited(s: Seq<bool>, a: int)
    requires
        0 <= a < s.len(),
        s[a],
    ensures
        count_unlimited(s) >= 1,
    decreases s.len(),
{
    if a < s.len() - 1 {
        lemma_one_unlimited(s.drop_last(), a);
    }
}

/// Two set flags make the count at least two.
pub proof fn lemma_two_unlimited(s: Seq<bool>, a: int, b: int)
    requires
        0 <= a < b < s.len(),
        s[a],
        s[b],
    ensures
        count_unlimited(s) >= 2,
    decreases s.len(),
{
    if b == s.len() - 1 {
        lemma_one_unlimited(s.drop_last(), a);
    } else {
        lemma_two_unlimited(s.drop_last(), a, b);
    }
}

/// A flag set whose earliest set position is `k` has `first_unlimited == k`.
pub proof fn lemma_first_unlimited(s: Seq<bool>, k: int)
    requires
        0 <= k < s.len(),
        s[k],
        forall|j: int| 0 <= j < k ==> !s[j],
    ensures
        first_unlimited(s) == k,
    decreases s.len(),
{
    if k == 0 {
    } else {
        lemma_first_unlimited(s.drop_first(), k - 1);
    }
}

/// What the planner does with a write request carrying a flat buffer of
/// `buffer_len` values: the defaulting, inference, ambiguity, growth and
/// error rules, stated once.
///
/// With an explicit count the buffer is not consulted: the caller owes a
/// buffer at least as long as the count product, and the region must stay
/// inside every fixed-length axis while unlimited axes grow as needed.
/// With no count, every fixed axis takes its remaining strided extent, a
/// single unlimited axis takes its count from the buffer length (a non-exact
/// division is refused), and two or more unlimited axes are refused as
/// ambiguous.
pub open spec fn plan_write_spec(
    shape: Seq<usize>,
    unlimited: Seq<bool>,
    start: Option<Seq<usize>>,
    count: Option<Seq<usize>>,
    stride: Option<Seq<usize>>,
    buffer_len: nat,
) -> PlanOutcome {
    let rank = shape.len();
    let st = eff_start(start, rank);
    let sd = eff_stride(stride, rank);
    if !ranks_ok(rank, start, count, stride) {
        PlanOutcome::Refused(NcError::DimensionMismatch)
    } else if !strides_ok(stride) {
        PlanOutcome::Refused(NcError::InvalidStride)
    } else {
        match count {
            Some(c) => plan_write_counted(shape, unlimited, st, c, sd),
            None => plan_write_inferred(shape, unlimited, st, sd, buffer_len),
        }
    }
}

/// The explicit-count write rules: fixed axes bound the region, unlimited
/// axes grow to what it needs, and the grown lengths must fit the machine.
pub open spec fn plan_write_counted(
    shape: Seq<usize>,
    unlimited: Seq<bool>,
    st: Seq<usize>,
    ct: Seq<usize>,
    sd: Seq<usize>,
) -> PlanOutcome {
    let rank = shape.len();
    if !fixed_region_within(shape, unlimited, st, ct, sd) {
        PlanOutcome::Refused(NcError::DimensionMismatch)
    } else if !growth_fits(shape, unlimited, st, ct, sd) {
        PlanOutcome::Refused(NcError::DimensionMismatch)
    } else if product(ct) > usize::MAX {
        PlanOutcome::Refused(NcError::DimensionMismatch)
    } else {
        PlanOutcome::Planned(
            PlanShape {
                start: st,
                count: ct,
                stride: sd,
                grow: Seq::new(
                    rank,
                    |i: int| grown_lengths(shape, unlimited, st, ct, sd)[i] as usize,
                ),
            },
        )
    }
}

/// The count-inference rules for a write with no explicit count.
pub open spec fn plan_write_inferred(
    shape: Seq<usize>,
    unlimited: Seq<bool>,
    st: Seq<usize>,
    sd: Seq<usize>,
    buffer_len: nat,
) -> PlanOutcome {
    let rank = shape.len();
    if count_unlimited(unlimited) >= 2 {
        PlanOutcome::Refused(NcError::Ambiguous)
    } else if !fixed_starts_ok(shape, unlimited, st) {
        PlanOutcome::Refused(NcError::DimensionMismatch)
    } else if count_unlimited(unlimited) == 0 {
        let ct = Seq::new(rank, |i: int| axis_extent(shape[i], st[i], sd[i]) as usize);
        if product(ct) != buffer_len {
            PlanOutcome::Refused(NcError::DimensionMismatch)
        } else {
            PlanOutcome::Planned(PlanShape { start: st, count: ct, stride: sd, grow: shape })
        }
    } else {
        let k = first_unlimited(unlimited);
        let others = Seq::new(
            rank,
            |i: int| if i == k { 1usize } else { axis_extent(shape[i], st[i], sd[i]) as usize },
        );
        let p = product(others);
        if p == 0 || (buffer_len as int) % p != 0 {
            PlanOutcome::Refused(NcError::DimensionMismatch)
        } else {
            let ck = (buffer_len as int) / p;
            let ct = Seq::new(rank, |i: int| if i == k { ck as usize } else { others[i] });
            if ck > usize::MAX || needed_len(st[k], ct[k], sd[k]) > usize::MAX {
                PlanOutcome::Refused(NcError::DimensionMismatch)
            } else {
                PlanOutcome::Planned(
                    PlanShape {
                        start: st,
                        count: ct,
                        stride: sd,
                        grow: Seq::new(
                            rank,
                            |i: int| grown_lengths(shape, unlimited, st, ct, sd)[i] as usize,
                        ),
                    },
                )
            }
        }
    }
}

/// Whether each index addresses an existing point of its axis, or, on a
/// write, may grow an unlimited axis to reach it.
pub open spec fn single_within(
    shape: Seq<usize>,
    unlimited: Seq<bool>,
    st: Seq<usize>,
    write: bool,
) -> bool {
    forall|i: int|
        0 <= i < shape.len() ==> ((#[trigger] st[i]) < shape[i] || (write && unlimited[i]))
}

/// Whether each index leaves room for the axis to hold `index + 1` points.
pub open spec fn single_fits(st: Seq<usize>) -> bool {
    forall|i: int| 0 <= i < st.len() ==> st[i] < usize::MAX
}

/// What the planner does with a single-value request: a rank-matching index
/// vector (or all zeros), an implicit count of one on every axis, and never
/// any inference ambiguity.  On a write, each unlimited axis grows
/// independently to `index + 1` where the index lies beyond it.
pub open spec fn plan_single_spec(
    shape: Seq<usize>,
    unlimited: Seq<bool>,
    index: Option<Seq<usize>>,
    write: bool,
) -> PlanOutcome {
    let rank = shape.len();
    let st = eff_start(index, rank);
    let ones = Seq::new(rank, |i: int| 1usize);
    if !(match index {
        Some(s) => s.len() == rank,
        None => true,
    }) {
        PlanOutcome::Refused(NcError::DimensionMismatch)
    } else if !single_within(shape, unlimited, st, write) {
        PlanOutcome::Refused(NcError::DimensionMismatch)
    } else if write && !single_fits(st) {
        PlanOutcome::Refused(NcError::DimensionMismatch)
    } else {
        PlanOutcome::Planned(
            PlanShape {
                start: st,
                count: ones,
                stride: ones,
                grow: Seq::new(
                    rank,
                    |i: int|
                        if write && unlimited[i] && st[i] + 1 > shape[i] {
                            (st[i] + 1) as usize
                        } else {
                            shape[i]
                        },
                ),
            },
        )
    }
}

/// Replacing one factor of a product.
pub proof fn lemma_product_update(s: Seq<usize>, k: int, v: usize)
    requires
        0 <= k < s.len(),
    ensures
        product(s.update(k, v)) * (s[k] as int) == product(s) * (v as int),
    decreases s.len(),
{
    if k == s.len() - 1 {
        assert(s.update(k, v).drop_last() =~= s.drop_last());
        assert(product(s.update(k, v)) == product(s.drop_last()) * (v as int));
        assert((product(s.drop_last()) * (v as int)) * (s[k] as int) == (product(s.drop_last())
            * (s[k] as int)) * (v as int)) by (nonlinear_arith);
    } else {
        assert(s.update(k, v).drop_last() =~= s.drop_last().update(k, v));
        lemma_product_update(s.drop_last(), k, v);
        let pu = product(s.drop_last().update(k, v));
        let pd = product(s.drop_last());
        let l = s.last() as int;
        assert(pu * (s[k] as int) == pd * (v as int));
        assert((pu * l) * (s[k] as int) == (pd * l) * (v as int)) by (nonlinear_arith)
            requires
                pu * (s[k] as int) == pd * (v as int),
        ;
    }
}

/// A product of ones is one.
pub proof fn lemma_product_of(s: Seq<usize>, v: usize)
    requires
        forall|i: int| 0 <= i < s.len() ==> s[i] == v,
        v == 1,
    ensures
        product(s) == 1,
    decreases s.len(),
{
    if s.len() > 0 {
        lemma_product_of(s.drop_last(), v);
    }
}

/// Builds a vector of `rank` copies of `val`.
pub fn filled(rank: usize, val: usize) -> (r: Vec<usize>)
    ensures
        r@.len() == rank,
        forall|i: int| 0 <= i < rank ==> r@[i] == val,
{
    let mut r: Vec<usize> = Vec::new();
    let mut i: usize = 0;
    while i < rank
        invariant
            i <= rank,
            r@.len() == i,
            forall|j: int| 0 <= j < i ==> r@[j] == val,
        decreases rank - i,
    {
        r.push(val);
        i = i + 1;
    }
    r
}

/// Computes the strided extent of one axis.
pub fn axis_extent_exec(len: usize, st: usize, sd: usize) -> (r: usize)
    requires
        sd >= 1,
        st <= len,
    ensures
        r as int == axis_extent(len, st, sd),
        r <= len,
{
    if st >= len {
        0
    } else {
        let rem: usize = len - 1 - st;
        let d: usize = rem / sd;
        proof {
            assert(d <= rem) by (nonlinear_arith)
                requires
                    sd >= 1,
                    rem >= 0,
                    d == rem as int / sd as int,
            ;
        }
        1 + d
    }
}

/// Evaluates one axis's region bound: whether nothing is addressed on the
/// axis or the last touched index stays below `limit`.
fn axis_within(limit: usize, st: usize, ct: usize, sd: usize) -> (r: bool)
    ensures
        r == (ct == 0 || st + (ct - 1) * sd < limit),
{
    if ct == 0 {
        return true;
    }
    let c1: usize = ct - 1;
    match c1.checked_mul(sd) {
        None => {
            proof {
                assert(st + c1 * sd >= c1 * sd);
            }
            false
        }
        Some(m) => match m.checked_add(st) {
            None => false,
            Some(s) => s < limit,
        },
    }
}

/// Evaluates `needed_len` for one axis, or reports that it exceeds
/// `usize::MAX`.
fn axis_needed(st: usize, ct: usize, sd: usize) -> (r: Option<usize>)
    ensures
        match r {
            Some(n) => n as int == needed_len(st, ct, sd),
            None => needed_len(st, ct, sd) > usize::MAX,
        },
{
    if ct == 0 {
        return Some(0);
    }
    let c1: usize = ct - 1;
    match c1.checked_mul(sd) {
        None => {
            proof {
                assert(st + c1 * sd + 1 > c1 * sd);
            }
            None
        }
        Some(m) => match m.checked_add(st) {
            None => None,
            Some(s) => s.checked_add(1),
        },
    }
}

/// Decides whether a supplied vector has one entry per axis.
fn opt_len_ok(v: Option<&Vec<usize>>, rank: usize) -> (r: bool)
    ensures
        r == (opt_view(v) matches Some(s) ==> s.len() == rank),
{
    match v {
        Some(s) => s.len() == rank,
        None => true,
    }
}

/// Decides whether every supplied stride entry is at least one.
fn opt_strides_ok(stride: Option<&Vec<usize>>) -> (r: bool)
    ensures
        r == strides_ok(opt_view(stride)),
{
    match stride {
        Some(d) => {
            let mut i: usize = 0;
            while i < d.len()
                invariant
                    i <= d@.len(),
                    forall|j: int| 0 <= j < i ==> d@[j] >= 1,
                decreases d@.len() - i,
            {
                if d[i] == 0 {
                    assert(!all_pos(d@)) by {
                        assert(0 <= (i as int) < d@.len() && !(d@[i as int] >= 1));
                    }
                    return false;
                }
                i = i + 1;
            }
            assert(all_pos(d@));
            true
        }
        None => true,
    }
}

/// Plans a bulk read: missing start defaults to zeros, missing stride to
/// ones, and a missing count to the remainder of each axis from its start
/// (its strided extent); the region must stay inside the current shape.
pub fn plan_read(
    shape: &Vec<usize>,
    start: Option<&Vec<usize>>,
    count: Option<&Vec<usize>>,
    stride: Option<&Vec<usize>>,
) -> (r: Result<SlabPlan, NcError>)
    ensures
        outcome_of(plan_read_spec(shape@, opt_view(start), opt_view(count), opt_view(stride)), r),
        r matches Ok(p) ==> p.consistent(shape@.len()) && p.grow@ == shape@,
{
    let rank = shape.len();
    let ghost sout = plan_read_spec(shape@, opt_view(start), opt_view(count), opt_view(stride));
    if !opt_len_ok(start, rank) || !opt_len_ok(count, rank) || !opt_len_ok(stride, rank) {
        return Err(NcError::DimensionMismatch);
    }
    if !opt_strides_ok(stride) {
        return Err(NcError::InvalidStride);
    }
    proof {
        assert(ranks_ok(shape@.len(), opt_view(start), opt_view(count), opt_view(stride)));
        assert(strides_ok(opt_view(stride)));
    }
    let st: Vec<usize> = match start {
        Some(s) => copy_usizes(s),
        None => filled(rank, 0),
    };
    let sd: Vec<usize> = match stride {
        Some(d) => copy_usizes(d),
        None => filled(rank, 1),
    };
    proof {
        assert(st@ =~= eff_start(opt_view(start), shape@.len()));
        assert(sd@ =~= eff_stride(opt_view(stride), shape@.len()));
    }
    let ct: Vec<usize> = match count {
        Some(c) => copy_usizes(c),
        None => {
            let mut c: Vec<usize> = Vec::new();
            let mut i: usize = 0;
            while i < rank
                invariant
                    rank == shape@.len(),
                    st@.len() == rank,
                    sd@.len() == rank,
                    forall|j: int| 0 <= j < rank ==> sd@[j] >= 1,
                    i <= rank,
                    c@.len() == i,
                    forall|j: int| 0 <= j < i ==> st@[j] <= shape@[j],
                    forall|j: int|
                        0 <= j < i ==> c@[j] as int == axis_extent(shape@[j], st@[j], sd@[j]),
                decreases rank - i,
            {
                if st[i] > shape[i] {
                    proof {
                        assert(!starts_ok(shape@, st@)) by {
                            assert(0 <= (i as int) < shape@.len() && !(st@[i as int]
                                <= shape@[i as int]));
                        }
                    }
                    return Err(NcError::DimensionMismatch);
                }
                c.push(axis_extent_exec(shape[i], st[i], sd[i]));
                i = i + 1;
            }
            c
        }
    };
    proof {
        if opt_view(count) is None {
            assert(ct@ =~= Seq::new(
                shape@.len(),
                |i: int|
                    axis_extent(
                        shape@[i],
                        eff_start(opt_view(start), shape@.len())[i],
                        eff_stride(opt_view(stride), shape@.len())[i],
                    ) as usize,
            ));
        }
    }
    let mut i: usize = 0;
    while i < rank
        invariant
            rank == shape@.len(),
            st@.len() == rank,
            ct@.len() == rank,
            sd@.len() == rank,
            i <= rank,
            forall|j: int| 0 <= j < i ==> (ct@[j] == 0 || st@[j] + (ct@[j] - 1) * sd@[j] < shape@[j]),
        decreases rank - i,
    {
        if !axis_within(shape[i], st[i], ct[i], sd[i]) {
            proof {
                assert(!region_within(shape@, st@, ct@, sd@)) by {
                    assert(!(ct@[i as int] == 0 || st@[i as int] + (ct@[i as int] - 1)
                        * sd@[i as int] < shape@[i as int]));
                }
            }
            return Err(NcError::DimensionMismatch);
        }
        i = i + 1;
    }
    assert(region_within(shape@, st@, ct@, sd@));
    let total: usize = match checked_product(&ct) {
        Some(t) => t,
        None => {
            return Err(NcError::DimensionMismatch);
        }
    };
    let grow = copy_usizes(shape);
    let p = SlabPlan { start: st, count: ct, stride: sd, grow, total };
    proof {
        assert(sout matches PlanOutcome::Planned(q) && q == p.view_spec());
    }
    Ok(p)
}

/// A nonempty strided extent keeps the last touched index inside the axis.
pub proof fn lemma_extent_within(len: usize, st: usize, sd: usize)
    requires
        sd >= 1,
        st <= len,
        axis_extent(len, st, sd) > 0,
    ensures
        st + (axis_extent(len, st, sd) - 1) * sd < len,
{
    let x = len - 1 - st;
    vstd::arithmetic::div_mod::lemma_remainder_lower(x as int, sd as int);
}

/// The explicit-count half of write planning.
fn plan_write_with_count(
    shape: &Vec<usize>,
    unlimited: &Vec<bool>,
    st: Vec<usize>,
    ct: Vec<usize>,
    sd: Vec<usize>,
) -> (r: Result<SlabPlan, NcError>)
    requires
        unlimited@.len() == shape@.len(),
        st@.len() == shape@.len(),
        ct@.len() == shape@.len(),
        sd@.len() == shape@.len(),
        all_pos(sd@),
    ensures
        outcome_of(plan_write_counted(shape@, unlimited@, st@, ct@, sd@), r),
        r matches Ok(p) ==> p.consistent(shape@.len()),
        r matches Ok(p) ==> p.start@ == st@ && p.count@ == ct@ && p.stride@ == sd@,
        r matches Ok(p) ==> (forall|i: int| 0 <= i < shape@.len() ==> p.grow@[i] >= shape@[i]),
        r matches Ok(p) ==> (forall|i: int|
            0 <= i < shape@.len() && !unlimited@[i] ==> p.grow@[i] == shape@[i]),
{
    let rank = shape.len();
    let mut i: usize = 0;
    while i < rank
        invariant
            i <= rank,
            forall|j: int|
                0 <= j < i && !unlimited@[j] ==> (ct@[j] == 0 || st@[j] + (ct@[j] - 1) * sd@[j]
                    < shape@[j]),
        decreases rank - i,
    {
        if !unlimited[i] {
            if !axis_within(shape[i], st[i], ct[i], sd[i]) {
                proof {
                    assert(!fixed_region_within(shape@, unlimited@, st@, ct@, sd@)) by {
                        assert(0 <= (i as int) < shape@.len() && !unlimited@[i as int] && !(
                        ct@[i as int] == 0 || st@[i as int] + (ct@[i as int] - 1) * sd@[i as int]
                            < shape@[i as int]));
                    }
                }
                return Err(NcError::DimensionMismatch);
            }
        }
        i = i + 1;
    }
    assert(fixed_region_within(shape@, unlimited@, st@, ct@, sd@));
    let mut grow: Vec<usize> = Vec::new();
    let mut i: usize = 0;
    while i < rank
        invariant
            i <= rank,
            grow@.len() == i,
            forall|j: int|
                0 <= j < i ==> grow@[j] as int == grown_lengths(shape@, unlimited@, st@, ct@, sd@)[j],
            forall|j: int|
                0 <= j < i && unlimited@[j] ==> needed_len(st@[j], ct@[j], sd@[j]) <= usize::MAX,
        decreases rank - i,
    {
        if unlimited[i] {
            match axis_needed(st[i], ct[i], sd[i]) {
                None => {
                    proof {
                        assert(!growth_fits(shape@, unlimited@, st@, ct@, sd@)) by {
                            assert(0 <= (i as int) < shape@.len() && unlimited@[i as int] && !(
                            needed_len(st@[i as int], ct@[i as int], sd@[i as int]) <= usize::MAX));
                        }
                    }
                    return Err(NcError::DimensionMismatch);
                }
                Some(n) => {
                    if n > shape[i] {
                        grow.push(n);
                    } else {
                        grow.push(shape[i]);
                    }
                }
            }
        } else {
            grow.push(shape[i]);
        }
        i = i + 1;
    }
    assert(growth_fits(shape@, unlimited@, st@, ct@, sd@));
    let total: usize = match checked_product(&ct) {
        Some(t) => t,
        None => {
            return Err(NcError::DimensionMismatch);
        }
    };
    let p = SlabPlan { start: st, count: ct, stride: sd, grow, total };
    proof {
        assert(p.grow@ =~= Seq::new(
            shape@.len(),
            |i: int| grown_lengths(shape@, unlimited@, p.start@, p.count@, p.stride@)[i] as usize,
        ));
        assert(plan_write_counted(shape@, unlimited@, p.start@, p.count@, p.stride@)
            matches PlanOutcome::Planned(q) && q == p.view_spec());
        assert forall|i: int|
            0 <= i < shape@.len() implies (p.count@[i] == 0 || p.start@[i] + (p.count@[i] - 1)
            * p.stride@[i] < p.grow@[i]) by {
            if p.count@[i] != 0 {
                assert(needed_len(p.start@[i], p.count@[i], p.stride@[i]) == p.start@[i] + (
                p.count@[i] - 1) * p.stride@[i] + 1);
            }
        }
    }
    Ok(p)
}

/// The count-inference half of write planning.
fn plan_write_without_count(
    shape: &Vec<usize>,
    unlimited: &Vec<bool>,
    st: Vec<usize>,
    sd: Vec<usize>,
    buffer_len: usize,
) -> (r: Result<SlabPlan, NcError>)
    requires
        unlimited@.len() == shape@.len(),
        st@.len() == shape@.len(),
        sd@.len() == shape@.len(),
        all_pos(sd@),
    ensures
        outcome_of(plan_write_inferred(shape@, unlimited@, st@, sd@, buffer_len as nat), r),
        r matches Ok(p) ==> p.consistent(shape@.len()),
        r matches Ok(p) ==> p.start@ == st@ && p.stride@ == sd@ && p.total == buffer_len,
        r matches Ok(p) ==> (forall|i: int| 0 <= i < shape@.len() ==> p.grow@[i] >= shape@[i]),
        r matches Ok(p) ==> (forall|i: int|
            0 <= i < shape@.len() && !unlimited@[i] ==> p.grow@[i] == shape@[i]),
{
    let rank = shape.len();
    let mut u: usize = 0;
    let mut k: usize = 0;
    let mut i: usize = 0;
    proof {
        assert(unlimited@.take(0) =~= Seq::<bool>::empty());
    }
    while i < rank
        invariant
            i <= rank,
            u <= i,
            u as nat == count_unlimited(unlimited@.take(i as int)),
            u > 0 ==> ((k as int) < i as int && unlimited@[k as int] && (forall|j: int|
                0 <= j < k ==> !unlimited@[j])),
        decreases rank - i,
    {
        proof {
            lemma_count_unlimited_take_step(unlimited@, i as int);
        }
        if unlimited[i] {
            if u == 0 {
                k = i;
                proof {
                    assert forall|j: int| 0 <= j < i as int implies !unlimited@[j] by {
                        if unlimited@[j] {
                            assert(unlimited@.take(i as int)[j]);
                            lemma_one_unlimited(unlimited@.take(i as int), j);
                        }
                    }
                }
            }
            u = u + 1;
        }
        i = i + 1;
    }
    proof {
        assert(unlimited@.take(rank as int) =~= unlimited@);
    }
    if u >= 2 {
        return Err(NcError::Ambiguous);
    }
    let mut i: usize = 0;
    while i < rank
        invariant
            i <= rank,
            forall|j: int| 0 <= j < i && !unlimited@[j] ==> st@[j] <= shape@[j],
        decreases rank - i,
    {
        if !unlimited[i] && st[i] > shape[i] {
            proof {
                assert(!fixed_starts_ok(shape@, unlimited@, st@)) by {
                    assert(0 <= (i as int) < shape@.len() && !unlimited@[i as int] && !(
                    st@[i as int] <= shape@[i as int]));
                }
            }
            return Err(NcError::DimensionMismatch);
        }
        i = i + 1;
    }
    assert(fixed_starts_ok(shape@, unlimited@, st@));
    if u == 0 {
        proof {
            assert forall|j: int| 0 <= j < shape@.len() implies !unlimited@[j] by {
                if unlimited@[j] {
                    lemma_one_unlimited(unlimited@, j);
                }
            }
        }
        let mut ct: Vec<usize> = Vec::new();
        let mut i: usize = 0;
        while i < rank
            invariant
                i <= rank,
                ct@.len() == i,
                forall|j: int|
                    0 <= j < i ==> ct@[j] as int == axis_extent(shape@[j], st@[j], sd@[j]),
            decreases rank - i,
        {
            proof {
                assert(!unlimited@[i as int]);
                assert(st@[i as int] <= shape@[i as int]);
            }
            ct.push(axis_extent_exec(shape[i], st[i], sd[i]));
            i = i + 1;
        }
        proof {
            assert(ct@ =~= Seq::new(
                shape@.len(),
                |i: int| axis_extent(shape@[i], st@[i], sd@[i]) as usize,
            ));
        }
        let matches_buffer: bool = match checked_product(&ct) {
            Some(p) => p == buffer_len,
            None => false,
        };
        if !matches_buffer {
            return Err(NcError::DimensionMismatch);
        }
        let grow = copy_usizes(shape);
        let p = SlabPlan { start: st, count: ct, stride: sd, grow, total: buffer_len };
        proof {
            assert(plan_write_inferred(shape@, unlimited@, p.start@, p.stride@, buffer_len as nat)
                matches PlanOutcome::Planned(q) && q == p.view_spec());
            assert forall|i: int|
                0 <= i < shape@.len() implies (p.count@[i] == 0 || p.start@[i] + (p.count@[i] - 1)
                * p.stride@[i] < p.grow@[i]) by {
                if p.count@[i] != 0 {
                    lemma_extent_within(shape@[i], st@[i], sd@[i]);
                }
            }
        }
        Ok(p)
    } else {
        proof {
            lemma_first_unlimited(unlimited@, k as int);
            assert forall|j: int|
                0 <= j < shape@.len() && j != k as int implies !unlimited@[j] by {
                if unlimited@[j] {
                    if j < k as int {
                        assert(!unlimited@[j]);
                    } else {
                        lemma_two_unlimited(unlimited@, k as int, j);
                    }
                }
            }
        }
        plan_write_one_unlimited(shape, unlimited, st, sd, buffer_len, k)
    }
}

/// Write planning with exactly one unlimited axis `k` and no explicit
/// count: that axis's count comes from the buffer length.
fn plan_write_one_unlimited(
    shape: &Vec<usize>,
    unlimited: &Vec<bool>,
    st: Vec<usize>,
    sd: Vec<usize>,
    buffer_len: usize,
    k: usize,
) -> (r: Result<SlabPlan, NcError>)
    requires
        unlimited@.len() == shape@.len(),
        st@.len() == shape@.len(),
        sd@.len() == shape@.len(),
        all_pos(sd@),
        count_unlimited(unlimited@) == 1,
        k < shape@.len(),
        unlimited@[k as int],
        forall|j: int| 0 <= j < shape@.len() && j != k as int ==> !unlimited@[j],
        fixed_starts_ok(shape@, unlimited@, st@),
    ensures
        outcome_of(plan_write_inferred(shape@, unlimited@, st@, sd@, buffer_len as nat), r),
        r matches Ok(p) ==> p.consistent(shape@.len()),
        r matches Ok(p) ==> p.start@ == st@ && p.stride@ == sd@ && p.total == buffer_len,
        r matches Ok(p) ==> (forall|i: int| 0 <= i < shape@.len() ==> p.grow@[i] >= shape@[i]),
        r matches Ok(p) ==> (forall|i: int|
            0 <= i < shape@.len() && !unlimited@[i] ==> p.grow@[i] == shape@[i]),
{
    let rank = shape.len();
    proof {
        lemma_first_unlimited(unlimited@, k as int);
    }
    let mut others: Vec<usize> = Vec::new();
    let mut i: usize = 0;
    while i < rank
        invariant
            i <= rank,
            others@.len() == i,
            forall|j: int|
                0 <= j < i ==> others@[j] as int == (if j == k as int {
                    1
                } else {
                    axis_extent(shape@[j], st@[j], sd@[j])
                }),
        decreases rank - i,
    {
        if i == k {
            others.push(1);
        } else {
            proof {
                assert(!unlimited@[i as int]);
                assert(st@[i as int] <= shape@[i as int]);
            }
            others.push(axis_extent_exec(shape[i], st[i], sd[i]));
        }
        i = i + 1;
    }
    let ghost oth = Seq::new(
        shape@.len(),
        |i: int|
            if i == k as int {
                1usize
            } else {
                axis_extent(shape@[i], st@[i], sd@[i]) as usize
            },
    );
    proof {
        assert(others@ =~= oth);
    }
    let ghost pg = product(others@);
    let ck: usize;
    match checked_product(&others) {
        Some(p) => {
            if p == 0 {
                return Err(NcError::DimensionMismatch);
            }
            if buffer_len % p != 0 {
                return Err(NcError::DimensionMismatch);
            }
            ck = buffer_len / p;
        }
        None => {
            proof {
                vstd::arithmetic::div_mod::lemma_small_mod(buffer_len as nat, pg as nat);
            }
            if buffer_len == 0 {
                ck = 0;
                proof {
                    vstd::arithmetic::div_mod::lemma_basic_div(buffer_len as int, pg);
                }
            } else {
                return Err(NcError::DimensionMismatch);
            }
        }
    }
    assert(ck as int == (buffer_len as int) / pg);
    assert(pg != 0 && (buffer_len as int) % pg == 0);
    match axis_needed(st[k], ck, sd[k]) {
        None => {
            return Err(NcError::DimensionMismatch);
        }
        Some(n) => {
            let gk: usize = if n > shape[k] {
                n
            } else {
                shape[k]
            };
            let mut ct: Vec<usize> = Vec::new();
            let mut grow: Vec<usize> = Vec::new();
            let mut i: usize = 0;
            while i < rank
                invariant
                    i <= rank,
                    ct@.len() == i,
                    grow@.len() == i,
                    forall|j: int|
                        0 <= j < i ==> ct@[j] == (if j == k as int {
                            ck
                        } else {
                            others@[j]
                        }),
                    forall|j: int|
                        0 <= j < i ==> grow@[j] == (if j == k as int {
                            gk
                        } else {
                            shape@[j]
                        }),
                decreases rank - i,
            {
                if i == k {
                    ct.push(ck);
                    grow.push(gk);
                } else {
                    ct.push(others[i]);
                    grow.push(shape[i]);
                }
                i = i + 1;
            }
            let ghost cts = Seq::new(
                shape@.len(),
                |i: int|
                    if i == k as int {
                        ck
                    } else {
                        oth[i]
                    },
            );
            proof {
                assert(ct@ =~= cts);
                assert(ct@ =~= others@.update(k as int, ck));
                lemma_product_update(others@, k as int, ck);
                assert(product(ct@) * 1 == pg * (ck as int));
                assert(pg * ((buffer_len as int) / pg) == buffer_len as int) by {
                    vstd::arithmetic::div_mod::lemma_fundamental_div_mod(buffer_len as int, pg);
                }
                assert(product(ct@) == buffer_len as int);
            }
            let p = SlabPlan { start: st, count: ct, stride: sd, grow, total: buffer_len };
            proof {
                assert forall|j: int|
                    0 <= j < shape@.len() implies p.grow@[j] as int == grown_lengths(
                    shape@,
                    unlimited@,
                    p.start@,
                    p.count@,
                    p.stride@,
                )[j] by {
                    if j == k as int {
                        assert(needed_len(st@[j], p.count@[j], sd@[j]) == n as int);
                    } else {
                        assert(!unlimited@[j]);
                    }
                }
                assert(p.grow@ =~= Seq::new(
                    shape@.len(),
                    |i: int| grown_lengths(shape@, unlimited@, p.start@, p.count@, p.stride@)[i]
                        as usize,
                ));
                assert(plan_write_inferred(
                    shape@,
                    unlimited@,
                    p.start@,
                    p.stride@,
                    buffer_len as nat,
                ) matches PlanOutcome::Planned(q) && q == p.view_spec());
                assert forall|i: int|
                    0 <= i < shape@.len() implies (p.count@[i] == 0 || p.start@[i] + (p.count@[i]
                    - 1) * p.stride@[i] < p.grow@[i]) by {
                    if p.count@[i] != 0 {
                        if i == k as int {
                            assert(needed_len(st@[i], p.count@[i], sd@[i]) == st@[i] + (
                            p.count@[i] - 1) * sd@[i] + 1);
                        } else {
                            lemma_extent_within(shape@[i], st@[i], sd@[i]);
                        }
                    }
                }
            }
            Ok(p)
        }
    }
}

/// Plans a bulk write carrying `buffer_len` values.  With an explicit count
/// the region must stay inside every fixed-length axis while unlimited axes
/// grow to what it needs; with no count, fixed axes take their remaining
/// strided extent, a single unlimited axis takes its count from the buffer
/// length, and several unlimited axes are ambiguous.
pub fn plan_write(
    shape: &Vec<usize>,
    unlimited: &Vec<bool>,
    start: Option<&Vec<usize>>,
    count: Option<&Vec<usize>>,
    stride: Option<&Vec<usize>>,
    buffer_len: usize,
) -> (r: Result<SlabPlan, NcError>)
    requires
        unlimited@.len() == shape@.len(),
    ensures
        outcome_of(
            plan_write_spec(
                shape@,
                unlimited@,
                opt_view(start),
                opt_view(count),
                opt_view(stride),
                buffer_len as nat,
            ),
            r,
        ),
        r matches Ok(p) ==> p.consistent(shape@.len()),
        r matches Ok(p) ==> (forall|i: int| 0 <= i < shape@.len() ==> p.grow@[i] >= shape@[i]),
        r matches Ok(p) ==> (forall|i: int|
            0 <= i < shape@.len() && !unlimited@[i] ==> p.grow@[i] == shape@[i]),
        r matches Ok(p) ==> (opt_view(count) is None ==> p.total == buffer_len),
        r matches Ok(p) ==> (match opt_view(count) {
            Some(c) => p.count@ == c,
            None => true,
        }),
{
    let rank = shape.len();
    if !opt_len_ok(start, rank) || !opt_len_ok(count, rank) || !opt_len_ok(stride, rank) {
        return Err(NcError::DimensionMismatch);
    }
    if !opt_strides_ok(stride) {
        return Err(NcError::InvalidStride);
    }
    let st: Vec<usize> = match start {
        Some(s) => copy_usizes(s),
        None => filled(rank, 0),
    };
    let sd: Vec<usize> = match stride {
        Some(d) => copy_usizes(d),
        None => filled(rank, 1),
    };
    proof {
        assert(st@ =~= eff_start(opt_view(start), shape@.len()));
        assert(sd@ =~= eff_stride(opt_view(stride), shape@.len()));
        assert(all_pos(sd@));
    }
    match count {
        Some(c) => {
            let ct = copy_usizes(c);
            plan_write_with_count(shape, unlimited, st, ct, sd)
        }
        None => plan_write_without_count(shape, unlimited, st, sd, buffer_len),
    }
}
/// Plans a single-value access: the index vector (or all zeros) with an
/// implicit count of one on every axis.  A write grows each unlimited axis
/// independently to `index + 1` where the index lies beyond it.
pub fn plan_single(
    shape: &Vec<usize>,
    unlimited: &Vec<bool>,
    index: Option<&Vec<usize>>,
    write: bool,
) -> (r: Result<SlabPlan, NcError>)
    requires
        unlimited@.len() == shape@.len(),
    ensures
        outcome_of(plan_single_spec(shape@, unlimited@, opt_view(index), write), r),
        r matches Ok(p) ==> p.consistent(shape@.len()),
        r matches Ok(p) ==> p.total == 1,
        r matches Ok(p) ==> (forall|i: int| 0 <= i < shape@.len() ==> p.grow@[i] >= shape@[i]),
        r matches Ok(p) ==> (forall|i: int|
            0 <= i < shape@.len() && !unlimited@[i] ==> p.grow@[i] == shape@[i]),
        r matches Ok(p) ==> (!write ==> p.grow@ == shape@),
{
    let rank = shape.len();
    let ghost sout = plan_single_spec(shape@, unlimited@, opt_view(index), write);
    if !opt_len_ok(index, rank) {
        return Err(NcError::DimensionMismatch);
    }
    let st: Vec<usize> = match index {
        Some(s) => copy_usizes(s),
        None => filled(rank, 0),
    };
    proof {
        assert(st@ =~= eff_start(opt_view(index), shape@.len()));
    }
    let mut i: usize = 0;
    while i < rank
        invariant
            i <= rank,
            forall|j: int|
                0 <= j < i ==> ((#[trigger] st@[j]) < shape@[j] || (write && unlimited@[j])),
        decreases rank - i,
    {
        if st[i] >= shape[i] && (!write || !unlimited[i]) {
            proof {
                assert(!single_within(shape@, unlimited@, st@, write)) by {
                    assert(0 <= (i as int) < shape@.len() && !(st@[i as int] < shape@[i as int] || (
                    write && unlimited@[i as int])));
                }
            }
            return Err(NcError::DimensionMismatch);
        }
        i = i + 1;
    }
    assert(single_within(shape@, unlimited@, st@, write));
    if write {
        let mut i: usize = 0;
        while i < rank
            invariant
                i <= rank,
                forall|j: int| 0 <= j < i ==> st@[j] < usize::MAX,
            decreases rank - i,
        {
            if st[i] == usize::MAX {
                proof {
                    assert(!single_fits(st@)) by {
                        assert(0 <= (i as int) < st@.len() && !(st@[i as int] < usize::MAX));
                    }
                }
                return Err(NcError::DimensionMismatch);
            }
            i = i + 1;
        }
        assert(single_fits(st@));
    }
    let ones = filled(rank, 1);
    let mut grow: Vec<usize> = Vec::new();
    let mut i: usize = 0;
    while i < rank
        invariant
            i <= rank,
            grow@.len() == i,
            write ==> single_fits(st@),
            forall|j: int|
                0 <= j < i ==> grow@[j] as int == (if write && unlimited@[j] && st@[j] + 1
                    > shape@[j] {
                    st@[j] + 1
                } else {
                    shape@[j] as int
                }),
        decreases rank - i,
    {
        if write && unlimited[i] && st[i] >= shape[i] {
            grow.push(st[i] + 1);
        } else {
            grow.push(shape[i]);
        }
        i = i + 1;
    }
    let ones2 = copy_usizes(&ones);
    let p = SlabPlan { start: st, count: ones, stride: ones2, grow, total: 1 };
    proof {
        lemma_product_of(p.count@, 1);
        assert(p.count@ =~= Seq::new(shape@.len(), |i: int| 1usize));
        assert(p.stride@ =~= Seq::new(shape@.len(), |i: int| 1usize));
        assert(p.grow@ =~= Seq::new(
            shape@.len(),
            |i: int|
                if write && unlimited@[i] && st@[i] + 1 > shape@[i] {
                    (st@[i] + 1) as usize
                } else {
                    shape@[i]
                },
        ));
        assert(sout matches PlanOutcome::Planned(q) && q == p.view_spec());
    }
    Ok(p)
}

/// The multi-index of the `k`-th element of a region with the given
/// per-axis counts, in row-major order: the last axis varies fastest.
pub open spec fn unflatten(k: int, counts: Seq<usize>) -> Seq<int>
    decreases counts.len(),
{
    if counts.len() == 0 {
        Seq::empty()
    } else {
        unflatten(k / (counts.last() as int), counts.drop_last()).push(
            k % (counts.last() as int),
        )
    }
}

/// A positive product has only positive factors.
pub proof fn lemma_product_all_pos(s: Seq<usize>)
    requires
        product(s) > 0,
    ensures
        forall|i: int| 0 <= i < s.len() ==> s[i] > 0,
{
    assert forall|i: int| 0 <= i < s.len() implies s[i] > 0 by {
        if s[i] == 0 {
            lemma_product_zero(s, i);
        }
    }
}

/// The multi-index has one digit per axis.
pub proof fn lemma_unflatten_len(k: int, counts: Seq<usize>)
    ensures
        unflatten(k, counts).len() == counts.len(),
    decreases counts.len(),
{
    if counts.len() > 0 {
        lemma_unflatten_len(k / (counts.last() as int), counts.drop_last());
    }
}

/// Within the region, every digit of the multi-index is within its axis's
/// count.
pub proof fn lemma_unflatten_bounds(k: int, counts: Seq<usize>)
    requires
        0 <= k < product(counts),
    ensures
        unflatten(k, counts).len() == counts.len(),
        forall|i: int| 0 <= i < counts.len() ==> 0 <= #[trigger] unflatten(k, counts)[i] < counts[i],
    decreases counts.len(),
{
    lemma_unflatten_len(k, counts);
    if counts.len() > 0 {
        let c = counts.last() as int;
        let pd = product(counts.drop_last());
        assert(product(counts) == pd * c);
        lemma_product_all_pos(counts);
        assert(c > 0);
        vstd::arithmetic::div_mod::lemma_mod_bound(k, c);
        vstd::arithmetic::div_mod::lemma_multiply_divide_lt(k, c, pd);
        assert(c * pd == pd * c) by (nonlinear_arith);
        assert(k / c < pd);
        vstd::arithmetic::div_mod::lemma_div_pos_is_pos(k, c);
        lemma_unflatten_bounds(k / c, counts.drop_last());
        assert forall|i: int|
            0 <= i < counts.len() implies 0 <= #[trigger] unflatten(k, counts)[i] < counts[i] by {
            if i < counts.len() - 1 {
                assert(unflatten(k, counts)[i] == unflatten(k / c, counts.drop_last())[i]);
                assert(counts[i] == counts.drop_last()[i]);
            } else {
                assert(unflatten(k, counts)[i] == k % c);
            }
        }
    }
}

/// Distinct element numbers have distinct multi-indices.
pub proof fn lemma_unflatten_injective(counts: Seq<usize>, k1: int, k2: int)
    requires
        0 <= k1 < product(counts),
        0 <= k2 < product(counts),
        k1 != k2,
    ensures
        unflatten(k1, counts) != unflatten(k2, counts),
    decreases counts.len(),
{
    lemma_unflatten_len(k1, counts);
    lemma_unflatten_len(k2, counts);
    if counts.len() == 0 {
        assert(product(counts) == 1);
        assert(false);
    } else {
        let c = counts.last() as int;
        let pd = product(counts.drop_last());
        assert(product(counts) == pd * c);
        lemma_product_all_pos(counts);
        vstd::arithmetic::div_mod::lemma_fundamental_div_mod(k1, c);
        vstd::arithmetic::div_mod::lemma_fundamental_div_mod(k2, c);
        if k1 % c != k2 % c {
            assert(unflatten(k1, counts).last() != unflatten(k2, counts).last());
        } else {
            assert(k1 / c != k2 / c);
            vstd::arithmetic::div_mod::lemma_multiply_divide_lt(k1, c, pd);
            vstd::arithmetic::div_mod::lemma_multiply_divide_lt(k2, c, pd);
            assert(c * pd == pd * c) by (nonlinear_arith);
            vstd::arithmetic::div_mod::lemma_div_pos_is_pos(k1, c);
            vstd::arithmetic::div_mod::lemma_div_pos_is_pos(k2, c);
            lemma_unflatten_injective(counts.drop_last(), k1 / c, k2 / c);
            assert(unflatten(k1, counts).drop_last() =~= unflatten(k1 / c, counts.drop_last()));
            assert(unflatten(k2, counts).drop_last() =~= unflatten(k2 / c, counts.drop_last()));
            if unflatten(k1, counts) == unflatten(k2, counts) {
                assert(unflatten(k1, counts).drop_last() == unflatten(k2, counts).drop_last());
                assert(false);
            }
        }
    }
}

/// The index vector the `k`-th element of a planned region addresses:
/// per axis, the start index plus the digit of the multi-index scaled by
/// the stride.
pub open spec fn target_key(st: Seq<usize>, ct: Seq<usize>, sd: Seq<usize>, k: int) -> Seq<usize> {
    Seq::new(st.len(), |i: int| (st[i] + unflatten(k, ct)[i] * sd[i]) as usize)
}

/// Bounds on the addressed index vector: each entry stays strictly below
/// the post-growth axis length `limit`, and the arithmetic never leaves the
/// machine range.
pub proof fn lemma_target_in_range(
    st: Seq<usize>,
    ct: Seq<usize>,
    sd: Seq<usize>,
    limit: Seq<usize>,
    k: int,
)
    requires
        st.len() == ct.len() == sd.len() == limit.len(),
        0 <= k < product(ct),
        forall|i: int| 0 <= i < sd.len() ==> sd[i] >= 1,
        forall|i: int|
            0 <= i < limit.len() ==> (ct[i] == 0 || st[i] + (ct[i] - 1) * sd[i] < limit[i]),
    ensures
        forall|i: int|
            0 <= i < st.len() ==> st[i] + #[trigger] unflatten(k, ct)[i] * sd[i] < limit[i],
        forall|i: int| 0 <= i < st.len() ==> (#[trigger] target_key(st, ct, sd, k)[i]) as int == st[i]
            + unflatten(k, ct)[i] * sd[i],
{
    lemma_unflatten_bounds(k, ct);
    assert forall|i: int|
        0 <= i < st.len() implies st[i] + #[trigger] unflatten(k, ct)[i] * sd[i] < limit[i] by {
        let d = unflatten(k, ct)[i];
        assert(0 <= d < ct[i]);
        assert(d * sd[i] <= (ct[i] - 1) * sd[i]) by (nonlinear_arith)
            requires
                d <= ct[i] - 1,
                sd[i] >= 1,
        ;
        assert(d * sd[i] >= 0) by (nonlinear_arith)
            requires
                d >= 0,
                sd[i] >= 1,
        ;
    }
}

/// Distinct element numbers address distinct cells.
pub proof fn lemma_target_injective(
    st: Seq<usize>,
    ct: Seq<usize>,
    sd: Seq<usize>,
    limit: Seq<usize>,
    k1: int,
    k2: int,
)
    requires
        st.len() == ct.len() == sd.len() == limit.len(),
        0 <= k1 < product(ct),
        0 <= k2 < product(ct),
        k1 != k2,
        forall|i: int| 0 <= i < sd.len() ==> sd[i] >= 1,
        forall|i: int|
            0 <= i < limit.len() ==> (ct[i] == 0 || st[i] + (ct[i] - 1) * sd[i] < limit[i]),
        forall|i: int| 0 <= i < limit.len() ==> limit[i] <= usize::MAX,
    ensures
        target_key(st, ct, sd, k1) != target_key(st, ct, sd, k2),
{
    lemma_unflatten_bounds(k1, ct);
    lemma_unflatten_bounds(k2, ct);
    lemma_unflatten_injective(ct, k1, k2);
    lemma_target_in_range(st, ct, sd, limit, k1);
    lemma_target_in_range(st, ct, sd, limit, k2);
    let d1 = unflatten(k1, ct);
    let d2 = unflatten(k2, ct);
    assert(!(forall|i: int| 0 <= i < ct.len() ==> d1[i] == d2[i])) by {
        if forall|i: int| 0 <= i < ct.len() ==> d1[i] == d2[i] {
            assert(d1 =~= d2);
        }
    }
    let i = choose|i: int| 0 <= i < ct.len() && d1[i] != d2[i];
    assert(d1[i] * sd[i] != d2[i] * sd[i]) by (nonlinear_arith)
        requires
            d1[i] != d2[i],
            sd[i] >= 1,
    ;
    assert(target_key(st, ct, sd, k1)[i] as int == st[i] + d1[i] * sd[i]);
    assert(target_key(st, ct, sd, k2)[i] as int == st[i] + d2[i] * sd[i]);
    assert(target_key(st, ct, sd, k1)[i] != target_key(st, ct, sd, k2)[i]);
}

/// Computes the multi-index of the `k`-th element of a region with the
/// given per-axis counts, row-major.
pub fn index_digits(k: usize, counts: &Vec<usize>) -> (r: Vec<usize>)
    requires
        product(counts@) <= usize::MAX,
        k < product(counts@),
    ensures
        r@.len() == counts@.len(),
        forall|i: int| 0 <= i < counts@.len() ==> r@[i] as int == unflatten(k as int, counts@)[i],
{
    proof {
        lemma_product_all_pos(counts@);
        lemma_unflatten_bounds(k as int, counts@);
    }
    let rank = counts.len();
    let mut r: Vec<usize> = Vec::new();
    let mut kk: usize = k;
    let mut j: usize = rank;
    proof {
        assert(counts@.take(rank as int) =~= counts@);
        assert(unflatten(kk as int, counts@.take(j as int)) + r@.map(
            |x: int, v: usize| v as int,
        ) =~= unflatten(k as int, counts@));
    }
    while j > 0
        invariant
            j <= rank,
            rank == counts@.len(),
            r@.len() == rank - j,
            forall|i: int| 0 <= i < counts@.len() ==> counts@[i] > 0,
            unflatten(kk as int, counts@.take(j as int)) + r@.map(|x: int, v: usize| v as int)
                == unflatten(k as int, counts@),
        decreases j,
    {
        j = j - 1;
        let c = counts[j];
        let d: usize = kk % c;
        proof {
            assert(counts@.take(j + 1).last() == counts@[j as int]);
            assert(counts@.take(j + 1).drop_last() =~= counts@.take(j as int));
            assert(unflatten(kk as int, counts@.take(j + 1)) == unflatten(
                (kk as int) / (c as int),
                counts@.take(j as int),
            ).push((kk as int) % (c as int)));
            let a = unflatten((kk as int) / (c as int), counts@.take(j as int));
            let rm = r@.map(|x: int, v: usize| v as int);
            assert(a.push((kk as int) % (c as int)) + rm =~= a + (seq![
                (kk as int) % (c as int),
            ] + rm));
        }
        kk = kk / c;
        let mut nr: Vec<usize> = Vec::new();
        nr.push(d);
        let mut t: usize = 0;
        while t < r.len()
            invariant
                t <= r@.len(),
                nr@.len() == t + 1,
                nr@[0] == d,
                forall|q: int| 0 <= q < t ==> nr@[q + 1] == r@[q],
            decreases r@.len() - t,
        {
            nr.push(r[t]);
            t = t + 1;
        }
        proof {
            assert(nr@.map(|x: int, v: usize| v as int) =~= seq![d as int] + r@.map(
                |x: int, v: usize| v as int,
            ));
        }
        r = nr;
    }
    proof {
        assert(counts@.take(0) =~= Seq::<usize>::empty());
        assert(unflatten(kk as int, counts@.take(0)) + r@.map(|x: int, v: usize| v as int) =~= r@.map(
            |x: int, v: usize| v as int,
        ));
        assert forall|i: int| 0 <= i < counts@.len() implies r@[i] as int == unflatten(
            k as int,
            counts@,
        )[i] by {
            assert(r@.map(|x: int, v: usize| v as int)[i] == r@[i] as int);
        }
        lemma_unflatten_len(k as int, counts@);
    }
    r
}

/// Computes the index vector the `k`-th element of the plan addresses.
pub fn target_index(plan: &SlabPlan, k: usize) -> (r: Vec<usize>)
    requires
        plan.consistent(plan.start@.len() as nat),
        k < plan.total,
    ensures
        r@ == target_key(plan.start@, plan.count@, plan.stride@, k as int),
        forall|i: int| 0 <= i < r@.len() ==> (#[trigger] r@[i]) < plan.grow@[i],
        r@.len() == plan.start@.len(),
{
    proof {
        lemma_target_in_range(plan.start@, plan.count@, plan.stride@, plan.grow@, k as int);
        lemma_unflatten_bounds(k as int, plan.count@);
    }
    let digits = index_digits(k, &plan.count);
    let rank = plan.start.len();
    let mut r: Vec<usize> = Vec::new();
    let mut i: usize = 0;
    while i < rank
        invariant
            i <= rank,
            rank == plan.start@.len(),
            digits@.len() == rank,
            r@.len() == i,
            forall|q: int|
                0 <= q < i ==> r@[q] == target_key(plan.start@, plan.count@, plan.stride@, k as int)[q],
        decreases rank - i,
    {
        let d = digits[i];
        proof {
            assert(plan.start@[i as int] + unflatten(k as int, plan.count@)[i as int]
                * plan.stride@[i as int] < plan.grow@[i as int]);
            assert(d as int == unflatten(k as int, plan.count@)[i as int]);
        }
        r.push(plan.start[i] + d * plan.stride[i]);
        i = i + 1;
    }
    proof {
        assert(r@ =~= target_key(plan.start@, plan.count@, plan.stride@, k as int));
        lemma_target_in_range(plan.start@, plan.count@, plan.stride@, plan.grow@, k as int);
    }
    r
}

} // verus!
