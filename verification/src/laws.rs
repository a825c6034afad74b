//! File-wide laws: properties that relate several operations, each proved
//! from the contracts the operations themselves carry.

use vstd::prelude::*;
use crate::error::NcError;
use crate::file::{
    dim_growth, fill_mode_effect, fill_set_effect, lemma_dim_growth_ge, put_effect, RawFile,
};
use crate::hyperslab::{
    count_unlimited, plan_read_spec, plan_write_spec, product, target_key, PlanOutcome, PlanShape,
};
use crate::types::NumericType;

verus! {

/// A plan's vectors as a region over a variable of rank `rank`: every
/// vector has one entry per axis, strides are positive, and the region's
/// last touched index stays below the post-growth length of each axis.
pub open spec fn region_consistent(p: PlanShape, rank: nat) -> bool {
    &&& p.start.len() == rank
    &&& p.count.len() == rank
    &&& p.stride.len() == rank
    &&& p.grow.len() == rank
    &&& (forall|i: int| 0 <= i < rank ==> p.stride[i] >= 1)
    &&& (forall|i: int|
        0 <= i < rank ==> (p.count[i] == 0 || p.start[i] + (p.count[i] - 1) * p.stride[i]
            < p.grow[i]))
}

/// A dimension asked to grow no further than it already reaches keeps its
/// length.
pub proof fn lemma_dim_growth_bounded(axes: Seq<usize>, grow: Seq<usize>, d: int, base: int)
    requires
        axes.len() == grow.len(),
        forall|i: int| 0 <= i < axes.len() && axes[i] == d ==> grow[i] <= base,
    ensures
        dim_growth(axes, grow, d, base) == base,
    decreases axes.len(),
{
    if axes.len() > 0 {
        assert forall|i: int|
            0 <= i < axes.drop_last().len() && axes.drop_last()[i] == d implies grow.drop_last()[i]
            <= base by {
            assert(axes[i] == axes.drop_last()[i]);
            assert(grow[i] == grow.drop_last()[i]);
        }
        lemma_dim_growth_bounded(axes.drop_last(), grow.drop_last(), d, base);
    }
}

/// A variable's total length is the product of its shape; and a write that
/// grows no axis leaves every variable's shape — and with it that product —
/// exactly as it was.  (The length query itself returns the product of the
/// shape by its own contract; this law adds that non-growing writes cannot
/// disturb it.)
pub proof fn lemma_nongrowing_write_keeps_shape(
    pre: RawFile,
    post: RawFile,
    v: int,
    p: PlanShape,
    vals: Seq<i128>,
)
    requires
        pre.wf(),
        0 <= v < pre.vars@.len(),
        put_effect(pre, post, v, p, vals),
        p.grow.len() == pre.vars@[v].dims@.len(),
        forall|i: int| 0 <= i < p.grow.len() ==> p.grow[i] <= pre.shape_spec(v)[i],
    ensures
        forall|u: int| 0 <= u < pre.vars@.len() ==> post.shape_spec(u) == pre.shape_spec(u),
        forall|u: int|
            0 <= u < pre.vars@.len() ==> product(#[trigger] post.shape_spec(u)) == product(
                pre.shape_spec(u),
            ),
{
    let axes = pre.vars@[v].dims@;
    assert forall|d: int| 0 <= d < pre.dims@.len() implies (#[trigger] post.dims@[d]).len
        == pre.dims@[d].len by {
        assert forall|i: int| 0 <= i < axes.len() && axes[i] == d implies p.grow[i]
            <= pre.dims@[d].len as int by {
            assert(pre.shape_spec(v)[i] == pre.dims@[axes[i] as int].len);
        }
        lemma_dim_growth_bounded(axes, p.grow, d, pre.dims@[d].len as int);
    }
    assert forall|u: int| 0 <= u < pre.vars@.len() implies #[trigger] post.shape_spec(u)
        == pre.shape_spec(u) by {
        assert(crate::file::var_wf(
            pre.groups@.len() as int,
            pre.dims@.len() as int,
            pre.vars@[u],
        ));
        assert(post.vars@[u].dims@ == pre.vars@[u].dims@);
        assert(post.shape_spec(u) =~= pre.shape_spec(u));
    }
}

/// Growth through one variable's write is a file-wide effect: any other
/// variable sharing the grown dimension sees at least the grown length on
/// its own axis, through a plain shape query.
pub proof fn lemma_growth_visible_to_sharers(
    pre: RawFile,
    post: RawFile,
    v: int,
    p: PlanShape,
    vals: Seq<i128>,
    u: int,
    i: int,
    j: int,
)
    requires
        pre.wf(),
        0 <= v < pre.vars@.len(),
        put_effect(pre, post, v, p, vals),
        p.grow.len() == pre.vars@[v].dims@.len(),
        0 <= i < pre.vars@[v].dims@.len(),
        0 <= u < pre.vars@.len(),
        0 <= j < pre.vars@[u].dims@.len(),
        pre.vars@[u].dims@[j] == pre.vars@[v].dims@[i],
    ensures
        post.shape_spec(u)[j] >= p.grow[i],
        post.shape_spec(u)[j] >= pre.shape_spec(u)[j],
{
    let axes = pre.vars@[v].dims@;
    let d = axes[i] as int;
    assert(crate::file::var_wf(pre.groups@.len() as int, pre.dims@.len() as int, pre.vars@[v]));
    assert(crate::file::var_wf(pre.groups@.len() as int, pre.dims@.len() as int, pre.vars@[u]));
    lemma_dim_growth_ge(axes, p.grow, d, pre.dims@[d].len as int);
    assert(post.dims@[d].len as int == dim_growth(axes, p.grow, d, pre.dims@[d].len as int));
    assert(post.vars@[u].dims@ == pre.vars@[u].dims@);
    assert(post.shape_spec(u)[j] == post.dims@[d].len);
}

/// Round trip: after a write of plan `p` with buffer `vals`, a read of the
/// very same region — the plan's start, count and stride — returns `vals`,
/// value for value, in any representation that can hold them.
pub proof fn lemma_put_get_roundtrip(
    pre: RawFile,
    post: RawFile,
    v: int,
    p: PlanShape,
    vals: Seq<i128>,
    rep: NumericType,
)
    requires
        pre.wf(),
        0 <= v < pre.vars@.len(),
        pre.vars@[v].vartype is Numeric,
        put_effect(pre, post, v, p, vals),
        region_consistent(p, pre.vars@[v].dims@.len()),
        product(p.count) <= usize::MAX,
        forall|k: int| 0 <= k < product(p.count) ==> rep.in_range(#[trigger] vals[k] as int),
    ensures
        ({
            let r = post.values_outcome(v, Some(p.start), Some(p.count), Some(p.stride), rep);
            &&& r matches Ok(s)
            &&& (r matches Ok(s) ==> s.len() == product(p.count) && (forall|k: int|
                0 <= k < s.len() ==> s[k] == vals[k] as int))
        }),
{
    let rank = pre.vars@[v].dims@.len();
    let axes = pre.vars@[v].dims@;
    assert(crate::file::var_wf(pre.groups@.len() as int, pre.dims@.len() as int, pre.vars@[v]));
    assert(post.vars@[v].dims@ == axes);
    assert(post.vars@[v].vartype is Numeric);
    assert(post.shape_spec(v).len() == rank);
    assert forall|i: int| 0 <= i < rank implies post.shape_spec(v)[i] as int >= p.grow[i] by {
        let d = axes[i] as int;
        lemma_dim_growth_ge(axes, p.grow, d, pre.dims@[d].len as int);
        assert(post.shape_spec(v)[i] == post.dims@[d].len);
    }
    assert(crate::hyperslab::ranks_ok(
        post.shape_spec(v).len(),
        Some(p.start),
        Some(p.count),
        Some(p.stride),
    ));
    assert(crate::hyperslab::strides_ok(Some(p.stride)));
    assert(crate::hyperslab::region_within(post.shape_spec(v), p.start, p.count, p.stride));
    let out = plan_read_spec(post.shape_spec(v), Some(p.start), Some(p.count), Some(p.stride));
    assert(out matches PlanOutcome::Planned(q) && q.start == p.start && q.count == p.count
        && q.stride == p.stride);
    assert forall|k: int|
        0 <= k < product(p.count) implies post.vars@[v].cell_value(
        #[trigger] target_key(p.start, p.count, p.stride, k),
    ) == vals[k] as int by {
        assert(post.vars@[v].cells.lookup(target_key(p.start, p.count, p.stride, k)) == Some(
            vals[k],
        ));
    }
    assert forall|k: int|
        0 <= k < product(p.count) implies rep.in_range(
        post.vars@[v].cell_value(#[trigger] target_key(p.start, p.count, p.stride, k)),
    ) by {
        assert(rep.in_range(vals[k] as int));
    }
    crate::hyperslab::lemma_product_nonneg(p.count);
    let r = post.values_outcome(v, Some(p.start), Some(p.count), Some(p.stride), rep);
    assert(r matches Ok(s) && s.len() == product(p.count));
}

/// With no explicit count, several unlimited axes are always ambiguous,
/// whatever the buffer length.
pub proof fn lemma_two_unlimited_always_ambiguous(
    shape: Seq<usize>,
    unlimited: Seq<bool>,
    start: Option<Seq<usize>>,
    stride: Option<Seq<usize>>,
    buffer_len: nat,
)
    requires
        unlimited.len() == shape.len(),
        count_unlimited(unlimited) >= 2,
        crate::hyperslab::ranks_ok(shape.len(), start, None, stride),
        crate::hyperslab::strides_ok(stride),
    ensures
        plan_write_spec(shape, unlimited, start, None, stride, buffer_len)
            == PlanOutcome::Refused(NcError::Ambiguous),
{
}

/// With exactly one unlimited axis and no explicit count, start or stride,
/// the write infers that axis's count as the buffer length divided by the
/// product of the fixed axes' lengths, growing the axis to that count where
/// it exceeds the current length; a non-exact division is refused.
pub proof fn lemma_single_unlimited_inference(
    shape: Seq<usize>,
    unlimited: Seq<bool>,
    buffer_len: nat,
)
    requires
        unlimited.len() == shape.len(),
        count_unlimited(unlimited) == 1,
        buffer_len <= usize::MAX,
    ensures
        ({
            let k = crate::hyperslab::first_unlimited(unlimited);
            let fixed = Seq::new(
                shape.len(),
                |i: int|
                    if i == k {
                        1usize
                    } else {
                        shape[i]
                    },
            );
            let fp = product(fixed);
            &&& (fp > 0 && buffer_len as int % fp != 0 ==> plan_write_spec(
                shape,
                unlimited,
                None,
                None,
                None,
                buffer_len,
            ) == PlanOutcome::Refused(NcError::DimensionMismatch))
            &&& (fp > 0 && buffer_len as int % fp == 0 ==> (match plan_write_spec(
                shape,
                unlimited,
                None,
                None,
                None,
                buffer_len,
            ) {
                PlanOutcome::Planned(p) => {
                    &&& p.count[k] as int == buffer_len as int / fp
                    &&& p.grow[k] as int == (if buffer_len as int / fp > shape[k] {
                        buffer_len as int / fp
                    } else {
                        shape[k] as int
                    })
                },
                PlanOutcome::Refused(_) => false,
            }))
        }),
{
    let rank = shape.len();
    let k = crate::hyperslab::first_unlimited(unlimited);
    lemma_first_unlimited_in_range(unlimited);
    let st = crate::hyperslab::eff_start(None, rank);
    let sd = crate::hyperslab::eff_stride(None, rank);
    assert(crate::hyperslab::fixed_starts_ok(shape, unlimited, st));
    let oth = Seq::new(
        rank,
        |i: int|
            if i == k {
                1usize
            } else {
                crate::hyperslab::axis_extent(shape[i], st[i], sd[i]) as usize
            },
    );
    let fixed = Seq::new(
        rank,
        |i: int|
            if i == k {
                1usize
            } else {
                shape[i]
            },
    );
    assert forall|i: int| 0 <= i < rank implies oth[i] == fixed[i] by {
        if i != k {
            assert(st[i] == 0 && sd[i] == 1);
            if shape[i] > 0 {
                assert(crate::hyperslab::axis_extent(shape[i], 0, 1) == 1 + (shape[i] - 1) / 1);
                assert((shape[i] - 1) as int / 1 == shape[i] - 1) by {
                    vstd::arithmetic::div_mod::lemma_div_basics_1((shape[i] - 1) as int);
                }
            }
        }
    }
    assert(oth =~= fixed);
    let fp = product(fixed);
    if fp > 0 && buffer_len as int % fp == 0 {
        let ck = buffer_len as int / fp;
        vstd::arithmetic::div_mod::lemma_div_nonincreasing(buffer_len as int, fp);
        vstd::arithmetic::div_mod::lemma_div_pos_is_pos(buffer_len as int, fp);
        assert(ck <= buffer_len as int);
        assert(crate::hyperslab::needed_len(st[k], ck as usize, sd[k]) == (if ck == 0 {
            0
        } else {
            ck
        }));
    }
}

/// With exactly one unlimited axis, an explicit start, default stride and
/// no explicit count, the write infers that axis's count as the buffer
/// length divided by the product of the fixed axes' remainders
/// (`length - start`), growing the axis to `start + count` where that
/// exceeds the current length; a non-exact division is refused.
pub proof fn lemma_single_unlimited_inference_at(
    shape: Seq<usize>,
    unlimited: Seq<bool>,
    st: Seq<usize>,
    buffer_len: nat,
)
    requires
        unlimited.len() == shape.len(),
        st.len() == shape.len(),
        count_unlimited(unlimited) == 1,
        buffer_len <= usize::MAX,
        forall|i: int| 0 <= i < shape.len() && !unlimited[i] ==> st[i] <= shape[i],
    ensures
        ({
            let k = crate::hyperslab::first_unlimited(unlimited);
            let fixed = Seq::new(
                shape.len(),
                |i: int|
                    if i == k {
                        1usize
                    } else {
                        (shape[i] - st[i]) as usize
                    },
            );
            let fp = product(fixed);
            &&& (fp > 0 && buffer_len as int % fp != 0 ==> plan_write_spec(
                shape,
                unlimited,
                Some(st),
                None,
                None,
                buffer_len,
            ) == PlanOutcome::Refused(NcError::DimensionMismatch))
            &&& (fp > 0 && buffer_len as int % fp == 0 && st[k] + buffer_len as int / fp
                <= usize::MAX ==> (match plan_write_spec(
                shape,
                unlimited,
                Some(st),
                None,
                None,
                buffer_len,
            ) {
                PlanOutcome::Planned(p) => {
                    &&& p.start == st
                    &&& p.count[k] as int == buffer_len as int / fp
                    &&& p.grow[k] as int == (if buffer_len as int / fp > 0 && st[k]
                        + buffer_len as int / fp > shape[k] {
                        st[k] + buffer_len as int / fp
                    } else {
                        shape[k] as int
                    })
                },
                PlanOutcome::Refused(_) => false,
            }))
        }),
{
    let rank = shape.len();
    let k = crate::hyperslab::first_unlimited(unlimited);
    lemma_first_unlimited_in_range(unlimited);
    let ste = crate::hyperslab::eff_start(Some(st), rank);
    let sd = crate::hyperslab::eff_stride(None, rank);
    assert forall|j: int| 0 <= j < rank && j != k implies !unlimited[j] by {
        if unlimited[j] && j > k {
            crate::hyperslab::lemma_two_unlimited(unlimited, k, j);
        }
    }
    assert(crate::hyperslab::fixed_starts_ok(shape, unlimited, ste));
    let oth = Seq::new(
        rank,
        |i: int|
            if i == k {
                1usize
            } else {
                crate::hyperslab::axis_extent(shape[i], ste[i], sd[i]) as usize
            },
    );
    let fixed = Seq::new(
        rank,
        |i: int|
            if i == k {
                1usize
            } else {
                (shape[i] - st[i]) as usize
            },
    );
    assert forall|i: int| 0 <= i < rank implies oth[i] == fixed[i] by {
        if i != k {
            assert(!unlimited[i]);
            assert(st[i] <= shape[i]);
            assert(sd[i] == 1);
            if shape[i] > st[i] {
                assert(crate::hyperslab::axis_extent(shape[i], st[i], 1) == 1 + (shape[i] - 1
                    - st[i]) / 1);
                assert((shape[i] - 1 - st[i]) as int / 1 == shape[i] - 1 - st[i]) by {
                    vstd::arithmetic::div_mod::lemma_div_basics_1((shape[i] - 1 - st[i]) as int);
                }
            }
        }
    }
    assert(oth =~= fixed);
    let fp = product(fixed);
    if fp > 0 && buffer_len as int % fp == 0 && st[k] + buffer_len as int / fp <= usize::MAX {
        let ck = buffer_len as int / fp;
        vstd::arithmetic::div_mod::lemma_div_nonincreasing(buffer_len as int, fp);
        vstd::arithmetic::div_mod::lemma_div_pos_is_pos(buffer_len as int, fp);
        assert(0 <= ck <= buffer_len as int);
        assert(crate::hyperslab::needed_len(ste[k], ck as usize, sd[k]) == (if ck == 0 {
            0
        } else {
            st[k] + ck
        })) by {
            if ck > 0 {
                assert((ck - 1) * 1 == ck - 1) by (nonlinear_arith);
            }
        }
    }
}

/// The first unlimited axis of a flag set with at least one set flag is a
/// real axis, is unlimited, and nothing before it is.
pub proof fn lemma_first_unlimited_in_range(s: Seq<bool>)
    requires
        count_unlimited(s) >= 1,
    ensures
        0 <= crate::hyperslab::first_unlimited(s) < s.len(),
        s[crate::hyperslab::first_unlimited(s)],
        forall|j: int| 0 <= j < crate::hyperslab::first_unlimited(s) ==> !s[j],
    decreases s.len(),
{
    if s.len() > 0 {
        if s[0] {
        } else {
            assert(count_unlimited(s.drop_first()) >= 1) by {
                lemma_count_unlimited_drop_first(s);
            }
            lemma_first_unlimited_in_range(s.drop_first());
            assert forall|j: int|
                0 <= j < crate::hyperslab::first_unlimited(s) implies !s[j] by {
                if j > 0 {
                    assert(s.drop_first()[j - 1] == s[j]);
                }
            }
        }
    }
}

/// Dropping a clear first flag keeps the count.
proof fn lemma_count_unlimited_drop_first(s: Seq<bool>)
    requires
        s.len() > 0,
        !s[0],
    ensures
        count_unlimited(s.drop_first()) == count_unlimited(s),
    decreases s.len(),
{
    if s.len() == 1 {
        assert(s.drop_first() =~= Seq::<bool>::empty());
        assert(s.drop_last() =~= Seq::<bool>::empty());
        assert(s.last() == s[0]);
    } else {
        lemma_count_unlimited_drop_first(s.drop_last());
        assert(s.drop_first().drop_last() =~= s.drop_last().drop_first());
        assert(s.drop_first().last() == s.last());
    }
}

/// Setting the same fill value twice in a row: the second call finds and
/// leaves exactly the state the first call produced, so the observable fill
/// state — the attribute and the value every never-written cell reads — is
/// identical both times.
pub proof fn lemma_fill_idempotent(
    s0: RawFile,
    s1: RawFile,
    s2: RawFile,
    v: int,
    value: i128,
)
    requires
        s0.wf(),
        0 <= v < s0.vars@.len(),
        fill_set_effect(s0, s1, v, value),
        fill_set_effect(s1, s2, v, value),
    ensures
        s2.vars@[v].fill == s1.vars@[v].fill,
        s2.vars@[v].fill_enabled == s1.vars@[v].fill_enabled,
        s2.vars@[v].effective_fill() == s1.vars@[v].effective_fill(),
        forall|key: Seq<usize>|
            #[trigger] s2.vars@[v].cell_value(key) == s1.vars@[v].cell_value(key),
{
}

/// Switching to no-fill mode and back to fill mode with the same value
/// restores the same observable fill behaviour: every cell — written or
/// newly grown and never written — reads back exactly as before, and the
/// fill attribute shows the same value.
pub proof fn lemma_fill_mode_restore(
    s0: RawFile,
    s1: RawFile,
    s2: RawFile,
    v: int,
    value: i128,
)
    requires
        s0.wf(),
        0 <= v < s0.vars@.len(),
        s0.vars@[v].fill == Some(value),
        s0.vars@[v].fill_enabled == true,
        fill_mode_effect(s0, s1, v, false),
        fill_set_effect(s1, s2, v, value),
    ensures
        s2.vars@[v].fill == s0.vars@[v].fill,
        s2.vars@[v].fill_enabled == s0.vars@[v].fill_enabled,
        s2.vars@[v].effective_fill() == s0.vars@[v].effective_fill(),
        forall|key: Seq<usize>|
            #[trigger] s2.vars@[v].cell_value(key) == s0.vars@[v].cell_value(key),
{
}

} // verus!
