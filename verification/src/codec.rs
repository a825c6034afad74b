//! The byte image of a container: a little-endian, length-prefixed layout
//! holding the groups, dimensions, variables and written cells of a file.
//!
//! `image_spec` defines the format mathematically; `to_image` is proved to
//! produce exactly that sequence, and `from_image` accepts only images that
//! decode to a well-formed file, validating every reference as it reads.

use vstd::prelude::*;
use crate::dimension::Dimension;
use crate::error::NcError;
use crate::error::CODE_NOT_CONTAINER;
use crate::file::RawFile;
use crate::group::Group;
use crate::types::{storable, NumericType, VarType};
use crate::variable::Variable;

verus! {

/// The first eight bytes of every image.
pub const IMAGE_MAGIC: u64 = 0x0031_4c53_4e43_4447;

/// 256 to the `n`.
pub open spec fn pow256(n: nat) -> int
    decreases n,
{
    if n == 0 {
        1
    } else {
        256 * pow256((n - 1) as nat)
    }
}

/// The little-endian encoding of `x` in `n` bytes; meaningful when
/// `0 <= x < pow256(n)`.
pub open spec fn enc_le(x: int, n: nat) -> Seq<u8>
    decreases n,
{
    if n == 0 {
        Seq::empty()
    } else {
        seq![(x % 256) as u8] + enc_le(x / 256, (n - 1) as nat)
    }
}

/// The value of a little-endian byte sequence.
pub open spec fn dec_le(s: Seq<u8>) -> int
    decreases s.len(),
{
    if s.len() == 0 {
        0
    } else {
        s[0] + 256 * dec_le(s.drop_first())
    }
}

/// Decoded values are bounded by the sequence's width.
pub proof fn lemma_dec_le_bound(s: Seq<u8>)
    ensures
        0 <= dec_le(s) < pow256(s.len()),
    decreases s.len(),
{
    if s.len() > 0 {
        lemma_dec_le_bound(s.drop_first());
        let r = dec_le(s.drop_first());
        let p = pow256((s.len() - 1) as nat);
        assert(s[0] + 256 * r < 256 * p) by (nonlinear_arith)
            requires
                s[0] < 256,
                r < p,
                r >= 0,
        ;
        assert(s[0] + 256 * r >= 0) by (nonlinear_arith)
            requires
                s[0] >= 0,
                r >= 0,
        ;
    }
}

/// Appending one byte raises the value by that byte times the width.
pub proof fn lemma_dec_le_push(s: Seq<u8>, b: u8)
    ensures
        dec_le(s.push(b)) == dec_le(s) + b * pow256(s.len()),
    decreases s.len(),
{
    if s.len() == 0 {
        assert(s.push(b).drop_first() =~= Seq::<u8>::empty());
        assert(s.push(b)[0] == b);
        assert(dec_le(s.push(b)) == b + 256 * dec_le(s.push(b).drop_first()));
        assert(dec_le(s) == 0 && pow256(s.len()) == 1);
    } else {
        assert(s.push(b).drop_first() =~= s.drop_first().push(b));
        lemma_dec_le_push(s.drop_first(), b);
        let r = dec_le(s.drop_first());
        let p = pow256((s.len() - 1) as nat);
        assert(dec_le(s.push(b)) == s[0] + 256 * (r + b * p));
        assert(s[0] + 256 * (r + b * p) == (s[0] + 256 * r) + b * (256 * p)) by (nonlinear_arith);
    }
}

/// Encoding inverts decoding on sequences of the right width.
pub proof fn lemma_enc_dec(s: Seq<u8>)
    ensures
        enc_le(dec_le(s), s.len()) == s,
    decreases s.len(),
{
    if s.len() > 0 {
        let x = dec_le(s);
        let r = dec_le(s.drop_first());
        lemma_dec_le_bound(s.drop_first());
        assert(x == s[0] + 256 * r);
        assert(x % 256 == s[0] && x / 256 == r) by {
            vstd::arithmetic::div_mod::lemma_fundamental_div_mod_converse(
                x,
                256,
                r,
                s[0] as int,
            );
        }
        lemma_enc_dec(s.drop_first());
        assert(enc_le(x, s.len()) =~= s);
    }
}

/// An encoding always has `n` bytes.
pub proof fn lemma_enc_le_len(x: int, n: nat)
    ensures
        enc_le(x, n).len() == n,
    decreases n,
{
    if n > 0 {
        lemma_enc_le_len(x / 256, (n - 1) as nat);
    }
}

/// Decoding inverts encoding on values within the width.
pub proof fn lemma_dec_enc(x: int, n: nat)
    requires
        0 <= x < pow256(n),
    ensures
        dec_le(enc_le(x, n)) == x,
    decreases n,
{
    if n == 0 {
    } else {
        assert(pow256(n) == 256 * pow256((n - 1) as nat));
        assert(x / 256 < pow256((n - 1) as nat)) by {
            vstd::arithmetic::div_mod::lemma_multiply_divide_lt(x, 256, pow256((n - 1) as nat));
        }
        vstd::arithmetic::div_mod::lemma_div_pos_is_pos(x, 256);
        lemma_dec_enc(x / 256, (n - 1) as nat);
        let s = enc_le(x, n);
        assert(s.drop_first() =~= enc_le(x / 256, (n - 1) as nat));
        vstd::arithmetic::div_mod::lemma_fundamental_div_mod(x, 256);
        vstd::arithmetic::div_mod::lemma_mod_bound(x, 256);
    }
}

/// Splitting a known concatenation at its seam.
pub proof fn lemma_split_at(b: Seq<u8>, pos: int, x: Seq<u8>, y: Seq<u8>)
    requires
        0 <= pos,
        pos + x.len() + y.len() <= b.len(),
        b.subrange(pos, pos + x.len() + y.len()) == x + y,
    ensures
        b.subrange(pos, pos + x.len() as int) == x,
        b.subrange(pos + x.len() as int, pos + x.len() + y.len()) == y,
{
    assert forall|i: int| 0 <= i < x.len() implies b.subrange(pos, pos + x.len() as int)[i]
        == x[i] by {
        assert(b.subrange(pos, pos + x.len() + y.len())[i] == (x + y)[i]);
    }
    assert(b.subrange(pos, pos + x.len() as int) =~= x);
    assert forall|i: int|
        0 <= i < y.len() implies b.subrange(pos + x.len() as int, pos + x.len() + y.len())[i]
        == y[i] by {
        assert(b.subrange(pos, pos + x.len() + y.len())[x.len() + i] == (x + y)[x.len() + i]);
        assert((x + y)[x.len() + i] == y[i]);
        assert(b.subrange(pos + x.len() as int, pos + x.len() + y.len())[i] == b[pos + x.len()
            + i]);
        assert(b.subrange(pos, pos + x.len() + y.len())[x.len() + i] == b[pos + x.len() + i]);
    }
    assert(b.subrange(pos + x.len() as int, pos + x.len() + y.len()) =~= y);
}

/// A block known to encode `x` decodes to `x`.
pub proof fn lemma_block_value(b: Seq<u8>, pos: int, x: int)
    requires
        0 <= pos,
        pos + 8 <= b.len(),
        0 <= x < pow256(8),
        b.subrange(pos, pos + 8) == enc_le(x, 8),
    ensures
        dec_le(b.subrange(pos, pos + 8)) == x,
{
    lemma_dec_enc(x, 8);
}

/// A run of values takes eight bytes each.
pub proof fn lemma_enc_ids_len(s: Seq<usize>)
    ensures
        enc_ids(s).len() == 8 * s.len(),
    decreases s.len(),
{
    if s.len() > 0 {
        lemma_enc_ids_len(s.drop_last());
        lemma_enc_le_len(s.last() as int, 8);
    }
}

/// The `j`-th block of a run encodes its `j`-th value.
pub proof fn lemma_enc_ids_block(s: Seq<usize>, j: int)
    requires
        0 <= j < s.len(),
    ensures
        enc_ids(s).subrange(8 * j, 8 * j + 8) == enc_le(s[j] as int, 8),
    decreases s.len(),
{
    lemma_enc_ids_len(s);
    lemma_enc_le_len(s.last() as int, 8);
    if j == s.len() - 1 {
        lemma_enc_ids_len(s.drop_last());
        assert(enc_ids(s).subrange(8 * j, 8 * j + 8) =~= enc_le(s.last() as int, 8));
    } else {
        lemma_enc_ids_block(s.drop_last(), j);
        lemma_enc_ids_len(s.drop_last());
        assert(s.drop_last()[j] == s[j]);
        assert(enc_ids(s).subrange(8 * j, 8 * j + 8) =~= enc_ids(s.drop_last()).subrange(
            8 * j,
            8 * j + 8,
        ));
    }
}

/// Two length-prefixed strings occupying the same bytes are the same.
pub proof fn lemma_lp_unique(b: Seq<u8>, pos: int, e: Seq<u8>, v: Seq<u8>, p2: int)
    requires
        0 <= pos,
        pos + 8 + e.len() <= b.len(),
        b.subrange(pos, pos + 8 + e.len()) == enc_lp(e),
        p2 == pos + 8 + v.len(),
        p2 <= b.len(),
        b.subrange(pos, p2) == enc_lp(v),
        e.len() < pow256(8),
        v.len() < pow256(8),
    ensures
        v == e,
        p2 == pos + 8 + e.len(),
{
    lemma_enc_le_len(e.len() as int, 8);
    lemma_enc_le_len(v.len() as int, 8);
    lemma_split_at(b, pos, enc_le(e.len() as int, 8), e);
    lemma_split_at(b, pos, enc_le(v.len() as int, 8), v);
    lemma_block_value(b, pos, e.len() as int);
    lemma_block_value(b, pos, v.len() as int);
    assert(v.len() == e.len());
    assert(v =~= e);
}

/// `usize` values fit eight bytes.
pub proof fn lemma_usize_in_block()
    ensures
        usize::MAX < pow256(8),
        u64::MAX < pow256(8),
        u32::MAX < pow256(8),
{
    lemma_pow256_8();
}

/// `u64::MAX` is one less than eight bytes' worth.
pub proof fn lemma_pow256_8()
    ensures
        pow256(8) == 0x1_0000_0000_0000_0000,
{
    assert(pow256(0) == 1);
    assert(pow256(1) == 256);
    assert(pow256(2) == 0x1_0000);
    assert(pow256(3) == 0x100_0000);
    assert(pow256(4) == 0x1_0000_0000);
    assert(pow256(5) == 0x100_0000_0000);
    assert(pow256(6) == 0x1_0000_0000_0000);
    assert(pow256(7) == 0x100_0000_0000_0000);
}

/// The group table from position `i` on, peeled from the front.
pub open spec fn enc_groups_from(s: Seq<Group>, i: int) -> Seq<u8>
    decreases s.len() - i,
{
    if i < 0 || i >= s.len() {
        Seq::empty()
    } else {
        enc_group(s[i]) + enc_groups_from(s, i + 1)
    }
}

/// Peeling from the front and cutting the last entry commute.
proof fn lemma_groups_from_snoc(s: Seq<Group>, i: int)
    requires
        s.len() >= 1,
        0 <= i <= s.len() - 1,
    ensures
        enc_groups_from(s, i) == enc_groups_from(s.drop_last(), i) + enc_group(s.last()),
    decreases s.len() - i,
{
    if i == s.len() - 1 {
        assert(enc_groups_from(s, i + 1) =~= Seq::<u8>::empty());
        assert(enc_groups_from(s.drop_last(), i) =~= Seq::<u8>::empty());
        assert(enc_groups_from(s, i) =~= enc_groups_from(s.drop_last(), i) + enc_group(s.last()));
    } else {
        lemma_groups_from_snoc(s, i + 1);
        assert(s.drop_last()[i] == s[i]);
        assert(enc_groups_from(s, i) =~= enc_groups_from(s.drop_last(), i) + enc_group(s.last()));
    }
}

/// The two readings of the group table agree.
pub proof fn lemma_enc_groups_from(s: Seq<Group>)
    ensures
        enc_groups_from(s, 0) == enc_groups(s),
    decreases s.len(),
{
    if s.len() == 0 {
        assert(enc_groups_from(s, 0) =~= enc_groups(s));
    } else {
        lemma_enc_groups_from(s.drop_last());
        lemma_groups_from_snoc(s, 0);
    }
}

/// The dimension table from position `i` on, peeled from the front.
pub open spec fn enc_dims_from(s: Seq<Dimension>, i: int) -> Seq<u8>
    decreases s.len() - i,
{
    if i < 0 || i >= s.len() {
        Seq::empty()
    } else {
        enc_dim(s[i]) + enc_dims_from(s, i + 1)
    }
}

/// Peeling from the front and cutting the last entry commute.
proof fn lemma_dims_from_snoc(s: Seq<Dimension>, i: int)
    requires
        s.len() >= 1,
        0 <= i <= s.len() - 1,
    ensures
        enc_dims_from(s, i) == enc_dims_from(s.drop_last(), i) + enc_dim(s.last()),
    decreases s.len() - i,
{
    if i == s.len() - 1 {
        assert(enc_dims_from(s, i + 1) =~= Seq::<u8>::empty());
        assert(enc_dims_from(s.drop_last(), i) =~= Seq::<u8>::empty());
        assert(enc_dims_from(s, i) =~= enc_dims_from(s.drop_last(), i) + enc_dim(s.last()));
    } else {
        lemma_dims_from_snoc(s, i + 1);
        assert(s.drop_last()[i] == s[i]);
        assert(enc_dims_from(s, i) =~= enc_dims_from(s.drop_last(), i) + enc_dim(s.last()));
    }
}

/// The two readings of the dimension table agree.
pub proof fn lemma_enc_dims_from(s: Seq<Dimension>)
    ensures
        enc_dims_from(s, 0) == enc_dims(s),
    decreases s.len(),
{
    if s.len() == 0 {
        assert(enc_dims_from(s, 0) =~= enc_dims(s));
    } else {
        lemma_enc_dims_from(s.drop_last());
        lemma_dims_from_snoc(s, 0);
    }
}

/// The variable table from position `i` on, peeled from the front.
pub open spec fn enc_vars_from(s: Seq<Variable>, i: int) -> Seq<u8>
    decreases s.len() - i,
{
    if i < 0 || i >= s.len() {
        Seq::empty()
    } else {
        enc_var(s[i]) + enc_vars_from(s, i + 1)
    }
}

/// Peeling from the front and cutting the last entry commute.
proof fn lemma_vars_from_snoc(s: Seq<Variable>, i: int)
    requires
        s.len() >= 1,
        0 <= i <= s.len() - 1,
    ensures
        enc_vars_from(s, i) == enc_vars_from(s.drop_last(), i) + enc_var(s.last()),
    decreases s.len() - i,
{
    if i == s.len() - 1 {
        assert(enc_vars_from(s, i + 1) =~= Seq::<u8>::empty());
        assert(enc_vars_from(s.drop_last(), i) =~= Seq::<u8>::empty());
        assert(enc_vars_from(s, i) =~= enc_vars_from(s.drop_last(), i) + enc_var(s.last()));
    } else {
        lemma_vars_from_snoc(s, i + 1);
        assert(s.drop_last()[i] == s[i]);
        assert(enc_vars_from(s, i) =~= enc_vars_from(s.drop_last(), i) + enc_var(s.last()));
    }
}

/// The two readings of the variable table agree.
pub proof fn lemma_enc_vars_from(s: Seq<Variable>)
    ensures
        enc_vars_from(s, 0) == enc_vars(s),
    decreases s.len(),
{
    if s.len() == 0 {
        assert(enc_vars_from(s, 0) =~= enc_vars(s));
    } else {
        lemma_enc_vars_from(s.drop_last());
        lemma_vars_from_snoc(s, 0);
    }
}

/// The numeric cell entries from position `i` on, peeled from the front;
/// meaningful when the key and value lists have one entry each.
pub open spec fn enc_cells_from(keys: Seq<Seq<usize>>, vals: Seq<i128>, i: int) -> Seq<u8>
    decreases keys.len() - i,
{
    if i < 0 || i >= keys.len() || keys.len() != vals.len() {
        Seq::empty()
    } else {
        enc_cell(keys[i], vals[i]) + enc_cells_from(keys, vals, i + 1)
    }
}

/// Peeling from the front and cutting the last entry commute.
proof fn lemma_cells_from_snoc(keys: Seq<Seq<usize>>, vals: Seq<i128>, i: int)
    requires
        keys.len() == vals.len(),
        keys.len() >= 1,
        0 <= i <= keys.len() - 1,
    ensures
        enc_cells_from(keys, vals, i) == enc_cells_from(keys.drop_last(), vals.drop_last(), i)
            + enc_cell(keys.last(), vals.last()),
    decreases keys.len() - i,
{
    if i == keys.len() - 1 {
        assert(enc_cells_from(keys, vals, i + 1) =~= Seq::<u8>::empty());
        assert(enc_cells_from(keys.drop_last(), vals.drop_last(), i) =~= Seq::<u8>::empty());
        assert(enc_cells_from(keys, vals, i) =~= enc_cells_from(
            keys.drop_last(),
            vals.drop_last(),
            i,
        ) + enc_cell(keys.last(), vals.last()));
    } else {
        lemma_cells_from_snoc(keys, vals, i + 1);
        assert(keys.drop_last()[i] == keys[i] && vals.drop_last()[i] == vals[i]);
        assert(enc_cells_from(keys, vals, i) =~= enc_cells_from(
            keys.drop_last(),
            vals.drop_last(),
            i,
        ) + enc_cell(keys.last(), vals.last()));
    }
}

/// The two readings of the cell entries agree.
pub proof fn lemma_enc_cells_from(keys: Seq<Seq<usize>>, vals: Seq<i128>)
    requires
        keys.len() == vals.len(),
    ensures
        enc_cells_from(keys, vals, 0) == enc_cells(keys, vals),
    decreases keys.len(),
{
    if keys.len() == 0 {
        assert(enc_cells_from(keys, vals, 0) =~= enc_cells(keys, vals));
    } else {
        lemma_enc_cells_from(keys.drop_last(), vals.drop_last());
        lemma_cells_from_snoc(keys, vals, 0);
    }
}

/// The text cell entries from position `i` on, peeled from the front.
pub open spec fn enc_tcells_from(keys: Seq<Seq<usize>>, vals: Seq<Seq<u8>>, i: int) -> Seq<u8>
    decreases keys.len() - i,
{
    if i < 0 || i >= keys.len() || keys.len() != vals.len() {
        Seq::empty()
    } else {
        enc_tcell(keys[i], vals[i]) + enc_tcells_from(keys, vals, i + 1)
    }
}

/// Peeling from the front and cutting the last entry commute.
proof fn lemma_tcells_from_snoc(keys: Seq<Seq<usize>>, vals: Seq<Seq<u8>>, i: int)
    requires
        keys.len() == vals.len(),
        keys.len() >= 1,
        0 <= i <= keys.len() - 1,
    ensures
        enc_tcells_from(keys, vals, i) == enc_tcells_from(keys.drop_last(), vals.drop_last(), i)
            + enc_tcell(keys.last(), vals.last()),
    decreases keys.len() - i,
{
    if i == keys.len() - 1 {
        assert(enc_tcells_from(keys, vals, i + 1) =~= Seq::<u8>::empty());
        assert(enc_tcells_from(keys.drop_last(), vals.drop_last(), i) =~= Seq::<u8>::empty());
        assert(enc_tcells_from(keys, vals, i) =~= enc_tcells_from(
            keys.drop_last(),
            vals.drop_last(),
            i,
        ) + enc_tcell(keys.last(), vals.last()));
    } else {
        lemma_tcells_from_snoc(keys, vals, i + 1);
        assert(keys.drop_last()[i] == keys[i] && vals.drop_last()[i] == vals[i]);
        assert(enc_tcells_from(keys, vals, i) =~= enc_tcells_from(
            keys.drop_last(),
            vals.drop_last(),
            i,
        ) + enc_tcell(keys.last(), vals.last()));
    }
}

/// The two readings of the text cell entries agree.
pub proof fn lemma_enc_tcells_from(keys: Seq<Seq<usize>>, vals: Seq<Seq<u8>>)
    requires
        keys.len() == vals.len(),
    ensures
        enc_tcells_from(keys, vals, 0) == enc_tcells(keys, vals),
    decreases keys.len(),
{
    if keys.len() == 0 {
        assert(enc_tcells_from(keys, vals, 0) =~= enc_tcells(keys, vals));
    } else {
        lemma_enc_tcells_from(keys.drop_last(), vals.drop_last());
        lemma_tcells_from_snoc(keys, vals, 0);
    }
}

/// Appends the eight-byte encoding of `x`.
pub fn push_u64(out: &mut Vec<u8>, x: u64)
    ensures
        final(out)@ == old(out)@ + enc_le(x as int, 8),
{
    let ghost base = out@;
    let mut cur: u64 = x;
    let mut i: usize = 0;
    proof {
        assert(out@ =~= base + Seq::<u8>::empty());
    }
    while i < 8
        invariant
            i <= 8,
            out@.len() == base.len() + i,
            out@ + enc_le(cur as int, (8 - i) as nat) == base + enc_le(x as int, 8),
        decreases 8 - i,
    {
        let d: u8 = (cur % 256) as u8;
        proof {
            assert(enc_le(cur as int, (8 - i) as nat) == seq![(cur as int % 256) as u8] + enc_le(
                cur as int / 256,
                (8 - (i + 1)) as nat,
            ));
            assert(out@.push(d) + enc_le(cur as int / 256, (8 - (i + 1)) as nat) =~= out@ + enc_le(
                cur as int,
                (8 - i) as nat,
            ));
        }
        out.push(d);
        cur = cur / 256;
        i = i + 1;
    }
    proof {
        assert(out@ + enc_le(cur as int, 0) =~= out@);
    }
}

/// Reads the eight-byte value at `pos`.
pub fn parse_u64(b: &Vec<u8>, pos: usize) -> (r: Option<(u64, usize)>)
    ensures
        match r {
            Some((x, p2)) => {
                &&& p2 == pos + 8 <= b@.len()
                &&& x as int == dec_le(b@.subrange(pos as int, pos + 8))
                &&& b@.subrange(pos as int, pos + 8) == enc_le(x as int, 8)
            },
            None => pos + 8 > b@.len(),
        },
{
    if pos >= b.len() || b.len() - pos < 8 {
        return None;
    }
    let mut acc: u128 = 0;
    let mut i: usize = 0;
    proof {
        assert(b@.subrange(pos as int, pos as int) =~= Seq::<u8>::empty());
    }
    while i < 8
        invariant
            i <= 8,
            pos + 8 <= b@.len(),
            acc as int == dec_le(b@.subrange(pos as int, pos + i)),
            (acc as int) < pow256(i as nat),
        decreases 8 - i,
    {
        let by: u8 = b[pos + i];
        proof {
            assert(b@.subrange(pos as int, pos + i).push(by) =~= b@.subrange(
                pos as int,
                pos + i + 1,
            ));
            lemma_dec_le_push(b@.subrange(pos as int, pos + i), by);
            assert(b@.subrange(pos as int, pos + i).len() == i as nat);
            lemma_pow256_8();
            assert(pow256(i as nat) <= pow256(7)) by {
                lemma_pow256_mono(i as nat, 7);
            }
            assert(256 * pow256(7) == pow256(8));
            assert(acc as int + (by as int) * pow256(i as nat) < pow256((i + 1) as nat)) by {
                lemma_dec_le_bound(b@.subrange(pos as int, pos + i + 1));
            }
        }
        let ghost p_i = pow256(i as nat);
        let mut mult: u128 = 1;
        let mut j: usize = 0;
        while j < i
            invariant
                j <= i,
                i < 8,
                mult as int == pow256(j as nat),
                mult as int <= pow256(7),
            decreases i - j,
        {
            proof {
                lemma_pow256_mono((j + 1) as nat, 7);
            }
            mult = mult * 256;
            j = j + 1;
        }
        proof {
            lemma_pow256_8();
            lemma_dec_le_bound(b@.subrange(pos as int, pos + i + 1));
        }
        acc = acc + (by as u128) * mult;
        i = i + 1;
    }
    proof {
        lemma_pow256_8();
        lemma_dec_le_bound(b@.subrange(pos as int, pos + 8));
        lemma_enc_dec(b@.subrange(pos as int, pos + 8));
    }
    Some((acc as u64, pos + 8))
}

/// A length-prefixed byte string.
pub open spec fn enc_lp(b: Seq<u8>) -> Seq<u8> {
    enc_le(b.len() as int, 8) + b
}

/// A run of eight-byte values.
pub open spec fn enc_ids(s: Seq<usize>) -> Seq<u8>
    decreases s.len(),
{
    if s.len() == 0 {
        Seq::empty()
    } else {
        enc_ids(s.drop_last()) + enc_le(s.last() as int, 8)
    }
}

/// A signed value as sign word plus magnitude word.
pub open spec fn enc_val(v: i128) -> Seq<u8> {
    if v >= 0 {
        enc_le(0, 8) + enc_le(v as int, 8)
    } else {
        enc_le(1, 8) + enc_le(-(v as int), 8)
    }
}

/// An optional signed value.
pub open spec fn enc_opt_val(o: Option<i128>) -> Seq<u8> {
    match o {
        None => enc_le(0, 8),
        Some(v) => enc_le(1, 8) + enc_val(v),
    }
}

/// An optional length-prefixed run of eight-byte values.
pub open spec fn enc_opt_ids(o: Option<Vec<usize>>) -> Seq<u8> {
    match o {
        None => enc_le(0, 8),
        Some(c) => enc_le(1, 8) + enc_le(c@.len() as int, 8) + enc_ids(c@),
    }
}

/// An optional small word.
pub open spec fn enc_opt_u32(o: Option<u32>) -> Seq<u8> {
    match o {
        None => enc_le(0, 8),
        Some(x) => enc_le(1, 8) + enc_le(x as int, 8),
    }
}

/// A parent link: zero for the root, the parent's index plus one otherwise.
pub open spec fn parent_code(p: Option<usize>) -> int {
    match p {
        None => 0,
        Some(x) => x + 1,
    }
}

/// One group record.
pub open spec fn enc_group(g: Group) -> Seq<u8> {
    enc_lp(g.name@) + enc_le(parent_code(g.parent), 8)
}

/// The group table.
pub open spec fn enc_groups(s: Seq<Group>) -> Seq<u8>
    decreases s.len(),
{
    if s.len() == 0 {
        Seq::empty()
    } else {
        enc_groups(s.drop_last()) + enc_group(s.last())
    }
}

/// One dimension record.
pub open spec fn enc_dim(d: Dimension) -> Seq<u8> {
    enc_lp(d.name@) + enc_le(d.owner as int, 8) + enc_le(d.len as int, 8) + enc_le(
        if d.unlimited {
            1
        } else {
            0
        },
        8,
    )
}

/// The dimension table.
pub open spec fn enc_dims(s: Seq<Dimension>) -> Seq<u8>
    decreases s.len(),
{
    if s.len() == 0 {
        Seq::empty()
    } else {
        enc_dims(s.drop_last()) + enc_dim(s.last())
    }
}

/// The tag under which an element type is stored.
pub open spec fn type_code(t: VarType) -> int {
    match t {
        VarType::Numeric(NumericType::I8) => 0,
        VarType::Numeric(NumericType::U8) => 1,
        VarType::Numeric(NumericType::I16) => 2,
        VarType::Numeric(NumericType::U16) => 3,
        VarType::Numeric(NumericType::I32) => 4,
        VarType::Numeric(NumericType::U32) => 5,
        VarType::Numeric(NumericType::I64) => 6,
        VarType::Numeric(NumericType::U64) => 7,
        VarType::Text => 8,
    }
}

/// One numeric cell entry: its key and its value.
pub open spec fn enc_cell(key: Seq<usize>, v: i128) -> Seq<u8> {
    enc_le(key.len() as int, 8) + enc_ids(key) + enc_val(v)
}

/// The numeric cell entries of one variable, in write order.
pub open spec fn enc_cells(keys: Seq<Seq<usize>>, vals: Seq<i128>) -> Seq<u8>
    decreases keys.len(),
{
    if keys.len() == 0 || keys.len() != vals.len() {
        Seq::empty()
    } else {
        enc_cells(keys.drop_last(), vals.drop_last()) + enc_cell(keys.last(), vals.last())
    }
}

/// One text cell entry: its key and its string.
pub open spec fn enc_tcell(key: Seq<usize>, s: Seq<u8>) -> Seq<u8> {
    enc_le(key.len() as int, 8) + enc_ids(key) + enc_lp(s)
}

/// The text cell entries of one variable, in write order.
pub open spec fn enc_tcells(keys: Seq<Seq<usize>>, vals: Seq<Seq<u8>>) -> Seq<u8>
    decreases keys.len(),
{
    if keys.len() == 0 || keys.len() != vals.len() {
        Seq::empty()
    } else {
        enc_tcells(keys.drop_last(), vals.drop_last()) + enc_tcell(keys.last(), vals.last())
    }
}

/// The identity part of one variable record.
pub open spec fn enc_var_h1(v: Variable) -> Seq<u8> {
    enc_lp(v.name@) + enc_le(v.owner as int, 8) + enc_le(type_code(v.vartype), 8) + enc_le(
        v.dims@.len() as int,
        8,
    ) + enc_ids(v.dims@)
}

/// The configuration part of one variable record.
pub open spec fn enc_var_h2(v: Variable) -> Seq<u8> {
    enc_le(
        if v.fill_enabled {
            1
        } else {
            0
        },
        8,
    ) + enc_opt_val(v.fill) + enc_opt_ids(v.chunking) + enc_opt_u32(v.compression)
}

/// The metadata half of one variable record.
pub open spec fn enc_var_header(v: Variable) -> Seq<u8> {
    enc_var_h1(v) + enc_var_h2(v)
}

/// One variable record: metadata, then the written cells.
pub open spec fn enc_var(v: Variable) -> Seq<u8> {
    enc_var_header(v) + enc_le(v.cells.keys_spec().len() as int, 8) + enc_cells(
        v.cells.keys_spec(),
        v.cells.vals_spec(),
    ) + enc_le(v.text.keys_spec().len() as int, 8) + enc_tcells(
        v.text.keys_spec(),
        v.text.vals_spec(),
    )
}

/// The variable table.
pub open spec fn enc_vars(s: Seq<Variable>) -> Seq<u8>
    decreases s.len(),
{
    if s.len() == 0 {
        Seq::empty()
    } else {
        enc_vars(s.drop_last()) + enc_var(s.last())
    }
}

/// The whole image of a file.
pub open spec fn image_spec(f: RawFile) -> Seq<u8> {
    enc_le(IMAGE_MAGIC as int, 8) + enc_le(f.bits as int, 8) + enc_lp(f.path@) + enc_le(
        f.groups@.len() as int,
        8,
    ) + enc_groups(f.groups@) + enc_le(f.dims@.len() as int, 8) + enc_dims(f.dims@) + enc_le(
        f.vars@.len() as int,
        8,
    ) + enc_vars(f.vars@)
}

/// Larger widths never shrink the bound.
pub proof fn lemma_pow256_mono(a: nat, b: nat)
    requires
        a <= b,
    ensures
        pow256(a) <= pow256(b),
        pow256(a) >= 1,
    decreases b,
{
    if a == b {
        lemma_pow256_pos(a);
    } else {
        lemma_pow256_mono(a, (b - 1) as nat);
        lemma_pow256_pos((b - 1) as nat);
    }
}

/// Powers of 256 are positive.
pub proof fn lemma_pow256_pos(n: nat)
    ensures
        pow256(n) >= 1,
    decreases n,
{
    if n > 0 {
        lemma_pow256_pos((n - 1) as nat);
    }
}

/// Appends a length-prefixed byte string.
fn push_lp(out: &mut Vec<u8>, b: &Vec<u8>)
    ensures
        final(out)@ == old(out)@ + enc_lp(b@),
{
    let ghost base = out@;
    push_u64(out, b.len() as u64);
    let mut i: usize = 0;
    let ghost mid = out@;
    proof {
        assert(out@ =~= mid + b@.take(0));
    }
    while i < b.len()
        invariant
            i <= b@.len(),
            out@ == mid + b@.take(i as int),
        decreases b@.len() - i,
    {
        proof {
            assert((mid + b@.take(i as int)).push(b@[i as int]) =~= mid + b@.take(i + 1));
        }
        out.push(b[i]);
        i = i + 1;
    }
    proof {
        assert(b@.take(b@.len() as int) =~= b@);
        assert(base + enc_lp(b@) =~= (base + enc_le(b@.len() as int, 8)) + b@);
    }
}

/// Appends a run of eight-byte values.
fn push_ids(out: &mut Vec<u8>, v: &Vec<usize>)
    ensures
        final(out)@ == old(out)@ + enc_ids(v@),
{
    let ghost base = out@;
    let mut i: usize = 0;
    proof {
        assert(enc_ids(v@.take(0)) =~= Seq::<u8>::empty());
        assert(out@ =~= base + enc_ids(v@.take(0)));
    }
    while i < v.len()
        invariant
            i <= v@.len(),
            out@ == base + enc_ids(v@.take(i as int)),
        decreases v@.len() - i,
    {
        push_u64(out, v[i] as u64);
        proof {
            assert(v@.take(i + 1).drop_last() =~= v@.take(i as int));
            assert(v@.take(i + 1).last() == v@[i as int]);
            assert((base + enc_ids(v@.take(i as int))) + enc_le(v@[i as int] as int, 8) =~= base
                + enc_ids(v@.take(i + 1)));
        }
        i = i + 1;
    }
    proof {
        assert(v@.take(v@.len() as int) =~= v@);
    }
}

/// Appends a signed value.
fn push_val(out: &mut Vec<u8>, v: i128)
    requires
        storable(v as int),
    ensures
        final(out)@ == old(out)@ + enc_val(v),
{
    let ghost base = out@;
    if v >= 0 {
        push_u64(out, 0);
        push_u64(out, v as u64);
        proof {
            assert(base + enc_val(v) =~= (base + enc_le(0, 8)) + enc_le(v as int, 8));
        }
    } else {
        push_u64(out, 1);
        push_u64(out, (-v) as u64);
        proof {
            assert(base + enc_val(v) =~= (base + enc_le(1, 8)) + enc_le(-(v as int), 8));
        }
    }
}

/// Appends the group table with its count.
fn push_groups(out: &mut Vec<u8>, f: &RawFile)
    requires
        f.wf(),
    ensures
        final(out)@ == old(out)@ + enc_le(f.groups@.len() as int, 8) + enc_groups(f.groups@),
{
    push_u64(out, f.groups.len() as u64);
    let ghost head = out@;
    let mut i: usize = 0;
    proof {
        assert(enc_groups(f.groups@.take(0)) =~= Seq::<u8>::empty());
        assert(out@ =~= head + enc_groups(f.groups@.take(0)));
    }
    while i < f.groups.len()
        invariant
            f.wf(),
            i <= f.groups@.len(),
            out@ == head + enc_groups(f.groups@.take(i as int)),
        decreases f.groups@.len() - i,
    {
        let ghost pre = out@;
        push_lp(out, &f.groups[i].name);
        let pc: u64 = match f.groups[i].parent {
            None => 0,
            Some(p) => {
                proof {
                    assert(crate::file::group_parent_ok(f.groups@, i as int));
                }
                (p as u64) + 1
            },
        };
        push_u64(out, pc);
        proof {
            assert(f.groups@.take(i + 1).drop_last() =~= f.groups@.take(i as int));
            assert(f.groups@.take(i + 1).last() == f.groups@[i as int]);
            assert(out@ =~= pre + enc_group(f.groups@[i as int]));
            assert(out@ =~= head + enc_groups(f.groups@.take(i + 1)));
        }
        i = i + 1;
    }
    proof {
        assert(f.groups@.take(f.groups@.len() as int) =~= f.groups@);
    }
}

/// Appends the dimension table with its count.
fn push_dims(out: &mut Vec<u8>, f: &RawFile)
    ensures
        final(out)@ == old(out)@ + enc_le(f.dims@.len() as int, 8) + enc_dims(f.dims@),
{
    push_u64(out, f.dims.len() as u64);
    let ghost head = out@;
    let mut i: usize = 0;
    proof {
        assert(enc_dims(f.dims@.take(0)) =~= Seq::<u8>::empty());
        assert(out@ =~= head + enc_dims(f.dims@.take(0)));
    }
    while i < f.dims.len()
        invariant
            i <= f.dims@.len(),
            out@ == head + enc_dims(f.dims@.take(i as int)),
        decreases f.dims@.len() - i,
    {
        let ghost pre = out@;
        push_lp(out, &f.dims[i].name);
        push_u64(out, f.dims[i].owner as u64);
        push_u64(out, f.dims[i].len as u64);
        push_u64(out, if f.dims[i].unlimited { 1 } else { 0 });
        proof {
            assert(f.dims@.take(i + 1).drop_last() =~= f.dims@.take(i as int));
            assert(f.dims@.take(i + 1).last() == f.dims@[i as int]);
            assert(out@ =~= pre + enc_dim(f.dims@[i as int]));
            assert(out@ =~= head + enc_dims(f.dims@.take(i + 1)));
        }
        i = i + 1;
    }
    proof {
        assert(f.dims@.take(f.dims@.len() as int) =~= f.dims@);
    }
}

/// Appends the variable table with its count.
fn push_vars(out: &mut Vec<u8>, f: &RawFile)
    requires
        f.wf(),
    ensures
        final(out)@ == old(out)@ + enc_le(f.vars@.len() as int, 8) + enc_vars(f.vars@),
{
    push_u64(out, f.vars.len() as u64);
    let ghost head = out@;
    let mut i: usize = 0;
    proof {
        assert(enc_vars(f.vars@.take(0)) =~= Seq::<u8>::empty());
        assert(out@ =~= head + enc_vars(f.vars@.take(0)));
    }
    while i < f.vars.len()
        invariant
            f.wf(),
            i <= f.vars@.len(),
            out@ == head + enc_vars(f.vars@.take(i as int)),
        decreases f.vars@.len() - i,
    {
        proof {
            assert(crate::file::var_wf(
                f.groups@.len() as int,
                f.dims@.len() as int,
                f.vars@[i as int],
            ));
        }
        push_var(out, &f.vars[i]);
        proof {
            assert(f.vars@.take(i + 1).drop_last() =~= f.vars@.take(i as int));
            assert(f.vars@.take(i + 1).last() == f.vars@[i as int]);
            assert(out@ =~= head + enc_vars(f.vars@.take(i + 1)));
        }
        i = i + 1;
    }
    proof {
        assert(f.vars@.take(f.vars@.len() as int) =~= f.vars@);
    }
}

/// Produces the byte image of a file.
pub fn to_image(f: &RawFile) -> (r: Vec<u8>)
    requires
        f.wf(),
    ensures
        r@ == image_spec(*f),
{
    let mut out: Vec<u8> = Vec::new();
    push_u64(&mut out, IMAGE_MAGIC);
    push_u64(&mut out, f.bits as u64);
    push_lp(&mut out, &f.path);
    push_groups(&mut out, f);
    push_dims(&mut out, f);
    push_vars(&mut out, f);
    proof {
        assert(out@ =~= image_spec(*f));
    }
    out
}

/// Appends one variable record's identity.
fn push_var_h1(out: &mut Vec<u8>, v: &Variable)
    ensures
        final(out)@ == old(out)@ + enc_var_h1(*v),
{
    let ghost base = out@;
    push_lp(out, &v.name);
    push_u64(out, v.owner as u64);
    let tc: u64 = match v.vartype {
        VarType::Numeric(NumericType::I8) => 0,
        VarType::Numeric(NumericType::U8) => 1,
        VarType::Numeric(NumericType::I16) => 2,
        VarType::Numeric(NumericType::U16) => 3,
        VarType::Numeric(NumericType::I32) => 4,
        VarType::Numeric(NumericType::U32) => 5,
        VarType::Numeric(NumericType::I64) => 6,
        VarType::Numeric(NumericType::U64) => 7,
        VarType::Text => 8,
    };
    push_u64(out, tc);
    push_u64(out, v.dims.len() as u64);
    push_ids(out, &v.dims);
    proof {
        assert(out@ =~= base + enc_var_h1(*v));
    }
}

/// Appends one variable record's configuration.
#[verifier::rlimit(100)]
fn push_var_h2(out: &mut Vec<u8>, v: &Variable)
    requires
        v.wf(),
    ensures
        final(out)@ == old(out)@ + enc_var_h2(*v),
{
    let ghost base = out@;
    let ghost s1 = base + enc_le(
        if v.fill_enabled {
            1
        } else {
            0
        },
        8,
    );
    let ghost s2 = s1 + enc_opt_val(v.fill);
    let ghost s3 = s2 + enc_opt_ids(v.chunking);
    let ghost s4 = s3 + enc_opt_u32(v.compression);
    push_u64(out, if v.fill_enabled { 1 } else { 0 });
    assert(out@ == s1);
    match v.fill {
        None => {
            push_u64(out, 0);
            proof {
                assert(out@ =~= s2);
            }
        },
        Some(fv) => {
            push_u64(out, 1);
            proof {
                match v.vartype {
                    VarType::Numeric(t) => {
                        crate::types::lemma_in_range_storable(t, fv as int);
                    },
                    VarType::Text => {},
                }
            }
            push_val(out, fv);
            proof {
                assert(out@ =~= s2);
            }
        },
    }
    match &v.chunking {
        None => {
            push_u64(out, 0);
            proof {
                assert(out@ =~= s3);
            }
        },
        Some(c) => {
            push_u64(out, 1);
            push_u64(out, c.len() as u64);
            push_ids(out, c);
            proof {
                assert(out@ =~= s3);
            }
        },
    }
    match v.compression {
        None => {
            push_u64(out, 0);
            proof {
                assert(out@ =~= s4);
            }
        },
        Some(x) => {
            push_u64(out, 1);
            push_u64(out, x as u64);
            proof {
                assert(out@ =~= s4);
            }
        },
    }
    proof {
        assert(s4 =~= base + enc_var_h2(*v));
    }
}

/// Appends one variable record's metadata.
fn push_var_header(out: &mut Vec<u8>, v: &Variable)
    requires
        v.wf(),
    ensures
        final(out)@ == old(out)@ + enc_var_header(*v),
{
    let ghost base = out@;
    push_var_h1(out, v);
    push_var_h2(out, v);
    proof {
        assert(out@ =~= base + enc_var_header(*v));
    }
}

/// Appends one variable's numeric cell entries.
fn push_var_cells(out: &mut Vec<u8>, v: &Variable)
    requires
        v.wf(),
    ensures
        final(out)@ == old(out)@ + enc_le(v.cells.keys_spec().len() as int, 8) + enc_cells(
            v.cells.keys_spec(),
            v.cells.vals_spec(),
        ),
{
    let nc = v.cells.entry_count();
    push_u64(out, nc as u64);
    let ghost headc = out@;
    let mut i: usize = 0;
    proof {
        assert(enc_cells(v.cells.keys_spec().take(0), v.cells.vals_spec().take(0)) =~= Seq::<
            u8,
        >::empty());
        assert(out@ =~= headc + enc_cells(
            v.cells.keys_spec().take(0),
            v.cells.vals_spec().take(0),
        ));
    }
    while i < nc
        invariant
            v.wf(),
            nc == v.cells.keys_spec().len(),
            nc == v.cells.vals_spec().len(),
            i <= nc,
            out@ == headc + enc_cells(
                v.cells.keys_spec().take(i as int),
                v.cells.vals_spec().take(i as int),
            ),
        decreases nc - i,
    {
        let ghost pre = out@;
        let key = v.cells.entry_key(i);
        push_u64(out, key.len() as u64);
        push_ids(out, key);
        proof {
            assert(crate::types::storable(v.cells.vals_spec()[i as int] as int));
        }
        push_val(out, v.cells.entry_val(i));
        proof {
            assert(v.cells.keys_spec().take(i + 1).drop_last() =~= v.cells.keys_spec().take(
                i as int,
            ));
            assert(v.cells.vals_spec().take(i + 1).drop_last() =~= v.cells.vals_spec().take(
                i as int,
            ));
            assert(v.cells.keys_spec().take(i + 1).last() == v.cells.keys_spec()[i as int]);
            assert(v.cells.vals_spec().take(i + 1).last() == v.cells.vals_spec()[i as int]);
            assert(out@ =~= pre + enc_cell(
                v.cells.keys_spec()[i as int],
                v.cells.vals_spec()[i as int],
            ));
            assert(out@ =~= headc + enc_cells(
                v.cells.keys_spec().take(i + 1),
                v.cells.vals_spec().take(i + 1),
            ));
        }
        i = i + 1;
    }
    proof {
        assert(v.cells.keys_spec().take(v.cells.keys_spec().len() as int) =~= v.cells.keys_spec());
        assert(v.cells.vals_spec().take(v.cells.vals_spec().len() as int) =~= v.cells.vals_spec());
    }
}

/// Appends one variable's text cell entries.
fn push_var_texts(out: &mut Vec<u8>, v: &Variable)
    requires
        v.wf(),
    ensures
        final(out)@ == old(out)@ + enc_le(v.text.keys_spec().len() as int, 8) + enc_tcells(
            v.text.keys_spec(),
            v.text.vals_spec(),
        ),
{
    let nt = v.text.entry_count();
    push_u64(out, nt as u64);
    let ghost headt = out@;
    let mut i: usize = 0;
    proof {
        assert(enc_tcells(v.text.keys_spec().take(0), v.text.vals_spec().take(0)) =~= Seq::<
            u8,
        >::empty());
        assert(out@ =~= headt + enc_tcells(
            v.text.keys_spec().take(0),
            v.text.vals_spec().take(0),
        ));
    }
    while i < nt
        invariant
            v.wf(),
            nt == v.text.keys_spec().len(),
            nt == v.text.vals_spec().len(),
            i <= nt,
            out@ == headt + enc_tcells(
                v.text.keys_spec().take(i as int),
                v.text.vals_spec().take(i as int),
            ),
        decreases nt - i,
    {
        let ghost pre = out@;
        let key = v.text.entry_key(i);
        push_u64(out, key.len() as u64);
        push_ids(out, key);
        push_lp(out, v.text.entry_val(i));
        proof {
            assert(v.text.keys_spec().take(i + 1).drop_last() =~= v.text.keys_spec().take(
                i as int,
            ));
            assert(v.text.vals_spec().take(i + 1).drop_last() =~= v.text.vals_spec().take(
                i as int,
            ));
            assert(v.text.keys_spec().take(i + 1).last() == v.text.keys_spec()[i as int]);
            assert(v.text.vals_spec().take(i + 1).last() == v.text.vals_spec()[i as int]);
            assert(out@ =~= pre + enc_tcell(
                v.text.keys_spec()[i as int],
                v.text.vals_spec()[i as int],
            ));
            assert(out@ =~= headt + enc_tcells(
                v.text.keys_spec().take(i + 1),
                v.text.vals_spec().take(i + 1),
            ));
        }
        i = i + 1;
    }
    proof {
        assert(v.text.keys_spec().take(v.text.keys_spec().len() as int) =~= v.text.keys_spec());
        assert(v.text.vals_spec().take(v.text.vals_spec().len() as int) =~= v.text.vals_spec());
    }
}

/// Appends one variable record.
fn push_var(out: &mut Vec<u8>, v: &Variable)
    requires
        v.wf(),
    ensures
        final(out)@ == old(out)@ + enc_var(*v),
{
    let ghost base = out@;
    push_var_header(out, v);
    push_var_cells(out, v);
    push_var_texts(out, v);
    proof {
        assert(out@ =~= base + enc_var(*v));
    }
}

/// Reads a length-prefixed byte string at `pos`.  Success is exactly
/// characterized: it fails only where no length-prefixed string fits.
fn parse_lp(b: &Vec<u8>, pos: usize) -> (r: Option<(Vec<u8>, usize)>)
    ensures
        match r {
            Some((v, p2)) => {
                &&& pos <= p2 <= b@.len()
                &&& p2 == pos + 8 + v@.len()
                &&& b@.subrange(pos as int, p2 as int) == enc_lp(v@)
            },
            None => !(pos + 8 <= b@.len() && dec_le(b@.subrange(pos as int, pos + 8))
                <= usize::MAX && pos + 8 + dec_le(b@.subrange(pos as int, pos + 8)) <= b@.len()),
        },
{
    let (n64, p1) = match parse_u64(b, pos) {
        Some(x) => x,
        None => {
            return None;
        }
    };
    if n64 > usize::MAX as u64 {
        return None;
    }
    let n = n64 as usize;
    if n > b.len() - p1 {
        return None;
    }
    let mut out: Vec<u8> = Vec::new();
    let mut i: usize = 0;
    while i < n
        invariant
            p1 + n <= b@.len(),
            i <= n,
            out@ == b@.subrange(p1 as int, p1 + i),
        decreases n - i,
    {
        proof {
            assert(b@.subrange(p1 as int, p1 + i).push(b@[p1 + i]) =~= b@.subrange(
                p1 as int,
                p1 + i + 1,
            ));
        }
        out.push(b[p1 + i]);
        i = i + 1;
    }
    proof {
        assert(b@.subrange(pos as int, (p1 + n) as int) =~= b@.subrange(pos as int, p1 as int)
            + b@.subrange(p1 as int, (p1 + n) as int));
        assert(b@.subrange(pos as int, (p1 + n) as int) =~= enc_lp(out@));
    }
    Some((out, p1 + n))
}

/// Reads `n` eight-byte values at `pos`, each of which must fit the
/// machine's index range.  Where the bytes at `pos` are known to encode a
/// particular run (`expect`), the read succeeds and returns exactly it.
fn parse_ids(b: &Vec<u8>, pos: usize, n: usize, expect: Ghost<Seq<usize>>) -> (r: Option<
    (Vec<usize>, usize),
>)
    ensures
        match r {
            Some((v, p2)) => {
                &&& pos <= p2 <= b@.len()
                &&& v@.len() == n
                &&& p2 == pos + 8 * n
                &&& b@.subrange(pos as int, p2 as int) == enc_ids(v@)
            },
            None => true,
        },
        ({
            &&& expect@.len() == n
            &&& pos + 8 * (n as int) <= b@.len()
            &&& b@.subrange(pos as int, pos + 8 * (n as int)) == enc_ids(expect@)
        }) ==> (match r {
            Some((v, p2)) => v@ == expect@,
            None => false,
        }),
{
    let ghost cond = expect@.len() == n && pos + 8 * (n as int) <= b@.len() && b@.subrange(
        pos as int,
        pos + 8 * (n as int),
    ) == enc_ids(expect@);
    if pos > b.len() {
        proof {
            if cond {
                assert(8 * (n as int) >= 0);
            }
        }
        return None;
    }
    let mut out: Vec<usize> = Vec::new();
    let mut p: usize = pos;
    let mut i: usize = 0;
    proof {
        assert(b@.subrange(pos as int, pos as int) =~= enc_ids(out@));
        if cond {
            assert(out@ =~= expect@.take(0));
        }
    }
    while i < n
        invariant
            i <= n,
            pos <= p <= b@.len(),
            out@.len() == i,
            p == pos + 8 * i,
            b@.subrange(pos as int, p as int) == enc_ids(out@),
            cond == (expect@.len() == n && pos + 8 * (n as int) <= b@.len() && b@.subrange(
                pos as int,
                pos + 8 * (n as int),
            ) == enc_ids(expect@)),
            cond ==> out@ == expect@.take(i as int),
        decreases n - i,
    {
        proof {
            if cond {
                lemma_expected_block(b@, pos as int, expect@, i as int);
            }
        }
        let (x, p2) = match parse_u64(b, p) {
            Some(x) => x,
            None => {
                proof {
                    if cond {
                        assert(p + 8 <= pos + 8 * (n as int));
                    }
                }
                return None;
            }
        };
        if x > usize::MAX as u64 {
            proof {
                if cond {
                    lemma_usize_in_block();
                    lemma_block_value(b@, p as int, expect@[i as int] as int);
                }
            }
            return None;
        }
        let ghost pre = out@;
        out.push(x as usize);
        proof {
            assert(out@.drop_last() =~= pre);
            assert(b@.subrange(pos as int, p2 as int) =~= b@.subrange(pos as int, p as int)
                + b@.subrange(p as int, p2 as int));
            assert(b@.subrange(pos as int, p2 as int) =~= enc_ids(out@));
            if cond {
                lemma_usize_in_block();
                lemma_block_value(b@, p as int, expect@[i as int] as int);
                assert(x as int == expect@[i as int] as int);
                assert(out@ =~= expect@.take(i + 1));
            }
        }
        p = p2;
        i = i + 1;
    }
    proof {
        if cond {
            assert(expect@.take(n as int) =~= expect@);
        }
    }
    Some((out, p))
}

/// Within a run known to sit at `pos`, the `j`-th block holds the `j`-th
/// value.
proof fn lemma_expected_block(b: Seq<u8>, pos: int, e: Seq<usize>, j: int)
    requires
        0 <= pos,
        0 <= j < e.len(),
        pos + 8 * e.len() <= b.len(),
        b.subrange(pos, pos + 8 * e.len()) == enc_ids(e),
    ensures
        b.subrange(pos + 8 * j, pos + 8 * j + 8) == enc_le(e[j] as int, 8),
{
    lemma_enc_ids_len(e);
    lemma_enc_ids_block(e, j);
    assert forall|k: int| 0 <= k < 8 implies b.subrange(pos + 8 * j, pos + 8 * j + 8)[k]
        == enc_le(e[j] as int, 8)[k] by {
        assert(b.subrange(pos, pos + 8 * e.len())[8 * j + k] == enc_ids(e)[8 * j + k]);
        assert(enc_ids(e).subrange(8 * j, 8 * j + 8)[k] == enc_ids(e)[8 * j + k]);
    }
    lemma_enc_le_len(e[j] as int, 8);
    assert(b.subrange(pos + 8 * j, pos + 8 * j + 8) =~= enc_le(e[j] as int, 8));
}

/// Whether sixteen bytes at `pos` hold a canonical sign-and-magnitude
/// value: sign word zero or one, and a negative magnitude in range.
pub open spec fn valid_val_at(b: Seq<u8>, pos: int) -> bool {
    let s = dec_le(b.subrange(pos, pos + 8));
    let m = dec_le(b.subrange(pos + 8, pos + 16));
    s <= 1 && (s == 1 ==> 1 <= m <= 0x8000_0000_0000_0000)
}

/// Reads a sign-and-magnitude value at `pos`; a negative zero is refused,
/// so every accepted value re-encodes to the bytes read.  Success is
/// exactly characterized.
fn parse_val(b: &Vec<u8>, pos: usize) -> (r: Option<(i128, usize)>)
    ensures
        match r {
            Some((v, p2)) => {
                &&& pos <= p2 <= b@.len()
                &&& p2 == pos + 16
                &&& storable(v as int)
                &&& b@.subrange(pos as int, p2 as int) == enc_val(v)
            },
            None => !(pos + 16 <= b@.len() && valid_val_at(b@, pos as int)),
        },
{
    let (sign, p1) = match parse_u64(b, pos) {
        Some(x) => x,
        None => {
            return None;
        }
    };
    if sign > 1 {
        return None;
    }
    let (mag, p2) = match parse_u64(b, p1) {
        Some(x) => x,
        None => {
            return None;
        }
    };
    proof {
        assert(b@.subrange(pos as int, p2 as int) =~= b@.subrange(pos as int, p1 as int)
            + b@.subrange(p1 as int, p2 as int));
    }
    if sign == 0 {
        Some((mag as i128, p2))
    } else {
        if mag == 0 || mag > 0x8000_0000_0000_0000u64 {
            return None;
        }
        Some((-(mag as i128), p2))
    }
}

/// Whether a built group presents the same name and parent as an expected
/// one.
pub open spec fn group_like(a: Group, e: Group) -> bool {
    a.name@ == e.name@ && a.parent == e.parent
}

/// Pointwise `group_like` over whole tables.
pub open spec fn groups_like(a: Seq<Group>, e: Seq<Group>) -> bool {
    a.len() == e.len() && (forall|i: int| 0 <= i < a.len() ==> group_like(#[trigger] a[i], e[i]))
}

/// Whether a built dimension presents the same fields as an expected one.
pub open spec fn dim_like(a: Dimension, e: Dimension) -> bool {
    a.name@ == e.name@ && a.owner == e.owner && a.len == e.len && a.unlimited == e.unlimited
}

/// Pointwise `dim_like` over whole tables.
pub open spec fn dims_like(a: Seq<Dimension>, e: Seq<Dimension>) -> bool {
    a.len() == e.len() && (forall|i: int| 0 <= i < a.len() ==> dim_like(#[trigger] a[i], e[i]))
}

/// Whether a built variable carries the same name and owner as an expected
/// one (all a later record's duplicate check can see).
pub open spec fn var_like(a: Variable, e: Variable) -> bool {
    a.name@ == e.name@ && a.owner == e.owner
}

/// Pointwise `var_like` over whole tables.
pub open spec fn vars_like(a: Seq<Variable>, e: Seq<Variable>) -> bool {
    a.len() == e.len() && (forall|i: int| 0 <= i < a.len() ==> var_like(#[trigger] a[i], e[i]))
}

/// What `parse_groups` may assume of an expected table sitting at `pos`:
/// its encoding is there in full, its parent links form a tree, and no two
/// siblings share a name.
pub open spec fn groups_expected(b: Seq<u8>, pos: int, e: Seq<Group>, n: int) -> bool {
    &&& e.len() == n
    &&& pos + enc_groups(e).len() <= b.len()
    &&& b.subrange(pos, pos + enc_groups(e).len() as int) == enc_groups(e)
    &&& (forall|g: int| 0 <= g < e.len() ==> #[trigger] crate::file::group_parent_ok(e, g))
    &&& (forall|i: int, j: int|
        0 <= i < j < e.len() ==> !crate::file::group_clash(#[trigger] e[i], #[trigger] e[j]))
}

/// Peels one expected group record at `p`: the record's two fields sit at
/// known offsets and the remaining suffix follows.
proof fn lemma_peel_group(b: Seq<u8>, p: int, end: int, e: Seq<Group>, i: int)
    requires
        0 <= p <= end,
        end <= b.len(),
        0 <= i < e.len(),
        b.subrange(p, end) == enc_groups_from(e, i),
    ensures
        ({
            let name = e[i].name@;
            let l1 = 8 + name.len() as int;
            &&& p + l1 + 8 <= end
            &&& b.subrange(p, p + l1) == enc_lp(name)
            &&& b.subrange(p, p + 8) == enc_le(name.len() as int, 8)
            &&& b.subrange(p + 8, p + l1) == name
            &&& b.subrange(p + l1, p + l1 + 8) == enc_le(parent_code(e[i].parent), 8)
            &&& b.subrange(p + l1 + 8, end) == enc_groups_from(e, i + 1)
        }),
{
    let name = e[i].name@;
    let l1 = 8 + name.len() as int;
    lemma_enc_le_len(name.len() as int, 8);
    lemma_enc_le_len(parent_code(e[i].parent), 8);
    assert(enc_groups_from(e, i) == enc_group(e[i]) + enc_groups_from(e, i + 1));
    let rest = enc_le(parent_code(e[i].parent), 8) + enc_groups_from(e, i + 1);
    assert(enc_groups_from(e, i) =~= enc_lp(name) + rest);
    assert(end - p == enc_lp(name).len() + rest.len());
    lemma_split_at(b, p, enc_lp(name), rest);
    assert(enc_lp(name) =~= enc_le(name.len() as int, 8) + name);
    lemma_split_at(b, p, enc_le(name.len() as int, 8), name);
    lemma_split_at(b, p + l1, enc_le(parent_code(e[i].parent), 8), enc_groups_from(e, i + 1));
}

/// Reads the whole group table at `pos`, building the file around it; the
/// bytes read are exactly the table's encoding.  Where the bytes at `pos`
/// are known to encode a well-formed expected table, the read succeeds and
/// builds exactly it.
fn parse_groups(
    b: &Vec<u8>,
    pos: usize,
    ngroups: usize,
    path: Vec<u8>,
    bits: u32,
    expect: Ghost<Seq<Group>>,
) -> (r: Option<(RawFile, usize)>)
    requires
        ngroups >= 1,
    ensures
        match r {
            Some((raw, p2)) => {
                &&& raw.wf()
                &&& raw.groups@.len() == ngroups
                &&& raw.dims@.len() == 0
                &&& raw.vars@.len() == 0
                &&& raw.path@ == path@
                &&& raw.bits == bits
                &&& pos <= p2 <= b@.len()
                &&& b@.subrange(pos as int, p2 as int) == enc_groups(raw.groups@)
            },
            None => true,
        },
        groups_expected(b@, pos as int, expect@, ngroups as int) ==> (match r {
            Some((raw, p2)) => groups_like(raw.groups@, expect@) && p2 == pos + enc_groups(
                expect@,
            ).len(),
            None => false,
        }),
{
    let ghost e = expect@;
    let ghost cond = groups_expected(b@, pos as int, e, ngroups as int);
    let ghost end = pos + enc_groups(e).len() as int;
    proof {
        if cond {
            lemma_enc_groups_from(e);
        }
    }
    let (rname, p1) = match parse_lp(b, pos) {
        Some(x) => x,
        None => {
            proof {
                if cond {
                    lemma_peel_group(b@, pos as int, end, e, 0);
                    vstd::std_specs::vec::axiom_spec_len(&e[0].name);
                    lemma_usize_in_block();
                    lemma_block_value(b@, pos as int, e[0].name@.len() as int);
                }
            }
            return None;
        }
    };
    let (rpc, p2) = match parse_u64(b, p1) {
        Some(x) => x,
        None => {
            proof {
                if cond {
                    lemma_peel_group(b@, pos as int, end, e, 0);
                    vstd::std_specs::vec::axiom_spec_len(&e[0].name);
                    lemma_usize_in_block();
                    lemma_lp_unique(
                        b@,
                        pos as int,
                        e[0].name@,
                        rname@,
                        p1 as int,
                    );
                }
            }
            return None;
        }
    };
    if rpc != 0 {
        proof {
            if cond {
                lemma_peel_group(b@, pos as int, end, e, 0);
                vstd::std_specs::vec::axiom_spec_len(&e[0].name);
                lemma_usize_in_block();
                lemma_lp_unique(b@, pos as int, e[0].name@, rname@, p1 as int);
                assert(crate::file::group_parent_ok(e, 0));
                lemma_block_value(b@, p1 as int, parent_code(e[0].parent));
            }
        }
        return None;
    }
    proof {
        if cond {
            lemma_peel_group(b@, pos as int, end, e, 0);
            vstd::std_specs::vec::axiom_spec_len(&e[0].name);
            lemma_usize_in_block();
            lemma_lp_unique(b@, pos as int, e[0].name@, rname@, p1 as int);
            assert(crate::file::group_parent_ok(e, 0));
            lemma_block_value(b@, p1 as int, parent_code(e[0].parent));
            assert(e[0].parent is None);
        }
    }
    let ghost rname_view = rname@;
    let root = Group { name: rname, parent: None };
    let mut groups: Vec<Group> = Vec::new();
    groups.push(root);
    let mut raw = RawFile { path, bits, groups, dims: Vec::new(), vars: Vec::new() };
    proof {
        assert(raw.wf()) by {
            assert(forall|g: int|
                0 <= g < raw.groups@.len() ==> #[trigger] crate::file::group_parent_ok(
                    raw.groups@,
                    g,
                ));
        }
        assert(raw.groups@.take(1).drop_last() =~= Seq::<Group>::empty());
        assert(raw.groups@.take(1).last() == raw.groups@[0]);
        assert(raw.groups@[0].name@ == rname_view);
        assert(parent_code(raw.groups@[0].parent) == 0);
        assert(enc_groups(Seq::<Group>::empty()) =~= Seq::<u8>::empty());
        assert(enc_groups(raw.groups@.take(1)) =~= enc_group(raw.groups@[0]));
        assert(enc_group(raw.groups@[0]) =~= enc_lp(rname_view) + enc_le(0, 8));
        assert(b@.subrange(pos as int, p2 as int) =~= b@.subrange(pos as int, p1 as int)
            + b@.subrange(p1 as int, p2 as int));
        assert(b@.subrange(pos as int, p2 as int) =~= enc_groups(raw.groups@.take(1)));
        assert(raw.groups@.take(1) =~= raw.groups@);
        if cond {
            assert(group_like(raw.groups@[0], e[0]));
            assert(b@.subrange(p2 as int, end) == enc_groups_from(e, 1));
        }
    }
    let mut p: usize = p2;
    let mut i: usize = 1;
    while i < ngroups
        invariant
            raw.wf(),
            raw.groups@.len() == i,
            raw.dims@.len() == 0,
            raw.vars@.len() == 0,
            raw.path@ == path@,
            raw.bits == bits,
            1 <= i <= ngroups,
            pos <= p <= b@.len(),
            b@.subrange(pos as int, p as int) == enc_groups(raw.groups@),
            cond == groups_expected(b@, pos as int, e, ngroups as int),
            end == pos + enc_groups(e).len() as int,
            cond ==> (groups_like(raw.groups@, e.take(i as int)) && p <= end <= b@.len()
                && b@.subrange(p as int, end) == enc_groups_from(e, i as int)),
        decreases ngroups - i,
    {
        proof {
            if cond {
                lemma_peel_group(b@, p as int, end, e, i as int);
                vstd::std_specs::vec::axiom_spec_len(&e[i as int].name);
                lemma_usize_in_block();
            }
        }
        let (name, p3) = match parse_lp(b, p) {
            Some(x) => x,
            None => {
                proof {
                    if cond {
                        lemma_block_value(b@, p as int, e[i as int].name@.len() as int);
                    }
                }
                return None;
            }
        };
        proof {
            if cond {
                lemma_lp_unique(b@, p as int, e[i as int].name@, name@, p3 as int);
            }
        }
        let (pc, p4) = match parse_u64(b, p3) {
            Some(x) => x,
            None => {
                return None;
            }
        };
        proof {
            if cond {
                assert(crate::file::group_parent_ok(e, i as int));
                lemma_block_value(b@, p3 as int, parent_code(e[i as int].parent));
                assert(pc as int == parent_code(e[i as int].parent));
            }
        }
        if pc == 0 || pc - 1 >= raw.groups.len() as u64 {
            proof {
                if cond {
                    assert(e[i as int].parent matches Some(q) && (q as int) < i as int);
                }
            }
            return None;
        }
        let parent = (pc - 1) as usize;
        let ghost pre_groups = raw.groups@;
        let ghost nb_view = name@;
        match raw.add_group_bytes(parent, name) {
            Ok(_) => (),
            Err(_) => {
                proof {
                    if cond {
                        assert(crate::file::has_child(pre_groups, parent as int, nb_view));
                        let j = choose|j: int|
                            0 <= j < pre_groups.len() && crate::file::child_matches(
                                #[trigger] pre_groups[j],
                                parent as int,
                                nb_view,
                            );
                        assert(group_like(pre_groups[j], e[j]));
                        assert(crate::file::group_clash(e[j], e[i as int]));
                    }
                }
                return None;
            }
        }
        proof {
            assert(raw.groups@.drop_last() =~= pre_groups);
            assert(raw.groups@.last().name@ == nb_view);
            assert(raw.groups@.last().parent == Some(parent));
            assert(parent_code(raw.groups@.last().parent) == pc as int);
            assert(b@.subrange(pos as int, p4 as int) =~= b@.subrange(pos as int, p as int)
                + (b@.subrange(p as int, p3 as int) + b@.subrange(p3 as int, p4 as int)));
            assert(b@.subrange(pos as int, p4 as int) =~= enc_groups(raw.groups@));
            if cond {
                assert(group_like(raw.groups@.last(), e[i as int]));
                assert(groups_like(raw.groups@, e.take(i + 1)));
                assert(b@.subrange(p4 as int, end) == enc_groups_from(e, i + 1));
            }
        }
        p = p4;
        i = i + 1;
    }
    proof {
        if cond {
            assert(e.take(ngroups as int) =~= e);
            assert(enc_groups_from(e, ngroups as int) =~= Seq::<u8>::empty());
            assert(b@.subrange(p as int, end).len() == 0);
        }
    }
    Some((raw, p))
}

/// What `parse_dims` may assume of an expected table sitting at `pos`:
/// its encoding is there in full, owners are in range, and no two
/// dimensions of one group share a name.
pub open spec fn dims_expected(
    b: Seq<u8>,
    pos: int,
    e: Seq<Dimension>,
    n: int,
    ngroups: int,
) -> bool {
    &&& e.len() == n
    &&& pos + enc_dims(e).len() <= b.len()
    &&& b.subrange(pos, pos + enc_dims(e).len() as int) == enc_dims(e)
    &&& (forall|i: int| 0 <= i < e.len() ==> (#[trigger] e[i]).owner < ngroups)
    &&& (forall|i: int, j: int|
        0 <= i < j < e.len() ==> !crate::file::dim_clash(#[trigger] e[i], #[trigger] e[j]))
}

/// Peels one expected dimension record at `p`.
proof fn lemma_peel_dim(b: Seq<u8>, p: int, end: int, e: Seq<Dimension>, i: int)
    requires
        0 <= p <= end,
        end <= b.len(),
        0 <= i < e.len(),
        b.subrange(p, end) == enc_dims_from(e, i),
    ensures
        ({
            let name = e[i].name@;
            let l1 = 8 + name.len() as int;
            &&& p + l1 + 24 <= end
            &&& b.subrange(p, p + l1) == enc_lp(name)
            &&& b.subrange(p, p + 8) == enc_le(name.len() as int, 8)
            &&& b.subrange(p + l1, p + l1 + 8) == enc_le(e[i].owner as int, 8)
            &&& b.subrange(p + l1 + 8, p + l1 + 16) == enc_le(e[i].len as int, 8)
            &&& b.subrange(p + l1 + 16, p + l1 + 24) == enc_le(
                if e[i].unlimited {
                    1
                } else {
                    0
                },
                8,
            )
            &&& b.subrange(p + l1 + 24, end) == enc_dims_from(e, i + 1)
        }),
{
    let name = e[i].name@;
    let l1 = 8 + name.len() as int;
    let w1 = enc_le(e[i].owner as int, 8);
    let w2 = enc_le(e[i].len as int, 8);
    let w3 = enc_le(
        if e[i].unlimited {
            1
        } else {
            0
        },
        8,
    );
    lemma_enc_le_len(name.len() as int, 8);
    lemma_enc_le_len(e[i].owner as int, 8);
    lemma_enc_le_len(e[i].len as int, 8);
    lemma_enc_le_len(
        if e[i].unlimited {
            1
        } else {
            0
        },
        8,
    );
    assert(enc_dims_from(e, i) == enc_dim(e[i]) + enc_dims_from(e, i + 1));
    let rest1 = w1 + (w2 + (w3 + enc_dims_from(e, i + 1)));
    assert(enc_dims_from(e, i) =~= enc_lp(name) + rest1);
    assert(end - p == enc_lp(name).len() + rest1.len());
    lemma_split_at(b, p, enc_lp(name), rest1);
    assert(enc_lp(name) =~= enc_le(name.len() as int, 8) + name);
    lemma_split_at(b, p, enc_le(name.len() as int, 8), name);
    lemma_split_at(b, p + l1, w1, w2 + (w3 + enc_dims_from(e, i + 1)));
    lemma_split_at(b, p + l1 + 8, w2, w3 + enc_dims_from(e, i + 1));
    lemma_split_at(b, p + l1 + 16, w3, enc_dims_from(e, i + 1));
}

/// Reads the whole dimension table at `pos` into `raw`; the bytes read are
/// exactly the table's encoding.  Where the bytes at `pos` are known to
/// encode a well-formed expected table, the read succeeds and builds
/// exactly it.
#[verifier::rlimit(100)]
fn parse_dims(
    raw: &mut RawFile,
    b: &Vec<u8>,
    pos: usize,
    ndims: usize,
    expect: Ghost<Seq<Dimension>>,
) -> (r: Option<usize>)
    requires
        old(raw).wf(),
        old(raw).dims@.len() == 0,
    ensures
        final(raw).wf(),
        final(raw).groups@ == old(raw).groups@,
        final(raw).vars@ == old(raw).vars@,
        final(raw).path@ == old(raw).path@,
        final(raw).bits == old(raw).bits,
        match r {
            Some(p2) => {
                &&& final(raw).dims@.len() == ndims
                &&& pos <= p2 <= b@.len()
                &&& b@.subrange(pos as int, p2 as int) == enc_dims(final(raw).dims@)
            },
            None => true,
        },
        dims_expected(b@, pos as int, expect@, ndims as int, old(raw).groups@.len() as int) ==> (
        match r {
            Some(p2) => dims_like(final(raw).dims@, expect@) && p2 == pos + enc_dims(
                expect@,
            ).len(),
            None => false,
        }),
{
    let ghost e = expect@;
    let ghost cond = dims_expected(b@, pos as int, e, ndims as int, raw.groups@.len() as int);
    let ghost end = pos + enc_dims(e).len() as int;
    proof {
        if cond {
            lemma_enc_dims_from(e);
        }
    }
    if pos > b.len() {
        return None;
    }
    let mut p: usize = pos;
    let mut i: usize = 0;
    proof {
        assert(b@.subrange(pos as int, pos as int) =~= enc_dims(raw.dims@));
        if cond {
            assert(dims_like(raw.dims@, e.take(0)));
        }
    }
    while i < ndims
        invariant
            raw.wf(),
            raw.dims@.len() == i,
            raw.groups@ == old(raw).groups@,
            raw.vars@ == old(raw).vars@,
            raw.path@ == old(raw).path@,
            raw.bits == old(raw).bits,
            i <= ndims,
            pos <= p <= b@.len(),
            b@.subrange(pos as int, p as int) == enc_dims(raw.dims@),
            cond == dims_expected(b@, pos as int, e, ndims as int, raw.groups@.len() as int),
            end == pos + enc_dims(e).len() as int,
            cond ==> (dims_like(raw.dims@, e.take(i as int)) && p <= end <= b@.len()
                && b@.subrange(p as int, end) == enc_dims_from(e, i as int)),
        decreases ndims - i,
    {
        proof {
            if cond {
                lemma_peel_dim(b@, p as int, end, e, i as int);
                vstd::std_specs::vec::axiom_spec_len(&e[i as int].name);
                lemma_usize_in_block();
            }
        }
        let (name, p1) = match parse_lp(b, p) {
            Some(x) => x,
            None => {
                proof {
                    if cond {
                        lemma_block_value(b@, p as int, e[i as int].name@.len() as int);
                    }
                }
                return None;
            }
        };
        proof {
            if cond {
                lemma_lp_unique(b@, p as int, e[i as int].name@, name@, p1 as int);
            }
        }
        let (owner, p2) = match parse_u64(b, p1) {
            Some(x) => x,
            None => {
                return None;
            }
        };
        proof {
            if cond {
                lemma_block_value(b@, p1 as int, e[i as int].owner as int);
            }
        }
        if owner >= raw.groups.len() as u64 {
            return None;
        }
        let (dlen, p3) = match parse_u64(b, p2) {
            Some(x) => x,
            None => {
                return None;
            }
        };
        proof {
            if cond {
                lemma_block_value(b@, p2 as int, e[i as int].len as int);
            }
        }
        if dlen > usize::MAX as u64 {
            return None;
        }
        let (unl, p4) = match parse_u64(b, p3) {
            Some(x) => x,
            None => {
                return None;
            }
        };
        proof {
            if cond {
                lemma_block_value(
                    b@,
                    p3 as int,
                    if e[i as int].unlimited {
                        1
                    } else {
                        0
                    },
                );
            }
        }
        if unl > 1 {
            return None;
        }
        let ghost pre_dims = raw.dims@;
        let ghost nb_view = name@;
        match raw.add_dimension_bytes(owner as usize, name, dlen as usize, unl == 1) {
            Ok(_) => (),
            Err(_) => {
                proof {
                    if cond {
                        assert(crate::file::group_has_dim(pre_dims, owner as int, nb_view));
                        let j = choose|j: int|
                            0 <= j < pre_dims.len() && crate::file::dim_matches(
                                #[trigger] pre_dims[j],
                                owner as int,
                                nb_view,
                            );
                        assert(dim_like(pre_dims[j], e[j]));
                        assert(crate::file::dim_clash(e[j], e[i as int]));
                    }
                }
                return None;
            }
        }
        proof {
            assert(raw.dims@.drop_last() =~= pre_dims);
            let d = raw.dims@.last();
            assert(d.name@ == nb_view && d.owner == owner as usize && d.len == dlen as usize
                && d.unlimited == (unl == 1));
            assert(b@.subrange(pos as int, p4 as int) =~= b@.subrange(pos as int, p as int) + ((
            b@.subrange(p as int, p1 as int) + b@.subrange(p1 as int, p2 as int)) + (b@.subrange(
                p2 as int,
                p3 as int,
            ) + b@.subrange(p3 as int, p4 as int))));
            assert(b@.subrange(pos as int, p4 as int) =~= enc_dims(raw.dims@));
            if cond {
                assert(dim_like(raw.dims@.last(), e[i as int]));
                assert(dims_like(raw.dims@, e.take(i + 1)));
                assert(b@.subrange(p4 as int, end) == enc_dims_from(e, i + 1));
            }
        }
        p = p4;
        i = i + 1;
    }
    proof {
        if cond {
            assert(e.take(ndims as int) =~= e);
            assert(enc_dims_from(e, ndims as int) =~= Seq::<u8>::empty());
            assert(b@.subrange(p as int, end).len() == 0);
        }
    }
    Some(p)
}

/// Two canonical sign-and-magnitude encodings of the same bytes carry the
/// same value.
proof fn lemma_val_unique(b: Seq<u8>, pos: int, v: i128, w: i128)
    requires
        0 <= pos,
        pos + 16 <= b.len(),
        storable(v as int),
        storable(w as int),
        b.subrange(pos, pos + 16) == enc_val(v),
        b.subrange(pos, pos + 16) == enc_val(w),
    ensures
        v == w,
{
    lemma_usize_in_block();
    lemma_enc_le_len(0, 8);
    lemma_enc_le_len(1, 8);
    if v >= 0 {
        lemma_enc_le_len(v as int, 8);
        assert(enc_val(v) =~= enc_le(0, 8) + enc_le(v as int, 8));
        lemma_split_at(b, pos, enc_le(0, 8), enc_le(v as int, 8));
        lemma_block_value(b, pos, 0);
        lemma_block_value(b, pos + 8, v as int);
    } else {
        lemma_enc_le_len(-(v as int), 8);
        assert(enc_val(v) =~= enc_le(1, 8) + enc_le(-(v as int), 8));
        lemma_split_at(b, pos, enc_le(1, 8), enc_le(-(v as int), 8));
        lemma_block_value(b, pos, 1);
        lemma_block_value(b, pos + 8, -(v as int));
    }
    if w >= 0 {
        lemma_enc_le_len(w as int, 8);
        assert(enc_val(w) =~= enc_le(0, 8) + enc_le(w as int, 8));
        lemma_split_at(b, pos, enc_le(0, 8), enc_le(w as int, 8));
        lemma_block_value(b, pos, 0);
        lemma_block_value(b, pos + 8, w as int);
    } else {
        lemma_enc_le_len(-(w as int), 8);
        assert(enc_val(w) =~= enc_le(1, 8) + enc_le(-(w as int), 8));
        lemma_split_at(b, pos, enc_le(1, 8), enc_le(-(w as int), 8));
        lemma_block_value(b, pos, 1);
        lemma_block_value(b, pos + 8, -(w as int));
    }
}

/// What the cell reader may assume of expected entries sitting at `pos`:
/// count word and entries encoded in full, keys and count within the
/// machine's index range, values storable.
pub open spec fn cells_expected(
    b: Seq<u8>,
    pos: int,
    keys: Seq<Seq<usize>>,
    vals: Seq<i128>,
) -> bool {
    &&& keys.len() == vals.len()
    &&& keys.len() <= usize::MAX
    &&& pos + 8 + enc_cells(keys, vals).len() <= b.len()
    &&& b.subrange(pos, pos + 8) == enc_le(keys.len() as int, 8)
    &&& b.subrange(pos + 8, pos + 8 + enc_cells(keys, vals).len() as int) == enc_cells(keys, vals)
    &&& (forall|i: int| 0 <= i < keys.len() ==> (#[trigger] keys[i]).len() <= usize::MAX)
    &&& (forall|i: int| 0 <= i < vals.len() ==> storable(#[trigger] vals[i] as int))
}

/// Peels one expected numeric cell entry at `p`.
proof fn lemma_peel_cell(
    b: Seq<u8>,
    p: int,
    end: int,
    keys: Seq<Seq<usize>>,
    vals: Seq<i128>,
    i: int,
)
    requires
        0 <= p <= end,
        end <= b.len(),
        keys.len() == vals.len(),
        0 <= i < keys.len(),
        b.subrange(p, end) == enc_cells_from(keys, vals, i),
    ensures
        ({
            let k = keys[i];
            let l1 = 8 + 8 * k.len() as int;
            &&& p + l1 + 16 <= end
            &&& b.subrange(p, p + 8) == enc_le(k.len() as int, 8)
            &&& b.subrange(p + 8, p + l1) == enc_ids(k)
            &&& b.subrange(p + l1, p + l1 + 16) == enc_val(vals[i])
            &&& b.subrange(p + l1 + 16, end) == enc_cells_from(keys, vals, i + 1)
        }),
{
    let k = keys[i];
    let l1 = 8 + 8 * k.len() as int;
    lemma_enc_le_len(k.len() as int, 8);
    lemma_enc_ids_len(k);
    assert(enc_val(vals[i]).len() == 16) by {
        if vals[i] >= 0 {
            lemma_enc_le_len(0, 8);
            lemma_enc_le_len(vals[i] as int, 8);
        } else {
            lemma_enc_le_len(1, 8);
            lemma_enc_le_len(-(vals[i] as int), 8);
        }
    }
    assert(enc_cells_from(keys, vals, i) == enc_cell(keys[i], vals[i]) + enc_cells_from(
        keys,
        vals,
        i + 1,
    ));
    let rest1 = enc_ids(k) + (enc_val(vals[i]) + enc_cells_from(keys, vals, i + 1));
    assert(enc_cells_from(keys, vals, i) =~= enc_le(k.len() as int, 8) + rest1);
    assert(end - p == 8 + rest1.len());
    lemma_split_at(b, p, enc_le(k.len() as int, 8), rest1);
    lemma_split_at(b, p + 8, enc_ids(k), enc_val(vals[i]) + enc_cells_from(keys, vals, i + 1));
    lemma_split_at(b, p + l1, enc_val(vals[i]), enc_cells_from(keys, vals, i + 1));
}

/// What the text cell reader may assume, as `cells_expected` with byte
/// strings for values.
pub open spec fn tcells_expected(
    b: Seq<u8>,
    pos: int,
    keys: Seq<Seq<usize>>,
    vals: Seq<Seq<u8>>,
) -> bool {
    &&& keys.len() == vals.len()
    &&& keys.len() <= usize::MAX
    &&& pos + 8 + enc_tcells(keys, vals).len() <= b.len()
    &&& b.subrange(pos, pos + 8) == enc_le(keys.len() as int, 8)
    &&& b.subrange(pos + 8, pos + 8 + enc_tcells(keys, vals).len() as int) == enc_tcells(
        keys,
        vals,
    )
    &&& (forall|i: int| 0 <= i < keys.len() ==> (#[trigger] keys[i]).len() <= usize::MAX)
    &&& (forall|i: int| 0 <= i < vals.len() ==> (#[trigger] vals[i]).len() <= usize::MAX)
}

/// Peels one expected text cell entry at `p`.
proof fn lemma_peel_tcell(
    b: Seq<u8>,
    p: int,
    end: int,
    keys: Seq<Seq<usize>>,
    vals: Seq<Seq<u8>>,
    i: int,
)
    requires
        0 <= p <= end,
        end <= b.len(),
        keys.len() == vals.len(),
        0 <= i < keys.len(),
        b.subrange(p, end) == enc_tcells_from(keys, vals, i),
    ensures
        ({
            let k = keys[i];
            let s = vals[i];
            let l1 = 8 + 8 * k.len() as int;
            let l2 = 8 + s.len() as int;
            &&& p + l1 + l2 <= end
            &&& b.subrange(p, p + 8) == enc_le(k.len() as int, 8)
            &&& b.subrange(p + 8, p + l1) == enc_ids(k)
            &&& b.subrange(p + l1, p + l1 + l2) == enc_lp(s)
            &&& b.subrange(p + l1, p + l1 + 8) == enc_le(s.len() as int, 8)
            &&& b.subrange(p + l1 + l2, end) == enc_tcells_from(keys, vals, i + 1)
        }),
{
    let k = keys[i];
    let s = vals[i];
    let l1 = 8 + 8 * k.len() as int;
    let l2 = 8 + s.len() as int;
    lemma_enc_le_len(k.len() as int, 8);
    lemma_enc_le_len(s.len() as int, 8);
    lemma_enc_ids_len(k);
    assert(enc_tcells_from(keys, vals, i) == enc_tcell(keys[i], vals[i]) + enc_tcells_from(
        keys,
        vals,
        i + 1,
    ));
    let rest1 = enc_ids(k) + (enc_lp(s) + enc_tcells_from(keys, vals, i + 1));
    assert(enc_tcells_from(keys, vals, i) =~= enc_le(k.len() as int, 8) + rest1);
    assert(end - p == 8 + rest1.len());
    lemma_split_at(b, p, enc_le(k.len() as int, 8), rest1);
    lemma_split_at(b, p + 8, enc_ids(k), enc_lp(s) + enc_tcells_from(keys, vals, i + 1));
    lemma_split_at(b, p + l1, enc_lp(s), enc_tcells_from(keys, vals, i + 1));
    assert(enc_lp(s) =~= enc_le(s.len() as int, 8) + s);
    lemma_split_at(b, p + l1, enc_le(s.len() as int, 8), s);
}

/// Reads one variable's numeric cell entries at `pos` into variable `v`,
/// whose store must still be empty; the bytes read are exactly the entry
/// count and entries as the variable encodes them.  Where the bytes are
/// known to encode particular entries, the read succeeds and stores
/// exactly them.
#[verifier::rlimit(100)]
fn parse_cells(
    raw: &mut RawFile,
    v: usize,
    b: &Vec<u8>,
    pos: usize,
    ekeys: Ghost<Seq<Seq<usize>>>,
    evals: Ghost<Seq<i128>>,
) -> (r: Option<usize>)
    requires
        old(raw).wf(),
        v < old(raw).vars@.len(),
        old(raw).vars@[v as int].cells.keys_spec() == Seq::<Seq<usize>>::empty(),
        old(raw).vars@[v as int].cells.vals_spec() == Seq::<i128>::empty(),
    ensures
        final(raw).wf(),
        final(raw).groups@ == old(raw).groups@,
        final(raw).dims@ == old(raw).dims@,
        final(raw).path@ == old(raw).path@,
        final(raw).bits == old(raw).bits,
        final(raw).vars@.len() == old(raw).vars@.len(),
        forall|u: int|
            0 <= u < old(raw).vars@.len() && u != v ==> final(raw).vars@[u] == old(raw).vars@[u],
        crate::file::var_frame(old(raw).vars@[v as int], final(raw).vars@[v as int]),
        final(raw).vars@[v as int].text == old(raw).vars@[v as int].text,
        match r {
            Some(p2) => {
                &&& pos <= p2 <= b@.len()
                &&& b@.subrange(pos as int, p2 as int) == enc_le(
                    final(raw).vars@[v as int].cells.keys_spec().len() as int,
                    8,
                ) + enc_cells(
                    final(raw).vars@[v as int].cells.keys_spec(),
                    final(raw).vars@[v as int].cells.vals_spec(),
                )
            },
            None => true,
        },
        cells_expected(b@, pos as int, ekeys@, evals@) ==> (match r {
            Some(p2) => {
                &&& final(raw).vars@[v as int].cells.keys_spec() == ekeys@
                &&& final(raw).vars@[v as int].cells.vals_spec() == evals@
                &&& p2 == pos + 8 + enc_cells(ekeys@, evals@).len()
            },
            None => false,
        }),
{
    let ghost cond = cells_expected(b@, pos as int, ekeys@, evals@);
    let ghost end = pos + 8 + enc_cells(ekeys@, evals@).len() as int;
    let (nc, p0) = match parse_u64(b, pos) {
        Some(x) => x,
        None => {
            return None;
        }
    };
    proof {
        if cond {
            lemma_usize_in_block();
            lemma_block_value(b@, pos as int, ekeys@.len() as int);
            lemma_enc_cells_from(ekeys@, evals@);
        }
    }
    if nc > usize::MAX as u64 {
        return None;
    }
    let nc = nc as usize;
    let mut p: usize = p0;
    let mut i: usize = 0;
    proof {
        assert(b@.subrange(p0 as int, p0 as int) =~= enc_cells(
            raw.vars@[v as int].cells.keys_spec(),
            raw.vars@[v as int].cells.vals_spec(),
        ));
    }
    while i < nc
        invariant
            raw.wf(),
            v < raw.vars@.len(),
            raw.groups@ == old(raw).groups@,
            raw.dims@ == old(raw).dims@,
            raw.path@ == old(raw).path@,
            raw.bits == old(raw).bits,
            raw.vars@.len() == old(raw).vars@.len(),
            forall|u: int|
                0 <= u < old(raw).vars@.len() && u != v ==> raw.vars@[u] == old(raw).vars@[u],
            crate::file::var_frame(old(raw).vars@[v as int], raw.vars@[v as int]),
            raw.vars@[v as int].text == old(raw).vars@[v as int].text,
            raw.vars@[v as int].cells.keys_spec().len() == i,
            raw.vars@[v as int].cells.vals_spec().len() == i,
            i <= nc,
            p0 <= p <= b@.len(),
            b@.subrange(p0 as int, p as int) == enc_cells(
                raw.vars@[v as int].cells.keys_spec(),
                raw.vars@[v as int].cells.vals_spec(),
            ),
            cond == cells_expected(b@, pos as int, ekeys@, evals@),
            end == pos + 8 + enc_cells(ekeys@, evals@).len() as int,
            cond ==> ({
                &&& nc == ekeys@.len()
                &&& raw.vars@[v as int].cells.keys_spec() == ekeys@.take(i as int)
                &&& raw.vars@[v as int].cells.vals_spec() == evals@.take(i as int)
                &&& p <= end <= b@.len()
                &&& b@.subrange(p as int, end) == enc_cells_from(ekeys@, evals@, i as int)
            }),
        decreases nc - i,
    {
        proof {
            if cond {
                lemma_peel_cell(b@, p as int, end, ekeys@, evals@, i as int);
                lemma_usize_in_block();
            }
        }
        let (klen64, p1) = match parse_u64(b, p) {
            Some(x) => x,
            None => {
                return None;
            }
        };
        proof {
            if cond {
                lemma_block_value(b@, p as int, ekeys@[i as int].len() as int);
            }
        }
        if klen64 > usize::MAX as u64 {
            return None;
        }
        let ghost ekey = if cond {
            ekeys@[i as int]
        } else {
            Seq::empty()
        };
        let (key, p2) = match parse_ids(b, p1, klen64 as usize, Ghost(ekey)) {
            Some(x) => x,
            None => {
                return None;
            }
        };
        proof {
            if cond {
                lemma_enc_ids_len(ekeys@[i as int]);
            }
        }
        let (val, p3) = match parse_val(b, p2) {
            Some(x) => x,
            None => {
                proof {
                    if cond {
                        lemma_val_shape(b@, p2 as int, evals@[i as int]);
                    }
                }
                return None;
            }
        };
        proof {
            if cond {
                lemma_val_shape(b@, p2 as int, evals@[i as int]);
                lemma_val_unique(b@, p2 as int, val, evals@[i as int]);
            }
        }
        let ghost pre = *raw;
        let ghost key_view = key@;
        proof {
            assert(crate::file::var_wf(
                raw.groups@.len() as int,
                raw.dims@.len() as int,
                raw.vars@[v as int],
            ));
        }
        raw.vars[v].cells.write(key, val);
        proof {
            let nv = raw.vars@[v as int].cells.vals_spec();
            let ov = pre.vars@[v as int].cells.vals_spec();
            assert forall|q: int| 0 <= q < nv.len() implies storable(#[trigger] nv[q] as int) by {
                if q < ov.len() {
                    assert(nv[q] == ov[q]);
                }
            }
            crate::file::lemma_update_var_wf(pre, *raw, v as int);
            assert(raw.vars@[v as int].cells.keys_spec().drop_last() =~= pre.vars@[v as int].cells.keys_spec());
            assert(raw.vars@[v as int].cells.vals_spec().drop_last() =~= pre.vars@[v as int].cells.vals_spec());
            assert(b@.subrange(p0 as int, p3 as int) =~= b@.subrange(p0 as int, p as int) + ((
            b@.subrange(p as int, p1 as int) + b@.subrange(p1 as int, p2 as int)) + b@.subrange(
                p2 as int,
                p3 as int,
            )));
            assert(b@.subrange(p0 as int, p3 as int) =~= enc_cells(
                raw.vars@[v as int].cells.keys_spec(),
                raw.vars@[v as int].cells.vals_spec(),
            ));
            if cond {
                assert(raw.vars@[v as int].cells.keys_spec() =~= ekeys@.take(i + 1));
                assert(raw.vars@[v as int].cells.vals_spec() =~= evals@.take(i + 1));
                assert(b@.subrange(p3 as int, end) == enc_cells_from(ekeys@, evals@, i + 1));
            }
        }
        p = p3;
        i = i + 1;
    }
    proof {
        assert(b@.subrange(pos as int, p as int) =~= b@.subrange(pos as int, p0 as int)
            + b@.subrange(p0 as int, p as int));
        if cond {
            assert(ekeys@.take(nc as int) =~= ekeys@);
            assert(evals@.take(nc as int) =~= evals@);
            assert(enc_cells_from(ekeys@, evals@, nc as int) =~= Seq::<u8>::empty());
            assert(b@.subrange(p as int, end).len() == 0);
        }
    }
    Some(p)
}

/// Sixteen bytes encoding a storable value satisfy the reader's validity
/// test.
proof fn lemma_val_shape(b: Seq<u8>, pos: int, v: i128)
    requires
        0 <= pos,
        pos + 16 <= b.len(),
        storable(v as int),
        b.subrange(pos, pos + 16) == enc_val(v),
    ensures
        valid_val_at(b, pos),
{
    lemma_usize_in_block();
    if v >= 0 {
        lemma_enc_le_len(0, 8);
        lemma_enc_le_len(v as int, 8);
        assert(enc_val(v) =~= enc_le(0, 8) + enc_le(v as int, 8));
        lemma_split_at(b, pos, enc_le(0, 8), enc_le(v as int, 8));
        lemma_block_value(b, pos, 0);
        lemma_block_value(b, pos + 8, v as int);
    } else {
        lemma_enc_le_len(1, 8);
        lemma_enc_le_len(-(v as int), 8);
        assert(enc_val(v) =~= enc_le(1, 8) + enc_le(-(v as int), 8));
        lemma_split_at(b, pos, enc_le(1, 8), enc_le(-(v as int), 8));
        lemma_block_value(b, pos, 1);
        lemma_block_value(b, pos + 8, -(v as int));
    }
}

/// Reads one variable's text cell entries at `pos` into variable `v`,
/// whose text store must still be empty; the bytes read are exactly the
/// entry count and entries as the variable encodes them.  Where the bytes
/// are known to encode particular entries, the read succeeds and stores
/// exactly them.
#[verifier::rlimit(100)]
fn parse_texts(
    raw: &mut RawFile,
    v: usize,
    b: &Vec<u8>,
    pos: usize,
    ekeys: Ghost<Seq<Seq<usize>>>,
    evals: Ghost<Seq<Seq<u8>>>,
) -> (r: Option<usize>)
    requires
        old(raw).wf(),
        v < old(raw).vars@.len(),
        old(raw).vars@[v as int].text.keys_spec() == Seq::<Seq<usize>>::empty(),
        old(raw).vars@[v as int].text.vals_spec() == Seq::<Seq<u8>>::empty(),
    ensures
        final(raw).wf(),
        final(raw).groups@ == old(raw).groups@,
        final(raw).dims@ == old(raw).dims@,
        final(raw).path@ == old(raw).path@,
        final(raw).bits == old(raw).bits,
        final(raw).vars@.len() == old(raw).vars@.len(),
        forall|u: int|
            0 <= u < old(raw).vars@.len() && u != v ==> final(raw).vars@[u] == old(raw).vars@[u],
        crate::file::var_frame(old(raw).vars@[v as int], final(raw).vars@[v as int]),
        final(raw).vars@[v as int].cells == old(raw).vars@[v as int].cells,
        match r {
            Some(p2) => {
                &&& pos <= p2 <= b@.len()
                &&& b@.subrange(pos as int, p2 as int) == enc_le(
                    final(raw).vars@[v as int].text.keys_spec().len() as int,
                    8,
                ) + enc_tcells(
                    final(raw).vars@[v as int].text.keys_spec(),
                    final(raw).vars@[v as int].text.vals_spec(),
                )
            },
            None => true,
        },
        tcells_expected(b@, pos as int, ekeys@, evals@) ==> (match r {
            Some(p2) => {
                &&& final(raw).vars@[v as int].text.keys_spec() == ekeys@
                &&& final(raw).vars@[v as int].text.vals_spec() == evals@
                &&& p2 == pos + 8 + enc_tcells(ekeys@, evals@).len()
            },
            None => false,
        }),
{
    let ghost cond = tcells_expected(b@, pos as int, ekeys@, evals@);
    let ghost end = pos + 8 + enc_tcells(ekeys@, evals@).len() as int;
    let (nt, p0) = match parse_u64(b, pos) {
        Some(x) => x,
        None => {
            return None;
        }
    };
    proof {
        if cond {
            lemma_usize_in_block();
            lemma_block_value(b@, pos as int, ekeys@.len() as int);
            lemma_enc_tcells_from(ekeys@, evals@);
        }
    }
    if nt > usize::MAX as u64 {
        return None;
    }
    let nt = nt as usize;
    let mut p: usize = p0;
    let mut i: usize = 0;
    proof {
        assert(b@.subrange(p0 as int, p0 as int) =~= enc_tcells(
            raw.vars@[v as int].text.keys_spec(),
            raw.vars@[v as int].text.vals_spec(),
        ));
    }
    while i < nt
        invariant
            raw.wf(),
            v < raw.vars@.len(),
            raw.groups@ == old(raw).groups@,
            raw.dims@ == old(raw).dims@,
            raw.path@ == old(raw).path@,
            raw.bits == old(raw).bits,
            raw.vars@.len() == old(raw).vars@.len(),
            forall|u: int|
                0 <= u < old(raw).vars@.len() && u != v ==> raw.vars@[u] == old(raw).vars@[u],
            crate::file::var_frame(old(raw).vars@[v as int], raw.vars@[v as int]),
            raw.vars@[v as int].cells == old(raw).vars@[v as int].cells,
            raw.vars@[v as int].text.keys_spec().len() == i,
            raw.vars@[v as int].text.vals_spec().len() == i,
            i <= nt,
            p0 <= p <= b@.len(),
            b@.subrange(p0 as int, p as int) == enc_tcells(
                raw.vars@[v as int].text.keys_spec(),
                raw.vars@[v as int].text.vals_spec(),
            ),
            cond == tcells_expected(b@, pos as int, ekeys@, evals@),
            end == pos + 8 + enc_tcells(ekeys@, evals@).len() as int,
            cond ==> ({
                &&& nt == ekeys@.len()
                &&& raw.vars@[v as int].text.keys_spec() == ekeys@.take(i as int)
                &&& raw.vars@[v as int].text.vals_spec() == evals@.take(i as int)
                &&& p <= end <= b@.len()
                &&& b@.subrange(p as int, end) == enc_tcells_from(ekeys@, evals@, i as int)
            }),
        decreases nt - i,
    {
        proof {
            if cond {
                lemma_peel_tcell(b@, p as int, end, ekeys@, evals@, i as int);
                lemma_usize_in_block();
            }
        }
        let (klen64, p1) = match parse_u64(b, p) {
            Some(x) => x,
            None => {
                return None;
            }
        };
        proof {
            if cond {
                lemma_block_value(b@, p as int, ekeys@[i as int].len() as int);
            }
        }
        if klen64 > usize::MAX as u64 {
            return None;
        }
        let ghost ekey = if cond {
            ekeys@[i as int]
        } else {
            Seq::empty()
        };
        let (key, p2) = match parse_ids(b, p1, klen64 as usize, Ghost(ekey)) {
            Some(x) => x,
            None => {
                return None;
            }
        };
        proof {
            if cond {
                lemma_enc_ids_len(ekeys@[i as int]);
            }
        }
        let (sv, p3) = match parse_lp(b, p2) {
            Some(x) => x,
            None => {
                proof {
                    if cond {
                        lemma_block_value(b@, p2 as int, evals@[i as int].len() as int);
                    }
                }
                return None;
            }
        };
        proof {
            if cond {
                lemma_lp_unique(b@, p2 as int, evals@[i as int], sv@, p3 as int);
            }
        }
        let ghost pre = *raw;
        proof {
            assert(crate::file::var_wf(
                raw.groups@.len() as int,
                raw.dims@.len() as int,
                raw.vars@[v as int],
            ));
        }
        raw.vars[v].text.write(key, sv);
        proof {
            crate::file::lemma_update_var_wf(pre, *raw, v as int);
            assert(raw.vars@[v as int].text.keys_spec().drop_last() =~= pre.vars@[v as int].text.keys_spec());
            assert(raw.vars@[v as int].text.vals_spec().drop_last() =~= pre.vars@[v as int].text.vals_spec());
            assert(b@.subrange(p0 as int, p3 as int) =~= b@.subrange(p0 as int, p as int) + ((
            b@.subrange(p as int, p1 as int) + b@.subrange(p1 as int, p2 as int)) + b@.subrange(
                p2 as int,
                p3 as int,
            )));
            assert(b@.subrange(p0 as int, p3 as int) =~= enc_tcells(
                raw.vars@[v as int].text.keys_spec(),
                raw.vars@[v as int].text.vals_spec(),
            ));
            if cond {
                assert(raw.vars@[v as int].text.keys_spec() =~= ekeys@.take(i + 1));
                assert(raw.vars@[v as int].text.vals_spec() =~= evals@.take(i + 1));
                assert(b@.subrange(p3 as int, end) == enc_tcells_from(ekeys@, evals@, i + 1));
            }
        }
        p = p3;
        i = i + 1;
    }
    proof {
        assert(b@.subrange(pos as int, p as int) =~= b@.subrange(pos as int, p0 as int)
            + b@.subrange(p0 as int, p as int));
        if cond {
            assert(ekeys@.take(nt as int) =~= ekeys@);
            assert(evals@.take(nt as int) =~= evals@);
            assert(enc_tcells_from(ekeys@, evals@, nt as int) =~= Seq::<u8>::empty());
            assert(b@.subrange(p as int, end).len() == 0);
        }
    }
    Some(p)
}

/// What the configuration reader may assume of an expected variable whose
/// configuration sits at `pos`: the bytes are there in full, the variable
/// is internally consistent, and the store's variable has its element
/// type.
pub open spec fn config_expected(b: Seq<u8>, pos: int, evar: Variable, vt: VarType) -> bool {
    &&& pos + enc_var_h2(evar).len() <= b.len()
    &&& b.subrange(pos, pos + enc_var_h2(evar).len() as int) == enc_var_h2(evar)
    &&& evar.wf()
    &&& evar.vartype == vt
}

/// The fill half of a configuration record.
pub open spec fn enc_fill_part(fill_enabled: bool, fill: Option<i128>) -> Seq<u8> {
    enc_le(
        if fill_enabled {
            1
        } else {
            0
        },
        8,
    ) + enc_opt_val(fill)
}

/// Reads the fill flag and value at `pos` into variable `v`.
#[verifier::rlimit(100)]
fn parse_fill_part(
    raw: &mut RawFile,
    v: usize,
    b: &Vec<u8>,
    pos: usize,
    evar: Ghost<Variable>,
) -> (r: Option<usize>)
    requires
        old(raw).wf(),
        v < old(raw).vars@.len(),
    ensures
        final(raw).wf(),
        final(raw).groups@ == old(raw).groups@,
        final(raw).dims@ == old(raw).dims@,
        final(raw).path@ == old(raw).path@,
        final(raw).bits == old(raw).bits,
        final(raw).vars@.len() == old(raw).vars@.len(),
        forall|u: int|
            0 <= u < old(raw).vars@.len() && u != v ==> final(raw).vars@[u] == old(raw).vars@[u],
        final(raw).vars@[v as int].name@ == old(raw).vars@[v as int].name@,
        final(raw).vars@[v as int].owner == old(raw).vars@[v as int].owner,
        final(raw).vars@[v as int].vartype == old(raw).vars@[v as int].vartype,
        final(raw).vars@[v as int].dims@ == old(raw).vars@[v as int].dims@,
        final(raw).vars@[v as int].cells == old(raw).vars@[v as int].cells,
        final(raw).vars@[v as int].text == old(raw).vars@[v as int].text,
        final(raw).vars@[v as int].chunking == old(raw).vars@[v as int].chunking,
        final(raw).vars@[v as int].compression == old(raw).vars@[v as int].compression,
        match r {
            Some(p2) => {
                &&& pos <= p2 <= b@.len()
                &&& b@.subrange(pos as int, p2 as int) == enc_fill_part(
                    final(raw).vars@[v as int].fill_enabled,
                    final(raw).vars@[v as int].fill,
                )
            },
            None => true,
        },
        ({
            &&& pos + enc_fill_part(evar@.fill_enabled, evar@.fill).len() <= b@.len()
            &&& b@.subrange(
                pos as int,
                pos + enc_fill_part(evar@.fill_enabled, evar@.fill).len() as int,
            ) == enc_fill_part(evar@.fill_enabled, evar@.fill)
            &&& evar@.wf()
            &&& evar@.vartype == old(raw).vars@[v as int].vartype
        }) ==> (match r {
            Some(p2) => {
                &&& p2 == pos + enc_fill_part(evar@.fill_enabled, evar@.fill).len()
                &&& final(raw).vars@[v as int].fill == evar@.fill
                &&& final(raw).vars@[v as int].fill_enabled == evar@.fill_enabled
            },
            None => false,
        }),
{
    let ghost ev = evar@;
    let ghost cond = pos + enc_fill_part(ev.fill_enabled, ev.fill).len() <= b@.len()
        && b@.subrange(pos as int, pos + enc_fill_part(ev.fill_enabled, ev.fill).len() as int)
        == enc_fill_part(ev.fill_enabled, ev.fill) && ev.wf() && ev.vartype
        == raw.vars@[v as int].vartype;
    let ghost feflag: int = if ev.fill_enabled {
        1
    } else {
        0
    };
    proof {
        if cond {
            lemma_enc_le_len(feflag, 8);
            lemma_split_at(b@, pos as int, enc_le(feflag, 8), enc_opt_val(ev.fill));
            lemma_usize_in_block();
            lemma_block_value(b@, pos as int, feflag);
            match ev.fill {
                None => {
                    lemma_enc_le_len(0, 8);
                    lemma_block_value(b@, pos + 8, 0);
                }
                Some(fv0) => {
                    lemma_enc_le_len(1, 8);
                    match ev.vartype {
                        VarType::Numeric(t) => {
                            crate::types::lemma_in_range_storable(t, fv0 as int);
                        }
                        VarType::Text => {}
                    }
                    assert(enc_val(fv0).len() == 16) by {
                        if fv0 >= 0 {
                            lemma_enc_le_len(0, 8);
                            lemma_enc_le_len(fv0 as int, 8);
                        } else {
                            lemma_enc_le_len(-(fv0 as int), 8);
                        }
                    }
                    assert(enc_opt_val(ev.fill) =~= enc_le(1, 8) + enc_val(fv0));
                    lemma_split_at(b@, pos + 8, enc_le(1, 8), enc_val(fv0));
                    lemma_block_value(b@, pos + 8, 1);
                    lemma_val_shape(b@, pos + 16, fv0);
                }
            }
        }
    }
    let (fe, p1) = match parse_u64(b, pos) {
        Some(x) => x,
        None => {
            return None;
        }
    };
    if fe > 1 {
        return None;
    }
    let (ft, p2) = match parse_u64(b, p1) {
        Some(x) => x,
        None => {
            return None;
        }
    };
    if ft > 1 {
        return None;
    }
    let mut p: usize = p2;
    let mut fill: Option<i128> = None;
    if ft == 1 {
        let (fv, p3) = match parse_val(b, p) {
            Some(x) => x,
            None => {
                return None;
            }
        };
        proof {
            if cond {
                match ev.fill {
                    Some(fv0) => {
                        lemma_val_unique(b@, p as int, fv, fv0);
                    }
                    None => {
                        assert(false);
                    }
                }
            }
        }
        let ok: bool = match raw.vars[v].vartype {
            VarType::Numeric(t) => t.accepts(fv),
            VarType::Text => false,
        };
        if !ok {
            return None;
        }
        fill = Some(fv);
        p = p3;
    } else {
        proof {
            if cond {
                assert(ev.fill is None);
            }
        }
    }
    let ghost pre = *raw;
    proof {
        assert(crate::file::var_wf(
            raw.groups@.len() as int,
            raw.dims@.len() as int,
            raw.vars@[v as int],
        ));
    }
    raw.vars[v].fill = fill;
    raw.vars[v].fill_enabled = fe == 1;
    proof {
        crate::file::lemma_update_var_wf(pre, *raw, v as int);
        let vr = raw.vars@[v as int];
        assert(b@.subrange(pos as int, p as int) =~= b@.subrange(pos as int, p1 as int) + (
        b@.subrange(p1 as int, p2 as int) + b@.subrange(p2 as int, p as int)));
        assert(b@.subrange(pos as int, p as int) =~= enc_fill_part(vr.fill_enabled, vr.fill));
        if cond {
            assert(vr.fill == ev.fill && vr.fill_enabled == ev.fill_enabled);
            assert(p as int == pos + enc_fill_part(ev.fill_enabled, ev.fill).len()) by {
                assert(enc_fill_part(ev.fill_enabled, ev.fill).len() == enc_fill_part(
                    vr.fill_enabled,
                    vr.fill,
                ).len());
            }
        }
    }
    Some(p)
}

/// Reads the chunk-size option at `pos` into variable `v`.
#[verifier::rlimit(100)]
fn parse_chunk_part(
    raw: &mut RawFile,
    v: usize,
    b: &Vec<u8>,
    pos: usize,
    evar: Ghost<Variable>,
) -> (r: Option<usize>)
    requires
        old(raw).wf(),
        v < old(raw).vars@.len(),
        old(raw).vars@[v as int].chunking is None,
    ensures
        final(raw).wf(),
        final(raw).groups@ == old(raw).groups@,
        final(raw).dims@ == old(raw).dims@,
        final(raw).path@ == old(raw).path@,
        final(raw).bits == old(raw).bits,
        final(raw).vars@.len() == old(raw).vars@.len(),
        forall|u: int|
            0 <= u < old(raw).vars@.len() && u != v ==> final(raw).vars@[u] == old(raw).vars@[u],
        final(raw).vars@[v as int].name@ == old(raw).vars@[v as int].name@,
        final(raw).vars@[v as int].owner == old(raw).vars@[v as int].owner,
        final(raw).vars@[v as int].vartype == old(raw).vars@[v as int].vartype,
        final(raw).vars@[v as int].dims@ == old(raw).vars@[v as int].dims@,
        final(raw).vars@[v as int].cells == old(raw).vars@[v as int].cells,
        final(raw).vars@[v as int].text == old(raw).vars@[v as int].text,
        final(raw).vars@[v as int].fill == old(raw).vars@[v as int].fill,
        final(raw).vars@[v as int].fill_enabled == old(raw).vars@[v as int].fill_enabled,
        final(raw).vars@[v as int].compression == old(raw).vars@[v as int].compression,
        match r {
            Some(p2) => {
                &&& pos <= p2 <= b@.len()
                &&& b@.subrange(pos as int, p2 as int) == enc_opt_ids(
                    final(raw).vars@[v as int].chunking,
                )
            },
            None => true,
        },
        ({
            &&& pos + enc_opt_ids(evar@.chunking).len() <= b@.len()
            &&& b@.subrange(pos as int, pos + enc_opt_ids(evar@.chunking).len() as int)
                == enc_opt_ids(evar@.chunking)
        }) ==> (match r {
            Some(p2) => {
                &&& p2 == pos + enc_opt_ids(evar@.chunking).len()
                &&& enc_opt_ids(final(raw).vars@[v as int].chunking) == enc_opt_ids(
                    evar@.chunking,
                )
            },
            None => false,
        }),
{
    let ghost ev = evar@;
    let ghost cond = pos + enc_opt_ids(ev.chunking).len() <= b@.len() && b@.subrange(
        pos as int,
        pos + enc_opt_ids(ev.chunking).len() as int,
    ) == enc_opt_ids(ev.chunking);
    proof {
        if cond {
            lemma_usize_in_block();
            match ev.chunking {
                None => {
                    lemma_enc_le_len(0, 8);
                    lemma_block_value(b@, pos as int, 0);
                }
                Some(c) => {
                    vstd::std_specs::vec::axiom_spec_len(&c);
                    lemma_enc_le_len(1, 8);
                    lemma_enc_le_len(c@.len() as int, 8);
                    lemma_enc_ids_len(c@);
                    assert(enc_opt_ids(ev.chunking) =~= enc_le(1, 8) + (enc_le(
                        c@.len() as int,
                        8,
                    ) + enc_ids(c@)));
                    lemma_split_at(
                        b@,
                        pos as int,
                        enc_le(1, 8),
                        enc_le(c@.len() as int, 8) + enc_ids(c@),
                    );
                    lemma_split_at(b@, pos + 8, enc_le(c@.len() as int, 8), enc_ids(c@));
                    lemma_block_value(b@, pos as int, 1);
                    lemma_block_value(b@, pos + 8, c@.len() as int);
                }
            }
        }
    }
    let (ct, p4) = match parse_u64(b, pos) {
        Some(x) => x,
        None => {
            return None;
        }
    };
    if ct > 1 {
        return None;
    }
    if ct == 1 {
        let (cn, p5) = match parse_u64(b, p4) {
            Some(x) => x,
            None => {
                return None;
            }
        };
        if cn > usize::MAX as u64 {
            return None;
        }
        let ghost echunk = if cond && ev.chunking is Some {
            ev.chunking->0@
        } else {
            Seq::empty()
        };
        let (sizes, p6) = match parse_ids(b, p5, cn as usize, Ghost(echunk)) {
            Some(x) => x,
            None => {
                return None;
            }
        };
        let ghost sizes_view = sizes@;
        let ghost pre2 = *raw;
        proof {
            assert(crate::file::var_wf(
                raw.groups@.len() as int,
                raw.dims@.len() as int,
                raw.vars@[v as int],
            ));
        }
        raw.vars[v].chunking = Some(sizes);
        proof {
            crate::file::lemma_update_var_wf(pre2, *raw, v as int);
            let vr = raw.vars@[v as int];
            assert(vr.chunking matches Some(c2) && c2@ == sizes_view);
            assert(b@.subrange(pos as int, p6 as int) =~= b@.subrange(pos as int, p4 as int) + (
            b@.subrange(p4 as int, p5 as int) + b@.subrange(p5 as int, p6 as int)));
            assert(b@.subrange(pos as int, p6 as int) =~= enc_opt_ids(vr.chunking));
            if cond {
                assert(enc_opt_ids(vr.chunking) =~= enc_opt_ids(ev.chunking));
                assert(p6 as int == pos + enc_opt_ids(ev.chunking).len());
            }
        }
        Some(p6)
    } else {
        proof {
            let vr = raw.vars@[v as int];
            assert(vr.chunking is None);
            assert(b@.subrange(pos as int, p4 as int) =~= enc_le(0, 8)) by {
                lemma_enc_le_len(ct as int, 8);
            }
            assert(b@.subrange(pos as int, p4 as int) =~= enc_opt_ids(vr.chunking));
            if cond {
                assert(ev.chunking is None);
                assert(p4 as int == pos + enc_opt_ids(ev.chunking).len()) by {
                    lemma_enc_le_len(0, 8);
                }
            }
        }
        Some(p4)
    }
}

/// Reads the compression option at `pos` into variable `v`.
#[verifier::rlimit(100)]
fn parse_comp_part(
    raw: &mut RawFile,
    v: usize,
    b: &Vec<u8>,
    pos: usize,
    evar: Ghost<Variable>,
) -> (r: Option<usize>)
    requires
        old(raw).wf(),
        v < old(raw).vars@.len(),
        old(raw).vars@[v as int].compression is None,
    ensures
        final(raw).wf(),
        final(raw).groups@ == old(raw).groups@,
        final(raw).dims@ == old(raw).dims@,
        final(raw).path@ == old(raw).path@,
        final(raw).bits == old(raw).bits,
        final(raw).vars@.len() == old(raw).vars@.len(),
        forall|u: int|
            0 <= u < old(raw).vars@.len() && u != v ==> final(raw).vars@[u] == old(raw).vars@[u],
        final(raw).vars@[v as int].name@ == old(raw).vars@[v as int].name@,
        final(raw).vars@[v as int].owner == old(raw).vars@[v as int].owner,
        final(raw).vars@[v as int].vartype == old(raw).vars@[v as int].vartype,
        final(raw).vars@[v as int].dims@ == old(raw).vars@[v as int].dims@,
        final(raw).vars@[v as int].cells == old(raw).vars@[v as int].cells,
        final(raw).vars@[v as int].text == old(raw).vars@[v as int].text,
        final(raw).vars@[v as int].fill == old(raw).vars@[v as int].fill,
        final(raw).vars@[v as int].fill_enabled == old(raw).vars@[v as int].fill_enabled,
        final(raw).vars@[v as int].chunking == old(raw).vars@[v as int].chunking,
        match r {
            Some(p2) => {
                &&& pos <= p2 <= b@.len()
                &&& b@.subrange(pos as int, p2 as int) == enc_opt_u32(
                    final(raw).vars@[v as int].compression,
                )
            },
            None => true,
        },
        ({
            &&& pos + enc_opt_u32(evar@.compression).len() <= b@.len()
            &&& b@.subrange(pos as int, pos + enc_opt_u32(evar@.compression).len() as int)
                == enc_opt_u32(evar@.compression)
        }) ==> (match r {
            Some(p2) => {
                &&& p2 == pos + enc_opt_u32(evar@.compression).len()
                &&& final(raw).vars@[v as int].compression == evar@.compression
            },
            None => false,
        }),
{
    let ghost ev = evar@;
    let ghost cond = pos + enc_opt_u32(ev.compression).len() <= b@.len() && b@.subrange(
        pos as int,
        pos + enc_opt_u32(ev.compression).len() as int,
    ) == enc_opt_u32(ev.compression);
    proof {
        if cond {
            lemma_usize_in_block();
            match ev.compression {
                None => {
                    lemma_enc_le_len(0, 8);
                    lemma_block_value(b@, pos as int, 0);
                }
                Some(z) => {
                    lemma_enc_le_len(1, 8);
                    lemma_enc_le_len(z as int, 8);
                    assert(enc_opt_u32(ev.compression) =~= enc_le(1, 8) + enc_le(z as int, 8));
                    lemma_split_at(b@, pos as int, enc_le(1, 8), enc_le(z as int, 8));
                    lemma_block_value(b@, pos as int, 1);
                    lemma_block_value(b@, pos + 8, z as int);
                }
            }
        }
    }
    let (zt, p7) = match parse_u64(b, pos) {
        Some(x) => x,
        None => {
            return None;
        }
    };
    if zt > 1 {
        return None;
    }
    if zt == 1 {
        let (zl, p8) = match parse_u64(b, p7) {
            Some(x) => x,
            None => {
                return None;
            }
        };
        if zl > u32::MAX as u64 {
            return None;
        }
        let ghost pre3 = *raw;
        proof {
            assert(crate::file::var_wf(
                raw.groups@.len() as int,
                raw.dims@.len() as int,
                raw.vars@[v as int],
            ));
        }
        raw.vars[v].compression = Some(zl as u32);
        proof {
            crate::file::lemma_update_var_wf(pre3, *raw, v as int);
            let vr = raw.vars@[v as int];
            assert(vr.compression is Some);
            assert(b@.subrange(pos as int, p8 as int) =~= b@.subrange(pos as int, p7 as int)
                + b@.subrange(p7 as int, p8 as int));
            assert(b@.subrange(pos as int, p8 as int) =~= enc_opt_u32(vr.compression));
            if cond {
                assert(vr.compression == ev.compression);
                assert(p8 as int == pos + enc_opt_u32(ev.compression).len());
            }
        }
        Some(p8)
    } else {
        proof {
            let vr = raw.vars@[v as int];
            assert(vr.compression is None);
            assert(b@.subrange(pos as int, p7 as int) =~= enc_le(0, 8)) by {
                lemma_enc_le_len(zt as int, 8);
            }
            assert(b@.subrange(pos as int, p7 as int) =~= enc_opt_u32(vr.compression));
            if cond {
                assert(ev.compression is None);
                assert(p7 as int == pos + enc_opt_u32(ev.compression).len()) by {
                    lemma_enc_le_len(0, 8);
                }
            }
        }
        Some(p7)
    }
}

/// Reads one variable's configuration at `pos` into the just-created
/// variable `v`: fill mode and value, chunk sizes, compression.  The bytes
/// read are exactly that configuration as the final variable encodes it;
/// where they are known to encode an expected variable's configuration,
/// the read succeeds and copies it.
#[verifier::rlimit(100)]
fn parse_var_config(
    raw: &mut RawFile,
    v: usize,
    b: &Vec<u8>,
    pos: usize,
    evar: Ghost<Variable>,
) -> (r: Option<usize>)
    requires
        old(raw).wf(),
        v < old(raw).vars@.len(),
        old(raw).vars@[v as int].chunking is None,
        old(raw).vars@[v as int].compression is None,
    ensures
        final(raw).wf(),
        final(raw).groups@ == old(raw).groups@,
        final(raw).dims@ == old(raw).dims@,
        final(raw).path@ == old(raw).path@,
        final(raw).bits == old(raw).bits,
        final(raw).vars@.len() == old(raw).vars@.len(),
        forall|u: int|
            0 <= u < old(raw).vars@.len() && u != v ==> final(raw).vars@[u] == old(raw).vars@[u],
        final(raw).vars@[v as int].name@ == old(raw).vars@[v as int].name@,
        final(raw).vars@[v as int].owner == old(raw).vars@[v as int].owner,
        final(raw).vars@[v as int].vartype == old(raw).vars@[v as int].vartype,
        final(raw).vars@[v as int].dims@ == old(raw).vars@[v as int].dims@,
        final(raw).vars@[v as int].cells == old(raw).vars@[v as int].cells,
        final(raw).vars@[v as int].text == old(raw).vars@[v as int].text,
        match r {
            Some(p2) => {
                &&& pos <= p2 <= b@.len()
                &&& b@.subrange(pos as int, p2 as int) == enc_var_h2(final(raw).vars@[v as int])
            },
            None => true,
        },
        config_expected(b@, pos as int, evar@, old(raw).vars@[v as int].vartype) ==> (match r {
            Some(p2) => {
                &&& p2 == pos + enc_var_h2(evar@).len()
                &&& final(raw).vars@[v as int].fill == evar@.fill
                &&& final(raw).vars@[v as int].fill_enabled == evar@.fill_enabled
                &&& enc_opt_ids(final(raw).vars@[v as int].chunking) == enc_opt_ids(evar@.chunking)
                &&& final(raw).vars@[v as int].compression == evar@.compression
            },
            None => false,
        }),
{
    let ghost ev = evar@;
    let ghost cond = config_expected(b@, pos as int, ev, raw.vars@[v as int].vartype);
    proof {
        if cond {
            assert(enc_var_h2(ev) =~= enc_fill_part(ev.fill_enabled, ev.fill) + (enc_opt_ids(
                ev.chunking,
            ) + enc_opt_u32(ev.compression)));
            lemma_split_at(
                b@,
                pos as int,
                enc_fill_part(ev.fill_enabled, ev.fill),
                enc_opt_ids(ev.chunking) + enc_opt_u32(ev.compression),
            );
        }
    }
    let p1 = match parse_fill_part(raw, v, b, pos, evar) {
        Some(x) => x,
        None => {
            return None;
        }
    };
    proof {
        if cond {
            lemma_split_at(
                b@,
                p1 as int,
                enc_opt_ids(ev.chunking),
                enc_opt_u32(ev.compression),
            );
        }
    }
    let p2 = match parse_chunk_part(raw, v, b, p1, evar) {
        Some(x) => x,
        None => {
            return None;
        }
    };
    let p3 = match parse_comp_part(raw, v, b, p2, evar) {
        Some(x) => x,
        None => {
            return None;
        }
    };
    proof {
        let vr = raw.vars@[v as int];
        assert(b@.subrange(pos as int, p3 as int) =~= (b@.subrange(pos as int, p1 as int)
            + b@.subrange(p1 as int, p2 as int)) + b@.subrange(p2 as int, p3 as int));
        assert(b@.subrange(pos as int, p3 as int) =~= enc_var_h2(vr));
        if cond {
            assert(p3 as int == pos + enc_var_h2(ev).len()) by {
                assert(enc_var_h2(ev).len() == enc_fill_part(ev.fill_enabled, ev.fill).len()
                    + enc_opt_ids(ev.chunking).len() + enc_opt_u32(ev.compression).len());
            }
        }
    }
    Some(p3)
}

/// What the variable reader may assume of an expected variable record at
/// `pos`: the record is there in full, the variable is consistent and
/// refers only to existing groups and dimensions, and its name is fresh in
/// its group.
pub open spec fn var_expected(
    b: Seq<u8>,
    pos: int,
    evar: Variable,
    ngroups: int,
    ndims: int,
    prior: Seq<Variable>,
) -> bool {
    &&& pos + enc_var(evar).len() <= b.len()
    &&& b.subrange(pos, pos + enc_var(evar).len() as int) == enc_var(evar)
    &&& (evar.owner as int) < ngroups
    &&& (forall|i: int| 0 <= i < evar.dims@.len() ==> (#[trigger] evar.dims@[i] as int) < ndims)
    &&& evar.wf()
    &&& !crate::file::group_has_var(prior, evar.owner as int, evar.name@)
}

/// Peels one expected variable record's identity at `p`.
proof fn lemma_peel_var_h1(b: Seq<u8>, p: int, evar: Variable)
    requires
        0 <= p,
        p + enc_var(evar).len() <= b.len(),
        b.subrange(p, p + enc_var(evar).len() as int) == enc_var(evar),
    ensures
        ({
            let name = evar.name@;
            let ids = evar.dims@;
            let l1 = 8 + name.len() as int;
            let l2 = l1 + 24 + 8 * ids.len() as int;
            &&& p + l2 <= b.len()
            &&& b.subrange(p, p + 8) == enc_le(name.len() as int, 8)
            &&& b.subrange(p, p + l1) == enc_lp(name)
            &&& b.subrange(p + l1, p + l1 + 8) == enc_le(evar.owner as int, 8)
            &&& b.subrange(p + l1 + 8, p + l1 + 16) == enc_le(type_code(evar.vartype), 8)
            &&& b.subrange(p + l1 + 16, p + l1 + 24) == enc_le(ids.len() as int, 8)
            &&& b.subrange(p + l1 + 24, p + l2) == enc_ids(ids)
            &&& b.subrange(p + l2, p + l2 + enc_var_h2(evar).len()) == enc_var_h2(evar)
            &&& b.subrange(
                p + l2 + enc_var_h2(evar).len(),
                p + enc_var(evar).len() as int,
            ) == enc_le(evar.cells.keys_spec().len() as int, 8) + enc_cells(
                evar.cells.keys_spec(),
                evar.cells.vals_spec(),
            ) + (enc_le(evar.text.keys_spec().len() as int, 8) + enc_tcells(
                evar.text.keys_spec(),
                evar.text.vals_spec(),
            ))
        }),
{
    let name = evar.name@;
    let ids = evar.dims@;
    let l1 = 8 + name.len() as int;
    let l2 = l1 + 24 + 8 * ids.len() as int;
    let w1 = enc_le(evar.owner as int, 8);
    let w2 = enc_le(type_code(evar.vartype), 8);
    let w3 = enc_le(ids.len() as int, 8);
    let cellsec = enc_le(evar.cells.keys_spec().len() as int, 8) + enc_cells(
        evar.cells.keys_spec(),
        evar.cells.vals_spec(),
    );
    let textsec = enc_le(evar.text.keys_spec().len() as int, 8) + enc_tcells(
        evar.text.keys_spec(),
        evar.text.vals_spec(),
    );
    lemma_enc_le_len(name.len() as int, 8);
    lemma_enc_le_len(evar.owner as int, 8);
    lemma_enc_le_len(type_code(evar.vartype), 8);
    lemma_enc_le_len(ids.len() as int, 8);
    lemma_enc_le_len(evar.cells.keys_spec().len() as int, 8);
    lemma_enc_le_len(evar.text.keys_spec().len() as int, 8);
    lemma_enc_ids_len(ids);
    let tail = enc_var_h2(evar) + (cellsec + textsec);
    assert(enc_var(evar) =~= enc_var_h1(evar) + tail);
    assert(enc_var_h1(evar) =~= enc_lp(name) + (w1 + (w2 + (w3 + enc_ids(ids)))));
    assert(enc_var(evar) =~= enc_lp(name) + ((w1 + (w2 + (w3 + enc_ids(ids)))) + tail));
    lemma_split_at(b, p, enc_lp(name), (w1 + (w2 + (w3 + enc_ids(ids)))) + tail);
    assert(enc_lp(name) =~= enc_le(name.len() as int, 8) + name);
    lemma_split_at(b, p, enc_le(name.len() as int, 8), name);
    let rest2 = (w2 + (w3 + enc_ids(ids))) + tail;
    assert((w1 + (w2 + (w3 + enc_ids(ids)))) + tail =~= w1 + rest2);
    lemma_split_at(b, p + l1, w1, rest2);
    let rest3 = (w3 + enc_ids(ids)) + tail;
    assert(rest2 =~= w2 + rest3);
    lemma_split_at(b, p + l1 + 8, w2, rest3);
    let rest4 = enc_ids(ids) + tail;
    assert(rest3 =~= w3 + rest4);
    lemma_split_at(b, p + l1 + 16, w3, rest4);
    lemma_split_at(b, p + l1 + 24, enc_ids(ids), tail);
    lemma_split_at(b, p + l2, enc_var_h2(evar), cellsec + textsec);
}

/// Five consecutive fields assemble into one identity record.
proof fn lemma_assemble_h1(
    b: Seq<u8>,
    pos: int,
    p1: int,
    p2: int,
    p3: int,
    p4: int,
    p5: int,
    vr: Variable,
)
    requires
        0 <= pos <= p1 <= p2 <= p3 <= p4 <= p5 <= b.len(),
        b.subrange(pos, p1) == enc_lp(vr.name@),
        b.subrange(p1, p2) == enc_le(vr.owner as int, 8),
        b.subrange(p2, p3) == enc_le(type_code(vr.vartype), 8),
        b.subrange(p3, p4) == enc_le(vr.dims@.len() as int, 8),
        b.subrange(p4, p5) == enc_ids(vr.dims@),
    ensures
        b.subrange(pos, p5) == enc_var_h1(vr),
{
    assert(b.subrange(pos, p5) =~= (b.subrange(pos, p1) + b.subrange(p1, p2)) + (b.subrange(
        p2,
        p3,
    ) + (b.subrange(p3, p4) + b.subrange(p4, p5))));
    assert(b.subrange(pos, p5) =~= enc_var_h1(vr));
}

/// Reads one variable record's identity at `pos` and creates the variable:
/// name, owner, element type and axes.
#[verifier::rlimit(100)]
fn parse_var_h1(raw: &mut RawFile, b: &Vec<u8>, pos: usize, evar: Ghost<Variable>) -> (r: Option<
    (usize, usize),
>)
    requires
        old(raw).wf(),
    ensures
        final(raw).wf(),
        final(raw).groups@ == old(raw).groups@,
        final(raw).dims@ == old(raw).dims@,
        final(raw).path@ == old(raw).path@,
        final(raw).bits == old(raw).bits,
        match r {
            Some((v, p2)) => {
                &&& v == old(raw).vars@.len()
                &&& final(raw).vars@.len() == old(raw).vars@.len() + 1
                &&& (forall|u: int|
                    0 <= u < old(raw).vars@.len() ==> final(raw).vars@[u] == old(raw).vars@[u])
                &&& pos <= p2 <= b@.len()
                &&& b@.subrange(pos as int, p2 as int) == enc_var_h1(final(raw).vars@[v as int])
                &&& final(raw).vars@[v as int].fill_enabled == true
                &&& final(raw).vars@[v as int].fill is None
                &&& final(raw).vars@[v as int].chunking is None
                &&& final(raw).vars@[v as int].compression is None
                &&& final(raw).vars@[v as int].cells.keys_spec() == Seq::<Seq<usize>>::empty()
                &&& final(raw).vars@[v as int].cells.vals_spec() == Seq::<i128>::empty()
                &&& final(raw).vars@[v as int].text.keys_spec() == Seq::<Seq<usize>>::empty()
                &&& final(raw).vars@[v as int].text.vals_spec() == Seq::<Seq<u8>>::empty()
            },
            None => final(raw).vars@ == old(raw).vars@,
        },
        var_expected(
            b@,
            pos as int,
            evar@,
            old(raw).groups@.len() as int,
            old(raw).dims@.len() as int,
            old(raw).vars@,
        ) ==> (match r {
            Some((v, p2)) => {
                &&& var_like(final(raw).vars@[v as int], evar@)
                &&& final(raw).vars@[v as int].vartype == evar@.vartype
                &&& final(raw).vars@[v as int].dims@ == evar@.dims@
                &&& p2 == pos + enc_var_h1(evar@).len()
                &&& b@.subrange(pos as int, p2 as int) == enc_var_h1(evar@)
            },
            None => false,
        }),
{
    let ghost ev = evar@;
    let ghost cond = var_expected(
        b@,
        pos as int,
        ev,
        raw.groups@.len() as int,
        raw.dims@.len() as int,
        raw.vars@,
    );
    proof {
        if cond {
            lemma_peel_var_h1(b@, pos as int, ev);
            vstd::std_specs::vec::axiom_spec_len(&ev.name);
            vstd::std_specs::vec::axiom_spec_len(&ev.dims);
            lemma_usize_in_block();
            lemma_block_value(b@, pos as int, ev.name@.len() as int);
        }
    }
    let (name, p1) = match parse_lp(b, pos) {
        Some(x) => x,
        None => {
            return None;
        }
    };
    proof {
        if cond {
            lemma_lp_unique(b@, pos as int, ev.name@, name@, p1 as int);
        }
    }
    let (owner, p2) = match parse_u64(b, p1) {
        Some(x) => x,
        None => {
            return None;
        }
    };
    proof {
        if cond {
            lemma_block_value(b@, p1 as int, ev.owner as int);
        }
    }
    if owner >= raw.groups.len() as u64 {
        return None;
    }
    let (tag, p3) = match parse_u64(b, p2) {
        Some(x) => x,
        None => {
            return None;
        }
    };
    proof {
        if cond {
            lemma_block_value(b@, p2 as int, type_code(ev.vartype));
        }
    }
    let vt: VarType = match tag {
        0 => VarType::Numeric(NumericType::I8),
        1 => VarType::Numeric(NumericType::U8),
        2 => VarType::Numeric(NumericType::I16),
        3 => VarType::Numeric(NumericType::U16),
        4 => VarType::Numeric(NumericType::I32),
        5 => VarType::Numeric(NumericType::U32),
        6 => VarType::Numeric(NumericType::I64),
        7 => VarType::Numeric(NumericType::U64),
        8 => VarType::Text,
        _ => {
            return None;
        }
    };
    proof {
        if cond {
            assert(vt == ev.vartype);
        }
    }
    let (rank64, p4) = match parse_u64(b, p3) {
        Some(x) => x,
        None => {
            return None;
        }
    };
    proof {
        if cond {
            lemma_block_value(b@, p3 as int, ev.dims@.len() as int);
        }
    }
    if rank64 > usize::MAX as u64 {
        return None;
    }
    let ghost eids = if cond {
        ev.dims@
    } else {
        Seq::empty()
    };
    let (ids, p5) = match parse_ids(b, p4, rank64 as usize, Ghost(eids)) {
        Some(x) => x,
        None => {
            return None;
        }
    };
    proof {
        if cond {
            lemma_enc_ids_len(ev.dims@);
        }
    }
    let mut j: usize = 0;
    while j < ids.len()
        invariant
            j <= ids@.len(),
            forall|q: int| 0 <= q < j ==> (#[trigger] ids@[q]) < raw.dims@.len(),
        decreases ids@.len() - j,
    {
        if ids[j] >= raw.dims.len() {
            proof {
                if cond {
                    assert((ev.dims@[j as int] as int) < raw.dims@.len() as int);
                }
            }
            return None;
        }
        j = j + 1;
    }
    let ghost name_view = name@;
    let ghost ids_view = ids@;
    let ghost pre_vars = raw.vars@;
    let v = match raw.add_variable_bytes(owner as usize, name, vt, ids) {
        Ok(v) => v,
        Err(_) => {
            proof {
                if cond {
                    assert(crate::file::group_has_var(pre_vars, owner as int, name_view));
                }
            }
            return None;
        }
    };
    proof {
        let vr = raw.vars@[v as int];
        assert(vr.name@ == name_view && vr.dims@ == ids_view && vr.vartype == vt);
        assert(type_code(vt) == tag as int);
        lemma_assemble_h1(
            b@,
            pos as int,
            p1 as int,
            p2 as int,
            p3 as int,
            p4 as int,
            p5 as int,
            vr,
        );
        if cond {
            assert(enc_var_h1(vr) =~= enc_var_h1(ev));
            assert(p5 as int == pos + enc_var_h1(ev).len()) by {
                assert(b@.subrange(pos as int, p5 as int).len() == enc_var_h1(ev).len());
            }
        }
    }
    Some((v, p5))
}

/// Where each section of an expected variable record lies: the
/// configuration follows the identity, the cell entries the configuration,
/// the text entries the cells, and together they fill the record.
proof fn lemma_var_layout(b: Seq<u8>, pos: int, ev: Variable)
    requires
        0 <= pos,
        pos + enc_var(ev).len() <= b.len(),
        b.subrange(pos, pos + enc_var(ev).len() as int) == enc_var(ev),
        ev.wf(),
    ensures
        ({
            let p5v = pos + enc_var_h1(ev).len();
            let p6v = p5v + enc_var_h2(ev).len();
            let p7v = p6v + 8 + enc_cells(ev.cells.keys_spec(), ev.cells.vals_spec()).len();
            &&& p6v <= b.len()
            &&& b.subrange(p5v, p6v) == enc_var_h2(ev)
            &&& cells_expected(b, p6v, ev.cells.keys_spec(), ev.cells.vals_spec())
            &&& tcells_expected(b, p7v, ev.text.keys_spec(), ev.text.vals_spec())
            &&& pos + enc_var(ev).len() == p7v + 8 + enc_tcells(
                ev.text.keys_spec(),
                ev.text.vals_spec(),
            ).len()
        }),
{
    let ck = ev.cells.keys_spec();
    let cv = ev.cells.vals_spec();
    let tk = ev.text.keys_spec();
    let tv = ev.text.vals_spec();
    let cellsec = enc_le(ck.len() as int, 8) + enc_cells(ck, cv);
    let textsec = enc_le(tk.len() as int, 8) + enc_tcells(tk, tv);
    ev.cells.lemma_entry_shape();
    ev.text.lemma_entry_shape();
    lemma_enc_le_len(ck.len() as int, 8);
    lemma_enc_le_len(tk.len() as int, 8);
    lemma_usize_in_block();
    let p5v = pos + enc_var_h1(ev).len();
    let p6v = p5v + enc_var_h2(ev).len();
    let p7v = p6v + cellsec.len();
    assert(enc_var(ev) =~= enc_var_h1(ev) + (enc_var_h2(ev) + (cellsec + textsec)));
    lemma_split_at(b, pos, enc_var_h1(ev), enc_var_h2(ev) + (cellsec + textsec));
    lemma_split_at(b, p5v, enc_var_h2(ev), cellsec + textsec);
    lemma_split_at(b, p6v, cellsec, textsec);
    lemma_split_at(b, p6v, enc_le(ck.len() as int, 8), enc_cells(ck, cv));
    lemma_block_value(b, p6v, ck.len() as int);
    lemma_split_at(b, p7v, enc_le(tk.len() as int, 8), enc_tcells(tk, tv));
    lemma_block_value(b, p7v, tk.len() as int);
}

/// Reads one whole variable record at `pos` into `raw`; the bytes read are
/// exactly the new variable's encoding.  Where they are known to encode an
/// expected variable that fits the file built so far, the read succeeds
/// and builds a variable presenting it.
#[verifier::rlimit(100)]
fn parse_one_var(raw: &mut RawFile, b: &Vec<u8>, pos: usize, evar: Ghost<Variable>) -> (r: Option<
    usize,
>)
    requires
        old(raw).wf(),
    ensures
        final(raw).wf(),
        final(raw).groups@ == old(raw).groups@,
        final(raw).dims@ == old(raw).dims@,
        final(raw).path@ == old(raw).path@,
        final(raw).bits == old(raw).bits,
        match r {
            Some(p2) => {
                &&& final(raw).vars@.len() == old(raw).vars@.len() + 1
                &&& (forall|u: int|
                    0 <= u < old(raw).vars@.len() ==> final(raw).vars@[u] == old(raw).vars@[u])
                &&& pos <= p2 <= b@.len()
                &&& b@.subrange(pos as int, p2 as int) == enc_var(final(raw).vars@.last())
            },
            None => true,
        },
        var_expected(
            b@,
            pos as int,
            evar@,
            old(raw).groups@.len() as int,
            old(raw).dims@.len() as int,
            old(raw).vars@,
        ) ==> (match r {
            Some(p2) => var_like(final(raw).vars@.last(), evar@) && p2 == pos + enc_var(
                evar@,
            ).len(),
            None => false,
        }),
{
    let ghost ev = evar@;
    let ghost cond = var_expected(
        b@,
        pos as int,
        ev,
        raw.groups@.len() as int,
        raw.dims@.len() as int,
        raw.vars@,
    );
    proof {
        if cond {
            lemma_var_layout(b@, pos as int, ev);
        }
    }
    let (v, p5) = match parse_var_h1(raw, b, pos, evar) {
        Some(x) => x,
        None => {
            return None;
        }
    };
    let p6 = match parse_var_config(raw, v, b, p5, evar) {
        Some(x) => x,
        None => {
            proof {
                if cond {
                    assert(config_expected(b@, p5 as int, ev, raw.vars@[v as int].vartype));
                }
            }
            return None;
        }
    };
    proof {
        if cond {
            assert(cells_expected(b@, p6 as int, ev.cells.keys_spec(), ev.cells.vals_spec()));
        }
    }
    let ghost eck = if cond {
        ev.cells.keys_spec()
    } else {
        Seq::empty()
    };
    let ghost ecv = if cond {
        ev.cells.vals_spec()
    } else {
        Seq::empty()
    };
    let p7 = match parse_cells(raw, v, b, p6, Ghost(eck), Ghost(ecv)) {
        Some(x) => x,
        None => {
            return None;
        }
    };
    proof {
        if cond {
            assert(tcells_expected(b@, p7 as int, ev.text.keys_spec(), ev.text.vals_spec()));
        }
    }
    let ghost etk = if cond {
        ev.text.keys_spec()
    } else {
        Seq::empty()
    };
    let ghost etv = if cond {
        ev.text.vals_spec()
    } else {
        Seq::empty()
    };
    let p8 = match parse_texts(raw, v, b, p7, Ghost(etk), Ghost(etv)) {
        Some(x) => x,
        None => {
            return None;
        }
    };
    proof {
        let vr = raw.vars@[v as int];
        assert(raw.vars@.last() == vr);
        assert(b@.subrange(pos as int, p5 as int) =~= enc_var_h1(vr));
        assert(b@.subrange(p5 as int, p6 as int) =~= enc_var_h2(vr));
        assert(b@.subrange(pos as int, p8 as int) =~= ((b@.subrange(pos as int, p5 as int)
            + b@.subrange(p5 as int, p6 as int)) + b@.subrange(p6 as int, p7 as int)) + b@.subrange(
            p7 as int,
            p8 as int,
        ));
        assert(b@.subrange(pos as int, p8 as int) =~= enc_var(vr));
        if cond {
            assert(var_like(vr, ev));
            assert(p8 as int == pos + enc_var(ev).len());
        }
    }
    Some(p8)
}

/// Rebuilds a file from its byte image, validating the format, every
/// reference and every value along the way.  A success returns a
/// well-formed file whose own image is exactly the input, so the decoder
/// accepts nothing an encoder could not have written; and whenever the
/// input is the image of some well-formed file, the read succeeds.  Other
/// bytes are refused with the engine's not-a-container code.
pub fn from_image(b: &Vec<u8>) -> (r: Result<RawFile, NcError>)
    ensures
        match r {
            Ok(f) => f.wf() && image_spec(f) == b@,
            Err(e) => e == NcError::EngineError(CODE_NOT_CONTAINER),
        },
        (exists|f: RawFile| f.wf() && image_spec(f) == b@) ==> r is Ok,
{
    let ghost w = choose|f: RawFile| f.wf() && image_spec(f) == b@;
    match from_image_inner(b, Ghost(w)) {
        Some(f) => Ok(f),
        None => Err(NcError::EngineError(CODE_NOT_CONTAINER)),
    }
}

/// Where each section of a well-formed file's image lies, and everything
/// the section readers ask of the sections.
#[verifier::rlimit(100)]
proof fn lemma_image_layout(b: Seq<u8>, w: RawFile)
    requires
        w.wf(),
        image_spec(w) == b,
    ensures
        ({
            let o3 = 24 + w.path@.len() as int;
            let o4 = o3 + 8;
            let o5 = o4 + enc_groups(w.groups@).len();
            let o6 = o5 + 8;
            let o7 = o6 + enc_dims(w.dims@).len();
            let o8 = o7 + 8;
            &&& w.path@.len() <= usize::MAX
            &&& w.groups@.len() <= usize::MAX
            &&& w.dims@.len() <= usize::MAX
            &&& w.vars@.len() <= usize::MAX
            &&& o8 <= b.len()
            &&& b.subrange(0, 8) == enc_le(IMAGE_MAGIC as int, 8)
            &&& b.subrange(8, 16) == enc_le(w.bits as int, 8)
            &&& b.subrange(16, 24) == enc_le(w.path@.len() as int, 8)
            &&& b.subrange(16, o3) == enc_lp(w.path@)
            &&& b.subrange(o3, o4) == enc_le(w.groups@.len() as int, 8)
            &&& groups_expected(b, o4, w.groups@, w.groups@.len() as int)
            &&& b.subrange(o5, o6) == enc_le(w.dims@.len() as int, 8)
            &&& dims_expected(b, o6, w.dims@, w.dims@.len() as int, w.groups@.len() as int)
            &&& b.subrange(o7, o8) == enc_le(w.vars@.len() as int, 8)
            &&& b.subrange(o8, b.len() as int) == enc_vars(w.vars@)
            &&& o8 + enc_vars(w.vars@).len() == b.len()
        }),
{
    vstd::std_specs::vec::axiom_spec_len(&w.path);
    vstd::std_specs::vec::axiom_spec_len(&w.groups);
    vstd::std_specs::vec::axiom_spec_len(&w.dims);
    vstd::std_specs::vec::axiom_spec_len(&w.vars);
    lemma_usize_in_block();
    lemma_enc_le_len(IMAGE_MAGIC as int, 8);
    lemma_enc_le_len(w.bits as int, 8);
    lemma_enc_le_len(w.path@.len() as int, 8);
    lemma_enc_le_len(w.groups@.len() as int, 8);
    lemma_enc_le_len(w.dims@.len() as int, 8);
    lemma_enc_le_len(w.vars@.len() as int, 8);
    let a1 = enc_le(IMAGE_MAGIC as int, 8);
    let a2 = enc_le(w.bits as int, 8);
    let a3 = enc_lp(w.path@);
    let a4 = enc_le(w.groups@.len() as int, 8);
    let a5 = enc_groups(w.groups@);
    let a6 = enc_le(w.dims@.len() as int, 8);
    let a7 = enc_dims(w.dims@);
    let a8 = enc_le(w.vars@.len() as int, 8);
    let a9 = enc_vars(w.vars@);
    assert(b.subrange(0, b.len() as int) =~= b);
    assert(image_spec(w) =~= a1 + (a2 + (a3 + (a4 + (a5 + (a6 + (a7 + (a8 + a9))))))));
    lemma_split_at(b, 0, a1, a2 + (a3 + (a4 + (a5 + (a6 + (a7 + (a8 + a9))))))); 
    lemma_split_at(b, 8, a2, a3 + (a4 + (a5 + (a6 + (a7 + (a8 + a9))))));
    lemma_split_at(b, 16, a3, a4 + (a5 + (a6 + (a7 + (a8 + a9)))));
    assert(a3 =~= enc_le(w.path@.len() as int, 8) + w.path@);
    lemma_split_at(b, 16, enc_le(w.path@.len() as int, 8), w.path@);
    let o3 = 24 + w.path@.len() as int;
    lemma_split_at(b, o3, a4, a5 + (a6 + (a7 + (a8 + a9))));
    let o4 = o3 + 8;
    lemma_split_at(b, o4, a5, a6 + (a7 + (a8 + a9)));
    let o5 = o4 + a5.len();
    lemma_split_at(b, o5, a6, a7 + (a8 + a9));
    let o6 = o5 + 8;
    lemma_split_at(b, o6, a7, a8 + a9);
    let o7 = o6 + a7.len();
    lemma_split_at(b, o7, a8, a9);
}

/// Nine consecutive sections assemble into one image.
#[verifier::rlimit(100)]
proof fn lemma_assemble_image(
    b: Seq<u8>,
    p1: int,
    p2: int,
    p3: int,
    p4: int,
    p5: int,
    p6: int,
    p7: int,
    p8: int,
    raw: RawFile,
)
    requires
        0 <= p1 <= p2 <= p3 <= p4 <= p5 <= p6 <= p7 <= p8 <= b.len(),
        b.subrange(0, p1) == enc_le(IMAGE_MAGIC as int, 8),
        b.subrange(p1, p2) == enc_le(raw.bits as int, 8),
        b.subrange(p2, p3) == enc_lp(raw.path@),
        b.subrange(p3, p4) == enc_le(raw.groups@.len() as int, 8),
        b.subrange(p4, p5) == enc_groups(raw.groups@),
        b.subrange(p5, p6) == enc_le(raw.dims@.len() as int, 8),
        b.subrange(p6, p7) == enc_dims(raw.dims@),
        b.subrange(p7, p8) == enc_le(raw.vars@.len() as int, 8),
        b.subrange(p8, b.len() as int) == enc_vars(raw.vars@),
    ensures
        image_spec(raw) == b,
{
    assert(b.subrange(0, b.len() as int) =~= b);
    assert(b =~= (((b.subrange(0, p1) + b.subrange(p1, p2)) + b.subrange(p2, p3)) + (b.subrange(
        p3,
        p4,
    ) + b.subrange(p4, p5))) + ((b.subrange(p5, p6) + b.subrange(p6, p7)) + (b.subrange(p7, p8)
        + b.subrange(p8, b.len() as int))));
    assert(b =~= image_spec(raw));
}

/// Stepping the variable walk: the record of variable `i` lies at `p`, it
/// fits the file built so far, and the remaining records follow it.
proof fn lemma_step_var_expected(b: Seq<u8>, p: int, w: RawFile, i: int, cur: Seq<Variable>)
    requires
        w.wf(),
        0 <= i < w.vars@.len(),
        0 <= p,
        vars_like(cur, w.vars@.take(i)),
        p + enc_vars_from(w.vars@, i).len() == b.len(),
        b.subrange(p, b.len() as int) == enc_vars_from(w.vars@, i),
    ensures
        var_expected(b, p, w.vars@[i], w.groups@.len() as int, w.dims@.len() as int, cur),
        b.subrange(p + enc_var(w.vars@[i]).len() as int, b.len() as int) == enc_vars_from(
            w.vars@,
            i + 1,
        ),
        p + enc_var(w.vars@[i]).len() + enc_vars_from(w.vars@, i + 1).len() == b.len(),
{
    assert(enc_vars_from(w.vars@, i) == enc_var(w.vars@[i]) + enc_vars_from(w.vars@, i + 1));
    lemma_split_at(b, p, enc_var(w.vars@[i]), enc_vars_from(w.vars@, i + 1));
    assert(crate::file::var_wf(
        w.groups@.len() as int,
        w.dims@.len() as int,
        w.vars@[i],
    ));
    assert(!crate::file::group_has_var(cur, w.vars@[i].owner as int, w.vars@[i].name@)) by {
        if crate::file::group_has_var(cur, w.vars@[i].owner as int, w.vars@[i].name@) {
            let j = choose|j: int|
                0 <= j < cur.len() && crate::file::var_matches(
                    #[trigger] cur[j],
                    w.vars@[i].owner as int,
                    w.vars@[i].name@,
                );
            assert(var_like(cur[j], w.vars@[j]));
            assert(crate::file::var_clash(w.vars@[j], w.vars@[i]));
        }
    }
}

/// The body of `from_image`, with failure as `None`: it succeeds whenever
/// the witness `w` shows the input to be an intact image.
#[verifier::rlimit(100)]
fn from_image_inner(b: &Vec<u8>, w: Ghost<RawFile>) -> (r: Option<RawFile>)
    ensures
        match r {
            Some(f) => f.wf() && image_spec(f) == b@,
            None => true,
        },
        (w@.wf() && image_spec(w@) == b@) ==> r is Some,
{
    let ghost cond = w@.wf() && image_spec(w@) == b@;
    proof {
        if cond {
            lemma_image_layout(b@, w@);
        }
    }
    let (magic, p1) = match parse_u64(b, 0) {
        Some(x) => x,
        None => {
            return None;
        }
    };
    proof {
        if cond {
            lemma_usize_in_block();
            lemma_block_value(b@, 0, IMAGE_MAGIC as int);
        }
    }
    if magic != IMAGE_MAGIC {
        return None;
    }
    let (bits, p2) = match parse_u64(b, p1) {
        Some(x) => x,
        None => {
            return None;
        }
    };
    proof {
        if cond {
            lemma_block_value(b@, 8, w@.bits as int);
        }
    }
    if bits > u32::MAX as u64 {
        return None;
    }
    let (path, p3) = match parse_lp(b, p2) {
        Some(x) => x,
        None => {
            proof {
                if cond {
                    lemma_block_value(b@, 16, w@.path@.len() as int);
                }
            }
            return None;
        }
    };
    proof {
        if cond {
            lemma_lp_unique(b@, 16, w@.path@, path@, p3 as int);
        }
    }
    let (ng, p4) = match parse_u64(b, p3) {
        Some(x) => x,
        None => {
            return None;
        }
    };
    proof {
        if cond {
            lemma_block_value(b@, p3 as int, w@.groups@.len() as int);
        }
    }
    if ng == 0 || ng > usize::MAX as u64 {
        return None;
    }
    let ghost eg = if cond {
        w@.groups@
    } else {
        Seq::empty()
    };
    let (mut raw, p5) = match parse_groups(b, p4, ng as usize, path, bits as u32, Ghost(eg)) {
        Some(x) => x,
        None => {
            return None;
        }
    };
    let (nd, p6) = match parse_u64(b, p5) {
        Some(x) => x,
        None => {
            return None;
        }
    };
    proof {
        if cond {
            lemma_block_value(b@, p5 as int, w@.dims@.len() as int);
        }
    }
    if nd > usize::MAX as u64 {
        return None;
    }
    let ghost ed = if cond {
        w@.dims@
    } else {
        Seq::empty()
    };
    let p7 = match parse_dims(&mut raw, b, p6, nd as usize, Ghost(ed)) {
        Some(x) => x,
        None => {
            return None;
        }
    };
    let (nv, p8) = match parse_u64(b, p7) {
        Some(x) => x,
        None => {
            return None;
        }
    };
    proof {
        if cond {
            lemma_block_value(b@, p7 as int, w@.vars@.len() as int);
        }
    }
    if nv > usize::MAX as u64 {
        return None;
    }
    let nv = nv as usize;
    let mut p: usize = p8;
    let mut i: usize = 0;
    proof {
        assert(b@.subrange(p8 as int, p8 as int) =~= enc_vars(raw.vars@));
        if cond {
            lemma_enc_vars_from(w@.vars@);
            assert(vars_like(raw.vars@, w@.vars@.take(0)));
        }
    }
    while i < nv
        invariant
            raw.wf(),
            raw.vars@.len() == i,
            i <= nv,
            p8 <= p <= b@.len(),
            b@.subrange(p8 as int, p as int) == enc_vars(raw.vars@),
            raw.bits == bits as u32,
            raw.groups@.len() == ng as usize,
            raw.dims@.len() == nd as usize,
            b@.subrange(p2 as int, p3 as int) == enc_lp(raw.path@),
            b@.subrange(p4 as int, p5 as int) == enc_groups(raw.groups@),
            b@.subrange(p6 as int, p7 as int) == enc_dims(raw.dims@),
            cond == (w@.wf() && image_spec(w@) == b@),
            cond ==> ({
                &&& nv == w@.vars@.len()
                &&& raw.groups@.len() == w@.groups@.len()
                &&& raw.dims@.len() == w@.dims@.len()
                &&& vars_like(raw.vars@, w@.vars@.take(i as int))
                &&& p + enc_vars_from(w@.vars@, i as int).len() == b@.len()
                &&& b@.subrange(p as int, b@.len() as int) == enc_vars_from(w@.vars@, i as int)
            }),
        decreases nv - i,
    {
        proof {
            if cond {
                lemma_step_var_expected(b@, p as int, w@, i as int, raw.vars@);
            }
        }
        let ghost evar = if cond {
            w@.vars@[i as int]
        } else {
            arbitrary()
        };
        let ghost pre_vars = raw.vars@;
        let ghost p_before = p;
        p = match parse_one_var(&mut raw, b, p, Ghost(evar)) {
            Some(x) => x,
            None => {
                return None;
            }
        };
        proof {
            assert(raw.vars@.drop_last() =~= pre_vars);
            assert(b@.subrange(p8 as int, p as int) =~= b@.subrange(p8 as int, p_before as int)
                + b@.subrange(p_before as int, p as int));
            assert(b@.subrange(p8 as int, p as int) =~= enc_vars(raw.vars@));
            if cond {
                assert(vars_like(raw.vars@, w@.vars@.take(i + 1)));
            }
        }
        i = i + 1;
    }
    if p != b.len() {
        proof {
            if cond {
                assert(w@.vars@.take(nv as int) =~= w@.vars@);
                assert(enc_vars_from(w@.vars@, nv as int) =~= Seq::<u8>::empty());
            }
        }
        return None;
    }
    proof {
        assert(enc_le(raw.bits as int, 8) == enc_le(bits as int, 8));
        assert(enc_le(raw.groups@.len() as int, 8) == enc_le(ng as int, 8));
        assert(enc_le(raw.dims@.len() as int, 8) == enc_le(nd as int, 8));
        assert(enc_le(raw.vars@.len() as int, 8) == enc_le(nv as int, 8));
        lemma_assemble_image(
            b@,
            p1 as int,
            p2 as int,
            p3 as int,
            p4 as int,
            p5 as int,
            p6 as int,
            p7 as int,
            p8 as int,
            raw,
        );
    }
    Some(raw)
}

} // verus!
