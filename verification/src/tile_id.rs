//! The Hilbert tile-id mapping: a single total order over all (z, x, y)
//! coordinates with z below 32.
use vstd::arithmetic::power2::{
    lemma2_to64, lemma2_to64_rest, lemma_pow2_adds, lemma_pow2_pos, pow2,
};
use vstd::prelude::*;

verus! {

/// The error returned when a tile id lies beyond the greatest zoom level.
#[derive(Debug, Clone, Copy, PartialEq, Eq, Structural)]
pub struct MaxZError;

/// The greatest zoom level (exclusive) a tile id can encode.
pub const MAX_Z: u8 = 32;

/// What `hilbert_2d::xy2h_discrete` returns for `(x, y)` on the
/// `2^order x 2^order` grid of the canonical Hilbert variant.
pub uninterp spec fn hilbert_d_of(x: u64, y: u64, order: u64) -> u64;

/// What `hilbert_2d::h2xy_discrete` returns for index `h` on the
/// `2^order x 2^order` grid of the canonical Hilbert variant.
pub uninterp spec fn hilbert_xy_of(h: u64, order: u64) -> (u64, u64);

/// Relies on `hilbert_2d::xy2h_discrete` with the canonical Hilbert
/// variant: the index is a pure function of `(x, y, order)` alone, lies
/// below `4^order`, and `h2xy_discrete` maps it back to `(x, y)` (the
/// two lookup tables of the crate are inverse to one another). The
/// crate converts through `usize`, so these clauses assume a 64-bit
/// target; on a 32-bit one the index would truncate for orders above
/// 16.
#[verifier::external_body]
fn xy2h(x: u64, y: u64, order: u64) -> (r: u64)
    requires
        1 <= order < 32,
        x < pow2(order as nat),
        y < pow2(order as nat),
    ensures
        r == hilbert_d_of(x, y, order),
        r < pow2((2 * order) as nat),
        hilbert_xy_of(r, order) == (x, y),
{
    hilbert_2d::xy2h_discrete(x as usize, y as usize, order as usize, hilbert_2d::Variant::Hilbert)
        as u64
}

/// Relies on `hilbert_2d::h2xy_discrete` with the canonical Hilbert
/// variant: the coordinates are pure functions of `(h, order)` alone,
/// lie below `2^order`, and `xy2h_discrete` maps them back to `h`. The
/// crate converts through `usize`, so these clauses assume a 64-bit
/// target; on a 32-bit one the index would truncate for orders above
/// 16.
#[verifier::external_body]
fn h2xy(h: u64, order: u64) -> (r: (u64, u64))
    requires
        1 <= order < 32,
        h < pow2((2 * order) as nat),
    ensures
        r == hilbert_xy_of(h, order),
        r.0 < pow2(order as nat),
        r.1 < pow2(order as nat),
        hilbert_d_of(r.0, r.1, order) == h,
{
    let (x, y) = hilbert_2d::h2xy_discrete(
        h as usize,
        order as usize,
        hilbert_2d::Variant::Hilbert,
    );
    (x as u64, y as u64)
}

/// `4^k`: the number of tiles of zoom level `k`.
pub open spec fn pow4(k: nat) -> nat {
    pow2(2 * k)
}

/// The first tile id of zoom level `z`: 0, then 1, 5, 21, ...
pub open spec fn spec_base_id(z: nat) -> nat
    decreases z,
{
    if z == 0 {
        0
    } else if z == 1 {
        1
    } else {
        spec_base_id((z - 1) as nat) + pow4((z - 1) as nat)
    }
}

/// The tile id of `(z, x, y)`: the ids of all lower zoom levels, then
/// the Hilbert index within level `z`.
pub open spec fn spec_tile_id(z: nat, x: u64, y: u64) -> nat {
    if z == 0 {
        0
    } else {
        (spec_base_id(z) + hilbert_d_of(x, y, z as u64)) as nat
    }
}

/// The zoom level whose id range contains `id`, searching upward from
/// level `i`; `None` when no level below 32 contains it.
pub open spec fn spec_find_z_from(id: nat, i: nat) -> Option<nat>
    decreases 32 - i,
{
    if i >= 32 {
        None
    } else if spec_base_id(i + 1) > id {
        Some(i)
    } else {
        spec_find_z_from(id, i + 1)
    }
}

/// The zoom level whose id range contains `id` (for `id >= 1`).
pub open spec fn spec_find_z(id: nat) -> Option<nat> {
    spec_find_z_from(id, 1)
}

/// The `(z, x, y)` coordinates of a tile id, or `None` where the id
/// would need a zoom level of 32 or more.
pub open spec fn spec_zxy(id: nat) -> Option<(u8, u64, u64)> {
    if id == 0 {
        Some((0u8, 0u64, 0u64))
    } else {
        match spec_find_z(id) {
            None => None,
            Some(z) => {
                let xy = hilbert_xy_of((id - spec_base_id(z)) as u64, z as u64);
                Some((z as u8, xy.0, xy.1))
            },
        }
    }
}

/// `3 * base(z) + 1 == 4^z`: the closed form of the base-id sum.
pub proof fn lemma_base_id_closed_form(z: nat)
    requires
        1 <= z,
    ensures
        3 * spec_base_id(z) + 1 == pow4(z),
    decreases z,
{
    if z == 1 {
        lemma2_to64();
    } else {
        lemma_base_id_closed_form((z - 1) as nat);
        lemma_pow2_adds(2 * (z - 1) as nat, 2);
        lemma2_to64();
    }
}

/// Base ids never shrink as the zoom level grows.
pub proof fn lemma_base_id_le(i: nat, j: nat)
    requires
        i <= j,
    ensures
        spec_base_id(i) <= spec_base_id(j),
    decreases j,
{
    if i < j {
        lemma_base_id_le(i, (j - 1) as nat);
        lemma_pow2_pos(2 * (j - 1) as nat);
    }
}

pub proof fn lemma_base_id_32()
    ensures
        spec_base_id(32) == 0x5555555555555555,
{
    lemma_base_id_closed_form(32);
    lemma2_to64_rest();
    assert(pow4(32) == pow2(64));
}

/// Compute the first tile id of zoom level `z`.
fn base_id(z: u8) -> (r: u64)
    requires
        1 <= z < 32,
    ensures
        r == spec_base_id(z as nat),
{
    let mut acc: u64 = 1;
    let mut p: u64 = 4;
    let mut i: u8 = 1;
    proof {
        lemma2_to64();
    }
    while i < z
        invariant
            1 <= i <= z < 32,
            acc == spec_base_id(i as nat),
            p == pow4(i as nat),
        decreases z - i,
    {
        proof {
            lemma_base_id_le((i + 1) as nat, 32);
            lemma_base_id_32();
            lemma_pow2_adds(2 * i as nat, 2);
            lemma2_to64();
            assert(spec_base_id((i + 1) as nat) == acc + p);
            assert(pow4((i + 1) as nat) == 4 * pow4(i as nat));
            assert(pow4((i + 1) as nat) <= 3 * spec_base_id((i + 2) as nat) + 1) by {
                lemma_base_id_closed_form((i + 2) as nat);
                lemma_base_id_le((i + 1) as nat, (i + 2) as nat);
                lemma_pow2_pos(2 * (i + 1) as nat);
            }
            assert(spec_base_id((i + 2) as nat) <= 0x5555555555555555) by {
                lemma_base_id_le((i + 2) as nat, 32);
                lemma_base_id_32();
            }
        }
        acc = acc + p;
        p = p * 4;
        i = i + 1;
    }
    acc
}

/// Converts z/x/y coordinates to a tile id.
///
/// On top of saying exactly which id the coordinates map to, the
/// contract carries the round trip: `zxy` recovers `(z, x, y)` from the
/// returned id.
pub fn tile_id(z: u8, x: u64, y: u64) -> (r: u64)
    requires
        z < 32,
        x < pow2(z as nat),
        y < pow2(z as nat),
    ensures
        r == spec_tile_id(z as nat, x, y),
        spec_zxy(r as nat) == Some((z, x, y)),
{
    if z == 0 {
        proof {
            lemma2_to64();
        }
        return 0;
    }
    let base = base_id(z);
    let h = xy2h(x, y, z as u64);
    proof {
        lemma_base_id_closed_form(z as nat);
        lemma_base_id_closed_form((z + 1) as nat);
        lemma_pow2_adds(2 * z as nat, 2);
        lemma_pow2_pos(2 * z as nat);
        assert(spec_base_id((z + 1) as nat) == spec_base_id(z as nat) + pow4(z as nat));
        lemma_base_id_le((z + 1) as nat, 32);
        lemma_base_id_32();
        lemma_find_z_locates((base + h) as nat, z as nat);
    }
    base + h
}

/// The upward search finds exactly the level whose range contains `id`.
proof fn lemma_find_z_locates(id: nat, z: nat)
    requires
        1 <= z < 32,
        spec_base_id(z) <= id,
        id < spec_base_id(z + 1),
    ensures
        spec_find_z(id) == Some(z),
{
    lemma_find_z_from_locates(id, z, 1);
}

proof fn lemma_find_z_from_locates(id: nat, z: nat, i: nat)
    requires
        1 <= i <= z < 32,
        spec_base_id(z) <= id,
        id < spec_base_id(z + 1),
    ensures
        spec_find_z_from(id, i) == Some(z),
    decreases 32 - i,
{
    if i < z {
        assert(spec_base_id(i + 1) <= spec_base_id(z)) by {
            lemma_base_id_le(i + 1, z);
        }
        lemma_find_z_from_locates(id, z, i + 1);
    }
}

/// Find the zoom level whose id range contains `id`.
fn find_z(id: u64) -> (r: Result<u8, MaxZError>)
    requires
        id >= 1,
    ensures
        match spec_find_z(id as nat) {
            Some(z) => r == Ok::<u8, MaxZError>(z as u8) && 1 <= z < 32,
            None => r == Err::<u8, MaxZError>(MaxZError),
        },
{
    let mut acc: u64 = 1;
    let mut p: u64 = 4;
    let mut i: u8 = 1;
    proof {
        lemma2_to64();
    }
    while i < 32
        invariant
            1 <= i <= 32,
            acc == spec_base_id(i as nat),
            i < 32 ==> p == pow4(i as nat),
            spec_find_z(id as nat) == spec_find_z_from(id as nat, i as nat),
            spec_base_id(i as nat) <= id,
        decreases 32 - i,
    {
        proof {
            lemma_base_id_le((i + 1) as nat, 32);
            lemma_base_id_32();
            lemma_pow2_adds(2 * i as nat, 2);
            lemma2_to64();
            assert(spec_base_id((i + 1) as nat) == acc + p);
            if i < 31 {
                assert(pow4((i + 1) as nat) <= 3 * spec_base_id((i + 2) as nat) + 1) by {
                    lemma_base_id_closed_form((i + 2) as nat);
                    lemma_base_id_le((i + 1) as nat, (i + 2) as nat);
                    lemma_pow2_pos(2 * (i + 1) as nat);
                }
                assert(spec_base_id((i + 2) as nat) <= 0x5555555555555555) by {
                    lemma_base_id_le((i + 2) as nat, 32);
                    lemma_base_id_32();
                }
            }
        }
        acc = acc + p;
        if acc > id {
            return Ok(i);
        }
        if i < 31 {
            p = p * 4;
        }
        i = i + 1;
    }
    Err(MaxZError)
}

/// Converts a tile id to z/x/y coordinates.
///
/// Fails with `MaxZError` exactly when the id would need a zoom level of
/// 32 or more; the returned coordinates map back to `id` under
/// `tile_id`.
pub fn zxy(id: u64) -> (r: Result<(u8, u64, u64), MaxZError>)
    ensures
        match spec_zxy(id as nat) {
            Some(t) => r == Ok::<(u8, u64, u64), MaxZError>(t),
            None => r == Err::<(u8, u64, u64), MaxZError>(MaxZError),
        },
        r is Ok ==> {
            let (z, x, y) = r->Ok_0;
            &&& z < 32
            &&& x < pow2(z as nat)
            &&& y < pow2(z as nat)
            &&& spec_tile_id(z as nat, x, y) == id
        },
{
    if id == 0 {
        proof {
            lemma2_to64();
        }
        return Ok((0, 0, 0));
    }
    let z = match find_z(id) {
        Ok(z) => z,
        Err(e) => {
            return Err(e);
        },
    };
    let base = base_id(z);
    proof {
        lemma_find_z_bounds(id as nat, 1);
        lemma_base_id_closed_form(z as nat);
        lemma_base_id_closed_form((z + 1) as nat);
        lemma_pow2_adds(2 * z as nat, 2);
        assert(spec_base_id((z + 1) as nat) == spec_base_id(z as nat) + pow4(z as nat));
    }
    let h = id - base;
    let (x, y) = h2xy(h, z as u64);
    Ok((z, x, y))
}

/// A successful upward search brackets `id` between the base ids of the
/// found level and the next.
proof fn lemma_find_z_bounds(id: nat, i: nat)
    requires
        1 <= i <= 32,
        spec_base_id(i) <= id,
        spec_find_z_from(id, i) is Some,
    ensures
        ({
            let z = spec_find_z_from(id, i)->Some_0;
            &&& i <= z < 32
            &&& spec_base_id(z) <= id
            &&& id < spec_base_id(z + 1)
        }),
    decreases 32 - i,
{
    if i < 32 && spec_base_id(i + 1) <= id {
        lemma_find_z_bounds(id, i + 1);
    }
}

} // verus!
