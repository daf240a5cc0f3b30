//! LEB128-style unsigned varints: the primitive encoding of every
//! directory column.
use vstd::prelude::*;

use crate::error::PmtError;

verus! {

/// Bytes of the unsigned LEB128 encoding of `v`: 7 value bits per byte,
/// least significant group first, high bit set on every byte but the last.
pub open spec fn spec_varint(v: nat) -> Seq<u8>
    decreases v,
{
    if v < 128 {
        seq![v as u8]
    } else {
        seq![(v % 128 + 128) as u8] + spec_varint(v / 128)
    }
}

/// Parse one varint of `s` starting at `i`; `None` on truncated input.
/// The parsed value is unbounded: callers bound it to their integer width.
pub open spec fn spec_parse_varint(s: Seq<u8>, i: int) -> Option<(nat, int)>
    decreases s.len() - i,
{
    if i < 0 || i >= s.len() {
        None
    } else if s[i] < 128 {
        Some((s[i] as nat, i + 1))
    } else {
        match spec_parse_varint(s, i + 1) {
            None => None,
            Some((v, j)) => Some(((s[i] - 128) as nat + 128 * v, j)),
        }
    }
}

pub proof fn lemma_parse_varint_range(s: Seq<u8>, i: int)
    requires
        spec_parse_varint(s, i) is Some,
    ensures
        i < spec_parse_varint(s, i)->Some_0.1 <= s.len(),
        0 <= i,
    decreases s.len() - i,
{
    if !(i < 0 || i >= s.len()) && s[i] >= 128 {
        lemma_parse_varint_range(s, i + 1);
    }
}

/// Parsing an encoded value embedded in a larger sequence recovers it.
pub proof fn lemma_parse_varint_of_encoded(s: Seq<u8>, i: int, v: nat)
    requires
        0 <= i,
        i + spec_varint(v).len() <= s.len(),
        s.subrange(i, i + spec_varint(v).len() as int) == spec_varint(v),
    ensures
        spec_parse_varint(s, i) == Some((v, i + spec_varint(v).len())),
    decreases v,
{
    let enc = spec_varint(v);
    if v < 128 {
        assert(s[i] == enc[0]);
    } else {
        let tail = spec_varint(v / 128);
        assert(s[i] == enc[0]);
        assert(s[i] == v % 128 + 128);
        assert(s.subrange(i + 1, i + 1 + tail.len() as int) =~= tail) by {
            assert forall|k: int| 0 <= k < tail.len() implies s.subrange(
                i + 1,
                i + 1 + tail.len() as int,
            )[k] == tail[k] by {
                assert(s[i + 1 + k] == enc[1 + k]);
            }
        }
        lemma_parse_varint_of_encoded(s, i + 1, v / 128);
        assert((s[i] - 128) as nat + 128 * (v / 128) == v) by {
            assert(v % 128 + 128 * (v / 128) == v) by (nonlinear_arith);
        }
    }
}

/// Append the varint encoding of `v` to `out`.
pub fn write_varint(out: &mut Vec<u8>, v: u64)
    ensures
        final(out)@ == old(out)@ + spec_varint(v as nat),
    decreases v,
{
    if v < 128 {
        out.push(v as u8);
        assert(out@ =~= old(out)@ + spec_varint(v as nat));
    } else {
        out.push((v % 128 + 128) as u8);
        write_varint(out, v / 128);
        assert(out@ =~= old(out)@ + spec_varint(v as nat));
    }
}

/// The concatenated varint encodings of a column of values.
pub open spec fn spec_varints_cat(vals: Seq<nat>) -> Seq<u8>
    decreases vals.len(),
{
    if vals.len() == 0 {
        Seq::empty()
    } else {
        spec_varint(vals[0]) + spec_varints_cat(vals.drop_first())
    }
}

/// Parse `n` consecutive varints of `s` starting at `i`.
pub open spec fn spec_parse_varints(s: Seq<u8>, i: int, n: nat) -> Option<(Seq<nat>, int)>
    decreases n,
{
    if n == 0 {
        Some((Seq::empty(), i))
    } else {
        match spec_parse_varint(s, i) {
            None => None,
            Some((v, j)) => match spec_parse_varints(s, j, (n - 1) as nat) {
                None => None,
                Some((vs, k)) => Some((seq![v] + vs, k)),
            },
        }
    }
}

pub proof fn lemma_parse_varints_range(s: Seq<u8>, i: int, n: nat)
    requires
        spec_parse_varints(s, i, n) is Some,
    ensures
        ({
            let (vs, j) = spec_parse_varints(s, i, n)->Some_0;
            i <= j <= s.len() && vs.len() == n
        }) || n == 0 && spec_parse_varints(s, i, n) == Some((Seq::<nat>::empty(), i)),
    decreases n,
{
    if n > 0 {
        lemma_parse_varint_range(s, i);
        let (v, j) = spec_parse_varint(s, i)->Some_0;
        lemma_parse_varints_range(s, j, (n - 1) as nat);
    }
}

pub proof fn lemma_varints_cat_push(vals: Seq<nat>, v: nat)
    ensures
        spec_varints_cat(vals.push(v)) == spec_varints_cat(vals) + spec_varint(v),
    decreases vals.len(),
{
    if vals.len() == 0 {
        assert(vals.push(v) =~= seq![v]);
        assert(seq![v].drop_first() =~= Seq::<nat>::empty());
        assert(spec_varints_cat(Seq::<nat>::empty()) == Seq::<u8>::empty());
        assert(spec_varints_cat(seq![v]) == spec_varint(v) + Seq::<u8>::empty());
        assert(spec_varint(v) + Seq::<u8>::empty() =~= spec_varint(v));
        assert(Seq::<u8>::empty() + spec_varint(v) =~= spec_varint(v));
    } else {
        assert(vals.push(v).drop_first() =~= vals.drop_first().push(v));
        lemma_varints_cat_push(vals.drop_first(), v);
        assert(vals.push(v)[0] == vals[0]);
        assert(spec_varints_cat(vals.push(v)) == spec_varint(vals[0]) + (spec_varints_cat(
            vals.drop_first(),
        ) + spec_varint(v)));
        assert(spec_varints_cat(vals) == spec_varint(vals[0]) + spec_varints_cat(
            vals.drop_first(),
        ));
        assert(spec_varint(vals[0]) + (spec_varints_cat(vals.drop_first()) + spec_varint(v))
            =~= (spec_varint(vals[0]) + spec_varints_cat(vals.drop_first())) + spec_varint(v));
    }
}

/// Parsing an encoded column embedded in a larger sequence recovers it.
pub proof fn lemma_parse_varints_of_encoded(s: Seq<u8>, i: int, vals: Seq<nat>)
    requires
        0 <= i,
        i + spec_varints_cat(vals).len() <= s.len(),
        s.subrange(i, i + spec_varints_cat(vals).len() as int) == spec_varints_cat(vals),
    ensures
        spec_parse_varints(s, i, vals.len()) == Some((vals, i + spec_varints_cat(vals).len())),
    decreases vals.len(),
{
    if vals.len() == 0 {
        assert(spec_parse_varints(s, i, 0) == Some((Seq::<nat>::empty(), i)));
        assert(vals =~= Seq::<nat>::empty());
    } else {
        let head = spec_varint(vals[0]);
        let cat = spec_varints_cat(vals);
        let tailcat = spec_varints_cat(vals.drop_first());
        assert(cat == head + tailcat);
        assert(s.subrange(i, i + head.len() as int) =~= head) by {
            assert forall|k: int| 0 <= k < head.len() implies s[i + k] == head[k] by {
                assert(cat[k] == head[k]);
            }
        }
        lemma_parse_varint_of_encoded(s, i, vals[0]);
        let j = i + head.len();
        assert(s.subrange(j, j + tailcat.len() as int) =~= tailcat) by {
            assert forall|k: int| 0 <= k < tailcat.len() implies s[j + k] == tailcat[k] by {
                assert(cat[head.len() + k] == tailcat[k]);
            }
        }
        lemma_parse_varints_of_encoded(s, j, vals.drop_first());
        assert(seq![vals[0]] + vals.drop_first() =~= vals);
    }
}

/// Read one varint from `s` at `pos`; rejects truncated input and
/// values that do not fit in a `u64`.
pub fn read_varint(s: &Vec<u8>, pos: usize) -> (r: Result<(u64, usize), PmtError>)
    ensures
        match spec_parse_varint(s@, pos as int) {
            None => r == Err::<(u64, usize), PmtError>(PmtError::Malformed),
            Some((v, j)) => if v <= u64::MAX {
                r == Ok::<(u64, usize), PmtError>((v as u64, j as usize))
            } else {
                r == Err::<(u64, usize), PmtError>(PmtError::Malformed)
            },
        },
        r is Ok ==> spec_parse_varint(s@, pos as int) == Some(
            (r->Ok_0.0 as nat, r->Ok_0.1 as int),
        ),
    decreases s@.len() - pos,
{
    if pos >= s.len() {
        return Err(PmtError::Malformed);
    }
    let b = s[pos];
    if b < 128 {
        Ok((b as u64, pos + 1))
    } else {
        proof {
            if spec_parse_varint(s@, pos as int) is Some {
                lemma_parse_varint_range(s@, pos as int);
            }
        }
        match read_varint(s, pos + 1) {
            Err(e) => Err(e),
            Ok((v, j)) => {
                if v <= (u64::MAX - 127) / 128 {
                    assert((b - 128) as nat + 128 * (v as nat) <= u64::MAX);
                    Ok(((b - 128) as u64 + 128 * v, j))
                } else {
                    proof {
                        if spec_parse_varint(s@, pos as int) is Some {
                            let (vv, _) = spec_parse_varint(s@, pos as int)->Some_0;
                            assert(vv > u64::MAX) by {
                                let (vi, _) = spec_parse_varint(s@, pos as int + 1)->Some_0;
                                assert(vi >= (u64::MAX - 127) / 128 + 1);
                                assert(128 * vi >= 128 * (((u64::MAX - 127) / 128 + 1) as nat))
                                    by (nonlinear_arith)
                                    requires vi >= (u64::MAX - 127) / 128 + 1
                                ;
                            }
                        }
                    }
                    Err(PmtError::Malformed)
                }
            },
        }
    }
}

/// Every value of the column fits in a `u64`.
pub open spec fn all_fit_u64(vs: Seq<nat>) -> bool {
    forall|k: int| 0 <= k < vs.len() ==> vs[k] <= u64::MAX
}

/// The column of machine words seen as unbounded naturals.
pub open spec fn as_nats(vs: Seq<u64>) -> Seq<nat> {
    vs.map_values(|x: u64| x as nat)
}

/// Read `n` consecutive varints from `s` at `pos`.
pub fn read_varint_column(s: &Vec<u8>, pos: usize, n: usize) -> (r: Result<
    (Vec<u64>, usize),
    PmtError,
>)
    ensures
        match spec_parse_varints(s@, pos as int, n as nat) {
            None => r == Err::<(Vec<u64>, usize), PmtError>(PmtError::Malformed),
            Some((vs, end)) => if all_fit_u64(vs) {
                r is Ok && as_nats(r->Ok_0.0@) == vs && r->Ok_0.1 == end
            } else {
                r == Err::<(Vec<u64>, usize), PmtError>(PmtError::Malformed)
            },
        },
{
    let mut out: Vec<u64> = Vec::new();
    let mut cur: usize = pos;
    let mut k: usize = 0;
    while k < n
        invariant
            k <= n,
            out@.len() == k,
            pos <= cur <= s@.len() || k == 0 && cur == pos,
            match spec_parse_varints(s@, cur as int, (n - k) as nat) {
                None => spec_parse_varints(s@, pos as int, n as nat) is None,
                Some((vs, end)) => spec_parse_varints(s@, pos as int, n as nat) == Some(
                    (as_nats(out@) + vs, end),
                ),
            },
        decreases n - k,
    {
        match read_varint(s, cur) {
            Err(_) => {
                proof {
                    match spec_parse_varint(s@, cur as int) {
                        None => {
                            assert(spec_parse_varints(s@, cur as int, (n - k) as nat) is None);
                        },
                        Some((vv, jj)) => {
                            // the one value was parsed but overflows u64, so the
                            // whole column fails the fit check
                            match spec_parse_varints(s@, jj, (n - k - 1) as nat) {
                                None => {
                                    assert(spec_parse_varints(
                                        s@,
                                        cur as int,
                                        (n - k) as nat,
                                    ) is None);
                                },
                                Some((vs2, end2)) => {
                                    assert(spec_parse_varints(s@, cur as int, (n - k) as nat)
                                        == Some((seq![vv] + vs2, end2)));
                                    let whole = as_nats(out@) + (seq![vv] + vs2);
                                    assert(whole[k as int] == vv);
                                    assert(!all_fit_u64(whole));
                                },
                            }
                        },
                    }
                }
                return Err(PmtError::Malformed);
            },
            Ok((v, j)) => {
                proof {
                    lemma_parse_varint_range(s@, cur as int);
                    assert(spec_parse_varint(s@, cur as int) == Some((v as nat, j as int)));
                    if spec_parse_varints(s@, j as int, (n - k - 1) as nat) is Some {
                        let ghost (vs2, end2) = spec_parse_varints(
                            s@,
                            j as int,
                            (n - k - 1) as nat,
                        )->Some_0;
                        assert(spec_parse_varints(s@, cur as int, (n - k) as nat) == Some(
                            (seq![v as nat] + vs2, end2),
                        ));
                        assert(as_nats(out@.push(v)) + vs2 =~= as_nats(out@) + (seq![v as nat]
                            + vs2));
                    } else {
                        assert(spec_parse_varints(s@, cur as int, (n - k) as nat) is None);
                    }
                }
                out.push(v);
                cur = j;
                k = k + 1;
            },
        }
    }
    proof {
        assert(spec_parse_varints(s@, cur as int, 0) == Some((Seq::<nat>::empty(), cur as int)));
        assert(as_nats(out@) + Seq::<nat>::empty() =~= as_nats(out@));
    }
    Ok((out, cur))
}

} // verus!
