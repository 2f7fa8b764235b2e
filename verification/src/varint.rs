//! Unsigned variable-length quantities (LEB128).
//!
//! An unsigned integer is written as groups of 7 bits, least-significant
//! group first; every byte but the last has its high bit set. The reader
//! accepts exactly the encodings whose value fits in 64 bits: at most ten
//! bytes, and a ten-byte encoding must end in a byte below 2.

use vstd::prelude::*;

use crate::error::ProtocolError;

verus! {

/// The LEB128 byte sequence that encodes `v`.
pub open spec fn spec_varint(v: nat) -> Seq<u8>
    decreases v,
{
    if v < 128 {
        seq![v as u8]
    } else {
        seq![(v % 128 + 128) as u8] + spec_varint(v / 128)
    }
}

/// Index of the first byte of `b` without the continuation bit, or
/// `b.len()` when every byte carries it (the quantity is unterminated).
pub open spec fn varint_end(b: Seq<u8>) -> int
    decreases b.len(),
{
    if b.len() == 0 {
        0
    } else if b[0] < 128 {
        0
    } else {
        1 + varint_end(b.drop_first())
    }
}

/// Whether `b` starts with a variable-length quantity that a 64-bit
/// reader accepts: terminated within `b`, at most ten bytes, and when it
/// is exactly ten bytes the last byte is below 2 (so the value fits in
/// 64 bits and no group beyond the tenth is spent).
pub open spec fn varint_ok(b: Seq<u8>) -> bool {
    let e = varint_end(b);
    e < b.len() && e <= 9 && (e == 9 ==> b[9] < 2)
}

/// The value of the terminated variable-length quantity at the front of
/// `b`; meaningful when `varint_ok(b)` holds.
pub open spec fn varint_value(b: Seq<u8>) -> nat
    recommends
        varint_end(b) < b.len(),
    decreases b.len(),
{
    if b.len() == 0 {
        0
    } else if b[0] < 128 {
        b[0] as nat
    } else {
        (b[0] - 128) as nat + 128 * varint_value(b.drop_first())
    }
}

/// `varint_end` is the unique position of the first byte below 128.
pub proof fn lemma_varint_end_characterization(b: Seq<u8>, i: int)
    requires
        0 <= i <= b.len(),
        forall|k: int| 0 <= k < i ==> b[k] >= 128,
        i < b.len() ==> b[i] < 128,
    ensures
        varint_end(b) == i,
    decreases b.len(),
{
    if b.len() == 0 {
    } else if b[0] < 128 {
        assert(i == 0);
    } else {
        let rest = b.drop_first();
        assert(forall|k: int| 0 <= k < i - 1 ==> rest[k] == b[k + 1] && b[k + 1] >= 128);
        lemma_varint_end_characterization(rest, i - 1);
    }
}

/// Bounds on `varint_end`.
pub proof fn lemma_varint_end_bounds(b: Seq<u8>)
    ensures
        0 <= varint_end(b) <= b.len(),
        forall|k: int| 0 <= k < varint_end(b) ==> b[k] >= 128,
        varint_end(b) < b.len() ==> b[varint_end(b)] < 128,
    decreases b.len(),
{
    if b.len() == 0 {
    } else if b[0] < 128 {
    } else {
        let rest = b.drop_first();
        lemma_varint_end_bounds(rest);
        assert(forall|k: int| 1 <= k < varint_end(b) ==> b[k] == rest[k - 1] && rest[k - 1] >= 128);
    }
}

/// Appends the encoding of `value` to `out`.
pub fn write_unsigned_varint(value: u64, out: &mut Vec<u8>)
    ensures
        final(out)@ == old(out)@ + spec_varint(value as nat),
{
    let mut x: u64 = value;
    loop
        invariant_except_break
            out@ + spec_varint(x as nat) == old(out)@ + spec_varint(value as nat),
        ensures
            out@ == old(out)@ + spec_varint(value as nat),
        decreases x,
    {
        if x < 128 {
            let ghost pre = out@;
            out.push(x as u8);
            proof {
                assert(out@ =~= pre + spec_varint(x as nat));
                assert(out@ == old(out)@ + spec_varint(value as nat));
            }
            break;
        } else {
            let ghost pre = out@;
            let ghost xv = x as nat;
            out.push((x % 128 + 128) as u8);
            x = x / 128;
            proof {
                assert(spec_varint(xv) == seq![(xv % 128 + 128) as u8] + spec_varint(xv / 128));
                assert(out@ == pre + seq![(xv % 128 + 128) as u8]);
                assert(out@ + spec_varint(x as nat) == pre + spec_varint(xv)) by {
                    assert(out@ + spec_varint(x as nat) =~= pre + (seq![(xv % 128 + 128) as u8]
                        + spec_varint(xv / 128)));
                }
            }
        }
    }
}

/// Reads one variable-length quantity from `data` starting at `start`.
/// Returns the value and the position of the first byte after it, or
/// `MalformedVarint` when the quantity is unterminated or does not fit
/// in 64 bits.
pub fn read_unsigned_varint(data: &[u8], start: usize) -> (r: Result<(u64, usize), ProtocolError>)
    requires
        start <= data@.len(),
    ensures
        r is Ok <==> varint_ok(data@.skip(start as int)),
        r is Ok ==> ({
            let suffix = data@.skip(start as int);
            r.unwrap().0 as nat == varint_value(suffix)
                && r.unwrap().1 == start + varint_end(suffix) + 1
        }),
        r is Err ==> r == Err::<(u64, usize), ProtocolError>(ProtocolError::MalformedVarint),
{
    let ghost suffix = data@.skip(start as int);
    let mut i: usize = start;
    let mut val: u64 = 0;
    let mut mult: u64 = 1;
    proof {
        assert(suffix.skip(0) =~= suffix);
    }
    loop
        invariant
            start <= i <= data@.len(),
            i - start <= 9,
            suffix == data@.skip(start as int),
            forall|k: int| 0 <= k < i - start ==> suffix[k] >= 128,
            mult as nat == pow128((i - start) as nat),
            val < mult,
            varint_end(suffix) >= i - start ==> varint_value(suffix) == val + mult * varint_value(
                suffix.skip(i - start),
            ),
        decreases data@.len() - i,
    {
        if i >= data.len() {
            proof {
                lemma_varint_end_characterization(suffix, i - start);
                assert(!varint_ok(suffix));
            }
            return Err(ProtocolError::MalformedVarint);
        }
        let b = data[i];
        proof {
            assert(suffix[i - start] == data@[i as int]);
        }
        if b < 128 {
            proof {
                lemma_varint_end_characterization(suffix, i - start);
            }
            if i - start == 9 && b > 1 {
                return Err(ProtocolError::MalformedVarint);
            }
            proof {
                lemma_pow128_bounds((i - start) as nat);
                if i - start == 9 {
                    assert(mult as nat == pow128(9));
                    assert(val + (b as nat) * (mult as nat) < 0x10000000000000000) by (nonlinear_arith)
                        requires
                            val < mult,
                            b <= 1,
                            mult as nat == 0x8000000000000000,
                    ;
                } else {
                    assert(val + (b as nat) * (mult as nat) < 0x10000000000000000) by (nonlinear_arith)
                        requires
                            val < mult,
                            b < 128,
                            mult as nat <= 0x100000000000000,
                    ;
                }
                assert(suffix.skip(i - start)[0] == suffix[i - start]);
                assert(varint_value(suffix.skip(i - start)) == b as nat);
                assert(varint_value(suffix) == val + mult * (b as nat));
            }
            let result = val + b as u64 * mult;
            proof {
                assert(result as nat == val as nat + (b as nat) * (mult as nat));
                assert((b as nat) * (mult as nat) == (mult as nat) * (b as nat)) by (nonlinear_arith);
                assert(result as nat == varint_value(suffix));
            }
            return Ok((result, i + 1));
        } else {
            if i - start == 9 {
                proof {
                    lemma_varint_end_bounds(suffix);
                    if varint_end(suffix) < suffix.len() {
                        assert(suffix[varint_end(suffix)] < 128);
                        assert(varint_end(suffix) > 9) by {
                            if varint_end(suffix) <= 9 {
                                assert(varint_end(suffix) == 9);
                                assert(suffix[9] == b);
                            }
                        }
                    }
                    assert(!varint_ok(suffix));
                }
                return Err(ProtocolError::MalformedVarint);
            }
            proof {
                lemma_pow128_bounds((i - start) as nat);
                let cnt = (i - start) as int;
                let low = (b - 128) as nat;
                assert(suffix.skip(cnt)[0] == suffix[cnt]);
                if varint_end(suffix) >= cnt + 1 {
                    assert(varint_end(suffix) >= cnt);
                    assert(suffix.skip(cnt).drop_first() =~= suffix.skip(cnt + 1));
                    assert(varint_value(suffix.skip(cnt)) == low + 128 * varint_value(
                        suffix.skip(cnt + 1),
                    ));
                    let rest = varint_value(suffix.skip(cnt + 1));
                    assert(val + mult * (low + 128 * rest) == (val + low * mult) + (128 * mult)
                        * rest) by (nonlinear_arith);
                }
                assert(val + low * mult < 128 * mult) by (nonlinear_arith)
                    requires
                        val < mult,
                        low < 128,
                        mult >= 1,
                ;
                assert(mult as nat * 128 == pow128((i + 1 - start) as nat));
            }
            val = val + (b - 128) as u64 * mult;
            mult = mult * 128;
            i = i + 1;
        }
    }
}

/// Shape of an encoding: at least one byte, every byte but the last
/// carries the continuation bit, and the last does not.
pub proof fn lemma_spec_varint_shape(v: nat)
    ensures
        spec_varint(v).len() >= 1,
        forall|k: int| 0 <= k < spec_varint(v).len() - 1 ==> spec_varint(v)[k] >= 128,
        spec_varint(v).last() < 128,
    decreases v,
{
    if v < 128 {
    } else {
        lemma_spec_varint_shape(v / 128);
        let e = spec_varint(v);
        let rest = spec_varint(v / 128);
        assert(e == seq![(v % 128 + 128) as u8] + rest);
        assert(forall|k: int| 1 <= k < e.len() ==> e[k] == rest[k - 1]);
        assert(e.last() == rest.last());
    }
}

/// The encoding of a value below `pow128(n)` takes at most `n` bytes.
pub proof fn lemma_spec_varint_len(v: nat, n: nat)
    requires
        n >= 1,
        v < pow128(n),
    ensures
        spec_varint(v).len() <= n,
    decreases n,
{
    if v < 128 {
    } else {
        assert(pow128(0) == 1);
        assert(pow128(1) == 128);
        assert(n >= 2) by {
            if n == 1 {
                assert(v < 128);
            }
        }
        assert(pow128(n) == 128 * pow128((n - 1) as nat));
        assert(v / 128 < pow128((n - 1) as nat));
        lemma_spec_varint_len(v / 128, (n - 1) as nat);
    }
}

/// When a value below `2 * pow128(n - 1)` takes exactly `n` bytes, the
/// last byte is below 2.
pub proof fn lemma_spec_varint_last(v: nat, n: nat)
    requires
        n >= 1,
        spec_varint(v).len() == n,
        v < 2 * pow128((n - 1) as nat),
    ensures
        spec_varint(v).last() < 2,
    decreases n,
{
    if v < 128 {
        assert(n == 1);
        assert(pow128(0) == 1);
    } else {
        let rest = spec_varint(v / 128);
        assert(spec_varint(v).len() == 1 + rest.len());
        assert(n >= 2) by {
            if n == 1 {
                assert(rest.len() >= 1) by {
                    lemma_spec_varint_shape(v / 128);
                }
            }
        }
        assert(2 * pow128((n - 1) as nat) == 128 * (2 * pow128((n - 2) as nat)));
        assert(v / 128 < 2 * pow128((n - 2) as nat));
        lemma_spec_varint_last(v / 128, (n - 1) as nat);
        assert(spec_varint(v).last() == rest.last());
    }
}

/// The value encoded by `spec_varint(v)` reads back as `v`, whatever
/// follows it in the buffer.
pub proof fn lemma_varint_value_encode(v: nat, rest: Seq<u8>)
    ensures
        varint_value(spec_varint(v) + rest) == v,
    decreases v,
{
    let b = spec_varint(v) + rest;
    if v < 128 {
        assert(b[0] == v as u8);
    } else {
        assert(b[0] == (v % 128 + 128) as u8);
        assert(b.drop_first() =~= spec_varint(v / 128) + rest);
        lemma_varint_value_encode(v / 128, rest);
        assert(varint_value(b) == (v % 128) + 128 * (v / 128));
    }
}

/// A buffer that starts with the encoding of a 64-bit value is accepted
/// by the reader, which consumes exactly the encoding and returns the
/// value.
pub proof fn lemma_varint_round_trip(v: u64, rest: Seq<u8>)
    ensures
        varint_ok(spec_varint(v as nat) + rest),
        varint_end(spec_varint(v as nat) + rest) == spec_varint(v as nat).len() - 1,
        varint_value(spec_varint(v as nat) + rest) == v,
{
    let e = spec_varint(v as nat);
    let b = e + rest;
    lemma_spec_varint_shape(v as nat);
    lemma_pow128_bounds(9);
    assert((v as nat) < pow128(10)) by {
        assert(pow128(10) == 128 * pow128(9));
    }
    lemma_spec_varint_len(v as nat, 10);
    assert(forall|k: int| 0 <= k < e.len() ==> b[k] == e[k]);
    lemma_varint_end_characterization(b, e.len() - 1);
    if e.len() == 10 {
        assert((v as nat) < 2 * pow128(9));
        lemma_spec_varint_last(v as nat, 10);
        assert(b[9] == e.last());
    }
    lemma_varint_value_encode(v as nat, rest);
}

/// 128 raised to `n`.
pub open spec fn pow128(n: nat) -> nat
    decreases n,
{
    if n == 0 {
        1
    } else {
        128 * pow128((n - 1) as nat)
    }
}

/// Concrete bounds of `pow128` for the ten positions a 64-bit quantity
/// can occupy.
pub proof fn lemma_pow128_bounds(n: nat)
    requires
        n <= 9,
    ensures
        pow128(n) <= 0x8000000000000000,
        n <= 8 ==> pow128(n) <= 0x100000000000000,
        n == 9 ==> pow128(n) == 0x8000000000000000,
        pow128(n) >= 1,
        pow128(n + 1) == 128 * pow128(n),
{
    assert(pow128(0) == 1);
    assert(pow128(1) == 128);
    assert(pow128(2) == 0x4000);
    assert(pow128(3) == 0x200000);
    assert(pow128(4) == 0x10000000);
    assert(pow128(5) == 0x800000000);
    assert(pow128(6) == 0x40000000000);
    assert(pow128(7) == 0x2000000000000);
    assert(pow128(8) == 0x100000000000000);
    assert(pow128(9) == 0x8000000000000000);
}

} // verus!
