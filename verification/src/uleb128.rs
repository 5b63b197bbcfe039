//! Selective ULEB128 integer encoding, independent of the enclosing configuration.
//!
//! Each byte carries seven low-order bits and a continuation bit (the high bit), least
//! significant group first. Signed integers are mapped to unsigned ones by zigzag
//! (0, -1, 1, -2, 2, ... become 0, 1, 2, 3, 4, ...) before they are encoded.

use vstd::prelude::*;
use vstd::arithmetic::power2::*;
use crate::error::{DecodeError, EncodeError};
use crate::enc::write::{appends, lemma_appends_more, lemma_appends_nothing, writes_in_turn, Writer};

verus! {

/// Encodes just this integer as unsigned LEB128, using zigzag for signed values.
///
/// This wrapper ignores the configuration's integer encoding and endianness; ordinary
/// values alongside it keep using the enclosing configuration. Decode with the same
/// wrapper and integer type. All Rust signed and unsigned integer types are supported.
#[derive(Clone, Copy, Debug, Default, PartialEq, Eq, PartialOrd, Ord, Hash)]
pub struct Uleb128<T>(pub T);

/// The ULEB128 bytes of `v`: seven bits per byte, least significant group first, with the
/// continuation bit set on every byte but the last.
pub open spec fn uleb128_bytes(v: nat) -> Seq<u8>
    decreases v,
{
    if v < 128 {
        seq![v as u8]
    } else {
        seq![(v % 128 + 128) as u8] + uleb128_bytes(v / 128)
    }
}

/// The outcome of reading, from the front of `s`, a ULEB128 integer that must fit in
/// `bits` bits: the value and the number of bytes it took, or the error.
///
/// The groups are read while fewer than `bits` bits have been consumed; a group that
/// carries bits beyond `bits` is an overflow, and a continuation bit on the group that
/// reaches `bits` makes the integer too long.
pub open spec fn uleb128_decoded(bits: int, s: Seq<u8>) -> Result<(nat, nat), DecodeError>
    decreases s.len(),
{
    if bits <= 0 {
        Err(DecodeError::Other("ULEB128 integer is too long"))
    } else if s.len() == 0 {
        Err(DecodeError::UnexpectedEnd { additional: 1 })
    } else {
        let chunk = (s[0] % 128) as nat;
        if bits < 7 && chunk >= pow2(bits as nat) {
            Err(DecodeError::Other("ULEB128 integer overflow"))
        } else if s[0] < 128 {
            Ok((chunk, 1))
        } else {
            match uleb128_decoded(bits - 7, s.drop_first()) {
                Ok((v, n)) => Ok((chunk + 128 * v, n + 1)),
                Err(e) => Err(e),
            }
        }
    }
}

/// A decoding outcome for a suffix, seen from `consumed` bytes earlier, where the bytes
/// already read hold `low` and the suffix's value starts at bit `shift`.
spec fn resumed(
    r: Result<(nat, nat), DecodeError>,
    low: nat,
    shift: nat,
    consumed: nat,
) -> Result<(nat, nat), DecodeError> {
    match r {
        Ok((v, n)) => Ok((low + pow2(shift) * v, n + consumed)),
        Err(e) => Err(e),
    }
}

proof fn lemma_u128_shl_is_mul(x: u128, s: u128)
    requires
        s < 128,
        x * pow2(s as nat) <= u128::MAX,
    ensures
        x << s == x * pow2(s as nat),
    decreases s,
{
    if s == 0 {
        assert(x << 0u128 == x) by (bit_vector);
        lemma2_to64();
    } else {
        assert(x << s == ((x << ((s - 1) as u128)) * 2) as u128) by (bit_vector)
            requires
                0 < s < 128,
        ;
        lemma_pow2_unfold(s as nat);
        lemma_pow2_pos((s - 1) as nat);
        let p = pow2((s - 1) as nat);
        assert(x * pow2(s as nat) == (x * p) * 2) by (nonlinear_arith)
            requires
                pow2(s as nat) == 2 * p,
        ;
        assert(x * p <= x * pow2(s as nat)) by (nonlinear_arith)
            requires
                pow2(s as nat) == 2 * p,
                p > 0,
        ;
        lemma_u128_shl_is_mul(x, (s - 1) as u128);
    }
}

proof fn lemma_or_is_add(x: u128, c: u128, s: u128)
    requires
        s < 128,
        x < (1u128 << s),
    ensures
        x | (c << s) == x + (c << s),
{
    assert(x | (c << s) == x + (c << s)) by (bit_vector)
        requires
            s < 128,
            x < (1u128 << s),
    ;
}

/// The zigzag map from signed to unsigned integers: 0, -1, 1, -2, 2, ... become
/// 0, 1, 2, 3, 4, ...
pub open spec fn zigzag(v: int) -> nat {
    if v >= 0 {
        (2 * v) as nat
    } else {
        (-2 * v - 1) as nat
    }
}

/// The inverse of `zigzag`.
pub open spec fn unzigzag(u: nat) -> int {
    if u % 2 == 0 {
        (u / 2) as int
    } else {
        -((u / 2) as int) - 1
    }
}

/// Round trip: decoding, with room for `bits` bits, the ULEB128 bytes of any value that
/// fits in `bits` bits gives back the value and consumes exactly its bytes, whatever
/// follows them.
pub proof fn lemma_uleb128_roundtrip(bits: int, v: nat, rest: Seq<u8>)
    requires
        0 < bits,
        v < pow2(bits as nat),
    ensures
        uleb128_decoded(bits, uleb128_bytes(v) + rest) == Ok::<(nat, nat), DecodeError>(
            (v, uleb128_bytes(v).len()),
        ),
    decreases v,
{
    let s = uleb128_bytes(v) + rest;
    lemma2_to64();
    if v < 128 {
        assert(s[0] == v as u8);
    } else {
        if bits <= 7 {
            if bits < 7 {
                lemma_pow2_strictly_increases(bits as nat, 7);
            }
            assert(false);
        }
        lemma_pow2_adds((bits - 7) as nat, 7);
        let p = pow2((bits - 7) as nat);
        assert(v / 128 < p) by (nonlinear_arith)
            requires
                v < p * 128,
        ;
        lemma_uleb128_roundtrip(bits - 7, v / 128, rest);
        assert(s.drop_first() == uleb128_bytes(v / 128) + rest);
        assert(s[0] == (v % 128 + 128) as u8);
    }
}

/// A decoded value fits in the requested number of bits, and it took at least one and at
/// most all of the given bytes.
pub proof fn lemma_uleb128_decoded_fits(bits: int, s: Seq<u8>)
    ensures
        uleb128_decoded(bits, s) matches Ok((v, n)) ==> v < pow2(bits as nat) && 1 <= n <= s.len(),
    decreases s.len(),
{
    lemma2_to64();
    if bits > 0 && s.len() > 0 {
        let chunk = (s[0] % 128) as nat;
        if bits < 7 && chunk >= pow2(bits as nat) {
        } else if s[0] < 128 {
            if bits < 7 {
            } else if bits > 7 {
                lemma_pow2_strictly_increases(7, bits as nat);
            }
        } else {
            lemma_uleb128_decoded_fits(bits - 7, s.drop_first());
            if let Ok((v, n)) = uleb128_decoded(bits - 7, s.drop_first()) {
                if bits >= 7 {
                    lemma_pow2_adds((bits - 7) as nat, 7);
                    assert(chunk + 128 * v < pow2(bits as nat)) by (nonlinear_arith)
                        requires
                            v < pow2((bits - 7) as nat),
                            chunk < 128,
                            pow2(bits as nat) == pow2((bits - 7) as nat) * 128,
                    ;
                } else {
                    assert(bits - 7 <= 0);
                }
            }
        }
    }
}

/// Decoding reads nothing past the integer: bytes appended after a complete integer do
/// not change the outcome.
pub proof fn lemma_uleb128_decoded_ignores_trailing(bits: int, s: Seq<u8>, t: Seq<u8>)
    requires
        uleb128_decoded(bits, s) is Ok,
    ensures
        uleb128_decoded(bits, s + t) == uleb128_decoded(bits, s),
    decreases s.len(),
{
    let u = s + t;
    assert(u[0] == s[0]);
    if s[0] >= 128 && !(bits < 7 && (s[0] % 128) as nat >= pow2(bits as nat)) {
        assert(u.drop_first() == s.drop_first() + t);
        lemma_uleb128_decoded_ignores_trailing(bits - 7, s.drop_first(), t);
    }
}

/// The shape of an encoding: it is never empty, it takes at most `k` bytes when the value
/// fits in `7 * k` bits, every byte but the last carries the continuation bit, and the
/// last byte does not, and is zero only for the value zero.
pub proof fn lemma_uleb128_bytes_shape(v: nat, k: nat)
    ensures
        uleb128_bytes(v).len() >= 1,
        v < pow2(7 * k) && k >= 1 ==> uleb128_bytes(v).len() <= k,
        forall|i: int| 0 <= i < uleb128_bytes(v).len() - 1 ==> uleb128_bytes(v)[i] >= 128,
        uleb128_bytes(v).last() < 128,
        uleb128_bytes(v).last() == 0 <==> v == 0,
    decreases v,
{
    lemma2_to64();
    if v >= 128 {
        if k >= 1 {
            lemma_pow2_adds((7 * (k - 1)) as nat, 7);
            let p = pow2((7 * (k - 1)) as nat);
            assert(v < pow2(7 * k) ==> v / 128 < p) by (nonlinear_arith)
                requires
                    pow2(7 * k) == p * 128,
            ;
            if k == 1 {
                assert(v >= pow2(7 * k));
            }
        }
        lemma_uleb128_bytes_shape(v / 128, (k - 1) as nat);
        let rest = uleb128_bytes(v / 128);
        assert(uleb128_bytes(v).last() == rest.last());
        assert forall|i: int| 0 <= i < uleb128_bytes(v).len() - 1 implies uleb128_bytes(v)[i] >= 128 by {
            if i > 0 {
                assert(uleb128_bytes(v)[i] == rest[i - 1]);
            }
        }
    }
}

/// The closed form of an encoding: byte `i` holds the `i`-th group of seven bits of the
/// value, with the continuation bit on all bytes but the last; and the encoding is as
/// short as the value allows (the value fits in its groups, and the last group is needed
/// unless the value is zero).
pub proof fn lemma_uleb128_bytes_closed_form(v: nat)
    ensures
        forall|i: int|
            0 <= i < uleb128_bytes(v).len() ==> #[trigger] uleb128_bytes(v)[i] as nat == (v / pow2(
                (7 * i) as nat,
            )) % 128 + (if i < uleb128_bytes(v).len() - 1 {
                128nat
            } else {
                0nat
            }),
        v < pow2((7 * uleb128_bytes(v).len()) as nat),
        uleb128_bytes(v).len() == 1 || pow2((7 * (uleb128_bytes(v).len() - 1)) as nat) <= v,
    decreases v,
{
    lemma2_to64();
    let b = uleb128_bytes(v);
    assert(pow2(0) == 1);
    assert(v / pow2(0) == v);
    if v < 128 {
        assert(b[0] as nat == v);
        assert(b.len() == 1);
    } else {
        let q = v / 128;
        lemma_uleb128_bytes_closed_form(q);
        let rest = uleb128_bytes(q);
        let n = rest.len();
        assert(b.len() == n + 1);
        assert forall|i: int| 0 <= i < b.len() implies #[trigger] b[i] as nat == (v / pow2(
            (7 * i) as nat,
        )) % 128 + (if i < b.len() - 1 {
            128nat
        } else {
            0nat
        }) by {
            if i == 0 {
                assert(b[0] == (v % 128 + 128) as u8);
                assert((7 * i) as nat == 0);
            } else {
                assert(b[i] == rest[i - 1]);
                lemma_pow2_adds((7 * (i - 1)) as nat, 7);
                lemma_pow2_pos((7 * (i - 1)) as nat);
                vstd::arithmetic::div_mod::lemma_div_denominator(
                    v as int,
                    128,
                    pow2((7 * (i - 1)) as nat) as int,
                );
                assert(pow2((7 * i) as nat) == 128 * pow2((7 * (i - 1)) as nat)) by (nonlinear_arith)
                    requires
                        pow2((7 * (i - 1) + 7) as nat) == pow2((7 * (i - 1)) as nat) * pow2(7),
                        pow2(7) == 128,
                        7 * i == 7 * (i - 1) + 7,
                ;
                assert(q / pow2((7 * (i - 1)) as nat) == v / pow2((7 * i) as nat));
                assert(i - 1 < n - 1 <==> i < b.len() - 1);
            }
        }
        lemma_pow2_adds((7 * n) as nat, 7);
        assert(v < pow2((7 * (n + 1)) as nat)) by (nonlinear_arith)
            requires
                q < pow2((7 * n) as nat),
                q == v / 128,
                pow2((7 * n + 7) as nat) == pow2((7 * n) as nat) * 128,
                7 * (n + 1) == 7 * n + 7,
        ;
        if n == 1 {
            assert(pow2(7) <= v);
        } else {
            lemma_pow2_adds((7 * (n - 1)) as nat, 7);
            assert(pow2((7 * n) as nat) <= v) by (nonlinear_arith)
                requires
                    pow2((7 * (n - 1)) as nat) <= q,
                    q == v / 128,
                    pow2((7 * (n - 1) + 7) as nat) == pow2((7 * (n - 1)) as nat) * 128,
                    7 * n == 7 * (n - 1) + 7,
            ;
        }
    }
}

/// Zigzag is a bijection between the integers and the naturals.
pub proof fn lemma_zigzag_roundtrip(v: int, u: nat)
    ensures
        unzigzag(zigzag(v)) == v,
        zigzag(unzigzag(u)) == u,
{
}

/// Zigzag maps exactly the integers of a `bits`-bit signed type onto those of the
/// `bits`-bit unsigned type.
pub proof fn lemma_zigzag_range(v: int, bits: nat)
    requires
        bits >= 1,
    ensures
        -pow2((bits - 1) as nat) <= v < pow2((bits - 1) as nat) <==> zigzag(v) < pow2(bits),
{
    lemma_pow2_unfold(bits);
}

/// The outcome of decoding an integer of `bits` bits that takes `size` bytes in memory:
/// the decoder first claims `size` bytes of its allowance `limit` (none where unlimited),
/// then reads the ULEB128 bytes.
pub open spec fn decode_outcome(bits: int, size: nat, limit: Option<usize>, s: Seq<u8>) -> Result<
    (nat, nat),
    DecodeError,
> {
    match limit {
        Some(l) if size > l => Err(DecodeError::LimitExceeded),
        _ => uleb128_decoded(bits, s),
    }
}

/// Claims `n` bytes of the decoder's byte allowance `limit`.
fn claim_bytes_read(limit: Option<usize>, n: usize) -> (r: Result<(), DecodeError>)
    ensures
        r == (match limit {
            Some(l) if n > l => Err(DecodeError::LimitExceeded),
            _ => Ok::<(), DecodeError>(()),
        }),
{
    match limit {
        Some(l) => {
            if n > l {
                Err(DecodeError::LimitExceeded)
            } else {
                Ok(())
            }
        },
        None => Ok(()),
    }
}

proof fn lemma_pow2_widths()
    ensures
        pow2(7) == 0x80,
        pow2(8) == 0x100,
        pow2(15) == 0x8000,
        pow2(16) == 0x10000,
        pow2(31) == 0x8000_0000,
        pow2(32) == 0x1_0000_0000,
        pow2(63) == 0x8000_0000_0000_0000,
        pow2(64) == 0x1_0000_0000_0000_0000,
        pow2(127) == 0x8000_0000_0000_0000_0000_0000_0000_0000,
        pow2(128) == 0x1_0000_0000_0000_0000_0000_0000_0000_0000,
        pow2(usize::BITS as nat) == usize::MAX + 1,
        pow2((usize::BITS - 1) as nat) == isize::MAX + 1,
{
    lemma2_to64();
    lemma2_to64_rest();
    lemma_pow2_adds(63, 64);
    lemma_pow2_adds(64, 64);
}

/// Round trip through a wrapper of an unsigned type of `bits` bits and `size` bytes: the
/// encoding of any value of the type decodes, with an allowance that covers `size`, to the
/// value, consuming exactly the encoding.
pub proof fn lemma_unsigned_roundtrip(
    bits: int,
    size: nat,
    v: nat,
    rest: Seq<u8>,
    limit: Option<usize>,
)
    requires
        0 < bits,
        v < pow2(bits as nat),
        limit matches Some(l) ==> size <= l,
    ensures
        decode_outcome(bits, size, limit, uleb128_bytes(v) + rest) == Ok::<(nat, nat), DecodeError>(
            (v, uleb128_bytes(v).len()),
        ),
{
    lemma_uleb128_roundtrip(bits, v, rest);
}

/// Round trip through a wrapper of a signed type of `bits` bits and `size` bytes: the
/// encoding of any value of the type decodes, with an allowance that covers `size`, to a
/// zigzag value that maps back to the value, consuming exactly the encoding.
pub proof fn lemma_signed_roundtrip(
    bits: int,
    size: nat,
    v: int,
    rest: Seq<u8>,
    limit: Option<usize>,
)
    requires
        0 < bits,
        -pow2((bits - 1) as nat) <= v < pow2((bits - 1) as nat),
        limit matches Some(l) ==> size <= l,
    ensures
        decode_outcome(bits, size, limit, uleb128_bytes(zigzag(v)) + rest) == Ok::<
            (nat, nat),
            DecodeError,
        >((zigzag(v), uleb128_bytes(zigzag(v)).len())),
        unzigzag(zigzag(v)) == v,
{
    lemma_zigzag_range(v, bits as nat);
    lemma_uleb128_roundtrip(bits, zigzag(v), rest);
}

/// Writes `value` as ULEB128 bytes, one byte per call of `writer.write`, stopping at the
/// first write that fails and returning its error.
///
/// Whatever the writer, the first clause records the calls made: they hand over the
/// encoding's bytes in turn (`writes_in_turn`), each starting from the state the one
/// before left, from the writer as it was to the writer as it is left; every call but
/// the last succeeded, the last one's result is the result, and the whole encoding was
/// handed over when that result is `Ok`. What a call did is what that writer's own
/// `write` promises. A modelled writer takes the whole encoding exactly when it has room
/// for it; otherwise it takes as much as fits and reports `UnexpectedEnd`.
pub fn encode<W: Writer>(value: u128, writer: &mut W) -> (r: Result<(), EncodeError>)
    ensures
        exists|lent: Seq<&mut W>, handed: Seq<&[u8]>, results: Seq<Result<(), EncodeError>>|
            #![trigger writes_in_turn(lent, handed, results, uleb128_bytes(value as nat))]
            {
                &&& writes_in_turn(lent, handed, results, uleb128_bytes(value as nat))
                &&& 1 <= lent.len()
                &&& mut_ref_current(lent[0]) == *old(writer)
                &&& mut_ref_future(lent.last()) == *final(writer)
                &&& forall|i: int|
                    0 <= i < lent.len() - 1 ==> mut_ref_future(#[trigger] lent[i])
                        == mut_ref_current(lent[i + 1])
                &&& forall|i: int| 0 <= i < lent.len() - 1 ==> #[trigger] results[i] is Ok
                &&& results.last() == r
                &&& r is Ok ==> lent.len() == uleb128_bytes(value as nat).len()
            },
        W::modelled() ==> (r is Ok <==> uleb128_bytes(value as nat).len() <= (*old(writer)).room()),
        W::modelled() && r is Ok ==> appends(*old(writer), *final(writer), uleb128_bytes(value as nat)),
        W::modelled() && r is Err ==> r == Err::<(), EncodeError>(EncodeError::UnexpectedEnd)
            && appends(
            *old(writer),
            *final(writer),
            uleb128_bytes(value as nat).take((*old(writer)).room() as int),
        ),
{
    let ghost start = *writer;
    let ghost whole = uleb128_bytes(value as nat);
    let ghost mut done: Seq<u8> = Seq::empty();
    let mut rest = value;
    let write = W::write;
    proof {
        lemma_appends_nothing(start);
        let none: Seq<&mut W> = Seq::empty();
        assert(writes_in_turn(none, Seq::empty(), Seq::empty(), whole));
    }
    loop
        invariant
            start == *old(writer),
            whole == uleb128_bytes(value as nat),
            done + uleb128_bytes(rest as nat) == whole,
            W::modelled() ==> appends(start, *writer, done),
            write == W::write,
            exists|lent: Seq<&mut W>, handed: Seq<&[u8]>, results: Seq<Result<(), EncodeError>>|
                #![trigger writes_in_turn(lent, handed, results, whole)]
                {
                    &&& writes_in_turn(lent, handed, results, whole)
                    &&& lent.len() == done.len()
                    &&& lent.len() == 0 ==> *writer == start
                    &&& lent.len() > 0 ==> mut_ref_current(lent[0]) == start
                        && mut_ref_future(lent.last()) == *writer
                    &&& forall|i: int|
                        0 <= i < lent.len() - 1 ==> mut_ref_future(#[trigger] lent[i])
                            == mut_ref_current(lent[i + 1])
                    &&& forall|i: int| 0 <= i < lent.len() ==> #[trigger] results[i] is Ok
                },
        decreases rest,
    {
        let low = rest & 0x7f;
        assert(low == rest % 128) by (bit_vector)
            requires
                low == rest & 0x7f,
        ;
        let mut byte = low as u8;
        let ghost v = rest;
        assert(rest >> 7u32 == rest / 128) by (bit_vector);
        rest = rest >> 7;
        if rest != 0 {
            assert(byte | 0x80 == byte + 128) by (bit_vector)
                requires
                    byte < 128,
            ;
            byte = byte | 0x80;
        }
        assert(rest != 0 ==> uleb128_bytes(v as nat) == seq![byte] + uleb128_bytes(rest as nat));
        assert(rest == 0 ==> uleb128_bytes(v as nat) == seq![byte]);
        assert(whole[done.len() as int] == byte);
        let buf = [byte];
        let arg: &[u8] = &buf;
        assert(arg@ == seq![byte]);
        let ghost current = *writer;
        let res = write(writer, arg);
        proof {
            // The calls so far, as the invariant records them for the writer before this call.
            let (l0, h0, r0) = choose|
                lent: Seq<&mut W>,
                handed: Seq<&[u8]>,
                results: Seq<Result<(), EncodeError>>,
            |
                {
                    &&& writes_in_turn(lent, handed, results, whole)
                    &&& lent.len() == done.len()
                    &&& lent.len() == 0 ==> current == start
                    &&& lent.len() > 0 ==> mut_ref_current(lent[0]) == start
                        && mut_ref_future(lent.last()) == current
                    &&& forall|i: int|
                        0 <= i < lent.len() - 1 ==> mut_ref_future(#[trigger] lent[i])
                            == mut_ref_current(lent[i + 1])
                    &&& forall|i: int| 0 <= i < lent.len() ==> #[trigger] results[i] is Ok
                };
            // This call's reference is a reborrow of `writer`, known by what the call gives.
            let b = choose|b: &mut W|
                mut_ref_current(b) == current && mut_ref_future(b) == *writer && call_ensures(
                    W::write,
                    (b, arg),
                    res,
                );
            let l1 = l0.push(b);
            let h1 = h0.push(arg);
            let r1 = r0.push(res);
            assert(writes_in_turn(l1, h1, r1, whole)) by {
                assert forall|i: int| 0 <= i < l1.len() implies h1[i]@ == seq![whole[i]]
                    && call_ensures(W::write, (#[trigger] l1[i], h1[i]), r1[i]) by {
                    if i < l0.len() {
                        assert(l1[i] == l0[i]);
                    }
                }
            }
            assert(forall|i: int|
                0 <= i < l1.len() - 1 ==> mut_ref_future(#[trigger] l1[i]) == mut_ref_current(l1[i + 1]));
            assert(forall|i: int| 0 <= i < l1.len() - 1 ==> #[trigger] r1[i] is Ok);
            assert(mut_ref_current(l1[0]) == start);
            assert(mut_ref_future(l1.last()) == *writer);
            assert(r1.last() == res);
            assert(rest == 0 ==> l1.len() == whole.len());
            if res is Ok {
                let unit = res->Ok_0;
                assert(unit == ());
                assert(res == Ok::<(), EncodeError>(unit));
            }
            assert(res is Ok ==> r1.last() == Ok::<(), EncodeError>(()));
        }
        match res {
            Ok(()) => {},
            Err(e) => {
                proof {
                    if W::modelled() {
                        assert(whole.take(done.len() as int) == done);
                        assert(start.room() == done.len());
                    }
                }
                return Err(e);
            },
        }
        proof {
            if W::modelled() {
                lemma_appends_more(start, current, *writer, done, seq![byte]);
            }
            done = done + seq![byte];
        }
        if rest == 0 {
            assert(done == whole);
            return Ok(());
        }
        assert(done + uleb128_bytes(rest as nat) == whole);
    }
}

/// Reads, from the front of `bytes`, a ULEB128 integer that must fit in `bits` bits,
/// returning the value and the number of bytes it took. Bytes after the integer are not
/// read.
pub fn decode(bits: u32, bytes: &[u8]) -> (r: Result<(u128, usize), DecodeError>)
    requires
        bits <= 128,
    ensures
        match uleb128_decoded(bits as int, bytes@) {
            Ok((v, n)) => r == Ok::<(u128, usize), DecodeError>((v as u128, n as usize)),
            Err(e) => r == Err::<(u128, usize), DecodeError>(e),
        },
{
    let mut value: u128 = 0;
    let mut shift: u32 = 0;
    let mut i: usize = 0;
    proof {
        lemma_pow2_widths();
        lemma2_to64();
        assert(bytes@.skip(0) == bytes@);
    }
    while shift < bits
        invariant
            bits <= 128,
            shift == 7 * i,
            i <= bytes@.len() || shift >= bits,
            shift <= bits + 6,
            value < pow2(shift as nat),
            pow2(128) == u128::MAX + 1,
            uleb128_decoded(bits as int, bytes@) == resumed(
                uleb128_decoded(bits - shift, bytes@.skip(i as int)),
                value as nat,
                shift as nat,
                i as nat,
            ),
        decreases bits + 7 - shift,
    {
        if i >= bytes.len() {
            assert(bytes@.skip(i as int).len() == 0);
            return Err(DecodeError::UnexpectedEnd { additional: 1 });
        }
        let byte = bytes[i];
        let chunk = (byte & 0x7f) as u128;
        assert(byte & 0x7f == byte % 128) by (bit_vector);
        let remaining = bits - shift;
        assert(bytes@.skip(i as int)[0] == byte);
        assert(bytes@.skip(i as int).drop_first() == bytes@.skip(i + 1));
        proof {
            if remaining < 7 {
                lemma2_to64();
                lemma_u128_shl_is_mul(1, remaining as u128);
            }
        }
        if remaining < 7 && chunk >= (1u128 << remaining) {
            return Err(DecodeError::Other("ULEB128 integer overflow"));
        }
        proof {
            lemma2_to64();
            lemma_pow2_adds(shift as nat, 7);
            lemma_pow2_pos(shift as nat);
            lemma_pow2_strictly_increases(shift as nat, 128);
            assert(value + chunk * pow2(shift as nat) < pow2((shift + 7) as nat)) by (nonlinear_arith)
                requires
                    value < pow2(shift as nat),
                    chunk < 128,
                    pow2((shift + 7) as nat) == pow2(shift as nat) * 128,
            ;
            if remaining < 7 {
                lemma_pow2_adds(shift as nat, remaining as nat);
                if bits < 128 {
                    lemma_pow2_strictly_increases(bits as nat, 128);
                }
                assert(chunk * pow2(shift as nat) < pow2(bits as nat)) by (nonlinear_arith)
                    requires
                        chunk < pow2(remaining as nat),
                        pow2(bits as nat) == pow2(shift as nat) * pow2(remaining as nat),
                        pow2(shift as nat) > 0,
                ;
            } else {
                if shift + 7 < 128 {
                    lemma_pow2_strictly_increases((shift + 7) as nat, 128);
                }
                assert(chunk * pow2(shift as nat) < pow2((shift + 7) as nat)) by (nonlinear_arith)
                    requires
                        chunk < 128,
                        pow2((shift + 7) as nat) == pow2(shift as nat) * pow2(7),
                        pow2(7) == 128,
                        pow2(shift as nat) > 0,
                ;
            }
            lemma_u128_shl_is_mul(chunk, shift as u128);
            lemma_u128_shl_is_mul(1, shift as u128);
            lemma_or_is_add(value, chunk, shift as u128);
        }
        let ghost low = value;
        value = value | (chunk << shift);
        assert(value == low + chunk * pow2(shift as nat));
        assert(chunk * pow2(shift as nat) == pow2(shift as nat) * chunk) by (nonlinear_arith);
        if byte & 0x80 == 0 {
            assert(byte & 0x80 == 0 <==> byte < 128) by (bit_vector);
            return Ok((value, i + 1));
        }
        assert(byte & 0x80 == 0 <==> byte < 128) by (bit_vector);
        proof {
            let r = uleb128_decoded(bits - shift - 7, bytes@.skip(i + 1));
            match r {
                Ok((v, n)) => {
                    assert(low + pow2(shift as nat) * (chunk + 128 * v) == low + chunk * pow2(
                        shift as nat,
                    ) + pow2((shift + 7) as nat) * v) by (nonlinear_arith)
                        requires
                            pow2((shift + 7) as nat) == pow2(shift as nat) * 128,
                    ;
                },
                Err(e) => {},
            }
        }
        shift = shift + 7;
        i = i + 1;
    }
    Err(DecodeError::Other("ULEB128 integer is too long"))
}

impl Uleb128<u8> {
    /// Writes the integer as ULEB128 bytes, as `encode` does, with the same record of the
    /// calls made.
    pub fn encode<W: Writer>(&self, writer: &mut W) -> (r: Result<(), EncodeError>)
        ensures
            exists|lent: Seq<&mut W>, handed: Seq<&[u8]>, results: Seq<Result<(), EncodeError>>|
                #![trigger writes_in_turn(lent, handed, results, uleb128_bytes(self.0 as nat))]
                {
                    &&& writes_in_turn(lent, handed, results, uleb128_bytes(self.0 as nat))
                    &&& 1 <= lent.len()
                    &&& mut_ref_current(lent[0]) == *old(writer)
                    &&& mut_ref_future(lent.last()) == *final(writer)
                    &&& forall|i: int|
                        0 <= i < lent.len() - 1 ==> mut_ref_future(#[trigger] lent[i])
                            == mut_ref_current(lent[i + 1])
                    &&& forall|i: int| 0 <= i < lent.len() - 1 ==> #[trigger] results[i] is Ok
                    &&& results.last() == r
                    &&& r is Ok ==> lent.len() == uleb128_bytes(self.0 as nat).len()
                },
            W::modelled() ==> (r is Ok <==> uleb128_bytes(self.0 as nat).len() <= (*old(writer)).room()),
            W::modelled() && r is Ok ==> appends(*old(writer), *final(writer), uleb128_bytes(self.0 as nat)),
            W::modelled() && r is Err ==> r == Err::<(), EncodeError>(EncodeError::UnexpectedEnd)
                && appends(
                *old(writer),
                *final(writer),
                uleb128_bytes(self.0 as nat).take((*old(writer)).room() as int),
            ),
    {
        encode(self.0 as u128, writer)
    }

    /// Reads the integer from the front of `bytes`, within the decoder's byte allowance
    /// `limit`, which must cover the integer's size in memory.
    pub fn decode(bytes: &[u8], limit: Option<usize>) -> (r: Result<(Self, usize), DecodeError>)
        ensures
            match decode_outcome(u8::BITS as int, 1, limit, bytes@) {
                Ok((v, n)) => r == Ok::<(Self, usize), DecodeError>((Uleb128(v as u8), n as usize)),
                Err(e) => r == Err::<(Self, usize), DecodeError>(e),
            },
    {
        if let Err(e) = claim_bytes_read(limit, 1) {
            return Err(e);
        }
        match decode(u8::BITS, bytes) {
            Ok((value, used)) => {
                proof {
                    lemma_uleb128_decoded_fits(u8::BITS as int, bytes@);
                    lemma_pow2_widths();
                }
                Ok((Uleb128(value as u8), used))
            },
            Err(e) => Err(e),
        }
    }
}

impl Uleb128<u16> {
    /// Writes the integer as ULEB128 bytes, as `encode` does, with the same record of the
    /// calls made.
    pub fn encode<W: Writer>(&self, writer: &mut W) -> (r: Result<(), EncodeError>)
        ensures
            exists|lent: Seq<&mut W>, handed: Seq<&[u8]>, results: Seq<Result<(), EncodeError>>|
                #![trigger writes_in_turn(lent, handed, results, uleb128_bytes(self.0 as nat))]
                {
                    &&& writes_in_turn(lent, handed, results, uleb128_bytes(self.0 as nat))
                    &&& 1 <= lent.len()
                    &&& mut_ref_current(lent[0]) == *old(writer)
                    &&& mut_ref_future(lent.last()) == *final(writer)
                    &&& forall|i: int|
                        0 <= i < lent.len() - 1 ==> mut_ref_future(#[trigger] lent[i])
                            == mut_ref_current(lent[i + 1])
                    &&& forall|i: int| 0 <= i < lent.len() - 1 ==> #[trigger] results[i] is Ok
                    &&& results.last() == r
                    &&& r is Ok ==> lent.len() == uleb128_bytes(self.0 as nat).len()
                },
            W::modelled() ==> (r is Ok <==> uleb128_bytes(self.0 as nat).len() <= (*old(writer)).room()),
            W::modelled() && r is Ok ==> appends(*old(writer), *final(writer), uleb128_bytes(self.0 as nat)),
            W::modelled() && r is Err ==> r == Err::<(), EncodeError>(EncodeError::UnexpectedEnd)
                && appends(
                *old(writer),
                *final(writer),
                uleb128_bytes(self.0 as nat).take((*old(writer)).room() as int),
            ),
    {
        encode(self.0 as u128, writer)
    }

    /// Reads the integer from the front of `bytes`, within the decoder's byte allowance
    /// `limit`, which must cover the integer's size in memory.
    pub fn decode(bytes: &[u8], limit: Option<usize>) -> (r: Result<(Self, usize), DecodeError>)
        ensures
            match decode_outcome(u16::BITS as int, 2, limit, bytes@) {
                Ok((v, n)) => r == Ok::<(Self, usize), DecodeError>((Uleb128(v as u16), n as usize)),
                Err(e) => r == Err::<(Self, usize), DecodeError>(e),
            },
    {
        if let Err(e) = claim_bytes_read(limit, 2) {
            return Err(e);
        }
        match decode(u16::BITS, bytes) {
            Ok((value, used)) => {
                proof {
                    lemma_uleb128_decoded_fits(u16::BITS as int, bytes@);
                    lemma_pow2_widths();
                }
                Ok((Uleb128(value as u16), used))
            },
            Err(e) => Err(e),
        }
    }
}

impl Uleb128<u32> {
    /// Writes the integer as ULEB128 bytes, as `encode` does, with the same record of the
    /// calls made.
    pub fn encode<W: Writer>(&self, writer: &mut W) -> (r: Result<(), EncodeError>)
        ensures
            exists|lent: Seq<&mut W>, handed: Seq<&[u8]>, results: Seq<Result<(), EncodeError>>|
                #![trigger writes_in_turn(lent, handed, results, uleb128_bytes(self.0 as nat))]
                {
                    &&& writes_in_turn(lent, handed, results, uleb128_bytes(self.0 as nat))
                    &&& 1 <= lent.len()
                    &&& mut_ref_current(lent[0]) == *old(writer)
                    &&& mut_ref_future(lent.last()) == *final(writer)
                    &&& forall|i: int|
                        0 <= i < lent.len() - 1 ==> mut_ref_future(#[trigger] lent[i])
                            == mut_ref_current(lent[i + 1])
                    &&& forall|i: int| 0 <= i < lent.len() - 1 ==> #[trigger] results[i] is Ok
                    &&& results.last() == r
                    &&& r is Ok ==> lent.len() == uleb128_bytes(self.0 as nat).len()
                },
            W::modelled() ==> (r is Ok <==> uleb128_bytes(self.0 as nat).len() <= (*old(writer)).room()),
            W::modelled() && r is Ok ==> appends(*old(writer), *final(writer), uleb128_bytes(self.0 as nat)),
            W::modelled() && r is Err ==> r == Err::<(), EncodeError>(EncodeError::UnexpectedEnd)
                && appends(
                *old(writer),
                *final(writer),
                uleb128_bytes(self.0 as nat).take((*old(writer)).room() as int),
            ),
    {
        encode(self.0 as u128, writer)
    }

    /// Reads the integer from the front of `bytes`, within the decoder's byte allowance
    /// `limit`, which must cover the integer's size in memory.
    pub fn decode(bytes: &[u8], limit: Option<usize>) -> (r: Result<(Self, usize), DecodeError>)
        ensures
            match decode_outcome(u32::BITS as int, 4, limit, bytes@) {
                Ok((v, n)) => r == Ok::<(Self, usize), DecodeError>((Uleb128(v as u32), n as usize)),
                Err(e) => r == Err::<(Self, usize), DecodeError>(e),
            },
    {
        if let Err(e) = claim_bytes_read(limit, 4) {
            return Err(e);
        }
        match decode(u32::BITS, bytes) {
            Ok((value, used)) => {
                proof {
                    lemma_uleb128_decoded_fits(u32::BITS as int, bytes@);
                    lemma_pow2_widths();
                }
                Ok((Uleb128(value as u32), used))
            },
            Err(e) => Err(e),
        }
    }
}

impl Uleb128<u64> {
    /// Writes the integer as ULEB128 bytes, as `encode` does, with the same record of the
    /// calls made.
    pub fn encode<W: Writer>(&self, writer: &mut W) -> (r: Result<(), EncodeError>)
        ensures
            exists|lent: Seq<&mut W>, handed: Seq<&[u8]>, results: Seq<Result<(), EncodeError>>|
                #![trigger writes_in_turn(lent, handed, results, uleb128_bytes(self.0 as nat))]
                {
                    &&& writes_in_turn(lent, handed, results, uleb128_bytes(self.0 as nat))
                    &&& 1 <= lent.len()
                    &&& mut_ref_current(lent[0]) == *old(writer)
                    &&& mut_ref_future(lent.last()) == *final(writer)
                    &&& forall|i: int|
                        0 <= i < lent.len() - 1 ==> mut_ref_future(#[trigger] lent[i])
                            == mut_ref_current(lent[i + 1])
                    &&& forall|i: int| 0 <= i < lent.len() - 1 ==> #[trigger] results[i] is Ok
                    &&& results.last() == r
                    &&& r is Ok ==> lent.len() == uleb128_bytes(self.0 as nat).len()
                },
            W::modelled() ==> (r is Ok <==> uleb128_bytes(self.0 as nat).len() <= (*old(writer)).room()),
            W::modelled() && r is Ok ==> appends(*old(writer), *final(writer), uleb128_bytes(self.0 as nat)),
            W::modelled() && r is Err ==> r == Err::<(), EncodeError>(EncodeError::UnexpectedEnd)
                && appends(
                *old(writer),
                *final(writer),
                uleb128_bytes(self.0 as nat).take((*old(writer)).room() as int),
            ),
    {
        encode(self.0 as u128, writer)
    }

    /// Reads the integer from the front of `bytes`, within the decoder's byte allowance
    /// `limit`, which must cover the integer's size in memory.
    pub fn decode(bytes: &[u8], limit: Option<usize>) -> (r: Result<(Self, usize), DecodeError>)
        ensures
            match decode_outcome(u64::BITS as int, 8, limit, bytes@) {
                Ok((v, n)) => r == Ok::<(Self, usize), DecodeError>((Uleb128(v as u64), n as usize)),
                Err(e) => r == Err::<(Self, usize), DecodeError>(e),
            },
    {
        if let Err(e) = claim_bytes_read(limit, 8) {
            return Err(e);
        }
        match decode(u64::BITS, bytes) {
            Ok((value, used)) => {
                proof {
                    lemma_uleb128_decoded_fits(u64::BITS as int, bytes@);
                    lemma_pow2_widths();
                }
                Ok((Uleb128(value as u64), used))
            },
            Err(e) => Err(e),
        }
    }
}

impl Uleb128<u128> {
    /// Writes the integer as ULEB128 bytes, as `encode` does, with the same record of the
    /// calls made.
    pub fn encode<W: Writer>(&self, writer: &mut W) -> (r: Result<(), EncodeError>)
        ensures
            exists|lent: Seq<&mut W>, handed: Seq<&[u8]>, results: Seq<Result<(), EncodeError>>|
                #![trigger writes_in_turn(lent, handed, results, uleb128_bytes(self.0 as nat))]
                {
                    &&& writes_in_turn(lent, handed, results, uleb128_bytes(self.0 as nat))
                    &&& 1 <= lent.len()
                    &&& mut_ref_current(lent[0]) == *old(writer)
                    &&& mut_ref_future(lent.last()) == *final(writer)
                    &&& forall|i: int|
                        0 <= i < lent.len() - 1 ==> mut_ref_future(#[trigger] lent[i])
                            == mut_ref_current(lent[i + 1])
                    &&& forall|i: int| 0 <= i < lent.len() - 1 ==> #[trigger] results[i] is Ok
                    &&& results.last() == r
                    &&& r is Ok ==> lent.len() == uleb128_bytes(self.0 as nat).len()
                },
            W::modelled() ==> (r is Ok <==> uleb128_bytes(self.0 as nat).len() <= (*old(writer)).room()),
            W::modelled() && r is Ok ==> appends(*old(writer), *final(writer), uleb128_bytes(self.0 as nat)),
            W::modelled() && r is Err ==> r == Err::<(), EncodeError>(EncodeError::UnexpectedEnd)
                && appends(
                *old(writer),
                *final(writer),
                uleb128_bytes(self.0 as nat).take((*old(writer)).room() as int),
            ),
    {
        encode(self.0 as u128, writer)
    }

    /// Reads the integer from the front of `bytes`, within the decoder's byte allowance
    /// `limit`, which must cover the integer's size in memory.
    pub fn decode(bytes: &[u8], limit: Option<usize>) -> (r: Result<(Self, usize), DecodeError>)
        ensures
            match decode_outcome(u128::BITS as int, 16, limit, bytes@) {
                Ok((v, n)) => r == Ok::<(Self, usize), DecodeError>((Uleb128(v as u128), n as usize)),
                Err(e) => r == Err::<(Self, usize), DecodeError>(e),
            },
    {
        if let Err(e) = claim_bytes_read(limit, 16) {
            return Err(e);
        }
        match decode(u128::BITS, bytes) {
            Ok((value, used)) => {
                proof {
                    lemma_uleb128_decoded_fits(u128::BITS as int, bytes@);
                    lemma_pow2_widths();
                }
                Ok((Uleb128(value as u128), used))
            },
            Err(e) => Err(e),
        }
    }
}

impl Uleb128<usize> {
    /// Writes the integer as ULEB128 bytes, as `encode` does, with the same record of the
    /// calls made.
    pub fn encode<W: Writer>(&self, writer: &mut W) -> (r: Result<(), EncodeError>)
        ensures
            exists|lent: Seq<&mut W>, handed: Seq<&[u8]>, results: Seq<Result<(), EncodeError>>|
                #![trigger writes_in_turn(lent, handed, results, uleb128_bytes(self.0 as nat))]
                {
                    &&& writes_in_turn(lent, handed, results, uleb128_bytes(self.0 as nat))
                    &&& 1 <= lent.len()
                    &&& mut_ref_current(lent[0]) == *old(writer)
                    &&& mut_ref_future(lent.last()) == *final(writer)
                    &&& forall|i: int|
                        0 <= i < lent.len() - 1 ==> mut_ref_future(#[trigger] lent[i])
                            == mut_ref_current(lent[i + 1])
                    &&& forall|i: int| 0 <= i < lent.len() - 1 ==> #[trigger] results[i] is Ok
                    &&& results.last() == r
                    &&& r is Ok ==> lent.len() == uleb128_bytes(self.0 as nat).len()
                },
            W::modelled() ==> (r is Ok <==> uleb128_bytes(self.0 as nat).len() <= (*old(writer)).room()),
            W::modelled() && r is Ok ==> appends(*old(writer), *final(writer), uleb128_bytes(self.0 as nat)),
            W::modelled() && r is Err ==> r == Err::<(), EncodeError>(EncodeError::UnexpectedEnd)
                && appends(
                *old(writer),
                *final(writer),
                uleb128_bytes(self.0 as nat).take((*old(writer)).room() as int),
            ),
    {
        encode(self.0 as u128, writer)
    }

    /// Reads the integer from the front of `bytes`, within the decoder's byte allowance
    /// `limit`, which must cover the integer's size in memory.
    pub fn decode(bytes: &[u8], limit: Option<usize>) -> (r: Result<(Self, usize), DecodeError>)
        ensures
            match decode_outcome(usize::BITS as int, (usize::BITS / 8) as nat, limit, bytes@) {
                Ok((v, n)) => r == Ok::<(Self, usize), DecodeError>((Uleb128(v as usize), n as usize)),
                Err(e) => r == Err::<(Self, usize), DecodeError>(e),
            },
    {
        if let Err(e) = claim_bytes_read(limit, (usize::BITS / 8) as usize) {
            return Err(e);
        }
        match decode(usize::BITS, bytes) {
            Ok((value, used)) => {
                proof {
                    lemma_uleb128_decoded_fits(usize::BITS as int, bytes@);
                    lemma_pow2_widths();
                }
                Ok((Uleb128(value as usize), used))
            },
            Err(e) => Err(e),
        }
    }
}

impl Uleb128<i8> {
    /// Writes the integer, mapped by zigzag, as ULEB128 bytes, as `encode` does, with the
    /// same record of the calls made.
    pub fn encode<W: Writer>(&self, writer: &mut W) -> (r: Result<(), EncodeError>)
        ensures
            exists|lent: Seq<&mut W>, handed: Seq<&[u8]>, results: Seq<Result<(), EncodeError>>|
                #![trigger writes_in_turn(lent, handed, results, uleb128_bytes(zigzag(self.0 as int)))]
                {
                    &&& writes_in_turn(lent, handed, results, uleb128_bytes(zigzag(self.0 as int)))
                    &&& 1 <= lent.len()
                    &&& mut_ref_current(lent[0]) == *old(writer)
                    &&& mut_ref_future(lent.last()) == *final(writer)
                    &&& forall|i: int|
                        0 <= i < lent.len() - 1 ==> mut_ref_future(#[trigger] lent[i])
                            == mut_ref_current(lent[i + 1])
                    &&& forall|i: int| 0 <= i < lent.len() - 1 ==> #[trigger] results[i] is Ok
                    &&& results.last() == r
                    &&& r is Ok ==> lent.len() == uleb128_bytes(zigzag(self.0 as int)).len()
                },
            W::modelled() ==> (r is Ok <==> uleb128_bytes(zigzag(self.0 as int)).len() <= (*old(writer)).room()),
            W::modelled() && r is Ok ==> appends(*old(writer), *final(writer), uleb128_bytes(zigzag(self.0 as int))),
            W::modelled() && r is Err ==> r == Err::<(), EncodeError>(EncodeError::UnexpectedEnd)
                && appends(
                *old(writer),
                *final(writer),
                uleb128_bytes(zigzag(self.0 as int)).take((*old(writer)).room() as int),
            ),
    {
        let value = self.0;
        let zigzag = ((value as u8) << 1u32) ^ ((value >> (i8::BITS - 1)) as u8);
        proof {
            assert(zigzag == (if value >= 0 { 2 * value } else { -2 * value - 1 }) as u8)
                by (bit_vector)
                requires
                    zigzag == ((value as u8) << 1u32) ^ ((value >> ((i8::BITS - 1) as u32)) as u8),
            ;
            lemma_pow2_widths();
            lemma_zigzag_range(value as int, i8::BITS as nat);
        }
        encode(zigzag as u128, writer)
    }

    /// Reads the integer, mapped by zigzag, from the front of `bytes`, within the decoder's
    /// byte allowance `limit`, which must cover the integer's size in memory.
    pub fn decode(bytes: &[u8], limit: Option<usize>) -> (r: Result<(Self, usize), DecodeError>)
        ensures
            match decode_outcome(i8::BITS as int, 1, limit, bytes@) {
                Ok((v, n)) => r == Ok::<(Self, usize), DecodeError>(
                    (Uleb128(unzigzag(v) as i8), n as usize),
                ),
                Err(e) => r == Err::<(Self, usize), DecodeError>(e),
            },
    {
        if let Err(e) = claim_bytes_read(limit, 1) {
            return Err(e);
        }
        match decode(i8::BITS, bytes) {
            Ok((wide, used)) => {
                proof {
                    lemma_uleb128_decoded_fits(i8::BITS as int, bytes@);
                    lemma_pow2_widths();
                }
                let value = wide as u8;
                assert(value & 1 <= 1) by (bit_vector);
                let result = ((value >> 1u32) as i8) ^ -((value & 1) as i8);
                assert(result == (if value % 2 == 0 { (value / 2) as int } else {
                    -((value / 2) as int) - 1
                })) by (bit_vector)
                    requires
                        result == ((value >> 1u32) as i8) ^ ((-((value & 1) as i8)) as i8),
                ;
                Ok((Uleb128(result), used))
            },
            Err(e) => Err(e),
        }
    }
}

impl Uleb128<i16> {
    /// Writes the integer, mapped by zigzag, as ULEB128 bytes, as `encode` does, with the
    /// same record of the calls made.
    pub fn encode<W: Writer>(&self, writer: &mut W) -> (r: Result<(), EncodeError>)
        ensures
            exists|lent: Seq<&mut W>, handed: Seq<&[u8]>, results: Seq<Result<(), EncodeError>>|
                #![trigger writes_in_turn(lent, handed, results, uleb128_bytes(zigzag(self.0 as int)))]
                {
                    &&& writes_in_turn(lent, handed, results, uleb128_bytes(zigzag(self.0 as int)))
                    &&& 1 <= lent.len()
                    &&& mut_ref_current(lent[0]) == *old(writer)
                    &&& mut_ref_future(lent.last()) == *final(writer)
                    &&& forall|i: int|
                        0 <= i < lent.len() - 1 ==> mut_ref_future(#[trigger] lent[i])
                            == mut_ref_current(lent[i + 1])
                    &&& forall|i: int| 0 <= i < lent.len() - 1 ==> #[trigger] results[i] is Ok
                    &&& results.last() == r
                    &&& r is Ok ==> lent.len() == uleb128_bytes(zigzag(self.0 as int)).len()
                },
            W::modelled() ==> (r is Ok <==> uleb128_bytes(zigzag(self.0 as int)).len() <= (*old(writer)).room()),
            W::modelled() && r is Ok ==> appends(*old(writer), *final(writer), uleb128_bytes(zigzag(self.0 as int))),
            W::modelled() && r is Err ==> r == Err::<(), EncodeError>(EncodeError::UnexpectedEnd)
                && appends(
                *old(writer),
                *final(writer),
                uleb128_bytes(zigzag(self.0 as int)).take((*old(writer)).room() as int),
            ),
    {
        let value = self.0;
        let zigzag = ((value as u16) << 1u32) ^ ((value >> (i16::BITS - 1)) as u16);
        proof {
            assert(zigzag == (if value >= 0 { 2 * value } else { -2 * value - 1 }) as u16)
                by (bit_vector)
                requires
                    zigzag == ((value as u16) << 1u32) ^ ((value >> ((i16::BITS - 1) as u32)) as u16),
            ;
            lemma_pow2_widths();
            lemma_zigzag_range(value as int, i16::BITS as nat);
        }
        encode(zigzag as u128, writer)
    }

    /// Reads the integer, mapped by zigzag, from the front of `bytes`, within the decoder's
    /// byte allowance `limit`, which must cover the integer's size in memory.
    pub fn decode(bytes: &[u8], limit: Option<usize>) -> (r: Result<(Self, usize), DecodeError>)
        ensures
            match decode_outcome(i16::BITS as int, 2, limit, bytes@) {
                Ok((v, n)) => r == Ok::<(Self, usize), DecodeError>(
                    (Uleb128(unzigzag(v) as i16), n as usize),
                ),
                Err(e) => r == Err::<(Self, usize), DecodeError>(e),
            },
    {
        if let Err(e) = claim_bytes_read(limit, 2) {
            return Err(e);
        }
        match decode(i16::BITS, bytes) {
            Ok((wide, used)) => {
                proof {
                    lemma_uleb128_decoded_fits(i16::BITS as int, bytes@);
                    lemma_pow2_widths();
                }
                let value = wide as u16;
                assert(value & 1 <= 1) by (bit_vector);
                let result = ((value >> 1u32) as i16) ^ -((value & 1) as i16);
                assert(result == (if value % 2 == 0 { (value / 2) as int } else {
                    -((value / 2) as int) - 1
                })) by (bit_vector)
                    requires
                        result == ((value >> 1u32) as i16) ^ ((-((value & 1) as i16)) as i16),
                ;
                Ok((Uleb128(result), used))
            },
            Err(e) => Err(e),
        }
    }
}

impl Uleb128<i32> {
    /// Writes the integer, mapped by zigzag, as ULEB128 bytes, as `encode` does, with the
    /// same record of the calls made.
    pub fn encode<W: Writer>(&self, writer: &mut W) -> (r: Result<(), EncodeError>)
        ensures
            exists|lent: Seq<&mut W>, handed: Seq<&[u8]>, results: Seq<Result<(), EncodeError>>|
                #![trigger writes_in_turn(lent, handed, results, uleb128_bytes(zigzag(self.0 as int)))]
                {
                    &&& writes_in_turn(lent, handed, results, uleb128_bytes(zigzag(self.0 as int)))
                    &&& 1 <= lent.len()
                    &&& mut_ref_current(lent[0]) == *old(writer)
                    &&& mut_ref_future(lent.last()) == *final(writer)
                    &&& forall|i: int|
                        0 <= i < lent.len() - 1 ==> mut_ref_future(#[trigger] lent[i])
                            == mut_ref_current(lent[i + 1])
                    &&& forall|i: int| 0 <= i < lent.len() - 1 ==> #[trigger] results[i] is Ok
                    &&& results.last() == r
                    &&& r is Ok ==> lent.len() == uleb128_bytes(zigzag(self.0 as int)).len()
                },
            W::modelled() ==> (r is Ok <==> uleb128_bytes(zigzag(self.0 as int)).len() <= (*old(writer)).room()),
            W::modelled() && r is Ok ==> appends(*old(writer), *final(writer), uleb128_bytes(zigzag(self.0 as int))),
            W::modelled() && r is Err ==> r == Err::<(), EncodeError>(EncodeError::UnexpectedEnd)
                && appends(
                *old(writer),
                *final(writer),
                uleb128_bytes(zigzag(self.0 as int)).take((*old(writer)).room() as int),
            ),
    {
        let value = self.0;
        let zigzag = ((value as u32) << 1u32) ^ ((value >> (i32::BITS - 1)) as u32);
        proof {
            assert(zigzag == (if value >= 0 { 2 * value } else { -2 * value - 1 }) as u32)
                by (bit_vector)
                requires
                    zigzag == ((value as u32) << 1u32) ^ ((value >> ((i32::BITS - 1) as u32)) as u32),
            ;
            lemma_pow2_widths();
            lemma_zigzag_range(value as int, i32::BITS as nat);
        }
        encode(zigzag as u128, writer)
    }

    /// Reads the integer, mapped by zigzag, from the front of `bytes`, within the decoder's
    /// byte allowance `limit`, which must cover the integer's size in memory.
    pub fn decode(bytes: &[u8], limit: Option<usize>) -> (r: Result<(Self, usize), DecodeError>)
        ensures
            match decode_outcome(i32::BITS as int, 4, limit, bytes@) {
                Ok((v, n)) => r == Ok::<(Self, usize), DecodeError>(
                    (Uleb128(unzigzag(v) as i32), n as usize),
                ),
                Err(e) => r == Err::<(Self, usize), DecodeError>(e),
            },
    {
        if let Err(e) = claim_bytes_read(limit, 4) {
            return Err(e);
        }
        match decode(i32::BITS, bytes) {
            Ok((wide, used)) => {
                proof {
                    lemma_uleb128_decoded_fits(i32::BITS as int, bytes@);
                    lemma_pow2_widths();
                }
                let value = wide as u32;
                assert(value & 1 <= 1) by (bit_vector);
                let result = ((value >> 1u32) as i32) ^ -((value & 1) as i32);
                assert(result == (if value % 2 == 0 { (value / 2) as int } else {
                    -((value / 2) as int) - 1
                })) by (bit_vector)
                    requires
                        result == ((value >> 1u32) as i32) ^ ((-((value & 1) as i32)) as i32),
                ;
                Ok((Uleb128(result), used))
            },
            Err(e) => Err(e),
        }
    }
}

impl Uleb128<i64> {
    /// Writes the integer, mapped by zigzag, as ULEB128 bytes, as `encode` does, with the
    /// same record of the calls made.
    pub fn encode<W: Writer>(&self, writer: &mut W) -> (r: Result<(), EncodeError>)
        ensures
            exists|lent: Seq<&mut W>, handed: Seq<&[u8]>, results: Seq<Result<(), EncodeError>>|
                #![trigger writes_in_turn(lent, handed, results, uleb128_bytes(zigzag(self.0 as int)))]
                {
                    &&& writes_in_turn(lent, handed, results, uleb128_bytes(zigzag(self.0 as int)))
                    &&& 1 <= lent.len()
                    &&& mut_ref_current(lent[0]) == *old(writer)
                    &&& mut_ref_future(lent.last()) == *final(writer)
                    &&& forall|i: int|
                        0 <= i < lent.len() - 1 ==> mut_ref_future(#[trigger] lent[i])
                            == mut_ref_current(lent[i + 1])
                    &&& forall|i: int| 0 <= i < lent.len() - 1 ==> #[trigger] results[i] is Ok
                    &&& results.last() == r
                    &&& r is Ok ==> lent.len() == uleb128_bytes(zigzag(self.0 as int)).len()
                },
            W::modelled() ==> (r is Ok <==> uleb128_bytes(zigzag(self.0 as int)).len() <= (*old(writer)).room()),
            W::modelled() && r is Ok ==> appends(*old(writer), *final(writer), uleb128_bytes(zigzag(self.0 as int))),
            W::modelled() && r is Err ==> r == Err::<(), EncodeError>(EncodeError::UnexpectedEnd)
                && appends(
                *old(writer),
                *final(writer),
                uleb128_bytes(zigzag(self.0 as int)).take((*old(writer)).room() as int),
            ),
    {
        let value = self.0;
        let zigzag = ((value as u64) << 1u32) ^ ((value >> (i64::BITS - 1)) as u64);
        proof {
            assert(zigzag == (if value >= 0 { 2 * value } else { -2 * value - 1 }) as u64)
                by (bit_vector)
                requires
                    zigzag == ((value as u64) << 1u32) ^ ((value >> ((i64::BITS - 1) as u32)) as u64),
            ;
            lemma_pow2_widths();
            lemma_zigzag_range(value as int, i64::BITS as nat);
        }
        encode(zigzag as u128, writer)
    }

    /// Reads the integer, mapped by zigzag, from the front of `bytes`, within the decoder's
    /// byte allowance `limit`, which must cover the integer's size in memory.
    pub fn decode(bytes: &[u8], limit: Option<usize>) -> (r: Result<(Self, usize), DecodeError>)
        ensures
            match decode_outcome(i64::BITS as int, 8, limit, bytes@) {
                Ok((v, n)) => r == Ok::<(Self, usize), DecodeError>(
                    (Uleb128(unzigzag(v) as i64), n as usize),
                ),
                Err(e) => r == Err::<(Self, usize), DecodeError>(e),
            },
    {
        if let Err(e) = claim_bytes_read(limit, 8) {
            return Err(e);
        }
        match decode(i64::BITS, bytes) {
            Ok((wide, used)) => {
                proof {
                    lemma_uleb128_decoded_fits(i64::BITS as int, bytes@);
                    lemma_pow2_widths();
                }
                let value = wide as u64;
                assert(value & 1 <= 1) by (bit_vector);
                let result = ((value >> 1u32) as i64) ^ -((value & 1) as i64);
                assert(result == (if value % 2 == 0 { (value / 2) as int } else {
                    -((value / 2) as int) - 1
                })) by (bit_vector)
                    requires
                        result == ((value >> 1u32) as i64) ^ ((-((value & 1) as i64)) as i64),
                ;
                Ok((Uleb128(result), used))
            },
            Err(e) => Err(e),
        }
    }
}

impl Uleb128<i128> {
    /// Writes the integer, mapped by zigzag, as ULEB128 bytes, as `encode` does, with the
    /// same record of the calls made.
    pub fn encode<W: Writer>(&self, writer: &mut W) -> (r: Result<(), EncodeError>)
        ensures
            exists|lent: Seq<&mut W>, handed: Seq<&[u8]>, results: Seq<Result<(), EncodeError>>|
                #![trigger writes_in_turn(lent, handed, results, uleb128_bytes(zigzag(self.0 as int)))]
                {
                    &&& writes_in_turn(lent, handed, results, uleb128_bytes(zigzag(self.0 as int)))
                    &&& 1 <= lent.len()
                    &&& mut_ref_current(lent[0]) == *old(writer)
                    &&& mut_ref_future(lent.last()) == *final(writer)
                    &&& forall|i: int|
                        0 <= i < lent.len() - 1 ==> mut_ref_future(#[trigger] lent[i])
                            == mut_ref_current(lent[i + 1])
                    &&& forall|i: int| 0 <= i < lent.len() - 1 ==> #[trigger] results[i] is Ok
                    &&& results.last() == r
                    &&& r is Ok ==> lent.len() == uleb128_bytes(zigzag(self.0 as int)).len()
                },
            W::modelled() ==> (r is Ok <==> uleb128_bytes(zigzag(self.0 as int)).len() <= (*old(writer)).room()),
            W::modelled() && r is Ok ==> appends(*old(writer), *final(writer), uleb128_bytes(zigzag(self.0 as int))),
            W::modelled() && r is Err ==> r == Err::<(), EncodeError>(EncodeError::UnexpectedEnd)
                && appends(
                *old(writer),
                *final(writer),
                uleb128_bytes(zigzag(self.0 as int)).take((*old(writer)).room() as int),
            ),
    {
        let value = self.0;
        let zigzag = ((value as u128) << 1u32) ^ ((value >> (i128::BITS - 1)) as u128);
        proof {
            assert(zigzag == (if value >= 0 { 2 * value } else { -2 * value - 1 }) as u128)
                by (bit_vector)
                requires
                    zigzag == ((value as u128) << 1u32) ^ ((value >> ((i128::BITS - 1) as u32)) as u128),
            ;
            lemma_pow2_widths();
            lemma_zigzag_range(value as int, i128::BITS as nat);
        }
        encode(zigzag as u128, writer)
    }

    /// Reads the integer, mapped by zigzag, from the front of `bytes`, within the decoder's
    /// byte allowance `limit`, which must cover the integer's size in memory.
    pub fn decode(bytes: &[u8], limit: Option<usize>) -> (r: Result<(Self, usize), DecodeError>)
        ensures
            match decode_outcome(i128::BITS as int, 16, limit, bytes@) {
                Ok((v, n)) => r == Ok::<(Self, usize), DecodeError>(
                    (Uleb128(unzigzag(v) as i128), n as usize),
                ),
                Err(e) => r == Err::<(Self, usize), DecodeError>(e),
            },
    {
        if let Err(e) = claim_bytes_read(limit, 16) {
            return Err(e);
        }
        match decode(i128::BITS, bytes) {
            Ok((wide, used)) => {
                proof {
                    lemma_uleb128_decoded_fits(i128::BITS as int, bytes@);
                    lemma_pow2_widths();
                }
                let value = wide as u128;
                assert(value & 1 <= 1) by (bit_vector);
                let result = ((value >> 1u32) as i128) ^ -((value & 1) as i128);
                assert(result == (if value % 2 == 0 { (value / 2) as int } else {
                    -((value / 2) as int) - 1
                })) by (bit_vector)
                    requires
                        result == ((value >> 1u32) as i128) ^ ((-((value & 1) as i128)) as i128),
                ;
                Ok((Uleb128(result), used))
            },
            Err(e) => Err(e),
        }
    }
}

impl Uleb128<isize> {
    /// Writes the integer, mapped by zigzag, as ULEB128 bytes, as `encode` does, with the
    /// same record of the calls made.
    pub fn encode<W: Writer>(&self, writer: &mut W) -> (r: Result<(), EncodeError>)
        ensures
            exists|lent: Seq<&mut W>, handed: Seq<&[u8]>, results: Seq<Result<(), EncodeError>>|
                #![trigger writes_in_turn(lent, handed, results, uleb128_bytes(zigzag(self.0 as int)))]
                {
                    &&& writes_in_turn(lent, handed, results, uleb128_bytes(zigzag(self.0 as int)))
                    &&& 1 <= lent.len()
                    &&& mut_ref_current(lent[0]) == *old(writer)
                    &&& mut_ref_future(lent.last()) == *final(writer)
                    &&& forall|i: int|
                        0 <= i < lent.len() - 1 ==> mut_ref_future(#[trigger] lent[i])
                            == mut_ref_current(lent[i + 1])
                    &&& forall|i: int| 0 <= i < lent.len() - 1 ==> #[trigger] results[i] is Ok
                    &&& results.last() == r
                    &&& r is Ok ==> lent.len() == uleb128_bytes(zigzag(self.0 as int)).len()
                },
            W::modelled() ==> (r is Ok <==> uleb128_bytes(zigzag(self.0 as int)).len() <= (*old(writer)).room()),
            W::modelled() && r is Ok ==> appends(*old(writer), *final(writer), uleb128_bytes(zigzag(self.0 as int))),
            W::modelled() && r is Err ==> r == Err::<(), EncodeError>(EncodeError::UnexpectedEnd)
                && appends(
                *old(writer),
                *final(writer),
                uleb128_bytes(zigzag(self.0 as int)).take((*old(writer)).room() as int),
            ),
    {
        let value = self.0;
        let zigzag = ((value as usize) << 1u32) ^ ((value >> (isize::BITS - 1)) as usize);
        proof {
            assert(zigzag == (if value >= 0 { 2 * value } else { -2 * value - 1 }) as usize)
                by (bit_vector)
                requires
                    zigzag == ((value as usize) << 1u32) ^ ((value >> ((isize::BITS - 1) as u32)) as usize),
            ;
            lemma_pow2_widths();
            lemma_zigzag_range(value as int, isize::BITS as nat);
        }
        encode(zigzag as u128, writer)
    }

    /// Reads the integer, mapped by zigzag, from the front of `bytes`, within the decoder's
    /// byte allowance `limit`, which must cover the integer's size in memory.
    pub fn decode(bytes: &[u8], limit: Option<usize>) -> (r: Result<(Self, usize), DecodeError>)
        ensures
            match decode_outcome(isize::BITS as int, (usize::BITS / 8) as nat, limit, bytes@) {
                Ok((v, n)) => r == Ok::<(Self, usize), DecodeError>(
                    (Uleb128(unzigzag(v) as isize), n as usize),
                ),
                Err(e) => r == Err::<(Self, usize), DecodeError>(e),
            },
    {
        if let Err(e) = claim_bytes_read(limit, (usize::BITS / 8) as usize) {
            return Err(e);
        }
        match decode(isize::BITS, bytes) {
            Ok((wide, used)) => {
                proof {
                    lemma_uleb128_decoded_fits(isize::BITS as int, bytes@);
                    lemma_pow2_widths();
                }
                let value = wide as usize;
                assert(value & 1 <= 1) by (bit_vector);
                let result = ((value >> 1u32) as isize) ^ -((value & 1) as isize);
                assert(result == (if value % 2 == 0 { (value / 2) as int } else {
                    -((value / 2) as int) - 1
                })) by (bit_vector)
                    requires
                        result == ((value >> 1u32) as isize) ^ ((-((value & 1) as isize)) as isize),
                ;
                Ok((Uleb128(result), used))
            },
            Err(e) => Err(e),
        }
    }
}

} // verus!
