use vstd::prelude::*;

verus! {

/// Unsigned LEB128: seven data bits per byte, low bits first, the high bit
/// set on every byte but the last.
pub open spec fn uleb(v: nat) -> Seq<u8>
    decreases v,
{
    if v < 128 {
        seq![v as u8]
    } else {
        seq![(v % 128 + 128) as u8] + uleb(v / 128)
    }
}

/// Signed LEB128: as `uleb`, on the two's-complement value, ending on the
/// first byte whose bit 6 carries the sign of what remains.
pub open spec fn sleb(v: int) -> Seq<u8>
    decreases (if v < 0 { -v } else { v }),
{
    if -64 <= v < 64 {
        seq![(v % 128) as u8]
    } else {
        seq![(v % 128 + 128) as u8] + sleb(v / 128)
    }
}

/// Relies on leb128::write::unsigned: it writes the unsigned LEB128 bytes of
/// `v` to the end of the vector, and writing to a `Vec` does not fail.
#[verifier::external_body]
pub(crate) fn write_uleb(buf: &mut Vec<u8>, v: u64)
    ensures
        final(buf)@ == old(buf)@ + uleb(v as nat),
{
    let _ = leb128::write::unsigned(buf, v);
}

/// Relies on leb128::write::signed: it writes the signed LEB128 bytes of `v`
/// to the end of the vector, and writing to a `Vec` does not fail.
#[verifier::external_body]
pub(crate) fn write_sleb(buf: &mut Vec<u8>, v: i64)
    ensures
        final(buf)@ == old(buf)@ + sleb(v as int),
{
    let _ = leb128::write::signed(buf, v);
}

/// The number of bytes that `uleb` takes for `v`: the least `n >= 1` with
/// `v < 128^n`, that is `ceil(bits / 7)` for `v > 0`.
pub open spec fn uleb_len(v: nat) -> nat
    decreases v,
{
    if v < 128 {
        1
    } else {
        1 + uleb_len(v / 128)
    }
}

/// Every byte of an unsigned LEB128 encoding but the last has its
/// continuation bit set, the last has it clear, and the length is
/// `uleb_len(v)`.
pub proof fn lemma_uleb_shape(v: nat)
    ensures
        uleb(v).len() == uleb_len(v),
        uleb(v).last() < 128,
        forall|i: int| 0 <= i < uleb(v).len() - 1 ==> uleb(v)[i] >= 128,
    decreases v,
{
    if v >= 128 {
        lemma_uleb_shape(v / 128);
        let rest = uleb(v / 128);
        assert(uleb(v) =~= seq![(v % 128 + 128) as u8] + rest);
        assert forall|i: int| 0 <= i < uleb(v).len() - 1 implies uleb(v)[i] >= 128 by {
            if i > 0 {
                assert(uleb(v)[i] == rest[i - 1]);
            }
        }
    }
}

/// `uleb(v)` fits in `n` bytes exactly when `v < 128^n`.
pub proof fn lemma_uleb_len_bound(v: nat, n: nat)
    requires
        n >= 1,
    ensures
        uleb(v).len() <= n <==> v < pow128(n),
    decreases n,
{
    lemma_uleb_shape(v);
    if n > 1 {
        if v >= 128 {
            lemma_uleb_len_bound(v / 128, (n - 1) as nat);
            lemma_uleb_shape(v / 128);
            assert(v / 128 < pow128((n - 1) as nat) <==> v < pow128(n)) by (nonlinear_arith)
                requires pow128(n) == 128 * pow128((n - 1) as nat);
        } else {
            lemma_pow128_ge(n);
        }
    } else {
        reveal_with_fuel(pow128, 2);
    }
}

/// `128^n`.
pub open spec fn pow128(n: nat) -> nat
    decreases n,
{
    if n == 0 {
        1
    } else {
        128 * pow128((n - 1) as nat)
    }
}

proof fn lemma_pow128_ge(n: nat)
    requires
        n >= 1,
    ensures
        pow128(n) >= 128,
    decreases n,
{
    reveal_with_fuel(pow128, 2);
    if n > 1 {
        lemma_pow128_ge((n - 1) as nat);
    }
}

/// The small values of the unsigned encoding: `0 -> [0x00]`,
/// `127 -> [0x7F]`, `128 -> [0x80, 0x01]`.
pub proof fn lemma_uleb_small()
    ensures
        uleb(0) == seq![0x00u8],
        uleb(127) == seq![0x7Fu8],
        uleb(128) == seq![0x80u8, 0x01u8],
{
    reveal_with_fuel(uleb, 2);
    assert(uleb(128) =~= seq![0x80u8, 0x01u8]);
}

} // verus!
