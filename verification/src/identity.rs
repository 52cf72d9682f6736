//! Identities: 128-bit numbers that the server hands out, and the text that
//! stands for them on the wire.

use uuid::Uuid;
use vstd::prelude::*;

verus! {

/// The byte `-`.
pub const HYPHEN: u8 = 0x2d;

/// The lower-case ASCII character for a hexadecimal digit (0 to 15).
pub open spec fn hex_character(digit: int) -> u8 {
    if digit < 10 {
        (0x30 + digit) as u8
    } else {
        (0x57 + digit) as u8
    }
}

/// 16 to the power `n`.
pub open spec fn sixteen_to(n: nat) -> nat
    decreases n,
{
    if n == 0 {
        1
    } else {
        16 * sixteen_to((n - 1) as nat)
    }
}

/// The `k`-th of the 32 hexadecimal digits of `id`, counted from the most
/// significant, which is digit 0.
pub open spec fn digit(id: u128, k: int) -> int {
    (id as int / sixteen_to((31 - k) as nat) as int) % 16
}

/// The 32 hexadecimal digits of `id` as lower-case ASCII text.
pub open spec fn digits(id: u128) -> Seq<u8> {
    Seq::new(32, |k: int| hex_character(digit(id, k)))
}

/// The text of an identity: its 32 hexadecimal digits in groups of 8, 4, 4, 4
/// and 12, with a hyphen between neighbouring groups.
pub open spec fn hyphenated(id: u128) -> Seq<u8> {
    let d = digits(id);
    d.subrange(0, 8) + seq![HYPHEN] + d.subrange(8, 12) + seq![HYPHEN] + d.subrange(12, 16)
        + seq![HYPHEN] + d.subrange(16, 20) + seq![HYPHEN] + d.subrange(20, 32)
}

/// True of the identities that carry the marks of a time-ordered identity:
/// digit 12 is the version, 7, and digit 16 holds the variant, binary 10 in its
/// upper two bits.
pub open spec fn time_ordered(id: u128) -> bool {
    digit(id, 12) == 7 && 8 <= digit(id, 16) <= 11
}

/// Calls `Uuid::now_v7` and hands the result back as a number, by
/// `Uuid::as_u128`. The result depends on the clock and on random bytes, so
/// the contract states only what every version 7 UUID has: the version and the
/// variant. The call panics where the system gives no random bytes or its
/// clock stands before 1970.
#[verifier::external_body]
pub(crate) fn candidate_identity() -> (id: u128)
    ensures
        time_ordered(id),
{
    Uuid::now_v7().as_u128()
}

/// Calls `Uuid::from_u128` and formats the result with its `Display`, which
/// writes the hyphenated lower-case form: 36 ASCII bytes.
#[verifier::external_body]
pub(crate) fn identity_text(id: u128) -> (text: Vec<u8>)
    ensures
        text@ == hyphenated(id),
{
    Uuid::from_u128(id).to_string().into_bytes()
}

/// The text of an identity is 36 bytes long, and each of them is a hyphen, a
/// digit or a letter from `a` to `f`.
pub proof fn lemma_hyphenated_shape(id: u128)
    ensures
        hyphenated(id).len() == 36,
        forall|i: int|
            0 <= i < 36 ==> {
                let b = #[trigger] hyphenated(id)[i];
                b == HYPHEN || (0x30 <= b <= 0x39) || (0x61 <= b <= 0x66)
            },
{
    let d = digits(id);
    assert forall|k: int| 0 <= k < 32 implies (0x30 <= #[trigger] d[k] <= 0x39) || (0x61 <= d[k]
        <= 0x66) by {
        let v = digit(id, k);
        assert(0 <= v < 16);
    }
    assert forall|i: int| 0 <= i < 36 implies {
        let b = #[trigger] hyphenated(id)[i];
        b == HYPHEN || (0x30 <= b <= 0x39) || (0x61 <= b <= 0x66)
    } by {
        let b = hyphenated(id)[i];
        if i < 8 {
            assert(b == d[i]);
        } else if i == 8 {
        } else if i < 13 {
            assert(b == d[i - 1]);
        } else if i == 13 {
        } else if i < 18 {
            assert(b == d[i - 2]);
        } else if i == 18 {
        } else if i < 23 {
            assert(b == d[i - 3]);
        } else if i == 23 {
        } else {
            assert(b == d[i - 4]);
        }
    }
}

} // verus!
