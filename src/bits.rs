use vstd::arithmetic::div_mod::{lemma_div_denominator, lemma_fundamental_div_mod};
use vstd::arithmetic::power2::{lemma2_to64, lemma_pow2_pos, lemma_pow2_unfold, pow2};
use vstd::prelude::*;

verus! {

/// Bit `k` of `byte`, counted from the least significant bit (`0`).
pub open spec fn bit_at(byte: u8, k: nat) -> u8 {
    ((byte as nat / pow2(k)) % 2) as u8
}

/// What `from_byte_to_bits(byte, buffer, iter)` leaves at slot `j`: slots up to
/// `iter` receive the significant binary digits of `byte`, the least
/// significant one at `iter`; every other slot keeps the buffer's value.
pub open spec fn expanded_slot(byte: u8, buffer: [u8; 8], iter: int, j: int) -> u8 {
    if j <= iter && byte as nat / pow2((iter - j) as nat) != 0 {
        bit_at(byte, (iter - j) as nat)
    } else {
        buffer[j]
    }
}

/// The eight binary digits of `byte`, most significant first.
pub open spec fn bits_of_byte(byte: u8) -> Seq<u8> {
    Seq::new(8, |i: int| bit_at(byte, (7 - i) as nat))
}

/// The bits of a byte sequence: eight for each byte, most significant first,
/// in byte order.
pub open spec fn bits_of_bytes(bytes: Seq<u8>) -> Seq<u8> {
    Seq::new(8 * bytes.len(), |i: int| bits_of_byte(bytes[i / 8])[i % 8])
}

/// The number that a sequence of binary digits spells, its first digit the
/// most significant.
pub open spec fn value_of_bits(bits: Seq<u8>) -> nat
    decreases bits.len(),
{
    if bits.len() == 0 {
        0
    } else {
        2 * value_of_bits(bits.drop_last()) + bits.last() as nat
    }
}

proof fn lemma_halve_shift(byte: u8, m: nat)
    ensures
        (byte / 2) as nat / pow2(m) == byte as nat / pow2(m + 1),
{
    lemma_pow2_pos(m);
    lemma_div_denominator(byte as int, 2, pow2(m) as int);
    lemma_pow2_unfold(m + 1);
}

/// Expanding into an all-zero buffer from its last slot gives exactly the
/// eight binary digits of the byte.
pub proof fn lemma_expand_into_zeros(byte: u8, buffer: [u8; 8])
    requires
        forall|j: int| 0 <= j < 8 ==> buffer[j] == 0,
    ensures
        (byte as nat) < pow2(8),
        forall|j: int|
            0 <= j < 8 ==> #[trigger] expanded_slot(byte, buffer, 7, j) == bits_of_byte(byte)[j],
{
    lemma2_to64();
    assert forall|j: int| 0 <= j < 8 implies #[trigger] expanded_slot(byte, buffer, 7, j)
        == bits_of_byte(byte)[j] by {
        lemma_pow2_pos((7 - j) as nat);
    }
}

proof fn lemma_prefix_value(byte: u8, m: nat)
    requires
        m <= 8,
    ensures
        value_of_bits(bits_of_byte(byte).subrange(0, m as int)) == byte as nat / pow2(
            (8 - m) as nat,
        ),
    decreases m,
{
    let s = bits_of_byte(byte).subrange(0, m as int);
    if m == 0 {
        lemma2_to64();
    } else {
        lemma_prefix_value(byte, (m - 1) as nat);
        assert(s.drop_last() =~= bits_of_byte(byte).subrange(0, m - 1));
        let e = (8 - m) as nat;
        let q = byte as nat / pow2(e);
        lemma_pow2_pos(e);
        lemma_pow2_unfold(e + 1);
        lemma_div_denominator(byte as int, pow2(e) as int, 2);
        lemma_fundamental_div_mod(q as int, 2);
        assert(s.last() == bit_at(byte, e));
    }
}

/// Reading the eight digits of a byte back, the first as the most
/// significant, gives the byte.
pub proof fn lemma_byte_value(byte: u8)
    ensures
        value_of_bits(bits_of_byte(byte)) == byte as nat,
{
    lemma_prefix_value(byte, 8);
    assert(bits_of_byte(byte).subrange(0, 8) =~= bits_of_byte(byte));
    lemma2_to64();
}

/// Expanding bytes gives eight bits per byte, and each run of eight
/// consecutive bits, the first as the most significant, spells the byte it
/// came from.
pub proof fn lemma_bits_reassemble(bytes: Seq<u8>)
    ensures
        bits_of_bytes(bytes).len() == 8 * bytes.len(),
        forall|i: int|
            0 <= i < bytes.len() ==> value_of_bits(
                #[trigger] bits_of_bytes(bytes).subrange(8 * i, 8 * i + 8),
            ) == bytes[i] as nat,
{
    assert forall|i: int| 0 <= i < bytes.len() implies value_of_bits(
        #[trigger] bits_of_bytes(bytes).subrange(8 * i, 8 * i + 8),
    ) == bytes[i] as nat by {
        let s = bits_of_bytes(bytes).subrange(8 * i, 8 * i + 8);
        assert forall|j: int| 0 <= j < 8 implies s[j] == bits_of_byte(bytes[i])[j] by {
            assert((8 * i + j) / 8 == i && (8 * i + j) % 8 == j) by (nonlinear_arith)
                requires
                    0 <= j < 8,
                    0 <= i,
            ;
            assert(8 * i + j < 8 * bytes.len()) by (nonlinear_arith)
                requires
                    0 <= j < 8,
                    i < bytes.len(),
            ;
        }
        assert(s =~= bits_of_byte(bytes[i]));
        lemma_byte_value(bytes[i]);
    }
}

/// Writes the binary digits of `byte` into `buffer`, the least significant
/// at slot `iter` and each next one a slot further to the front, and
/// returns the buffer.
pub fn from_byte_to_bits(byte: u8, buffer: [u8; 8], iter: usize) -> (r: [u8; 8])
    requires
        byte == 0 || (iter < 8 && (byte as nat) < pow2((iter + 1) as nat)),
    ensures
        forall|j: int| 0 <= j < 8 ==> #[trigger] r[j] == expanded_slot(byte, buffer, iter as int, j),
    decreases iter,
{
    if byte == 0 {
        proof {
            assert forall|j: int| 0 <= j < 8 implies #[trigger] buffer[j] == expanded_slot(
                byte,
                buffer,
                iter as int,
                j,
            ) by {
                lemma_pow2_pos((iter - j) as nat);
            }
        }
        return buffer;
    } else if byte == 1 {
        let mut arr = buffer;
        arr[iter] = 1;
        proof {
            assert forall|j: int| 0 <= j < 8 implies #[trigger] arr[j] == expanded_slot(
                byte,
                buffer,
                iter as int,
                j,
            ) by {
                if j < iter {
                    lemma_pow2_pos((iter - j - 1) as nat);
                    lemma_halve_shift(byte, (iter - j - 1) as nat);
                    assert(byte as nat / pow2((iter - j) as nat) == 0);
                    assert(arr[j] == buffer[j]);
                } else if j == iter {
                    lemma2_to64();
                    assert(bit_at(byte, 0) == 1);
                    assert(arr[j] == 1);
                } else {
                    assert(arr[j] == buffer[j]);
                }
            }
        }
        return arr;
    } else {
        let reste = byte % 2;
        let dividende = byte / 2;
        proof {
            lemma_halve_shift(byte, iter as nat);
            lemma_pow2_pos(iter as nat);
            lemma_pow2_unfold((iter + 1) as nat);
            assert(iter > 0) by {
                lemma2_to64();
            }
        }
        let mut arr = from_byte_to_bits(dividende, buffer, iter - 1);
        arr[iter] = reste;
        proof {
            assert forall|j: int| 0 <= j < 8 implies #[trigger] arr[j] == expanded_slot(
                byte,
                buffer,
                iter as int,
                j,
            ) by {
                if j < iter {
                    let m = (iter - 1 - j) as nat;
                    lemma_halve_shift(byte, m);
                    assert(m + 1 == (iter - j) as nat);
                    assert(bit_at(dividende, m) == bit_at(byte, m + 1));
                    assert(arr[j] == expanded_slot(dividende, buffer, iter - 1, j));
                } else if j == iter {
                    lemma2_to64();
                    assert(bit_at(byte, 0) == reste);
                    assert(arr[j] == reste);
                } else {
                    assert(arr[j] == buffer[j]);
                }
            }
        }
        arr
    }
}

} // verus!
