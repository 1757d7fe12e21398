//! Order-preserving byte keys.
//!
//! Every range bound in the crate is a fixed-width big-endian byte string;
//! `be_value` is its numeric reading. Unsigned lexicographic order on the
//! bytes equals numeric order on the values, so a plain sorted index can
//! answer range queries. The per-byte mask helpers here carve a prefix
//! length into the masks each byte position needs.

use vstd::prelude::*;

verus! {

/// Numeric value of a big-endian byte string.
pub open spec fn be_value(s: Seq<u8>) -> int
    decreases s.len(),
{
    if s.len() == 0 {
        0
    } else {
        be_value(s.drop_last()) * 256 + s.last()
    }
}

/// 256 to the n-th power.
pub open spec fn pow256(n: nat) -> nat
    decreases n,
{
    if n == 0 {
        1
    } else {
        256 * pow256((n - 1) as nat)
    }
}

pub proof fn lemma_pow256_mono(m: nat, n: nat)
    requires
        m <= n,
    ensures
        pow256(m) <= pow256(n),
    decreases n,
{
    if m < n {
        lemma_pow256_mono(m, (n - 1) as nat);
    }
}

/// A byte string's value is non-negative and below 256^length.
pub proof fn lemma_be_value_bound(s: Seq<u8>)
    ensures
        0 <= be_value(s) < pow256(s.len()),
    decreases s.len(),
{
    if s.len() > 0 {
        lemma_be_value_bound(s.drop_last());
    }
}

/// Pointwise byte order implies numeric order: the encoding preserves order.
pub proof fn lemma_be_value_le(a: Seq<u8>, b: Seq<u8>)
    requires
        a.len() == b.len(),
        forall|i: int| 0 <= i < a.len() ==> a[i] <= b[i],
    ensures
        be_value(a) <= be_value(b),
    decreases a.len(),
{
    if a.len() > 0 {
        assert(forall|i: int| 0 <= i < a.drop_last().len() ==> a.drop_last()[i] <= b.drop_last()[i]);
        lemma_be_value_le(a.drop_last(), b.drop_last());
        assert(a.last() <= b.last());
    }
}

/// Strict lexicographic order on equal-length byte strings: the two
/// agree up to some position and differ in the first string's favour
/// there.
pub open spec fn lex_lt(a: Seq<u8>, b: Seq<u8>) -> bool {
    exists|i: int|
        #![trigger a[i], b[i]]
        0 <= i < a.len() && i < b.len() && (forall|j: int| 0 <= j < i ==> a[j] == b[j]) && a[i]
            < b[i]
}

/// The earlier string is numerically smaller.
proof fn lemma_lex_lt_value(a: Seq<u8>, b: Seq<u8>)
    requires
        a.len() == b.len(),
        lex_lt(a, b),
    ensures
        be_value(a) < be_value(b),
    decreases a.len(),
{
    let i = choose|i: int|
        #![trigger a[i], b[i]]
        0 <= i < a.len() && i < b.len() && (forall|j: int| 0 <= j < i ==> a[j] == b[j]) && a[i]
            < b[i];
    if i == a.len() - 1 {
        assert(a.drop_last() =~= b.drop_last());
        assert(be_value(a.drop_last()) == be_value(b.drop_last()));
    } else {
        assert(a.drop_last()[i] < b.drop_last()[i]);
        assert(lex_lt(a.drop_last(), b.drop_last()));
        lemma_lex_lt_value(a.drop_last(), b.drop_last());
        assert(be_value(a) == be_value(a.drop_last()) * 256 + a.last());
        assert(be_value(b) == be_value(b.drop_last()) * 256 + b.last());
    }
}

/// Two distinct equal-length byte strings are lexicographically ordered
/// one way or the other.
proof fn lemma_lex_total(a: Seq<u8>, b: Seq<u8>)
    requires
        a.len() == b.len(),
        !(a =~= b),
    ensures
        lex_lt(a, b) || lex_lt(b, a),
    decreases a.len(),
{
    assert(a.len() > 0) by {
        if a.len() == 0 {
            assert(a =~= b);
        }
    };
    if a[0] != b[0] {
        if a[0] < b[0] {
            assert(lex_lt(a, b));
        } else {
            assert(lex_lt(b, a));
        }
    } else {
        assert(!(a.drop_first() =~= b.drop_first())) by {
            if a.drop_first() =~= b.drop_first() {
                assert forall|j: int| 0 <= j < a.len() implies a[j] == b[j] by {
                    if j > 0 {
                        assert(a.drop_first()[j - 1] == b.drop_first()[j - 1]);
                    }
                };
                assert(a =~= b);
            }
        };
        lemma_lex_total(a.drop_first(), b.drop_first());
        if lex_lt(a.drop_first(), b.drop_first()) {
            let i = choose|i: int|
                #![trigger a.drop_first()[i], b.drop_first()[i]]
                0 <= i < a.drop_first().len() && i < b.drop_first().len() && (forall|j: int|
                    0 <= j < i ==> a.drop_first()[j] == b.drop_first()[j]) && a.drop_first()[i]
                    < b.drop_first()[i];
            assert(a[i + 1] < b[i + 1]);
            assert forall|j: int| 0 <= j < i + 1 implies a[j] == b[j] by {
                if j > 0 {
                    assert(a.drop_first()[j - 1] == b.drop_first()[j - 1]);
                }
            };
            assert(lex_lt(a, b));
        } else {
            let i = choose|i: int|
                #![trigger b.drop_first()[i], a.drop_first()[i]]
                0 <= i < b.drop_first().len() && i < a.drop_first().len() && (forall|j: int|
                    0 <= j < i ==> b.drop_first()[j] == a.drop_first()[j]) && b.drop_first()[i]
                    < a.drop_first()[i];
            assert(b[i + 1] < a[i + 1]);
            assert forall|j: int| 0 <= j < i + 1 implies b[j] == a[j] by {
                if j > 0 {
                    assert(b.drop_first()[j - 1] == a.drop_first()[j - 1]);
                }
            };
            assert(lex_lt(b, a));
        }
    }
}

/// The byte key preserves order: on equal-length byte strings, unsigned
/// lexicographic order is exactly numeric order of the values. An
/// ordinary sorted index over the keys therefore answers range queries
/// over the values correctly.
pub proof fn lemma_sort_key_order(a: Seq<u8>, b: Seq<u8>)
    requires
        a.len() == b.len(),
    ensures
        lex_lt(a, b) <==> be_value(a) < be_value(b),
{
    if lex_lt(a, b) {
        lemma_lex_lt_value(a, b);
    }
    if be_value(a) < be_value(b) {
        if a =~= b {
            assert(false);
        } else {
            lemma_lex_total(a, b);
            if lex_lt(b, a) {
                lemma_lex_lt_value(b, a);
            }
        }
    }
}

/// How many of a prefix length's bits fall into byte position `i`.
pub open spec fn bits_in_byte(len: int, i: int) -> int {
    if len >= 8 * (i + 1) {
        8
    } else if len <= 8 * i {
        0
    } else {
        len - 8 * i
    }
}

/// The subnet-mask byte with the given number of leading one bits.
pub open spec fn mask_byte_val(bits: int) -> u8 {
    if bits <= 0 {
        0x00
    } else if bits == 1 {
        0x80
    } else if bits == 2 {
        0xc0
    } else if bits == 3 {
        0xe0
    } else if bits == 4 {
        0xf0
    } else if bits == 5 {
        0xf8
    } else if bits == 6 {
        0xfc
    } else if bits == 7 {
        0xfe
    } else {
        0xff
    }
}

/// The wildcard-mask byte: complement of the subnet-mask byte.
pub open spec fn wild_byte_val(bits: int) -> u8 {
    (0xff - mask_byte_val(bits)) as u8
}

/// Mask byte for byte position `i` under prefix length `len`.
pub fn mask_byte(len: u8, i: usize) -> (r: u8)
    requires
        i < 16,
    ensures
        r == mask_byte_val(bits_in_byte(len as int, i as int)),
{
    let floor: usize = 8 * i;
    if len as usize >= floor + 8 {
        0xff
    } else if len as usize <= floor {
        0x00
    } else {
        let bits: usize = len as usize - floor;
        if bits == 1 {
            0x80
        } else if bits == 2 {
            0xc0
        } else if bits == 3 {
            0xe0
        } else if bits == 4 {
            0xf0
        } else if bits == 5 {
            0xf8
        } else if bits == 6 {
            0xfc
        } else {
            0xfe
        }
    }
}

/// Wildcard byte for byte position `i` under prefix length `len`.
pub fn wild_byte(len: u8, i: usize) -> (r: u8)
    requires
        i < 16,
    ensures
        r == wild_byte_val(bits_in_byte(len as int, i as int)),
{
    let m: u8 = mask_byte(len, i);
    0xff - m
}

/// Anding a mask cannot raise a byte; oring a wildcard cannot lower it,
/// and the two results bracket the byte itself.
pub proof fn lemma_mask_bracket(a: u8, m: u8)
    ensures
        (a & m) <= a,
        a <= (a | ((0xff - m) as u8)),
        (a & m) <= (a | ((0xff - m) as u8)),
{
    assert((a & m) <= a && a <= (a | ((0xff - m) as u8))) by (bit_vector);
}

/// The subnet mask of a prefix length, over `n` bytes.
pub open spec fn mask_bytes(n: int, len: int) -> Seq<u8> {
    Seq::new(n as nat, |i: int| mask_byte_val(bits_in_byte(len, i)))
}

/// The wildcard mask of a prefix length, over `n` bytes.
pub open spec fn wild_bytes(n: int, len: int) -> Seq<u8> {
    Seq::new(n as nat, |i: int| wild_byte_val(bits_in_byte(len, i)))
}

/// The network address: the address with all bits beyond the prefix
/// length cleared — the lowest address of the block.
pub open spec fn network_bytes(ip: Seq<u8>, len: int) -> Seq<u8> {
    Seq::new(ip.len(), |i: int| ip[i] & mask_byte_val(bits_in_byte(len, i)))
}

/// The broadcast address: the address with all bits beyond the prefix
/// length set — the highest address of the block.
pub open spec fn broadcast_bytes(ip: Seq<u8>, len: int) -> Seq<u8> {
    Seq::new(ip.len(), |i: int| ip[i] | wild_byte_val(bits_in_byte(len, i)))
}

/// An address is normalized at a prefix length when it equals its own
/// network address: no set bits beyond the prefix boundary.
pub open spec fn normalized(ip: Seq<u8>, len: int) -> bool {
    network_bytes(ip, len) =~= ip
}

/// The network and broadcast addresses bracket the address itself, and
/// one another, in numeric value.
pub proof fn lemma_net_bcast_bracket(ip: Seq<u8>, len: int)
    ensures
        be_value(network_bytes(ip, len)) <= be_value(ip),
        be_value(ip) <= be_value(broadcast_bytes(ip, len)),
        be_value(network_bytes(ip, len)) <= be_value(broadcast_bytes(ip, len)),
{
    assert forall|i: int| 0 <= i < ip.len() implies network_bytes(ip, len)[i] <= ip[i]
        && ip[i] <= broadcast_bytes(ip, len)[i] by {
        lemma_mask_bracket(ip[i], mask_byte_val(bits_in_byte(len, i)));
    };
    lemma_be_value_le(network_bytes(ip, len), ip);
    lemma_be_value_le(ip, broadcast_bytes(ip, len));
}

/// The mask byte is one of the nine leading-ones patterns.
pub open spec fn is_mask_byte(m: u8) -> bool {
    m == 0x00 || m == 0x80 || m == 0xc0 || m == 0xe0 || m == 0xf0 || m == 0xf8 || m == 0xfc || m
        == 0xfe || m == 0xff
}

/// Facts about a leading-ones mask byte: filling the wildcard bits of a
/// masked byte reaches at most the next masked value, masking is
/// idempotent, and filling commutes with masking.
proof fn lemma_mask_byte_facts(x: u8, y: u8, m: u8)
    by (bit_vector)
    requires
        is_mask_byte(m),
    ensures
        ((x & m) | !m) == (x | !m),
        ((x & m) & m) == (x & m),
        (x & m) < (y & m) ==> ((x & m) | !m) < (y & m),
{
}

/// A byte's wildcard fill shrinks as the mask grows.
proof fn lemma_wild_monotone(x: u8, m1: u8, m2: u8)
    by (bit_vector)
    requires
        is_mask_byte(m1),
        is_mask_byte(m2),
        m1 <= m2,
    ensures
        (x | !m2) <= (x | !m1),
{
}

/// The wildcard byte is the mask byte's complement.
proof fn lemma_wild_is_not(bits: int)
    ensures
        wild_byte_val(bits) == !mask_byte_val(bits),
{
    assert(!0x00u8 == 0xffu8 && !0x80u8 == 0x7fu8 && !0xc0u8 == 0x3fu8 && !0xe0u8 == 0x1fu8
        && !0xf0u8 == 0x0fu8 && !0xf8u8 == 0x07u8 && !0xfcu8 == 0x03u8 && !0xfeu8 == 0x01u8
        && !0xffu8 == 0x00u8) by (bit_vector);
}

/// The blocks of two aligned prefixes intersect exactly when the more
/// specific prefix lies inside the less specific one: its address
/// truncated to the shorter length is that prefix's address. This is why
/// two complementary indexed queries find every overlap — one for
/// siblings whose key falls inside the candidate's block, one probing
/// the candidate's address truncated to each shorter length.
pub proof fn lemma_aligned_overlap(a: Seq<u8>, la: int, b: Seq<u8>, lb: int)
    requires
        a.len() == b.len(),
        0 <= la <= lb <= 8 * a.len(),
        normalized(a, la),
        normalized(b, lb),
    ensures
        (be_value(a) <= be_value(broadcast_bytes(b, lb)) && be_value(b) <= be_value(
            broadcast_bytes(a, la),
        )) <==> network_bytes(b, la) =~= a,
{
    let n = a.len() as int;
    let c = network_bytes(b, la);
    let ba = broadcast_bytes(a, la);
    let bb = broadcast_bytes(b, lb);
    assert forall|i: int| 0 <= i < n implies is_mask_byte(
        #[trigger] mask_byte_val(bits_in_byte(la, i)),
    ) && is_mask_byte(mask_byte_val(bits_in_byte(lb, i))) by {};
    if c =~= a {
        // the longer prefix's block sits inside the shorter one's
        assert forall|i: int| 0 <= i < n implies c[i] <= b[i] && b[i] <= ba[i] by {
            let m = mask_byte_val(bits_in_byte(la, i));
            lemma_mask_bracket(b[i], m);
            lemma_mask_byte_facts(b[i], b[i], m);
            lemma_wild_is_not(bits_in_byte(la, i));
            assert(ba[i] == (a[i] | !m));
            assert(a[i] == (b[i] & m));
        };
        lemma_be_value_le(c, b);
        lemma_be_value_le(b, ba);
        lemma_net_bcast_bracket(b, lb);
        assert(be_value(a) == be_value(c));
    }
    if !(c =~= a) {
        // the blocks are disjoint; find the first byte where the
        // truncated address differs from the shorter prefix's
        assert forall|i: int| 0 <= i < n implies (#[trigger] a[i]) == (a[i] & mask_byte_val(
            bits_in_byte(la, i),
        )) && c[i] == (c[i] & mask_byte_val(bits_in_byte(la, i))) && c[i] == (b[i]
            & mask_byte_val(bits_in_byte(la, i))) by {
            let m = mask_byte_val(bits_in_byte(la, i));
            assert(network_bytes(a, la)[i] == a[i]);
            lemma_mask_byte_facts(b[i], b[i], m);
        };
        lemma_lex_total(a, c);
        if lex_lt(a, c) {
            let i = choose|i: int|
                #![trigger a[i], c[i]]
                0 <= i < a.len() && i < c.len() && (forall|j: int| 0 <= j < i ==> a[j] == c[j])
                    && a[i] < c[i];
            let m = mask_byte_val(bits_in_byte(la, i));
            assert(m != 0) by {
                let xa = a[i];
                let xc = c[i];
                if bits_in_byte(la, i) <= 0 {
                    assert(xa == (xa & 0u8) && xc == (xc & 0u8));
                    assert((xa & 0u8) == 0 && (xc & 0u8) == 0) by (bit_vector);
                }
            };
            assert(la > 8 * i);
            assert forall|j: int| 0 <= j < i implies ba[j] == c[j] by {
                let xa = a[j];
                assert(bits_in_byte(la, j) == 8);
                assert(ba[j] == (xa | ((0xff - 0xff) as u8)));
                assert((xa | 0u8) == xa) by (bit_vector);
                assert(a[j] == c[j]);
            };
            assert(ba[i] < c[i]) by {
                lemma_mask_byte_facts(a[i], c[i], m);
                lemma_wild_is_not(bits_in_byte(la, i));
                assert(ba[i] == (a[i] | !m));
            };
            assert(lex_lt(ba, c));
            lemma_lex_lt_value(ba, c);
            assert forall|j: int| 0 <= j < n implies (#[trigger] c[j]) <= b[j] by {
                lemma_mask_bracket(b[j], mask_byte_val(bits_in_byte(la, j)));
            };
            lemma_be_value_le(c, b);
            assert(be_value(b) > be_value(ba));
        } else {
            let i = choose|i: int|
                #![trigger c[i], a[i]]
                0 <= i < c.len() && i < a.len() && (forall|j: int| 0 <= j < i ==> c[j] == a[j])
                    && c[i] < a[i];
            let m = mask_byte_val(bits_in_byte(la, i));
            let m2 = mask_byte_val(bits_in_byte(lb, i));
            assert(m != 0) by {
                let xa = a[i];
                let xc = c[i];
                if bits_in_byte(la, i) <= 0 {
                    assert(xa == (xa & 0u8) && xc == (xc & 0u8));
                    assert((xa & 0u8) == 0 && (xc & 0u8) == 0) by (bit_vector);
                }
            };
            assert(la > 8 * i);
            assert forall|j: int| 0 <= j < i implies bb[j] == a[j] by {
                let xb = b[j];
                assert(bits_in_byte(la, j) == 8);
                assert(bits_in_byte(lb, j) == 8);
                assert(bb[j] == (xb | ((0xff - 0xff) as u8)));
                assert(a[j] == c[j]);
                assert(c[j] == (xb & 0xffu8));
                assert((xb | 0u8) == xb && (xb & 0xffu8) == xb) by (bit_vector);
            };
            assert(bb[i] < a[i]) by {
                assert(bits_in_byte(la, i) <= bits_in_byte(lb, i));
                assert(m <= m2);
                lemma_wild_monotone(b[i], m, m2);
                lemma_wild_is_not(bits_in_byte(la, i));
                lemma_wild_is_not(bits_in_byte(lb, i));
                assert(bb[i] == (b[i] | !m2));
                lemma_mask_byte_facts(b[i], a[i], m);
                assert(((b[i] & m) | !m) < (a[i] & m));
                assert((b[i] | !m) < a[i]);
            };
            assert(lex_lt(bb, a));
            lemma_lex_lt_value(bb, a);
        }
    }
}

/// Numeric value of a byte string of at most 16 bytes, as a `u128`.
pub fn be_bytes_to_u128(b: &[u8]) -> (r: u128)
    requires
        b@.len() <= 16,
    ensures
        r as int == be_value(b@),
{
    let n: usize = b.len();
    let mut acc: u128 = 0;
    let mut i: usize = 0;
    proof {
        assert(b@.subrange(0, 0) =~= Seq::<u8>::empty());
    }
    while i < n
        invariant
            i <= n,
            n == b@.len() <= 16,
            acc as int == be_value(b@.subrange(0, i as int)),
        decreases n - i,
    {
        proof {
            lemma_be_value_bound(b@.subrange(0, i as int));
            lemma_pow256_mono(i as nat, 15);
            reveal_with_fuel(pow256, 16);
            assert(pow256(15) == 0x1000000000000000000000000000000);
        }
        let byte: u8 = b[i];
        acc = acc * 256 + (byte as u128);
        proof {
            assert(b@.subrange(0, i + 1).drop_last() =~= b@.subrange(0, i as int));
            assert(b@.subrange(0, i + 1).last() == b@[i as int]);
        }
        i = i + 1;
    }
    proof {
        assert(b@.subrange(0, n as int) =~= b@);
    }
    acc
}

} // verus!
