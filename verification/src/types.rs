//! Shared plain types: 20-byte hashes and identities, and the bitfield that
//! records which pieces a party holds.

use vstd::prelude::*;

verus! {

/// A SHA-1 digest: exactly 20 bytes.
pub type Sha1Hash = [u8; 20];

/// A peer identity: exactly 20 bytes, chosen once per process.
pub type PeerId = [u8; 20];

/// Which pieces a party has: one boolean per piece index.
///
/// On the wire the bits travel most-significant-bit-first within each byte;
/// `from_vec` and `as_bytes` translate between that packed form and the
/// boolean sequence held here, and the packing round trip is proved
/// bit-exact, which the message codec's contracts rest on.
#[derive(Debug, PartialEq, Eq)]
pub struct BitField {
    bits: Vec<bool>,
}

impl View for BitField {
    type V = Seq<bool>;

    closed spec fn view(&self) -> Seq<bool> {
        self.bits@
    }
}

impl Clone for BitField {
    fn clone(&self) -> (r: Self)
        ensures
            r@ == self@,
    {
        BitField { bits: self.bits.clone() }
    }
}

/// Bit `k` (0 = most significant) of byte `b`.
pub open spec fn byte_bit(b: u8, k: int) -> bool
    recommends
        0 <= k < 8,
{
    b & (0x80u8 >> (k as u8)) != 0
}

/// The boolean sequence carried by a packed byte sequence, MSB first.
pub open spec fn bits_of_bytes(bytes: Seq<u8>) -> Seq<bool> {
    Seq::new(bytes.len() * 8, |i: int| byte_bit(bytes[i / 8], i % 8))
}

/// The bit at `i`, with zero padding past the end.
pub open spec fn bit_at(bits: Seq<bool>, i: int) -> bool {
    if 0 <= i < bits.len() {
        bits[i]
    } else {
        false
    }
}

/// Byte `j` of the packed form: bits `8j..8j+8`, MSB first, zero padded.
pub open spec fn pack_byte(bits: Seq<bool>, j: int) -> u8 {
    (if bit_at(bits, 8 * j) {
        0x80u8
    } else {
        0u8
    }) | (if bit_at(bits, 8 * j + 1) {
        0x40u8
    } else {
        0u8
    }) | (if bit_at(bits, 8 * j + 2) {
        0x20u8
    } else {
        0u8
    }) | (if bit_at(bits, 8 * j + 3) {
        0x10u8
    } else {
        0u8
    }) | (if bit_at(bits, 8 * j + 4) {
        0x08u8
    } else {
        0u8
    }) | (if bit_at(bits, 8 * j + 5) {
        0x04u8
    } else {
        0u8
    }) | (if bit_at(bits, 8 * j + 6) {
        0x02u8
    } else {
        0u8
    }) | (if bit_at(bits, 8 * j + 7) {
        0x01u8
    } else {
        0u8
    })
}

/// The packed byte sequence of a boolean sequence, MSB first, zero padded.
pub open spec fn bytes_of_bits(bits: Seq<bool>) -> Seq<u8> {
    Seq::new((bits.len() + 7) / 8, |j: int| pack_byte(bits, j))
}

/// Packing bits and unpacking them again is the identity on sequences
/// whose length is a whole number of bytes.
pub proof fn lemma_unpack_pack(bits: Seq<bool>)
    requires
        bits.len() % 8 == 0,
    ensures
        bits_of_bytes(bytes_of_bits(bits)) == bits,
{
    let packed = bytes_of_bits(bits);
    assert(packed.len() == bits.len() / 8);
    assert forall|i: int| 0 <= i < bits.len() implies bits_of_bytes(packed)[i] == bits[i] by {
        let j = i / 8;
        let k = i % 8;
        assert(0 <= j < packed.len()) by (nonlinear_arith)
            requires
                0 <= i < bits.len(),
                j == i / 8,
                packed.len() == bits.len() / 8,
                bits.len() % 8 == 0,
        ;
        assert(8 * j + k == i) by (nonlinear_arith)
            requires
                j == i / 8,
                k == i % 8,
        ;
        lemma_byte_bit_of_pack(bits, j, k);
    }
    assert(bits_of_bytes(packed) =~= bits);
}

/// Bit `k` of packed byte `j` is bit `8j + k` of the sequence.
proof fn lemma_byte_bit_of_pack(bits: Seq<bool>, j: int, k: int)
    requires
        0 <= k < 8,
    ensures
        byte_bit(pack_byte(bits, j), k) == bit_at(bits, 8 * j + k),
{
    let m0: u8 = if bit_at(bits, 8 * j) {
        0x80u8
    } else {
        0u8
    };
    let m1: u8 = if bit_at(bits, 8 * j + 1) {
        0x40u8
    } else {
        0u8
    };
    let m2: u8 = if bit_at(bits, 8 * j + 2) {
        0x20u8
    } else {
        0u8
    };
    let m3: u8 = if bit_at(bits, 8 * j + 3) {
        0x10u8
    } else {
        0u8
    };
    let m4: u8 = if bit_at(bits, 8 * j + 4) {
        0x08u8
    } else {
        0u8
    };
    let m5: u8 = if bit_at(bits, 8 * j + 5) {
        0x04u8
    } else {
        0u8
    };
    let m6: u8 = if bit_at(bits, 8 * j + 6) {
        0x02u8
    } else {
        0u8
    };
    let m7: u8 = if bit_at(bits, 8 * j + 7) {
        0x01u8
    } else {
        0u8
    };
    let x = pack_byte(bits, j);
    assert(x == m0 | m1 | m2 | m3 | m4 | m5 | m6 | m7);
    let ku = k as u8;
    assert((m0 == 0x80 || m0 == 0) && (m1 == 0x40 || m1 == 0) && (m2 == 0x20 || m2 == 0) && (m3
        == 0x10 || m3 == 0) && (m4 == 0x08 || m4 == 0) && (m5 == 0x04 || m5 == 0) && (m6 == 0x02
        || m6 == 0) && (m7 == 0x01 || m7 == 0));
    assert(((m0 | m1 | m2 | m3 | m4 | m5 | m6 | m7) & (0x80u8 >> ku) != 0) == (if ku == 0 {
        m0 == 0x80
    } else if ku == 1 {
        m1 == 0x40
    } else if ku == 2 {
        m2 == 0x20
    } else if ku == 3 {
        m3 == 0x10
    } else if ku == 4 {
        m4 == 0x08
    } else if ku == 5 {
        m5 == 0x04
    } else if ku == 6 {
        m6 == 0x02
    } else {
        m7 == 0x01
    })) by (bit_vector)
        requires
            ku < 8,
            (m0 == 0x80 || m0 == 0) && (m1 == 0x40 || m1 == 0) && (m2 == 0x20 || m2 == 0) && (m3
                == 0x10 || m3 == 0) && (m4 == 0x08 || m4 == 0) && (m5 == 0x04 || m5 == 0) && (m6
                == 0x02 || m6 == 0) && (m7 == 0x01 || m7 == 0),
    ;
}

/// Unpacking bytes and packing them again is the identity.
pub proof fn lemma_pack_unpack(bytes: Seq<u8>)
    ensures
        bytes_of_bits(bits_of_bytes(bytes)) == bytes,
{
    let bits = bits_of_bytes(bytes);
    assert(bits.len() == bytes.len() * 8);
    assert((bytes.len() * 8 + 7) / 8 == bytes.len()) by (nonlinear_arith);
    assert forall|j: int| 0 <= j < bytes.len() implies bytes_of_bits(bits)[j] == bytes[j] by {
        let b = bytes[j];
        assert forall|k: int| 0 <= k < 8 implies bit_at(bits, 8 * j + k) == byte_bit(b, k) by {
            let i = 8 * j + k;
            assert(0 <= i < bits.len()) by (nonlinear_arith)
                requires
                    0 <= j < bytes.len(),
                    0 <= k < 8,
                    i == 8 * j + k,
                    bits.len() == bytes.len() * 8,
            ;
            assert(i / 8 == j && i % 8 == k) by (nonlinear_arith)
                requires
                    i == 8 * j + k,
                    0 <= k < 8,
            ;
        }
        let m0: u8 = if byte_bit(b, 0) {
            0x80u8
        } else {
            0u8
        };
        let m1: u8 = if byte_bit(b, 1) {
            0x40u8
        } else {
            0u8
        };
        let m2: u8 = if byte_bit(b, 2) {
            0x20u8
        } else {
            0u8
        };
        let m3: u8 = if byte_bit(b, 3) {
            0x10u8
        } else {
            0u8
        };
        let m4: u8 = if byte_bit(b, 4) {
            0x08u8
        } else {
            0u8
        };
        let m5: u8 = if byte_bit(b, 5) {
            0x04u8
        } else {
            0u8
        };
        let m6: u8 = if byte_bit(b, 6) {
            0x02u8
        } else {
            0u8
        };
        let m7: u8 = if byte_bit(b, 7) {
            0x01u8
        } else {
            0u8
        };
        assert(bytes_of_bits(bits)[j] == m0 | m1 | m2 | m3 | m4 | m5 | m6 | m7);
        assert((m0 == (if b & 0x80u8 != 0 {
            0x80u8
        } else {
            0u8
        })) && (m1 == (if b & 0x40u8 != 0 {
            0x40u8
        } else {
            0u8
        })) && (m2 == (if b & 0x20u8 != 0 {
            0x20u8
        } else {
            0u8
        })) && (m3 == (if b & 0x10u8 != 0 {
            0x10u8
        } else {
            0u8
        })) && (m4 == (if b & 0x08u8 != 0 {
            0x08u8
        } else {
            0u8
        })) && (m5 == (if b & 0x04u8 != 0 {
            0x04u8
        } else {
            0u8
        })) && (m6 == (if b & 0x02u8 != 0 {
            0x02u8
        } else {
            0u8
        })) && (m7 == (if b & 0x01u8 != 0 {
            0x01u8
        } else {
            0u8
        }))) by {
            assert(0x80u8 >> 0 == 0x80u8 && 0x80u8 >> 1 == 0x40u8 && 0x80u8 >> 2 == 0x20u8
                && 0x80u8 >> 3 == 0x10u8 && 0x80u8 >> 4 == 0x08u8 && 0x80u8 >> 5 == 0x04u8
                && 0x80u8 >> 6 == 0x02u8 && 0x80u8 >> 7 == 0x01u8) by (bit_vector);
        }
        assert((if b & 0x80u8 != 0 {
            0x80u8
        } else {
            0u8
        }) | (if b & 0x40u8 != 0 {
            0x40u8
        } else {
            0u8
        }) | (if b & 0x20u8 != 0 {
            0x20u8
        } else {
            0u8
        }) | (if b & 0x10u8 != 0 {
            0x10u8
        } else {
            0u8
        }) | (if b & 0x08u8 != 0 {
            0x08u8
        } else {
            0u8
        }) | (if b & 0x04u8 != 0 {
            0x04u8
        } else {
            0u8
        }) | (if b & 0x02u8 != 0 {
            0x02u8
        } else {
            0u8
        }) | (if b & 0x01u8 != 0 {
            0x01u8
        } else {
            0u8
        }) == b) by (bit_vector);
    }
    assert(bytes_of_bits(bits) =~= bytes);
}

impl BitField {
    /// Packs the bits into wire bytes, MSB first, zero padded at the end.
    pub fn as_bytes(&self) -> (r: Vec<u8>)
        requires
            self@.len() + 7 <= usize::MAX,
        ensures
            r@ == bytes_of_bits(self@),
    {
        let n = self.bits.len();
        let nbytes = (n + 7) / 8;
        let mut out: Vec<u8> = Vec::new();
        let mut j: usize = 0;
        while j < nbytes
            invariant
                j <= nbytes,
                n == self@.len(),
                n + 7 <= usize::MAX,
                nbytes == (n + 7) / 8,
                out@.len() == j,
                forall|t: int| 0 <= t < j ==> out@[t] == pack_byte(self@, t),
            decreases nbytes - j,
        {
            let base = j * 8;
            proof {
                assert(base == 8 * j && base + 7 <= usize::MAX) by (nonlinear_arith)
                    requires
                        base == j * 8,
                        j < nbytes,
                        nbytes == (n + 7) / 8,
                        n + 7 <= usize::MAX,
                ;
            }
            let t0 = base < n && self.get_inner(base);
            let t1 = base + 1 < n && self.get_inner(base + 1);
            let t2 = base + 2 < n && self.get_inner(base + 2);
            let t3 = base + 3 < n && self.get_inner(base + 3);
            let t4 = base + 4 < n && self.get_inner(base + 4);
            let t5 = base + 5 < n && self.get_inner(base + 5);
            let t6 = base + 6 < n && self.get_inner(base + 6);
            let t7 = base + 7 < n && self.get_inner(base + 7);
            let b: u8 = (if t0 {
                0x80u8
            } else {
                0u8
            }) | (if t1 {
                0x40u8
            } else {
                0u8
            }) | (if t2 {
                0x20u8
            } else {
                0u8
            }) | (if t3 {
                0x10u8
            } else {
                0u8
            }) | (if t4 {
                0x08u8
            } else {
                0u8
            }) | (if t5 {
                0x04u8
            } else {
                0u8
            }) | (if t6 {
                0x02u8
            } else {
                0u8
            }) | (if t7 {
                0x01u8
            } else {
                0u8
            });
            proof {
                assert(b == pack_byte(self@, j as int));
            }
            out.push(b);
            j = j + 1;
        }
        proof {
            assert(out@ =~= bytes_of_bits(self@));
        }
        out
    }

    fn get_inner(&self, i: usize) -> (r: bool)
        requires
            i < self@.len(),
        ensures
            r == self@[i as int],
    {
        self.bits[i]
    }

    /// `n` copies of `bit`.
    pub fn repeat(bit: bool, n: usize) -> (r: Self)
        ensures
            r@ == Seq::new(n as nat, |i: int| bit),
    {
        let mut bits: Vec<bool> = Vec::new();
        let mut i: usize = 0;
        while i < n
            invariant
                i <= n,
                bits@ == Seq::new(i as nat, |j: int| bit),
            decreases n - i,
        {
            bits.push(bit);
            i = i + 1;
            proof {
                assert(bits@ =~= Seq::new(i as nat, |j: int| bit));
            }
        }
        BitField { bits }
    }

    /// Unpacks wire bytes, most significant bit of each byte first.
    pub fn from_vec(bytes: Vec<u8>) -> (r: Self)
        requires
            bytes@.len() * 8 <= usize::MAX,
        ensures
            r@ == bits_of_bytes(bytes@),
    {
        let mut bits: Vec<bool> = Vec::new();
        let mut i: usize = 0;
        while i < bytes.len()
            invariant
                i <= bytes@.len(),
                bytes@.len() * 8 <= usize::MAX,
                bits@.len() == i * 8,
                bits@ == bits_of_bytes(bytes@).take(8 * i),
            decreases bytes@.len() - i,
        {
            let b = bytes[i];
            let mut k: usize = 0;
            while k < 8
                invariant
                    k <= 8,
                    i < bytes@.len(),
                    b == bytes@[i as int],
                    bits@.len() == i * 8 + k,
                    bits@ == bits_of_bytes(bytes@).take(8 * i + k),
                decreases 8 - k,
            {
                bits.push(b & (0x80u8 >> (k as u8)) != 0);
                k = k + 1;
                proof {
                    let full = bits_of_bytes(bytes@);
                    assert((8 * i + k - 1) / 8 == i && (8 * i + k - 1) % 8 == k - 1) by (nonlinear_arith)
                        requires 0 < k <= 8, 0 <= i;
                    assert(bits@ =~= full.take(8 * i + k));
                }
            }
            i = i + 1;
        }
        proof {
            assert(bits@ =~= bits_of_bytes(bytes@));
        }
        BitField { bits }
    }

    pub fn len(&self) -> (r: usize)
        ensures
            r == self@.len(),
    {
        self.bits.len()
    }

    pub fn get(&self, i: usize) -> (r: bool)
        requires
            i < self@.len(),
        ensures
            r == self@[i as int],
    {
        self.bits[i]
    }

    pub fn set(&mut self, i: usize, bit: bool)
        requires
            i < old(self)@.len(),
        ensures
            final(self)@ == old(self)@.update(i as int, bit),
    {
        self.bits.set(i, bit);
    }
}

} // verus!
