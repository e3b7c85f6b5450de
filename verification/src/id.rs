use vstd::prelude::*;
use vstd::std_specs::cmp::PartialEqSpecImpl;
use vstd::std_specs::ops::BitAndSpecImpl;
use vstd::std_specs::ops::BitOrSpecImpl;
use vstd::std_specs::ops::BitXorSpecImpl;
use vstd::std_specs::ops::NotSpecImpl;
use crate::consts::ID_LEN;

verus! {

/// A 160-bit identifier. Bit 0 is the most significant bit of byte 0.
#[derive(Clone, Copy, Debug, Eq, Hash, PartialOrd, Ord)]
pub struct Id(pub [u8; ID_LEN]);

impl View for Id {
    type V = Seq<u8>;

    open spec fn view(&self) -> Seq<u8> {
        self.0@
    }
}

/// Bit `k` of a byte, counted from its most significant bit.
pub open spec fn byte_bit(b: u8, k: u8) -> bool {
    (b >> ((7 - k) as u8)) & 1u8 == 1u8
}

/// A byte is determined by its eight bits.
pub proof fn lemma_byte_ext(a: u8, b: u8)
    requires
        forall|k: u8| k < 8 ==> byte_bit(a, k) == byte_bit(b, k),
    ensures
        a == b,
{
    assert(byte_bit(a, 0) == byte_bit(b, 0));
    assert(byte_bit(a, 1) == byte_bit(b, 1));
    assert(byte_bit(a, 2) == byte_bit(b, 2));
    assert(byte_bit(a, 3) == byte_bit(b, 3));
    assert(byte_bit(a, 4) == byte_bit(b, 4));
    assert(byte_bit(a, 5) == byte_bit(b, 5));
    assert(byte_bit(a, 6) == byte_bit(b, 6));
    assert(byte_bit(a, 7) == byte_bit(b, 7));
    assert(a == b) by (bit_vector)
        requires
            byte_bit(a, 0) == byte_bit(b, 0),
            byte_bit(a, 1) == byte_bit(b, 1),
            byte_bit(a, 2) == byte_bit(b, 2),
            byte_bit(a, 3) == byte_bit(b, 3),
            byte_bit(a, 4) == byte_bit(b, 4),
            byte_bit(a, 5) == byte_bit(b, 5),
            byte_bit(a, 6) == byte_bit(b, 6),
            byte_bit(a, 7) == byte_bit(b, 7),
    ;
}

/// How the bitwise operations act on single bits of a byte.
pub proof fn lemma_byte_ops(a: u8, b: u8, k: u8)
    requires
        k < 8,
    ensures
        byte_bit(a ^ b, k) == (byte_bit(a, k) != byte_bit(b, k)),
        byte_bit(a & b, k) == (byte_bit(a, k) && byte_bit(b, k)),
        byte_bit(a | b, k) == (byte_bit(a, k) || byte_bit(b, k)),
        byte_bit(!a, k) == !byte_bit(a, k),
        !byte_bit(0u8, k),
        byte_bit(0xFFu8, k),
{
    assert(byte_bit(a ^ b, k) == (byte_bit(a, k) != byte_bit(b, k))
        && byte_bit(a & b, k) == (byte_bit(a, k) && byte_bit(b, k))
        && byte_bit(a | b, k) == (byte_bit(a, k) || byte_bit(b, k))
        && byte_bit(!a, k) == !byte_bit(a, k)
        && !byte_bit(0u8, k)
        && byte_bit(0xFFu8, k)) by (bit_vector)
        requires
            k < 8,
    ;
}

/// Bit `p` of a 16-bit word, counted from its most significant bit.
pub open spec fn word_bit(w: u16, p: u16) -> bool {
    (w >> ((15 - p) as u16)) & 1u16 == 1u16
}

/// Bit `i` of a byte string, counted from the most significant bit of its
/// first byte.
pub open spec fn seq_bit(s: Seq<u8>, i: int) -> bool {
    byte_bit(s[i / 8], (i % 8) as u8)
}

/// The number that a byte string denotes when read big-endian.
pub open spec fn be_value(s: Seq<u8>) -> nat
    decreases s.len(),
{
    if s.len() == 0 {
        0
    } else {
        256 * be_value(s.drop_last()) + s.last() as nat
    }
}

impl Id {
    /// The identifier whose bytes are the first twenty elements of `s`.
    pub open spec fn from_seq(s: Seq<u8>) -> Id {
        Id(
            [
                s[0], s[1], s[2], s[3], s[4], s[5], s[6], s[7], s[8], s[9],
                s[10], s[11], s[12], s[13], s[14], s[15], s[16], s[17], s[18], s[19],
            ],
        )
    }

    /// Bit `i` of the identifier, for `0 <= i < 160`.
    pub open spec fn bit(self, i: int) -> bool {
        seq_bit(self@, i)
    }

    /// The identifier read as a big-endian integer.
    pub open spec fn value(self) -> nat {
        be_value(self@)
    }

    pub open spec fn spec_zero() -> Id {
        Id::from_seq(Seq::new(20, |i: int| 0u8))
    }

    pub open spec fn spec_max() -> Id {
        Id::from_seq(Seq::new(20, |i: int| 0xFFu8))
    }

    pub open spec fn spec_xor(self, rhs: Id) -> Id {
        Id::from_seq(Seq::new(20, |i: int| self@[i] ^ rhs@[i]))
    }

    pub open spec fn spec_and(self, rhs: Id) -> Id {
        Id::from_seq(Seq::new(20, |i: int| self@[i] & rhs@[i]))
    }

    pub open spec fn spec_or(self, rhs: Id) -> Id {
        Id::from_seq(Seq::new(20, |i: int| self@[i] | rhs@[i]))
    }

    pub open spec fn spec_not(self) -> Id {
        Id::from_seq(Seq::new(20, |i: int| !self@[i]))
    }

    /// An identifier is its twenty bytes: `from_seq` rebuilds it from them.
    pub proof fn lemma_from_seq(s: Seq<u8>)
        requires
            s.len() == 20,
        ensures
            Id::from_seq(s)@ == s,
    {
        assert(Id::from_seq(s)@ =~= s);
    }

    /// Two identifiers with the same bytes are the same identifier.
    pub proof fn lemma_ext(a: Id, b: Id)
        requires
            a@ == b@,
        ensures
            a == b,
    {
        assert(a.0 =~= b.0);
    }

    /// The identifier with every bit clear.
    pub fn zero() -> (r: Id)
        ensures
            r == Id::spec_zero(),
    {
        let r = Id([0u8; ID_LEN]);
        proof {
            Id::lemma_from_seq(Seq::new(20, |i: int| 0u8));
            assert(r@ =~= Id::spec_zero()@);
            Id::lemma_ext(r, Id::spec_zero());
        }
        r
    }

    /// Applies `fun` to each pair of bytes at the same position.
    pub fn bimap_bytes<F: Fn(u8, u8) -> u8>(self, rhs: Id, fun: F) -> (r: Id)
        requires
            forall|a: u8, b: u8| fun.requires((a, b)),
        ensures
            forall|i: int| 0 <= i < 20 ==> fun.ensures((self@[i], rhs@[i]), #[trigger] r@[i]),
    {
        let mut res = [0u8; ID_LEN];
        let mut i: usize = 0;
        while i < ID_LEN
            invariant
                i <= 20,
                forall|a: u8, b: u8| fun.requires((a, b)),
                forall|j: int| 0 <= j < i ==> fun.ensures((self@[j], rhs@[j]), #[trigger] res@[j]),
            decreases 20 - i,
        {
            let v = fun(self.0[i], rhs.0[i]);
            res[i] = v;
            i += 1;
        }
        Id(res)
    }

    /// Applies `fun` to each byte.
    pub fn map_bytes<F: Fn(u8) -> u8>(self, fun: F) -> (r: Id)
        requires
            forall|a: u8| fun.requires((a,)),
        ensures
            forall|i: int| 0 <= i < 20 ==> fun.ensures((self@[i],), #[trigger] r@[i]),
    {
        let mut res = [0u8; ID_LEN];
        let mut i: usize = 0;
        while i < ID_LEN
            invariant
                i <= 20,
                forall|a: u8| fun.requires((a,)),
                forall|j: int| 0 <= j < i ==> fun.ensures((self@[j],), #[trigger] res@[j]),
            decreases 20 - i,
        {
            let v = fun(self.0[i]);
            res[i] = v;
            i += 1;
        }
        Id(res)
    }
}

impl PartialEq for Id {
    fn eq(&self, other: &Id) -> (r: bool) {
        let mut i: usize = 0;
        while i < ID_LEN
            invariant
                i <= 20,
                forall|j: int| 0 <= j < i ==> self.0[j] == other.0[j],
            decreases 20 - i,
        {
            if self.0[i] != other.0[i] {
                return false;
            }
            i += 1;
        }
        assert(self.0 =~= other.0);
        true
    }
}

impl PartialEqSpecImpl for Id {
    open spec fn obeys_eq_spec() -> bool {
        true
    }

    open spec fn eq_spec(&self, other: &Id) -> bool {
        *self == *other
    }
}

impl BitXorSpecImpl for Id {
    open spec fn obeys_bitxor_spec() -> bool {
        true
    }

    open spec fn bitxor_req(self, rhs: Id) -> bool {
        true
    }

    open spec fn bitxor_spec(self, rhs: Id) -> Id {
        self.spec_xor(rhs)
    }
}

impl core::ops::BitXor for Id {
    type Output = Id;

    fn bitxor(self, rhs: Id) -> (r: Id) {
        let r = self.bimap_bytes(rhs, |a: u8, b: u8| -> (c: u8)
            ensures c == a ^ b,
            { a ^ b });
        proof {
            Id::lemma_from_seq(Seq::new(20, |i: int| self@[i] ^ rhs@[i]));
            assert(r@ =~= self.spec_xor(rhs)@);
            Id::lemma_ext(r, self.spec_xor(rhs));
        }
        r
    }
}

impl BitAndSpecImpl for Id {
    open spec fn obeys_bitand_spec() -> bool {
        true
    }

    open spec fn bitand_req(self, rhs: Id) -> bool {
        true
    }

    open spec fn bitand_spec(self, rhs: Id) -> Id {
        self.spec_and(rhs)
    }
}

impl core::ops::BitAnd for Id {
    type Output = Id;

    fn bitand(self, rhs: Id) -> (r: Id) {
        let r = self.bimap_bytes(rhs, |a: u8, b: u8| -> (c: u8)
            ensures c == a & b,
            { a & b });
        proof {
            Id::lemma_from_seq(Seq::new(20, |i: int| self@[i] & rhs@[i]));
            assert(r@ =~= self.spec_and(rhs)@);
            Id::lemma_ext(r, self.spec_and(rhs));
        }
        r
    }
}

impl BitOrSpecImpl for Id {
    open spec fn obeys_bitor_spec() -> bool {
        true
    }

    open spec fn bitor_req(self, rhs: Id) -> bool {
        true
    }

    open spec fn bitor_spec(self, rhs: Id) -> Id {
        self.spec_or(rhs)
    }
}

impl core::ops::BitOr for Id {
    type Output = Id;

    fn bitor(self, rhs: Id) -> (r: Id) {
        let r = self.bimap_bytes(rhs, |a: u8, b: u8| -> (c: u8)
            ensures c == a | b,
            { a | b });
        proof {
            Id::lemma_from_seq(Seq::new(20, |i: int| self@[i] | rhs@[i]));
            assert(r@ =~= self.spec_or(rhs)@);
            Id::lemma_ext(r, self.spec_or(rhs));
        }
        r
    }
}

impl NotSpecImpl for Id {
    open spec fn obeys_not_spec() -> bool {
        true
    }

    open spec fn not_req(self) -> bool {
        true
    }

    open spec fn not_spec(self) -> Id {
        self.spec_not()
    }
}

impl core::ops::Not for Id {
    type Output = Id;

    fn not(self) -> (r: Id) {
        let r = self.map_bytes(|a: u8| -> (c: u8)
            ensures c == !a,
            { !a });
        proof {
            Id::lemma_from_seq(Seq::new(20, |i: int| !self@[i]));
            assert(r@ =~= self.spec_not()@);
            Id::lemma_ext(r, self.spec_not());
        }
        r
    }
}

impl Id {
    /// What the bitwise operations do to each bit, and the bits of the two
    /// constant identifiers.
    pub proof fn lemma_bits(a: Id, b: Id, i: int)
        requires
            0 <= i < 160,
        ensures
            a.spec_xor(b).bit(i) == (a.bit(i) != b.bit(i)),
            a.spec_and(b).bit(i) == (a.bit(i) && b.bit(i)),
            a.spec_or(b).bit(i) == (a.bit(i) || b.bit(i)),
            a.spec_not().bit(i) == !a.bit(i),
            !Id::spec_zero().bit(i),
            Id::spec_max().bit(i),
    {
        Id::lemma_from_seq(Seq::new(20, |j: int| a@[j] ^ b@[j]));
        Id::lemma_from_seq(Seq::new(20, |j: int| a@[j] & b@[j]));
        Id::lemma_from_seq(Seq::new(20, |j: int| a@[j] | b@[j]));
        Id::lemma_from_seq(Seq::new(20, |j: int| !a@[j]));
        Id::lemma_from_seq(Seq::new(20, |j: int| 0u8));
        Id::lemma_from_seq(Seq::new(20, |j: int| 0xFFu8));
        lemma_byte_ops(a@[i / 8], b@[i / 8], (i % 8) as u8);
    }

    /// An identifier is determined by its 160 bits.
    pub proof fn lemma_bits_ext(a: Id, b: Id)
        requires
            forall|i: int| 0 <= i < 160 ==> a.bit(i) == b.bit(i),
        ensures
            a == b,
    {
        assert forall|j: int| 0 <= j < 20 implies a@[j] == b@[j] by {
            assert forall|k: u8| k < 8 implies byte_bit(a@[j], k) == byte_bit(b@[j], k) by {
                let i = 8 * j + k;
                assert(i / 8 == j && i % 8 == k as int);
                assert(a.bit(i) == b.bit(i));
            }
            lemma_byte_ext(a@[j], b@[j]);
        }
        assert(a@ =~= b@);
        Id::lemma_ext(a, b);
    }

    /// Xor with the same identifier twice gives the first identifier back.
    pub proof fn lemma_xor_cancels(a: Id, b: Id)
        ensures
            a.spec_xor(b).spec_xor(b) == a,
    {
        assert forall|i: int| 0 <= i < 160 implies a.spec_xor(b).spec_xor(b).bit(i) == a.bit(i) by {
            Id::lemma_bits(a.spec_xor(b), b, i);
            Id::lemma_bits(a, b, i);
        }
        Id::lemma_bits_ext(a.spec_xor(b).spec_xor(b), a);
    }

    /// An identifier xored with itself is zero.
    pub proof fn lemma_xor_self(a: Id)
        ensures
            a.spec_xor(a) == Id::spec_zero(),
    {
        assert forall|i: int| 0 <= i < 160 implies a.spec_xor(a).bit(i) == Id::spec_zero().bit(i) by {
            Id::lemma_bits(a, a, i);
        }
        Id::lemma_bits_ext(a.spec_xor(a), Id::spec_zero());
    }

    /// An identifier has no bit in common with its complement.
    pub proof fn lemma_and_not_self(a: Id)
        ensures
            a.spec_and(a.spec_not()) == Id::spec_zero(),
    {
        assert forall|i: int| 0 <= i < 160 implies a.spec_and(a.spec_not()).bit(i)
            == Id::spec_zero().bit(i) by {
            Id::lemma_bits(a, a.spec_not(), i);
            Id::lemma_bits(a, a, i);
        }
        Id::lemma_bits_ext(a.spec_and(a.spec_not()), Id::spec_zero());
    }

    /// The number of zero bits from bit `i` up to the first set bit.
    pub open spec fn zeros_from(self, i: int) -> nat
        decreases 160 - i,
    {
        if i < 0 || i >= 160 || self.bit(i) {
            0
        } else {
            1 + self.zeros_from(i + 1)
        }
    }

    /// The number of leading zero bits; 160 for the zero identifier.
    pub open spec fn spec_leading_zeros(self) -> nat {
        self.zeros_from(0)
    }

    proof fn lemma_zeros_from(self, i: int)
        requires
            0 <= i <= 160,
        ensures
            i + self.zeros_from(i) <= 160,
            forall|j: int| i <= j < i + self.zeros_from(i) ==> !self.bit(j),
            i + self.zeros_from(i) < 160 ==> self.bit(i + self.zeros_from(i)),
        decreases 160 - i,
    {
        if i < 160 && !self.bit(i) {
            self.lemma_zeros_from(i + 1);
        }
    }

    /// The leading-zero count is the index of the first set bit.
    pub proof fn lemma_leading_zeros(self)
        ensures
            self.spec_leading_zeros() <= 160,
            forall|j: int| 0 <= j < self.spec_leading_zeros() ==> !self.bit(j),
            self.spec_leading_zeros() < 160 ==> self.bit(self.spec_leading_zeros() as int),
    {
        self.lemma_zeros_from(0);
    }

    /// Any index with only zero bits before it and a set bit at it (or 160) is
    /// the leading-zero count.
    pub proof fn lemma_leading_zeros_unique(self, z: int)
        requires
            0 <= z <= 160,
            forall|j: int| 0 <= j < z ==> !self.bit(j),
            z < 160 ==> self.bit(z),
        ensures
            self.spec_leading_zeros() == z,
    {
        self.lemma_leading_zeros();
        let c = self.spec_leading_zeros() as int;
        if c < z {
            assert(self.bit(c));
        } else if c > z {
            assert(self.bit(z));
        }
    }

    /// The zero identifier has 160 leading zeros.
    pub proof fn lemma_leading_zeros_of_zero()
        ensures
            Id::spec_zero().spec_leading_zeros() == 160,
    {
        assert forall|j: int| 0 <= j < 160 implies !Id::spec_zero().bit(j) by {
            Id::lemma_bits(Id::spec_zero(), Id::spec_zero(), j);
        }
        Id::spec_zero().lemma_leading_zeros_unique(160);
    }

    /// Counts the leading zero bits.
    pub fn leading_zeros(&self) -> (r: u8)
        ensures
            r as nat == self.spec_leading_zeros(),
    {
        let mut res: u8 = 0;
        let mut i: usize = 0;
        while i < ID_LEN
            invariant
                i <= 20,
                res == 8 * i,
                forall|j: int| 0 <= j < 8 * i ==> !self.bit(j),
            decreases 20 - i,
        {
            let x = self.0[i];
            if x == 0 {
                proof {
                    assert forall|j: int| 8 * i <= j < 8 * i + 8 implies !self.bit(j) by {
                        assert(j / 8 == i as int);
                        lemma_byte_ops(0, 0, (j % 8) as u8);
                    }
                }
                res += 8;
            } else {
                let z = x.leading_zeros();
                proof {
                    lemma_byte_leading_zeros(x);
                    assert forall|j: int| 8 * i <= j < 8 * i + z implies !self.bit(j) by {
                        assert(j / 8 == i as int);
                    }
                    assert((8 * i + z) / 8 == i as int);
                    assert((8 * i + z) % 8 == z as int);
                    self.lemma_leading_zeros_unique(8 * i + z);
                }
                return res + z as u8;
            }
            i += 1;
        }
        proof {
            self.lemma_leading_zeros_unique(160);
        }
        res
    }
}

/// The leading zeros of a non-zero byte, bit by bit.
pub proof fn lemma_byte_leading_zeros(x: u8)
    requires
        x != 0,
    ensures
        x.leading_zeros() < 8,
        forall|k: u8| k < x.leading_zeros() ==> !byte_bit(x, k),
        byte_bit(x, x.leading_zeros() as u8),
{
    vstd::std_specs::bits::axiom_u8_leading_zeros(x);
    let z = x.leading_zeros() as u8;
    assert forall|k: u8| k < z implies !byte_bit(x, k) by {
        let j = (7 - k) as u8;
        assert((x >> j) & 1u8 == 0u8);
    }
    let y = x >> ((7 - z) as u8);
    assert(y & 1u8 != 0u8);
    assert(y & 1u8 == 1u8) by (bit_vector)
        requires
            y & 1u8 != 0u8,
    ;
}

/// Of two byte strings of one length, the one with the smaller byte at the
/// first position where they differ denotes the smaller number.
pub proof fn lemma_value_first_difference(a: Seq<u8>, b: Seq<u8>, i: int)
    requires
        a.len() == b.len(),
        0 <= i < a.len(),
        forall|j: int| 0 <= j < i ==> a[j] == b[j],
        a[i] < b[i],
    ensures
        be_value(a) < be_value(b),
    decreases a.len(),
{
    if i == a.len() - 1 {
        assert(a.drop_last() =~= b.drop_last());
    } else {
        lemma_value_first_difference(a.drop_last(), b.drop_last(), i);
    }
}

impl Id {
    /// The xor distance between two identifiers, as an integer.
    pub open spec fn distance(self, other: Id) -> nat {
        self.spec_xor(other).value()
    }

    /// Whether this identifier is smaller than `other` as a big-endian integer.
    pub fn value_lt(&self, other: &Id) -> (r: bool)
        ensures
            r == (self.value() < other.value()),
    {
        let mut i: usize = 0;
        while i < ID_LEN
            invariant
                i <= 20,
                forall|j: int| 0 <= j < i ==> self@[j] == other@[j],
            decreases 20 - i,
        {
            let x = self.0[i];
            let y = other.0[i];
            if x < y {
                proof {
                    lemma_value_first_difference(self@, other@, i as int);
                }
                return true;
            }
            if y < x {
                proof {
                    lemma_value_first_difference(other@, self@, i as int);
                }
                return false;
            }
            i += 1;
        }
        assert(self@ =~= other@);
        false
    }

    /// Whether `a` is strictly closer to this identifier than `b` is.
    pub fn closer(&self, a: &Id, b: &Id) -> (r: bool)
        ensures
            r == (self.distance(*a) < self.distance(*b)),
    {
        let da = *self ^ *a;
        let db = *self ^ *b;
        da.value_lt(&db)
    }

    /// Sets bit `bit`, leaving the others as they are.
    pub fn set_bit(self, bit: u8) -> (r: Id)
        requires
            bit < 160,
        ensures
            forall|i: int| 0 <= i < 160 ==> r.bit(i) == (i == bit || self.bit(i)),
    {
        let mut res = self.0;
        let at: usize = (bit / 8) as usize;
        let m: u8 = bit % 8;
        let x = res[at];
        res[at] = x | (1u8 << (7 - m));
        let r = Id(res);
        proof {
            assert forall|i: int| 0 <= i < 160 implies r.bit(i) == (i == bit || self.bit(i)) by {
                let k = (i % 8) as u8;
                if i / 8 == at {
                    assert(byte_bit(x | (1u8 << ((7 - m) as u8)), k) == (k == m || byte_bit(x, k)))
                        by (bit_vector)
                        requires
                            k < 8,
                            m < 8,
                    ;
                }
            }
        }
        r
    }

    /// The identifier whose first `len` bits are set and whose other bits are
    /// clear.
    pub fn create_left_mask(len: u8) -> (r: Id)
        requires
            len <= 160,
        ensures
            forall|i: int| 0 <= i < 160 ==> r.bit(i) == (i < len),
    {
        let mut res = [0u8; ID_LEN];
        let mut n: usize = 0;
        while n < ID_LEN
            invariant
                n <= 20,
                len <= 160,
                forall|i: int| 0 <= i < 8 * n ==> #[trigger] seq_bit(res@, i) == (i < len),
            decreases 20 - n,
        {
            let start: u8 = (8 * n) as u8;
            let v: u8 = if len >= start + 8 {
                0xFF
            } else if len <= start {
                0
            } else {
                !(0xFFu8 >> (len - start))
            };
            let ghost before = res@;
            res[n] = v;
            proof {
                assert forall|i: int| 0 <= i < 8 * (n + 1) implies #[trigger] seq_bit(res@, i) == (i
                    < len) by {
                    let k = (i % 8) as u8;
                    if i / 8 == n {
                        lemma_byte_ops(0, 0, k);
                        if start < len && len < start + 8 {
                            let m = (len - start) as u8;
                            assert(byte_bit(!(0xFFu8 >> m), k) == (k < m)) by (bit_vector)
                                requires
                                    k < 8,
                                    m < 8,
                            ;
                        }
                    } else {
                        assert(res@[i / 8] == before[i / 8]);
                        assert(seq_bit(before, i) == (i < len));
                    }
                }
            }
            n += 1;
        }
        Id(res)
    }

    /// The number formed by the `len` bits from bit `index` on, the first of
    /// them the most significant.
    pub open spec fn bits_value(self, index: int, len: int) -> nat
        decreases len,
    {
        if len <= 0 {
            0
        } else {
            2 * self.bits_value(index, len - 1) + if self.bit(index + len - 1) {
                1nat
            } else {
                0nat
            }
        }
    }

    proof fn lemma_window(self, w: u16, first: int, offset: u8, len: u8)
        requires
            0 <= first < 20,
            offset < 8,
            len <= 8,
            8 * first + offset + len <= 160,
            forall|p: u16| p < 8 ==> #[trigger] word_bit(w, p) == byte_bit(self@[first], p as u8),
            first + 1 < 20 ==> forall|p: u16| 8 <= p < 16 ==> #[trigger] word_bit(w, p) == byte_bit(
                self@[first + 1],
                (p - 8) as u8,
            ),
        ensures
            ((w >> ((16 - offset - len) as u16)) & (((1u16 << (len as u16)) - 1) as u16)) as nat
                == self.bits_value(8 * first + offset, len as int),
        decreases len,
    {
        let s = (16 - offset - len) as u16;
        let l = len as u16;
        if len == 0 {
            assert((w >> s) & (((1u16 << l) - 1) as u16) == 0) by (bit_vector)
                requires
                    l == 0,
            ;
        } else {
            self.lemma_window(w, first, offset, (len - 1) as u8);
            let p = (offset + len - 1) as u16;
            let i = 8 * first + offset + len - 1;
            assert(s == 15 - p);
            assert((w >> s) & (((1u16 << l) - 1) as u16) == 2 * ((w >> ((s + 1) as u16)) & (((1u16 << ((l
                - 1) as u16)) - 1) as u16)) + ((w >> s) & 1u16)) by (bit_vector)
                requires
                    1 <= l <= 8,
                    1 <= s <= 15,
            ;
            assert((w >> s) & 1u16 == 0 || (w >> s) & 1u16 == 1) by (bit_vector);
            assert(word_bit(w, p) == ((w >> s) & 1u16 == 1u16));
            if p < 8 {
                assert(i / 8 == first && i % 8 == p as int);
            } else {
                assert(i / 8 == first + 1 && i % 8 == p - 8);
            }
        }
    }

    /// Reads the `len` bits that start at bit `index`, as a number.
    pub fn bitslice(&self, index: u32, len: u8) -> (r: u8)
        requires
            len <= 8,
            index + len <= 160,
        ensures
            r as nat == self.bits_value(index as int, len as int),
    {
        if len == 0 {
            return 0;
        }
        let first: usize = (index / 8) as usize;
        let offset: u8 = (index % 8) as u8;
        let b1: u8 = self.0[first];
        let b2: u8 = if first + 1 < ID_LEN {
            self.0[first + 1]
        } else {
            0
        };
        let w: u16 = ((b1 as u16) << 8) | (b2 as u16);
        let shift: u16 = 16 - (offset as u16) - (len as u16);
        let bits: u16 = len as u16;
        assert(1u16 << bits >= 1) by (bit_vector)
            requires
                bits <= 8,
        ;
        let mask: u16 = (1u16 << bits) - 1;
        let r: u16 = (w >> shift) & mask;
        proof {
            assert forall|p: u16| p < 8 implies #[trigger] word_bit(w, p) == byte_bit(b1, p as u8) by {
                assert(word_bit(w, p) == byte_bit(b1, p as u8)) by (bit_vector)
                    requires
                        p < 8,
                        w == ((b1 as u16) << 8) | (b2 as u16),
                ;
            }
            assert forall|p: u16| 8 <= p < 16 implies #[trigger] word_bit(w, p) == byte_bit(
                b2,
                (p - 8) as u8,
            ) by {
                assert(word_bit(w, p) == byte_bit(b2, (p - 8) as u8)) by (bit_vector)
                    requires
                        8 <= p < 16,
                        w == ((b1 as u16) << 8) | (b2 as u16),
                ;
            }
            assert(r < 256) by (bit_vector)
                requires
                    r == (w >> shift) & mask,
                    mask == ((1u16 << (len as u16)) - 1) as u16,
                    len <= 8,
            ;
            self.lemma_window(w, first as int, offset, len);
        }
        r as u8
    }
}

/// Of two bytes that agree on their first `m` bits, the one with bit `m`
/// clear is below the one with bit `m` set.
pub proof fn lemma_byte_first_difference(x: u8, y: u8, m: u8)
    requires
        m < 8,
        forall|k: u8| k < m ==> byte_bit(x, k) == byte_bit(y, k),
        !byte_bit(x, m),
        byte_bit(y, m),
    ensures
        x < y,
{
    assert(0 < m ==> byte_bit(x, 0) == byte_bit(y, 0));
    assert(1 < m ==> byte_bit(x, 1) == byte_bit(y, 1));
    assert(2 < m ==> byte_bit(x, 2) == byte_bit(y, 2));
    assert(3 < m ==> byte_bit(x, 3) == byte_bit(y, 3));
    assert(4 < m ==> byte_bit(x, 4) == byte_bit(y, 4));
    assert(5 < m ==> byte_bit(x, 5) == byte_bit(y, 5));
    assert(6 < m ==> byte_bit(x, 6) == byte_bit(y, 6));
    assert(x < y) by (bit_vector)
        requires
            m < 8,
            0 < m ==> byte_bit(x, 0) == byte_bit(y, 0),
            1 < m ==> byte_bit(x, 1) == byte_bit(y, 1),
            2 < m ==> byte_bit(x, 2) == byte_bit(y, 2),
            3 < m ==> byte_bit(x, 3) == byte_bit(y, 3),
            4 < m ==> byte_bit(x, 4) == byte_bit(y, 4),
            5 < m ==> byte_bit(x, 5) == byte_bit(y, 5),
            6 < m ==> byte_bit(x, 6) == byte_bit(y, 6),
            !byte_bit(x, m),
            byte_bit(y, m),
    ;
}

impl Id {
    /// Of two identifiers that agree on their first `k` bits, the one with
    /// bit `k` clear is the smaller number.
    pub proof fn lemma_first_bit_difference(u: Id, v: Id, k: int)
        requires
            0 <= k < 160,
            forall|i: int| 0 <= i < k ==> u.bit(i) == v.bit(i),
            !u.bit(k),
            v.bit(k),
        ensures
            u.value() < v.value(),
    {
        let n = k / 8;
        let m = (k % 8) as u8;
        assert forall|j: int| 0 <= j < n implies u@[j] == v@[j] by {
            assert forall|b: u8| b < 8 implies byte_bit(u@[j], b) == byte_bit(v@[j], b) by {
                let i = 8 * j + b;
                assert(i / 8 == j && i % 8 == b as int);
                assert(u.bit(i) == v.bit(i));
            }
            lemma_byte_ext(u@[j], v@[j]);
        }
        assert forall|b: u8| b < m implies byte_bit(u@[n], b) == byte_bit(v@[n], b) by {
            let i = 8 * n + b;
            assert(i / 8 == n && i % 8 == b as int);
            assert(u.bit(i) == v.bit(i));
        }
        lemma_byte_first_difference(u@[n], v@[n], m);
        lemma_value_first_difference(u@, v@, n);
    }

    /// An identifier with more leading zeros is the smaller number.
    pub proof fn lemma_more_zeros_is_smaller(u: Id, v: Id)
        requires
            u.spec_leading_zeros() > v.spec_leading_zeros(),
        ensures
            u.value() < v.value(),
    {
        u.lemma_leading_zeros();
        v.lemma_leading_zeros();
        Id::lemma_first_bit_difference(u, v, v.spec_leading_zeros() as int);
    }

    /// Two identifiers agree on as many leading bits as their xor has
    /// leading zeros, and differ on the next.
    pub proof fn lemma_shared_prefix(a: Id, b: Id)
        ensures
            forall|i: int| 0 <= i < a.spec_xor(b).spec_leading_zeros() ==> a.bit(i) == b.bit(i),
            a.spec_xor(b).spec_leading_zeros() < 160 ==> a.bit(
                a.spec_xor(b).spec_leading_zeros() as int,
            ) != b.bit(a.spec_xor(b).spec_leading_zeros() as int),
    {
        let x = a.spec_xor(b);
        x.lemma_leading_zeros();
        assert forall|i: int| 0 <= i < x.spec_leading_zeros() implies a.bit(i) == b.bit(i) by {
            Id::lemma_bits(a, b, i);
        }
        if x.spec_leading_zeros() < 160 {
            Id::lemma_bits(a, b, x.spec_leading_zeros() as int);
        }
    }
}

/// `rand::random`: twenty bytes drawn at random.
#[verifier::external_body]
fn random_bytes() -> [u8; ID_LEN] {
    rand::random::<[u8; ID_LEN]>()
}

impl Id {
    /// The identifier with every bit set.
    pub fn ones() -> (r: Id)
        ensures
            r == Id::spec_max(),
    {
        let r = Id([0xFFu8; ID_LEN]);
        proof {
            Id::lemma_from_seq(Seq::new(20, |i: int| 0xFFu8));
            assert(r@ =~= Id::spec_max()@);
            Id::lemma_ext(r, Id::spec_max());
        }
        r
    }

    /// An identifier drawn at random.
    pub fn random() -> Id {
        Id(random_bytes())
    }

    /// The identifier that shares its first `bucket` bits with `own`,
    /// differs from it in bit `bucket`, and has the other bits of `random`.
    pub fn bootstrap_target(own: Id, bucket: u8, random: Id) -> (r: Id)
        requires
            bucket < 160,
        ensures
            forall|i: int|
                0 <= i < 160 ==> r.bit(i) == if i < bucket {
                    own.bit(i)
                } else if i == bucket {
                    !own.bit(i)
                } else {
                    random.bit(i)
                },
    {
        let mask = Id::create_left_mask(bucket + 1);
        let flip = Id::zero().set_bit(bucket);
        let fixed = (own ^ flip) & mask;
        let free = random & core::ops::Not::not(mask);
        let r = fixed | free;
        proof {
            assert forall|i: int| 0 <= i < 160 implies r.bit(i) == if i < bucket {
                own.bit(i)
            } else if i == bucket {
                !own.bit(i)
            } else {
                random.bit(i)
            } by {
                Id::lemma_bits(fixed, free, i);
                Id::lemma_bits(own.spec_xor(flip), mask, i);
                Id::lemma_bits(own, flip, i);
                Id::lemma_bits(random, mask.spec_not(), i);
                Id::lemma_bits(mask, mask, i);
                Id::lemma_bits(Id::spec_zero(), Id::spec_zero(), i);
            }
        }
        r
    }
}

/// The lower-case hexadecimal digit of a number below sixteen.
pub open spec fn hex_digit(n: int) -> char {
    if n < 10 {
        (48 + n) as char
    } else {
        (87 + n) as char
    }
}

/// The bytes in lower-case hexadecimal: two digits for each byte, the
/// upper half of the byte first.
pub open spec fn hex_chars(bytes: Seq<u8>) -> Seq<char> {
    Seq::new(
        2 * bytes.len(),
        |i: int|
            hex_digit(
                if i % 2 == 0 {
                    bytes[i / 2] as int / 16
                } else {
                    bytes[i / 2] as int % 16
                },
            ),
    )
}

/// The number of `c` that `s` starts with.
pub open spec fn run_of(s: Seq<char>, c: char) -> int
    decreases s.len(),
{
    if s.len() == 0 || s[0] != c {
        0
    } else {
        1 + run_of(s.drop_first(), c)
    }
}

/// The number that a hexadecimal digit stands for, in either case.
pub open spec fn hex_value(c: char) -> Option<u8> {
    if '0' <= c <= '9' {
        Some((c as u8 - 48) as u8)
    } else if 'a' <= c <= 'f' {
        Some((c as u8 - 87) as u8)
    } else if 'A' <= c <= 'F' {
        Some((c as u8 - 55) as u8)
    } else {
        None
    }
}

/// Whether `s` is made of at most forty hexadecimal digits.
pub open spec fn is_hex(s: Seq<char>) -> bool {
    &&& s.len() <= 40
    &&& forall|i: int| 0 <= i < s.len() ==> hex_value(#[trigger] s[i]) is Some
}

/// `hex::encode`: the bytes in lower-case hexadecimal.
#[verifier::external_body]
fn hex_encode(bytes: &[u8; ID_LEN]) -> (r: String)
    ensures
        r@ == hex_chars(bytes@),
{
    hex::encode(bytes)
}

fn digit_value(c: char) -> (r: Option<u8>)
    ensures
        r == hex_value(c),
        r matches Some(v) ==> v < 16,
{
    if c >= '0' && c <= '9' {
        Some(c as u8 - 48)
    } else if c >= 'a' && c <= 'f' {
        Some(c as u8 - 87)
    } else if c >= 'A' && c <= 'F' {
        Some(c as u8 - 55)
    } else {
        None
    }
}

proof fn lemma_run_of(s: Seq<char>, c: char, i: int)
    requires
        0 <= i <= s.len(),
        forall|j: int| 0 <= j < i ==> s[j] == c,
        i < s.len() ==> s[i] != c,
    ensures
        run_of(s, c) == i,
    decreases s.len(),
{
    if i > 0 {
        assert(s[0] == c);
        lemma_run_of(s.drop_first(), c, i - 1);
    }
}

impl Id {
    /// Half-byte `j` of the identifier, for `0 <= j < 40`, the upper half of
    /// the first byte first.
    pub open spec fn nibble(self, j: int) -> int {
        if j % 2 == 0 {
            self@[j / 2] as int / 16
        } else {
            self@[j / 2] as int % 16
        }
    }

    /// The identifier in lower-case hexadecimal without leading zeros.
    pub open spec fn spec_short_hex(self) -> Seq<char> {
        hex_chars(self@).skip(run_of(hex_chars(self@), '0'))
    }

    /// The identifier in lower-case hexadecimal without leading zeros; the
    /// zero identifier is the empty string.
    pub fn as_short_hex(&self) -> (r: String)
        ensures
            r@ == self.spec_short_hex(),
    {
        let hex_id = hex_encode(&self.0);
        let text = hex_id.as_str();
        let n = text.unicode_len();
        let mut i: usize = 0;
        while i < n && text.get_char(i) == '0'
            invariant
                i <= n,
                n == text@.len(),
                forall|j: int| 0 <= j < i ==> text@[j] == '0',
            decreases n - i,
        {
            i += 1;
        }
        proof {
            lemma_run_of(text@, '0', i as int);
        }
        String::from_str(text.substring_char(i, n))
    }

    /// The identifier that `s` writes in hexadecimal, if `s` is made of at
    /// most forty hexadecimal digits; fewer than forty digits are the last
    /// of the identifier, and the digits before them zero.
    pub fn parse_hex(s: &str) -> (r: Option<Id>)
        ensures
            r is Some <==> is_hex(s@),
            r matches Some(id) ==> forall|j: int|
                0 <= j < 40 ==> #[trigger] id.nibble(j) == if j < 40 - s@.len() {
                    0
                } else {
                    hex_value(s@[j - (40 - s@.len())]).unwrap() as int
                },
    {
        let n = s.unicode_len();
        if n > 40 {
            return None;
        }
        let pad: usize = 40 - n;
        let mut res = [0u8; ID_LEN];
        let mut i: usize = 0;
        while i < n
            invariant
                i <= n <= 40,
                n == s@.len(),
                pad == 40 - n,
                forall|j: int| 0 <= j < i ==> hex_value(#[trigger] s@[j]) is Some,
                forall|j: int|
                    0 <= j < 40 ==> #[trigger] Id(res).nibble(j) == if j < pad || j >= pad + i {
                        0
                    } else {
                        hex_value(s@[j - pad]).unwrap() as int
                    },
            decreases n - i,
        {
            let v = match digit_value(s.get_char(i)) {
                Some(v) => v,
                None => {
                    return None;
                },
            };
            let j: usize = pad + i;
            let at: usize = j / 2;
            let ghost before = Id(res);
            let old_byte = res[at];
            proof {
                assert(before.nibble(j as int) == 0);
                if j % 2 == 0 {
                    assert(before.nibble(j + 1) == 0);
                }
            }
            if j % 2 == 0 {
                res[at] = v * 16;
            } else {
                res[at] = old_byte + v;
            }
            proof {
                let after = Id(res);
                assert forall|w: int| 0 <= w < 40 implies #[trigger] after.nibble(w) == if w < pad || w
                    >= pad + i + 1 {
                    0
                } else {
                    hex_value(s@[w - pad]).unwrap() as int
                } by {
                    if w / 2 != at {
                        assert(after@[w / 2] == before@[w / 2]);
                        assert(after.nibble(w) == before.nibble(w));
                    } else if w != j {
                        assert(before.nibble(w) == if w < pad || w >= pad + i {
                            0
                        } else {
                            hex_value(s@[w - pad]).unwrap() as int
                        });
                    }
                }
            }
            i += 1;
        }
        Some(Id(res))
    }

    /// The identifier that `s` writes in hexadecimal.
    pub fn from_hex(s: &str) -> (r: Id)
        requires
            is_hex(s@),
        ensures
            forall|j: int|
                0 <= j < 40 ==> #[trigger] r.nibble(j) == if j < 40 - s@.len() {
                    0
                } else {
                    hex_value(s@[j - (40 - s@.len())]).unwrap() as int
                },
    {
        match Id::parse_hex(s) {
            Some(id) => id,
            None => Id::zero(),
        }
    }
}

} // verus!
