//! Identifiers of nodes and keys, and the XOR distance between them.

use std::cmp::Ordering;
use vstd::prelude::*;

verus! {

broadcast use vstd::array::group_array_axioms;

/// The XOR of two byte sequences, byte by byte.
pub open spec fn xor_bytes(a: Seq<u8>, b: Seq<u8>) -> Seq<u8> {
    Seq::new(20, |i: int| a[i] ^ b[i])
}

/// Twenty zero bytes: the distance of an identifier to itself.
pub open spec fn zero_bytes() -> Seq<u8> {
    Seq::new(20, |i: int| 0u8)
}

/// Lexicographic comparison of two byte sequences, from index `i` on.
pub open spec fn lex_cmp_from(a: Seq<u8>, b: Seq<u8>, i: int) -> Ordering
    decreases a.len() - i,
{
    if i < 0 || i >= a.len() || i >= b.len() {
        Ordering::Equal
    } else if a[i] < b[i] {
        Ordering::Less
    } else if a[i] > b[i] {
        Ordering::Greater
    } else {
        lex_cmp_from(a, b, i + 1)
    }
}

/// The total order on distances: lexicographic over the bytes, which is the
/// order of the big-endian numbers they spell.
pub open spec fn dist_cmp(a: Seq<u8>, b: Seq<u8>) -> Ordering {
    lex_cmp_from(a, b, 0)
}

/// `a` is no farther than `b`.
pub open spec fn dist_le(a: Seq<u8>, b: Seq<u8>) -> bool {
    dist_cmp(a, b) != Ordering::Greater
}

/// `a` is strictly closer than `b`.
pub open spec fn dist_lt(a: Seq<u8>, b: Seq<u8>) -> bool {
    dist_cmp(a, b) == Ordering::Less
}

/// Bit `k` of a byte, bit 0 being the least significant.
pub open spec fn byte_bit(b: u8, k: int) -> bool {
    (b >> (k as u8)) & 1u8 == 1u8
}

/// Bit `k` of a 160-bit distance, bit 159 being the most significant bit of
/// the first byte.
pub open spec fn bit_of(d: Seq<u8>, k: int) -> bool {
    byte_bit(d[19 - k / 8], k % 8)
}

/// Every byte is zero.
pub open spec fn is_zero(d: Seq<u8>) -> bool {
    forall|i: int| 0 <= i < 20 ==> d[i] == 0
}

/// The bucket index of a distance: the position of its most significant set
/// bit, or 0 for the zero distance.
pub open spec fn is_bucket_index(d: Seq<u8>, r: int) -> bool {
    &&& 0 <= r < 160
    &&& is_zero(d) ==> r == 0
    &&& !is_zero(d) ==> bit_of(d, r) && forall|j: int| r < j < 160 ==> !bit_of(d, j)
}

proof fn lemma_lex_flip(a: Seq<u8>, b: Seq<u8>, i: int)
    requires
        a.len() == b.len(),
    ensures
        lex_cmp_from(a, b, i) == Ordering::Less <==> lex_cmp_from(b, a, i) == Ordering::Greater,
        lex_cmp_from(a, b, i) == Ordering::Equal <==> lex_cmp_from(b, a, i) == Ordering::Equal,
    decreases a.len() - i,
{
    if 0 <= i < a.len() && a[i] == b[i] {
        lemma_lex_flip(a, b, i + 1);
    }
}

proof fn lemma_lex_trans(a: Seq<u8>, b: Seq<u8>, c: Seq<u8>, i: int)
    requires
        a.len() == b.len() == c.len(),
        lex_cmp_from(a, b, i) != Ordering::Greater,
        lex_cmp_from(b, c, i) != Ordering::Greater,
    ensures
        lex_cmp_from(a, c, i) != Ordering::Greater,
        lex_cmp_from(a, b, i) == Ordering::Less ==> lex_cmp_from(a, c, i) == Ordering::Less,
        lex_cmp_from(b, c, i) == Ordering::Less ==> lex_cmp_from(a, c, i) == Ordering::Less,
    decreases a.len() - i,
{
    if 0 <= i < a.len() && a[i] == b[i] && b[i] == c[i] {
        lemma_lex_trans(a, b, c, i + 1);
    }
}

proof fn lemma_lex_equal(a: Seq<u8>, b: Seq<u8>, i: int)
    requires
        0 <= i <= a.len(),
        a.len() == b.len(),
        lex_cmp_from(a, b, i) == Ordering::Equal,
    ensures
        forall|j: int| i <= j < a.len() ==> a[j] == b[j],
    decreases a.len() - i,
{
    if i < a.len() {
        lemma_lex_equal(a, b, i + 1);
    }
}

/// The order on distances is total: of two distances, one is no farther than
/// the other, and `dist_lt` is the strict part of `dist_le`.
pub proof fn lemma_dist_total(a: Seq<u8>, b: Seq<u8>)
    requires
        a.len() == b.len(),
    ensures
        dist_le(a, b) || dist_le(b, a),
        dist_lt(a, b) <==> !dist_le(b, a),
{
    lemma_lex_flip(a, b, 0);
}

/// The order on distances is transitive.
pub proof fn lemma_dist_trans(a: Seq<u8>, b: Seq<u8>, c: Seq<u8>)
    requires
        a.len() == b.len() == c.len(),
        dist_le(a, b),
        dist_le(b, c),
    ensures
        dist_le(a, c),
        dist_lt(a, b) ==> dist_lt(a, c),
        dist_lt(b, c) ==> dist_lt(a, c),
{
    lemma_lex_trans(a, b, c, 0);
}

/// Two distances that compare equal are the same distance.
pub proof fn lemma_dist_antisym(a: Seq<u8>, b: Seq<u8>)
    requires
        a.len() == b.len(),
        dist_le(a, b),
        dist_le(b, a),
    ensures
        a == b,
{
    lemma_lex_flip(a, b, 0);
    lemma_lex_equal(a, b, 0);
    assert(a =~= b);
}

/// A distance has one bucket index.
pub proof fn lemma_bucket_index_unique(d: Seq<u8>, a: int, b: int)
    requires
        is_bucket_index(d, a),
        is_bucket_index(d, b),
    ensures
        a == b,
{
}

proof fn lemma_xor_byte_laws(x: u8, y: u8, t: u8)
    by (bit_vector)
    ensures
        x ^ x == 0u8,
        x ^ y == y ^ x,
        (x ^ t == y ^ t) ==> x == y,
{
}

/// The distance of an id to itself is zero.
pub proof fn lemma_xor_self_is_zero(a: NodeId)
    ensures
        xor_bytes(a@, a@) == zero_bytes(),
        is_zero(xor_bytes(a@, a@)),
{
    assert forall|i: int| 0 <= i < 20 implies xor_bytes(a@, a@)[i] == 0u8 by {
        lemma_xor_byte_laws(a@[i], a@[i], 0);
    }
    assert(xor_bytes(a@, a@) =~= zero_bytes());
}

/// The distance is symmetric.
pub proof fn lemma_xor_symmetric(a: NodeId, b: NodeId)
    ensures
        xor_bytes(a@, b@) == xor_bytes(b@, a@),
{
    assert forall|i: int| 0 <= i < 20 implies xor_bytes(a@, b@)[i] == xor_bytes(b@, a@)[i] by {
        lemma_xor_byte_laws(a@[i], b@[i], 0);
    }
    assert(xor_bytes(a@, b@) =~= xor_bytes(b@, a@));
}

/// Distinct ids lie at distinct distances from any given target.
pub proof fn lemma_xor_injective(a: NodeId, b: NodeId, t: NodeId)
    requires
        xor_bytes(a@, t@) == xor_bytes(b@, t@),
    ensures
        a == b,
{
    assert forall|i: int| 0 <= i < 20 implies a@[i] == b@[i] by {
        assert(xor_bytes(a@, t@)[i] == xor_bytes(b@, t@)[i]);
        assert(xor_bytes(a@, t@)[i] == a@[i] ^ t@[i]);
        assert(xor_bytes(b@, t@)[i] == b@[i] ^ t@[i]);
        lemma_xor_byte_laws(a@[i], b@[i], t@[i]);
    }
    assert(a.id =~= b.id);
}

/// A node id, with 160 bits.
#[derive(Clone, Copy, Debug, Eq, PartialOrd, Ord, Hash)]
pub struct NodeId {
    /// The bytes of the id, most significant first.
    pub id: [u8; 20],
}

impl View for NodeId {
    type V = Seq<u8>;

    open spec fn view(&self) -> Seq<u8> {
        self.id@
    }
}

impl PartialEq for NodeId {
    fn eq(&self, other: &NodeId) -> (r: bool) {
        let mut i: usize = 0;
        while i < 20
            invariant
                0 <= i <= 20,
                forall|j: int| 0 <= j < i ==> self.id@[j] == other.id@[j],
            decreases 20 - i,
        {
            if self.id[i] != other.id[i] {
                return false;
            }
            i += 1;
        }
        assert(self.id@ =~= other.id@);
        true
    }
}

impl vstd::std_specs::cmp::PartialEqSpecImpl for NodeId {
    open spec fn obeys_eq_spec() -> bool {
        true
    }

    open spec fn eq_spec(&self, other: &NodeId) -> bool {
        self@ == other@
    }
}

/// Two ids with the same bytes are the same id.
pub proof fn lemma_view_injective(a: NodeId, b: NodeId)
    requires
        a@ == b@,
    ensures
        a == b,
{
    assert(a.id =~= b.id);
}

impl NodeId {
    /// Creates a given ID with the raw bytes specified. Useful for creating
    /// keys.
    pub fn from_bytes(id: [u8; 20]) -> (r: NodeId)
        ensures
            r.id == id,
    {
        NodeId { id }
    }

    /// Create a new random `NodeId` from the operating system's random
    /// source, or `None` when that source fails.
    pub fn random() -> Option<NodeId> {
        match os_random_bytes() {
            Some(id) => Some(NodeId { id }),
            None => None,
        }
    }

    /// XOR this id with `other`, in order to compute the distance.
    pub fn xor(&self, other: &NodeId) -> (r: Distance)
        ensures
            r@ == xor_bytes(self@, other@),
    {
        let mut ret = self.id;
        let mut i: usize = 0;
        while i < 20
            invariant
                0 <= i <= 20,
                forall|j: int| 0 <= j < i ==> ret@[j] == self.id@[j] ^ other.id@[j],
                forall|j: int| i <= j < 20 ==> ret@[j] == self.id@[j],
            decreases 20 - i,
        {
            ret[i] = ret[i] ^ other.id[i];
            i += 1;
        }
        let r = Distance(NodeId { id: ret });
        assert(r@ =~= xor_bytes(self@, other@));
        r
    }
}

proof fn lemma_zero_byte_has_no_bit(s: u8)
    by (bit_vector)
    ensures
        (0u8 >> s) & 1u8 == 0u8,
{
}

proof fn lemma_nonzero_byte(b: u8)
    by (bit_vector)
    requires
        b != 0,
    ensures
        (b >> 0u8) >= 1,
{
}

proof fn lemma_shift_step(b: u8, h: u8)
    by (bit_vector)
    requires
        h < 8,
        (b >> h) > 1,
    ensures
        h < 7,
        (b >> ((h + 1) as u8)) >= 1,
{
}

proof fn lemma_top_bit(b: u8, h: u8, k: u8)
    by (bit_vector)
    requires
        h < k < 8,
        (b >> h) == 1,
    ensures
        (b >> k) & 1u8 == 0u8,
{
}

proof fn lemma_one_bit(b: u8, h: u8)
    by (bit_vector)
    requires
        (b >> h) == 1,
    ensures
        (b >> h) & 1u8 == 1u8,
{
}

/// The position of the most significant set bit of a non-zero byte.
fn highest_bit(b: u8) -> (h: u8)
    requires
        b != 0,
    ensures
        h < 8,
        byte_bit(b, h as int),
        forall|k: int| h < k < 8 ==> !byte_bit(b, k),
{
    proof {
        lemma_nonzero_byte(b);
    }
    let mut h: u8 = 0;
    while (b >> h) > 1
        invariant
            h < 8,
            (b >> h) >= 1,
        decreases 7 - h,
    {
        proof {
            lemma_shift_step(b, h);
        }
        h = h + 1;
    }
    proof {
        lemma_one_bit(b, h);
        assert forall|k: int| h < k < 8 implies !byte_bit(b, k) by {
            lemma_top_bit(b, h, k as u8);
        }
    }
    h
}

/// Relies on `rand::rngs::OsRng::try_fill_bytes`: twenty bytes from the
/// operating system's random source, or `None` where the source fails.
#[verifier::external_body]
fn os_random_bytes() -> Option<[u8; 20]> {
    let mut bytes = [0u8; 20];
    match rand::RngCore::try_fill_bytes(&mut rand::rngs::OsRng, &mut bytes) {
        Ok(()) => Some(bytes),
        Err(_) => None,
    }
}

/// The distance between two nodes.
#[derive(Clone, Copy, Debug, Eq, Ord)]
pub struct Distance(pub NodeId);

impl View for Distance {
    type V = Seq<u8>;

    open spec fn view(&self) -> Seq<u8> {
        self.0@
    }
}

impl PartialEq for Distance {
    fn eq(&self, other: &Distance) -> (r: bool) {
        self.0 == other.0
    }
}

impl vstd::std_specs::cmp::PartialEqSpecImpl for Distance {
    open spec fn obeys_eq_spec() -> bool {
        true
    }

    open spec fn eq_spec(&self, other: &Distance) -> bool {
        self@ == other@
    }
}

impl PartialOrd for Distance {
    fn partial_cmp(&self, other: &Distance) -> (r: Option<Ordering>) {
        Some(self.compare(other))
    }
}

impl vstd::std_specs::cmp::PartialOrdSpecImpl for Distance {
    open spec fn obeys_partial_cmp_spec() -> bool {
        true
    }

    open spec fn partial_cmp_spec(&self, other: &Distance) -> Option<Ordering> {
        Some(dist_cmp(self@, other@))
    }
}

impl Distance {
    /// Compares two distances: lexicographically over the bytes.
    pub fn compare(&self, other: &Distance) -> (r: Ordering)
        ensures
            r == dist_cmp(self@, other@),
    {
        let mut i: usize = 0;
        while i < 20
            invariant
                0 <= i <= 20,
                dist_cmp(self@, other@) == lex_cmp_from(self@, other@, i as int),
            decreases 20 - i,
        {
            let a = self.0.id[i];
            let b = other.0.id[i];
            if a < b {
                return Ordering::Less;
            } else if a > b {
                return Ordering::Greater;
            }
            i += 1;
        }
        Ordering::Equal
    }

    /// Returns the index of the bucket of a given distance.
    ///
    /// This will be a number from 0 to 159: the position of the most
    /// significant set bit, bit 159 being the top bit of the first byte.
    pub fn bucket_index(&self) -> (r: usize)
        ensures
            is_bucket_index(self@, r as int),
    {
        let mut i: usize = 0;
        while i < 20
            invariant
                0 <= i <= 20,
                forall|j: int| 0 <= j < i ==> self.0.id@[j] == 0,
            decreases 20 - i,
        {
            let byte = self.0.id[i];
            if byte != 0 {
                let h = highest_bit(byte);
                let r: usize = 8 * (19 - i) + h as usize;
                proof {
                    let d = self@;
                    assert(r / 8 == 19 - i && r % 8 == h);
                    assert(!is_zero(d));
                    assert forall|j: int| r < j < 160 implies !bit_of(d, j) by {
                        if j / 8 == 19 - i {
                            assert(h < j % 8 < 8);
                        } else {
                            assert(0 <= 19 - j / 8 < i);
                            lemma_zero_byte_has_no_bit((j % 8) as u8);
                        }
                    }
                }
                return r;
            }
            i += 1;
        }
        assert(is_zero(self@));
        0
    }
}

} // verus!
