//! 160-bit identifiers kept as five 32-bit lanes, and the XOR metric on them.

use vstd::prelude::*;
use vstd::std_specs::cmp::PartialEqSpec;

verus! {

/// Number of 32-bit lanes in an [`InfoHash`].
pub const LANES: usize = 5;

/// A 160-bit DHT identifier, stored as five `u32` lanes (lane 0 least significant).
#[derive(Copy, Clone, Debug)]
pub struct InfoHash([u32; 5]);

impl View for InfoHash {
    type V = Seq<u32>;

    closed spec fn view(&self) -> Seq<u32> {
        self.0@
    }
}

/// Lane-wise exclusive or of two lane sequences.
pub open spec fn xor_lanes(a: Seq<u32>, b: Seq<u32>) -> Seq<u32> {
    Seq::new(5, |i: int| a[i] ^ b[i])
}

/// The all-zero identifier.
pub open spec fn zero_lanes() -> Seq<u32> {
    Seq::new(5, |i: int| 0u32)
}

/// One uniformly random `u32`, drawn from the thread-local generator.
///
/// Trusted: calls `rand::random::<u32>()`. Nothing is claimed of the value:
/// every `u32` may come back.
#[verifier::external_body]
fn random_u32() -> u32 {
    rand::random::<u32>()
}

impl InfoHash {
    /// Every identifier has exactly five lanes.
    pub proof fn lemma_len(&self)
        ensures
            self@.len() == 5,
    {
    }

    /// Builds an identifier from its lanes (lane 0 least significant).
    pub fn from_lanes(lanes: [u32; 5]) -> (r: InfoHash)
        ensures
            r@ == lanes@,
    {
        InfoHash(lanes)
    }

    /// The lanes of the identifier (lane 0 least significant).
    pub fn lanes(&self) -> (r: [u32; 5])
        ensures
            r@ == self@,
    {
        self.0
    }

    /// XOR distance between two identifiers: the lane-wise exclusive or.
    pub fn dist(&self, other: &InfoHash) -> (r: InfoHash)
        ensures
            r@ == xor_lanes(self@, other@),
    {
        let a = self.0;
        let b = other.0;
        let r = InfoHash([a[0] ^ b[0], a[1] ^ b[1], a[2] ^ b[2], a[3] ^ b[3], a[4] ^ b[4]]);
        assert(r@ =~= xor_lanes(self@, other@));
        r
    }

    /// A random identifier: each lane is an independent random `u32`.
    pub fn random() -> (r: InfoHash)
        ensures
            r@.len() == 5,
    {
        let l0 = random_u32();
        let l1 = random_u32();
        let l2 = random_u32();
        let l3 = random_u32();
        let l4 = random_u32();
        InfoHash::from_lanes([l0, l1, l2, l3, l4])
    }

    /// The identifier whose lanes are all zero.
    pub fn zero() -> (r: InfoHash)
        ensures
            r@ == zero_lanes(),
    {
        let r = InfoHash([0u32, 0u32, 0u32, 0u32, 0u32]);
        assert(r@ =~= zero_lanes());
        r
    }
}

/// Distance to the zero identifier is the identifier itself.
pub proof fn law_dist_with_zero_is_self(a: InfoHash)
    ensures
        xor_lanes(a@, zero_lanes()) == a@,
{
    a.lemma_len();
    assert forall|i: int| 0 <= i < 5 implies #[trigger] xor_lanes(a@, zero_lanes())[i] == a@[i] by {
        let x = a@[i];
        assert(x ^ 0u32 == x) by (bit_vector);
    }
    assert(xor_lanes(a@, zero_lanes()) =~= a@);
}

/// Distance of an identifier to itself is zero.
pub proof fn law_dist_with_self_is_zero(a: InfoHash)
    ensures
        xor_lanes(a@, a@) == zero_lanes(),
{
    assert forall|i: int| 0 <= i < 5 implies #[trigger] xor_lanes(a@, a@)[i] == zero_lanes()[i] by {
        let x = a@[i];
        assert(x ^ x == 0u32) by (bit_vector);
    }
    assert(xor_lanes(a@, a@) =~= zero_lanes());
}

/// The distance is symmetric.
pub proof fn law_dist_symmetric(a: InfoHash, b: InfoHash)
    ensures
        xor_lanes(a@, b@) == xor_lanes(b@, a@),
{
    assert forall|i: int| 0 <= i < 5 implies #[trigger] xor_lanes(a@, b@)[i] == xor_lanes(b@, a@)[i] by {
        let x = a@[i];
        let y = b@[i];
        assert(x ^ y == y ^ x) by (bit_vector);
    }
    assert(xor_lanes(a@, b@) =~= xor_lanes(b@, a@));
}

/// The distance is zero exactly between equal identifiers.
pub proof fn law_dist_zero_iff_equal(a: InfoHash, b: InfoHash)
    ensures
        xor_lanes(a@, b@) == zero_lanes() <==> a@ == b@,
{
    a.lemma_len();
    b.lemma_len();
    if xor_lanes(a@, b@) == zero_lanes() {
        assert forall|i: int| 0 <= i < 5 implies #[trigger] a@[i] == b@[i] by {
            let x = a@[i];
            let y = b@[i];
            assert(xor_lanes(a@, b@)[i] == zero_lanes()[i]);
            assert(x ^ y == 0u32 ==> x == y) by (bit_vector);
        }
        assert(a@ =~= b@);
    }
    if a@ == b@ {
        law_dist_with_self_is_zero(a);
    }
}

/// Distances compose: the distance between the distances from `b` to `a`
/// and to `c` is the distance from `a` to `c`.
pub proof fn law_dist_compose(a: InfoHash, b: InfoHash, c: InfoHash)
    ensures
        xor_lanes(xor_lanes(a@, b@), xor_lanes(b@, c@)) == xor_lanes(a@, c@),
{
    assert forall|i: int| 0 <= i < 5 implies #[trigger] xor_lanes(xor_lanes(a@, b@), xor_lanes(b@, c@))[i]
        == xor_lanes(a@, c@)[i] by {
        let x = a@[i];
        let y = b@[i];
        let z = c@[i];
        assert((x ^ y) ^ (y ^ z) == x ^ z) by (bit_vector);
    }
    assert(xor_lanes(xor_lanes(a@, b@), xor_lanes(b@, c@)) =~= xor_lanes(a@, c@));
}

/// Bit `k` of a `u32` is set.
pub open spec fn bit_set(x: u32, k: u32) -> bool {
    (x >> k) & 1u32 == 1u32
}

/// The distance is bitwise: it has five lanes, and bit `k` of each lane is
/// set exactly when that bit is set in one of the two identifiers' lanes
/// and not in the other.
pub proof fn law_dist_bitwise(a: InfoHash, b: InfoHash, i: int, k: u32)
    requires
        0 <= i < 5,
        k < 32,
    ensures
        xor_lanes(a@, b@).len() == 5,
        bit_set(xor_lanes(a@, b@)[i], k) <==> (bit_set(a@[i], k) != bit_set(b@[i], k)),
{
    let x = a@[i];
    let y = b@[i];
    let z = xor_lanes(a@, b@)[i];
    assert(z == x ^ y);
    assert(((x ^ y) >> k) & 1u32 == 1u32 <==> (((x >> k) & 1u32 == 1u32) != ((y >> k) & 1u32 == 1u32)))
        by (bit_vector)
        requires
            k < 32u32,
    ;
}

/// The lower-case hexadecimal digit of `d` (`d < 16`).
pub open spec fn hex_digit(d: nat) -> char {
    seq!['0', '1', '2', '3', '4', '5', '6', '7', '8', '9', 'a', 'b', 'c', 'd', 'e', 'f'][d as int]
}

/// The lower-case hexadecimal digits of `n`, without leading zeros ("0" for zero).
pub open spec fn hex(n: nat) -> Seq<char>
    decreases n,
{
    if n < 16 {
        seq![hex_digit(n)]
    } else {
        hex(n / 16).push(hex_digit(n % 16))
    }
}

/// One lane as text: its hexadecimal digits, right-aligned with spaces to
/// at least four characters.
pub open spec fn lane_text(n: u32) -> Seq<char> {
    let d = hex(n as nat);
    if d.len() < 4 {
        Seq::new((4 - d.len()) as nat, |i: int| ' ') + d
    } else {
        d
    }
}

/// An identifier as text: its lanes from the most significant (lane 4) down.
pub open spec fn hash_text(l: Seq<u32>) -> Seq<char> {
    lane_text(l[4]) + lane_text(l[3]) + lane_text(l[2]) + lane_text(l[1]) + lane_text(l[0])
}

/// The value of a lower-case hexadecimal digit character (0 for any other).
pub open spec fn digit_value(c: char) -> int {
    let v = c as int;
    if 48 <= v <= 57 {
        v - 48
    } else if 97 <= v <= 102 {
        v - 87
    } else {
        0
    }
}

/// The character is a lower-case hexadecimal digit.
pub open spec fn is_hex_char(c: char) -> bool {
    let v = c as int;
    (48 <= v <= 57) || (97 <= v <= 102)
}

/// The number that a string of hexadecimal digits denotes, most significant first.
pub open spec fn parse_hex(s: Seq<char>) -> int
    decreases s.len(),
{
    if s.len() == 0 {
        0
    } else {
        parse_hex(s.drop_last()) * 16 + digit_value(s.last())
    }
}

/// The text without its leading spaces.
pub open spec fn strip_spaces(s: Seq<char>) -> Seq<char>
    decreases s.len(),
{
    if s.len() > 0 && s[0] == ' ' {
        strip_spaces(s.drop_first())
    } else {
        s
    }
}

proof fn lemma_digit_value(d: nat)
    requires
        d < 16,
    ensures
        is_hex_char(hex_digit(d)),
        digit_value(hex_digit(d)) == d,
{
    let t = seq!['0', '1', '2', '3', '4', '5', '6', '7', '8', '9', 'a', 'b', 'c', 'd', 'e', 'f'];
    assert(hex_digit(d) == t[d as int]);
    assert(t[0] as int == 48 && t[1] as int == 49 && t[2] as int == 50 && t[3] as int == 51);
    assert(t[4] as int == 52 && t[5] as int == 53 && t[6] as int == 54 && t[7] as int == 55);
    assert(t[8] as int == 56 && t[9] as int == 57 && t[10] as int == 97 && t[11] as int == 98);
    assert(t[12] as int == 99 && t[13] as int == 100 && t[14] as int == 101 && t[15] as int == 102);
}

/// Read back in base 16, the digits of `n` give `n`; every one of them is a
/// hexadecimal digit, and only zero starts with the digit `0`.
pub proof fn law_hex_reads_back(n: nat)
    ensures
        parse_hex(hex(n)) == n,
        hex(n).len() > 0,
        forall|j: int| 0 <= j < hex(n).len() ==> is_hex_char(#[trigger] hex(n)[j]),
        n > 0 ==> hex(n)[0] != '0',
    decreases n,
{
    if n < 16 {
        lemma_digit_value(n);
        let h = hex(n);
        assert(h.drop_last() =~= Seq::<char>::empty());
        assert(parse_hex(h) == parse_hex(h.drop_last()) * 16 + digit_value(h.last()));
        assert(n > 0 ==> digit_value(h[0]) != 0);
    } else {
        law_hex_reads_back(n / 16);
        lemma_digit_value(n % 16);
        let h = hex(n);
        assert(h.drop_last() =~= hex(n / 16));
        assert(h.last() == hex_digit(n % 16));
        assert(parse_hex(h) == parse_hex(hex(n / 16)) * 16 + digit_value(h.last()));
        assert((n / 16) * 16 + n % 16 == n) by (nonlinear_arith);
        assert(h[0] == hex(n / 16)[0]);
        assert forall|j: int| 0 <= j < h.len() implies is_hex_char(#[trigger] h[j]) by {
            if j < h.len() - 1 {
                assert(h[j] == hex(n / 16)[j]);
            }
        }
    }
}

/// Each lane's text is at least four characters long and, read back as
/// hexadecimal after its leading spaces, gives the lane's value.
pub proof fn law_lane_text_reads_back(n: u32)
    ensures
        lane_text(n).len() >= 4,
        parse_hex(strip_spaces(lane_text(n))) == n,
{
    law_hex_reads_back(n as nat);
    let d = hex(n as nat);
    assert(!(d[0] == ' ')) by {
        assert(is_hex_char(d[0]));
    }
    if d.len() < 4 {
        let pad = (4 - d.len()) as nat;
        lemma_strip_spaces(pad, d);
    } else {
        assert(strip_spaces(d) == d);
    }
}

proof fn lemma_hex_short(n: nat)
    requires
        n < 0x10000,
    ensures
        hex(n).len() <= 4,
{
    if n >= 16 {
        let a = n / 16;
        assert(hex(n).len() == hex(a).len() + 1);
        if a >= 16 {
            let b = a / 16;
            assert(hex(a).len() == hex(b).len() + 1);
            if b >= 16 {
                let c = b / 16;
                assert(hex(b).len() == hex(c).len() + 1);
                assert(c < 16);
                assert(hex(c).len() == 1);
            }
        }
    }
}

/// For lanes below `0x10000` each lane takes exactly four characters, and
/// the text holds them most significant lane first: read back as
/// hexadecimal after its leading spaces, the `j`-th group of four
/// characters gives lane `4 - j`.
pub proof fn law_hash_text_lanes(l: Seq<u32>, i: int)
    requires
        l.len() == 5,
        forall|j: int| 0 <= j < 5 ==> #[trigger] l[j] < 0x10000,
        0 <= i < 5,
    ensures
        hash_text(l).len() == 20,
        parse_hex(strip_spaces(hash_text(l).subrange(4 * (4 - i), 4 * (4 - i) + 4))) == l[i],
{
    assert forall|j: int| 0 <= j < 5 implies #[trigger] lane_text(l[j]).len() == 4 by {
        lemma_hex_short(l[j] as nat);
    }
    let t4 = lane_text(l[4]);
    let t3 = lane_text(l[3]);
    let t2 = lane_text(l[2]);
    let t1 = lane_text(l[1]);
    let t0 = lane_text(l[0]);
    let h = hash_text(l);
    assert(h == t4 + t3 + t2 + t1 + t0);
    law_lane_text_reads_back(l[i]);
    if i == 4 {
        assert(h.subrange(0, 4) =~= t4);
    } else if i == 3 {
        assert(h.subrange(4, 8) =~= t3);
    } else if i == 2 {
        assert(h.subrange(8, 12) =~= t2);
    } else if i == 1 {
        assert(h.subrange(12, 16) =~= t1);
    } else {
        assert(h.subrange(16, 20) =~= t0);
    }
}

proof fn lemma_strip_spaces(pad: nat, d: Seq<char>)
    requires
        d.len() > 0,
        d[0] != ' ',
    ensures
        strip_spaces(Seq::new(pad, |i: int| ' ') + d) == d,
    decreases pad,
{
    let t = Seq::new(pad, |i: int| ' ') + d;
    if pad == 0 {
        assert(t =~= d);
    } else {
        assert(t.drop_first() =~= Seq::new((pad - 1) as nat, |i: int| ' ') + d);
        lemma_strip_spaces((pad - 1) as nat, d);
    }
}

/// Appends one character to a string.
///
/// Trusted: calls `String::push`, which appends the character at the end.
#[verifier::external_body]
fn push_char(s: &mut String, c: char)
    ensures
        final(s)@ == old(s)@.push(c),
{
    s.push(c);
}

/// Appends the hexadecimal digits of `n` to `out`.
fn push_hex(n: u32, out: &mut Vec<char>)
    ensures
        final(out)@ == old(out)@ + hex(n as nat),
    decreases n,
{
    let digits: [char; 16] = ['0', '1', '2', '3', '4', '5', '6', '7', '8', '9', 'a', 'b', 'c', 'd', 'e', 'f'];
    assert(digits@ =~= seq!['0', '1', '2', '3', '4', '5', '6', '7', '8', '9', 'a', 'b', 'c', 'd', 'e', 'f']);
    if n < 16 {
        out.push(digits[n as usize]);
        assert(hex(n as nat) =~= seq![hex_digit(n as nat)]);
    } else {
        push_hex(n / 16, out);
        out.push(digits[(n % 16) as usize]);
        assert(hex(n as nat) =~= hex((n / 16) as nat).push(hex_digit((n % 16) as nat)));
    }
}

/// Appends one lane as text to `out`.
fn push_lane(n: u32, out: &mut String)
    ensures
        final(out)@ == old(out)@ + lane_text(n),
{
    let mut digits: Vec<char> = Vec::new();
    push_hex(n, &mut digits);
    assert(digits@ =~= hex(n as nat));
    let ghost start = out@;
    let len = digits.len();
    let pad: usize = if len < 4 { 4 - len } else { 0 };
    let ghost spaces = Seq::new(pad as nat, |i: int| ' ');
    for i in 0..pad
        invariant
            out@ == start + spaces.take(i as int),
            spaces == Seq::new(pad as nat, |i: int| ' '),
    {
        push_char(out, ' ');
        assert(spaces.take(i + 1) =~= spaces.take(i as int).push(' '));
    }
    assert(spaces.take(pad as int) =~= spaces);
    let ghost padded = out@;
    for i in 0..len
        invariant
            len == digits@.len(),
            out@ == padded + digits@.take(i as int),
    {
        push_char(out, digits[i]);
        assert(digits@.take(i + 1) =~= digits@.take(i as int).push(digits@[i as int]));
    }
    assert(digits@.take(len as int) =~= digits@);
    if len < 4 {
        assert(out@ =~= start + lane_text(n));
    } else {
        assert(spaces =~= Seq::<char>::empty());
        assert(out@ =~= start + lane_text(n));
    }
}

impl InfoHash {
    /// The identifier as text: each lane, most significant first, in
    /// lower-case hexadecimal right-aligned to four characters.
    pub fn to_string(&self) -> (s: String)
        ensures
            s@ == hash_text(self@),
    {
        let mut s = String::new();
        push_lane(self.0[4], &mut s);
        push_lane(self.0[3], &mut s);
        push_lane(self.0[2], &mut s);
        push_lane(self.0[1], &mut s);
        push_lane(self.0[0], &mut s);
        assert(s@ =~= hash_text(self@));
        s
    }
}

impl PartialEq for InfoHash {
    fn eq(&self, other: &Self) -> (r: bool) {
        let a = self.0;
        let b = other.0;
        let r = a[0] == b[0] && a[1] == b[1] && a[2] == b[2] && a[3] == b[3] && a[4] == b[4];
        proof {
            if r {
                assert(self@ =~= other@);
            }
        }
        r
    }
}

impl vstd::std_specs::cmp::PartialEqSpecImpl for InfoHash {
    open spec fn obeys_eq_spec() -> bool {
        true
    }

    open spec fn eq_spec(&self, other: &InfoHash) -> bool {
        self@ == other@
    }
}

impl Eq for InfoHash {}

/// Two identifiers compare equal exactly when each of their five lanes is equal.
pub proof fn law_eq_lanes(a: InfoHash, b: InfoHash)
    ensures
        a.eq_spec(&b) <==> (forall|i: int| 0 <= i < 5 ==> a@[i] == b@[i]),
{
    a.lemma_len();
    b.lemma_len();
    if forall|i: int| 0 <= i < 5 ==> a@[i] == b@[i] {
        assert(a@ =~= b@);
    }
}

} // verus!
