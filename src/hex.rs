//! The hexadecimal form of identifiers.

use crate::node_id::{lemma_view_injective, NodeId};
use vstd::prelude::*;

verus! {

broadcast use vstd::array::group_array_axioms;

/// Nibble `j` of an id, the most significant first (`j` in `0..40`).
pub open spec fn nibble_of(id: Seq<u8>, j: int) -> u8 {
    if j % 2 == 0 {
        id[j / 2] / 16
    } else {
        id[j / 2] % 16
    }
}

/// The lowercase hex digit for a value below 16.
pub open spec fn hex_char(n: u8) -> char {
    if n < 10 {
        ((n + 48) as u8) as char
    } else {
        ((n + 87) as u8) as char
    }
}

/// The value of a hex digit of either case, or `None` for any other character.
pub open spec fn hex_digit_value(c: char) -> Option<u8> {
    if '0' <= c <= '9' {
        Some((c as u32 - 48) as u8)
    } else if 'a' <= c <= 'f' {
        Some((c as u32 - 87) as u8)
    } else if 'A' <= c <= 'F' {
        Some((c as u32 - 55) as u8)
    } else {
        None
    }
}

/// The index of the first non-zero nibble at or after `j`, or 40 when there is none.
pub open spec fn first_nonzero_nibble(id: Seq<u8>, j: int) -> int
    decreases 40 - j,
{
    if j >= 40 {
        40
    } else if nibble_of(id, j) != 0 {
        j
    } else {
        first_nonzero_nibble(id, j + 1)
    }
}

/// The hex form of an id: the lowercase digits of the big-endian number without
/// leading zeros, or a single `0` for the zero id.
pub open spec fn hex_of(id: Seq<u8>) -> Seq<char> {
    let f = first_nonzero_nibble(id, 0);
    if f >= 40 {
        seq!['0']
    } else {
        Seq::new((40 - f) as nat, |k: int| hex_char(nibble_of(id, f + k)))
    }
}

/// A string that names an id: 1 to 40 hex digits.
pub open spec fn is_hex_id(s: Seq<char>) -> bool {
    &&& 1 <= s.len() <= 40
    &&& forall|i: int| 0 <= i < s.len() ==> hex_digit_value(#[trigger] s[i]) is Some
}

/// The value of the digit at position `p` from the right, 0 past the left end.
pub open spec fn digit_from_right(s: Seq<char>, p: int) -> u8 {
    if 0 <= p < s.len() {
        match hex_digit_value(s[s.len() - 1 - p]) {
            Some(v) => v,
            None => 0,
        }
    } else {
        0
    }
}

/// The id that a string of hex digits names: its number, right-aligned in 20
/// bytes.
pub open spec fn parse_hex(s: Seq<char>) -> Seq<u8> {
    Seq::new(
        20,
        |i: int|
            (digit_from_right(s, 2 * (19 - i) + 1) * 16 + digit_from_right(s, 2 * (19 - i))) as u8,
    )
}

proof fn lemma_hex_char_value(n: u8)
    requires
        n < 16,
    ensures
        hex_digit_value(hex_char(n)) == Some(n),
{
}

proof fn lemma_first_nonzero_nibble(id: Seq<u8>, j: int)
    requires
        0 <= j <= 40,
    ensures
        j <= first_nonzero_nibble(id, j) <= 40,
        first_nonzero_nibble(id, j) < 40 ==> nibble_of(id, first_nonzero_nibble(id, j)) != 0,
        forall|k: int| j <= k < first_nonzero_nibble(id, j) ==> nibble_of(id, k) == 0,
    decreases 40 - j,
{
    if j < 40 && nibble_of(id, j) == 0 {
        lemma_first_nonzero_nibble(id, j + 1);
    }
}

proof fn lemma_first_nonzero_nibble_is(id: Seq<u8>, j: int, f: int)
    requires
        0 <= j <= f <= 40,
        forall|k: int| j <= k < f ==> nibble_of(id, k) == 0,
        f < 40 ==> nibble_of(id, f) != 0,
    ensures
        first_nonzero_nibble(id, j) == f,
    decreases f - j,
{
    if j < f {
        lemma_first_nonzero_nibble_is(id, j + 1, f);
    }
}

/// Printing an id in hex and parsing the result gives the id back.
pub proof fn lemma_hex_round_trip(id: NodeId)
    ensures
        is_hex_id(hex_of(id@)),
        parse_hex(hex_of(id@)) == id@,
{
    let v = id@;
    let s = hex_of(v);
    let f = first_nonzero_nibble(v, 0);
    lemma_first_nonzero_nibble(v, 0);
    assert forall|n: u8| n < 16 implies hex_digit_value(#[trigger] hex_char(n)) == Some(n) by {
        lemma_hex_char_value(n);
    }
    assert forall|i: int| 0 <= i < 20 implies nibble_of(v, 2 * i) == v[i] / 16 && nibble_of(
        v,
        2 * i + 1,
    ) == v[i] % 16 by {
        assert((2 * i) % 2 == 0 && (2 * i) / 2 == i);
        assert((2 * i + 1) % 2 == 1 && (2 * i + 1) / 2 == i);
    }
    assert forall|p: int| 0 <= p < 40 implies digit_from_right(s, p) == nibble_of(v, 39 - p) by {
        if f >= 40 {
            assert(nibble_of(v, 39 - p) == 0);
        } else if p < s.len() {
            assert(s[s.len() - 1 - p] == hex_char(nibble_of(v, 39 - p)));
        } else {
            assert(nibble_of(v, 39 - p) == 0);
        }
    }
    assert forall|i: int| 0 <= i < s.len() implies hex_digit_value(#[trigger] s[i]) is Some by {
        if f < 40 {
            assert(nibble_of(v, f + i) < 16);
        }
    }
    assert forall|i: int| 0 <= i < 20 implies parse_hex(s)[i] == v[i] by {
        assert(digit_from_right(s, 2 * (19 - i) + 1) == nibble_of(v, 2 * i));
        assert(digit_from_right(s, 2 * (19 - i)) == nibble_of(v, 2 * i + 1));
    }
    assert(parse_hex(s) =~= v);
}

/// Parsing the hex form of an id gives the id back: a result that
/// `from_hex_string` may return on the output of `to_hex_string` is
/// `Some(id)`.
pub proof fn lemma_from_hex_of_to_hex(id: NodeId, r: Option<NodeId>)
    requires
        r is Some <==> is_hex_id(hex_of(id@)),
        r matches Some(p) ==> p@ == parse_hex(hex_of(id@)),
    ensures
        r == Some(id),
{
    lemma_hex_round_trip(id);
    lemma_view_injective(r->0, id);
}

/// Relies on `String::push`: the character is appended.
#[verifier::external_body]
fn push_char(s: &mut String, c: char)
    ensures
        final(s)@ == old(s)@.push(c),
{
    s.push(c);
}

fn nibble(id: &[u8; 20], j: usize) -> (r: u8)
    requires
        j < 40,
    ensures
        r == nibble_of(id@, j as int),
        r < 16,
{
    if j % 2 == 0 {
        id[j / 2] / 16
    } else {
        id[j / 2] % 16
    }
}

fn digit_char(n: u8) -> (c: char)
    requires
        n < 16,
    ensures
        c == hex_char(n),
{
    if n < 10 {
        (n + 48) as char
    } else {
        (n + 87) as char
    }
}

fn byte_digit_value(b: u8) -> (r: Option<u8>)
    ensures
        r == hex_digit_value(b as char),
{
    if 48 <= b && b <= 57 {
        Some(b - 48)
    } else if 97 <= b && b <= 102 {
        Some(b - 87)
    } else if 65 <= b && b <= 70 {
        Some(b - 55)
    } else {
        None
    }
}

impl NodeId {
    /// Gets a node id from an hexadecimal string: 1 to 40 digits of either
    /// case, read as a big-endian number right-aligned into the 20 bytes.
    pub fn from_hex_string(string: &str) -> (r: Option<NodeId>)
        ensures
            r is Some <==> is_hex_id(string@),
            r matches Some(id) ==> id@ == parse_hex(string@),
    {
        if string.is_empty() {
            return None;
        }
        if !string.is_ascii() {
            proof {
                let i = choose|i: int|
                    0 <= i < string@.len() && !('\0' <= #[trigger] string@[i] <= '\u{7f}');
                assert(hex_digit_value(string@[i]) is None);
            }
            return None;
        }
        let bytes = string.as_bytes();
        proof {
            vstd::string::is_ascii_spec_bytes(string);
        }
        let n = bytes.len();
        if n > 40 {
            return None;
        }
        let mut digits: Vec<u8> = Vec::new();
        let mut i: usize = 0;
        while i < n
            invariant
                n == bytes@.len() == string@.len() <= 40,
                bytes@ == Seq::new(string@.len(), |k: int| string@[k] as u8),
                vstd::utf8::is_ascii_chars(string@),
                i <= n,
                digits@.len() == i,
                forall|k: int|
                    0 <= k < i ==> hex_digit_value(#[trigger] string@[k]) == Some(digits@[k]),
                forall|k: int| 0 <= k < i ==> digits@[k] < 16,
            decreases n - i,
        {
            let c = bytes[i];
            assert(((string@[i as int] as u8) as char) == string@[i as int]);
            match byte_digit_value(c) {
                Some(v) => digits.push(v),
                None => {
                    return None;
                },
            }
            i += 1;
        }
        let mut id = [0u8; 20];
        let mut j: usize = 0;
        while j < 20
            invariant
                n == digits@.len() == string@.len(),
                1 <= n <= 40,
                forall|k: int|
                    0 <= k < n ==> hex_digit_value(#[trigger] string@[k]) == Some(digits@[k]),
                forall|k: int| 0 <= k < n ==> digits@[k] < 16,
                j <= 20,
                forall|k: int| 0 <= k < j ==> id@[k] == parse_hex(string@)[k],
            decreases 20 - j,
        {
            let p = 2 * (19 - j);
            let lo = if p < n {
                digits[n - 1 - p]
            } else {
                0
            };
            let hi = if p + 1 < n {
                digits[n - 2 - p]
            } else {
                0
            };
            assert(lo < 16 && hi < 16);
            id[j] = hi * 16 + lo;
            j += 1;
        }
        let r = NodeId { id };
        assert(r@ =~= parse_hex(string@));
        Some(r)
    }

    /// The id in lowercase hex: the digits of the big-endian number without
    /// leading zeros, or `0` for the zero id.
    pub fn to_hex_string(&self) -> (r: String)
        ensures
            r@ == hex_of(self@),
    {
        let mut f: usize = 0;
        while f < 40 && nibble(&self.id, f) == 0
            invariant
                f <= 40,
                forall|k: int| 0 <= k < f ==> nibble_of(self@, k) == 0,
            decreases 40 - f,
        {
            f += 1;
        }
        proof {
            lemma_first_nonzero_nibble_is(self@, 0, f as int);
        }
        let mut s = String::new();
        if f == 40 {
            push_char(&mut s, '0');
            assert(s@ =~= seq!['0']);
        } else {
            let mut j = f;
            while j < 40
                invariant
                    f <= j <= 40,
                    f < 40,
                    s@ =~= Seq::new((j - f) as nat, |k: int| hex_char(nibble_of(self@, f + k))),
                decreases 40 - j,
            {
                let c = digit_char(nibble(&self.id, j));
                push_char(&mut s, c);
                j += 1;
            }
        }
        s
    }
}

} // verus!
