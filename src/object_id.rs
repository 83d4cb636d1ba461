use vstd::prelude::*;

verus! {

/// Width of an object identifier in bytes (SHA-1).
pub const ID_BYTES: usize = 20;

/// Whether `c` is a lowercase hexadecimal digit.
pub open spec fn is_hex_lower(c: char) -> bool {
    ('0' <= c && c <= '9') || ('a' <= c && c <= 'f')
}

/// The value of a lowercase hexadecimal digit.
pub open spec fn hex_digit_value(c: char) -> int {
    if '0' <= c && c <= '9' {
        (c as int) - ('0' as int)
    } else {
        (c as int) - ('a' as int) + 10
    }
}

/// The lowercase hexadecimal digit of a value below sixteen.
pub open spec fn hex_digit_char(v: int) -> char {
    seq!['0', '1', '2', '3', '4', '5', '6', '7', '8', '9', 'a', 'b', 'c', 'd', 'e', 'f'][v]
}

/// Two lowercase digits per byte, high nibble first.
pub open spec fn hex_text(b: Seq<u8>) -> Seq<char>
    decreases b.len(),
{
    if b.len() == 0 {
        Seq::empty()
    } else {
        let last = b.last();
        hex_text(b.drop_last()).push(hex_digit_char(last as int / 16)).push(
            hex_digit_char(last as int % 16),
        )
    }
}

/// The bytes that a string of lowercase hexadecimal digit pairs stands for.
pub open spec fn hex_bytes(cs: Seq<char>) -> Seq<u8> {
    Seq::new(
        cs.len() / 2,
        |k: int| (hex_digit_value(cs[2 * k]) * 16 + hex_digit_value(cs[2 * k + 1])) as u8,
    )
}

/// A content-addressed object identifier.
#[derive(Clone, Debug, PartialEq, Eq, Hash)]
pub struct ObjectId {
    pub bytes: Vec<u8>,
}

impl ObjectId {
    pub open spec fn wf(&self) -> bool {
        self.bytes@.len() == ID_BYTES
    }

    /// Whether every byte is zero: the identifier of "no object".
    pub open spec fn spec_is_zero(&self) -> bool {
        forall|i: int| 0 <= i < self.bytes@.len() ==> self.bytes@[i] == 0
    }

    /// The all-zero identifier.
    pub fn zero() -> (r: ObjectId)
        ensures
            r.wf(),
            r.spec_is_zero(),
    {
        let mut bytes: Vec<u8> = Vec::new();
        let mut i: usize = 0;
        while i < ID_BYTES
            invariant
                i <= ID_BYTES,
                bytes@.len() == i,
                forall|k: int| 0 <= k < i ==> bytes@[k] == 0,
            decreases ID_BYTES - i,
        {
            bytes.push(0);
            i = i + 1;
        }
        ObjectId { bytes }
    }

    pub fn is_zero(&self) -> (r: bool)
        ensures
            r == self.spec_is_zero(),
    {
        let mut i: usize = 0;
        while i < self.bytes.len()
            invariant
                i <= self.bytes@.len(),
                forall|k: int| 0 <= k < i ==> self.bytes@[k] == 0,
            decreases self.bytes@.len() - i,
        {
            if self.bytes[i] != 0 {
                return false;
            }
            i = i + 1;
        }
        true
    }

    /// Identifier equality, byte by byte.
    pub fn same_as(&self, other: &ObjectId) -> (r: bool)
        ensures
            r == (self.bytes@ == other.bytes@),
    {
        if self.bytes.len() != other.bytes.len() {
            return false;
        }
        let mut i: usize = 0;
        while i < self.bytes.len()
            invariant
                self.bytes@.len() == other.bytes@.len(),
                i <= self.bytes@.len(),
                forall|k: int| 0 <= k < i ==> self.bytes@[k] == other.bytes@[k],
            decreases self.bytes@.len() - i,
        {
            if self.bytes[i] != other.bytes[i] {
                return false;
            }
            i = i + 1;
        }
        assert(self.bytes@ =~= other.bytes@);
        true
    }

    /// The identifier in lowercase hexadecimal, as revision specifiers write it.
    pub fn to_hex(&self) -> (r: String)
        ensures
            r@ == hex_text(self.bytes@),
    {
        encode_hex(&self.bytes)
    }

    /// Decodes `2 * ID_BYTES` lowercase hexadecimal digits starting at `start`.
    pub fn from_hex_chars(cs: &Vec<char>, start: usize) -> (r: ObjectId)
        requires
            start + 2 * ID_BYTES <= cs@.len(),
            forall|i: int| start <= i < start + 2 * ID_BYTES ==> is_hex_lower(#[trigger] cs@[i]),
        ensures
            r.wf(),
            r.bytes@ == hex_bytes(cs@.subrange(start as int, start + 2 * ID_BYTES)),
    {
        let ghost digits = cs@.subrange(start as int, start + 2 * ID_BYTES);
        let n = cs.len();
        let mut bytes: Vec<u8> = Vec::new();
        let mut k: usize = 0;
        while k < ID_BYTES
            invariant
                k <= ID_BYTES,
                n == cs@.len(),
                start + 2 * ID_BYTES <= cs@.len(),
                digits == cs@.subrange(start as int, start + 2 * ID_BYTES),
                forall|i: int| start <= i < start + 2 * ID_BYTES ==> is_hex_lower(#[trigger] cs@[i]),
                bytes@.len() == k,
                forall|j: int| 0 <= j < k ==> bytes@[j] == #[trigger] hex_bytes(digits)[j],
            decreases ID_BYTES - k,
        {
            let hi = hex_value(cs[start + 2 * k]);
            let lo = hex_value(cs[start + 2 * k + 1]);
            bytes.push(hi * 16 + lo);
            k = k + 1;
        }
        assert(bytes@ =~= hex_bytes(digits));
        ObjectId { bytes }
    }
}

/// The value of one lowercase hexadecimal digit.
fn hex_value(c: char) -> (r: u8)
    requires
        is_hex_lower(c),
    ensures
        r as int == hex_digit_value(c),
        r < 16,
{
    if '0' <= c && c <= '9' {
        ((c as u32) - ('0' as u32)) as u8
    } else {
        ((c as u32) - ('a' as u32) + 10) as u8
    }
}

/// Relies on `hex::encode`: each byte becomes two lowercase digits taken from
/// "0123456789abcdef", high nibble first, in the order of the bytes.
#[verifier::external_body]
fn encode_hex(b: &Vec<u8>) -> (r: String)
    ensures
        r@ == hex_text(b@),
{
    hex::encode(b)
}

} // verus!
