//! The 32-byte account address and its canonical text.

use vstd::prelude::*;

verus! {

/// A character of the base58 alphabet: a digit other than '0', or a letter other
/// than 'I', 'O' and 'l'.
pub open spec fn is_base58_char(c: char) -> bool {
    ||| ('1' <= c && c <= '9')
    ||| ('A' <= c && c <= 'Z' && c != 'I' && c != 'O')
    ||| ('a' <= c && c <= 'z' && c != 'l')
}

/// The base58 alphabet: digit value `d` is written as the `d`-th character.
pub open spec fn base58_alphabet() -> Seq<char> {
    seq![
        '1', '2', '3', '4', '5', '6', '7', '8', '9', 'A', 'B', 'C', 'D', 'E', 'F', 'G', 'H', 'J',
        'K', 'L', 'M', 'N', 'P', 'Q', 'R', 'S', 'T', 'U', 'V', 'W', 'X', 'Y', 'Z', 'a', 'b', 'c',
        'd', 'e', 'f', 'g', 'h', 'i', 'j', 'k', 'm', 'n', 'o', 'p', 'q', 'r', 's', 't', 'u', 'v',
        'w', 'x', 'y', 'z',
    ]
}

/// The bytes read as one number, most significant byte first.
pub open spec fn big_endian_value(bytes: Seq<u8>) -> nat
    decreases bytes.len(),
{
    if bytes.len() == 0 {
        0
    } else {
        (big_endian_value(bytes.drop_last()) * 256 + bytes.last()) as nat
    }
}

/// The number of zero bytes at the front.
pub open spec fn leading_zero_bytes(bytes: Seq<u8>) -> nat
    decreases bytes.len(),
{
    if bytes.len() == 0 || bytes[0] != 0 {
        0
    } else {
        1 + leading_zero_bytes(bytes.skip(1))
    }
}

/// The base58 digits of a number, most significant first; none for zero.
pub open spec fn base58_digits(n: nat) -> Seq<char>
    decreases n,
    via lemma_base58_digits_decreases
{
    if n == 0 {
        Seq::empty()
    } else {
        base58_digits(n / 58) + seq![base58_alphabet()[(n % 58) as int]]
    }
}

#[via_fn]
proof fn lemma_base58_digits_decreases(n: nat) {
    if n != 0 {
        assert(n / 58 < n) by (nonlinear_arith)
            requires
                n > 0,
        ;
    }
}

/// The base58 text of address bytes: a '1' for each leading zero byte, then the
/// base58 digits of the bytes' value.
pub open spec fn base58_of(bytes: Seq<u8>) -> Seq<char> {
    Seq::new(leading_zero_bytes(bytes), |i: int| '1') + base58_digits(big_endian_value(bytes))
}

/// A 32-byte account address.
#[derive(Clone, Copy, Debug)]
pub struct Key {
    pub bytes: [u8; 32],
}

impl View for Key {
    type V = Seq<u8>;

    open spec fn view(&self) -> Seq<u8> {
        self.bytes@
    }
}

impl Key {
    /// The address made of the given bytes.
    pub fn new(bytes: [u8; 32]) -> (r: Key)
        ensures
            r.bytes == bytes,
    {
        Key { bytes }
    }

    /// The bytes of the address.
    pub fn to_bytes(&self) -> (r: [u8; 32])
        ensures
            r == self.bytes,
    {
        self.bytes
    }

    /// The bytes of the address, in a vector (the form a seed takes).
    pub fn to_vec(&self) -> (r: Vec<u8>)
        ensures
            r@ == self@,
    {
        let mut v: Vec<u8> = Vec::new();
        let mut i: usize = 0;
        while i < 32
            invariant
                i <= 32,
                v@ == self@.take(i as int),
            decreases 32 - i,
        {
            v.push(self.bytes[i]);
            i = i + 1;
            assert(v@ =~= self@.take(i as int));
        }
        assert(self@.take(32) =~= self@);
        v
    }

    /// Whether two addresses hold the same bytes.
    pub fn same_as(&self, other: &Key) -> (r: bool)
        ensures
            r == (*self == *other),
    {
        let mut i: usize = 0;
        while i < 32
            invariant
                i <= 32,
                forall|j: int| 0 <= j < i ==> self.bytes[j] == other.bytes[j],
            decreases 32 - i,
        {
            if self.bytes[i] != other.bytes[i] {
                return false;
            }
            i = i + 1;
        }
        assert(self.bytes =~= other.bytes);
        true
    }
}

impl PartialEq for Key {
    fn eq(&self, other: &Key) -> (r: bool) {
        self.same_as(other)
    }
}

impl vstd::std_specs::cmp::PartialEqSpecImpl for Key {
    open spec fn obeys_eq_spec() -> bool {
        true
    }

    open spec fn eq_spec(&self, other: &Key) -> bool {
        *self == *other
    }
}

impl Eq for Key {
}

/// Relies on the `Display` of `Pubkey` (anchor_lang, from solana-pubkey): the base58
/// text of the 32 bytes (five8's `encode_32`, with the alphabet of its
/// `BASE58_CHARS`), which is 32 to 44 characters long.
#[verifier::external_body]
pub(crate) fn key_text(k: &Key) -> (r: String)
    ensures
        r@ == base58_of(k@),
        32 <= r@.len() <= 44,
        forall|i: int| 0 <= i < r@.len() ==> is_base58_char(#[trigger] r@[i]),
{
    anchor_lang::prelude::Pubkey::new_from_array(k.bytes).to_string()
}

} // verus!
