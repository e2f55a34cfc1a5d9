//! Seeds, their printable form, and the derivation of program addresses from them.

use vstd::prelude::*;
use vstd::slice::slice_to_vec;
use vstd::string::StringSliceAdditionalSpecFns;
use crate::error::AddressBookError;
use crate::key::{base58_of, key_text, Key};
use crate::registered_address::{copy_texts, same_texts};

verus! {

/// The longest seed, in bytes, that a derivation accepts.
pub const MAX_SEED_LEN: usize = 32;

/// The address and bump seed that the bump search finds for the seeds and
/// program id, if it finds one.
pub uninterp spec fn program_address_of(seeds: Seq<Seq<u8>>, program_id: Seq<u8>) -> Option<
    (Seq<u8>, u8),
>;

/// Whether 32 bytes are the compressed form of a point on the ed25519 curve.
pub uninterp spec fn is_curve_point(bytes: Seq<u8>) -> bool;

/// The lowercase hex digit of a value below 16.
pub open spec fn hex_digit(n: u8) -> char {
    seq!['0', '1', '2', '3', '4', '5', '6', '7', '8', '9', 'a', 'b', 'c', 'd', 'e', 'f'][n as int]
}

/// Two lowercase hex digits for each byte, in order.
pub open spec fn hex_of(bytes: Seq<u8>) -> Seq<char>
    decreases bytes.len(),
{
    if bytes.len() == 0 {
        Seq::empty()
    } else {
        hex_of(bytes.drop_last()) + seq![
            hex_digit(bytes.last() / 16),
            hex_digit(bytes.last() % 16),
        ]
    }
}

/// A graphic ASCII character or the space.
pub open spec fn is_printable(b: u8) -> bool {
    32 <= b <= 126
}

pub open spec fn all_printable(bytes: Seq<u8>) -> bool {
    forall|i: int| 0 <= i < bytes.len() ==> is_printable(#[trigger] bytes[i])
}

/// ASCII bytes read as characters.
pub open spec fn ascii_chars(bytes: Seq<u8>) -> Seq<char> {
    Seq::new(bytes.len(), |i: int| bytes[i] as char)
}

/// The printable form of a seed: its text when every byte is printable, else the
/// base58 text of an address when it has 32 bytes, else hex.
pub open spec fn seed_text(bytes: Seq<u8>) -> Seq<char> {
    if all_printable(bytes) {
        ascii_chars(bytes)
    } else if bytes.len() == 32 {
        base58_of(bytes)
    } else {
        hex_of(bytes)
    }
}

/// Every seed fits the derivation's length limit.
pub open spec fn seeds_fit(seeds: Seq<Seq<u8>>) -> bool {
    forall|i: int| 0 <= i < seeds.len() ==> #[trigger] seeds[i].len() <= MAX_SEED_LEN
}

/// What a derivation from `seeds` under `program_id` returns: an error for a seed
/// that is too long, else the address and bump that the bump search finds, or an
/// error where it finds none (as it does for more than 15 seeds).
pub open spec fn derives(
    seeds: Seq<Seq<u8>>,
    program_id: Key,
    r: Result<(Key, u8), AddressBookError>,
) -> bool {
    if !seeds_fit(seeds) {
        r is Err && r->Err_0 is SeedTooLong
    } else {
        match program_address_of(seeds, program_id@) {
            None => r is Err && r->Err_0 is DiscriminatorExhausted,
            Some((address, bump)) => r is Ok && r->Ok_0.0@ == address && r->Ok_0.1 == bump,
        }
    }
}

/// Relies on `hex::encode`: two lowercase hex digits for each byte, in order.
#[verifier::external_body]
fn hex_text(bytes: &[u8]) -> (r: String)
    ensures
        r@ == hex_of(bytes@),
{
    hex::encode(bytes)
}

/// Relies on `String::from_utf8_lossy`: valid UTF-8 is kept as it is, and ASCII bytes
/// are valid UTF-8 of one character each.
#[verifier::external_body]
fn ascii_text(bytes: &[u8]) -> (r: String)
    ensures
        (forall|i: int| 0 <= i < bytes@.len() ==> bytes@[i] < 128) ==> r@ == ascii_chars(bytes@),
{
    String::from_utf8_lossy(bytes).into_owned()
}

/// Relies on `Pubkey::try_find_program_address` (solana-pubkey): its result depends
/// on the seeds and the program id alone, and an address it returns is a hash that
/// `create_program_address` accepted because it is not a curve point.
#[verifier::external_body]
fn try_find_program_address(seeds: &Vec<Vec<u8>>, program_id: &Key) -> (r: Option<(Key, u8)>)
    ensures
        r is None ==> program_address_of(seeds.deep_view(), program_id@) is None,
        r matches Some((k, b)) ==> program_address_of(seeds.deep_view(), program_id@) == Some(
            (k@, b),
        ),
        r matches Some((k, b)) ==> !is_curve_point(k@),
{
    let refs: Vec<&[u8]> = seeds.iter().map(|s| s.as_slice()).collect();
    let program = anchor_lang::prelude::Pubkey::new_from_array(program_id.bytes);
    anchor_lang::prelude::Pubkey::try_find_program_address(&refs, &program).map(
        |(p, b)| (Key::new(p.to_bytes()), b),
    )
}

/// Relies on `Pubkey::is_on_curve` (solana-pubkey), which applies to the address
/// the same curve test that `create_program_address` applies to a candidate.
#[verifier::external_body]
fn curve_point_check(k: &Key) -> (r: bool)
    ensures
        r == is_curve_point(k@),
{
    anchor_lang::prelude::Pubkey::new_from_array(k.bytes).is_on_curve()
}

impl Key {
    /// Whether the address is a point on the ed25519 curve, and so could be a
    /// signing key; a derived address never is.
    pub fn is_on_curve(&self) -> (r: bool)
        ensures
            r == is_curve_point(self@),
    {
        curve_point_check(self)
    }
}

/// A value that can stand as a seed.
pub trait SeedPart {
    /// The bytes of the seed.
    spec fn seed_view(&self) -> Seq<u8>;

    /// The bytes of the seed, in a vector.
    fn seed_bytes(&self) -> (r: Vec<u8>)
        ensures
            r@ == self.seed_view(),
    ;
}

impl SeedPart for Key {
    open spec fn seed_view(&self) -> Seq<u8> {
        self@
    }

    fn seed_bytes(&self) -> (r: Vec<u8>) {
        self.to_vec()
    }
}

impl SeedPart for str {
    open spec fn seed_view(&self) -> Seq<u8> {
        self.spec_bytes()
    }

    fn seed_bytes(&self) -> (r: Vec<u8>) {
        slice_to_vec(self.as_bytes())
    }
}

impl SeedPart for [u8] {
    open spec fn seed_view(&self) -> Seq<u8> {
        self@
    }

    fn seed_bytes(&self) -> (r: Vec<u8>) {
        slice_to_vec(self)
    }
}

/// The printable form of a seed (see `seed_text`).
pub fn seed_to_string(seed: &[u8]) -> (r: String)
    ensures
        r@ == seed_text(seed@),
{
    let mut printable = true;
    let mut i: usize = 0;
    while i < seed.len()
        invariant
            i <= seed.len(),
            printable == all_printable(seed@.take(i as int)),
        decreases seed.len() - i,
    {
        let b = seed[i];
        let ghost prefix = seed@.take(i as int);
        let ghost next = seed@.take(i + 1);
        assert(next =~= prefix.push(b));
        assert(all_printable(next) == (all_printable(prefix) && is_printable(b))) by {
            if all_printable(prefix) && is_printable(b) {
                assert forall|j: int| 0 <= j < next.len() implies is_printable(#[trigger] next[j]) by {
                    if j < prefix.len() {
                        assert(next[j] == prefix[j]);
                    }
                }
            }
            if all_printable(next) {
                assert(is_printable(next[i as int]));
                assert forall|j: int| 0 <= j < prefix.len() implies is_printable(#[trigger] prefix[j]) by {
                    assert(next[j] == prefix[j]);
                }
            }
        }
        printable = printable && 32 <= b && b <= 126;
        i = i + 1;
    }
    assert(seed@.take(seed.len() as int) =~= seed@);
    if printable {
        ascii_text(seed)
    } else if seed.len() == 32 {
        let k = Key::from_slice(seed);
        key_text(&k)
    } else {
        hex_text(seed)
    }
}

impl Key {
    /// The address made of 32 bytes given as a slice.
    pub fn from_slice(bytes: &[u8]) -> (r: Key)
        requires
            bytes@.len() == 32,
        ensures
            r@ == bytes@,
    {
        let mut a: [u8; 32] = [0u8; 32];
        let mut i: usize = 0;
        while i < 32
            invariant
                i <= 32,
                bytes@.len() == 32,
                forall|j: int| 0 <= j < i ==> a@[j] == bytes@[j],
            decreases 32 - i,
        {
            a[i] = bytes[i];
            i = i + 1;
        }
        assert(a@ =~= bytes@);
        Key { bytes: a }
    }
}

/// A derived address with its bump seed and the seeds it came from.
#[derive(Debug)]
pub struct DerivedPda {
    /// The derived address.
    pub key: Key,
    /// The bump seed that put the address off the curve.
    pub bump: u8,
    /// The printable form of each seed.
    pub seed_strings: Vec<String>,
    /// The seeds, as bytes.
    pub seeds: Vec<Vec<u8>>,
}

impl DerivedPda {
    /// Whether deriving again from the stored seeds under `program_id` gives this
    /// address and bump.
    pub open spec fn verifies_against(&self, program_id: Key) -> bool {
        derives(self.seeds.deep_view(), program_id, Ok((self.key, self.bump)))
    }

    /// Derives again from the stored seeds and compares.
    pub fn verify(&self, program_id: &Key) -> (r: bool)
        ensures
            r == self.verifies_against(*program_id),
    {
        match find_pda_with_bump(&self.seeds, program_id) {
            Ok((k, b)) => {
                proof {
                    if k@ == self.key@ {
                        assert(k.bytes =~= self.key.bytes);
                    }
                }
                k.same_as(&self.key) && b == self.bump
            },
            Err(_) => false,
        }
    }
}

/// Whether every seed fits the length limit.
fn check_seed_lengths(seeds: &Vec<Vec<u8>>) -> (r: bool)
    ensures
        r == seeds_fit(seeds.deep_view()),
{
    let mut i: usize = 0;
    while i < seeds.len()
        invariant
            i <= seeds.len(),
            forall|j: int| 0 <= j < i ==> #[trigger] seeds.deep_view()[j].len() <= MAX_SEED_LEN,
        decreases seeds.len() - i,
    {
        if seeds[i].len() > MAX_SEED_LEN {
            assert(seeds.deep_view()[i as int] == seeds[i as int]@);
            return false;
        }
        assert(seeds.deep_view()[i as int] == seeds[i as int]@);
        i = i + 1;
    }
    true
}

/// Derives the program address of `seeds` under `program_id`, with its bump seed.
pub fn find_pda_with_bump(seeds: &Vec<Vec<u8>>, program_id: &Key) -> (r: Result<
    (Key, u8),
    AddressBookError,
>)
    ensures
        derives(seeds.deep_view(), *program_id, r),
        r matches Ok((k, _)) ==> !is_curve_point(k@),
{
    if !check_seed_lengths(seeds) {
        return Err(AddressBookError::SeedTooLong);
    }
    match try_find_program_address(seeds, program_id) {
        Some((k, b)) => Ok((k, b)),
        None => Err(AddressBookError::DiscriminatorExhausted),
    }
}

/// A copy of byte strings.
fn copy_seeds(seeds: &Vec<Vec<u8>>) -> (r: Vec<Vec<u8>>)
    ensures
        r.deep_view() == seeds.deep_view(),
{
    let mut out: Vec<Vec<u8>> = Vec::new();
    let mut i: usize = 0;
    while i < seeds.len()
        invariant
            i <= seeds.len(),
            out@.len() == i,
            forall|j: int| 0 <= j < i ==> #[trigger] out@[j]@ == seeds@[j]@,
        decreases seeds.len() - i,
    {
        let s = slice_to_vec(seeds[i].as_slice());
        out.push(s);
        i = i + 1;
    }
    assert forall|j: int| 0 <= j < seeds.len() implies #[trigger] out.deep_view()[j]
        == seeds.deep_view()[j] by {
        assert(out.deep_view()[j] == out@[j]@);
        assert(seeds.deep_view()[j] == seeds@[j]@);
    }
    assert(out.deep_view() =~= seeds.deep_view());
    out
}

/// The printable form of each seed.
fn seed_strings_of(seeds: &Vec<Vec<u8>>) -> (r: Vec<String>)
    ensures
        r.deep_view() == seeds.deep_view().map_values(|s: Seq<u8>| seed_text(s)),
{
    let mut out: Vec<String> = Vec::new();
    let mut i: usize = 0;
    while i < seeds.len()
        invariant
            i <= seeds.len(),
            out@.len() == i,
            forall|j: int| 0 <= j < i ==> #[trigger] out@[j]@ == seed_text(seeds@[j]@),
        decreases seeds.len() - i,
    {
        let t = seed_to_string(seeds[i].as_slice());
        out.push(t);
        i = i + 1;
    }
    let ghost texts = seeds.deep_view().map_values(|s: Seq<u8>| seed_text(s));
    assert forall|j: int| 0 <= j < seeds.len() implies #[trigger] out.deep_view()[j]
        == texts[j] by {
        assert(seeds.deep_view()[j] == seeds@[j]@);
    }
    assert(out.deep_view() =~= texts);
    out
}

/// Derives the program address of `seeds` under `program_id`, and keeps the seeds
/// with their printable form beside it.
pub fn find_pda_with_bump_and_strings(seeds: &Vec<Vec<u8>>, program_id: &Key) -> (r: Result<
    DerivedPda,
    AddressBookError,
>)
    ensures
        r is Err ==> derives(seeds.deep_view(), *program_id, Err(r->Err_0)),
        r matches Ok(d) ==> {
            &&& derives(seeds.deep_view(), *program_id, Ok((d.key, d.bump)))
            &&& !is_curve_point(d.key@)
            &&& d.seeds.deep_view() == seeds.deep_view()
            &&& d.seed_strings.deep_view() == seeds.deep_view().map_values(
                |s: Seq<u8>| seed_text(s),
            )
            &&& d.verifies_against(*program_id)
        },
{
    match find_pda_with_bump(seeds, program_id) {
        Ok((key, bump)) => {
            let seed_strings = seed_strings_of(seeds);
            let stored = copy_seeds(seeds);
            Ok(DerivedPda { key, bump, seed_strings, seeds: stored })
        },
        Err(e) => Err(e),
    }
}

/// Whether two lists of byte strings are equal, element by element.
fn same_byte_lists(a: &Vec<Vec<u8>>, b: &Vec<Vec<u8>>) -> (r: bool)
    ensures
        r == (a.deep_view() == b.deep_view()),
{
    if a.len() != b.len() {
        assert(a.deep_view().len() != b.deep_view().len());
        return false;
    }
    let mut i: usize = 0;
    while i < a.len()
        invariant
            i <= a.len(),
            a.len() == b.len(),
            forall|j: int| 0 <= j < i ==> #[trigger] a@[j]@ == b@[j]@,
        decreases a.len() - i,
    {
        let x = &a[i];
        let y = &b[i];
        assert(a.deep_view()[i as int] == x@);
        assert(b.deep_view()[i as int] == y@);
        if x.len() != y.len() {
            assert(a.deep_view()[i as int] != b.deep_view()[i as int]);
            return false;
        }
        let mut k: usize = 0;
        while k < x.len()
            invariant
                k <= x@.len(),
                x@.len() == y@.len(),
                i < a@.len(),
                a@.len() == b@.len(),
                a.deep_view()[i as int] == x@,
                b.deep_view()[i as int] == y@,
                forall|q: int| 0 <= q < k ==> x@[q] == y@[q],
            decreases x.len() - k,
        {
            if x[k] != y[k] {
                assert(x@[k as int] != y@[k as int]);
                assert(a.deep_view()[i as int] != b.deep_view()[i as int]);
                return false;
            }
            k = k + 1;
        }
        assert(x@ =~= y@);
        i = i + 1;
    }
    assert(a.deep_view() =~= b.deep_view()) by {
        assert forall|j: int| 0 <= j < a.len() implies a.deep_view()[j] == b.deep_view()[j] by {
            assert(a.deep_view()[j] == a@[j]@);
            assert(b.deep_view()[j] == b@[j]@);
        }
    }
    true
}

impl Clone for DerivedPda {
    fn clone(&self) -> (r: Self)
        ensures
            r.key == self.key,
            r.bump == self.bump,
            r.seed_strings.deep_view() == self.seed_strings.deep_view(),
            r.seeds.deep_view() == self.seeds.deep_view(),
    {
        DerivedPda {
            key: self.key,
            bump: self.bump,
            seed_strings: copy_texts(&self.seed_strings),
            seeds: copy_seeds(&self.seeds),
        }
    }
}

impl PartialEq for DerivedPda {
    fn eq(&self, other: &DerivedPda) -> (r: bool) {
        self.key.same_as(&other.key) && self.bump == other.bump && same_texts(
            &self.seed_strings,
            &other.seed_strings,
        ) && same_byte_lists(&self.seeds, &other.seeds)
    }
}

impl vstd::std_specs::cmp::PartialEqSpecImpl for DerivedPda {
    open spec fn obeys_eq_spec() -> bool {
        true
    }

    open spec fn eq_spec(&self, other: &DerivedPda) -> bool {
        &&& self.key == other.key
        &&& self.bump == other.bump
        &&& self.seed_strings.deep_view() == other.seed_strings.deep_view()
        &&& self.seeds.deep_view() == other.seeds.deep_view()
    }
}

impl Eq for DerivedPda {
}

/// Deriving twice from the same seeds under the same program id gives the same
/// outcome: the same address and bump, or the same error.
pub proof fn lemma_derivation_is_deterministic(
    seeds: Seq<Seq<u8>>,
    program_id: Key,
    first: Result<(Key, u8), AddressBookError>,
    second: Result<(Key, u8), AddressBookError>,
)
    requires
        derives(seeds, program_id, first),
        derives(seeds, program_id, second),
    ensures
        first is Ok <==> second is Ok,
        first is Ok ==> first->Ok_0 == second->Ok_0,
        first is Err ==> {
            ||| first->Err_0 is SeedTooLong && second->Err_0 is SeedTooLong
            ||| first->Err_0 is DiscriminatorExhausted && second->Err_0 is DiscriminatorExhausted
        },
{
    if first is Ok {
        assert(first->Ok_0.0.bytes =~= second->Ok_0.0.bytes);
    }
}

} // verus!
