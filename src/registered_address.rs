//! Registrations: an address, its label and the role it plays.

use vstd::prelude::*;
use crate::error::AddressBookError;
use crate::key::{base58_of, key_text, Key};
use crate::pda_seeds::{derives, find_pda_with_bump_and_strings, is_curve_point, seed_text};

verus! {

/// The role of a registered address.
#[derive(Debug)]
pub enum AddressRole {
    /// A wallet of its own.
    Wallet,
    /// A token mint.
    Mint,
    /// The associated token account of an owner for a mint.
    Ata { mint: Key, owner: Key },
    /// An address derived from seeds under a program.
    Pda { seeds: Vec<String>, program_id: Key, bump: u8 },
    /// A program.
    Program,
    /// Any other role, named by its text.
    Custom(String),
}

/// The value of a role, with text as characters.
pub enum RoleView {
    Wallet,
    Mint,
    Ata { mint: Key, owner: Key },
    Pda { seeds: Seq<Seq<char>>, program_id: Key, bump: u8 },
    Program,
    Custom(Seq<char>),
}

impl View for AddressRole {
    type V = RoleView;

    open spec fn view(&self) -> RoleView {
        match self {
            AddressRole::Wallet => RoleView::Wallet,
            AddressRole::Mint => RoleView::Mint,
            AddressRole::Ata { mint, owner } => RoleView::Ata { mint: *mint, owner: *owner },
            AddressRole::Pda { seeds, program_id, bump } => RoleView::Pda {
                seeds: seeds.deep_view(),
                program_id: *program_id,
                bump: *bump,
            },
            AddressRole::Program => RoleView::Program,
            AddressRole::Custom(name) => RoleView::Custom(name@),
        }
    }
}

/// The name of a role's kind, which ignores what the role carries.
pub open spec fn kind_name(role: RoleView) -> Seq<char> {
    match role {
        RoleView::Wallet => "wallet"@,
        RoleView::Mint => "mint"@,
        RoleView::Ata { .. } => "ata"@,
        RoleView::Pda { .. } => "pda"@,
        RoleView::Program => "program"@,
        RoleView::Custom(_) => "custom"@,
    }
}

/// Whether two sequences of text are equal, element by element.
pub(crate) fn same_texts(a: &Vec<String>, b: &Vec<String>) -> (r: bool)
    ensures
        r == (a.deep_view() == b.deep_view()),
{
    if a.len() != b.len() {
        assert(a.deep_view().len() != b.deep_view().len());
        return false;
    }
    let mut i: usize = 0;
    while i < a.len()
        invariant
            i <= a.len(),
            a.len() == b.len(),
            forall|j: int| 0 <= j < i ==> #[trigger] a@[j]@ == b@[j]@,
        decreases a.len() - i,
    {
        if a[i] != b[i] {
            assert(a.deep_view()[i as int] != b.deep_view()[i as int]);
            return false;
        }
        i = i + 1;
    }
    assert(a.deep_view() =~= b.deep_view());
    true
}

/// A copy of a sequence of text.
pub(crate) fn copy_texts(a: &Vec<String>) -> (r: Vec<String>)
    ensures
        r.deep_view() == a.deep_view(),
{
    let mut out: Vec<String> = Vec::new();
    let mut i: usize = 0;
    while i < a.len()
        invariant
            i <= a.len(),
            out@.len() == i,
            forall|j: int| 0 <= j < i ==> #[trigger] out@[j]@ == a@[j]@,
        decreases a.len() - i,
    {
        out.push(a[i].clone());
        i = i + 1;
    }
    assert(out.deep_view() =~= a.deep_view());
    out
}

impl AddressRole {
    /// Whether two roles are equal, payload included.
    pub fn same_as(&self, other: &AddressRole) -> (r: bool)
        ensures
            r == (self@ == other@),
    {
        match (self, other) {
            (AddressRole::Wallet, AddressRole::Wallet) => true,
            (AddressRole::Mint, AddressRole::Mint) => true,
            (AddressRole::Ata { mint: m1, owner: o1 }, AddressRole::Ata { mint: m2, owner: o2 }) => {
                m1.same_as(m2) && o1.same_as(o2)
            },
            (
                AddressRole::Pda { seeds: s1, program_id: p1, bump: b1 },
                AddressRole::Pda { seeds: s2, program_id: p2, bump: b2 },
            ) => same_texts(s1, s2) && p1.same_as(p2) && *b1 == *b2,
            (AddressRole::Program, AddressRole::Program) => true,
            (AddressRole::Custom(c1), AddressRole::Custom(c2)) => *c1 == *c2,
            _ => false,
        }
    }

    /// The name of this role's kind.
    pub fn kind_name(&self) -> (r: &'static str)
        ensures
            r@ == kind_name(self@),
    {
        match self {
            AddressRole::Wallet => "wallet",
            AddressRole::Mint => "mint",
            AddressRole::Ata { .. } => "ata",
            AddressRole::Pda { .. } => "pda",
            AddressRole::Program => "program",
            AddressRole::Custom(_) => "custom",
        }
    }
}

impl Clone for AddressRole {
    fn clone(&self) -> (r: Self)
        ensures
            r@ == self@,
    {
        match self {
            AddressRole::Wallet => AddressRole::Wallet,
            AddressRole::Mint => AddressRole::Mint,
            AddressRole::Ata { mint, owner } => AddressRole::Ata { mint: *mint, owner: *owner },
            AddressRole::Pda { seeds, program_id, bump } => AddressRole::Pda {
                seeds: copy_texts(seeds),
                program_id: *program_id,
                bump: *bump,
            },
            AddressRole::Program => AddressRole::Program,
            AddressRole::Custom(name) => AddressRole::Custom(name.clone()),
        }
    }
}

impl PartialEq for AddressRole {
    fn eq(&self, other: &AddressRole) -> (r: bool) {
        self.same_as(other)
    }
}

impl vstd::std_specs::cmp::PartialEqSpecImpl for AddressRole {
    open spec fn obeys_eq_spec() -> bool {
        true
    }

    open spec fn eq_spec(&self, other: &AddressRole) -> bool {
        self@ == other@
    }
}

/// An address registered under a label, with its role.
#[derive(Debug)]
pub struct RegisteredAddress {
    pub address: Key,
    pub label: String,
    pub role: AddressRole,
}

/// The value of a registration, with text as characters.
pub struct RegistrationView {
    pub address: Key,
    pub label: Seq<char>,
    pub role: RoleView,
}

impl View for RegisteredAddress {
    type V = RegistrationView;

    open spec fn view(&self) -> RegistrationView {
        RegistrationView { address: self.address, label: self.label@, role: self.role@ }
    }
}

/// The decimal digit of a value below 10.
pub open spec fn decimal_digit(d: int) -> char {
    seq!['0', '1', '2', '3', '4', '5', '6', '7', '8', '9'][d]
}

/// The decimal text of a byte, without leading zeros.
pub open spec fn decimal_of(n: u8) -> Seq<char> {
    let v = n as int;
    if v < 10 {
        seq![decimal_digit(v)]
    } else if v < 100 {
        seq![decimal_digit(v / 10), decimal_digit(v % 10)]
    } else {
        seq![decimal_digit(v / 100), decimal_digit((v / 10) % 10), decimal_digit(v % 10)]
    }
}

/// The parts, with the separator between each two of them.
pub open spec fn joined(parts: Seq<Seq<char>>, sep: Seq<char>) -> Seq<char>
    decreases parts.len(),
{
    if parts.len() == 0 {
        Seq::empty()
    } else if parts.len() == 1 {
        parts[0]
    } else {
        joined(parts.drop_last(), sep) + sep + parts.last()
    }
}

/// The one-line description of a registration: its label, then its role in brackets.
pub open spec fn display_text(r: RegistrationView) -> Seq<char> {
    match r.role {
        RoleView::Ata { mint, owner } => r.label + " [ata mint:"@ + base58_of(mint@)
            + " owner:"@ + base58_of(owner@) + "]"@,
        RoleView::Pda { seeds, bump, .. } => r.label + " [pda seeds:"@ + joined(seeds, ","@)
            + " bump:"@ + decimal_of(bump) + "]"@,
        RoleView::Custom(name) => r.label + " ["@ + name + "]"@,
        _ => r.label + " ["@ + kind_name(r.role) + "]"@,
    }
}

/// The text of one decimal digit.
fn digit_text(d: u8) -> (r: &'static str)
    requires
        d < 10,
    ensures
        r@ == seq![decimal_digit(d as int)],
{
    proof {
        reveal_strlit("0");
        reveal_strlit("1");
        reveal_strlit("2");
        reveal_strlit("3");
        reveal_strlit("4");
        reveal_strlit("5");
        reveal_strlit("6");
        reveal_strlit("7");
        reveal_strlit("8");
        reveal_strlit("9");
    }
    match d {
        0 => "0",
        1 => "1",
        2 => "2",
        3 => "3",
        4 => "4",
        5 => "5",
        6 => "6",
        7 => "7",
        8 => "8",
        _ => "9",
    }
}

/// The decimal text of a byte.
fn decimal_text(n: u8) -> (r: String)
    ensures
        r@ == decimal_of(n),
{
    if n < 10 {
        String::from_str(digit_text(n))
    } else if n < 100 {
        String::from_str(digit_text(n / 10)).concat(digit_text(n % 10))
    } else {
        String::from_str(digit_text(n / 100)).concat(digit_text((n / 10) % 10)).concat(
            digit_text(n % 10),
        )
    }
}

/// The parts joined by the separator.
fn join_texts(parts: &Vec<String>, sep: &str) -> (r: String)
    ensures
        r@ == joined(parts.deep_view(), sep@),
{
    let mut out = String::new();
    let mut i: usize = 0;
    while i < parts.len()
        invariant
            i <= parts.len(),
            out@ == joined(parts.deep_view().take(i as int), sep@),
        decreases parts.len() - i,
    {
        let ghost before = parts.deep_view().take(i as int);
        let ghost after = parts.deep_view().take(i + 1);
        assert(after.drop_last() =~= before);
        if i > 0 {
            out.append(sep);
        }
        out.append(parts[i].as_str());
        i = i + 1;
        proof {
            if before.len() == 0 {
                assert(out@ =~= after[0]);
            }
        }
    }
    assert(parts.deep_view().take(parts.len() as int) =~= parts.deep_view());
    out
}

impl RegisteredAddress {
    /// A registration of `address` under `label` with `role`.
    pub fn new(address: Key, label: String, role: AddressRole) -> (r: Self)
        ensures
            r.address == address,
            r.label == label,
            r.role == role,
    {
        RegisteredAddress { address, label, role }
    }

    /// A wallet registration.
    pub fn wallet(address: Key, label: &str) -> (r: Self)
        ensures
            r@ == (RegistrationView { address, label: label@, role: RoleView::Wallet }),
    {
        Self::new(address, String::from_str(label), AddressRole::Wallet)
    }

    /// A mint registration.
    pub fn mint(address: Key, label: &str) -> (r: Self)
        ensures
            r@ == (RegistrationView { address, label: label@, role: RoleView::Mint }),
    {
        Self::new(address, String::from_str(label), AddressRole::Mint)
    }

    /// An associated token account registration, for `owner` and `mint`.
    pub fn ata(address: Key, label: &str, mint: Key, owner: Key) -> (r: Self)
        ensures
            r@ == (RegistrationView { address, label: label@, role: RoleView::Ata { mint, owner } }),
    {
        Self::new(address, String::from_str(label), AddressRole::Ata { mint, owner })
    }

    /// A registration with a role of the caller's naming.
    pub fn custom(address: Key, label: &str, custom_role: &str) -> (r: Self)
        ensures
            r@ == (RegistrationView {
                address,
                label: label@,
                role: RoleView::Custom(custom_role@),
            }),
    {
        Self::new(
            address,
            String::from_str(label),
            AddressRole::Custom(String::from_str(custom_role)),
        )
    }

    /// A program registration.
    pub fn program(address: Key, label: &str) -> (r: Self)
        ensures
            r@ == (RegistrationView { address, label: label@, role: RoleView::Program }),
    {
        Self::new(address, String::from_str(label), AddressRole::Program)
    }

    /// A registration of an already derived address, from its parts.
    pub fn pda_from_parts(
        address: Key,
        label: &str,
        seeds: Vec<String>,
        program_id: Key,
        bump: u8,
    ) -> (r: Self)
        ensures
            r@ == (RegistrationView {
                address,
                label: label@,
                role: RoleView::Pda { seeds: seeds.deep_view(), program_id, bump },
            }),
    {
        Self::new(address, String::from_str(label), AddressRole::Pda { seeds, program_id, bump })
    }

    /// Derives the address of `seeds` under `program_id` and makes its registration
    /// under `label`, with the printable seeds; returns the address and bump beside it.
    pub fn pda(label: &str, seeds: &Vec<Vec<u8>>, program_id: &Key) -> (r: Result<
        (Key, u8, Self),
        AddressBookError,
    >)
        ensures
            r is Err ==> derives(seeds.deep_view(), *program_id, Err(r->Err_0)),
            r matches Ok((k, b, reg)) ==> {
                &&& derives(seeds.deep_view(), *program_id, Ok((k, b)))
                &&& !is_curve_point(k@)
                &&& reg@ == (RegistrationView {
                    address: k,
                    label: label@,
                    role: RoleView::Pda {
                        seeds: seeds.deep_view().map_values(|s: Seq<u8>| seed_text(s)),
                        program_id: *program_id,
                        bump: b,
                    },
                })
            },
    {
        match find_pda_with_bump_and_strings(seeds, program_id) {
            Ok(d) => {
                let reg = Self::pda_from_parts(d.key, label, d.seed_strings, *program_id, d.bump);
                Ok((d.key, d.bump, reg))
            },
            Err(e) => Err(e),
        }
    }

    /// Whether two registrations are equal: address, label and role.
    pub fn same_as(&self, other: &RegisteredAddress) -> (r: bool)
        ensures
            r == (self@ == other@),
    {
        self.address.same_as(&other.address) && self.label == other.label && self.role.same_as(
            &other.role,
        )
    }

    /// The one-line description of this registration (see `display_text`).
    pub fn to_display_string(&self) -> (r: String)
        ensures
            r@ == display_text(self@),
    {
        let label = self.label.as_str();
        match &self.role {
            AddressRole::Ata { mint, owner } => {
                let m = key_text(mint);
                let o = key_text(owner);
                String::from_str(label).concat(" [ata mint:").concat(m.as_str()).concat(
                    " owner:",
                ).concat(o.as_str()).concat("]")
            },
            AddressRole::Pda { seeds, bump, .. } => {
                let joined_seeds = join_texts(seeds, ",");
                let b = decimal_text(*bump);
                String::from_str(label).concat(" [pda seeds:").concat(
                    joined_seeds.as_str(),
                ).concat(" bump:").concat(b.as_str()).concat("]")
            },
            AddressRole::Custom(name) => {
                String::from_str(label).concat(" [").concat(name.as_str()).concat("]")
            },
            _ => String::from_str(label).concat(" [").concat(self.role.kind_name()).concat("]"),
        }
    }
}

impl Clone for RegisteredAddress {
    fn clone(&self) -> (r: Self)
        ensures
            r@ == self@,
    {
        RegisteredAddress {
            address: self.address,
            label: self.label.clone(),
            role: self.role.clone(),
        }
    }
}

impl PartialEq for RegisteredAddress {
    fn eq(&self, other: &RegisteredAddress) -> (r: bool) {
        self.same_as(other)
    }
}

impl vstd::std_specs::cmp::PartialEqSpecImpl for RegisteredAddress {
    open spec fn obeys_eq_spec() -> bool {
        true
    }

    open spec fn eq_spec(&self, other: &RegisteredAddress) -> bool {
        self@ == other@
    }
}

} // verus!
