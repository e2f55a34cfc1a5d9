//! The registry: addresses with their labels and roles, unique by label.

use vstd::prelude::*;
use crate::error::AddressBookError;
use crate::key::{base58_of, is_base58_char, key_text, Key};
use crate::pda_seeds::{derives, find_pda_with_bump_and_strings, seed_text};
use crate::rewrite::{
    contains_text, lemma_apply_single_occurrence, lemma_rewrite_order_sorted,
    lemma_unique_in_order, occurs_only_at,
    pairs_view, rewrite_longest_first, rewrite_order, rewritten,
};
use crate::style::{
    bold_color_codes, bold_in_color, color_code, dimmed, dimmed_codes, holds_reset, in_color,
    in_style, reset_code, role_color, role_tag, styled,
};
use crate::registered_address::{
    kind_name, AddressRole, RegisteredAddress, RegistrationView, RoleView,
};

verus! {

/// No two registrations share a label.
pub open spec fn labels_unique(s: Seq<RegistrationView>) -> bool {
    forall|i: int, j: int|
        0 <= i < s.len() && 0 <= j < s.len() && #[trigger] s[i].label == #[trigger] s[j].label
            ==> i == j
}

/// Some registration carries the label.
pub open spec fn label_taken(s: Seq<RegistrationView>, label: Seq<char>) -> bool {
    exists|i: int| 0 <= i < s.len() && #[trigger] s[i].label == label
}

/// The label of `reg` is already bound to another address or another role.
pub open spec fn conflicts(s: Seq<RegistrationView>, reg: RegistrationView) -> bool {
    exists|i: int|
        0 <= i < s.len() && #[trigger] s[i].label == reg.label && (s[i].address != reg.address
            || s[i].role != reg.role)
}

/// The registrations after `reg` was registered without conflict: appended when its
/// label is new, unchanged when the same registration is already there.
pub open spec fn registered(s: Seq<RegistrationView>, reg: RegistrationView) -> Seq<
    RegistrationView,
> {
    if label_taken(s, reg.label) {
        s
    } else {
        s.push(reg)
    }
}

/// The registration is of the address.
pub open spec fn names(k: Key) -> spec_fn(RegistrationView) -> bool {
    |r: RegistrationView| r.address == k
}

/// The registration's role is of the named kind.
pub open spec fn of_kind(kind: Seq<char>) -> spec_fn(RegistrationView) -> bool {
    |r: RegistrationView| kind_name(r.role) == kind
}

/// The registrations of an address, in the order they were made.
pub open spec fn registrations_of(s: Seq<RegistrationView>, k: Key) -> Seq<RegistrationView> {
    s.filter(names(k))
}

/// Some registration is of the address.
pub open spec fn has_key(s: Seq<RegistrationView>, k: Key) -> bool {
    exists|i: int| 0 <= i < s.len() && #[trigger] s[i].address == k
}

/// The registered addresses, each once, in the order of their first registration.
pub open spec fn distinct_keys(s: Seq<RegistrationView>) -> Seq<Key>
    decreases s.len(),
{
    if s.len() == 0 {
        Seq::empty()
    } else {
        let before = distinct_keys(s.drop_last());
        if before.contains(s.last().address) {
            before
        } else {
            before.push(s.last().address)
        }
    }
}

/// The label shown for an address: that of its first registration, or else the
/// address's own text.
pub open spec fn label_of(s: Seq<RegistrationView>, k: Key) -> Seq<char> {
    if has_key(s, k) {
        registrations_of(s, k)[0].label
    } else {
        base58_of(k@)
    }
}

/// The pair that rewrites an address's text: the text as pattern, and the address's
/// label, bold in the color of its first role, as replacement.
pub open spec fn replacement_pair(
    s: Seq<RegistrationView>,
    k: Key,
    pair: (Seq<char>, Seq<char>),
) -> bool {
    let label = label_of(s, k);
    &&& pair.0 == base58_of(k@)
    &&& 32 <= pair.0.len() <= 44
    &&& forall|i: int| 0 <= i < pair.0.len() ==> is_base58_char(#[trigger] pair.0[i])
    &&& !holds_reset(label) ==> styled(pair.1, bold_color_codes(role_color(first_role(s, k))), label)
}

/// The role of an address's first registration.
pub open spec fn first_role(s: Seq<RegistrationView>, k: Key) -> RoleView {
    registrations_of(s, k)[0].role
}

/// The pairs that rewrite text for the registrations: one for each registered
/// address, in the order of first registration.
pub open spec fn replacement_pairs(
    s: Seq<RegistrationView>,
    pairs: Seq<(Seq<char>, Seq<char>)>,
) -> bool {
    &&& pairs.len() == distinct_keys(s).len()
    &&& forall|i: int|
        0 <= i < pairs.len() ==> #[trigger] replacement_pair(s, distinct_keys(s)[i], pairs[i])
}

/// `r` shows a registration: its label, bold in the color of its role, a space,
/// and its role's note, dimmed.
pub open spec fn shows_registration(r: Seq<char>, reg: RegistrationView) -> bool {
    exists|label: Seq<char>, note: Seq<char>|
        {
            &&& r == #[trigger] (label + " "@ + note)
            &&& !holds_reset(reg.label) ==> styled(
                label,
                bold_color_codes(role_color(reg.role)),
                reg.label,
            )
            &&& !holds_reset(role_tag(reg.role)) ==> styled(note, dimmed_codes(), role_tag(reg.role))
        }
}

/// What registering `reg` into `before` does: it is refused, leaving `after` equal
/// to `before`, exactly when the label is bound to another address or role; else
/// `after` is `before` with `reg` registered.
pub open spec fn add_outcome(
    before: Seq<RegistrationView>,
    reg: RegistrationView,
    r: Result<(), AddressBookError>,
    after: Seq<RegistrationView>,
) -> bool {
    &&& r is Err <==> conflicts(before, reg)
    &&& r is Err ==> after == before && r->Err_0.is_duplicate_of(reg.label)
    &&& r is Ok ==> after == registered(before, reg)
}

/// The registration of a derived address, with the printable form of its seeds.
pub open spec fn pda_registration(
    address: Key,
    label: Seq<char>,
    seeds: Seq<Seq<u8>>,
    program_id: Key,
    bump: u8,
) -> RegistrationView {
    RegistrationView {
        address,
        label,
        role: RoleView::Pda {
            seeds: seeds.map_values(|s: Seq<u8>| seed_text(s)),
            program_id,
            bump,
        },
    }
}

/// The addresses of the registrations whose role is of the named kind, in the
/// order the registrations were made.
pub open spec fn addresses_of_kind(s: Seq<RegistrationView>, kind: Seq<char>) -> Seq<Key> {
    s.filter(of_kind(kind)).map_values(
        |r: RegistrationView| r.address,
    )
}

/// The values of registrations.
pub open spec fn views_of(v: Seq<RegisteredAddress>) -> Seq<RegistrationView> {
    v.map_values(|x: RegisteredAddress| x@)
}

/// The bytes of the system program's address: all zero.
pub open spec fn system_program_bytes() -> Seq<u8> {
    Seq::new(32, |i: int| 0u8)
}

/// The bytes of the token program's address.
pub open spec fn token_program_bytes() -> Seq<u8> {
    seq![
        6u8, 221, 246, 225, 215, 101, 161, 147, 217, 203, 225, 70, 206, 235, 121, 172, 28, 180,
        133, 237, 95, 91, 55, 145, 58, 140, 245, 133, 126, 255, 0, 169,
    ]
}

/// The bytes of the associated token account program's address.
pub open spec fn associated_token_program_bytes() -> Seq<u8> {
    seq![
        140u8, 151, 37, 143, 78, 36, 137, 241, 187, 61, 16, 41, 20, 142, 13, 131, 11, 90, 19,
        153, 218, 255, 16, 132, 4, 142, 123, 216, 219, 233, 248, 89,
    ]
}

/// The program registration under a label.
pub open spec fn program_registration(address: Key, label: Seq<char>) -> RegistrationView {
    RegistrationView { address, label, role: RoleView::Program }
}

/// What registering the three well-known programs, in turn, does: each registration
/// is made as `add` makes it, and the first one refused stops the others.
pub open spec fn defaults_outcome(
    before: Seq<RegistrationView>,
    system: Key,
    token: Key,
    associated_token: Key,
    r: Result<(), AddressBookError>,
    after: Seq<RegistrationView>,
) -> bool {
    let first = program_registration(system, "system_program"@);
    let second = program_registration(token, "token_program"@);
    let third = program_registration(associated_token, "associated_token_program"@);
    let s1 = registered(before, first);
    let s2 = registered(s1, second);
    if conflicts(before, first) {
        add_outcome(before, first, r, after)
    } else if conflicts(s1, second) {
        add_outcome(s1, second, r, after)
    } else {
        add_outcome(s2, third, r, after)
    }
}

/// An address book: registrations in the order they were made, each label bound to
/// one of them, and an address free to carry several.
#[derive(Debug)]
pub struct AddressBook {
    entries: Vec<RegisteredAddress>,
    keys: Vec<Key>,
}

impl View for AddressBook {
    type V = Seq<RegistrationView>;

    closed spec fn view(&self) -> Seq<RegistrationView> {
        views_of(self.entries@)
    }
}

proof fn lemma_has_key_push(s: Seq<RegistrationView>, k: Key)
    requires
        s.len() > 0,
    ensures
        has_key(s, k) <==> (has_key(s.drop_last(), k) || s.last().address == k),
{
    let front = s.drop_last();
    if has_key(front, k) {
        let i = choose|i: int| 0 <= i < front.len() && #[trigger] front[i].address == k;
        assert(s[i].address == k);
    }
    if has_key(s, k) && s.last().address != k {
        let i = choose|i: int| 0 <= i < s.len() && #[trigger] s[i].address == k;
        assert(front[i].address == k);
    }
    if s.last().address == k {
        assert(s[s.len() - 1].address == k);
    }
}

proof fn lemma_distinct_keys(s: Seq<RegistrationView>)
    ensures
        distinct_keys(s).no_duplicates(),
        forall|k: Key| #[trigger] distinct_keys(s).contains(k) <==> has_key(s, k),
    decreases s.len(),
{
    if s.len() > 0 {
        let front = s.drop_last();
        lemma_distinct_keys(front);
        let before = distinct_keys(front);
        let last = s.last().address;
        assert forall|k: Key| #[trigger] distinct_keys(s).contains(k) <==> has_key(s, k) by {
            lemma_has_key_push(s, k);
            if !before.contains(last) {
                assert(distinct_keys(s) == before.push(last));
                if distinct_keys(s).contains(k) && k != last {
                    let i = choose|i: int| 0 <= i < before.len() + 1 && distinct_keys(s)[i] == k;
                    assert(before[i] == k);
                }
                if before.contains(k) {
                    let i = choose|i: int| 0 <= i < before.len() && before[i] == k;
                    assert(distinct_keys(s)[i] == k);
                }
                if k == last {
                    assert(distinct_keys(s)[before.len() as int] == k);
                }
            }
        }
    }
}

/// Filtering a prefix one element longer.
proof fn lemma_filter_step<A>(s: Seq<A>, i: int, pred: spec_fn(A) -> bool)
    requires
        0 <= i < s.len(),
    ensures
        s.take(i + 1).filter(pred) == (if pred(s[i]) {
            s.take(i).filter(pred).push(s[i])
        } else {
            s.take(i).filter(pred)
        }),
{
    reveal(Seq::filter);
    let next = s.take(i + 1);
    assert(next.drop_last() =~= s.take(i));
    assert(next.last() == s[i]);
}

proof fn lemma_registrations_of_empty(s: Seq<RegistrationView>, k: Key)
    ensures
        registrations_of(s, k).len() == 0 <==> !has_key(s, k),
    decreases s.len(),
{
    if s.len() > 0 {
        lemma_registrations_of_empty(s.drop_last(), k);
        lemma_has_key_push(s, k);
        let pred = names(k);
        reveal(Seq::filter);
        assert(s.filter(pred) == (if pred(s.last()) {
            s.drop_last().filter(pred).push(s.last())
        } else {
            s.drop_last().filter(pred)
        }));
    }
}

/// The first registration of an address is the earliest one that names it.
proof fn lemma_first_registration(s: Seq<RegistrationView>, k: Key, i: int)
    requires
        0 <= i < s.len(),
        s[i].address == k,
        forall|j: int| 0 <= j < i ==> #[trigger] s[j].address != k,
    ensures
        registrations_of(s, k).len() > 0,
        registrations_of(s, k)[0] == s[i],
{
    let front = s.take(i + 1);
    let back = s.skip(i + 1);
    assert(s =~= front + back);
    let pred = names(k);
    Seq::filter_distributes_over_add(front, back, pred);
    assert(front.drop_last() =~= s.take(i));
    assert forall|j: int| 0 <= j < s.take(i).len() implies !pred(#[trigger] s.take(i)[j]) by {
        assert(s.take(i)[j] == s[j]);
    }
    s.take(i).lemma_all_neg_filter_empty(pred);
    lemma_filter_step(s, i, pred);
    assert(front.filter(pred) =~= seq![s[i]]);
}

impl Default for AddressBook {
    fn default() -> (r: AddressBook)
        ensures
            r.wf(),
            r@ == Seq::<RegistrationView>::empty(),
    {
        AddressBook::new()
    }
}

/// Relies on `anchor_lang::solana_program::system_program::ID`, the address of the
/// system program, declared as "11111111111111111111111111111111".
#[verifier::external_body]
fn system_program_key() -> (r: Key)
    ensures
        r@ == system_program_bytes(),
{
    Key::new(anchor_lang::solana_program::system_program::ID.to_bytes())
}

/// Relies on `anchor_spl::token::ID`, the address of the token program, declared
/// as "TokenkegQfeZyiNwAJbNbGKPFXCWuBvf9Ss623VQ5DA".
#[verifier::external_body]
fn token_program_key() -> (r: Key)
    ensures
        r@ == token_program_bytes(),
{
    Key::new(anchor_spl::token::ID.to_bytes())
}

/// Relies on `anchor_spl::associated_token::ID`, the address of the associated token
/// account program, declared as "ATokenGPvbdGVxr1b2hvZbsiqW5xWH25efTNsLJA8knL".
#[verifier::external_body]
fn associated_token_program_key() -> (r: Key)
    ensures
        r@ == associated_token_program_bytes(),
{
    Key::new(anchor_spl::associated_token::ID.to_bytes())
}

/// Base58 text holds no reset sequence: the escape character is not in the
/// alphabet.
proof fn lemma_base58_holds_no_reset(t: Seq<char>)
    requires
        forall|i: int| 0 <= i < t.len() ==> is_base58_char(#[trigger] t[i]),
    ensures
        !holds_reset(t),
{
    if holds_reset(t) {
        let r = reset_code();
        let i = choose|i: int|
            0 <= i && i + r.len() <= t.len() && #[trigger] t.subrange(i, i + r.len()) == r;
        assert(t.subrange(i, i + r.len())[0] == t[i]);
        assert(is_base58_char(t[i]));
    }
}

/// Into an empty book the three programs go under their three labels, as three
/// addresses.
proof fn lemma_defaults_on_empty_book(system: Key, token: Key, associated_token: Key)
    requires
        system@ == system_program_bytes(),
        token@ == token_program_bytes(),
        associated_token@ == associated_token_program_bytes(),
    ensures
        forall|r: Result<(), AddressBookError>, after: Seq<RegistrationView>|
            #[trigger] defaults_outcome(
                Seq::empty(),
                system,
                token,
                associated_token,
                r,
                after,
            ) ==> r is Ok && distinct_keys(after).len() == 3,
{
    reveal_strlit("system_program");
    reveal_strlit("token_program");
    reveal_strlit("associated_token_program");
    let first = program_registration(system, "system_program"@);
    let second = program_registration(token, "token_program"@);
    let third = program_registration(associated_token, "associated_token_program"@);
    let e = Seq::<RegistrationView>::empty();
    assert(system@[0] != token@[0]);
    assert(system@[0] != associated_token@[0]);
    assert(token@[0] != associated_token@[0]);
    assert(!label_taken(e, first.label));
    let s1 = e.push(first);
    assert(registered(e, first) == s1);
    assert(!label_taken(s1, second.label)) by {
        assert("system_program"@ != "token_program"@) by {
            assert("system_program"@[0] != "token_program"@[0]);
        }
        if label_taken(s1, second.label) {
            let i = choose|i: int| 0 <= i < s1.len() && #[trigger] s1[i].label == second.label;
            assert(i == 0);
        }
    }
    let s2 = s1.push(second);
    assert(registered(s1, second) == s2);
    assert(!label_taken(s2, third.label)) by {
        assert("system_program"@ != "associated_token_program"@) by {
            assert("system_program"@[0] != "associated_token_program"@[0]);
        }
        assert("token_program"@ != "associated_token_program"@) by {
            assert("token_program"@[0] != "associated_token_program"@[0]);
        }
        if label_taken(s2, third.label) {
            let i = choose|i: int| 0 <= i < s2.len() && #[trigger] s2[i].label == third.label;
            assert(i == 0 || i == 1);
        }
    }
    let s3 = s2.push(third);
    assert(registered(s2, third) == s3);
    assert(!conflicts(e, first));
    assert(!conflicts(s1, second)) by {
        assert(!label_taken(s1, second.label));
    }
    assert(!conflicts(s2, third)) by {
        assert(!label_taken(s2, third.label));
    }
    assert(s1.drop_last() =~= e);
    assert(s2.drop_last() =~= s1);
    assert(s3.drop_last() =~= s2);
    assert(distinct_keys(e) =~= Seq::<Key>::empty());
    assert(distinct_keys(s1) == seq![system]);
    assert(!seq![system].contains(token)) by {
        if seq![system].contains(token) {
            assert(seq![system][0] == token);
        }
    }
    assert(distinct_keys(s2) == seq![system].push(token));
    assert(!seq![system].push(token).contains(associated_token)) by {
        if seq![system].push(token).contains(associated_token) {
            let i = choose|i: int| 0 <= i < 2 && seq![system].push(token)[i] == associated_token;
            assert(i == 0 || i == 1);
        }
    }
    assert(distinct_keys(s3) == seq![system].push(token).push(associated_token));
}

impl AddressBook {
    /// The book is consistent: labels are unique and the list of addresses holds
    /// each registered address once, in the order of first registration.
    pub open spec fn wf(&self) -> bool {
        &&& labels_unique(self@)
        &&& self.keys_match()
    }

    pub closed spec fn keys_match(&self) -> bool {
        self.keys@ == distinct_keys(self@)
    }

    /// The registered addresses, each once, in the order of first registration.
    pub open spec fn keys(&self) -> Seq<Key> {
        distinct_keys(self@)
    }

    /// An empty address book.
    pub fn new() -> (r: AddressBook)
        ensures
            r.wf(),
            r@ == Seq::<RegistrationView>::empty(),
    {
        let r = AddressBook { entries: Vec::new(), keys: Vec::new() };
        assert(r@ =~= Seq::<RegistrationView>::empty());
        r
    }

    /// The index of the registration that carries the label, if any.
    fn find_label(&self, label: &String) -> (r: Option<usize>)
        ensures
            r matches Some(i) ==> i < self@.len() && self@[i as int].label == label@,
            r is None ==> !label_taken(self@, label@),
    {
        let mut i: usize = 0;
        while i < self.entries.len()
            invariant
                i <= self@.len(),
                self@.len() == self.entries@.len(),
                forall|j: int| 0 <= j < i ==> #[trigger] self@[j].label != label@,
            decreases self.entries.len() - i,
        {
            assert(self@[i as int] == self.entries@[i as int]@);
            if self.entries[i].label == *label {
                return Some(i);
            }
            i = i + 1;
        }
        None
    }

    /// Whether the address is among the registered ones.
    fn key_listed(&self, pubkey: &Key) -> (r: bool)
        requires
            self.wf(),
        ensures
            r == has_key(self@, *pubkey),
    {
        proof {
            lemma_distinct_keys(self@);
        }
        let mut i: usize = 0;
        while i < self.keys.len()
            invariant
                i <= self.keys@.len(),
                self.wf(),
                forall|j: int| 0 <= j < i ==> #[trigger] self.keys@[j] != *pubkey,
            decreases self.keys.len() - i,
        {
            if self.keys[i].same_as(pubkey) {
                assert(self.keys@[i as int] == *pubkey);
                proof {
                    lemma_distinct_keys(self@);
                }
                assert(distinct_keys(self@).contains(*pubkey));
                return true;
            }
            i = i + 1;
        }
        assert(!distinct_keys(self@).contains(*pubkey));
        false
    }

    /// Registers `registered_address` under its label. A label bound to another
    /// address or role is refused, and the book stays as it was; registering the same
    /// registration again succeeds and changes nothing.
    pub fn add(&mut self, pubkey: Key, registered_address: RegisteredAddress) -> (r: Result<
        (),
        AddressBookError,
    >)
        requires
            old(self).wf(),
            registered_address.address == pubkey,
        ensures
            final(self).wf(),
            add_outcome(old(self)@, registered_address@, r, final(self)@),
    {
        let ghost s = self@;
        let ghost reg = registered_address@;
        match self.find_label(&registered_address.label) {
            Some(i) => {
                let existing = &self.entries[i];
                assert(self@[i as int] == existing@);
                if !existing.address.same_as(&pubkey) || !existing.role.same_as(
                    &registered_address.role,
                ) {
                    return Err(AddressBookError::DuplicateLabel(registered_address.label));
                }
                assert(label_taken(s, reg.label));
                assert forall|j: int| 0 <= j < s.len() && #[trigger] s[j].label == reg.label
                    implies !(s[j].address != reg.address || s[j].role != reg.role) by {
                    assert(j == i);
                }
                Ok(())
            },
            None => {
                proof {
                    lemma_distinct_keys(s);
                }
                let listed = self.key_listed(&pubkey);
                self.entries.push(registered_address);
                if !listed {
                    self.keys.push(pubkey);
                }
                assert(self@ =~= s.push(reg));
                assert(self@.drop_last() =~= s);
                proof {
                    lemma_push_keeps_labels_unique(s, reg);
                }
                assert(distinct_keys(s).contains(pubkey) == listed);
                Ok(())
            },
        }
    }

    /// Registers the system program, the token program and the associated token
    /// account program under their usual labels.
    pub fn add_default_accounts(&mut self) -> (r: Result<(), AddressBookError>)
        requires
            old(self).wf(),
        ensures
            final(self).wf(),
            exists|system: Key, token: Key, associated_token: Key|
                {
                    &&& system@ == system_program_bytes()
                    &&& token@ == token_program_bytes()
                    &&& associated_token@ == associated_token_program_bytes()
                    &&& defaults_outcome(
                        old(self)@,
                        system,
                        token,
                        associated_token,
                        r,
                        final(self)@,
                    )
                },
            old(self)@.len() == 0 ==> r is Ok && distinct_keys(final(self)@).len() == 3,
    {
        let system = system_program_key();
        let token = token_program_key();
        let associated_token = associated_token_program_key();
        let ghost before = self@;
        match self.add_program(system, "system_program") {
            Ok(()) => {},
            Err(e) => {
                assert(defaults_outcome(before, system, token, associated_token, Err(e), self@));
                proof {
                    if before.len() == 0 {
                        assert(before =~= Seq::<RegistrationView>::empty());
                        lemma_defaults_on_empty_book(system, token, associated_token);
                    }
                }
                return Err(e);
            },
        }
        let ghost s1 = self@;
        match self.add_program(token, "token_program") {
            Ok(()) => {},
            Err(e) => {
                assert(defaults_outcome(before, system, token, associated_token, Err(e), self@));
                proof {
                    if before.len() == 0 {
                        assert(before =~= Seq::<RegistrationView>::empty());
                        lemma_defaults_on_empty_book(system, token, associated_token);
                    }
                }
                return Err(e);
            },
        }
        let r = self.add_program(associated_token, "associated_token_program");
        assert(defaults_outcome(before, system, token, associated_token, r, self@));
        proof {
            if before.len() == 0 {
                assert(before =~= Seq::<RegistrationView>::empty());
                lemma_defaults_on_empty_book(system, token, associated_token);
            }
        }
        r
    }

    /// Registers a wallet.
    pub fn add_wallet(&mut self, pubkey: Key, label: String) -> (r: Result<(), AddressBookError>)
        requires
            old(self).wf(),
        ensures
            final(self).wf(),
            add_outcome(
                old(self)@,
                RegistrationView { address: pubkey, label: label@, role: RoleView::Wallet },
                r,
                final(self)@,
            ),
    {
        self.add(pubkey, RegisteredAddress::new(pubkey, label, AddressRole::Wallet))
    }

    /// Registers a token mint.
    pub fn add_mint(&mut self, pubkey: Key, label: String) -> (r: Result<(), AddressBookError>)
        requires
            old(self).wf(),
        ensures
            final(self).wf(),
            add_outcome(
                old(self)@,
                RegistrationView { address: pubkey, label: label@, role: RoleView::Mint },
                r,
                final(self)@,
            ),
    {
        self.add(pubkey, RegisteredAddress::new(pubkey, label, AddressRole::Mint))
    }

    /// Registers the associated token account of `owner` for `mint`.
    pub fn add_ata(&mut self, pubkey: Key, label: String, mint: Key, owner: Key) -> (r: Result<
        (),
        AddressBookError,
    >)
        requires
            old(self).wf(),
        ensures
            final(self).wf(),
            add_outcome(
                old(self)@,
                RegistrationView {
                    address: pubkey,
                    label: label@,
                    role: RoleView::Ata { mint, owner },
                },
                r,
                final(self)@,
            ),
    {
        self.add(pubkey, RegisteredAddress::new(pubkey, label, AddressRole::Ata { mint, owner }))
    }

    /// Registers an address under a role of the caller's naming.
    pub fn add_custom(&mut self, pubkey: Key, label: String, custom_role: String) -> (r: Result<
        (),
        AddressBookError,
    >)
        requires
            old(self).wf(),
        ensures
            final(self).wf(),
            add_outcome(
                old(self)@,
                RegistrationView {
                    address: pubkey,
                    label: label@,
                    role: RoleView::Custom(custom_role@),
                },
                r,
                final(self)@,
            ),
    {
        self.add(pubkey, RegisteredAddress::new(pubkey, label, AddressRole::Custom(custom_role)))
    }

    /// Registers a derived address with the printable form of its seeds.
    pub fn add_pda(
        &mut self,
        pubkey: Key,
        label: String,
        seeds: Vec<String>,
        program_id: Key,
        bump: u8,
    ) -> (r: Result<(), AddressBookError>)
        requires
            old(self).wf(),
        ensures
            final(self).wf(),
            add_outcome(
                old(self)@,
                RegistrationView {
                    address: pubkey,
                    label: label@,
                    role: RoleView::Pda { seeds: seeds.deep_view(), program_id, bump },
                },
                r,
                final(self)@,
            ),
    {
        self.add(
            pubkey,
            RegisteredAddress::new(pubkey, label, AddressRole::Pda { seeds, program_id, bump }),
        )
    }

    /// Registers a program.
    pub fn add_program(&mut self, pubkey: Key, label: &str) -> (r: Result<(), AddressBookError>)
        requires
            old(self).wf(),
        ensures
            final(self).wf(),
            add_outcome(
                old(self)@,
                RegistrationView { address: pubkey, label: label@, role: RoleView::Program },
                r,
                final(self)@,
            ),
    {
        self.add(pubkey, RegisteredAddress::program(pubkey, label))
    }

    /// Derives the address of `seeds` under `program_id` and registers it under
    /// `label`; returns the address and its bump seed. A failed derivation or a
    /// refused label leaves the book as it was.
    pub fn find_pda_with_bump(&mut self, label: &str, seeds: &Vec<Vec<u8>>, program_id: Key) -> (r:
        Result<(Key, u8), AddressBookError>)
        requires
            old(self).wf(),
        ensures
            final(self).wf(),
            r matches Ok((k, b)) ==> {
                &&& derives(seeds.deep_view(), program_id, Ok((k, b)))
                &&& !conflicts(
                    old(self)@,
                    pda_registration(k, label@, seeds.deep_view(), program_id, b),
                )
                &&& final(self)@ == registered(
                    old(self)@,
                    pda_registration(k, label@, seeds.deep_view(), program_id, b),
                )
            },
            r is Err ==> final(self)@ == old(self)@,
            r is Err ==> {
                ||| derives(seeds.deep_view(), program_id, Err(r->Err_0))
                ||| exists|k: Key, b: u8|
                    {
                        &&& derives(seeds.deep_view(), program_id, Ok((k, b)))
                        &&& conflicts(
                            old(self)@,
                            pda_registration(k, label@, seeds.deep_view(), program_id, b),
                        )
                        &&& r->Err_0.is_duplicate_of(label@)
                    }
            },
    {
        match find_pda_with_bump_and_strings(seeds, &program_id) {
            Ok(d) => {
                let key = d.key;
                let bump = d.bump;
                let ghost reg = pda_registration(key, label@, seeds.deep_view(), program_id, bump);
                match self.add_pda(key, String::from_str(label), d.seed_strings, program_id, bump) {
                    Ok(()) => Ok((key, bump)),
                    Err(e) => {
                        assert(derives(seeds.deep_view(), program_id, Ok((key, bump))) && conflicts(
                            old(self)@,
                            reg,
                        ) && e.is_duplicate_of(label@));
                        Err(e)
                    },
                }
            },
            Err(e) => Err(e),
        }
    }

    /// The registrations of an address, in the order they were made, if it has any.
    pub fn get(&self, pubkey: &Key) -> (r: Option<Vec<RegisteredAddress>>)
        requires
            self.wf(),
        ensures
            r is None <==> !has_key(self@, *pubkey),
            r matches Some(v) ==> views_of(v@) == registrations_of(
                self@,
                *pubkey,
            ),
    {
        let ghost s = self@;
        let ghost k = *pubkey;
        let mut out: Vec<RegisteredAddress> = Vec::new();
        let mut i: usize = 0;
        while i < self.entries.len()
            invariant
                i <= s.len(),
                s == self@,
                s.len() == self.entries@.len(),
                k == *pubkey,
                views_of(out@) == registrations_of(s.take(i as int), k),
            decreases self.entries.len() - i,
        {
            assert(s[i as int] == self.entries@[i as int]@);
            proof {
                lemma_filter_step(s, i as int, names(k));
            }
            let ghost before = out@;
            if self.entries[i].address.same_as(pubkey) {
                let c = self.entries[i].clone();
                out.push(c);
                assert(views_of(out@) =~= views_of(before).push(s[i as int]));
            }
            i = i + 1;
        }
        assert(s.take(s.len() as int) =~= s);
        if out.len() == 0 {
            proof {
                lemma_registrations_of_empty(s, k);
            }
            None
        } else {
            proof {
                lemma_registrations_of_empty(s, k);
                assert(views_of(out@).len() > 0);
            }
            Some(out)
        }
    }

    /// The first registration of an address, if it has any.
    pub fn get_first(&self, pubkey: &Key) -> (r: Option<&RegisteredAddress>)
        requires
            self.wf(),
        ensures
            r is None <==> !has_key(self@, *pubkey),
            r matches Some(x) ==> x@ == registrations_of(self@, *pubkey)[0],
    {
        let ghost s = self@;
        let mut i: usize = 0;
        while i < self.entries.len()
            invariant
                i <= s.len(),
                s == self@,
                s.len() == self.entries@.len(),
                forall|j: int| 0 <= j < i ==> #[trigger] s[j].address != *pubkey,
            decreases self.entries.len() - i,
        {
            assert(s[i as int] == self.entries@[i as int]@);
            if self.entries[i].address.same_as(pubkey) {
                proof {
                    lemma_first_registration(s, *pubkey, i as int);
                }
                return Some(&self.entries[i]);
            }
            i = i + 1;
        }
        None
    }

    /// The label shown for an address: that of its first registration, or else the
    /// address's own text.
    pub fn get_label(&self, pubkey: &Key) -> (r: String)
        requires
            self.wf(),
        ensures
            r@ == label_of(self@, *pubkey),
    {
        match self.get_first(pubkey) {
            Some(reg) => reg.label.clone(),
            None => key_text(pubkey),
        }
    }

    /// The address of the first registration, in the order they were made, whose
    /// role equals `role`, if there is one.
    pub fn get_by_role(&self, role: &AddressRole) -> (r: Option<Key>)
        requires
            self.wf(),
        ensures
            r is None <==> !(exists|i: int| 0 <= i < self@.len() && #[trigger] self@[i].role
                == role@),
            r matches Some(k) ==> exists|i: int|
                {
                    &&& 0 <= i < self@.len()
                    &&& #[trigger] self@[i].role == role@
                    &&& self@[i].address == k
                    &&& forall|j: int| 0 <= j < i ==> #[trigger] self@[j].role != role@
                },
    {
        let ghost s = self@;
        let mut i: usize = 0;
        while i < self.entries.len()
            invariant
                i <= s.len(),
                s == self@,
                s.len() == self.entries@.len(),
                forall|j: int| 0 <= j < i ==> #[trigger] s[j].role != role@,
            decreases self.entries.len() - i,
        {
            assert(s[i as int] == self.entries@[i as int]@);
            if self.entries[i].role.same_as(role) {
                assert(self@[i as int].role == role@);
                return Some(self.entries[i].address);
            }
            i = i + 1;
        }
        None
    }

    /// The addresses of the registrations whose role is of the named kind
    /// ("wallet", "mint", "ata", "pda", "program" or "custom"), whatever the role
    /// carries, in the order the registrations were made.
    pub fn get_all_by_role_type(&self, role_type: &str) -> (r: Vec<Key>)
        requires
            self.wf(),
        ensures
            r@ == addresses_of_kind(self@, role_type@),
    {
        let ghost s = self@;
        let wanted = String::from_str(role_type);
        let mut out: Vec<Key> = Vec::new();
        let mut i: usize = 0;
        while i < self.entries.len()
            invariant
                i <= s.len(),
                s == self@,
                s.len() == self.entries@.len(),
                wanted@ == role_type@,
                out@ == addresses_of_kind(s.take(i as int), role_type@),
            decreases self.entries.len() - i,
        {
            assert(s[i as int] == self.entries@[i as int]@);
            let ghost pred = of_kind(role_type@);
            proof {
                lemma_filter_step(s, i as int, pred);
            }
            let ghost before = s.take(i as int).filter(pred);
            let kind = String::from_str(self.entries[i].role.kind_name());
            if kind == wanted {
                out.push(self.entries[i].address);
                assert(before.push(s[i as int]).map_values(|r: RegistrationView| r.address)
                    =~= before.map_values(|r: RegistrationView| r.address).push(s[i as int].address));
            }
            i = i + 1;
        }
        assert(s.take(s.len() as int) =~= s);
        out
    }

    /// The registrations whose role is of the named kind, in the order they were made.
    pub fn get_all_registrations_by_role_type(&self, role_type: &str) -> (r: Vec<
        RegisteredAddress,
    >)
        requires
            self.wf(),
        ensures
            views_of(r@) == self@.filter(of_kind(role_type@)),
    {
        let ghost s = self@;
        let wanted = String::from_str(role_type);
        let mut out: Vec<RegisteredAddress> = Vec::new();
        let mut i: usize = 0;
        while i < self.entries.len()
            invariant
                i <= s.len(),
                s == self@,
                s.len() == self.entries@.len(),
                wanted@ == role_type@,
                views_of(out@) == s.take(i as int).filter(
                    of_kind(role_type@),
                ),
            decreases self.entries.len() - i,
        {
            assert(s[i as int] == self.entries@[i as int]@);
            let ghost pred = of_kind(role_type@);
            proof {
                lemma_filter_step(s, i as int, pred);
            }
            let ghost before = out@;
            let kind = String::from_str(self.entries[i].role.kind_name());
            if kind == wanted {
                out.push(self.entries[i].clone());
                assert(views_of(out@) =~= views_of(before).push(s[i as int]));
            }
            i = i + 1;
        }
        assert(s.take(s.len() as int) =~= s);
        out
    }


    /// The address as shown to a reader: its first label in the color of its role,
    /// a space, then its role's note, dimmed; or, for an address without
    /// registration, its own text in red. Whether the style sequences appear is the
    /// environment's choice.
    pub fn format_address(&self, pubkey: &Key) -> (r: String)
        requires
            self.wf(),
        ensures
            has_key(self@, *pubkey) ==> shows_registration(
                r@,
                registrations_of(self@, *pubkey)[0],
            ),
            !has_key(self@, *pubkey) ==> styled(r@, color_code("bright red"@), base58_of(pubkey@)),
    {
        match self.get_first(pubkey) {
            Some(reg) => {
                let label = bold_in_color(reg.label.as_str(), reg.role.color_name());
                let tag_text = reg.role.tag();
                let tag = dimmed(tag_text.as_str());
                let r = label.concat(" ").concat(tag.as_str());
                assert(r@ == label@ + " "@ + tag@);
                r
            },
            None => {
                let text = key_text(pubkey);
                proof {
                    lemma_base58_holds_no_reset(text@);
                }
                in_color(text.as_str(), "bright red")
            },
        }
    }

    /// `text` with the text of each registered address replaced by its first label,
    /// in the color of its role, the longest address text first (see
    /// `replacement_pairs`). Whether the style sequences appear is the environment's
    /// choice.
    pub fn replace_addresses_in_text(&self, text: &str) -> (r: String)
        requires
            self.wf(),
        ensures
            exists|pairs: Seq<(Seq<char>, Seq<char>)>|
                replacement_pairs(self@, pairs) && r@ == rewritten(text@, pairs),
    {
        let mut pairs: Vec<(String, String)> = Vec::new();
        let mut i: usize = 0;
        while i < self.keys.len()
            invariant
                self.wf(),
                i <= self.keys@.len(),
                pairs@.len() == i,
                forall|j: int|
                    0 <= j < i ==> #[trigger] replacement_pair(
                        self@,
                        self.keys()[j],
                        pairs_view(pairs@)[j],
                    ),
            decreases self.keys.len() - i,
        {
            let k = self.keys[i];
            proof {
                lemma_distinct_keys(self@);
                assert(self.keys()[i as int] == k);
                assert(distinct_keys(self@).contains(k));
            }
            let pattern = key_text(&k);
            let styled = match self.get_first(&k) {
                Some(reg) => bold_in_color(reg.label.as_str(), reg.role.color_name()),
                None => String::new(),
            };
            let ghost before = pairs@;
            pairs.push((pattern, styled));
            assert forall|j: int| 0 <= j < i + 1 implies #[trigger] replacement_pair(
                self@,
                self.keys()[j],
                pairs_view(pairs@)[j],
            ) by {
                if j < i {
                    assert(pairs_view(pairs@)[j] == pairs_view(before)[j]);
                }
            }
            i = i + 1;
        }
        let ghost chosen = pairs_view(pairs@);
        assert forall|j: int| 0 <= j < chosen.len() implies #[trigger] replacement_pair(
            self@,
            distinct_keys(self@)[j],
            chosen[j],
        ) by {
            assert(self.keys()[j] == distinct_keys(self@)[j]);
        }
        assert(chosen.len() == distinct_keys(self@).len());
        let r = rewrite_longest_first(&String::from_str(text), pairs);
        assert(r@ == rewritten(text@, chosen));
        r
    }

    /// Whether the address has a registration.
    pub fn contains(&self, pubkey: &Key) -> (r: bool)
        requires
            self.wf(),
        ensures
            r == has_key(self@, *pubkey),
    {
        self.key_listed(pubkey)
    }

    /// The number of registered addresses, each counted once.
    pub fn len(&self) -> (r: usize)
        requires
            self.wf(),
        ensures
            r == distinct_keys(self@).len(),
    {
        self.keys.len()
    }

    /// Whether nothing is registered.
    pub fn is_empty(&self) -> (r: bool)
        requires
            self.wf(),
        ensures
            r == (self@.len() == 0),
    {
        proof {
            if self@.len() > 0 {
                lemma_distinct_keys(self@);
                assert(has_key(self@, self@[0].address));
                assert(distinct_keys(self@).contains(self@[0].address));
            }
        }
        self.keys.len() == 0
    }
}

} // verus!

verus! {

proof fn lemma_push_keeps_labels_unique(s: Seq<RegistrationView>, reg: RegistrationView)
    requires
        labels_unique(s),
        !label_taken(s, reg.label),
    ensures
        labels_unique(s.push(reg)),
{
    let t = s.push(reg);
    assert forall|a: int, b: int|
        0 <= a < t.len() && 0 <= b < t.len() && #[trigger] t[a].label == #[trigger] t[b].label
            implies a == b by {
        if a < s.len() && b < s.len() {
            assert(s[a].label == s[b].label);
        } else if a < s.len() {
            assert(s[a].label == reg.label);
        } else if b < s.len() {
            assert(s[b].label == reg.label);
        }
    }
}

/// Labels stay unique: a registration into a book whose labels are unique leaves
/// them unique, and one whose label is bound to another address or role is refused
/// and leaves the book as it was.
pub proof fn lemma_registration_keeps_labels_unique(
    before: Seq<RegistrationView>,
    reg: RegistrationView,
    r: Result<(), AddressBookError>,
    after: Seq<RegistrationView>,
)
    requires
        labels_unique(before),
        add_outcome(before, reg, r, after),
    ensures
        labels_unique(after),
        conflicts(before, reg) ==> r is Err && after == before,
{
    if r is Ok && !label_taken(before, reg.label) {
        lemma_push_keeps_labels_unique(before, reg);
    }
}

/// Registering the same registration twice: both calls succeed, and the second
/// leaves the book as the first left it.
pub proof fn lemma_reregistration_is_idempotent(
    before: Seq<RegistrationView>,
    reg: RegistrationView,
    first: Result<(), AddressBookError>,
    middle: Seq<RegistrationView>,
    second: Result<(), AddressBookError>,
    after: Seq<RegistrationView>,
)
    requires
        labels_unique(before),
        !conflicts(before, reg),
        add_outcome(before, reg, first, middle),
        add_outcome(middle, reg, second, after),
    ensures
        first is Ok,
        second is Ok,
        after == middle,
{
    if !label_taken(before, reg.label) {
        assert(middle == before.push(reg));
        assert(middle[before.len() as int].label == reg.label);
        assert forall|j: int|
            0 <= j < middle.len() && #[trigger] middle[j].label == reg.label implies !(
            middle[j].address != reg.address || middle[j].role != reg.role) by {
            if j < before.len() {
                assert(before[j].label == reg.label);
            }
        }
    } else {
        assert(middle == before);
    }
    assert(label_taken(middle, reg.label));
}

/// One address under two new labels: both registrations succeed, and the address's
/// registrations end with the two, in the order they were made.
pub proof fn lemma_address_under_two_labels(
    before: Seq<RegistrationView>,
    k: Key,
    first: RegistrationView,
    second: RegistrationView,
    r1: Result<(), AddressBookError>,
    middle: Seq<RegistrationView>,
    r2: Result<(), AddressBookError>,
    after: Seq<RegistrationView>,
)
    requires
        labels_unique(before),
        first.address == k,
        second.address == k,
        first.label != second.label,
        !label_taken(before, first.label),
        !label_taken(before, second.label),
        add_outcome(before, first, r1, middle),
        add_outcome(middle, second, r2, after),
    ensures
        r1 is Ok,
        r2 is Ok,
        registrations_of(after, k) == registrations_of(before, k).push(first).push(second),
{
    assert(middle == before.push(first));
    assert(!label_taken(middle, second.label)) by {
        if label_taken(middle, second.label) {
            let i = choose|i: int| 0 <= i < middle.len() && #[trigger] middle[i].label == second.label;
            if i < before.len() {
                assert(before[i].label == second.label);
            }
        }
    }
    assert(after == middle.push(second));
    before.lemma_filter_push(first, names(k));
    middle.lemma_filter_push(second, names(k));
}

} // verus!

verus! {

/// Rewrite safety: where the text of a registered address occurs once in a text,
/// the rewrite puts that address's label, bold in the color of its first role, in
/// its place, whole, and leaves the text around it as it is. An address whose
/// shorter text sits inside it never rewrites part of it, and that address's label
/// does not appear there. This holds when the label holds no reset sequence, other
/// addresses have other texts, no address at least as long occurs in the text, and
/// no address at most as long occurs in the text once the label is in place.
pub proof fn lemma_address_text_becomes_its_label(
    s: Seq<RegistrationView>,
    pairs: Seq<(Seq<char>, Seq<char>)>,
    k: Key,
    before: Seq<char>,
    after: Seq<char>,
)
    requires
        replacement_pairs(s, pairs),
        has_key(s, k),
        !holds_reset(label_of(s, k)),
        occurs_only_at(before + base58_of(k@) + after, base58_of(k@), before.len() as int),
        forall|o: Key| has_key(s, o) && o != k ==> base58_of(o@) != base58_of(k@),
        forall|o: Key|
            #![trigger has_key(s, o)]
            has_key(s, o) && o != k && base58_of(o@).len() >= base58_of(k@).len() ==> !contains_text(
                before + base58_of(k@) + after,
                base58_of(o@),
            ),
        forall|o: Key, r: Seq<char>|
            has_key(s, o) && o != k && base58_of(o@).len() <= base58_of(k@).len() && #[trigger] styled(
                r,
                bold_color_codes(role_color(first_role(s, k))),
                label_of(s, k),
            ) ==> !contains_text(before + r + after, #[trigger] base58_of(o@)),
    ensures
        ({
            let result = rewritten(before + base58_of(k@) + after, pairs);
            let label = label_of(s, k);
            ||| result == before + label + after
            ||| result == before + in_style(bold_color_codes(role_color(first_role(s, k))), label)
                + after
        }),
{
    let keys = distinct_keys(s);
    lemma_distinct_keys(s);
    let t = base58_of(k@);
    let codes = bold_color_codes(role_color(first_role(s, k)));
    assert(keys.contains(k));
    let idx = choose|i: int| 0 <= i < keys.len() && keys[i] == k;
    assert(replacement_pair(s, keys[idx], pairs[idx]));
    let pair = pairs[idx];
    let rep = pair.1;
    assert(styled(rep, codes, label_of(s, k)));
    let order = rewrite_order(pairs);
    lemma_rewrite_order_sorted(pairs);
    assert(order.contains(pairs[idx]));
    assert forall|m: int| 0 <= m < pairs.len() && #[trigger] pairs[m] == pair implies m == idx by {
        assert(replacement_pair(s, keys[m], pairs[m]));
        assert(keys.contains(keys[m]));
        assert(keys[m] == k);
        assert(keys.no_duplicates());
    }
    lemma_unique_in_order(pairs, pair, idx);
    order.index_of_first_ensures(pair);
    let j = order.index_of_first(pair)->Some_0;
    assert forall|i: int| 0 <= i < j implies (#[trigger] order[i]).0.len() == 0
        || !contains_text(before + t + after, order[i].0) by {
        assert(order[i].0.len() >= order[j].0.len());
        assert(pairs.contains(order[i]));
        let m = choose|m: int| 0 <= m < pairs.len() && #[trigger] pairs[m] == order[i];
        assert(replacement_pair(s, keys[m], pairs[m]));
        assert(keys.contains(keys[m]));
        assert(has_key(s, keys[m]));
        if keys[m] == k {
            assert(keys.no_duplicates());
            assert(m == idx);
        }
    }
    assert forall|i: int| j < i < order.len() implies (#[trigger] order[i]).0.len() == 0
        || !contains_text(before + rep + after, order[i].0) by {
        assert(order[j].0.len() >= order[i].0.len());
        assert(pairs.contains(order[i]));
        let m = choose|m: int| 0 <= m < pairs.len() && #[trigger] pairs[m] == order[i];
        assert(replacement_pair(s, keys[m], pairs[m]));
        assert(keys.contains(keys[m]));
        assert(has_key(s, keys[m]));
        if keys[m] == k {
            assert(keys.no_duplicates());
            assert(m == idx);
            assert(order[i] == pair);
            assert(order[j] == pair);
        } else {
            let o = keys[m];
            assert(order[i].0 == base58_of(o@));
            assert(base58_of(o@).len() <= t.len());
            assert(styled(rep, codes, label_of(s, k)));
            assert(!contains_text(before + rep + after, base58_of(o@)));
        }
    }
    lemma_apply_single_occurrence(before, t, after, rep, order, j);
}

} // verus!
