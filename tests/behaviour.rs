use address_book::rewrite::{replace_text, rewrite_longest_first};
use address_book::{
    find_pda_with_bump, seed_to_string, AddressBook, AddressBookError, AddressRole, Key,
    RegisteredAddress, SeedPart,
};
use anchor_lang::prelude::Pubkey;

fn unique_key() -> Key {
    Key::new(Pubkey::new_unique().to_bytes())
}

fn text(k: Key) -> String {
    Pubkey::new_from_array(k.to_bytes()).to_string()
}

#[test]
fn label_of_registered_holder_is_its_label() {
    let mut book = AddressBook::new();
    let k = unique_key();
    book.add_wallet(k, "alice".to_string()).unwrap();
    assert_eq!(book.get_label(&k), "alice");
}

#[test]
fn label_of_unregistered_key_is_its_text() {
    let book = AddressBook::new();
    let k = unique_key();
    assert_eq!(book.get_label(&k), text(k));
}

#[test]
fn default_accounts_are_registered_at_startup() {
    let mut book = AddressBook::new();
    book.add_default_accounts().unwrap();
    let system = Key::new(anchor_lang::solana_program::system_program::ID.to_bytes());
    let token = Key::new(anchor_spl::token::ID.to_bytes());
    let ata_program = Key::new(anchor_spl::associated_token::ID.to_bytes());
    assert!(book.contains(&system));
    assert_eq!(book.get_label(&system), "system_program");
    assert_eq!(book.get_label(&token), "token_program");
    assert_eq!(book.get_label(&ata_program), "associated_token_program");
    assert_eq!(book.len(), 3);
    assert!(matches!(book.get_first(&token).unwrap().role, AddressRole::Program));
}

#[test]
fn default_accounts_twice_change_nothing() {
    let mut book = AddressBook::new();
    book.add_default_accounts().unwrap();
    book.add_default_accounts().unwrap();
    assert_eq!(book.len(), 3);
}

#[test]
fn default_accounts_stop_at_a_taken_label() {
    let mut book = AddressBook::new();
    let other = unique_key();
    book.add_wallet(other, "token_program".to_string()).unwrap();
    let r = book.add_default_accounts();
    assert!(matches!(r, Err(AddressBookError::DuplicateLabel(ref l)) if l == "token_program"));
    let system = Key::new(anchor_lang::solana_program::system_program::ID.to_bytes());
    assert!(book.contains(&system));
    assert_eq!(book.len(), 2);
}

#[test]
fn derivation_with_user_key_is_repeatable() {
    let program_x = unique_key();
    let user = unique_key();
    let seeds = vec!["vault".seed_bytes(), user.seed_bytes()];
    let first = find_pda_with_bump(&seeds, &program_x).unwrap();
    let second = find_pda_with_bump(&seeds, &program_x).unwrap();
    assert_eq!(first, second);
}

#[test]
fn duplicate_label_for_another_key_is_refused() {
    let mut book = AddressBook::new();
    let k2 = unique_key();
    let k3 = unique_key();
    book.add_wallet(k2, "vault".to_string()).unwrap();
    let r = book.add_wallet(k3, "vault".to_string());
    match r {
        Err(AddressBookError::DuplicateLabel(l)) => assert_eq!(l, "vault"),
        _ => panic!("expected a duplicate label"),
    }
    assert!(book.get(&k3).is_none());
    assert!(!book.contains(&k3));
    assert_eq!(book.len(), 1);
}

#[test]
fn duplicate_label_for_another_role_is_refused() {
    let mut book = AddressBook::new();
    let k = unique_key();
    book.add_wallet(k, "x".to_string()).unwrap();
    let r = book.add_mint(k, "x".to_string());
    assert!(r.is_err());
    assert_eq!(book.get(&k).unwrap().len(), 1);
}

#[test]
fn duplicate_label_message_names_the_label() {
    let e = AddressBookError::DuplicateLabel("vault".to_string());
    assert_eq!(e.message(), "Label 'vault' already exists in address book");
}

#[test]
fn same_registration_twice_changes_nothing() {
    let mut book = AddressBook::new();
    let k = unique_key();
    book.add_wallet(k, "w".to_string()).unwrap();
    book.add_wallet(k, "w".to_string()).unwrap();
    assert_eq!(book.len(), 1);
    assert_eq!(book.get(&k).unwrap().len(), 1);
}

#[test]
fn one_key_under_two_labels_keeps_both_in_order() {
    let mut book = AddressBook::new();
    let k = unique_key();
    book.add_wallet(k, "wallet".to_string()).unwrap();
    book.add_custom(k, "treasury".to_string(), "dao".to_string()).unwrap();
    let regs = book.get(&k).unwrap();
    assert_eq!(regs.len(), 2);
    assert_eq!(regs[0].label, "wallet");
    assert!(matches!(regs[0].role, AddressRole::Wallet));
    assert_eq!(regs[1].label, "treasury");
    assert_eq!(regs[1].role, AddressRole::Custom("dao".to_string()));
    assert_eq!(book.get_label(&k), "wallet");
    assert_eq!(book.len(), 1);
}

#[test]
fn get_by_role_gives_first_registered() {
    let mut book = AddressBook::new();
    let a = unique_key();
    let b = unique_key();
    book.add_mint(a, "a".to_string()).unwrap();
    book.add_mint(b, "b".to_string()).unwrap();
    assert_eq!(book.get_by_role(&AddressRole::Mint), Some(a));
    let owner = unique_key();
    let ata = unique_key();
    book.add_ata(ata, "ata".to_string(), a, owner).unwrap();
    assert_eq!(book.get_by_role(&AddressRole::Ata { mint: a, owner }), Some(ata));
    assert_eq!(book.get_by_role(&AddressRole::Ata { mint: b, owner }), None);
}

#[test]
fn role_kind_ignores_payload() {
    let mut book = AddressBook::new();
    let p = unique_key();
    let k1 = unique_key();
    let k2 = unique_key();
    book.add_pda(k1, "one".to_string(), vec!["a".to_string()], p, 255).unwrap();
    book.add_pda(k2, "two".to_string(), vec!["b".to_string()], p, 254).unwrap();
    book.add_wallet(k1, "w".to_string()).unwrap();
    assert_eq!(book.get_all_by_role_type("pda"), vec![k1, k2]);
    assert_eq!(book.get_all_by_role_type("wallet"), vec![k1]);
    assert!(book.get_all_by_role_type("unknown").is_empty());
    let regs = book.get_all_registrations_by_role_type("pda");
    assert_eq!(regs.len(), 2);
    assert_eq!(regs[1].label, "two");
}

#[test]
fn register_and_derive_returns_the_derived_key() {
    let mut book = AddressBook::new();
    let program = unique_key();
    let user = unique_key();
    let seeds = vec!["vault".seed_bytes(), user.seed_bytes()];
    let (k, bump) = book.find_pda_with_bump("vault", &seeds, program).unwrap();
    assert_eq!((k, bump), find_pda_with_bump(&seeds, &program).unwrap());
    let reg = book.get_first(&k).unwrap();
    assert_eq!(reg.label, "vault");
    match &reg.role {
        AddressRole::Pda { seeds, program_id, bump: b } => {
            assert_eq!(seeds, &vec!["vault".to_string(), text(user)]);
            assert_eq!(*program_id, program);
            assert_eq!(*b, bump);
        }
        _ => panic!("expected a derived address"),
    }
}

#[test]
fn register_and_derive_with_taken_label_fails() {
    let mut book = AddressBook::new();
    let other = unique_key();
    book.add_wallet(other, "vault".to_string()).unwrap();
    let seeds = vec!["vault".seed_bytes()];
    let r = book.find_pda_with_bump("vault", &seeds, unique_key());
    assert!(matches!(r, Err(AddressBookError::DuplicateLabel(_))));
    assert_eq!(book.len(), 1);
}

#[test]
fn seed_longer_than_limit_is_refused() {
    let seeds = vec![vec![7u8; 33]];
    let r = find_pda_with_bump(&seeds, &unique_key());
    assert!(matches!(r, Err(AddressBookError::SeedTooLong)));
    assert_eq!(r.unwrap_err().message(), "A seed is longer than 32 bytes");
    let mut book = AddressBook::new();
    let r = book.find_pda_with_bump("long", &seeds, unique_key());
    assert!(matches!(r, Err(AddressBookError::SeedTooLong)));
    assert!(book.is_empty());
}

#[test]
fn too_many_seeds_find_no_address() {
    let seeds: Vec<Vec<u8>> = (0..16u8).map(|i| vec![i]).collect();
    let r = find_pda_with_bump(&seeds, &unique_key());
    assert!(matches!(r, Err(AddressBookError::DiscriminatorExhausted)));
    assert_eq!(
        r.unwrap_err().message(),
        "Unable to find a viable program address bump seed"
    );
}

#[test]
fn seed_text_forms() {
    assert_eq!(seed_to_string(b"hello world"), "hello world");
    assert_eq!(seed_to_string(&[1, 2, 255]), "0102ff");
    assert_eq!(seed_to_string(&[]), "");
    let k = unique_key();
    assert_eq!(seed_to_string(&k.to_bytes()), text(k));
    let printable = [b'a'; 32];
    assert_eq!(seed_to_string(&printable), "a".repeat(32));
}

#[test]
fn display_strings() {
    let k = unique_key();
    let m = unique_key();
    let o = unique_key();
    assert_eq!(RegisteredAddress::wallet(k, "alice").to_display_string(), "alice [wallet]");
    assert_eq!(RegisteredAddress::program(k, "p").to_display_string(), "p [program]");
    assert_eq!(RegisteredAddress::custom(k, "c", "dao").to_display_string(), "c [dao]");
    assert_eq!(
        RegisteredAddress::ata(k, "a", m, o).to_display_string(),
        format!("a [ata mint:{} owner:{}]", text(m), text(o))
    );
    let seeds = vec!["x".to_string(), "y".to_string()];
    assert_eq!(
        RegisteredAddress::pda_from_parts(k, "v", seeds.clone(), m, 255).to_display_string(),
        "v [pda seeds:x,y bump:255]"
    );
    assert_eq!(
        RegisteredAddress::pda_from_parts(k, "v", seeds.clone(), m, 42).to_display_string(),
        "v [pda seeds:x,y bump:42]"
    );
    assert_eq!(
        RegisteredAddress::pda_from_parts(k, "v", vec![], m, 7).to_display_string(),
        "v [pda seeds: bump:7]"
    );
}

#[test]
fn format_address_shows_role_note() {
    let mut book = AddressBook::new();
    let k = unique_key();
    book.add_pda(k, "vault".to_string(), vec!["seed0".to_string()], unique_key(), 1).unwrap();
    let f = book.format_address(&k);
    assert!(f.contains("vault"));
    assert!(f.contains("[pda:seed0]"));
}

#[test]
fn replace_text_scans_left_without_overlap() {
    let t = replace_text(&"aaa".to_string(), &"aa".to_string(), &"b".to_string());
    assert_eq!(t, "ba");
    let t = replace_text(&"x-ab-ab".to_string(), &"ab".to_string(), &"Z".to_string());
    assert_eq!(t, "x-Z-Z");
    let t = replace_text(&"abc".to_string(), &"".to_string(), &"Z".to_string());
    assert_eq!(t, "abc");
}

#[test]
fn longest_pattern_is_rewritten_first() {
    let pairs = vec![
        ("abc".to_string(), "SHORT".to_string()),
        ("abcdef".to_string(), "LONG".to_string()),
    ];
    let t = rewrite_longest_first(&"abcdef then abc".to_string(), pairs);
    assert_eq!(t, "LONG then SHORT");
}

#[test]
fn addresses_in_text_become_labels() {
    let mut book = AddressBook::new();
    let a = unique_key();
    let b = unique_key();
    book.add_wallet(a, "alice".to_string()).unwrap();
    book.add_mint(b, "usdc".to_string()).unwrap();
    let log = format!("transfer from {} of {} to {}", text(a), text(b), text(unique_key()));
    let out = book.replace_addresses_in_text(&log);
    assert!(out.contains("alice"));
    assert!(out.contains("usdc"));
    assert!(!out.contains(&text(a)));
    assert!(!out.contains(&text(b)));
    assert!(out.starts_with("transfer from "));
}

fn strip_styles(s: &str) -> String {
    let mut out = String::new();
    let mut in_code = false;
    for c in s.chars() {
        if in_code {
            if c == 'm' {
                in_code = false;
            }
        } else if c == '\u{1b}' {
            in_code = true;
        } else {
            out.push(c);
        }
    }
    out
}

#[test]
fn format_address_is_label_space_note() {
    let mut book = AddressBook::new();
    let k = unique_key();
    let c = unique_key();
    book.add_wallet(k, "alice".to_string()).unwrap();
    book.add_custom(c, "gov".to_string(), "dao".to_string()).unwrap();
    assert_eq!(strip_styles(&book.format_address(&k)), "alice [wallet]");
    assert_eq!(strip_styles(&book.format_address(&c)), "gov [dao]");
    let unknown = unique_key();
    assert_eq!(strip_styles(&book.format_address(&unknown)), text(unknown));
}

#[test]
fn address_text_alone_becomes_its_label() {
    let mut book = AddressBook::new();
    let token = unique_key();
    book.add_mint(token, "my_token".to_string()).unwrap();
    let out = book.replace_addresses_in_text(&text(token));
    assert_eq!(strip_styles(&out), "my_token");
    let out = book.replace_addresses_in_text(&format!("Transfer to {}", text(token)));
    assert_eq!(strip_styles(&out), "Transfer to my_token");
}

#[test]
fn program_addresses_have_their_declared_bytes() {
    let mut book = AddressBook::new();
    book.add_default_accounts().unwrap();
    let token = Key::new([
        6, 221, 246, 225, 215, 101, 161, 147, 217, 203, 225, 70, 206, 235, 121, 172, 28, 180, 133,
        237, 95, 91, 55, 145, 58, 140, 245, 133, 126, 255, 0, 169,
    ]);
    let ata_program = Key::new([
        140, 151, 37, 143, 78, 36, 137, 241, 187, 61, 16, 41, 20, 142, 13, 131, 11, 90, 19, 153,
        218, 255, 16, 132, 4, 142, 123, 216, 219, 233, 248, 89,
    ]);
    assert_eq!(book.get_label(&Key::new([0u8; 32])), "system_program");
    assert_eq!(book.get_label(&token), "token_program");
    assert_eq!(book.get_label(&ata_program), "associated_token_program");
}

#[test]
fn base58_text_of_small_values() {
    let book = AddressBook::default();
    assert!(book.is_empty());
    let mut one = [0u8; 32];
    one[31] = 1;
    assert_eq!(book.get_label(&Key::new(one)), format!("{}2", "1".repeat(31)));
    let mut fifty_eight = [0u8; 32];
    fifty_eight[31] = 58;
    assert_eq!(book.get_label(&Key::new(fifty_eight)), format!("{}21", "1".repeat(31)));
}

#[test]
fn derived_address_copies_compare_equal() {
    let seeds = vec!["vault".seed_bytes(), vec![1, 2, 3]];
    let d = address_book::find_pda_with_bump_and_strings(&seeds, &unique_key()).unwrap();
    let e = d.clone();
    assert_eq!(d, e);
    let mut f = d.clone();
    f.seeds[1] = vec![1, 2, 4];
    assert_ne!(d, f);
    let mut g = d.clone();
    g.seed_strings[0] = "other".to_string();
    assert_ne!(d, g);
}

#[test]
fn address_text_between_other_text_becomes_its_label() {
    let mut book = AddressBook::new();
    let a = unique_key();
    book.add_ata(a, "acct".to_string(), unique_key(), unique_key()).unwrap();
    let out = book.replace_addresses_in_text(&format!("x {} y", text(a)));
    assert_eq!(strip_styles(&out), "x acct y");
}
