use address_book::{
    find_pda_with_bump, find_pda_with_bump_and_strings, Key, SeedPart,
};
use anchor_lang::prelude::Pubkey;

fn unique_key() -> Key {
    Key::new(Pubkey::new_unique().to_bytes())
}

fn to_pubkey(k: Key) -> Pubkey {
    Pubkey::new_from_array(k.to_bytes())
}

fn on_curve(k: Key) -> bool {
    k.is_on_curve()
}

fn text(k: Key) -> String {
    to_pubkey(k).to_string()
}

#[test]
fn test_string_seed() {
    let program_id = unique_key();
    let seed = "test_seed";
    let seeds = vec![seed.seed_bytes()];

    let (pda, bump) = find_pda_with_bump(&seeds, &program_id).unwrap();

    let (pda2, bump2) = find_pda_with_bump(&seeds, &program_id).unwrap();
    assert_eq!(pda, pda2);
    assert_eq!(bump, bump2);

    assert!(!on_curve(pda));
}

#[test]
fn test_multiple_string_seeds() {
    let program_id = unique_key();
    let seed1 = "user";
    let seed2 = "profile";
    let seeds = vec![seed1.seed_bytes(), seed2.seed_bytes()];

    let (pda, _bump) = find_pda_with_bump(&seeds, &program_id).unwrap();

    let seeds_reversed = vec![seed2.seed_bytes(), seed1.seed_bytes()];
    let (pda_reversed, _) = find_pda_with_bump(&seeds_reversed, &program_id).unwrap();
    assert_ne!(pda, pda_reversed);
}

#[test]
fn test_pubkey_seed() {
    let program_id = unique_key();
    let user_pubkey = unique_key();
    let seeds = vec![user_pubkey.seed_bytes()];

    let (pda, bump) = find_pda_with_bump(&seeds, &program_id).unwrap();

    let (pda2, bump2) = find_pda_with_bump(&seeds, &program_id).unwrap();
    assert_eq!(pda, pda2);
    assert_eq!(bump, bump2);
}

#[test]
fn test_mixed_seeds() {
    let program_id = unique_key();
    let prefix = "vault";
    let owner = unique_key();
    let id: u64 = 12345;
    let id_bytes = id.to_le_bytes();

    let seeds = vec![prefix.seed_bytes(), owner.seed_bytes(), id_bytes.to_vec()];

    let (pda, _bump) = find_pda_with_bump(&seeds, &program_id).unwrap();
    assert!(!on_curve(pda));
}

#[test]
fn test_byte_array_seed() {
    let program_id = unique_key();
    let bytes: [u8; 8] = [1, 2, 3, 4, 5, 6, 7, 8];
    let seeds = vec![bytes.to_vec()];

    let (pda, _bump) = find_pda_with_bump(&seeds, &program_id).unwrap();
    assert!(!on_curve(pda));
}

#[test]
fn test_slice_seed() {
    let program_id = unique_key();
    let vec_bytes: Vec<u8> = vec![9, 8, 7, 6, 5, 4, 3, 2, 1];
    let seeds = vec![vec_bytes.seed_bytes()];

    let (pda, _bump) = find_pda_with_bump(&seeds, &program_id).unwrap();
    assert!(!on_curve(pda));
}

#[test]
fn test_find_pda_with_strings() {
    let program_id = unique_key();
    let seed1 = "metadata";
    let seed2 = unique_key();
    let seed3: u32 = 42;
    let seed3_bytes = seed3.to_le_bytes();

    let seeds = vec![seed1.seed_bytes(), seed2.seed_bytes(), seed3_bytes.to_vec()];

    let derived_pda = find_pda_with_bump_and_strings(&seeds, &program_id).unwrap();

    assert_eq!(derived_pda.seed_strings.len(), 3);
    assert_eq!(derived_pda.seed_strings[0], "metadata");
    assert_eq!(derived_pda.seed_strings[1], text(seed2));

    let (pda2, bump2) = find_pda_with_bump(&seeds, &program_id).unwrap();
    assert_eq!(derived_pda.key, pda2);
    assert_eq!(derived_pda.bump, bump2);

    assert_eq!(derived_pda.seeds.len(), 3);
    assert_eq!(derived_pda.seeds[0], seed1.as_bytes());
    assert_eq!(derived_pda.seeds[1], seed2.to_bytes().as_ref());
    assert_eq!(derived_pda.seeds[2], seed3_bytes.as_ref());

    let seed_refs: Vec<&[u8]> = derived_pda.seeds.iter().map(|s| s.as_slice()).collect();
    let (expected_key, expected_bump) =
        Pubkey::find_program_address(&seed_refs, &to_pubkey(program_id));
    assert_eq!(to_pubkey(derived_pda.key), expected_key);
    assert_eq!(derived_pda.bump, expected_bump);

    assert!(derived_pda.verify(&program_id));
}

#[test]
fn test_empty_seeds() {
    let program_id = unique_key();
    let seeds: Vec<Vec<u8>> = vec![];

    let (pda, _bump) = find_pda_with_bump(&seeds, &program_id).unwrap();

    assert!(!on_curve(pda));
}

#[test]
fn test_max_seed_length() {
    let program_id = unique_key();
    let max_seed = vec![0u8; 32];
    let seeds = vec![max_seed];

    let (pda, _bump) = find_pda_with_bump(&seeds, &program_id).unwrap();
    assert!(!on_curve(pda));
}

#[test]
fn test_different_programs_same_seeds() {
    let program_id1 = unique_key();
    let program_id2 = unique_key();
    let seed = "same_seed";
    let seeds = vec![seed.seed_bytes()];

    let (pda1, _) = find_pda_with_bump(&seeds, &program_id1).unwrap();
    let (pda2, _) = find_pda_with_bump(&seeds, &program_id2).unwrap();

    assert_ne!(pda1, pda2);
}

#[test]
fn test_bump_determinism() {
    let program_id = unique_key();
    let seed = "deterministic";
    let seeds = vec![seed.seed_bytes()];

    let results: Vec<(Key, u8)> = (0..10)
        .map(|_| find_pda_with_bump(&seeds, &program_id).unwrap())
        .collect();

    for result in &results[1..] {
        assert_eq!(result.0, results[0].0);
        assert_eq!(result.1, results[0].1);
    }
}

#[test]
fn test_known_pda() {
    let program_id = Key::new([0u8; 32]);
    let seed = "test";
    let seeds = vec![seed.seed_bytes()];

    let (pda, bump) = find_pda_with_bump(&seeds, &program_id).unwrap();

    let (expected_pda, expected_bump) =
        Pubkey::find_program_address(&[seed.as_bytes()], &to_pubkey(program_id));

    assert_eq!(to_pubkey(pda), expected_pda);
    assert_eq!(bump, expected_bump);
}

#[test]
fn test_derived_pda_verify() {
    let program_id = unique_key();
    let seed1 = "vault";
    let seed2 = unique_key();
    let seeds = vec![seed1.seed_bytes(), seed2.seed_bytes()];

    let derived_pda = find_pda_with_bump_and_strings(&seeds, &program_id).unwrap();

    assert!(derived_pda.verify(&program_id));

    let different_program = unique_key();
    assert!(!derived_pda.verify(&different_program));

    let seed_refs: Vec<&[u8]> = derived_pda.seeds.iter().map(|s| s.as_slice()).collect();
    let (manual_key, manual_bump) =
        Pubkey::find_program_address(&seed_refs, &to_pubkey(program_id));
    assert_eq!(to_pubkey(derived_pda.key), manual_key);
    assert_eq!(derived_pda.bump, manual_bump);
}

#[test]
fn test_derived_pda_fields() {
    let program_id = unique_key();
    let string_seed = "config";
    let pubkey_seed = unique_key();
    let byte_seed: u64 = 999;
    let byte_seed_bytes = byte_seed.to_le_bytes();

    let seeds = vec![string_seed.seed_bytes(), pubkey_seed.seed_bytes(), byte_seed_bytes.to_vec()];
    let derived_pda = find_pda_with_bump_and_strings(&seeds, &program_id).unwrap();

    assert!(!on_curve(derived_pda.key));
    assert_eq!(derived_pda.seed_strings.len(), 3);
    assert_eq!(derived_pda.seeds.len(), 3);

    assert_eq!(derived_pda.seed_strings[0], "config");
    assert_eq!(derived_pda.seed_strings[1], text(pubkey_seed));
    assert_eq!(derived_pda.seed_strings[2], hex::encode(byte_seed_bytes));

    assert_eq!(derived_pda.seeds[0], string_seed.as_bytes());
    assert_eq!(derived_pda.seeds[1], pubkey_seed.to_bytes().as_ref());
    assert_eq!(derived_pda.seeds[2], byte_seed_bytes.as_ref());

    assert!(derived_pda.verify(&program_id));
}

#[test]
fn test_explicit_miner_pda_example() {
    let program_id = unique_key();
    let replica_quarry = unique_key();
    let merge_miner = unique_key();

    let (expected_miner_pda, expected_bump) = Pubkey::find_program_address(
        &[b"Miner", to_pubkey(replica_quarry).as_ref(), to_pubkey(merge_miner).as_ref()],
        &to_pubkey(program_id),
    );

    let seeds = vec!["Miner".seed_bytes(), replica_quarry.seed_bytes(), merge_miner.seed_bytes()];
    let derived_pda = find_pda_with_bump_and_strings(&seeds, &program_id).unwrap();

    assert_eq!(to_pubkey(derived_pda.key), expected_miner_pda);
    assert_eq!(derived_pda.bump, expected_bump);

    assert_eq!(derived_pda.seed_strings[0], "Miner");
    assert_eq!(derived_pda.seed_strings[1], text(replica_quarry));
    assert_eq!(derived_pda.seed_strings[2], text(merge_miner));

    assert_eq!(derived_pda.seeds[0], b"Miner");
    assert_eq!(derived_pda.seeds[1], replica_quarry.to_bytes().as_ref());
    assert_eq!(derived_pda.seeds[2], merge_miner.to_bytes().as_ref());
}

#[test]
fn test_explicit_vault_pda_example() {
    let program_id = unique_key();
    let authority = unique_key();
    let token_mint = unique_key();
    let vault_id: u64 = 1;

    let (expected_vault_pda, expected_bump) = Pubkey::find_program_address(
        &[
            b"vault",
            to_pubkey(authority).as_ref(),
            to_pubkey(token_mint).as_ref(),
            &vault_id.to_le_bytes(),
        ],
        &to_pubkey(program_id),
    );

    let vault_id_bytes = vault_id.to_le_bytes();
    let seeds = vec![
        "vault".seed_bytes(),
        authority.seed_bytes(),
        token_mint.seed_bytes(),
        vault_id_bytes.to_vec(),
    ];
    let derived_pda = find_pda_with_bump_and_strings(&seeds, &program_id).unwrap();

    assert_eq!(to_pubkey(derived_pda.key), expected_vault_pda);
    assert_eq!(derived_pda.bump, expected_bump);
    assert!(derived_pda.verify(&program_id));
}

#[test]
fn test_explicit_metadata_pda_example() {
    let metadata_program_id = unique_key();
    let mint_pubkey = unique_key();

    let (expected_metadata_pda, expected_bump) = Pubkey::find_program_address(
        &[
            b"metadata",
            to_pubkey(metadata_program_id).as_ref(),
            to_pubkey(mint_pubkey).as_ref(),
        ],
        &to_pubkey(metadata_program_id),
    );

    let seeds = vec![
        "metadata".seed_bytes(),
        metadata_program_id.seed_bytes(),
        mint_pubkey.seed_bytes(),
    ];
    let derived_pda = find_pda_with_bump_and_strings(&seeds, &metadata_program_id).unwrap();

    assert_eq!(to_pubkey(derived_pda.key), expected_metadata_pda);
    assert_eq!(derived_pda.bump, expected_bump);

    assert_eq!(derived_pda.seeds[0], b"metadata");
    assert_eq!(derived_pda.seeds[1], metadata_program_id.to_bytes().as_ref());
    assert_eq!(derived_pda.seeds[2], mint_pubkey.to_bytes().as_ref());
}

#[test]
fn test_explicit_associated_token_account_example() {
    let token_program_id = unique_key();
    let associated_token_program_id = unique_key();
    let wallet = unique_key();
    let mint = unique_key();

    let (expected_ata, _expected_bump) = Pubkey::find_program_address(
        &[
            to_pubkey(wallet).as_ref(),
            to_pubkey(token_program_id).as_ref(),
            to_pubkey(mint).as_ref(),
        ],
        &to_pubkey(associated_token_program_id),
    );

    let seeds = vec![wallet.seed_bytes(), token_program_id.seed_bytes(), mint.seed_bytes()];
    let derived_pda = find_pda_with_bump_and_strings(&seeds, &associated_token_program_id).unwrap();

    assert_eq!(to_pubkey(derived_pda.key), expected_ata);

    let (reconstructed_ata, reconstructed_bump) = Pubkey::find_program_address(
        &[&derived_pda.seeds[0], &derived_pda.seeds[1], &derived_pda.seeds[2]],
        &to_pubkey(associated_token_program_id),
    );
    assert_eq!(reconstructed_ata, expected_ata);
    assert_eq!(reconstructed_bump, derived_pda.bump);
}

#[test]
fn test_explicit_escrow_pda_example() {
    let program_id = unique_key();
    let initializer = unique_key();
    let escrow_seed = b"escrow";
    let escrow_id: u32 = 12345;
    let timestamp: i64 = 1234567890;

    let (expected_escrow_pda, expected_bump) = Pubkey::find_program_address(
        &[
            escrow_seed,
            to_pubkey(initializer).as_ref(),
            &escrow_id.to_le_bytes(),
            &timestamp.to_le_bytes(),
        ],
        &to_pubkey(program_id),
    );

    let escrow_id_bytes = escrow_id.to_le_bytes();
    let timestamp_bytes = timestamp.to_le_bytes();
    let seeds = vec![
        "escrow".seed_bytes(),
        initializer.seed_bytes(),
        escrow_id_bytes.to_vec(),
        timestamp_bytes.to_vec(),
    ];

    let (pda_basic, bump_basic) = find_pda_with_bump(&seeds, &program_id).unwrap();
    assert_eq!(to_pubkey(pda_basic), expected_escrow_pda);
    assert_eq!(bump_basic, expected_bump);

    let derived_pda = find_pda_with_bump_and_strings(&seeds, &program_id).unwrap();
    assert_eq!(to_pubkey(derived_pda.key), expected_escrow_pda);
    assert_eq!(derived_pda.bump, expected_bump);

    assert_eq!(derived_pda.seeds[0], escrow_seed);
    assert_eq!(derived_pda.seeds[1], initializer.to_bytes().as_ref());
    assert_eq!(derived_pda.seeds[2], escrow_id.to_le_bytes().as_ref());
    assert_eq!(derived_pda.seeds[3], timestamp.to_le_bytes().as_ref());

    let (manual_check, manual_bump) = Pubkey::find_program_address(
        &[
            &derived_pda.seeds[0],
            &derived_pda.seeds[1],
            &derived_pda.seeds[2],
            &derived_pda.seeds[3],
        ],
        &to_pubkey(program_id),
    );
    assert_eq!(manual_check, expected_escrow_pda);
    assert_eq!(manual_bump, expected_bump);
}

#[test]
fn curve_test_accepts_the_base_point() {
    let mut bytes = [0x66u8; 32];
    bytes[0] = 0x58;
    let base = Key::new(bytes);
    assert!(base.is_on_curve());
    assert_eq!(base.is_on_curve(), to_pubkey(base).is_on_curve());
    let (pda, _) = find_pda_with_bump(&vec![b"x".to_vec()], &base).unwrap();
    assert!(!pda.is_on_curve());
}
