use bitcoinmw::base::error::Error;
use bitcoinmw::crypto::ctx::Ctx;
use bitcoinmw::crypto::keys::{PublicKey, SecretKey};
use bitcoinmw::crypto::pedersen::Commitment;
use bitcoinmw::crypto::sha3::Sha3_256;
use bitcoinmw::crypto::signature::Signature;
use bitcoinmw::lmdb::db::Lmdb;
use bitcoinmw::mw::block::{Block, BlockHeader};
use bitcoinmw::mw::kernel::{bytes_less, kernel_key_bytes, Kernel};
use bitcoinmw::mw::keychain::KeyChain;
use bitcoinmw::mw::mmr::MMR;
use bitcoinmw::mw::slate::Slate;
use bitcoinmw::mw::transaction::Transaction;

const NOW: u64 = 1_700_000_000;

#[test]
fn test_slate1() -> Result<(), Error> {
    let mut ctx = Ctx::new()?;
    let offset = SecretKey::gen(&mut ctx)?;
    let mut slate = Slate::new(10, offset);

    let user1_input_key = SecretKey::gen(&mut ctx)?;
    let user1_change_key = SecretKey::gen(&mut ctx)?;
    assert_eq!(slate.commit(&mut ctx, &[(&user1_input_key, 100)], &[(&user1_change_key, 10)])?, 0);

    let user2_output_key = SecretKey::gen(&mut ctx)?;

    assert_eq!(slate.commit(&mut ctx, &[], &[(&user2_output_key, 80)])?, 1);

    slate.sign(&mut ctx, 1, &[], &[&user2_output_key])?;
    slate.sign(&mut ctx, 0, &[&user1_input_key], &[&user1_change_key])?;
    let tx = slate.finalize(&mut ctx)?;
    tx.validate(&mut ctx, 0)?;

    Ok(())
}

#[test]
fn slate_finalize_waits_for_every_signature() -> Result<(), Error> {
    let mut ctx = Ctx::new()?;
    let offset = SecretKey::gen(&mut ctx)?;
    let mut slate = Slate::new(10, offset);
    assert_eq!(slate.finalize(&mut ctx).err(), Some(Error::IllegalState));

    let input_key = SecretKey::gen(&mut ctx)?;
    let change_key = SecretKey::gen(&mut ctx)?;
    let output_key = SecretKey::gen(&mut ctx)?;
    assert_eq!(slate.commit(&mut ctx, &[(&input_key, 100)], &[(&change_key, 10)])?, 0);
    assert_eq!(slate.commit(&mut ctx, &[], &[(&output_key, 80)])?, 1);
    assert_eq!(slate.finalize(&mut ctx).err(), Some(Error::IllegalState));

    assert_eq!(slate.sign(&mut ctx, 2, &[], &[&output_key]), Err(Error::IllegalArgument));
    slate.sign(&mut ctx, 1, &[], &[&output_key])?;
    assert_eq!(slate.finalize(&mut ctx).err(), Some(Error::IllegalState));
    // the secret nonce is cleared after signing, so a second signature is refused
    assert_eq!(slate.sign(&mut ctx, 1, &[], &[&output_key]), Err(Error::OperationFailed));

    slate.sign(&mut ctx, 0, &[&input_key], &[&change_key])?;
    let tx = slate.finalize(&mut ctx)?;
    assert_eq!(tx.inputs().len(), 1);
    assert_eq!(tx.outputs().len(), 2);
    assert_eq!(tx.kernels().len(), 1);
    assert!(tx.validate(&mut ctx, 0).is_ok());
    Ok(())
}

#[test]
fn test_slate_with_keychain() -> Result<(), Error> {
    let mut ctx = Ctx::new()?;
    let offset = SecretKey::gen(&mut ctx)?;
    let mut slate = Slate::new(10, offset);

    let kc1 = KeyChain::from_seed([0u8; 48])?;
    let input = kc1.derive_key(&ctx, &[0, 0])?;
    let change_output = kc1.derive_key(&ctx, &[0, 1])?;

    let user1_id = slate.commit(&mut ctx, &[(&input, 100)], &[(&change_output, 10)])?;

    let kc2 = KeyChain::from_seed([1u8; 48])?;
    let output = kc2.derive_key(&ctx, &[0, 0])?;

    let user2_id = slate.commit(&mut ctx, &[], &[(&output, 80)])?;

    slate.sign(&mut ctx, user2_id, &[], &[&output])?;
    slate.sign(&mut ctx, user1_id, &[&input], &[&change_output])?;
    let tx = slate.finalize(&mut ctx)?;
    assert!(tx.validate(&mut ctx, 0).is_ok());

    Ok(())
}

fn two_party_tx(ctx: &mut Ctx, fee: u64, seeds: [u8; 2], input: u64, change: u64, received: u64) -> Result<Transaction, Error> {
    let offset = SecretKey::gen(ctx)?;
    let mut slate = Slate::new(fee, offset);
    let kc1 = KeyChain::from_seed([seeds[0]; 48])?;
    let in_key = kc1.derive_key(ctx, &[0, 0])?;
    let change_key = kc1.derive_key(ctx, &[0, 1])?;
    let user1_id = slate.commit(ctx, &[(&in_key, input)], &[(&change_key, change)])?;
    let kc2 = KeyChain::from_seed([seeds[1]; 48])?;
    let out_key = kc2.derive_key(ctx, &[0, 0])?;
    let user2_id = slate.commit(ctx, &[], &[(&out_key, received)])?;
    slate.sign(ctx, user2_id, &[], &[&out_key])?;
    slate.sign(ctx, user1_id, &[&in_key], &[&change_key])?;
    slate.finalize(ctx)
}

#[test]
fn test_merge() -> Result<(), Error> {
    let mut ctx = Ctx::new()?;

    let tx = two_party_tx(&mut ctx, 10, [0, 1], 100, 10, 80)?;
    assert!(tx.validate(&mut ctx, 0).is_ok());

    let mut tx2 = two_party_tx(&mut ctx, 20, [2, 3], 200, 30, 150)?;
    assert!(tx2.validate(&mut ctx, 0).is_ok());

    assert_eq!(tx.outputs().len(), 2);
    assert_eq!(tx2.outputs().len(), 2);
    assert_eq!(tx.inputs().len(), 1);
    assert_eq!(tx2.inputs().len(), 1);
    assert_eq!(tx.kernels().len(), 1);
    assert_eq!(tx2.kernels().len(), 1);

    tx2.merge(&ctx, tx)?;
    assert!(tx2.validate(&mut ctx, 0).is_ok());
    assert_eq!(tx2.outputs().len(), 4);
    assert_eq!(tx2.inputs().len(), 2);
    assert_eq!(tx2.kernels().len(), 2);

    let mut noffset = *tx2.offset().unwrap();
    noffset.negate(&ctx)?;
    let mut coinbase = Transaction::new(noffset);
    let kccb = KeyChain::from_seed([4u8; 48])?;
    let output_blind = kccb.derive_key(&ctx, &[0, 11])?;

    let cb_output = ctx.commit(1030, &output_blind)?;
    let cb_range_proof = ctx.range_proof(1030, &output_blind)?;
    let excess_blind = ctx.blind_sum(&[], &[&output_blind, &noffset])?;
    let excess = ctx.commit(0, &excess_blind)?;
    let msg = Kernel::message_for(&excess, 0, 0);
    let nonce = SecretKey::gen(&mut ctx)?;
    let pubnonce = PublicKey::from(&ctx, &nonce)?;
    let pubkey = PublicKey::from(&ctx, &excess_blind)?;
    let sig = ctx.sign(&msg, &excess_blind, &nonce, &pubnonce, &pubkey)?;
    let kernel = Kernel::new(excess, sig, 0, 0);
    coinbase.add_kernel(kernel)?;
    coinbase.add_output(cb_output, cb_range_proof)?;
    assert!(coinbase.validate(&mut ctx, 1030).is_ok());

    tx2.merge(&ctx, coinbase.try_clone()?)?;
    assert_eq!(tx2.outputs().len(), 5);
    assert_eq!(tx2.inputs().len(), 2);
    assert_eq!(tx2.kernels().len(), 3);

    tx2.set_offset_zero();
    assert!(tx2.validate(&mut ctx, 1000).is_ok());

    Ok(())
}

#[test]
fn merge_refuses_a_duplicate_kernel() -> Result<(), Error> {
    let mut ctx = Ctx::new()?;
    let tx = two_party_tx(&mut ctx, 10, [0, 1], 100, 10, 80)?;
    let mut a = tx.try_clone()?;
    let before_inputs = a.inputs().len();
    assert_eq!(a.merge(&ctx, tx), Err(Error::Duplicate));
    assert_eq!(a.inputs().len(), before_inputs);
    Ok(())
}

#[test]
fn slate_sign_unknown_participant() -> Result<(), Error> {
    let mut ctx = Ctx::new()?;
    let offset = SecretKey::gen(&mut ctx)?;
    let mut slate = Slate::new(1, offset);
    let k = SecretKey::gen(&mut ctx)?;
    assert_eq!(slate.sign(&mut ctx, 0, &[&k], &[]), Err(Error::IllegalArgument));
    Ok(())
}

#[test]
fn test_transaction1() -> Result<(), Error> {
    let mut ctx = Ctx::seed([0u8; 32], [0u8; 16])?;

    let offset = SecretKey::gen(&mut ctx)?;
    let blind1 = SecretKey::gen(&mut ctx)?;
    let input = ctx.commit(500, &blind1)?;
    let blind2 = SecretKey::gen(&mut ctx)?;
    let blind3 = SecretKey::gen(&mut ctx)?;
    let blind4 = SecretKey::gen(&mut ctx)?;
    let output1 = ctx.commit(100, &blind2)?;
    let output2 = ctx.commit(100, &blind3)?;
    let output3 = ctx.commit(250, &blind4)?;
    let rp1 = ctx.range_proof(100, &blind2)?;
    let rp2 = ctx.range_proof(100, &blind3)?;
    let rp3 = ctx.range_proof(250, &blind4)?;
    let fee = 50;
    let features = 0;

    let excess_blind = ctx.blind_sum(&[&blind1], &[&blind2, &blind3, &blind4, &offset])?;
    let excess = ctx.commit(0, &excess_blind)?;
    let msg = Kernel::message_for(&excess, fee, features);

    let nonce = SecretKey::gen(&mut ctx)?;
    let pubnonce = PublicKey::from(&ctx, &nonce)?;
    let pubkey = PublicKey::from(&ctx, &excess_blind)?;

    let sig = ctx.sign(&msg, &excess_blind, &nonce, &pubnonce, &pubkey)?;
    let kernel = Kernel::new(excess, sig, fee, 0);

    let mut tx = Transaction::new(offset);
    tx.add_input(input)?;
    tx.add_output(output1, rp1)?;
    tx.add_output(output2, rp2)?;
    tx.add_output(output3, rp3)?;
    tx.add_kernel(kernel)?;
    assert!(tx.validate(&mut ctx, 0).is_ok());

    Ok(())
}

#[test]
fn test_interactive() -> Result<(), Error> {
    let mut ctx_user1 = Ctx::new()?;
    let mut ctx_user2 = Ctx::new()?;

    let offset = SecretKey::gen(&mut ctx_user1)?;
    let blind_input = SecretKey::gen(&mut ctx_user1)?;
    let blind_change = SecretKey::gen(&mut ctx_user1)?;
    let input = ctx_user1.commit(5_000, &blind_input)?;
    let change_output = ctx_user1.commit(1_000, &blind_change)?;
    let change_range_proof = ctx_user1.range_proof(1_000, &blind_change)?;
    let nonce_user1 = SecretKey::gen(&mut ctx_user1)?;
    let pub_nonce_user1 = PublicKey::from(&ctx_user1, &nonce_user1)?;
    let excess_blind_user1 = ctx_user1.blind_sum(&[&blind_input], &[&blind_change, &offset])?;
    let pub_blind_user1 = PublicKey::from(&ctx_user1, &excess_blind_user1)?;
    let excess_user1 = ctx_user1.commit(0, &excess_blind_user1)?;
    let fee = 50;

    let blind_output = SecretKey::gen(&mut ctx_user2)?;
    let output = ctx_user2.commit(3_950, &blind_output)?;
    let range_proof = ctx_user2.range_proof(3_950, &blind_output)?;
    let nonce_user2 = SecretKey::gen(&mut ctx_user2)?;
    let pub_nonce_user2 = PublicKey::from(&ctx_user2, &nonce_user2)?;
    let excess_blind_user2 = ctx_user2.blind_sum(&[], &[&blind_output])?;
    let pub_blind_user2 = PublicKey::from(&ctx_user2, &excess_blind_user2)?;
    let excess_user2 = ctx_user2.commit(0, &excess_blind_user2)?;

    let pubnonce_sum = pub_nonce_user1.combine(&ctx_user2, &pub_nonce_user2)?;
    let pubblind_sum = pub_blind_user1.combine(&ctx_user2, &pub_blind_user2)?;
    let excess_sum = excess_user2.combine(&ctx_user2, &excess_user1)?;
    let msg = Kernel::message_for(&excess_sum, fee, 0);

    let sig2 = ctx_user2.sign(&msg, &excess_blind_user2, &nonce_user2, &pubnonce_sum, &pubblind_sum)?;
    let sig1 = ctx_user1.sign(&msg, &excess_blind_user1, &nonce_user1, &pubnonce_sum, &pubblind_sum)?;

    let partial_sigs = vec![&sig1, &sig2];
    let aggsig = ctx_user1.aggregate_signatures(&partial_sigs[0..2], &pubnonce_sum)?;

    let kernel = Kernel::new(excess_sum, aggsig, fee, 0);
    let mut tx = Transaction::new(offset);
    tx.add_kernel(kernel)?;
    tx.add_output(change_output, change_range_proof)?;
    tx.add_output(output, range_proof)?;
    tx.add_input(input)?;

    assert!(tx.validate(&mut ctx_user2, 0).is_ok());
    Ok(())
}

fn coinbase_only(ctx: &mut Ctx, value: u64, features: u8) -> Result<(Transaction, Kernel), Error> {
    let mut tx = Transaction::empty();
    let blind_output = SecretKey::gen(ctx)?;
    let output = ctx.commit(value, &blind_output)?;
    let range_proof = ctx.range_proof(value, &blind_output)?;
    let nonce = SecretKey::gen(ctx)?;
    let pubnonce = PublicKey::from(&*ctx, &nonce)?;
    let excess_blind = ctx.blind_sum(&[], &[&blind_output])?;
    let pub_blind = PublicKey::from(&*ctx, &excess_blind)?;
    let excess = ctx.commit(0, &excess_blind)?;
    let msg = Kernel::message_for(&excess, 0, features);
    let sig = ctx.sign(&msg, &excess_blind, &nonce, &pubnonce, &pub_blind)?;
    let kernel = Kernel::new(excess, sig, 0, features);
    tx.add_kernel(kernel)?;
    tx.add_output(output, range_proof)?;
    Ok((tx, kernel))
}

#[test]
fn test_empty() -> Result<(), Error> {
    let mut ctx = Ctx::new()?;
    let (tx, _) = coinbase_only(&mut ctx, 2000, 1)?;
    assert!(tx.validate(&mut ctx, 2000).is_ok());
    assert!(tx.validate(&mut ctx, 2001).is_err());
    Ok(())
}

#[test]
fn test_kernel_merkle_roots() -> Result<(), Error> {
    let mut ctx = Ctx::new()?;
    let (tx, kernel) = coinbase_only(&mut ctx, 2000, 0)?;

    assert!(tx.validate(&mut ctx, 2000).is_ok());

    let hash = kernel.message();
    assert_eq!(hash, tx.kernel_merkle_root()?);

    let sig_zero = Signature::new();
    let mut tx = Transaction::empty();
    let blind1 = SecretKey::gen(&mut ctx)?;
    let commit1 = ctx.commit(0, &blind1)?;
    let kernel1 = Kernel::new(commit1, sig_zero, 0, 0);
    tx.add_kernel(kernel1)?;
    let blind2 = SecretKey::gen(&mut ctx)?;
    let commit2 = ctx.commit(0, &blind2)?;
    let kernel2 = Kernel::new(commit2, sig_zero, 0, 0);
    tx.add_kernel(kernel2)?;

    let mut sha3 = Sha3_256::new();
    if bytes_less(&kernel_key_bytes(&kernel1), &kernel_key_bytes(&kernel2)) {
        sha3.update(kernel1.message().as_bytes());
        sha3.update(kernel2.message().as_bytes());
    } else {
        sha3.update(kernel2.message().as_bytes());
        sha3.update(kernel1.message().as_bytes());
    }

    assert_eq!(&sha3.finalize(), tx.kernel_merkle_root()?.as_bytes());

    Ok(())
}

#[test]
fn kernel_merkle_root_of_no_kernels_is_zero() -> Result<(), Error> {
    let tx = Transaction::empty();
    assert_eq!(tx.kernel_merkle_root()?.as_bytes(), &[0u8; 32]);
    Ok(())
}

#[test]
fn validate_needs_kernel_and_output() -> Result<(), Error> {
    let mut ctx = Ctx::new()?;
    let tx = Transaction::empty();
    assert_eq!(tx.validate(&mut ctx, 0), Err(Error::NotFound));
    Ok(())
}

#[test]
fn fees_add_up() -> Result<(), Error> {
    let mut ctx = Ctx::new()?;
    let mut tx = Transaction::empty();
    for fee in [3u64, 4, 5] {
        let b = SecretKey::gen(&mut ctx)?;
        let c = ctx.commit(0, &b)?;
        tx.add_kernel(Kernel::new(c, Signature::new(), fee, 0))?;
    }
    assert_eq!(tx.fees(), 12);
    Ok(())
}

#[test]
fn add_kernel_refuses_duplicate() -> Result<(), Error> {
    let mut ctx = Ctx::new()?;
    let b = SecretKey::gen(&mut ctx)?;
    let c = ctx.commit(0, &b)?;
    let k = Kernel::new(c, Signature::new(), 1, 0);
    let mut tx = Transaction::empty();
    tx.add_kernel(k)?;
    assert_eq!(tx.add_kernel(k), Err(Error::Duplicate));
    assert_eq!(tx.kernels().len(), 1);
    Ok(())
}

#[test]
fn test_kernel1() -> Result<(), Error> {
    let mut ctx = Ctx::new()?;
    let fee = 10;
    let features = 0;
    let blind = SecretKey::gen(&mut ctx)?;
    let excess = ctx.commit(0, &blind)?;
    let message = Kernel::message_for(&excess, fee, features);
    let secnonce = SecretKey::gen(&mut ctx)?;
    let pubnonce = PublicKey::from(&ctx, &secnonce)?;
    let pubkey = excess.to_pubkey(&ctx)?;
    let s = ctx.sign(&message, &blind, &secnonce, &pubnonce, &pubkey)?;
    let kernel = Kernel::new(excess, s, fee, features);
    assert_eq!(kernel.fee(), 10);

    assert!(kernel.validate(&ctx).is_ok());
    Ok(())
}

#[test]
fn kernel_validate_refuses_changed_fee() -> Result<(), Error> {
    let mut ctx = Ctx::new()?;
    let blind = SecretKey::gen(&mut ctx)?;
    let excess = ctx.commit(0, &blind)?;
    let message = Kernel::message_for(&excess, 10, 0);
    let secnonce = SecretKey::gen(&mut ctx)?;
    let pubnonce = PublicKey::from(&ctx, &secnonce)?;
    let pubkey = excess.to_pubkey(&ctx)?;
    let s = ctx.sign(&message, &blind, &secnonce, &pubnonce, &pubkey)?;
    let kernel = Kernel::new(excess, s, 11, 0);
    assert!(kernel.validate(&ctx).is_err());
    Ok(())
}

#[test]
fn test_keychain() -> Result<(), Error> {
    let ctx = Ctx::new()?;
    let keychain = KeyChain::from_seed([0u8; 48])?;
    let sk1 = keychain.derive_key(&ctx, &[0, 0])?;
    let sk2 = keychain.derive_key(&ctx, &[0, 1])?;
    let sk3 = keychain.derive_key(&ctx, &[0, 0])?;

    assert_eq!(sk1.as_bytes(), sk3.as_bytes());
    assert!(sk1.as_bytes() != sk2.as_bytes());
    assert!(sk2.as_bytes() != sk3.as_bytes());

    let keychain2 = KeyChain::from_seed([1u8; 48])?;
    let sk21 = keychain2.derive_key(&ctx, &[0, 0])?;
    let sk22 = keychain2.derive_key(&ctx, &[0, 1])?;
    let sk23 = keychain2.derive_key(&ctx, &[0, 0])?;

    assert_eq!(sk21.as_bytes(), sk23.as_bytes());
    assert!(sk21.as_bytes() != sk22.as_bytes());
    assert!(sk22.as_bytes() != sk23.as_bytes());

    assert_ne!(sk1.as_bytes(), sk21.as_bytes());
    assert_ne!(sk2.as_bytes(), sk22.as_bytes());
    assert_ne!(sk3.as_bytes(), sk23.as_bytes());

    let keychain3 = KeyChain::from_seed([0u8; 48])?;
    let sk31 = keychain3.derive_key(&ctx, &[0, 0])?;
    let sk32 = keychain3.derive_key(&ctx, &[0, 1])?;
    let sk33 = keychain3.derive_key(&ctx, &[0, 0])?;

    assert_eq!(sk31, sk1);
    assert_eq!(sk32, sk2);
    assert_eq!(sk33, sk3);

    Ok(())
}

#[test]
fn test_blocks1() -> Result<(), Error> {
    assert_eq!(std::mem::size_of::<BlockHeader>(), 114);
    Ok(())
}

#[test]
fn block_header_bytes_layout() -> Result<(), Error> {
    let block = Block::new([7u8; 32], [9u8; 32], [1u8; 4], [2u8; 4], 0x01_0203_0405);
    let bytes = block.header().to_bytes();
    assert_eq!(bytes[0], 0);
    assert_eq!(&bytes[1..6], &[5u8, 4, 3, 2, 1]);
    assert_eq!(&bytes[6..10], &[0u8; 4]);
    assert_eq!(&bytes[10..42], &[7u8; 32]);
    assert_eq!(&bytes[42..74], &[0u8; 32]);
    assert_eq!(&bytes[74..78], &[2u8; 4]);
    assert_eq!(&bytes[78..82], &[1u8; 4]);
    assert_eq!(&bytes[82..114], &[9u8; 32]);
    Ok(())
}

#[test]
fn block_test_block1() -> Result<(), Error> {
    let prev_hash = [0u8; 32];
    let mut block = Block::new(prev_hash, [0u8; 32], [0u8; 4], [0u8; 4], NOW);
    let mut ctx = Ctx::new()?;

    let tx = two_party_tx(&mut ctx, 10, [0, 1], 100, 10, 80)?;
    assert!(tx.validate(&mut ctx, 0).is_ok());

    block.add_tx(&ctx, tx)?;

    assert_eq!(block.tx().outputs().len(), 2);
    assert_eq!(block.tx().inputs().len(), 1);
    assert_eq!(block.tx().kernels().len(), 1);

    let tx2 = two_party_tx(&mut ctx, 20, [2, 3], 200, 10, 170)?;
    assert!(tx2.validate(&mut ctx, 0).is_ok());

    block.add_tx(&ctx, tx2)?;

    assert_eq!(block.tx().outputs().len(), 4);
    assert_eq!(block.tx().inputs().len(), 2);
    assert_eq!(block.tx().kernels().len(), 2);

    assert!(block.tx().validate(&mut ctx, 0).is_ok());

    let miner_keychain = KeyChain::from_seed([4u8; 48])?;
    let overage = 1000;
    let coinbase_blind = miner_keychain.derive_key(&ctx, &[0, 0])?;
    let complete = block.with_coinbase(&mut ctx, &coinbase_blind, overage)?;

    assert!(complete.tx().validate(&mut ctx, overage).is_ok());
    assert!(complete.tx().offset().is_none());

    assert_eq!(complete.tx().outputs().len(), 5);
    assert_eq!(complete.tx().inputs().len(), 2);
    assert_eq!(complete.tx().kernels().len(), 3);
    assert_eq!(complete.fees(), 30);

    Ok(())
}

#[test]
fn block_mine_empty_block() -> Result<(), Error> {
    let prev_hash = [0u8; 32];
    let block = Block::new(prev_hash, [0u8; 32], [0u8; 4], [0u8; 4], NOW);
    let mut ctx = Ctx::new()?;

    assert_eq!(block.tx().outputs().len(), 0);
    assert_eq!(block.tx().inputs().len(), 0);
    assert_eq!(block.tx().kernels().len(), 0);

    let miner_keychain = KeyChain::from_seed([4u8; 48])?;
    let overage = 1000;
    let coinbase_blind = miner_keychain.derive_key(&ctx, &[0, 0])?;
    let complete = block.with_coinbase(&mut ctx, &coinbase_blind, overage)?;

    assert_eq!(complete.tx().outputs().len(), 1);
    assert_eq!(complete.tx().kernels().len(), 1);
    assert_eq!(complete.tx().inputs().len(), 0);
    assert!(complete.tx().validate(&mut ctx, overage).is_ok());

    Ok(())
}

fn toy_hash(bytes: &[u8; 114]) -> [u8; 32] {
    let mut s = Sha3_256::new();
    s.update(bytes);
    s.finalize()
}

#[test]
fn mining_with_a_hasher_finds_and_validates() -> Result<(), Error> {
    let mut block = Block::new([77u8; 32], [3u8; 32], [9u8; 4], [81u8; 4], NOW);
    block.finalize_header(NOW + 1)?;
    let mut target = [0xFFu8; 32];
    target[0] = 0x0F;
    let hash = block.mine_block(&toy_hash, 1024 * 1024, target)?;
    assert!(hash[0] & 0xF0 == 0);
    assert!(block.validate_hash(&toy_hash, target, hash).is_ok());
    let mut other = hash;
    other[31] ^= 1;
    assert_eq!(block.validate_hash(&toy_hash, target, other), Err(Error::ValidationFailed));

    let hard = [0u8; 32];
    assert_eq!(block.mine_block(&toy_hash, 1024, hard), Err(Error::NotFound));
    Ok(())
}

#[test]
fn mining_without_rounds_finds_nothing() -> Result<(), Error> {
    let mut block = Block::new([77u8; 32], [3u8; 32], [9u8; 4], [81u8; 4], NOW);
    let easy = [0xFFu8; 32];
    assert_eq!(block.mine_block(&toy_hash, 0, easy), Err(Error::NotFound));
    // one round with the easiest target succeeds on the header as it stands
    let hash = block.mine_block(&toy_hash, 1, easy)?;
    assert!(block.validate_hash(&toy_hash, easy, hash).is_ok());
    Ok(())
}

#[test]
fn test_mmr1() -> Result<(), Error> {
    let mut ctx = Ctx::new()?;

    let db_size = 1024 * 1024 * 10;
    let db_name = "mydb";
    let db_dir = "bin/.mmr1";
    let db = Lmdb::new(db_dir, db_name, db_size)?;

    let mut mmr = MMR::new(db, "output_mmr", u32::MAX as u64)?;

    assert_eq!(mmr.size()?, 0);
    let keychain = KeyChain::from_seed([3u8; 48])?;
    let blind = keychain.derive_key(&ctx, &[0, 0])?;
    let commitment = ctx.commit(0, &blind)?;
    mmr.append(commitment.as_bytes())?;
    assert_eq!(mmr.size()?, 1);
    assert!(mmr.contains(commitment.as_bytes())?);

    let blind = keychain.derive_key(&ctx, &[0, 1])?;
    let commitment2 = ctx.commit(1, &blind)?;
    mmr.append(commitment2.as_bytes())?;
    assert_eq!(mmr.size()?, 2);

    assert!(mmr.contains(commitment2.as_bytes())?);
    assert!(mmr.contains(commitment.as_bytes())?);

    let blind = keychain.derive_key(&ctx, &[0, 2])?;
    let commitment3 = ctx.commit(1, &blind)?;
    assert!(!mmr.contains(commitment3.as_bytes())?);
    mmr.append(commitment3.as_bytes())?;
    assert_eq!(mmr.size()?, 3);

    assert!(mmr.contains(commitment3.as_bytes())?);
    assert!(mmr.contains(commitment2.as_bytes())?);
    assert!(mmr.contains(commitment.as_bytes())?);

    for i in 0..10 {
        let blind = keychain.derive_key(&ctx, &[0, 3 + i])?;
        let commitment = ctx.commit(100, &blind)?;
        mmr.append(commitment.as_bytes())?;
    }
    assert_eq!(mmr.size()?, 13);
    let _ = &mut ctx;

    Ok(())
}

#[test]
fn test_prune_and_peaks() -> Result<(), Error> {
    let ctx = Ctx::new()?;
    let db = Lmdb::new("bin/.mmr2", "mydb", 1024 * 1024 * 10)?;
    let mut mmr = MMR::new(db, "output_mmr", u32::MAX as u64)?;

    let mut commitments: Vec<Commitment> = Vec::new();
    let keychain = KeyChain::from_seed([3u8; 48])?;

    for i in 0..13 {
        let blind = keychain.derive_key(&ctx, &[0, 3 + i])?;
        let commitment = ctx.commit(100, &blind)?;
        commitments.push(commitment);
    }

    for commitment in &commitments {
        mmr.append(commitment.as_bytes())?;
    }
    let original_root = mmr.root_hash()?;

    mmr.prune(commitments[0].as_bytes())?;

    assert!(!mmr.contains(commitments[0].as_bytes())?, "Pruned output should not be contained");
    assert!(mmr.contains(commitments[1].as_bytes())?, "Unspent output should be contained");

    assert_eq!(mmr.prune(commitments[0].as_bytes()), Err(Error::MissingNode));

    let new_root = mmr.root_hash()?;
    assert_ne!(new_root, original_root, "Root hash should change after pruning");

    Ok(())
}

#[test]
fn mmr_empty_root_is_zero_and_prefix_required() -> Result<(), Error> {
    let db = Lmdb::new("d", "n", 1024)?;
    let mmr = MMR::new(db, "m", 10)?;
    assert_eq!(mmr.root_hash()?, [0u8; 32]);
    let db = Lmdb::new("d", "n", 1024)?;
    assert!(matches!(MMR::new(db, "", 10), Err(Error::IllegalArgument)));
    Ok(())
}

#[test]
fn mmr_single_leaf_root() -> Result<(), Error> {
    let db = Lmdb::new("d", "n", 1024)?;
    let mut mmr = MMR::new(db, "m", 10)?;
    mmr.append(&[1u8, 2, 3])?;
    let leaf = {
        let mut s = Sha3_256::new();
        s.update(&[1u8, 2, 3]);
        s.finalize()
    };
    let mut s = Sha3_256::new();
    s.update(&leaf);
    assert_eq!(mmr.root_hash()?, s.finalize());
    Ok(())
}

#[test]
fn test_chain_new_is_todo() {
    assert!(matches!(bitcoinmw::mw::chain::Chain::new(), Err(Error::Todo)));
}
