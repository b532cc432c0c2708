use bitcoinmw::base::error::Error;
use bitcoinmw::crypto::cpsrng::Cpsrng;
use bitcoinmw::crypto::ctx::Ctx;
use bitcoinmw::crypto::ecdh::SharedSecret;
use bitcoinmw::crypto::keys::{PublicKey, SecretKey};
use bitcoinmw::crypto::signature::Message;
use bitcoinmw::crypto::pedersen::Commitment;
use bitcoinmw::crypto::signature::Signature;

#[test]
fn test_cpsrng_counter_advancement() -> Result<(), Error> {
    let mut rng = Cpsrng::new()?;

    let mut b1 = [0u8; 32];
    rng.gen(&mut b1);

    let mut b1a = [0u8; 32];
    rng.gen(&mut b1a);

    let mut b1b = [0u8; 32];
    rng.gen(&mut b1b);

    let mut b1c = [0u8; 32];
    rng.gen(&mut b1c);

    assert_ne!(b1, [0u8; 32]);
    assert_ne!(b1, b1a);
    assert_ne!(b1a, b1b);
    assert_ne!(b1b, b1c);
    Ok(())
}

#[test]
fn test_cpsrng_reseed() -> Result<(), Error> {
    let mut rng = Cpsrng::new()?;

    let mut b1 = [0u8; 32];
    rng.gen(&mut b1);

    rng.reseed()?;

    let mut b2 = [0u8; 32];
    rng.gen(&mut b2);

    assert_ne!(b1, b2);
    Ok(())
}

#[test]
fn test_cpsrng_instance_non_determinism() -> Result<(), Error> {
    let mut rng1 = Cpsrng::new()?;
    let mut rng2 = Cpsrng::new()?;

    let mut b1 = [0u8; 32];
    rng1.gen(&mut b1);

    let mut b2 = [0u8; 32];
    rng2.gen(&mut b2);

    assert_ne!(b1, b2);
    Ok(())
}

#[test]
fn test_cpsrng_test_seed() -> Result<(), Error> {
    let key = [0u8; 32];
    let iv = [0u8; 16];

    let mut rng_test1 = Cpsrng::test_seed(key, iv)?;
    let mut b3 = [0u8; 32];
    rng_test1.gen(&mut b3);

    let mut rng_test2 = Cpsrng::test_seed(key, iv)?;
    let mut b4 = [0u8; 32];
    rng_test2.gen(&mut b4);

    assert_eq!(b3, b4);

    let mut b5 = [0u8; 32];
    rng_test1.gen(&mut b5);
    assert_ne!(b3, b5);
    Ok(())
}

#[test]
fn test_cpsrng_empty_buffer() -> Result<(), Error> {
    let mut rng = Cpsrng::new()?;
    let mut bytes = [0u8; 0];
    rng.gen(&mut bytes);
    Ok(())
}

#[test]
fn test_cpsrng_large_buffer() -> Result<(), Error> {
    let mut rng = Cpsrng::new()?;
    let mut bytes = vec![0u8; 1024 * 1024];
    rng.gen(&mut bytes);
    assert_ne!(bytes, vec![0u8; 1024 * 1024]);
    Ok(())
}

#[test]
fn test_cpsrng1() -> Result<(), Error> {
    let mut rng = Cpsrng::new()?;

    let mut b1 = [0u8; 32];
    rng.gen(&mut b1);

    let mut b1a = [0u8; 32];
    rng.gen(&mut b1a);

    let mut b1b = [0u8; 32];
    rng.gen(&mut b1b);

    let mut b1c = [0u8; 32];
    rng.gen(&mut b1c);

    rng.reseed()?;

    let mut b2 = [0u8; 32];
    rng.gen(&mut b2);

    let mut rng_test = Cpsrng::test_seed([0u8; 32], [0u8; 16])?;

    let mut b3 = [0u8; 32];
    rng_test.gen(&mut b3);

    let mut rng_test = Cpsrng::test_seed([0u8; 32], [0u8; 16])?;

    let mut b4 = [0u8; 32];
    rng_test.gen(&mut b4);

    assert_ne!(b1, b1a);
    assert_ne!(b1a, b1b);
    assert_ne!(b1b, b1c);
    assert_ne!(b1, [0u8; 32]);

    assert_ne!(b1, b2);
    assert_ne!(b2, b3);
    assert_eq!(b3, b4);

    Ok(())
}

#[test]
fn cpsrng_zero_seed_first_block_is_aes_ctr_of_zero() -> Result<(), Error> {
    // AES-256 in counter mode with an all-zero key and IV: the first keystream block is the
    // encryption of the zero block (FIPS-197 style known answer).
    let mut rng = Cpsrng::test_seed([0u8; 32], [0u8; 16])?;
    let mut b = [0u8; 16];
    rng.gen(&mut b);
    assert_eq!(
        b,
        [
            0xdc, 0x95, 0xc0, 0x78, 0xa2, 0x40, 0x89, 0x89, 0xad, 0x48, 0xa2, 0x14, 0x92, 0x84,
            0x20, 0x87
        ]
    );
    Ok(())
}

#[test]
fn cpsrng_same_seed_same_stream_in_pieces() -> Result<(), Error> {
    let mut a = Cpsrng::test_seed([7u8; 32], [9u8; 16])?;
    let mut b = Cpsrng::test_seed([7u8; 32], [9u8; 16])?;
    let mut whole = [0u8; 48];
    a.gen(&mut whole);
    let mut p1 = [0u8; 20];
    let mut p2 = [0u8; 28];
    b.gen(&mut p1);
    b.gen(&mut p2);
    assert_eq!(&whole[0..20], &p1[..]);
    assert_eq!(&whole[20..48], &p2[..]);
    Ok(())
}

#[test]
fn test_secret_key() -> Result<(), Error> {
    let mut ctx = Ctx::new()?;
    let skey1 = SecretKey::zero();
    let skey2 = SecretKey::gen(&mut ctx)?;
    let skey3 = SecretKey::zero();
    let skey4 = SecretKey::gen(&mut ctx)?;

    assert_ne!(skey1, skey2);
    assert_eq!(skey1, skey3);
    assert_ne!(skey2, skey4);
    Ok(())
}

#[test]
fn secret_key_negate_twice_is_identity() -> Result<(), Error> {
    let mut ctx = Ctx::seed([1u8; 32], [2u8; 16])?;
    let k = SecretKey::gen(&mut ctx)?;
    let mut n = k;
    n.negate(&ctx)?;
    assert_ne!(n, k);
    n.negate(&ctx)?;
    assert_eq!(n, k);
    Ok(())
}

#[test]
fn secret_key_validate() -> Result<(), Error> {
    let mut ctx = Ctx::new()?;
    assert_eq!(SecretKey::zero().validate(&ctx), Err(Error::OperationFailed));
    let k = SecretKey::gen(&mut ctx)?;
    assert!(k.validate(&ctx).is_ok());
    Ok(())
}

#[test]
fn ctx_test_simple_sign() -> Result<(), Error> {
    let mut secp = Ctx::new()?;
    let seckey = SecretKey::gen(&mut secp)?;
    let secnonce = SecretKey::gen(&mut secp)?;
    let pubnonce = PublicKey::from(&secp, &secnonce)?;
    let pubkey = PublicKey::from(&secp, &seckey)?;

    let msg = Message::new([10u8; 32]);
    let sig = secp.sign(&msg, &seckey, &secnonce, &pubnonce, &pubkey)?;

    assert!(secp.verify(&sig, &msg, &pubnonce, &pubkey, &pubkey, true).is_ok());

    let msg = Message::new([11u8; 32]);
    assert!(!secp.verify(&sig, &msg, &pubnonce, &pubkey, &pubkey, true).is_ok());

    Ok(())
}

#[test]
fn ctx_test_aggregation_simple() -> Result<(), Error> {
    let mut secp = Ctx::new()?;
    let msg = Message::new([10u8; 32]);

    let seckey1 = SecretKey::gen(&mut secp)?;
    let secnonce1 = SecretKey::gen(&mut secp)?;
    let pubnonce1 = PublicKey::from(&secp, &secnonce1)?;
    let pubkey1 = PublicKey::from(&secp, &seckey1)?;

    let seckey2 = SecretKey::gen(&mut secp)?;
    let secnonce2 = SecretKey::gen(&mut secp)?;
    let pubnonce2 = PublicKey::from(&secp, &secnonce2)?;
    let pubkey2 = PublicKey::from(&secp, &seckey2)?;

    let nonce_sum = pubnonce1.combine(&secp, &pubnonce2)?;
    let pubkey_sum = pubkey1.combine(&secp, &pubkey2)?;

    let sig1 = secp.sign(&msg, &seckey1, &secnonce1, &nonce_sum, &pubkey_sum)?;
    assert!(secp.verify(&sig1, &msg, &nonce_sum, &pubkey1, &pubkey_sum, true).is_ok());

    let sig2 = secp.sign(&msg, &seckey2, &secnonce2, &nonce_sum, &pubkey_sum)?;
    assert!(secp.verify(&sig2, &msg, &nonce_sum, &pubkey2, &pubkey_sum, true).is_ok());

    let partial_sigs = &[&sig1, &sig2];
    let aggsig = secp.aggregate_signatures(partial_sigs, &nonce_sum)?;

    assert!(secp.verify(&aggsig, &msg, &nonce_sum, &pubkey_sum, &pubkey_sum, false).is_ok());

    let msgbad = Message::new([99u8; 32]);
    assert!(!secp.verify(&aggsig, &msgbad, &nonce_sum, &pubkey_sum, &pubkey_sum, false).is_ok());

    Ok(())
}

#[test]
fn ctx_test_balance_tx() -> Result<(), Error> {
    let mut secp = Ctx::new()?;

    let blind1 = SecretKey::gen(&mut secp)?;
    let input1 = secp.commit(3000, &blind1)?;
    let blind2 = SecretKey::gen(&mut secp)?;
    let change = secp.commit(1000, &blind2)?;
    let blind3 = SecretKey::gen(&mut secp)?;
    let output1 = secp.commit(2000, &blind3)?;

    let excess_blind = secp.blind_sum(&[&blind1], &[&blind2, &blind3])?;
    let excess = secp.commit(0, &excess_blind)?;

    secp.verify_balance(&[&input1], &[&change, &output1, &excess], 0)?;

    let output1 = secp.commit(2001, &blind3)?;

    assert!(secp.verify_balance(&[&input1], &[&change, &output1, &excess], 0).is_err());

    Ok(())
}

#[test]
fn ctx_test_mimblewimble_interactive_with_fee() -> Result<(), Error> {
    let mut secp_send = Ctx::new()?;
    let mut secp_recv = Ctx::new()?;
    let fee = 5u64;

    let blind1 = SecretKey::gen(&mut secp_send)?;
    let _input = secp_send.commit(500, &blind1)?;
    let blind2 = SecretKey::gen(&mut secp_send)?;
    let _change = secp_send.commit(100 - fee, &blind2)?;
    let sender_excess_blind = secp_send.blind_sum(&[&blind1], &[&blind2])?;
    let sender_excess = secp_send.commit(0, &sender_excess_blind)?;

    let sender_nonce = SecretKey::gen(&mut secp_send)?;
    let sender_pub_nonce = PublicKey::from(&secp_send, &sender_nonce)?;
    let sender_pubkey_sum = PublicKey::from(&secp_send, &sender_excess_blind)?;

    let blind3 = SecretKey::gen(&mut secp_recv)?;
    let _output1 = secp_recv.commit(201, &blind3)?;
    let blind4 = SecretKey::gen(&mut secp_recv)?;
    let _output2 = secp_recv.commit(199, &blind4)?;
    let recipient_excess_blind = secp_recv.blind_sum(&[], &[&blind3, &blind4])?;
    let recipient_excess = secp_recv.commit(0, &recipient_excess_blind)?;

    let recipient_nonce = SecretKey::gen(&mut secp_recv)?;
    let recipient_pub_nonce = PublicKey::from(&secp_recv, &recipient_nonce)?;
    let recipient_pubkey_sum = PublicKey::from(&secp_recv, &recipient_excess_blind)?;

    let pub_nonce_sum = recipient_pub_nonce.combine(&secp_recv, &sender_pub_nonce)?;
    let pubkey_sum = recipient_pubkey_sum.combine(&secp_recv, &sender_pubkey_sum)?;
    let _excess = sender_excess.combine(&secp_recv, &recipient_excess)?;

    let msg = Message::new([1u8; 32]);

    let sig_recv = secp_recv.sign(&msg, &recipient_excess_blind, &recipient_nonce, &pub_nonce_sum, &pubkey_sum)?;
    assert!(secp_recv
        .verify(&sig_recv, &msg, &pub_nonce_sum, &recipient_pubkey_sum, &pubkey_sum, true)
        .is_ok());

    let sig_send = secp_send.sign(&msg, &sender_excess_blind, &sender_nonce, &pub_nonce_sum, &pubkey_sum)?;
    assert!(secp_send
        .verify(&sig_send, &msg, &pub_nonce_sum, &sender_pubkey_sum, &pubkey_sum, true)
        .is_ok());

    let partial_sigs = &[&sig_send, &sig_recv];
    let aggsig = secp_send.aggregate_signatures(partial_sigs, &pub_nonce_sum)?;
    assert!(secp_send
        .verify(&aggsig, &msg, &pub_nonce_sum, &pubkey_sum, &pubkey_sum, false)
        .is_ok());

    Ok(())
}

#[test]
fn test_range_proofs() -> Result<(), Error> {
    let mut ctx = Ctx::new()?;
    let blind = SecretKey::gen(&mut ctx)?;
    let proof = ctx.range_proof(100, &blind)?;
    let commit = ctx.commit(100, &blind)?;
    ctx.verify_range_proof(&commit, &proof)?;

    assert_eq!(ctx.rewind_range_proof(&commit, &blind, &proof)?, 100);

    let other_commit = ctx.commit(101, &blind)?;
    assert!(ctx.verify_range_proof(&other_commit, &proof).is_err());
    assert!(ctx.rewind_range_proof(&other_commit, &blind, &proof).is_err());

    Ok(())
}

#[test]
fn range_proof_length_errors() -> Result<(), Error> {
    let mut ctx = Ctx::new()?;
    let blind = SecretKey::gen(&mut ctx)?;
    let mut proof = ctx.range_proof(5, &blind)?;
    let commit = ctx.commit(5, &blind)?;
    proof.plen = 0;
    assert_eq!(ctx.rewind_range_proof(&commit, &blind, &proof), Err(Error::IllegalArgument));
    proof.plen = 6000;
    assert_eq!(ctx.verify_range_proof(&commit, &proof), Err(Error::IllegalArgument));
    assert_eq!(ctx.rewind_range_proof(&commit, &blind, &proof), Err(Error::IllegalArgument));
    Ok(())
}

#[test]
fn blind_sum_of_key_minus_itself_is_zero() -> Result<(), Error> {
    let mut ctx = Ctx::new()?;
    let k = SecretKey::gen(&mut ctx)?;
    let z = ctx.blind_sum(&[&k], &[&k])?;
    assert_eq!(z, SecretKey::zero());
    let same = ctx.blind_sum(&[&k], &[])?;
    assert_eq!(same, k);
    Ok(())
}

#[test]
fn aggregate_too_many_signatures() -> Result<(), Error> {
    let mut ctx = Ctx::new()?;
    let k = SecretKey::gen(&mut ctx)?;
    let n = SecretKey::gen(&mut ctx)?;
    let pn = PublicKey::from(&ctx, &n)?;
    let pk = PublicKey::from(&ctx, &k)?;
    let msg = Message::new([3u8; 32]);
    let sig = ctx.sign(&msg, &k, &n, &pn, &pk)?;
    let sigs = [&sig; 17];
    assert_eq!(ctx.aggregate_signatures(&sigs, &pn), Err(Error::IllegalArgument));
    Ok(())
}

#[test]
fn test_ecdh1() -> Result<(), Error> {
    let mut ctx = Ctx::new()?;
    let skey1 = SecretKey::gen(&mut ctx)?;
    let skey2 = SecretKey::gen(&mut ctx)?;
    let pubkey1 = PublicKey::from(&ctx, &skey1)?;
    let pubkey2 = PublicKey::from(&ctx, &skey2)?;

    let ss1 = SharedSecret::new(&ctx, &pubkey1, &skey2)?;
    let ss2 = SharedSecret::new(&ctx, &pubkey2, &skey1)?;
    assert_eq!(ss1, ss2);

    let skey3 = SecretKey::gen(&mut ctx)?;
    let ssbad = SharedSecret::new(&ctx, &pubkey2, &skey3)?;
    assert_ne!(ssbad, ss1);

    Ok(())
}

#[test]
fn commitments_order_byte_by_byte() {
    let mut a = [0u8; 33];
    let mut b = [0u8; 33];
    a[5] = 1;
    b[5] = 2;
    b[6] = 0;
    a[6] = 200;
    let ca = Commitment::from_bytes(a);
    let cb = Commitment::from_bytes(b);
    assert!(ca < cb);
    assert!(cb > ca);
    assert_eq!(ca.partial_cmp(&ca), Some(std::cmp::Ordering::Equal));
    assert!(ca != cb);
    assert!(ca == Commitment::from_bytes(a));
}

#[test]
fn signatures_order_byte_by_byte() {
    let mut a = [9u8; 64];
    let b = [9u8; 64];
    a[63] = 10;
    let sa = Signature::from_bytes(a);
    let sb = Signature::from_bytes(b);
    assert!(sb < sa);
    assert_eq!(sa.partial_cmp(&sb), Some(std::cmp::Ordering::Greater));
}

#[test]
fn commitment_and_signature_as_hex() {
    let mut a = [0u8; 33];
    a[0] = 0x08;
    a[32] = 0xfe;
    let s = Commitment::from_bytes(a).to_string();
    assert_eq!(s.len(), 66);
    assert!(s.starts_with("08"));
    assert!(s.ends_with("fe"));
    assert_eq!(&s[2..64], "0".repeat(62));
    let mut b = [0xabu8; 64];
    b[1] = 0x01;
    let t = Signature::from_bytes(b).to_string();
    assert_eq!(t.len(), 128);
    assert!(t.starts_with("ab01abab"));
}
