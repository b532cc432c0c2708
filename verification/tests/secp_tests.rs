use bitcoinmw::base::error::Error;
use bitcoinmw::crypto::keys::{PublicKey, SecretKey};
use bitcoinmw::crypto::types::{AggSig, Message, Secp, SignatureScalar};

#[test]
fn test_secp_commit() {
    let mut secp = Secp::new().unwrap();
    let blind1 = SecretKey::new(&mut secp).unwrap();
    let blind2 = SecretKey::new(&mut secp).unwrap();
    let blind3 = SecretKey::new(&mut secp).unwrap();

    let input1 = secp.commit(1000, &blind1).unwrap();
    let input2 = secp.commit(3000, &blind2).unwrap();
    let output1 = secp.commit(2000, &blind3).unwrap();

    let blind4 = secp.blind_sum(&[&blind1, &blind2], &[&blind3]).unwrap();
    let output2 = secp.commit(2000, &blind4).unwrap();

    assert!(secp.verify_balance(&[&input1, &input2], &[&output1, &output2], 0).unwrap());

    let blind1 = SecretKey::new(&mut secp).unwrap();
    let blind2 = SecretKey::new(&mut secp).unwrap();
    let blind3 = SecretKey::new(&mut secp).unwrap();
    let input1 = secp.commit(1000, &blind1).unwrap();
    let input2 = secp.commit(3000, &blind2).unwrap();
    let output1 = secp.commit(2000, &blind3).unwrap();
    let blind4 = secp.blind_sum(&[&blind1, &blind2], &[&blind3]).unwrap();
    let output_bad = secp.commit(2001, &blind4).unwrap();
    assert!(!secp.verify_balance(&[&input1, &input2], &[&output1, &output_bad], 0).unwrap());

    assert!(secp.verify_balance(&[], &[], 0).unwrap(), "Empty commitments should balance");
    let zero_commit = secp.commit(0, &blind1).unwrap();
    assert!(secp.verify_balance(&[&zero_commit], &[&zero_commit], 0).unwrap());
}

#[test]
fn types_test_simple_sign() {
    let mut secp = Secp::new().unwrap();
    let seckey = SecretKey::new(&mut secp).unwrap();
    let secnonce = SecretKey::new(&mut secp).unwrap();
    let pubnonce = PublicKey::from(&secp, &secnonce).unwrap();
    let pubkey = PublicKey::from(&secp, &seckey).unwrap();

    let msg = Message::new([10u8; 32]);
    let sig = secp.sign_single(&msg, &seckey, &secnonce, &pubnonce, &pubkey, &pubnonce).unwrap();

    assert!(secp.verify_single(&sig, &msg, &pubnonce, &pubkey, &pubkey, true).unwrap());

    let msg = Message::new([11u8; 32]);
    assert!(!secp.verify_single(&sig, &msg, &pubnonce, &pubkey, &pubkey, true).unwrap());
}

#[test]
fn types_test_aggregation_simple() {
    let mut secp = Secp::new().unwrap();
    let msg = Message::new([10u8; 32]);

    let seckey1 = SecretKey::new(&mut secp).unwrap();
    let secnonce1 = SecretKey::new(&mut secp).unwrap();
    let pubnonce1 = PublicKey::from(&secp, &secnonce1).unwrap();
    let pubkey1 = PublicKey::from(&secp, &seckey1).unwrap();

    let seckey2 = SecretKey::new(&mut secp).unwrap();
    let secnonce2 = SecretKey::new(&mut secp).unwrap();
    let pubnonce2 = PublicKey::from(&secp, &secnonce2).unwrap();
    let pubkey2 = PublicKey::from(&secp, &seckey2).unwrap();

    let nonce_sum = pubnonce1.add(&secp, &pubnonce2).unwrap();
    let pubkey_sum = pubkey1.add(&secp, &pubkey2).unwrap();

    let sig1 = secp.sign_single(&msg, &seckey1, &secnonce1, &nonce_sum, &pubkey_sum, &nonce_sum).unwrap();
    assert!(secp.verify_single(&sig1, &msg, &nonce_sum, &pubkey1, &pubkey_sum, true).unwrap());

    let sig2 = secp.sign_single(&msg, &seckey2, &secnonce2, &nonce_sum, &pubkey_sum, &nonce_sum).unwrap();
    assert!(secp.verify_single(&sig2, &msg, &nonce_sum, &pubkey2, &pubkey_sum, true).unwrap());

    let partial_sigs = &[&sig1, &sig2];
    let aggsig = secp.aggregate_signatures(partial_sigs, &nonce_sum).unwrap();

    assert!(secp.verify_single(&aggsig, &msg, &nonce_sum, &pubkey_sum, &pubkey_sum, false).unwrap());

    let msgbad = Message::new([99u8; 32]);
    assert!(!secp.verify_single(&aggsig, &msgbad, &nonce_sum, &pubkey_sum, &pubkey_sum, false).unwrap());
}

#[test]
fn types_test_balance_tx() {
    let mut secp = Secp::new().unwrap();

    let blind1 = SecretKey::new(&mut secp).unwrap();
    let input1 = secp.commit(3000, &blind1).unwrap();
    let blind2 = SecretKey::new(&mut secp).unwrap();
    let change = secp.commit(1000, &blind2).unwrap();
    let blind3 = SecretKey::new(&mut secp).unwrap();
    let output1 = secp.commit(2000, &blind3).unwrap();

    let excess_blind = secp.blind_sum(&[&blind1], &[&blind2, &blind3]).unwrap();
    let excess = secp.commit(0, &excess_blind).unwrap();

    assert!(secp.verify_balance(&[&input1], &[&change, &output1, &excess], 0).unwrap());

    let output1 = secp.commit(2001, &blind3).unwrap();

    assert!(!secp.verify_balance(&[&input1], &[&change, &output1, &excess], 0).unwrap());
}

#[test]
fn test_mimblewimble_tx() {
    let mut secp = Secp::new().unwrap();

    let blind1 = SecretKey::new(&mut secp).unwrap();
    let input1 = secp.commit(3000, &blind1).unwrap();
    let blind2 = SecretKey::new(&mut secp).unwrap();
    let change = secp.commit(1000, &blind2).unwrap();
    let blind3 = SecretKey::new(&mut secp).unwrap();
    let output1 = secp.commit(2000, &blind3).unwrap();

    let excess_blind = secp.blind_sum(&[&blind1], &[&blind2, &blind3]).unwrap();
    let excess = secp.commit(0, &excess_blind).unwrap();
    let msg = secp.hash_kernel(&excess, 0, 0).unwrap();

    let pubkey_sum = PublicKey::from(&secp, &excess_blind).unwrap();

    let nonce1 = SecretKey::new(&mut secp).unwrap();
    let pubnonce1 = PublicKey::from(&secp, &nonce1).unwrap();
    let sender_blind = secp.blind_sum(&[&blind1], &[&blind2]).unwrap();
    let pub_sender = PublicKey::from(&secp, &sender_blind).unwrap();

    let nonce2 = SecretKey::new(&mut secp).unwrap();
    let pubnonce2 = PublicKey::from(&secp, &nonce2).unwrap();
    let receiver_blind = secp.blind_sum(&[], &[&blind3]).unwrap();
    let pub_receiver = PublicKey::from(&secp, &receiver_blind).unwrap();

    let nonce_sum = pubnonce1.add(&secp, &pubnonce2).unwrap();

    let sig1 = secp.sign_single(&msg, &sender_blind, &nonce1, &nonce_sum, &pubkey_sum, &nonce_sum).unwrap();
    assert!(secp.verify_single(&sig1, &msg, &nonce_sum, &pub_sender, &pubkey_sum, true).unwrap());

    let sig2 = secp.sign_single(&msg, &receiver_blind, &nonce2, &nonce_sum, &pubkey_sum, &nonce_sum).unwrap();
    assert!(secp.verify_single(&sig2, &msg, &nonce_sum, &pub_receiver, &pubkey_sum, true).unwrap());

    let partial_sigs = &[&sig1, &sig2];
    let aggsig = secp.aggregate_signatures(partial_sigs, &nonce_sum).unwrap();

    assert!(secp.verify_balance(&[&input1], &[&change, &output1, &excess], 0).unwrap());
    assert!(secp.verify_single(&aggsig, &msg, &nonce_sum, &pubkey_sum, &pubkey_sum, false).unwrap());
}

#[test]
fn test_mimblewimble_interactive1() {
    let mut secp_send = Secp::new().unwrap();
    let mut secp_recv = Secp::new().unwrap();

    let blind1 = SecretKey::new(&mut secp_send).unwrap();
    let input = secp_send.commit(500, &blind1).unwrap();
    let blind2 = SecretKey::new(&mut secp_send).unwrap();
    let change = secp_send.commit(100, &blind2).unwrap();
    let sender_excess_blind = secp_send.blind_sum(&[&blind1], &[&blind2]).unwrap();
    let sender_excess = secp_send.commit(0, &sender_excess_blind).unwrap();

    let sender_nonce = SecretKey::new(&mut secp_send).unwrap();
    let sender_pub_nonce = PublicKey::from(&secp_send, &sender_nonce).unwrap();
    let sender_pubkey_sum = PublicKey::from(&secp_send, &sender_excess_blind).unwrap();

    let blind3 = SecretKey::new(&mut secp_recv).unwrap();
    let output1 = secp_recv.commit(201, &blind3).unwrap();
    let blind4 = SecretKey::new(&mut secp_recv).unwrap();
    let output2 = secp_recv.commit(199, &blind4).unwrap();
    let recipient_excess_blind = secp_recv.blind_sum(&[], &[&blind3, &blind4]).unwrap();
    let recipient_excess = secp_recv.commit(0, &recipient_excess_blind).unwrap();

    let recipient_nonce = SecretKey::new(&mut secp_recv).unwrap();
    let recipient_pub_nonce = PublicKey::from(&secp_recv, &recipient_nonce).unwrap();
    let recipient_pubkey_sum = PublicKey::from(&secp_recv, &recipient_excess_blind).unwrap();

    let pub_nonce_sum = recipient_pub_nonce.add(&secp_recv, &sender_pub_nonce).unwrap();
    let pubkey_sum = recipient_pubkey_sum.add(&secp_recv, &sender_pubkey_sum).unwrap();

    let excess = sender_excess.add(&secp_recv, &recipient_excess).unwrap();
    let msg = secp_recv.hash_kernel(&excess, 0, 0).unwrap();

    let sig_recv = secp_recv
        .sign_single(&msg, &recipient_excess_blind, &recipient_nonce, &pub_nonce_sum, &pubkey_sum, &pub_nonce_sum)
        .unwrap();
    assert!(secp_recv
        .verify_single(&sig_recv, &msg, &pub_nonce_sum, &recipient_pubkey_sum, &pubkey_sum, true)
        .unwrap());

    let sig_send = secp_send
        .sign_single(&msg, &sender_excess_blind, &sender_nonce, &pub_nonce_sum, &pubkey_sum, &pub_nonce_sum)
        .unwrap();
    assert!(secp_send
        .verify_single(&sig_send, &msg, &pub_nonce_sum, &sender_pubkey_sum, &pubkey_sum, true)
        .unwrap());

    let partial_sigs = &[&sig_send, &sig_recv];
    let aggsig = secp_send.aggregate_signatures(partial_sigs, &pub_nonce_sum).unwrap();

    assert!(secp_send
        .verify_balance(&[&input], &[&change, &output1, &output2, &recipient_excess, &sender_excess], 0)
        .unwrap());

    assert!(secp_send
        .verify_single(&aggsig, &msg, &pub_nonce_sum, &pubkey_sum, &pubkey_sum, false)
        .unwrap());
}

#[test]
fn types_test_mimblewimble_interactive_with_fee() -> Result<(), Error> {
    let mut secp_send = Secp::new()?;
    let mut secp_recv = Secp::new()?;

    let fee = 5u64;

    let blind1 = SecretKey::new(&mut secp_send)?;
    let input = secp_send.commit(500, &blind1)?;
    let blind2 = SecretKey::new(&mut secp_send)?;
    let change = secp_send.commit(100 - fee, &blind2)?;
    let sender_excess_blind = secp_send.blind_sum(&[&blind1], &[&blind2])?;
    let sender_excess = secp_send.commit(0, &sender_excess_blind)?;

    let sender_nonce = SecretKey::new(&mut secp_send)?;
    let sender_pub_nonce = PublicKey::from(&secp_send, &sender_nonce)?;
    let sender_pubkey_sum = PublicKey::from(&secp_send, &sender_excess_blind)?;

    let blind3 = SecretKey::new(&mut secp_recv)?;
    let output1 = secp_recv.commit(201, &blind3)?;
    let blind4 = SecretKey::new(&mut secp_recv)?;
    let output2 = secp_recv.commit(199, &blind4)?;
    let recipient_excess_blind = secp_recv.blind_sum(&[], &[&blind3, &blind4])?;
    let recipient_excess = secp_recv.commit(0, &recipient_excess_blind)?;

    let recipient_nonce = SecretKey::new(&mut secp_recv)?;
    let recipient_pub_nonce = PublicKey::from(&secp_recv, &recipient_nonce)?;
    let recipient_pubkey_sum = PublicKey::from(&secp_recv, &recipient_excess_blind)?;

    let pub_nonce_sum = recipient_pub_nonce.add(&secp_recv, &sender_pub_nonce)?;
    let pubkey_sum = recipient_pubkey_sum.add(&secp_recv, &sender_pubkey_sum)?;

    let excess = sender_excess.add(&secp_recv, &recipient_excess)?;
    let msg = secp_recv.hash_kernel(&excess, fee, 0)?;

    let sig_recv = secp_recv.sign_single(
        &msg,
        &recipient_excess_blind,
        &recipient_nonce,
        &pub_nonce_sum,
        &pubkey_sum,
        &pub_nonce_sum,
    )?;
    assert!(secp_recv.verify_single(&sig_recv, &msg, &pub_nonce_sum, &recipient_pubkey_sum, &pubkey_sum, true)?);

    let sig_send = secp_send.sign_single(
        &msg,
        &sender_excess_blind,
        &sender_nonce,
        &pub_nonce_sum,
        &pubkey_sum,
        &pub_nonce_sum,
    )?;
    assert!(secp_send.verify_single(&sig_send, &msg, &pub_nonce_sum, &sender_pubkey_sum, &pubkey_sum, true)?);

    let partial_sigs = &[&sig_send, &sig_recv];
    let aggsig = secp_send.aggregate_signatures(partial_sigs, &pub_nonce_sum)?;
    assert!(secp_send.verify_single(&aggsig, &msg, &pub_nonce_sum, &pubkey_sum, &pubkey_sum, false)?);

    assert!(secp_send.verify_balance(
        &[&input],
        &[&change, &output1, &output2, &recipient_excess, &sender_excess],
        fee
    )?);

    Ok(())
}

#[test]
fn secp_sign_partial_and_verify_partial() -> Result<(), Error> {
    let mut secp = Secp::new()?;
    let b1 = SecretKey::new(&mut secp)?;
    let b2 = SecretKey::new(&mut secp)?;
    let nonce = SecretKey::new(&mut secp)?;
    let pub_nonce = PublicKey::from(&secp, &nonce)?;
    let blind = secp.blind_sum(&[&b1], &[&b2])?;
    let pubkey = PublicKey::from(&secp, &blind)?;
    let msg = Message::new([4u8; 32]);
    let sig = secp.sign_partial(&msg, &[&b1], &[&b2], &nonce, &pub_nonce, &pubkey)?;
    secp.verify_partial(&msg, &sig, &pubkey, &pub_nonce, &pubkey)?;
    let bad = Message::new([5u8; 32]);
    assert_eq!(secp.verify_partial(&bad, &sig, &pubkey, &pub_nonce, &pubkey), Err(Error::IncorrectSignature));
    assert_eq!(
        secp.sign_partial(&msg, &[&b1], &[&b1], &nonce, &pub_nonce, &pubkey),
        Err(Error::InvalidSignature)
    );
    Ok(())
}

#[test]
fn secp_verify_kernel() -> Result<(), Error> {
    let mut secp = Secp::new()?;
    let blind = SecretKey::new(&mut secp)?;
    let excess = secp.commit(0, &blind)?;
    let msg = secp.hash_kernel(&excess, 3, 0)?;
    let nonce = SecretKey::new(&mut secp)?;
    let pub_nonce = PublicKey::from(&secp, &nonce)?;
    let pubkey = PublicKey::from(&secp, &blind)?;
    let sig = secp.sign_single(&msg, &blind, &nonce, &pub_nonce, &pubkey, &pub_nonce)?;
    secp.verify_kernel(&msg, &sig, &excess)?;
    let other = secp.hash_kernel(&excess, 4, 0)?;
    assert_eq!(secp.verify_kernel(&other, &sig, &excess), Err(Error::IncorrectSignature));
    Ok(())
}

#[test]
fn secp_sign_ecdsa_is_deterministic() -> Result<(), Error> {
    let mut secp = Secp::new()?;
    let k = SecretKey::new(&mut secp)?;
    let a = secp.sign_ecdsa(&[6u8; 32], &k)?;
    let b = secp.sign_ecdsa(&[6u8; 32], &k)?;
    let c = secp.sign_ecdsa(&[7u8; 32], &k)?;
    assert_eq!(a.as_bytes(), b.as_bytes());
    assert_ne!(a.as_bytes(), c.as_bytes());
    assert!(matches!(secp.sign_ecdsa(&[6u8; 32], &SecretKey::zero()), Err(Error::Secp)));
    Ok(())
}

#[test]
fn signature_scalar_add_sub_roundtrip() -> Result<(), Error> {
    let secp = Secp::new()?;
    let mut one = [0u8; 32];
    one[31] = 1;
    let mut two = [0u8; 32];
    two[31] = 2;
    let mut s = SignatureScalar::from_bytes(&one)?;
    let t = SignatureScalar::from_bytes(&two)?;
    s.add(&secp, &t)?;
    let mut three = [0u8; 32];
    three[31] = 3;
    assert_eq!(s.as_bytes(), &three);
    s.sub(&secp, &t)?;
    assert_eq!(s.as_bytes(), &one);
    assert!(SignatureScalar::from_bytes(&one[..31]).is_err());
    Ok(())
}

#[test]
fn aggsig_verify_without_keys_is_false() -> Result<(), Error> {
    let secp = Secp::new()?;
    let a = AggSig::new(&secp, &[])?;
    let sig = bitcoinmw::crypto::signature::Signature::new();
    assert!(!a.verify(&Message::new([0u8; 32]), &sig));
    Ok(())
}

#[test]
fn test_signing() {
    let mut secp = Secp::new().unwrap();
    let skey1 = SecretKey::new(&mut secp).unwrap();
    let pkey1 = PublicKey::from(&secp, &skey1).unwrap();
    let skey2 = SecretKey::new(&mut secp).unwrap();
    let pkey2 = PublicKey::from(&secp, &skey2).unwrap();

    let pkeys = [pkey1, pkey2];
    let mut aggsig = AggSig::new(&secp, &pkeys).unwrap();
    assert!(aggsig.gen_nonce(0));
    assert!(aggsig.gen_nonce(1));
    let msg32 = Message::new([7u8; 32]);
    assert!(aggsig.partial_sign(0, &msg32, &skey1));
    assert!(aggsig.partial_sign(1, &msg32, &skey2));

    let mut sig = bitcoinmw::crypto::signature::Signature::new();
    aggsig.final_signature(&mut sig);
    assert!(aggsig.verify(&msg32, &sig));
    let msgbad = Message::new([8u8; 32]);
    assert!(!aggsig.verify(&msgbad, &sig));
}

#[test]
fn test_signing_multi() {
    let mut secp = Secp::new().unwrap();
    let skey1 = SecretKey::new(&mut secp).unwrap();
    let pkey1 = PublicKey::from(&secp, &skey1).unwrap();
    let skey2 = SecretKey::new(&mut secp).unwrap();
    let pkey2 = PublicKey::from(&secp, &skey2).unwrap();
    let skey3 = SecretKey::new(&mut secp).unwrap();
    let pkey3 = PublicKey::from(&secp, &skey3).unwrap();

    let pkeys = [pkey1, pkey2, pkey3];
    let mut aggsig = AggSig::new(&secp, &pkeys).unwrap();
    assert!(aggsig.gen_nonce(0));
    assert!(aggsig.gen_nonce(1));
    assert!(aggsig.gen_nonce(2));
    let msg32 = Message::new([9u8; 32]);
    assert!(aggsig.partial_sign(0, &msg32, &skey1));
    assert!(aggsig.partial_sign(1, &msg32, &skey2));
    assert!(aggsig.partial_sign(2, &msg32, &skey3));

    let mut sig = bitcoinmw::crypto::signature::Signature::new();
    aggsig.final_signature(&mut sig);
    assert!(aggsig.verify(&msg32, &sig));
    let msgbad = Message::new([88u8; 32]);
    assert!(!aggsig.verify(&msgbad, &sig));
}

#[test]
fn aggsig_refuses_out_of_order_and_missing_steps() {
    let mut secp = Secp::new().unwrap();
    let skey1 = SecretKey::new(&mut secp).unwrap();
    let pkey1 = PublicKey::from(&secp, &skey1).unwrap();
    let skey2 = SecretKey::new(&mut secp).unwrap();
    let pkey2 = PublicKey::from(&secp, &skey2).unwrap();
    let mut aggsig = AggSig::new(&secp, &[pkey1, pkey2]).unwrap();
    let msg32 = Message::new([1u8; 32]);
    // no such key
    assert!(!aggsig.gen_nonce(2));
    assert!(!aggsig.partial_sign(2, &msg32, &skey1));
    assert!(aggsig.gen_nonce(0));
    // a nonce is made once
    assert!(!aggsig.gen_nonce(0));
    // not every key has a nonce yet
    assert!(!aggsig.partial_sign(0, &msg32, &skey1));
    assert!(aggsig.gen_nonce(1));
    assert!(aggsig.partial_sign(0, &msg32, &skey1));
    // the second partial signature is missing
    let mut sig = bitcoinmw::crypto::signature::Signature::new();
    assert!(!aggsig.final_signature(&mut sig));
    assert_eq!(sig.as_bytes(), &[0u8; 64]);
}

#[test]
fn uncompressed_key_compresses_back() -> Result<(), Error> {
    let mut secp = Secp::new()?;
    let sk = SecretKey::new(&mut secp)?;
    let pk = PublicKey::from(&secp, &sk)?;
    let u = secp.pubkey_uncompressed(&sk)?;
    let back = PublicKey::compress(&secp, u)?;
    assert_eq!(back.as_bytes(), pk.as_bytes());
    let bad = SecretKey::zero();
    assert!(matches!(secp.pubkey_uncompressed(&bad), Err(Error::InvalidPublicKey)));
    Ok(())
}

#[test]
fn secp_verify_balance_refuses_a_commitment_that_does_not_parse() {
    let mut secp = Secp::new().unwrap();
    let blind = SecretKey::new(&mut secp).unwrap();
    let good = secp.commit(5, &blind).unwrap();
    let bad = bitcoinmw::crypto::pedersen::Commitment::from_bytes([0u8; 33]);
    assert_eq!(secp.verify_balance(&[&good], &[&bad], 0), Err(Error::Secp));
    assert_eq!(secp.verify_balance(&[&bad], &[&good], 7), Err(Error::Secp));
    assert!(secp.verify_balance(&[&good], &[&good], 0).unwrap());
}
