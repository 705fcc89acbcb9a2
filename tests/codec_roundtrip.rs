use subspace_core_rust::block::{Block, CoinbaseTx, Content, CreditTx, Data, Proof, Transaction};

fn sample_proof() -> Proof {
    Proof {
        randomness: [3u8; 32],
        epoch: 7,
        timeslot: 29,
        public_key: [4u8; 32],
        tag: 0x0102_0304_0506_0708,
        nonce: u64::MAX,
        piece_index: 12,
        solution_range: 1 << 40,
    }
}

fn content() -> Content {
    Content {
        parent_id: [1u8; 32],
        proof_id: [2u8; 32],
        proof_signature: vec![9; 64],
        timestamp: 1_600_000_000_123,
        tx_ids: vec![[5u8; 32], [6u8; 32], [7u8; 32]],
        signature: vec![8; 64],
    }
}

fn block(data: Option<Data>) -> Block {
    Block {
        proof: sample_proof(),
        coinbase_tx: CoinbaseTx::new(1, [4u8; 32], [2u8; 32]),
        content: content(),
        data,
    }
}

#[test]
fn proof_round_trip() {
    let p = sample_proof();
    let bytes = p.to_bytes();
    assert_eq!(bytes.len(), 112);
    let back = Proof::from_bytes(&bytes).unwrap();
    assert_eq!(back.to_bytes(), bytes);
    assert_eq!(back.tag, p.tag);
    assert_eq!(back.nonce, p.nonce);
    assert!(Proof::from_bytes(&bytes[..111]).is_none());
}

#[test]
fn content_round_trip() {
    let c = content();
    let bytes = c.to_bytes();
    let back = Content::from_bytes(&bytes).unwrap();
    assert_eq!(back.tx_ids, c.tx_ids);
    assert_eq!(back.proof_signature, c.proof_signature);
    assert_eq!(back.signature, c.signature);
    assert_eq!(back.timestamp, c.timestamp);
    assert_eq!(back.get_id(), c.get_id());
    let mut longer = bytes.clone();
    longer.push(0);
    assert!(Content::from_bytes(&longer).is_none());
    assert!(Content::from_bytes(&bytes[..bytes.len() - 1]).is_none());
}

#[test]
fn transaction_round_trip() {
    let coinbase = Transaction::Coinbase(CoinbaseTx::new(1, [1u8; 32], [2u8; 32]));
    let bytes = coinbase.to_bytes();
    assert_eq!(bytes[0], 0);
    match Transaction::from_bytes(&bytes).unwrap() {
        Transaction::Coinbase(tx) => {
            assert_eq!(tx.to_address, [1u8; 32]);
            assert_eq!(tx.proof_id, [2u8; 32]);
        }
        Transaction::Credit(_) => panic!("decoded the wrong kind"),
    }
    let credit = Transaction::Credit(CreditTx {
        amount: 5,
        from_address: [1u8; 32],
        to_address: [2u8; 32],
        nonce: 3,
        signature: vec![1, 2, 3],
    });
    let bytes = credit.to_bytes();
    assert_eq!(bytes[0], 1);
    match Transaction::from_bytes(&bytes).unwrap() {
        Transaction::Credit(tx) => {
            assert_eq!(tx.amount, 5);
            assert_eq!(tx.nonce, 3);
            assert_eq!(tx.signature, vec![1, 2, 3]);
        }
        Transaction::Coinbase(_) => panic!("decoded the wrong kind"),
    }
    assert_eq!(credit.get_id(), Transaction::from_bytes(&bytes).unwrap().get_id());
    let mut bad = bytes.clone();
    bad[0] = 2;
    assert!(Transaction::from_bytes(&bad).is_none());
}

#[test]
fn block_round_trip() {
    for b in [
        block(None),
        block(Some(Data { encoding: vec![7; 4096], merkle_proof: vec![1, 2, 3] })),
    ] {
        let bytes = b.to_bytes();
        let back = Block::from_bytes(&bytes).unwrap();
        assert_eq!(back.to_bytes(), bytes);
        assert_eq!(back.get_id(), b.get_id());
        assert_eq!(back.data.is_some(), b.data.is_some());
        assert!(Block::from_bytes(&bytes[..bytes.len() - 1]).is_none());
    }
}
