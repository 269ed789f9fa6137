use finality_jasmine::testing::chain::{DummyChain, QC};
use finality_jasmine::testing::GENESIS_HASH;

#[test]
fn next_to_be_voted_will_paces() {
    let mut chain = DummyChain::new();
    chain.generate_init_blocks(10);

    let (number, hash, gen) = chain.next_to_be_voted().unwrap();
    assert_eq!(hash, "block-0");
    assert_eq!(number, 1);
    assert_eq!(gen, (0, GENESIS_HASH.to_owned()));

    chain
        .save_qc(QC::from_votes(1, "block-0".to_owned(), Vec::new()))
        .unwrap();

    let (number, hash, qc) = chain.next_to_be_voted().unwrap();
    assert_eq!(hash, "block-3");
    assert_eq!(number, 4);
    assert_eq!(qc, (1, "block-0".to_owned()));
}

#[test]
fn next_to_be_finalized_must_be_a_key_block() {
    let mut chain = DummyChain::new();
    chain.generate_init_blocks(10);

    let (number, hash) = chain.next_to_be_finalized().unwrap();
    assert_eq!(hash, "block-0");
    assert_eq!(number, 1);

    chain.finalize_block(hash);

    let (number, hash) = chain.next_to_be_finalized().unwrap();
    assert_eq!(hash, "block-3");
    assert_eq!(number, 4);
}

#[test]
fn parent_key_block() {
    let mut chain = DummyChain::new();
    chain.generate_init_blocks(10);

    assert_eq!(chain.parent_key_block("block-0".to_owned()).unwrap().0, 0);
    assert_eq!(chain.parent_key_block("block-3".to_owned()).unwrap().0, 1);
    assert_eq!(chain.parent_key_block("block-6".to_owned()).unwrap().0, 4);
    assert_eq!(chain.parent_key_block("block-5".to_owned()).unwrap().0, 4);
    assert_eq!(chain.parent_key_block("block-9".to_owned()).unwrap().0, 7);
}

#[test]
fn new_chain_holds_genesis_only() {
    let chain = DummyChain::new();
    assert_eq!(chain.last_finalized(), (0, GENESIS_HASH.to_owned()));
    let (number, hash, qc) = chain.next_to_be_voted().unwrap();
    assert_eq!((number, hash), (0, GENESIS_HASH.to_owned()));
    assert_eq!(qc, (0, GENESIS_HASH.to_owned()));
    assert_eq!(
        chain.get_block(&GENESIS_HASH.to_owned()),
        Some((0, GENESIS_HASH.to_owned(), (0, GENESIS_HASH.to_owned())))
    );
}

#[test]
fn generated_blocks_are_numbered_and_linked() {
    let mut chain = DummyChain::new();
    chain.generate_init_blocks(10);
    // The first block carries the genesis QC once generation ends; the others the default QC.
    assert_eq!(
        chain.get_block(&"block-0".to_owned()),
        Some((1, "block-0".to_owned(), (0, GENESIS_HASH.to_owned())))
    );
    assert_eq!(
        chain.get_block(&"block-4".to_owned()),
        Some((5, "block-4".to_owned(), (0, String::new())))
    );
    assert_eq!(
        chain.get_block(&"block-9".to_owned()),
        Some((10, "block-9".to_owned(), (0, String::new())))
    );
}

#[test]
fn parent_key_block_of_genesis_is_genesis() {
    let mut chain = DummyChain::new();
    chain.generate_init_blocks(4);
    let (number, hash, qc) = chain.parent_key_block(GENESIS_HASH.to_owned()).unwrap();
    assert_eq!((number, hash), (0, GENESIS_HASH.to_owned()));
    assert_eq!(qc, (0, GENESIS_HASH.to_owned()));
    let (number, hash, _) = chain.parent_key_block("block-1".to_owned()).unwrap();
    assert_eq!((number, hash), (1, "block-0".to_owned()));
}

#[test]
fn finalized_block_is_reported() {
    let mut chain = DummyChain::new();
    chain.generate_init_blocks(10);
    assert!(chain.finalize_block("block-5".to_owned()));
    assert_eq!(chain.last_finalized(), (6, "block-5".to_owned()));
    let (number, hash) = chain.next_to_be_finalized().unwrap();
    assert_eq!((number, hash), (7, "block-6".to_owned()));
}

#[test]
fn finalizing_an_unknown_block_changes_nothing() {
    let mut chain = DummyChain::new();
    chain.generate_init_blocks(10);
    assert!(!chain.finalize_block("block-42".to_owned()));
    assert_eq!(chain.last_finalized(), (0, GENESIS_HASH.to_owned()));
}

#[test]
fn saved_qc_moves_voting_to_next_key_block() {
    let mut chain = DummyChain::new();
    chain.generate_init_blocks(10);
    chain
        .save_qc(QC::from_votes(1, "block-0".to_owned(), vec![(7, 70)]))
        .unwrap();
    chain
        .save_qc(QC::from_votes(4, "block-3".to_owned(), vec![(1, 10), (2, 20)]))
        .unwrap();
    let (number, hash, qc) = chain.next_to_be_voted().unwrap();
    assert_eq!((number, hash), (7, "block-6".to_owned()));
    assert_eq!(qc, (4, "block-3".to_owned()));
    assert_eq!(
        chain.get_block(&"block-3".to_owned()),
        Some((4, "block-3".to_owned(), (1, "block-0".to_owned())))
    );
}

#[test]
fn qc_without_votes_is_empty() {
    assert!(QC::from_votes(3, "block-2".to_owned(), Vec::new()).is_empty());
    assert!(QC::default().is_empty());
}

#[test]
fn qc_with_votes_is_not_empty() {
    let qc = QC::from_votes(3, "block-2".to_owned(), vec![(1, 11), (1, 12)]);
    assert!(!qc.is_empty());
    assert!(!qc.duplicate().is_empty());
}

#[test]
fn contains_block_answers_membership() {
    let mut chain = DummyChain::new();
    assert!(chain.contains_block(&GENESIS_HASH.to_owned()));
    assert!(!chain.contains_block(&"block-0".to_owned()));
    chain.generate_init_blocks(3);
    assert!(chain.contains_block(&"block-2".to_owned()));
    assert!(!chain.contains_block(&"block-3".to_owned()));
}

#[test]
fn key_block_after_exists_only_while_one_is_ahead() {
    let mut chain = DummyChain::new();
    assert!(!chain.has_key_block_after(&GENESIS_HASH.to_owned()));
    chain.generate_init_blocks(10);
    assert!(chain.has_key_block_after(&GENESIS_HASH.to_owned()));
    assert!(chain.has_key_block_after(&"block-5".to_owned()));
    assert!(!chain.has_key_block_after(&"block-9".to_owned()));
    assert!(!chain.has_key_block_after(&"block-42".to_owned()));
    let (_, voted, _) = chain.next_to_be_voted().unwrap();
    assert!(chain.has_key_block_after(&voted));
}

#[test]
fn finalized_key_block_is_parent_key_block_of_next() {
    let mut chain = DummyChain::new();
    chain.generate_init_blocks(10);
    assert!(chain.finalize_block("block-3".to_owned()));
    let (_, next) = chain.next_to_be_finalized().unwrap();
    assert_eq!(next, "block-6");
    let (number, hash, _) = chain.parent_key_block(next).unwrap();
    assert_eq!((number, hash), chain.last_finalized());
}

#[test]
fn generated_hashes_use_all_decimal_digits() {
    let mut chain = DummyChain::new();
    chain.generate_init_blocks(12);
    assert_eq!(
        chain.get_block(&"block-11".to_owned()).map(|b| (b.0, b.1)),
        Some((12, "block-11".to_owned()))
    );
    assert!(!chain.contains_block(&"block-1-1".to_owned()));
    assert_eq!(chain.parent_key_block("block-10".to_owned()).unwrap().1, "block-9");
}
