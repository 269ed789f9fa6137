use finality_jasmine::environment::{RoundData, VoterData};

#[test]
fn voter_and_round_data_hold_the_local_id() {
    let voter = VoterData { local_id: 3u64 };
    assert_eq!(voter.local_id, 3);
    let round = RoundData { local_id: 3u64, incoming: vec![1u8], outgoing: Vec::<u8>::new() };
    assert_eq!(round.local_id, voter.local_id);
    assert_eq!(round.incoming, vec![1u8]);
    assert!(round.outgoing.is_empty());
}
