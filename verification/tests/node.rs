use cjp2p::message::Message;
use cjp2p::message::PeerAddr;
use cjp2p::message::PleaseReturnThisMessage;
use cjp2p::node::maintenance_due;
use cjp2p::node::reply_tail_now;
use cjp2p::node::reply_tail_with;
use cjp2p::peers::PeerInfo;
use cjp2p::peers::PeerState;

#[test]
fn upkeep_runs_more_than_a_second_apart() {
    assert!(!maintenance_due(1_000_000_000));
    assert!(maintenance_due(1_000_000_001));
    assert!(!maintenance_due(0));
}

#[test]
fn no_replies_send_nothing() {
    assert!(reply_tail_with(0, 5, 0).is_none());
    assert!(reply_tail_now(0, 5).is_none());
}

#[test]
fn replies_sometimes_carry_a_round_trip_request() {
    let t = reply_tail_with(2, 9, 146).expect("replies go out");
    assert_eq!(t.len(), 1);
    assert!(matches!(t[0], Message::PleaseReturnThisMessage(PleaseReturnThisMessage { sent_at: 9 })));
    assert!(reply_tail_with(2, 9, 1).expect("replies go out").is_empty());
    assert!(reply_tail_now(3, 9).is_some());
}

#[test]
fn saved_peers_load_back_with_their_round_trips() {
    let mut ps = PeerState::new();
    for k in 0..150u32 {
        let a = PeerAddr { v6: false, ip: k as u128, port: 7, flowinfo: 0, scope_id: 0 };
        ps.insert(a, PeerInfo { when_last_seen: k as i64, delay: 1 + k as u64 });
    }
    ps.sort(1_000);
    let saved: Vec<(PeerAddr, u64)> = ps.peers_to_save().into_iter().map(|(a, i)| (a, i.delay)).collect();
    assert_eq!(saved.len(), 99);
    let mut back = PeerState::new();
    back.merge_saved(&saved, 2_000);
    assert_eq!(back.len(), 99);
    for (a, d) in &saved {
        assert_eq!(back.get(*a), Some(PeerInfo { when_last_seen: 2_000 - 999_000_000_000_000_000, delay: *d }));
    }
}
