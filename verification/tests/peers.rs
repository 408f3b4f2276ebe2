use cjp2p::message::Message;
use cjp2p::message::PeerAddr;
use cjp2p::message::Peers;
use cjp2p::message::PleaseReturnThisMessage;
use cjp2p::message::PleaseSendPeers;
use cjp2p::message::ReturnedMessage;
use cjp2p::peers::save_due_at;
use cjp2p::peers::PeerInfo;
use cjp2p::peers::PeerState;

fn addr(last: u8) -> PeerAddr {
    PeerAddr { v6: false, ip: 0x0a00_0000 | last as u128, port: 24254, flowinfo: 0, scope_id: 0 }
}

#[test]
fn new_sender_joins_with_one_second_round_trip() {
    let mut ps = PeerState::new();
    ps.note_sender(addr(1), 50);
    assert_eq!(ps.get(addr(1)), Some(PeerInfo { when_last_seen: 50, delay: 1_000_000_000 }));
    ps.insert(addr(1), PeerInfo { when_last_seen: 50, delay: 7 });
    ps.note_sender(addr(1), 60);
    assert_eq!(ps.get(addr(1)), Some(PeerInfo { when_last_seen: 60, delay: 7 }));
    assert_eq!(ps.len(), 1);
}

#[test]
fn suggested_peers_do_not_change_known_ones() {
    let mut ps = PeerState::new();
    ps.insert(addr(1), PeerInfo { when_last_seen: 5, delay: 3 });
    let m = Peers { peers: vec![addr(1), addr(2)] };
    assert!(m.receive_peers(&mut ps, 1_000).is_empty());
    assert_eq!(ps.get(addr(1)), Some(PeerInfo { when_last_seen: 5, delay: 3 }));
    assert_eq!(
        ps.get(addr(2)),
        Some(PeerInfo { when_last_seen: 1_000 - 888_000_000_000_000_000, delay: 1_000_000_000 })
    );
    assert_eq!(ps.len(), 2);
}

#[test]
fn saved_peers_overwrite_with_their_round_trip() {
    let mut ps = PeerState::new();
    ps.insert(addr(1), PeerInfo { when_last_seen: 5, delay: 3 });
    ps.merge_saved(&vec![(addr(1), 40), (addr(2), 50), (addr(2), 60)], 100);
    assert_eq!(ps.get(addr(1)), Some(PeerInfo { when_last_seen: 100 - 999_000_000_000_000_000, delay: 40 }));
    assert_eq!(ps.get(addr(2)).map(|i| i.delay), Some(60));
    assert_eq!(ps.len(), 2);
}

#[test]
fn sort_ranks_recent_fast_peers_first() {
    let mut ps = PeerState::new();
    // rank = (now - seen) * delay
    ps.insert(addr(1), PeerInfo { when_last_seen: 0, delay: 10 }); // 1000 * 10
    ps.insert(addr(2), PeerInfo { when_last_seen: 900, delay: 10 }); // 100 * 10
    ps.insert(addr(3), PeerInfo { when_last_seen: 990, delay: 500 }); // 10 * 500
    ps.insert(addr(4), PeerInfo { when_last_seen: 2000, delay: 500 }); // seen "after" now: 0
    ps.sort(1000);
    let order: Vec<PeerAddr> = ps.ranked().iter().map(|e| e.0).collect();
    assert_eq!(order, vec![addr(4), addr(2), addr(3), addr(1)]);
    assert_eq!(ps.ranked().len(), ps.len());
    assert_eq!(ps.ranked()[1].1, PeerInfo { when_last_seen: 900, delay: 10 });
}

#[test]
fn best_peers_picks_distinct_ranked_peers() {
    let mut ps = PeerState::new();
    for k in 0..5 {
        ps.insert(addr(k), PeerInfo { when_last_seen: 0, delay: (k as u64 + 1) });
    }
    ps.sort(10);
    let best = ps.best_peers(&vec![0, 0, 4, 7, 1]);
    assert_eq!(best, vec![addr(0), addr(4), addr(1)]);
    let out = PleaseSendPeers {}.send_peers(&ps, &vec![2]);
    match &out[0] {
        Message::Peers(p) => assert_eq!(p.peers, vec![addr(2)]),
        _ => panic!("expected peers"),
    }
}

#[test]
fn at_most_ninety_nine_peers_are_saved() {
    let mut ps = PeerState::new();
    for k in 0..120u32 {
        let a = PeerAddr { v6: true, ip: k as u128, port: 1, flowinfo: 0, scope_id: 0 };
        ps.insert(a, PeerInfo { when_last_seen: 0, delay: 1 });
    }
    ps.sort(5);
    let list = ps.peers_to_save();
    assert_eq!(list.len(), 99);
    assert_eq!(list[..], ps.ranked()[..99]);
}

#[test]
fn returned_message_measures_round_trip() {
    let mut ps = PeerState::new();
    ps.insert(addr(1), PeerInfo { when_last_seen: 5, delay: 3 });
    let m = ReturnedMessage { sent_at: 1_000 };
    assert!(m.update_round_trip_time(&mut ps, addr(1), 4_500).is_empty());
    assert_eq!(ps.get(addr(1)), Some(PeerInfo { when_last_seen: 5, delay: 3_500 }));
    // from the future: zero
    ReturnedMessage { sent_at: 9_000 }.update_round_trip_time(&mut ps, addr(1), 4_500);
    assert_eq!(ps.get(addr(1)).map(|i| i.delay), Some(0));
    // unknown sender: nothing
    ReturnedMessage { sent_at: 1 }.update_round_trip_time(&mut ps, addr(9), 4_500);
    assert_eq!(ps.get(addr(9)), None);
}

#[test]
fn probe_asks_for_peers_and_a_round_trip() {
    let out = PeerState::probe_messages(77);
    assert_eq!(out.len(), 2);
    assert!(matches!(out[0], Message::PleaseSendPeers(_)));
    assert!(matches!(out[1], Message::PleaseReturnThisMessage(PleaseReturnThisMessage { sent_at: 77 })));
    assert!(matches!(
        PleaseReturnThisMessage::at(5),
        Message::PleaseReturnThisMessage(PleaseReturnThisMessage { sent_at: 5 })
    ));
}

#[test]
fn round_trip_pings_one_time_in_73() {
    assert!(PleaseReturnThisMessage::due_with(0));
    assert!(PleaseReturnThisMessage::due_with(146));
    assert!(!PleaseReturnThisMessage::due_with(72));
}

#[test]
fn peers_saved_in_first_seconds_of_every_fifth_minute() {
    assert!(save_due_at(0, 0));
    assert!(save_due_at(2, 5));
    assert!(!save_due_at(3, 5));
    assert!(!save_due_at(0, 6));
    assert!(save_due_at(1, 55));
}
