use cjp2p::codec::base64_decode;
use cjp2p::download::ContentError;
use cjp2p::download::Downloads;
use cjp2p::download::ServePlan;
use cjp2p::message::Content;
use cjp2p::message::MaybeTheyHaveSome;
use cjp2p::message::Message;
use cjp2p::message::PeerAddr;
use cjp2p::message::PleaseSendContent;

const ABC_ID: &str = "BA7816BF8F01CFEA414140DE5DAE2223B00361A396177A9CB410FF61F20015AD";

fn addr(last: u8, port: u16) -> PeerAddr {
    PeerAddr { v6: false, ip: 0x7f00_0000 | last as u128, port, flowinfo: 0, scope_id: 0 }
}

fn block(id: &str, offset: usize, base64: &str, eof: Option<usize>) -> Content {
    Content { id: id.to_string(), offset, base64: base64.to_string(), eof }
}

fn request_offset(m: &Message) -> Option<(String, usize, usize)> {
    match m {
        Message::PleaseSendContent(r) => Some((r.id.clone(), r.offset, r.length)),
        _ => None,
    }
}

fn full_block_base64(byte: u8) -> String {
    let data = vec![byte; 4096];
    let req = PleaseSendContent { id: "x".to_string(), length: 4096, offset: 0 };
    match req.content_reply(&data, 4096) {
        Message::Content(c) => c.base64,
        _ => panic!("not content"),
    }
}

#[test]
fn fresh_download_asks_for_first_block() {
    let mut d = Downloads::new();
    d.start("abc", 5_000_000_000);
    assert_eq!(d.len(), 1);
    let s = d.get(0);
    assert_eq!(s.next_block(), 0);
    assert_eq!(s.eof(), 0x40000);
    assert_eq!(s.block_total(), 64);
    assert_eq!(s.bytes_complete(), 0);
    assert_eq!(s.last_activity(), 5_000_000_000 - 999_000_000_000);
    assert!(s.peers().is_empty());
}

#[test]
fn start_again_replaces_download() {
    let mut d = Downloads::new();
    d.start("abc", 10);
    d.start("def", 10);
    let c = block("abc", 0, "YWJj", Some(3));
    c.receive_content_with(&mut d, addr(1, 1), 20, 1).unwrap();
    d.start("abc", 30);
    assert_eq!(d.len(), 2);
    assert_eq!(d.get(0).id(), "abc");
    assert_eq!(d.get(0).bytes_complete(), 0);
    assert_eq!(d.get(0).eof(), 0x40000);
}

#[test]
fn unknown_content_is_dropped() {
    let mut d = Downloads::new();
    d.start("abc", 0);
    let c = block("other", 0, "not base64 at all", None);
    let r = c.receive_content_with(&mut d, addr(1, 1), 5, 1).unwrap();
    assert!(r.write.is_none());
    assert!(r.grow.is_none());
    assert!(r.replies.is_empty());
    assert!(!r.verify);
    assert_eq!(d.get(0).bytes_complete(), 0);
    assert!(d.get(0).peers().is_empty());
}

#[test]
fn whole_file_in_one_block_completes_and_checks_out() {
    let mut d = Downloads::new();
    d.start(ABC_ID, 0);
    let src = addr(9, 24254);
    let c = block(ABC_ID, 0, "YWJj", Some(3));
    let r = c.receive_content_with(&mut d, src, 100, 1).unwrap();
    assert_eq!(r.write, Some(b"abc".to_vec()));
    assert!(r.verify);
    assert!(r.replies.is_empty());
    let s = d.get(0);
    assert_eq!(s.eof(), 3);
    assert_eq!(s.block_total(), 1);
    assert!(s.has_block(0));
    assert_eq!(s.bytes_complete(), 3);
    assert_eq!(s.next_block(), 2);
    assert_eq!(s.peers(), &vec![src]);
    assert_eq!(s.last_activity(), 100);

    let done = d.conclude(&ABC_ID.to_string(), &b"abc".to_vec(), r.replies, 100);
    let hash: String = done.hash.iter().collect();
    assert_eq!(hash, ABC_ID.to_lowercase());
    assert_eq!(done.finished, Some(vec![src]));
    assert_eq!(d.len(), 0);
    assert!(done.replies.is_empty());
}

#[test]
fn failed_check_starts_over() {
    let mut d = Downloads::new();
    d.start(ABC_ID, 0);
    let c = block(ABC_ID, 0, "YWJk", Some(3));
    let r = c.receive_content_with(&mut d, addr(2, 2), 100, 1).unwrap();
    assert!(r.verify);
    let done = d.conclude(&ABC_ID.to_string(), &b"abd".to_vec(), r.replies, 200);
    assert!(done.finished.is_none());
    assert_eq!(d.len(), 1);
    let s = d.get(0);
    assert_eq!(s.bytes_complete(), 0);
    assert!(!s.has_block(0));
    assert_eq!(s.eof(), 3);
    assert_eq!(done.replies.len(), 1);
    assert_eq!(request_offset(&done.replies[0]), Some((ABC_ID.to_string(), 0, 4096)));
    assert_eq!(d.get(0).next_block(), 1);
}

#[test]
fn two_block_file_asks_for_the_second_block() {
    let mut d = Downloads::new();
    d.start("file", 0);
    let c = block("file", 0, &full_block_base64(7), Some(5000));
    let r = c.receive_content_with(&mut d, addr(3, 3), 10, 1).unwrap();
    assert_eq!(r.write.as_ref().map(|b| b.len()), Some(4096));
    assert!(!r.verify);
    assert_eq!(r.replies.len(), 1);
    assert_eq!(request_offset(&r.replies[0]), Some(("file".to_string(), 4096, 4096)));
    let s = d.get(0);
    assert_eq!(s.block_total(), 2);
    assert_eq!(s.bytes_complete(), 4096);
    assert_eq!(s.next_block(), 2);

    // the last, short block ends the file
    let tail = vec![1u8; 904];
    let req = PleaseSendContent { id: "file".to_string(), length: 4096, offset: 4096 };
    let m = req.content_reply(&tail, 5000);
    let c2 = match m {
        Message::Content(c) => c,
        _ => panic!("not content"),
    };
    assert_eq!(c2.eof, Some(5000));
    let r2 = c2.receive_content_with(&mut d, addr(3, 3), 20, 1).unwrap();
    assert_eq!(r2.write, Some(tail));
    assert!(r2.verify);
    assert_eq!(d.get(0).bytes_complete(), 5000);
}

#[test]
fn duplicate_block_is_not_counted_twice() {
    let mut d = Downloads::new();
    d.start("file", 0);
    let c = block("file", 0, &full_block_base64(7), Some(8192));
    c.receive_content_with(&mut d, addr(3, 3), 10, 1).unwrap();
    let again = c.receive_content_with(&mut d, addr(4, 4), 11, 1).unwrap();
    assert!(again.write.is_none());
    assert!(again.replies.is_empty());
    assert!(!again.verify);
    assert_eq!(d.get(0).bytes_complete(), 4096);
    assert_eq!(d.get(0).peers().len(), 2);
}

#[test]
fn short_block_inside_the_file_is_written_but_not_counted() {
    let mut d = Downloads::new();
    d.start("file", 0);
    let c = block("file", 0, "YWJj", Some(8192));
    let r = c.receive_content_with(&mut d, addr(3, 3), 10, 1).unwrap();
    assert_eq!(r.write, Some(b"abc".to_vec()));
    assert_eq!(d.get(0).bytes_complete(), 0);
    assert!(!d.get(0).has_block(0));
    // asks for block 0 again, as it is not in
    assert_eq!(request_offset(&r.replies[0]), Some(("file".to_string(), 0, 4096)));
}

#[test]
fn block_without_length_tells_one_past_its_end() {
    let mut d = Downloads::new();
    d.start("file", 0);
    let c = block("file", 4096, "YWJj", None);
    c.receive_content_with(&mut d, addr(3, 3), 10, 1).unwrap();
    assert_eq!(d.get(0).eof(), 4096 + 3 + 1);
    assert_eq!(d.get(0).block_total(), 2);
}

#[test]
fn bad_base64_is_refused() {
    let mut d = Downloads::new();
    d.start("file", 0);
    let c = block("file", 0, "%%%", None);
    assert_eq!(c.receive_content_with(&mut d, addr(3, 3), 10, 1).err(), Some(ContentError::BadBase64));
    assert!(d.get(0).peers().is_empty());
}

#[test]
fn block_past_the_end_is_refused() {
    let mut d = Downloads::new();
    d.start("file", 0);
    let c = block("file", 8192, "YWJj", Some(100));
    assert_eq!(
        c.receive_content_with(&mut d, addr(3, 3), 10, 1).err(),
        Some(ContentError::BlockOutOfRange)
    );
    assert_eq!(d.get(0).eof(), 0x40000);
}

#[test]
fn overflowing_length_is_refused() {
    let mut d = Downloads::new();
    d.start("file", 0);
    let c = block("file", usize::MAX - 2, "YWJj", None);
    assert_eq!(c.receive_content_with(&mut d, addr(3, 3), 10, 1).err(), Some(ContentError::Overflow));
    let c2 = block("file", 0, "YWJj", Some(usize::MAX - 10));
    assert_eq!(c2.receive_content_with(&mut d, addr(3, 3), 10, 1).err(), Some(ContentError::Overflow));
}

#[test]
fn window_grows_on_a_lucky_roll() {
    let mut d = Downloads::new();
    d.start("first", 0);
    d.start("second", 0);
    let c = block("second", 0, &full_block_base64(1), Some(3 * 4096));
    let r = c.receive_content_with(&mut d, addr(5, 5), 10, 0).unwrap();
    let grow = r.grow.expect("a roll of zero grows the window");
    assert_eq!(grow.len(), 1);
    assert_eq!(request_offset(&grow[0]), Some(("first".to_string(), 0, 4096)));
    assert_eq!(d.get(0).next_block(), 1);
    assert_eq!(request_offset(&r.replies[0]), Some(("second".to_string(), 4096, 4096)));
}

#[test]
fn path_ids_are_not_served() {
    let mut d = Downloads::new();
    d.start("a/b", 0);
    for id in ["a/b", "..\\x", "/etc/passwd"] {
        let req = PleaseSendContent { id: id.to_string(), length: 10, offset: 0 };
        assert!(matches!(req.send_content_with(&mut d, addr(1, 1), 0), ServePlan::Nothing));
    }
    assert!(d.get(0).peers().is_empty());
}

#[test]
fn served_length_is_capped() {
    let mut d = Downloads::new();
    let req = PleaseSendContent { id: "f".to_string(), length: 1 << 20, offset: 0 };
    match req.send_content_with(&mut d, addr(1, 1), 5) {
        ServePlan::FromDisk { offer_peers, length } => {
            assert!(offer_peers);
            assert_eq!(length, 0xa000);
        }
        _ => panic!("should be served from disk"),
    }
    let req2 = PleaseSendContent { id: "f".to_string(), length: 100, offset: 4096 };
    match req2.send_content_with(&mut d, addr(1, 1), 5) {
        ServePlan::FromDisk { offer_peers, length } => {
            assert!(!offer_peers);
            assert_eq!(length, 100);
        }
        _ => panic!("should be served from disk"),
    }
}

#[test]
fn downloading_file_offers_peers_instead() {
    let mut d = Downloads::new();
    d.start("f", 0);
    let req = PleaseSendContent { id: "f".to_string(), length: 100, offset: 0 };
    match req.send_content_with(&mut d, addr(7, 7), 5) {
        ServePlan::Replies(r) => {
            assert_eq!(r.len(), 1);
            match &r[0] {
                Message::MaybeTheyHaveSome(m) => {
                    assert_eq!(m.id, "f");
                    assert_eq!(m.peers, vec![addr(7, 7)]);
                }
                _ => panic!("expected peers"),
            }
        }
        _ => panic!("expected replies"),
    }
    let req2 = PleaseSendContent { id: "f".to_string(), length: 100, offset: 4096 };
    match req2.send_content_with(&mut d, addr(8, 8), 36) {
        ServePlan::Replies(r) => assert!(r.is_empty()),
        _ => panic!("expected replies"),
    }
    assert_eq!(d.get(0).peers(), &vec![addr(7, 7), addr(8, 8)]);
}

#[test]
fn content_reply_encodes_in_base64() {
    let req = PleaseSendContent { id: "f".to_string(), length: 100, offset: 8 };
    match req.content_reply(b"hello world", 99) {
        Message::Content(c) => {
            assert_eq!(c.base64, "aGVsbG8gd29ybGQ=");
            assert_eq!(c.offset, 8);
            assert_eq!(c.eof, Some(99));
            assert_eq!(base64_decode(&c.base64), Some(b"hello world".to_vec()));
        }
        _ => panic!("not content"),
    }
}

#[test]
fn suggestions_join_the_download_once() {
    let mut d = Downloads::new();
    d.start("f", 0);
    let m = MaybeTheyHaveSome { id: "f".to_string(), peers: vec![addr(1, 1), addr(2, 2), addr(1, 1)] };
    assert!(m.add_content_peer_suggestions(&mut d).is_empty());
    assert_eq!(d.get(0).peers(), &vec![addr(1, 1), addr(2, 2)]);
    let other = MaybeTheyHaveSome { id: "g".to_string(), peers: vec![addr(3, 3)] };
    other.add_content_peer_suggestions(&mut d);
    assert_eq!(d.get(0).peers().len(), 2);
}

#[test]
fn upkeep_restarts_stalled_downloads_and_resumes_the_first() {
    let mut d = Downloads::new();
    d.start("f", 0);
    let c = block("f", 0, &full_block_base64(1), Some(3 * 4096));
    c.receive_content_with(&mut d, addr(5, 5), 10, 1).unwrap();
    assert_eq!(d.get(0).next_block(), 2);
    let m = d.maintain(10 + 2_000_000_000).expect("one download");
    assert_eq!(m.resume_peers, vec![addr(5, 5)]);
    assert_eq!(m.resume.len(), 1);
    assert_eq!(request_offset(&m.resume[0]), Some(("f".to_string(), 4096, 4096)));
    assert_eq!(request_offset(&m.search[0]), Some(("f".to_string(), 4096, 4096)));
    assert_eq!(d.get(0).next_block(), 1);
    assert_eq!(d.get(0).last_activity(), 10 + 2_000_000_000);

    // active within the second: no restart, no resume
    let m2 = d.maintain(10 + 2_500_000_000).expect("one download");
    assert!(m2.resume.is_empty());
    assert_eq!(m2.search.len(), 1);
    assert_eq!(d.get(0).next_block(), 1);
}

#[test]
fn upkeep_without_downloads_does_nothing() {
    let mut d = Downloads::new();
    assert!(d.maintain(0).is_none());
}

#[test]
fn complete_download_requests_nothing_more() {
    let mut d = Downloads::new();
    d.start("f", 0);
    let c = block("f", 0, "YWJj", Some(3));
    let r = c.receive_content_with(&mut d, addr(5, 5), 10, 1).unwrap();
    assert!(r.verify);
    let m = d.maintain(10).expect("one download");
    assert!(m.resume.is_empty());
    assert!(m.search.is_empty());
}
