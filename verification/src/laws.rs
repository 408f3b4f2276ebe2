//! Properties of the node that hold across its operations.

use crate::blocks::blocks_for;
use crate::blocks::elapsed;
use crate::blocks::past_end;
use crate::codec::hex_lower;
use crate::codec::lowercase;
use crate::codec::sha256_digest;
use crate::codec::base64_decoding;
use crate::download::block_error;
use crate::download::claimed_eof;
use crate::download::concluded;
use crate::download::decoded_bytes;
use crate::download::accepted;
use crate::download::advance_first_open;
use crate::download::counts;
use crate::download::downloads_wf;
use crate::download::lemma_first_open;
use crate::download::maintained;
use crate::download::top_up;
use crate::download::with_peers;
use crate::download::ContentError;
use crate::download::index_of;
use crate::download::lemma_index_of;
use crate::download::next_gap;
use crate::download::receive_error;
use crate::download::received;
use crate::download::request_out;
use crate::download::restarted;
use crate::download::serve_plan;
use crate::download::with_eof;
use crate::download::InboundView;
use crate::download::ServeView;
use crate::message::block_request;
use crate::message::Content;
use crate::message::MessageView;
use crate::message::PeerAddr;
use crate::message::PleaseSendContent;
use crate::peers::lemma_table_lookup;
use crate::peers::merged;
use crate::peers::picked;
use crate::peers::saved_form;
use crate::peers::saved_part;
use crate::peers::SAVED_AGE;
use crate::peers::table_of;
use crate::peers::unique_keys;
use crate::peers::suggested;
use crate::peers::PeerInfo;
use vstd::prelude::*;

verus! {

/// A request for a content id that holds `/` or `\` is not answered, and
/// changes no download.
pub proof fn law_path_ids_ignored(d: Seq<InboundView>, req: PleaseSendContent, src: PeerAddr, roll: u32)
    requires
        req.id@.contains('/') || req.id@.contains('\\'),
    ensures
        serve_plan(d, req, src, roll) == (d, ServeView::Nothing),
{
}

/// A file on disk is never served more than `0xa000` bytes at a time.
pub proof fn law_served_length_bounded(d: Seq<InboundView>, req: PleaseSendContent, src: PeerAddr, roll: u32)
    ensures
        serve_plan(d, req, src, roll).1 matches ServeView::FromDisk { length, .. } ==> length <= 0xa000,
{
}

/// A file being downloaded is not served from disk, though it may be there.
pub proof fn law_downloading_not_served(d: Seq<InboundView>, req: PleaseSendContent, src: PeerAddr, roll: u32)
    requires
        index_of(d, req.id@) >= 0,
    ensures
        !(serve_plan(d, req, src, roll).1 is FromDisk),
{
}

/// A download asks only for a block that is not in yet and starts before the
/// end of the file, and every block it skips on the way is in.
pub proof fn law_request_targets_missing_block(v: InboundView)
    requires
        v.wf(),
        request_out(v).len() > 0,
    ensures
        ({
            let g = next_gap(v.bits, v.next_block as int);
            &&& request_out(v) == seq![block_request(v.id, g as nat)]
            &&& v.next_block <= g < v.bits.len()
            &&& !v.bits[g]
            &&& !past_end(g as nat, v.eof)
            &&& forall|k: int| v.next_block <= k < g ==> v.bits[k]
        }),
{
    crate::download::lemma_next_gap(v.bits, v.next_block as int);
    crate::blocks::lemma_past_end(next_gap(v.bits, v.next_block as int) as nat, v.eof);
}

/// A block of a file not being downloaded is dropped: nothing is written,
/// nothing is sent, and no download changes.
pub proof fn law_unknown_content_dropped(
    d: Seq<InboundView>,
    c: Content,
    src: PeerAddr,
    now: int,
    roll: u32,
    bytes: Seq<u8>,
)
    requires
        index_of(d, c.id@) < 0,
    ensures
        received(d, c, src, now, roll, bytes).downloads == d,
        received(d, c, src, now, roll, bytes).write is None,
        received(d, c, src, now, roll, bytes).grow is None,
        received(d, c, src, now, roll, bytes).replies.len() == 0,
{
}

/// A block that is in already is not written again, not counted again and not
/// answered; the download only notes the sender and the file length.
pub proof fn law_duplicate_block_ignored(
    d: Seq<InboundView>,
    c: Content,
    src: PeerAddr,
    now: int,
    roll: u32,
    bytes: Seq<u8>,
)
    requires
        downloads_wf(d),
        index_of(d, c.id@) >= 0,
        with_eof(d[index_of(d, c.id@)], claimed_eof(c, bytes.len()) as nat).bits[(c.offset as nat
            / 4096) as int],
    ensures
        ({
            let i = index_of(d, c.id@);
            let r = received(d, c, src, now, roll, bytes);
            &&& r.write is None
            &&& r.replies.len() == 0
            &&& r.grow is None
            &&& !r.verify
            &&& r.downloads.len() == d.len()
            &&& r.downloads[i].bytes_complete == d[i].bytes_complete
            &&& r.downloads[i].next_block == d[i].next_block
            &&& r.downloads[i].bits == with_eof(d[i], claimed_eof(c, bytes.len()) as nat).bits
            &&& forall|k: int| 0 <= k < d.len() && k != i ==> r.downloads[k] == d[k]
        }),
{
    lemma_index_of(d, c.id@, 0);
}

/// The bytes written for a new block are those its base64 stands for; the
/// block is then in, and it counts toward completion when it is a full block or
/// ends the file.
pub proof fn law_received_bytes_written(
    d: Seq<InboundView>,
    c: Content,
    src: PeerAddr,
    now: int,
    roll: u32,
    data: Seq<u8>,
)
    requires
        downloads_wf(d),
        index_of(d, c.id@) >= 0,
        base64_decoding(c.base64@) == Some(data),
        block_error(d[index_of(d, c.id@)], c, data.len()) is None,
        !with_eof(d[index_of(d, c.id@)], claimed_eof(c, data.len()) as nat).bits[(c.offset as nat
            / 4096) as int],
    ensures
        received(d, c, src, now, roll, decoded_bytes(c)).write == Some(data),
{
}

/// A download ends only when the lower-case hex of the SHA-256 digest of its
/// file is its lower-case content id; and when it is, the download ends.
pub proof fn law_finish_iff_digest_matches(
    d: Seq<InboundView>,
    id: Seq<char>,
    file: Seq<u8>,
    out: Seq<MessageView>,
    now: int,
)
    requires
        downloads_wf(d),
        index_of(d, id) >= 0,
    ensures
        concluded(d, id, file, out, now).2 is Some <==> hex_lower(sha256_digest(file)) == lowercase(id),
        hex_lower(sha256_digest(file)) == lowercase(id) ==> concluded(d, id, file, out, now).2 == Some(
            d[index_of(d, id)].peers,
        ) && index_of(d.remove(index_of(d, id)), id) < 0,
{
    lemma_index_of(d, id, 0);
    let i = index_of(d, id);
    let d2 = d.remove(i);
    assert forall|j: int| 0 <= j < d2.len() implies d2[j].id != id by {
        let j2 = if j < i { j } else { j + 1 };
        assert(d2[j] == d[j2]);
    }
    lemma_index_of(d2, id, 0);
}

/// A file that fails its check is downloaded again from the start: every block
/// is marked missing and the count and the next block go back to zero, the
/// length as known kept.
pub proof fn law_failed_check_restarts(v: InboundView)
    requires
        v.wf(),
    ensures
        restarted(v).wf(),
        restarted(v).eof == v.eof,
        restarted(v).bits.len() == v.bits.len(),
        forall|k: int| 0 <= k < v.bits.len() ==> !restarted(v).bits[k],
        restarted(v).next_block == 0,
        restarted(v).bytes_complete == 0,
{
}

/// Suggested peers never change what is known of a peer already known; the
/// table afterwards knows exactly the peers known before and those suggested.
pub proof fn law_suggestions_keep_known_peers(t: Map<PeerAddr, PeerInfo>, peers: Seq<PeerAddr>, now: i64)
    ensures
        forall|a: PeerAddr| t.contains_key(a) ==> #[trigger] suggested(t, peers, now).contains_key(a)
            && suggested(t, peers, now)[a] == t[a],
        forall|a: PeerAddr|
            #[trigger] suggested(t, peers, now).contains_key(a) <==> t.contains_key(a) || peers.contains(a),
    decreases peers.len(),
{
    if peers.len() > 0 {
        let rest = peers.drop_last();
        let p = peers.last();
        law_suggestions_keep_known_peers(t, rest, now);
        let t1 = suggested(t, rest, now);
        assert forall|a: PeerAddr| t.contains_key(a) implies #[trigger] suggested(t, peers, now).contains_key(a)
            && suggested(t, peers, now)[a] == t[a] by {
            assert(suggested(t, rest, now).contains_key(a));
            assert(t1[a] == t[a]);
        }
        assert forall|a: PeerAddr| #[trigger] suggested(t, peers, now).contains_key(a) <==> t.contains_key(a)
            || peers.contains(a) by {
            assert(t1.contains_key(a) <==> t.contains_key(a) || rest.contains(a));
            if rest.contains(a) {
                let k = choose|k: int| 0 <= k < rest.len() && rest[k] == a;
                assert(peers[k] == a);
            }
            if a == p {
                assert(peers[peers.len() - 1] == a);
            }
            if peers.contains(a) && a != p {
                let k = choose|k: int| 0 <= k < peers.len() && peers[k] == a;
                assert(k != peers.len() - 1);
                assert(rest[k] == a);
            }
        }
    }
}

/// The peers handed out are distinct addresses from the ranking.
pub proof fn law_picked_from_ranking(ranked: Seq<(PeerAddr, PeerInfo)>, picks: Seq<usize>)
    ensures
        picked(ranked, picks).no_duplicates(),
        forall|k: int| 0 <= k < picked(ranked, picks).len() ==> exists|j: int|
            0 <= j < ranked.len() && ranked[j].0 == #[trigger] picked(ranked, picks)[k],
    decreases picks.len(),
{
    if picks.len() > 0 {
        law_picked_from_ranking(ranked, picks.drop_last());
        let acc = picked(ranked, picks.drop_last());
        if picks.last() < ranked.len() {
            crate::download::lemma_with_peer_unique(acc, ranked[picks.last() as int].0);
            let p = picked(ranked, picks);
            assert forall|k: int| 0 <= k < p.len() implies exists|j: int|
                0 <= j < ranked.len() && ranked[j].0 == #[trigger] p[k] by {
                if k < acc.len() {
                    assert(p[k] == acc[k]);
                } else {
                    assert(ranked[picks.last() as int].0 == p[k]);
                }
            }
        }
    }
}


/// A ranking made of the peer table lists each known peer exactly once, with
/// what is known of it.
pub proof fn law_ranking_lists_table(entries: Seq<(PeerAddr, PeerInfo)>, ranked: Seq<(PeerAddr, PeerInfo)>)
    requires
        unique_keys(entries),
        ranked.to_multiset() == entries.to_multiset(),
    ensures
        ranked.len() == entries.len(),
        unique_keys(ranked),
        forall|k: int|
            0 <= k < ranked.len() ==> table_of(entries).contains_key(#[trigger] ranked[k].0)
                && table_of(entries)[ranked[k].0] == ranked[k].1,
        forall|j: int| 0 <= j < entries.len() ==> ranked.contains(#[trigger] entries[j]),
{
    broadcast use vstd::seq_lib::to_multiset_len, vstd::seq_lib::to_multiset_contains;

    assert(entries.no_duplicates()) by {
        assert forall|i: int, j: int| 0 <= i < entries.len() && 0 <= j < entries.len() && i != j implies entries[i]
            != entries[j] by {
            assert(entries[i].0 != entries[j].0);
        }
    }
    entries.lemma_multiset_has_no_duplicates();
    ranked.lemma_multiset_has_no_duplicates_conv();
    assert(ranked.len() == ranked.to_multiset().len());
    assert(entries.len() == entries.to_multiset().len());
    assert forall|k: int| 0 <= k < ranked.len() implies exists|j: int|
        0 <= j < entries.len() && entries[j] == #[trigger] ranked[k] by {
        assert(ranked.contains(ranked[k]));
        assert(ranked.to_multiset().count(ranked[k]) > 0);
        assert(entries.to_multiset().count(ranked[k]) > 0);
        assert(entries.contains(ranked[k]));
    }
    assert forall|k: int| 0 <= k < ranked.len() implies table_of(entries).contains_key(#[trigger] ranked[k].0)
        && table_of(entries)[ranked[k].0] == ranked[k].1 by {
        let j = choose|j: int| 0 <= j < entries.len() && entries[j] == ranked[k];
        lemma_table_lookup(entries, j);
    }
    assert forall|a: int, b: int| 0 <= a < ranked.len() && 0 <= b < ranked.len() && a != b implies #[trigger] ranked[a].0
        != #[trigger] ranked[b].0 by {
        let ja = choose|j: int| 0 <= j < entries.len() && entries[j] == ranked[a];
        let jb = choose|j: int| 0 <= j < entries.len() && entries[j] == ranked[b];
        if ranked[a].0 == ranked[b].0 {
            assert(ja == jb);
            assert(ranked[a] == ranked[b]);
        }
    }
    assert forall|j: int| 0 <= j < entries.len() implies ranked.contains(#[trigger] entries[j]) by {
        assert(entries.contains(entries[j]));
        assert(entries.to_multiset().count(entries[j]) > 0);
    }
}


proof fn lemma_merged_unique(s: Seq<(PeerAddr, PeerInfo)>, now: i64)
    requires
        unique_keys(s),
    ensures
        forall|a: PeerAddr|
            #[trigger] merged(Map::empty(), saved_form(s), now).contains_key(a) <==> exists|k: int|
                0 <= k < s.len() && s[k].0 == a,
        forall|k: int|
            0 <= k < s.len() ==> #[trigger] merged(Map::empty(), saved_form(s), now)[s[k].0] == (PeerInfo {
                when_last_seen: (now - SAVED_AGE) as i64,
                delay: s[k].1.delay,
            }),
    decreases s.len(),
{
    if s.len() > 0 {
        let r = s.drop_last();
        assert(saved_form(s).drop_last() =~= saved_form(r));
        assert(unique_keys(r)) by {
            assert forall|i: int, j: int| 0 <= i < r.len() && 0 <= j < r.len() && i != j implies #[trigger] r[i].0
                != #[trigger] r[j].0 by {
                assert(r[i] == s[i] && r[j] == s[j]);
            }
        }
        lemma_merged_unique(r, now);
        let t = merged(Map::empty(), saved_form(s), now);
        let tr = merged(Map::empty(), saved_form(r), now);
        let last = s[s.len() - 1];
        assert(saved_form(s).last() == (last.0, last.1.delay));
        assert(t == tr.insert(last.0, PeerInfo { when_last_seen: (now - SAVED_AGE) as i64, delay: last.1.delay }));
        assert forall|a: PeerAddr| #[trigger] t.contains_key(a) <==> exists|k: int| 0 <= k < s.len() && s[k].0 == a by {
            if tr.contains_key(a) {
                let k = choose|k: int| 0 <= k < r.len() && r[k].0 == a;
                assert(s[k].0 == a);
            }
            if exists|k: int| 0 <= k < s.len() && s[k].0 == a {
                let k = choose|k: int| 0 <= k < s.len() && s[k].0 == a;
                if k < s.len() - 1 {
                    assert(r[k].0 == a);
                }
            }
        }
        assert forall|k: int| 0 <= k < s.len() implies #[trigger] t[s[k].0] == (PeerInfo {
            when_last_seen: (now - SAVED_AGE) as i64,
            delay: s[k].1.delay,
        }) by {
            if k < s.len() - 1 {
                assert(r[k] == s[k]);
                assert(s[k].0 != last.0);
            }
        }
    }
}

/// Saving the peer list and reading it back into an empty table gives back the
/// first `SAVED_PEERS` ranked addresses, each with its round trip, as long
/// unseen, when the ranking holds each address once (as a sort leaves it).
pub proof fn law_saved_peers_load_back(ranked: Seq<(PeerAddr, PeerInfo)>, now: i64)
    requires
        unique_keys(ranked),
    ensures
        ({
            let list = saved_part(ranked);
            let t = merged(Map::empty(), saved_form(list), now);
            &&& list.len() <= 99
            &&& forall|a: PeerAddr| #[trigger] t.contains_key(a) <==> exists|k: int|
                0 <= k < list.len() && list[k].0 == a
            &&& forall|k: int|
                0 <= k < list.len() ==> #[trigger] t[list[k].0] == (PeerInfo {
                    when_last_seen: (now - SAVED_AGE) as i64,
                    delay: list[k].1.delay,
                })
        }),
{
    let list = saved_part(ranked);
    assert(unique_keys(list)) by {
        assert forall|i: int, j: int| 0 <= i < list.len() && 0 <= j < list.len() && i != j implies #[trigger] list[i].0
            != #[trigger] list[j].0 by {
            assert(list[i] == ranked[i] && list[j] == ranked[j]);
        }
    }
    lemma_merged_unique(list, now);
}


/// Whether `a` and `b` hold the same downloads in the same places, each with
/// the same content id, file length, bits, count and peers; only the next block
/// to ask for and the time of the last activity may differ.
pub open spec fn same_files(a: Seq<InboundView>, b: Seq<InboundView>) -> bool {
    &&& a.len() == b.len()
    &&& forall|k: int|
        0 <= k < a.len() ==> {
            &&& #[trigger] a[k].id == b[k].id
            &&& a[k].eof == b[k].eof
            &&& a[k].bits == b[k].bits
            &&& a[k].bytes_complete == b[k].bytes_complete
            &&& a[k].peers == b[k].peers
        }
}

/// Whether `a` is the download `b` with the same content id, file length,
/// bits, count and peers.
pub open spec fn file_kept(a: InboundView, b: InboundView) -> bool {
    &&& a.id == b.id
    &&& a.eof == b.eof
    &&& a.bits == b.bits
    &&& a.bytes_complete == b.bytes_complete
    &&& a.peers == b.peers
}

proof fn lemma_top_up_same_files(d: Seq<InboundView>, out: Seq<MessageView>, now: int)
    ensures
        same_files(top_up(d, out, now).0, d),
        same_files(advance_first_open(d, now).0, d),
{
    lemma_first_open(d, 0);
}

/// A block that tells a file length takes it on: the download's length becomes
/// the told one, with one bit per block of it, whether it grew or shrank; the
/// bits of the blocks in both keep their value and new blocks are missing.
pub proof fn law_length_taken_on(v: InboundView, e: nat)
    requires
        v.wf(),
    ensures
        with_eof(v, e).eof == e,
        with_eof(v, e).bits.len() == blocks_for(e),
        forall|k: int| 0 <= k < v.bits.len() && k < blocks_for(e) ==> #[trigger] with_eof(v, e).bits[k] == v.bits[k],
        forall|k: int| v.bits.len() <= k < blocks_for(e) ==> !#[trigger] with_eof(v, e).bits[k],
        with_eof(v, e).id == v.id,
        with_eof(v, e).bytes_complete == v.bytes_complete,
{
}

/// A block inside the file length it tells is never refused as out of range,
/// whatever length was known before.
pub proof fn law_block_in_range_not_refused(v: InboundView, c: Content, len: nat)
    requires
        v.wf(),
        c.offset as nat / 4096 < blocks_for(claimed_eof(c, len) as nat),
    ensures
        block_error(v, c, len) != Some(ContentError::BlockOutOfRange),
{
}

/// Taking a block that meets no error leaves its download with the file length
/// the block told and one bit per block of it; a new block that counts is then
/// in, its bytes added to the count, and its bytes are written. No other
/// download changes its id, length, bits, count or peers.
pub proof fn law_receive_takes_length(
    d: Seq<InboundView>,
    c: Content,
    src: PeerAddr,
    now: int,
    roll: u32,
    bytes: Seq<u8>,
)
    requires
        downloads_wf(d),
        index_of(d, c.id@) >= 0,
        receive_error(d, c, Some(bytes)) is None,
    ensures
        ({
            let i = index_of(d, c.id@);
            let e = claimed_eof(c, bytes.len()) as nat;
            let block = c.offset as nat / 4096;
            let r = received(d, c, src, now, roll, bytes);
            &&& r.downloads.len() == d.len()
            &&& r.downloads[i].id == d[i].id
            &&& r.downloads[i].eof == e
            &&& r.downloads[i].bits.len() == blocks_for(e)
            &&& block < blocks_for(e)
            &&& r.downloads[i].peers.contains(src)
            &&& (!with_eof(d[i], e).bits[block as int] ==> r.write == Some(bytes))
            &&& (!with_eof(d[i], e).bits[block as int] && counts(bytes.len(), block, e) ==> r.downloads[i].bits[block as int]
                && r.downloads[i].bytes_complete == d[i].bytes_complete + bytes.len())
            &&& forall|k: int| 0 <= k < d.len() && k != i ==> file_kept(#[trigger] r.downloads[k], d[k])
        }),
{
    lemma_index_of(d, c.id@, 0);
    let i = index_of(d, c.id@);
    let e = claimed_eof(c, bytes.len()) as nat;
    let block = c.offset as nat / 4096;
    assert(d[i].wf());
    let v2 = with_eof(
        InboundView { peers: crate::download::with_peer(d[i].peers, src), last_activity: now, ..d[i] },
        e,
    );
    assert(v2.peers.contains(src)) by {
        if !d[i].peers.contains(src) {
            assert(v2.peers[d[i].peers.len() as int] == src);
        }
    }
    assert(v2.bits == with_eof(d[i], e).bits);
    assert(v2.eof == e);
    assert(v2.bits.len() == blocks_for(e));
    assert(block < blocks_for(e));
    if !v2.bits[block as int] {
        let v3 = if counts(bytes.len(), block, e) {
            InboundView {
                bytes_complete: v2.bytes_complete + bytes.len(),
                bits: v2.bits.update(block as int, true),
                ..v2
            }
        } else {
            v2
        };
        let d4 = d.update(i, crate::download::advanced(v3, now));
        let d5 = if roll % 101 == 0 { advance_first_open(d4, now).0 } else { d4 };
        lemma_top_up_same_files(d4, seq![], now);
        lemma_top_up_same_files(d5, crate::download::request_out(v3), now);
        assert(same_files(d5, d4));
        let r = received(d, c, src, now, roll, bytes);
        assert(r == accepted(d, i, src, now, roll, e, block, bytes));
        assert(same_files(r.downloads, d4));
        assert(d4[i].eof == e);
        assert(r.downloads[i].id == d4[i].id);
        assert(r.downloads[i].eof == d4[i].eof);
        assert(r.downloads[i].bits == d4[i].bits);
        assert(r.downloads[i].peers == d4[i].peers);
        assert(r.downloads[i].bytes_complete == d4[i].bytes_complete);
        assert(r.write == Some(bytes));
        assert forall|k: int| 0 <= k < d.len() && k != i implies file_kept(#[trigger] r.downloads[k], d[k]) by {
            assert(r.downloads[k].id == d4[k].id);
            assert(d4[k] == d[k]);
        }
    } else {
        let r = received(d, c, src, now, roll, bytes);
        assert(r.downloads == d.update(i, v2));
        assert forall|k: int| 0 <= k < d.len() && k != i implies file_kept(#[trigger] r.downloads[k], d[k]) by {
            assert(r.downloads[k] == d[k]);
        }
    }
}

/// Checking a file whose digest matches ends exactly its own download: one
/// download fewer, none of its id left, and every download of another id still
/// there, with its file. A file that does not match stays, every block missing
/// and nothing counted.
pub proof fn law_conclude_removes_only_its_download(
    d: Seq<InboundView>,
    id: Seq<char>,
    file: Seq<u8>,
    out: Seq<MessageView>,
    now: int,
)
    requires
        downloads_wf(d),
        index_of(d, id) >= 0,
    ensures
        ({
            let r = concluded(d, id, file, out, now).0;
            &&& hex_lower(sha256_digest(file)) == lowercase(id) ==> {
                &&& r.len() == d.len() - 1
                &&& index_of(r, id) < 0
                &&& forall|j: int| 0 <= j < d.len() && d[j].id != id ==> exists|k: int|
                    0 <= k < r.len() && #[trigger] r[k].id == d[j].id && r[k].bits == d[j].bits
                        && r[k].eof == d[j].eof
            }
            &&& hex_lower(sha256_digest(file)) != lowercase(id) ==> {
                &&& r.len() == d.len()
                &&& r[index_of(d, id)].id == id
                &&& r[index_of(d, id)].bytes_complete == 0
                &&& r[index_of(d, id)].eof == d[index_of(d, id)].eof
                &&& r[index_of(d, id)].bits.len() == d[index_of(d, id)].bits.len()
                &&& forall|k: int| 0 <= k < d[index_of(d, id)].bits.len() ==> !#[trigger] r[index_of(d, id)].bits[k]
                &&& forall|j: int| 0 <= j < d.len() ==> #[trigger] r[j].id == d[j].id
            }
        }),
{
    lemma_index_of(d, id, 0);
    let i = index_of(d, id);
    if hex_lower(sha256_digest(file)) == lowercase(id) {
        let d1 = d.remove(i);
        lemma_top_up_same_files(d1, out, now);
        let r = top_up(d1, out, now).0;
        assert forall|k: int| 0 <= k < r.len() implies r[k].id != id by {
            let k2 = if k < i { k } else { k + 1 };
            assert(d1[k] == d[k2]);
            assert(r[k].id == d1[k].id);
        }
        lemma_index_of(r, id, 0);
        assert(concluded(d, id, file, out, now).0 == r);
        assert forall|j: int| 0 <= j < d.len() && d[j].id != id implies exists|k: int|
            0 <= k < r.len() && #[trigger] r[k].id == d[j].id && r[k].bits == d[j].bits && r[k].eof == d[j].eof by {
            let k = if j < i { j } else { j - 1 };
            assert(j != i);
            assert(d1[k] == d[j]);
            assert(r[k].id == d1[k].id);
        }
    } else {
        let d1 = d.update(i, crate::download::restarted(d[i]));
        lemma_top_up_same_files(d1, out, now);
        let r = top_up(d1, out, now).0;
        assert(concluded(d, id, file, out, now).0 == r);
        assert(r[i].id == d1[i].id);
        assert(r[i].bits == d1[i].bits);
        assert forall|j: int| 0 <= j < d.len() implies #[trigger] r[j].id == d[j].id by {
            assert(r[j].id == d1[j].id);
        }
    }
}

/// The upkeep sends every download but the first back to its first block when
/// it has been idle more than a second and is not there already, and leaves it
/// as it was otherwise; the first download keeps its file and count.
pub proof fn law_upkeep_restarts_every_stalled_download(d: Seq<InboundView>, now: int)
    ensures
        ({
            let r = maintained(d, now).0;
            &&& r.len() == d.len()
            &&& forall|k: int|
                1 <= k < d.len() ==> (if elapsed(now, d[k].last_activity) > 1_000_000_000 && d[k].next_block != 0 {
                    #[trigger] r[k] == InboundView { next_block: 0, ..d[k] }
                } else {
                    r[k] == d[k]
                })
            &&& d.len() > 0 ==> r[0].id == d[0].id && r[0].bits == d[0].bits && r[0].eof == d[0].eof
                && r[0].bytes_complete == d[0].bytes_complete
        }),
{
}

/// A file on disk is served the length asked for, up to `0xa000` bytes.
pub proof fn law_served_length_is_asked_length(d: Seq<InboundView>, req: PleaseSendContent, src: PeerAddr, roll: u32)
    ensures
        serve_plan(d, req, src, roll).1 matches ServeView::FromDisk { length, .. } ==> {
            &&& length <= req.length
            &&& length <= 0xa000
            &&& (length == req.length || (req.length > 0xa000 && length == 0xa000))
        },
{
}

/// Suggested peers are added after those known, none dropped and none twice:
/// the known peers stay first, in order, and a peer is there afterwards exactly
/// when it was known or suggested.
pub proof fn law_suggested_peers_added(peers: Seq<PeerAddr>, more: Seq<PeerAddr>)
    ensures
        with_peers(peers, more).len() >= peers.len(),
        with_peers(peers, more).take(peers.len() as int) == peers,
        forall|p: PeerAddr| #[trigger] with_peers(peers, more).contains(p) <==> peers.contains(p) || more.contains(p),
        peers.no_duplicates() ==> with_peers(peers, more).no_duplicates(),
    decreases more.len(),
{
    if more.len() > 0 {
        let rest = more.drop_last();
        let q = more.last();
        law_suggested_peers_added(peers, rest);
        let w = with_peers(peers, rest);
        if peers.no_duplicates() {
            crate::download::lemma_with_peer_unique(w, q);
        }
        if !w.contains(q) {
            assert(w.push(q).take(peers.len() as int) =~= w.take(peers.len() as int));
        }
        assert forall|p: PeerAddr| #[trigger] with_peers(peers, more).contains(p) <==> peers.contains(p)
            || more.contains(p) by {
            if !w.contains(q) {
                if w.push(q).contains(p) && p != q {
                    let k = choose|k: int| 0 <= k < w.push(q).len() && w.push(q)[k] == p;
                    assert(w[k] == p);
                }
                if w.contains(p) {
                    let k = choose|k: int| 0 <= k < w.len() && w[k] == p;
                    assert(w.push(q)[k] == p);
                }
                assert(w.push(q)[w.len() as int] == q);
            }
            if rest.contains(p) {
                let k = choose|k: int| 0 <= k < rest.len() && rest[k] == p;
                assert(more[k] == p);
            }
            if p == q {
                assert(more[more.len() - 1] == p);
            }
            if more.contains(p) && p != q {
                let k = choose|k: int| 0 <= k < more.len() && more[k] == p;
                assert(k != more.len() - 1);
                assert(rest[k] == p);
            }
        }
    }
}

} // verus!
