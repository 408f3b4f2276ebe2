//! Downloads in progress: which blocks of each file are in, which block to ask
//! for next, and what an arriving block changes.

use crate::bitmap::resized;
use crate::bitmap::BlockMap;
use crate::blocks::block_count;
use crate::blocks::blocks_for;
use crate::blocks::is_past_end;
use crate::blocks::lemma_past_end;
use crate::blocks::past_end;
use crate::blocks::BLOCK_SIZE;
use crate::chance::random_u32;
use crate::codec::base64_decode;
use crate::codec::base64_decoding;
use crate::codec::base64_encode;
use crate::codec::base64_encoding;
use crate::codec::base64_len_fits;
use crate::codec::hex;
use crate::codec::hex_lower;
use crate::codec::lowercase;
use crate::codec::sha256;
use crate::codec::sha256_digest;
use crate::codec::to_lowercase;
use crate::blocks::elapsed;
use crate::blocks::elapsed_since;
use crate::blocks::SECOND;
use crate::text::has_separator;
use crate::text::same_text;
use crate::message::block_request;
use crate::message::Content;
use crate::message::views;
use crate::message::Message;
use crate::message::MessageView;
use crate::message::PeerAddr;
use crate::message::MaybeTheyHaveSome;
use crate::message::PleaseSendContent;
use vstd::prelude::*;

verus! {

/// The length that a download starts with, before a peer tells the real one.
pub const INITIAL_EOF: usize = 0x40000;

/// How long ago a new download was last active, in nanoseconds.
pub const FRESH_IDLE: u64 = 999_000_000_000;

/// The state of one download.
pub struct InboundState {
    next_block: usize,
    bitmap: BlockMap,
    id: String,
    eof: usize,
    bytes_complete: usize,
    peers: Vec<PeerAddr>,
    last_activity: i64,
}

/// What a download is: the next block to ask for, which blocks are in, the
/// content id, the file length as far as known, the bytes counted as complete,
/// the peers seen with the file, and the time of the last activity.
pub struct InboundView {
    pub next_block: nat,
    pub bits: Seq<bool>,
    pub id: Seq<char>,
    pub eof: nat,
    pub bytes_complete: nat,
    pub peers: Seq<PeerAddr>,
    pub last_activity: int,
}

impl View for InboundState {
    type V = InboundView;

    closed spec fn view(&self) -> InboundView {
        InboundView {
            next_block: self.next_block as nat,
            bits: self.bitmap@,
            id: self.id@,
            eof: self.eof as nat,
            bytes_complete: self.bytes_complete as nat,
            peers: self.peers@,
            last_activity: self.last_activity as int,
        }
    }
}

impl InboundView {
    /// One bit per block of the file as far as known, and each peer once.
    pub open spec fn wf(self) -> bool {
        &&& self.bits.len() == blocks_for(self.eof)
        &&& self.peers.no_duplicates()
        &&& self.next_block <= usize::MAX
        &&& self.eof <= usize::MAX
        &&& self.bytes_complete <= usize::MAX
        &&& i64::MIN <= self.last_activity <= i64::MAX
    }
}

/// `peers` with `peer` added at the end unless it is there already.
pub open spec fn with_peer(peers: Seq<PeerAddr>, peer: PeerAddr) -> Seq<PeerAddr> {
    if peers.contains(peer) {
        peers
    } else {
        peers.push(peer)
    }
}

/// `peers` with each of `more` added in turn.
pub open spec fn with_peers(peers: Seq<PeerAddr>, more: Seq<PeerAddr>) -> Seq<PeerAddr>
    decreases more.len(),
{
    if more.len() == 0 {
        peers
    } else {
        with_peer(with_peers(peers, more.drop_last()), more.last())
    }
}

/// The first block from `from` on that is not in, or the first index past the
/// bits where every one from `from` on is in; `from` itself when it lies past
/// the bits.
pub open spec fn next_gap(bits: Seq<bool>, from: int) -> int
    decreases bits.len() - from,
{
    if 0 <= from < bits.len() && bits[from] {
        next_gap(bits, from + 1)
    } else {
        from
    }
}

/// The download after asking for its next missing block at time `now`.
pub open spec fn requested(v: InboundView, now: int) -> InboundView {
    let g = next_gap(v.bits, v.next_block as int);
    if g < v.bits.len() {
        InboundView { next_block: g as nat, last_activity: now, ..v }
    } else {
        InboundView { next_block: g as nat, ..v }
    }
}

/// The request for the next missing block, if the download has one.
pub open spec fn request_out(v: InboundView) -> Seq<MessageView> {
    let g = next_gap(v.bits, v.next_block as int);
    if g < v.bits.len() {
        seq![block_request(v.id, g as nat)]
    } else {
        seq![]
    }
}

/// The download after asking for its next missing block and moving past it.
pub open spec fn advanced(v: InboundView, now: int) -> InboundView {
    InboundView { next_block: requested(v, now).next_block + 1, ..requested(v, now) }
}

/// Whether a download still has blocks to ask for from its next block on.
pub open spec fn is_open(v: InboundView) -> bool {
    !past_end(v.next_block, v.eof)
}

/// What [`next_gap`] finds: a block at or after `from`, not in when it lies
/// among the bits, with every block before it from `from` on in.
pub proof fn lemma_next_gap(bits: Seq<bool>, from: int)
    requires
        0 <= from,
    ensures
        from <= next_gap(bits, from),
        from < bits.len() ==> next_gap(bits, from) <= bits.len(),
        from >= bits.len() ==> next_gap(bits, from) == from,
        next_gap(bits, from) < bits.len() ==> !bits[next_gap(bits, from)],
        forall|k: int| from <= k < next_gap(bits, from) ==> bits[k],
    decreases bits.len() - from,
{
    if 0 <= from < bits.len() && bits[from] {
        lemma_next_gap(bits, from + 1);
    }
}

impl InboundState {
    /// A download of `id` that knows no block yet: the first blocks of a file of
    /// `INITIAL_EOF` bytes, idle since `FRESH_IDLE` before `now`.
    pub fn new(id: &str, now: i64) -> (state: InboundState)
        requires
            now >= 0,
        ensures
            state@ == fresh(id@, now as int),
            state@.wf(),
    {
        let mut bitmap = BlockMap::new();
        let n = block_count(INITIAL_EOF);
        bitmap.resize(n, false);
        proof {
            assert(n == 64);
            assert(resized(Seq::<bool>::empty(), 64, false) =~= Seq::new(64, |k: int| false));
        }
        InboundState {
            next_block: 0,
            bitmap,
            id: id.to_owned(),
            eof: INITIAL_EOF,
            bytes_complete: 0,
            peers: Vec::new(),
            last_activity: now - FRESH_IDLE as i64,
        }
    }

    /// Asks for the first block from `next_block` on that is not in yet; returns
    /// no request when the rest of the file is in.
    pub fn request_next_block(&mut self, now: i64) -> (out: Vec<Message>)
        requires
            old(self)@.wf(),
        ensures
            final(self)@ == requested(old(self)@, now as int),
            views(out@) == request_out(old(self)@),
            final(self)@.wf(),
    {
        let ghost v = self@;
        proof {
            lemma_next_gap(v.bits, v.next_block as int);
        }
        loop
            invariant
                v == old(self)@,
                self@.wf(),
                self@ == (InboundView { next_block: self@.next_block, ..v }),
                v.next_block <= self@.next_block,
                next_gap(v.bits, self@.next_block as int) == next_gap(v.bits, v.next_block as int),
                self.bitmap@.len() == blocks_for(self.eof as nat),
            ensures
                v == old(self)@,
                self@.wf(),
                self@ == (InboundView { next_block: self@.next_block, ..v }),
                v.next_block <= self@.next_block,
                next_gap(v.bits, self@.next_block as int) == next_gap(v.bits, v.next_block as int),
                self.next_block < v.bits.len(),
                !v.bits[self.next_block as int],
                (self.next_block as int) * 4096 < self.eof,
            decreases self.bitmap@.len() - self.next_block,
        {
            proof {
                lemma_past_end(self.next_block as nat, self.eof as nat);
            }
            if is_past_end(self.next_block, self.eof) {
                proof {
                    lemma_next_gap(v.bits, self.next_block as int);
                }
                let out: Vec<Message> = Vec::new();
                assert(views(out@) =~= request_out(v));
                return out;
            }
            if !self.bitmap.get(self.next_block) {
                break;
            }
            self.next_block = self.next_block + 1;
        }
        proof {
            lemma_next_gap(v.bits, self.next_block as int);
        }
        self.last_activity = now;
        let mut out: Vec<Message> = Vec::new();
        out.push(
            Message::PleaseSendContent(
                PleaseSendContent {
                    id: self.id.clone(),
                    offset: self.next_block * BLOCK_SIZE,
                    length: BLOCK_SIZE,
                },
            ),
        );
        assert(views(out@) =~= request_out(v));
        out
    }
}

/// A download of `id` that knows no block yet, made at time `now`.
pub open spec fn fresh(id: Seq<char>, now: int) -> InboundView {
    InboundView {
        next_block: 0,
        bits: Seq::new(64, |k: int| false),
        id,
        eof: 0x40000,
        bytes_complete: 0,
        peers: seq![],
        last_activity: now - 999_000_000_000,
    }
}


/// The download with the file length `eof` taken on: when it differs from the
/// known one, the bits are cut or lengthened (with blocks not in) to match.
pub open spec fn with_eof(v: InboundView, eof: nat) -> InboundView {
    if eof != v.eof {
        InboundView { eof, bits: resized(v.bits, blocks_for(eof), false), ..v }
    } else {
        v
    }
}

proof fn lemma_advanced_bound(v: InboundView, now: int)
    requires
        v.wf(),
        v.next_block < usize::MAX,
        i64::MIN <= now <= i64::MAX,
    ensures
        requested(v, now).next_block < usize::MAX,
        requested(v, now).wf(),
        advanced(v, now).wf(),
{
    lemma_next_gap(v.bits, v.next_block as int);
    lemma_past_end(0, v.eof);
}

/// Adds `peer` to `peers` unless it is there already.
pub fn add_peer(peers: &mut Vec<PeerAddr>, peer: PeerAddr)
    ensures
        final(peers)@ == with_peer(old(peers)@, peer),
{
    let n = peers.len();
    for k in 0..n
        invariant
            n == peers@.len(),
            peers@ == old(peers)@,
            forall|j: int| 0 <= j < k ==> peers@[j] != peer,
    {
        if peers[k] == peer {
            assert(peers@.contains(peer));
            return;
        }
    }
    assert(!peers@.contains(peer));
    peers.push(peer);
}

impl InboundState {
    /// Asks for the next missing block and moves `next_block` one past it.
    fn advance(&mut self, now: i64) -> (out: Vec<Message>)
        requires
            old(self)@.wf(),
            old(self)@.next_block < usize::MAX,
        ensures
            final(self)@ == advanced(old(self)@, now as int),
            views(out@) == request_out(old(self)@),
            final(self)@.wf(),
    {
        proof {
            lemma_advanced_bound(self@, now as int);
        }
        let out = self.request_next_block(now);
        self.next_block = self.next_block + 1;
        out
    }

    /// Notes a block from `src` at `now` that tells the file length `eof`.
    fn note_arrival(&mut self, src: PeerAddr, now: i64, eof: usize)
        requires
            old(self)@.wf(),
            eof != old(self)@.eof ==> eof + 4095 <= usize::MAX,
        ensures
            final(self)@ == with_eof(
                InboundView {
                    peers: with_peer(old(self)@.peers, src),
                    last_activity: now as int,
                    ..old(self)@
                },
                eof as nat,
            ),
            final(self)@.wf(),
    {
        add_peer(&mut self.peers, src);
        self.last_activity = now;
        if eof != self.eof {
            self.eof = eof;
            let blocks = block_count(eof);
            self.bitmap.resize(blocks, false);
        }
        proof {
            let old_peers = old(self)@.peers;
            if !old_peers.contains(src) {
                assert forall|a: int, b: int|
                    0 <= a < self.peers@.len() && 0 <= b < self.peers@.len() && a != b implies
                    self.peers@[a] != self.peers@[b] by {
                    if a == old_peers.len() as int {
                        assert(old_peers[b] == self.peers@[b]);
                    } else if b == old_peers.len() as int {
                        assert(old_peers[a] == self.peers@[a]);
                    }
                }
            }
            assert(self.bitmap@.len() == blocks_for(self.eof as nat));
        }
    }

    /// Counts block `block` of `len` bytes as in.
    fn count_block(&mut self, block: usize, len: usize)
        requires
            old(self)@.wf(),
            block < old(self)@.bits.len(),
            old(self)@.bytes_complete + len <= usize::MAX,
        ensures
            final(self)@ == (InboundView {
                bytes_complete: old(self)@.bytes_complete + len as nat,
                bits: old(self)@.bits.update(block as int, true),
                ..old(self)@
            }),
            final(self)@.wf(),
    {
        self.bytes_complete = self.bytes_complete + len;
        self.bitmap.set(block, true);
    }

    /// Offers the peers seen with this download as peers that may have the file.
    pub fn send_transfer_peers(&self) -> (out: Vec<Message>)
        ensures
            views(out@) == seq![MessageView::MaybeTheyHaveSome { id: self@.id, peers: self@.peers }],
    {
        let mut out: Vec<Message> = Vec::new();
        out.push(
            Message::MaybeTheyHaveSome(
                MaybeTheyHaveSome { id: self.id.clone(), peers: self.peers.clone() },
            ),
        );
        assert(views(out@) =~= seq![MessageView::MaybeTheyHaveSome { id: self@.id, peers: self@.peers }]);
        out
    }

    /// The content id.
    pub fn id(&self) -> (id: &String)
        ensures
            id@ == self@.id,
    {
        &self.id
    }

    /// The next block to ask for.
    pub fn next_block(&self) -> (n: usize)
        ensures
            n == self@.next_block,
    {
        self.next_block
    }

    /// The file length as far as known.
    pub fn eof(&self) -> (n: usize)
        ensures
            n == self@.eof,
    {
        self.eof
    }

    /// The bytes counted as complete.
    pub fn bytes_complete(&self) -> (n: usize)
        ensures
            n == self@.bytes_complete,
    {
        self.bytes_complete
    }

    /// The peers seen with this download.
    pub fn peers(&self) -> (peers: &Vec<PeerAddr>)
        ensures
            peers@ == self@.peers,
    {
        &self.peers
    }

    /// The time of the last activity.
    pub fn last_activity(&self) -> (t: i64)
        ensures
            t == self@.last_activity,
    {
        self.last_activity
    }

    /// Whether block `block` is in.
    pub fn has_block(&self, block: usize) -> (has: bool)
        requires
            self@.wf(),
        ensures
            has == (block < self@.bits.len() && self@.bits[block as int]),
    {
        block < self.bitmap.len() && self.bitmap.get(block)
    }

    /// The number of blocks of the file as far as known.
    pub fn block_total(&self) -> (n: usize)
        ensures
            n == self@.bits.len(),
    {
        self.bitmap.len()
    }
}


/// The downloads in progress, in the order they were started.
pub struct Downloads {
    states: Vec<InboundState>,
}

impl View for Downloads {
    type V = Seq<InboundView>;

    closed spec fn view(&self) -> Seq<InboundView> {
        self.states@.map_values(|s: InboundState| s@)
    }
}

/// Each download well formed, and no content id twice.
pub open spec fn downloads_wf(d: Seq<InboundView>) -> bool {
    &&& forall|i: int| 0 <= i < d.len() ==> #[trigger] d[i].wf()
    &&& forall|i: int, j: int|
        0 <= i < d.len() && 0 <= j < d.len() && i != j ==> #[trigger] d[i].id != #[trigger] d[j].id
}

/// The position of the download of `id` from `k` on, or -1.
pub open spec fn index_from(d: Seq<InboundView>, id: Seq<char>, k: int) -> int
    decreases d.len() - k,
{
    if k < 0 || k >= d.len() {
        -1
    } else if d[k].id == id {
        k
    } else {
        index_from(d, id, k + 1)
    }
}

/// The position of the download of `id`, or -1 when there is none.
pub open spec fn index_of(d: Seq<InboundView>, id: Seq<char>) -> int {
    index_from(d, id, 0)
}

/// The position of the first download, from `k` on, with blocks left to ask
/// for; the number of downloads when there is none.
pub open spec fn first_open(d: Seq<InboundView>, k: int) -> int
    decreases d.len() - k,
{
    if k < 0 || k >= d.len() {
        d.len() as int
    } else if is_open(d[k]) {
        k
    } else {
        first_open(d, k + 1)
    }
}

/// The downloads after the first one with blocks left asks for its next missing
/// block and moves past it, with that request; no request when none has any
/// left.
pub open spec fn advance_first_open(d: Seq<InboundView>, now: int) -> (
    Seq<InboundView>,
    Option<Seq<MessageView>>,
) {
    let j = first_open(d, 0);
    if j < d.len() {
        (d.update(j, advanced(d[j], now)), Some(request_out(d[j])))
    } else {
        (d, None)
    }
}

/// The replies `out`, or, when there are none, the request of the first download
/// with blocks left, with the downloads after it.
pub open spec fn top_up(d: Seq<InboundView>, out: Seq<MessageView>, now: int) -> (
    Seq<InboundView>,
    Seq<MessageView>,
) {
    if out.len() == 0 {
        let (d2, g) = advance_first_open(d, now);
        match g {
            Some(req) => (d2, req),
            None => (d, out),
        }
    } else {
        (d, out)
    }
}

pub proof fn lemma_index_of(d: Seq<InboundView>, id: Seq<char>, k: int)
    requires
        0 <= k <= d.len(),
    ensures
        index_from(d, id, k) == -1 <==> (forall|j: int| k <= j < d.len() ==> d[j].id != id),
        index_from(d, id, k) != -1 ==> k <= index_from(d, id, k) < d.len() && d[index_from(
            d,
            id,
            k,
        )].id == id && (forall|j: int| k <= j < index_from(d, id, k) ==> d[j].id != id),
    decreases d.len() - k,
{
    if k < d.len() && d[k].id != id {
        lemma_index_of(d, id, k + 1);
    }
}

pub proof fn lemma_first_open(d: Seq<InboundView>, k: int)
    requires
        0 <= k <= d.len(),
    ensures
        k <= first_open(d, k) <= d.len(),
        first_open(d, k) < d.len() ==> is_open(d[first_open(d, k)]),
        forall|j: int| k <= j < first_open(d, k) ==> !is_open(d[j]),
    decreases d.len() - k,
{
    if k < d.len() && !is_open(d[k]) {
        lemma_first_open(d, k + 1);
    }
}

proof fn lemma_advance_shape(d: Seq<InboundView>, now: int)
    ensures
        advance_first_open(d, now).0.len() == d.len(),
        forall|k: int|
            0 <= k < d.len() && k != first_open(d, 0) ==> advance_first_open(d, now).0[k] == d[k],
{
    lemma_first_open(d, 0);
}

proof fn lemma_open_bound(v: InboundView)
    requires
        v.wf(),
        is_open(v),
    ensures
        v.next_block < usize::MAX,
{
    lemma_past_end(v.next_block, v.eof);
}

impl Downloads {
    /// Each download well formed, and no content id twice.
    pub open spec fn wf(&self) -> bool {
        downloads_wf(self@)
    }

    /// No downloads.
    pub fn new() -> (d: Downloads)
        ensures
            d@ == Seq::<InboundView>::empty(),
            d.wf(),
    {
        let d = Downloads { states: Vec::new() };
        assert(d@ =~= Seq::<InboundView>::empty());
        d
    }

    /// The number of downloads.
    pub fn len(&self) -> (n: usize)
        ensures
            n == self@.len(),
    {
        self.states.len()
    }

    /// The download at `k`.
    pub fn get(&self, k: usize) -> (state: &InboundState)
        requires
            k < self@.len(),
        ensures
            state@ == self@[k as int],
    {
        &self.states[k]
    }

    /// The position of the download of `id`.
    pub fn position(&self, id: &String) -> (pos: Option<usize>)
        ensures
            match pos {
                Some(i) => i == index_of(self@, id@),
                None => index_of(self@, id@) == -1,
            },
    {
        let n = self.states.len();
        let ghost d = self@;
        proof {
            lemma_index_of(d, id@, 0);
        }
        for k in 0..n
            invariant
                n == d.len(),
                d == self@,
                forall|j: int| 0 <= j < k ==> d[j].id != id@,
        {
            if self.states[k].id == *id {
                proof {
                    assert(d[k as int] == self.states@[k as int]@);
                    assert(d[k as int].id == id@);
                    lemma_index_of(d, id@, 0);
                    let x = index_of(d, id@);
                    assert(x != -1);
                    if x < k {
                        assert(d[x].id != id@);
                    }
                    if x > k {
                        assert(d[k as int].id != id@);
                    }
                }
                return Some(k);
            }
        }
        None
    }

    /// Starts a download of `id` at `now`, in place of any download of `id`.
    pub fn start(&mut self, id: &str, now: i64)
        requires
            old(self).wf(),
            now >= 0,
        ensures
            final(self).wf(),
            final(self)@ == if index_of(old(self)@, id@) >= 0 {
                old(self)@.update(index_of(old(self)@, id@), fresh(id@, now as int))
            } else {
                old(self)@.push(fresh(id@, now as int))
            },
    {
        let ghost d = self@;
        let state = InboundState::new(id, now);
        let key = id.to_owned();
        proof {
            lemma_index_of(d, id@, 0);
        }
        match self.position(&key) {
            Some(i) => {
                self.states.set(i, state);
                assert(self@ =~= d.update(i as int, fresh(id@, now as int)));
            },
            None => {
                self.states.push(state);
                assert(self@ =~= d.push(fresh(id@, now as int)));
            },
        }
    }

    /// The first download with blocks left asks for its next missing block and
    /// moves past it; `None` when no download has any left.
    fn advance_first_open(&mut self, now: i64) -> (grow: Option<Vec<Message>>)
        requires
            old(self).wf(),
        ensures
            final(self).wf(),
            final(self)@ == advance_first_open(old(self)@, now as int).0,
            match grow {
                Some(g) => advance_first_open(old(self)@, now as int).1 == Some(views(g@)),
                None => advance_first_open(old(self)@, now as int).1 is None,
            },
    {
        let ghost d = self@;
        proof {
            lemma_first_open(d, 0);
        }
        let n = self.states.len();
        for j in 0..n
            invariant
                n == d.len(),
                d == self@,
                d == old(self)@,
                downloads_wf(d),
                forall|k: int| 0 <= k < j ==> !is_open(d[k]),
        {
            if !is_past_end(self.states[j].next_block, self.states[j].eof) {
                proof {
                    lemma_first_open(d, 0);
                    assert(is_open(d[j as int]));
                    if first_open(d, 0) > j {
                        assert(!is_open(d[j as int]));
                    }
                    assert(first_open(d, 0) == j);
                    assert(self.states@[j as int]@ == d[j as int]);
                    lemma_open_bound(d[j as int]);
                }
                let out = self.states[j].advance(now);
                proof {
                    assert(self@ =~= d.update(j as int, advanced(d[j as int], now as int)));
                    assert forall|a: int, b: int|
                        0 <= a < self@.len() && 0 <= b < self@.len() && a != b implies
                        #[trigger] self@[a].id != #[trigger] self@[b].id by {
                        assert(d[a].id == self@[a].id);
                        assert(d[b].id == self@[b].id);
                    }
                    assert forall|a: int| 0 <= a < self@.len() implies #[trigger] self@[a].wf() by {
                        if a != j {
                            assert(self@[a] == d[a]);
                        }
                    }
                }
                return Some(out);
            }
        }
        proof {
            lemma_first_open(d, 0);
            if first_open(d, 0) < n {
                assert(!is_open(d[first_open(d, 0)]));
            }
        }
        None
    }

    /// `out`, or, when it is empty, the request of the first download with
    /// blocks left, which moves past it.
    fn top_up(&mut self, out: Vec<Message>, now: i64) -> (replies: Vec<Message>)
        requires
            old(self).wf(),
        ensures
            final(self).wf(),
            (final(self)@, views(replies@)) == top_up(old(self)@, views(out@), now as int),
    {
        if out.len() == 0 {
            match self.advance_first_open(now) {
                Some(req) => req,
                None => out,
            }
        } else {
            out
        }
    }
}


/// Why an arriving block cannot be taken: its base64 is not valid, a length
/// computed from it does not fit in `usize`, or it lies past the file's end.
#[derive(Clone, Copy, Debug, PartialEq, Eq, Structural)]
pub enum ContentError {
    BadBase64,
    Overflow,
    BlockOutOfRange,
}

/// What taking an arriving block asks of the caller: the bytes to write at the
/// block's offset, a datagram of requests to send its sender at once, the
/// replies, and whether the file is complete by count and must be checked
/// (see [`Downloads::conclude`]) before the replies go out.
pub struct Received {
    pub write: Option<Vec<u8>>,
    pub grow: Option<Vec<Message>>,
    pub replies: Vec<Message>,
    pub verify: bool,
}

/// The outcome of taking an arriving block, over mathematical values.
pub struct ReceivedView {
    pub downloads: Seq<InboundView>,
    pub write: Option<Seq<u8>>,
    pub grow: Option<Seq<MessageView>>,
    pub replies: Seq<MessageView>,
    pub verify: bool,
}

/// Whether `r`, with the downloads `d` it left, is the outcome `rv`.
pub open spec fn received_as(r: Received, d: Seq<InboundView>, rv: ReceivedView) -> bool {
    &&& d == rv.downloads
    &&& match r.write {
        Some(b) => rv.write == Some(b@),
        None => rv.write is None,
    }
    &&& match r.grow {
        Some(g) => rv.grow == Some(views(g@)),
        None => rv.grow is None,
    }
    &&& views(r.replies@) == rv.replies
    &&& r.verify == rv.verify
}

/// The file length that a block of `len` bytes tells: the one it carries, or
/// else one byte past its end.
pub open spec fn claimed_eof(c: Content, len: nat) -> int {
    match c.eof {
        Some(n) => n as int,
        None => c.offset + len + 1,
    }
}

/// The bytes that a block's base64 stands for; none where it is not valid.
pub open spec fn decoded_bytes(c: Content) -> Seq<u8> {
    match base64_decoding(c.base64@) {
        Some(b) => b,
        None => Seq::empty(),
    }
}

/// Whether a block of `len` bytes at block `block` of a file of `eof` bytes is
/// counted: a full block, or the one that ends the file.
pub open spec fn counts(len: nat, block: nat, eof: nat) -> bool {
    len == 4096 || len + block * 4096 == eof
}

/// The error that taking block `c` of `len` bytes into the download `v` meets;
/// `None` when it meets none.
pub open spec fn block_error(v: InboundView, c: Content, len: nat) -> Option<ContentError> {
    let e = claimed_eof(c, len);
    let block = c.offset as nat / 4096;
    if e > usize::MAX {
        Some(ContentError::Overflow)
    } else if e != v.eof && e + 4095 > usize::MAX {
        Some(ContentError::Overflow)
    } else if block >= blocks_for(e as nat) {
        Some(ContentError::BlockOutOfRange)
    } else if with_eof(v, e as nat).bits[block as int] {
        None
    } else if len != 4096 && len + block * 4096 > usize::MAX {
        Some(ContentError::Overflow)
    } else if counts(len, block, e as nat) && v.bytes_complete + len > usize::MAX {
        Some(ContentError::Overflow)
    } else if v.next_block == usize::MAX {
        Some(ContentError::Overflow)
    } else {
        None
    }
}

/// The error that taking block `c`, whose base64 decodes to `decoded`, meets;
/// `None` when it meets none.
pub open spec fn receive_error(d: Seq<InboundView>, c: Content, decoded: Option<Seq<u8>>) -> Option<
    ContentError,
> {
    let i = index_of(d, c.id@);
    if i < 0 {
        None
    } else {
        match decoded {
            None => Some(ContentError::BadBase64),
            Some(bytes) => block_error(d[i], c, bytes.len()),
        }
    }
}

/// The outcome of taking block `c` from `src` at `now`, with its bytes `bytes`
/// and the random number `roll`. A block of a file not being downloaded is
/// dropped. Otherwise `src` joins the download's peers, the download is active
/// at `now`, and the file length it tells is taken on. A block already in ends
/// there. Else its bytes are written; a full block, or the one that ends the
/// file, counts; the download asks for its next missing block and moves past
/// it. One time in 101 the first download with blocks left does so too, into a
/// datagram of its own. When the count reaches the file length the file is to be
/// checked; else, with no reply so far, the first download with blocks left asks
/// for its next one.
pub open spec fn received(
    d: Seq<InboundView>,
    c: Content,
    src: PeerAddr,
    now: int,
    roll: u32,
    bytes: Seq<u8>,
) -> ReceivedView {
    let i = index_of(d, c.id@);
    if i < 0 {
        ReceivedView { downloads: d, write: None, grow: None, replies: seq![], verify: false }
    } else {
        accepted(d, i, src, now, roll, claimed_eof(c, bytes.len()) as nat, c.offset as nat / 4096, bytes)
    }
}

/// The outcome of taking `bytes`, block `block` of a file of `e` bytes, into the
/// download at `i`; see [`received`].
pub open spec fn accepted(
    d: Seq<InboundView>,
    i: int,
    src: PeerAddr,
    now: int,
    roll: u32,
    e: nat,
    block: nat,
    bytes: Seq<u8>,
) -> ReceivedView {
    let v2 = with_eof(
        InboundView { peers: with_peer(d[i].peers, src), last_activity: now, ..d[i] },
        e,
    );
    if v2.bits[block as int] {
        ReceivedView {
            downloads: d.update(i, v2),
            write: None,
            grow: None,
            replies: seq![],
            verify: false,
        }
    } else {
        let v3 = if counts(bytes.len(), block, e) {
            InboundView {
                bytes_complete: v2.bytes_complete + bytes.len(),
                bits: v2.bits.update(block as int, true),
                ..v2
            }
        } else {
            v2
        };
        let d4 = d.update(i, advanced(v3, now));
        let out = request_out(v3);
        let (d5, grow) = if roll % 101 == 0 {
            advance_first_open(d4, now)
        } else {
            (d4, None)
        };
        let verify = d5[i].bytes_complete == d5[i].eof;
        let (d6, replies) = if verify {
            (d5, out)
        } else {
            top_up(d5, out, now)
        };
        ReceivedView { downloads: d6, write: Some(bytes), grow, replies, verify }
    }
}

proof fn lemma_update_wf(d: Seq<InboundView>, i: int, v: InboundView)
    requires
        downloads_wf(d),
        0 <= i < d.len(),
        v.wf(),
        v.id == d[i].id,
    ensures
        downloads_wf(d.update(i, v)),
{
    let d2 = d.update(i, v);
    assert forall|a: int, b: int|
        0 <= a < d2.len() && 0 <= b < d2.len() && a != b implies #[trigger] d2[a].id
        != #[trigger] d2[b].id by {
        assert(d2[a].id == d[a].id);
        assert(d2[b].id == d[b].id);
    }
}

impl Content {
    /// Checks this block, of `len` bytes, against the download `state`: the file
    /// length it tells, its block number, whether that block is in already, and
    /// whether it counts.
    fn check_block(&self, state: &InboundState, len: usize) -> (r: Result<
        (usize, usize, bool, bool),
        ContentError,
    >)
        requires
            state@.wf(),
        ensures
            match r {
                Ok((eof, block, dup, counted)) => {
                    &&& block_error(state@, *self, len as nat) is None
                    &&& eof == claimed_eof(*self, len as nat)
                    &&& block == self.offset as nat / 4096
                    &&& block < blocks_for(eof as nat)
                    &&& eof != state@.eof ==> eof + 4095 <= usize::MAX
                    &&& dup == with_eof(state@, eof as nat).bits[block as int]
                    &&& counted == (!dup && counts(len as nat, block as nat, eof as nat))
                    &&& !dup ==> state@.next_block < usize::MAX
                    &&& counted ==> state@.bytes_complete + len <= usize::MAX
                },
                Err(x) => block_error(state@, *self, len as nat) == Some(x),
            },
    {
        let eof: usize = match self.eof {
            Some(n) => n,
            None => {
                if len >= usize::MAX - self.offset {
                    return Err(ContentError::Overflow);
                }
                self.offset + len + 1
            },
        };
        let cur_eof = state.eof;
        if eof != cur_eof && eof > usize::MAX - 4095 {
            return Err(ContentError::Overflow);
        }
        let block = self.offset / BLOCK_SIZE;
        let blocks = block_count(eof);
        if block >= blocks {
            return Err(ContentError::BlockOutOfRange);
        }
        let old_len = state.bitmap.len();
        let dup = block < old_len && state.bitmap.get(block);
        proof {
            let v = state@;
            if eof as nat == v.eof {
                assert(with_eof(v, eof as nat).bits == v.bits);
            } else {
                let nb = resized(v.bits, blocks_for(eof as nat), false);
                assert(with_eof(v, eof as nat).bits == nb);
                if block < old_len {
                    assert(nb[block as int] == v.bits[block as int]);
                } else {
                    assert(!nb[block as int]);
                }
            }
        }
        let mut counted = false;
        if !dup {
            if len == BLOCK_SIZE {
                counted = true;
            } else {
                if len > usize::MAX - block * BLOCK_SIZE {
                    return Err(ContentError::Overflow);
                }
                counted = len + block * BLOCK_SIZE == eof;
            }
            if counted && state.bytes_complete > usize::MAX - len {
                return Err(ContentError::Overflow);
            }
            if state.next_block == usize::MAX {
                return Err(ContentError::Overflow);
            }
        }
        Ok((eof, block, dup, counted))
    }
}

impl Downloads {
    /// Takes `bytes`, block `block` of a file of `eof` bytes from `src`, into the
    /// download at `i`, once [`Content::check_block`] has passed it.
    #[verifier::rlimit(30)]
    fn accept(
        &mut self,
        i: usize,
        src: PeerAddr,
        now: i64,
        roll: u32,
        eof: usize,
        block: usize,
        bytes: Vec<u8>,
        dup: bool,
        counted: bool,
    ) -> (r: Received)
        requires
            old(self).wf(),
            i < old(self)@.len(),
            block < blocks_for(eof as nat),
            eof != old(self)@[i as int].eof ==> eof + 4095 <= usize::MAX,
            dup == with_eof(old(self)@[i as int], eof as nat).bits[block as int],
            counted == (!dup && counts(bytes@.len(), block as nat, eof as nat)),
            !dup ==> old(self)@[i as int].next_block < usize::MAX,
            counted ==> old(self)@[i as int].bytes_complete + bytes@.len() <= usize::MAX,
        ensures
            final(self).wf(),
            received_as(
                r,
                final(self)@,
                accepted(old(self)@, i as int, src, now as int, roll, eof as nat, block as nat, bytes@),
            ),
    {
        let ghost d = self@;
        let ghost e = eof as nat;
        let ghost v2 = with_eof(
            InboundView { peers: with_peer(d[i as int].peers, src), last_activity: now as int, ..d[i as int] },
            e,
        );
        proof {
            assert(self.states@[i as int]@ == d[i as int]);
            assert(d[i as int].wf());
        }
        self.states[i].note_arrival(src, now, eof);
        proof {
            assert(self@ =~= d.update(i as int, v2));
            lemma_update_wf(d, i as int, v2);
        }
        if dup {
            let r = Received { write: None, grow: None, replies: Vec::new(), verify: false };
            assert(views(r.replies@) =~= seq![]);
            return r;
        }
        let ghost v3 = if counts(bytes@.len(), block as nat, e) {
            InboundView {
                bytes_complete: v2.bytes_complete + bytes@.len(),
                bits: v2.bits.update(block as int, true),
                ..v2
            }
        } else {
            v2
        };
        if counted {
            self.states[i].count_block(block, bytes.len());
        }
        proof {
            assert(self@ =~= d.update(i as int, v3));
            lemma_update_wf(d, i as int, v3);
        }
        let out = self.states[i].advance(now);
        let ghost d4 = d.update(i as int, advanced(v3, now as int));
        proof {
            assert(self@ =~= d4);
            lemma_update_wf(d, i as int, advanced(v3, now as int));
        }
        let grow = if roll % 101 == 0 {
            self.advance_first_open(now)
        } else {
            None
        };
        let ghost d5 = self@;
        proof {
            lemma_advance_shape(d4, now as int);
            assert(d5.len() == d4.len());
            assert(self.states@.len() == d5.len());
            assert(self.states@[i as int]@ == d5[i as int]);
        }
        let verify = self.states[i].bytes_complete == self.states[i].eof;
        let replies = if verify {
            out
        } else {
            self.top_up(out, now)
        };
        Received { write: Some(bytes), grow, replies, verify }
    }
}

impl Content {
    /// Takes this block from `src` at `now`, with the random number `roll`; see
    /// [`received`] for what it does, and [`receive_error`] for when it refuses.
    pub fn receive_content_with(&self, downloads: &mut Downloads, src: PeerAddr, now: i64, roll: u32) -> (r: Result<Received, ContentError>)
        requires
            old(downloads).wf(),
        ensures
            final(downloads).wf(),
            match receive_error(old(downloads)@, *self, base64_decoding(self.base64@)) {
                Some(e) => r == Err::<Received, ContentError>(e) && final(downloads)@ == old(
                    downloads,
                )@,
                None => r matches Ok(rec) && received_as(
                    rec,
                    final(downloads)@,
                    received(old(downloads)@, *self, src, now as int, roll, decoded_bytes(*self)),
                ),
            },
    {
        let ghost d = downloads@;
        let i = match downloads.position(&self.id) {
            None => {
                let r = Received { write: None, grow: None, replies: Vec::new(), verify: false };
                assert(views(r.replies@) =~= seq![]);
                return Ok(r);
            },
            Some(i) => i,
        };
        proof {
            lemma_index_of(d, self.id@, 0);
            assert(downloads.states@[i as int]@ == d[i as int]);
        }
        let bytes = match base64_decode(self.base64.as_str()) {
            Some(b) => b,
            None => {
                return Err(ContentError::BadBase64);
            },
        };
        let (eof, block, dup, counted) = match self.check_block(&downloads.states[i], bytes.len()) {
            Ok(t) => t,
            Err(x) => {
                return Err(x);
            },
        };
        Ok(downloads.accept(i, src, now, roll, eof, block, bytes, dup, counted))
    }

    /// Takes this block from `src` at `now`, drawing the random number that
    /// decides whether the window grows: the outcome is that of
    /// [`Content::receive_content_with`] for some number.
    pub fn receive_content(&self, downloads: &mut Downloads, src: PeerAddr, now: i64) -> (r: Result<Received, ContentError>)
        requires
            old(downloads).wf(),
        ensures
            final(downloads).wf(),
            match receive_error(old(downloads)@, *self, base64_decoding(self.base64@)) {
                Some(e) => r == Err::<Received, ContentError>(e) && final(downloads)@ == old(
                    downloads,
                )@,
                None => exists|roll: u32|
                    r matches Ok(rec) && received_as(
                        rec,
                        final(downloads)@,
                        #[trigger] received(
                            old(downloads)@,
                            *self,
                            src,
                            now as int,
                            roll,
                            decoded_bytes(*self),
                        ),
                    ),
            },
    {
        let roll = random_u32();
        self.receive_content_with(downloads, src, now, roll)
    }
}


/// The download with every block marked missing and the count and the next
/// block back to zero, as after a file that failed its check.
pub open spec fn restarted(v: InboundView) -> InboundView {
    InboundView {
        bits: Seq::new(v.bits.len(), |k: int| false),
        next_block: 0,
        bytes_complete: 0,
        ..v
    }
}

/// What checking the file of `id`, whose bytes on disk are `file`, does: when
/// the lower-case hex of its SHA-256 digest is the lower-case `id`, the
/// download ends and hands back its peers; else it starts over. Either way, with
/// no replies `out`, the first download with blocks left asks for its next one.
pub open spec fn concluded(
    d: Seq<InboundView>,
    id: Seq<char>,
    file: Seq<u8>,
    out: Seq<MessageView>,
    now: int,
) -> (Seq<InboundView>, Seq<MessageView>, Option<Seq<PeerAddr>>) {
    let i = index_of(d, id);
    let (d1, finished) = if i < 0 {
        (d, None)
    } else if hex_lower(sha256_digest(file)) == lowercase(id) {
        (d.remove(i), Some(d[i].peers))
    } else {
        (d.update(i, restarted(d[i])), None)
    };
    let (d2, replies) = top_up(d1, out, now);
    (d2, replies, finished)
}

/// The outcome of checking a file: the replies, the hex SHA-256 digest of the
/// file, and, when the file is the one its id names, the peers of its finished
/// download.
pub struct Concluded {
    pub replies: Vec<Message>,
    pub hash: Vec<char>,
    pub finished: Option<Vec<PeerAddr>>,
}

/// Whether a download has seen no activity for more than a second at `now`.
pub open spec fn idle(v: InboundView, now: int) -> bool {
    elapsed(now, v.last_activity) > 1_000_000_000
}

/// The download with its next block back at zero when it has been idle and is
/// not at zero, so that blocks lost in flight are asked for again.
pub open spec fn unstalled(v: InboundView, now: int) -> InboundView {
    if idle(v, now) && v.next_block != 0 {
        InboundView { next_block: 0, ..v }
    } else {
        v
    }
}

/// What the periodic upkeep does to the downloads at `now`: every stalled
/// download goes back to its first block; then the first download, when idle,
/// asks its own peers for its next missing block, and asks once more, for peers
/// to search with.
pub open spec fn maintained(d: Seq<InboundView>, now: int) -> (
    Seq<InboundView>,
    Option<(Seq<MessageView>, Seq<PeerAddr>, Seq<MessageView>)>,
) {
    let d1 = d.map_values(|v: InboundView| unstalled(v, now));
    if d1.len() == 0 {
        (d1, None)
    } else {
        let v = d1[0];
        let w = if idle(v, now) {
            requested(v, now)
        } else {
            v
        };
        let resume = if idle(v, now) {
            request_out(v)
        } else {
            seq![]
        };
        (d1.update(0, requested(w, now)), Some((resume, v.peers, request_out(w))))
    }
}

/// The requests that the periodic upkeep sends: `resume` to `resume_peers`, and
/// `search` to peers picked from the peer table. An empty list goes nowhere.
pub struct Maintenance {
    pub resume: Vec<Message>,
    pub resume_peers: Vec<PeerAddr>,
    pub search: Vec<Message>,
}

/// How a request for content is answered: not at all, with these replies, or
/// from the file on disk, reading at most `length` bytes and, when
/// `offer_peers`, offering the peers saved with the file.
pub enum ServePlan {
    Nothing,
    Replies(Vec<Message>),
    FromDisk { offer_peers: bool, length: usize },
}

/// A [`ServePlan`] over mathematical values.
pub enum ServeView {
    Nothing,
    Replies(Seq<MessageView>),
    FromDisk { offer_peers: bool, length: nat },
}

impl View for ServePlan {
    type V = ServeView;

    open spec fn view(&self) -> ServeView {
        match self {
            ServePlan::Nothing => ServeView::Nothing,
            ServePlan::Replies(r) => ServeView::Replies(views(r@)),
            ServePlan::FromDisk { offer_peers, length } => ServeView::FromDisk {
                offer_peers: *offer_peers,
                length: *length as nat,
            },
        }
    }
}

/// The most bytes served in one reply.
pub const MAX_SERVED: usize = 0xa000;

/// How the request `req` from `src` is answered, with the random number `roll`:
/// an id holding `/` or `\\` is ignored. The peers of a file being downloaded
/// are offered (on a request from offset zero, or one time in 37) and `src`
/// joins them, but the file is not served. Any other file is served from disk,
/// at most `MAX_SERVED` bytes, with the peers saved with it offered on the same
/// terms.
pub open spec fn serve_plan(d: Seq<InboundView>, req: PleaseSendContent, src: PeerAddr, roll: u32) -> (
    Seq<InboundView>,
    ServeView,
) {
    let id = req.id@;
    if id.contains('/') || id.contains('\\') {
        (d, ServeView::Nothing)
    } else {
        let lucky = req.offset == 0 || roll % 37 == 0;
        let i = index_of(d, id);
        if i >= 0 {
            let v = InboundView { peers: with_peer(d[i].peers, src), ..d[i] };
            (
                d.update(i, v),
                ServeView::Replies(
                    if lucky {
                        seq![MessageView::MaybeTheyHaveSome { id: v.id, peers: v.peers }]
                    } else {
                        seq![]
                    },
                ),
            )
        } else {
            (
                d,
                ServeView::FromDisk {
                    offer_peers: lucky,
                    length: if req.length > 0xa000 {
                        0xa000
                    } else {
                        req.length as nat
                    },
                },
            )
        }
    }
}

proof fn lemma_remove_wf(d: Seq<InboundView>, i: int)
    requires
        downloads_wf(d),
        0 <= i < d.len(),
    ensures
        downloads_wf(d.remove(i)),
{
    let d2 = d.remove(i);
    assert forall|a: int| 0 <= a < d2.len() implies #[trigger] d2[a].wf() by {
        if a < i {
            assert(d2[a] == d[a]);
        } else {
            assert(d2[a] == d[a + 1]);
        }
    }
    assert forall|a: int, b: int|
        0 <= a < d2.len() && 0 <= b < d2.len() && a != b implies #[trigger] d2[a].id
        != #[trigger] d2[b].id by {
        let a2 = if a < i { a } else { a + 1 };
        let b2 = if b < i { b } else { b + 1 };
        assert(d2[a] == d[a2]);
        assert(d2[b] == d[b2]);
    }
}

impl InboundState {
    /// Marks every block missing and sets the count and the next block to zero.
    fn restart(&mut self)
        requires
            old(self)@.wf(),
        ensures
            final(self)@ == restarted(old(self)@),
            final(self)@.wf(),
    {
        self.bitmap.fill(false);
        self.next_block = 0;
        self.bytes_complete = 0;
    }
}

impl Downloads {
    /// Checks the file of `id`, whose bytes on disk are `file`, after its count
    /// reached its length; see [`concluded`].
    pub fn conclude(&mut self, id: &String, file: &Vec<u8>, out: Vec<Message>, now: i64) -> (c: Concluded)
        requires
            old(self).wf(),
        ensures
            final(self).wf(),
            c.hash@ == hex_lower(sha256_digest(file@)),
            final(self)@ == concluded(old(self)@, id@, file@, views(out@), now as int).0,
            views(c.replies@) == concluded(old(self)@, id@, file@, views(out@), now as int).1,
            match c.finished {
                Some(p) => concluded(old(self)@, id@, file@, views(out@), now as int).2 == Some(p@),
                None => concluded(old(self)@, id@, file@, views(out@), now as int).2 is None,
            },
    {
        let ghost d = self@;
        let digest = sha256(file.as_slice());
        let hash = hex(&digest);
        let finished = match self.position(id) {
            None => None,
            Some(i) => {
                proof {
                    lemma_index_of(d, id@, 0);
                    assert(self.states@[i as int]@ == d[i as int]);
                }
                let lower = to_lowercase(id.as_str());
                if same_text(&lower, &hash) {
                    let state = self.states.remove(i);
                    proof {
                        assert(self@ =~= d.remove(i as int));
                        lemma_remove_wf(d, i as int);
                    }
                    Some(state.peers)
                } else {
                    self.states[i].restart();
                    proof {
                        assert(self@ =~= d.update(i as int, restarted(d[i as int])));
                        lemma_update_wf(d, i as int, restarted(d[i as int]));
                    }
                    None
                }
            },
        };
        let replies = self.top_up(out, now);
        Concluded { replies, hash, finished }
    }

    /// The periodic upkeep at `now`; see [`maintained`]. `None` when there is
    /// no download.
    pub fn maintain(&mut self, now: i64) -> (m: Option<Maintenance>)
        requires
            old(self).wf(),
        ensures
            final(self).wf(),
            final(self)@ == maintained(old(self)@, now as int).0,
            match m {
                Some(x) => maintained(old(self)@, now as int).1 == Some(
                    (views(x.resume@), x.resume_peers@, views(x.search@)),
                ),
                None => maintained(old(self)@, now as int).1 is None,
            },
    {
        let ghost d = self@;
        let n = self.states.len();
        for k in 0..n
            invariant
                n == d.len(),
                d == old(self)@,
                downloads_wf(d),
                self@.len() == n,
                downloads_wf(self@),
                forall|j: int| 0 <= j < k ==> self@[j] == unstalled(d[j], now as int),
                forall|j: int| k <= j < n ==> self@[j] == d[j],
        {
            proof {
                assert(self.states@[k as int]@ == d[k as int]);
            }
            if elapsed_since(now, self.states[k].last_activity) > SECOND && self.states[k].next_block != 0 {
                let ghost before = self@;
                assert(d[k as int].wf());
                self.states[k].next_block = 0;
                proof {
                    assert(self@ =~= before.update(k as int, unstalled(d[k as int], now as int)));
                    lemma_update_wf(before, k as int, unstalled(d[k as int], now as int));
                }
            }
        }
        let ghost d1 = self@;
        proof {
            assert(d1 =~= d.map_values(|v: InboundView| unstalled(v, now as int)));
        }
        if n == 0 {
            return None;
        }
        proof {
            assert(self.states@[0]@ == d1[0]);
            assert(d1[0].wf());
        }
        let resume_peers = self.states[0].peers.clone();
        let resume = if elapsed_since(now, self.states[0].last_activity) > SECOND {
            self.states[0].request_next_block(now)
        } else {
            let r: Vec<Message> = Vec::new();
            assert(views(r@) =~= seq![]);
            r
        };
        let search = self.states[0].request_next_block(now);
        proof {
            let v = d1[0];
            let w = if idle(v, now as int) { requested(v, now as int) } else { v };
            assert(self@ =~= d1.update(0, requested(w, now as int)));
            lemma_update_wf(d1, 0, requested(w, now as int));
        }
        Some(Maintenance { resume, resume_peers, search })
    }
}

impl MaybeTheyHaveSome {
    /// Adds these peers to those of the download of `id`, if there is one.
    /// Nothing is sent in reply.
    pub fn add_content_peer_suggestions(self, downloads: &mut Downloads) -> (out: Vec<Message>)
        requires
            old(downloads).wf(),
        ensures
            final(downloads).wf(),
            out@.len() == 0,
            final(downloads)@ == if index_of(old(downloads)@, self.id@) >= 0 {
                old(downloads)@.update(
                    index_of(old(downloads)@, self.id@),
                    InboundView {
                        peers: with_peers(
                            old(downloads)@[index_of(old(downloads)@, self.id@)].peers,
                            self.peers@,
                        ),
                        ..old(downloads)@[index_of(old(downloads)@, self.id@)]
                    },
                )
            } else {
                old(downloads)@
            },
    {
        let ghost d = downloads@;
        match downloads.position(&self.id) {
            None => {},
            Some(i) => {
                proof {
                    lemma_index_of(d, self.id@, 0);
                    assert(downloads.states@[i as int]@ == d[i as int]);
                }
                let n = self.peers.len();
                for k in 0..n
                    invariant
                        n == self.peers@.len(),
                        d == old(downloads)@,
                        i < d.len(),
                        downloads@ == d.update(
                            i as int,
                            InboundView {
                                peers: with_peers(d[i as int].peers, self.peers@.take(k as int)),
                                ..d[i as int]
                            },
                        ),
                        downloads_wf(downloads@),
                {
                    let ghost before = downloads@;
                    proof {
                        assert(before.len() == d.len());
                        assert(downloads.states@.len() == before.len());
                        assert(downloads.states@[i as int]@ == before[i as int]);
                        assert(before[i as int].wf());
                        assert(self.peers@.take(k + 1).drop_last() =~= self.peers@.take(k as int));
                    }
                    add_peer(&mut downloads.states[i].peers, self.peers[k]);
                    proof {
                        let v = InboundView {
                            peers: with_peers(d[i as int].peers, self.peers@.take(k + 1)),
                            ..d[i as int]
                        };
                        lemma_with_peer_unique(before[i as int].peers, self.peers@[k as int]);
                        assert(downloads@ =~= before.update(i as int, v));
                        lemma_update_wf(before, i as int, v);
                        assert(d.update(i as int, v) =~= before.update(i as int, v));
                    }
                }
                proof {
                    assert(self.peers@.take(n as int) =~= self.peers@);
                }
            },
        }
        Vec::new()
    }
}

pub proof fn lemma_with_peer_unique(peers: Seq<PeerAddr>, p: PeerAddr)
    requires
        peers.no_duplicates(),
    ensures
        with_peer(peers, p).no_duplicates(),
{
    if !peers.contains(p) {
        let q = peers.push(p);
        assert forall|a: int, b: int| 0 <= a < q.len() && 0 <= b < q.len() && a != b implies q[a]
            != q[b] by {
            if a == peers.len() as int {
                assert(peers[b] == q[b]);
            } else if b == peers.len() as int {
                assert(peers[a] == q[a]);
            }
        }
    }
}

impl PleaseSendContent {
    /// How this request from `src` is answered, with the random number `roll`;
    /// see [`serve_plan`].
    pub fn send_content_with(&self, downloads: &mut Downloads, src: PeerAddr, roll: u32) -> (plan: ServePlan)
        requires
            old(downloads).wf(),
        ensures
            final(downloads).wf(),
            (final(downloads)@, plan@) == serve_plan(old(downloads)@, *self, src, roll),
    {
        let ghost d = downloads@;
        if has_separator(&self.id) {
            return ServePlan::Nothing;
        }
        let mut length = self.length;
        if length > MAX_SERVED {
            length = MAX_SERVED;
        }
        let lucky = self.offset == 0 || roll % 37 == 0;
        match downloads.position(&self.id) {
            Some(i) => {
                proof {
                    lemma_index_of(d, self.id@, 0);
                    assert(downloads.states@[i as int]@ == d[i as int]);
                    assert(d[i as int].wf());
                    lemma_with_peer_unique(d[i as int].peers, src);
                }
                add_peer(&mut downloads.states[i].peers, src);
                let ghost v = InboundView { peers: with_peer(d[i as int].peers, src), ..d[i as int] };
                proof {
                    assert(downloads@ =~= d.update(i as int, v));
                    lemma_update_wf(d, i as int, v);
                    assert(downloads.states@[i as int]@ == v);
                }
                if lucky {
                    ServePlan::Replies(downloads.states[i].send_transfer_peers())
                } else {
                    let r: Vec<Message> = Vec::new();
                    assert(views(r@) =~= seq![]);
                    ServePlan::Replies(r)
                }
            },
            None => ServePlan::FromDisk { offer_peers: lucky, length },
        }
    }

    /// How this request from `src` is answered, drawing the random number only
    /// for a request past offset zero: the plan of
    /// [`PleaseSendContent::send_content_with`] for some number.
    pub fn send_content(&self, downloads: &mut Downloads, src: PeerAddr) -> (plan: ServePlan)
        requires
            old(downloads).wf(),
        ensures
            final(downloads).wf(),
            exists|roll: u32|
                (final(downloads)@, plan@) == #[trigger] serve_plan(old(downloads)@, *self, src, roll),
    {
        let roll = if self.offset == 0 {
            0
        } else {
            random_u32()
        };
        self.send_content_with(downloads, src, roll)
    }

    /// The reply that serves `data`, at most `MAX_SERVED` bytes read from the
    /// file of `file_len` bytes at this request's offset.
    pub fn content_reply(&self, data: &[u8], file_len: usize) -> (m: Message)
        requires
            data@.len() <= MAX_SERVED,
        ensures
            m@ == (MessageView::Content {
                id: self.id@,
                offset: self.offset as nat,
                base64: base64_encoding(data@),
                eof: Some(file_len as nat),
            }),
            m matches Message::Content(c) && base64_decoding(c.base64@) == Some(data@),
    {
        assert(base64_len_fits(data@.len()));
        Message::Content(
            Content {
                id: self.id.clone(),
                offset: self.offset,
                base64: base64_encode(data),
                eof: Some(file_len),
            },
        )
    }
}

} // verus!
