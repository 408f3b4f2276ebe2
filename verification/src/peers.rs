//! The table of known peers: when each was last heard from and how long a
//! round trip to it took, the ranking that picks the best of them, and the
//! messages that exchange peers and time round trips.

use crate::blocks::elapsed;
use crate::blocks::elapsed_since;
use crate::blocks::SECOND;
use crate::chance::random_u32;
use crate::chance::utc_minute;
use crate::chance::utc_second;
use crate::download::add_peer;
use crate::download::lemma_with_peer_unique;
use crate::download::with_peer;
use crate::message::views;
use crate::message::Message;
use crate::message::MessageView;
use crate::message::PeerAddr;
use crate::message::Peers;
use crate::message::PleaseReturnThisMessage;
use crate::message::PleaseSendPeers;
use crate::message::ReturnedMessage;
use vstd::prelude::*;

verus! {

broadcast use vstd::seq_lib::to_multiset_build, vstd::seq_lib::to_multiset_insert;

/// What is known of a peer: when it was last heard from, on the node's clock,
/// and the last round trip measured to it, in nanoseconds.
#[derive(Clone, Copy, Debug, PartialEq, Eq, Structural)]
pub struct PeerInfo {
    pub when_last_seen: i64,
    pub delay: u64,
}

/// How long ago, in nanoseconds, a peer learnt of from another peer counts as
/// last heard from.
pub const SUGGESTED_AGE: u64 = 888_000_000_000_000_000;

/// How long ago, in nanoseconds, a peer read back from the saved list counts as
/// last heard from.
pub const SAVED_AGE: u64 = 999_000_000_000_000_000;

/// The most peers written to the saved list.
pub const SAVED_PEERS: usize = 99;

/// The peer table and the ranking made of it at the last sort.
pub struct PeerState {
    peer_map: Vec<(PeerAddr, PeerInfo)>,
    peer_vec: Vec<(PeerAddr, PeerInfo)>,
}

/// The table's entries, each address once, and the ranking, best first.
pub struct PeerStateView {
    pub entries: Seq<(PeerAddr, PeerInfo)>,
    pub ranked: Seq<(PeerAddr, PeerInfo)>,
}

impl View for PeerState {
    type V = PeerStateView;

    closed spec fn view(&self) -> PeerStateView {
        PeerStateView { entries: self.peer_map@, ranked: self.peer_vec@ }
    }
}

/// No address twice among `s`.
pub open spec fn unique_keys(s: Seq<(PeerAddr, PeerInfo)>) -> bool {
    forall|i: int, j: int| 0 <= i < s.len() && 0 <= j < s.len() && i != j ==> #[trigger] s[i].0 != #[trigger] s[j].0
}

/// The map from address to what is known, that the entries `s` stand for.
pub open spec fn table_of(s: Seq<(PeerAddr, PeerInfo)>) -> Map<PeerAddr, PeerInfo>
    decreases s.len(),
{
    if s.len() == 0 {
        Map::empty()
    } else {
        table_of(s.drop_last()).insert(s.last().0, s.last().1)
    }
}

/// How bad a peer ranks at `now`: the time since it was last heard from times
/// its round trip. Lower is better.
pub open spec fn rank(now: int, info: PeerInfo) -> int {
    elapsed(now, info.when_last_seen as int) * info.delay
}

/// Whether `s` runs from the best ranked to the worst at `now`.
pub open spec fn ranked_by(s: Seq<(PeerAddr, PeerInfo)>, now: int) -> bool {
    forall|i: int, j: int| 0 <= i <= j < s.len() ==> rank(now, #[trigger] s[i].1) <= rank(now, #[trigger] s[j].1)
}

/// The table after a sender is heard from at `now`: a known one is marked seen,
/// a new one joins with a one-second round trip.
pub open spec fn seen(t: Map<PeerAddr, PeerInfo>, src: PeerAddr, now: i64) -> Map<PeerAddr, PeerInfo> {
    if t.contains_key(src) {
        t.insert(src, PeerInfo { when_last_seen: now, delay: t[src].delay })
    } else {
        t.insert(src, PeerInfo { when_last_seen: now, delay: SECOND })
    }
}

/// The table after the peers `peers` are suggested at `now`: each one not
/// known joins, as long unseen, with a one-second round trip.
pub open spec fn suggested(t: Map<PeerAddr, PeerInfo>, peers: Seq<PeerAddr>, now: i64) -> Map<
    PeerAddr,
    PeerInfo,
>
    decreases peers.len(),
{
    if peers.len() == 0 {
        t
    } else {
        let t1 = suggested(t, peers.drop_last(), now);
        if t1.contains_key(peers.last()) {
            t1
        } else {
            t1.insert(
                peers.last(),
                PeerInfo { when_last_seen: (now - SUGGESTED_AGE) as i64, delay: SECOND },
            )
        }
    }
}

/// The table after the saved list `saved` is read back at `now`: each saved
/// peer is set to its saved round trip, as long unseen.
pub open spec fn merged(t: Map<PeerAddr, PeerInfo>, saved: Seq<(PeerAddr, u64)>, now: i64) -> Map<
    PeerAddr,
    PeerInfo,
>
    decreases saved.len(),
{
    if saved.len() == 0 {
        t
    } else {
        merged(t, saved.drop_last(), now).insert(
            saved.last().0,
            PeerInfo { when_last_seen: (now - SAVED_AGE) as i64, delay: saved.last().1 },
        )
    }
}

/// The distinct addresses at the positions `picks` of the ranking `ranked`, in
/// the order first picked; positions past the end pick nothing.
pub open spec fn picked(ranked: Seq<(PeerAddr, PeerInfo)>, picks: Seq<usize>) -> Seq<PeerAddr>
    decreases picks.len(),
{
    if picks.len() == 0 {
        seq![]
    } else {
        let acc = picked(ranked, picks.drop_last());
        if picks.last() < ranked.len() {
            with_peer(acc, ranked[picks.last() as int].0)
        } else {
            acc
        }
    }
}

/// The saved list that `list` is written as: each address with its round trip.
pub open spec fn saved_form(list: Seq<(PeerAddr, PeerInfo)>) -> Seq<(PeerAddr, u64)> {
    list.map_values(|e: (PeerAddr, PeerInfo)| (e.0, e.1.delay))
}

/// The part of the ranking `ranked` that is saved: its first `SAVED_PEERS`.
pub open spec fn saved_part(ranked: Seq<(PeerAddr, PeerInfo)>) -> Seq<(PeerAddr, PeerInfo)> {
    ranked.take(if ranked.len() < 99 { ranked.len() as int } else { 99 })
}

/// Whether the random number `roll` calls for timing a round trip: one time in 73.
pub open spec fn ping_due(roll: u32) -> bool {
    roll % 73 == 0
}

/// Whether the wall clock calls for saving the peer list: in the first three
/// seconds of every fifth minute.
pub open spec fn save_due(second: nat, minute: nat) -> bool {
    second / 3 + minute % 5 == 0
}

pub proof fn lemma_table_lookup(s: Seq<(PeerAddr, PeerInfo)>, k: int)
    requires
        unique_keys(s),
        0 <= k < s.len(),
    ensures
        table_of(s).contains_key(s[k].0),
        table_of(s)[s[k].0] == s[k].1,
    decreases s.len(),
{
    if k < s.len() - 1 {
        let s2 = s.drop_last();
        assert(s2[k] == s[k]);
        assert(s.last() == s[s.len() - 1]);
        lemma_table_lookup(s2, k);
    }
}

pub proof fn lemma_table_absent(s: Seq<(PeerAddr, PeerInfo)>, a: PeerAddr)
    requires
        forall|i: int| 0 <= i < s.len() ==> s[i].0 != a,
    ensures
        !table_of(s).contains_key(a),
    decreases s.len(),
{
    if s.len() > 0 {
        let s2 = s.drop_last();
        assert forall|i: int| 0 <= i < s2.len() implies s2[i].0 != a by {
            assert(s2[i] == s[i]);
        }
        lemma_table_absent(s2, a);
    }
}

pub proof fn lemma_table_update(s: Seq<(PeerAddr, PeerInfo)>, k: int, v: PeerInfo)
    requires
        unique_keys(s),
        0 <= k < s.len(),
    ensures
        table_of(s.update(k, (s[k].0, v))) == table_of(s).insert(s[k].0, v),
        unique_keys(s.update(k, (s[k].0, v))),
    decreases s.len(),
{
    let s2 = s.update(k, (s[k].0, v));
    let a = s[k].0;
    assert forall|i: int, j: int| 0 <= i < s2.len() && 0 <= j < s2.len() && i != j implies #[trigger] s2[i].0
        != #[trigger] s2[j].0 by {
        assert(s2[i].0 == s[i].0);
        assert(s2[j].0 == s[j].0);
    }
    if k == s.len() - 1 {
        assert(s2.drop_last() =~= s.drop_last());
        assert(table_of(s2) =~= table_of(s).insert(a, v));
    } else {
        let t = s.drop_last();
        assert(s2.drop_last() =~= t.update(k, (t[k].0, v)));
        assert(t[k] == s[k]);
        lemma_table_update(t, k, v);
        assert(s.last().0 != a);
        assert(table_of(s2) =~= table_of(s).insert(a, v));
    }
}

impl PeerState {
    /// No address twice in the table.
    pub open spec fn wf(&self) -> bool {
        unique_keys(self@.entries)
    }

    /// The table that the entries stand for.
    pub open spec fn table(&self) -> Map<PeerAddr, PeerInfo> {
        table_of(self@.entries)
    }

    /// No peers known, nothing ranked.
    pub fn new() -> (ps: PeerState)
        ensures
            ps@.entries == Seq::<(PeerAddr, PeerInfo)>::empty(),
            ps@.ranked == Seq::<(PeerAddr, PeerInfo)>::empty(),
            ps.wf(),
    {
        PeerState { peer_map: Vec::new(), peer_vec: Vec::new() }
    }

    /// The number of peers known.
    pub fn len(&self) -> (n: usize)
        ensures
            n == self@.entries.len(),
    {
        self.peer_map.len()
    }

    /// The ranking made at the last sort, best first.
    pub fn ranked(&self) -> (r: &Vec<(PeerAddr, PeerInfo)>)
        ensures
            r@ == self@.ranked,
    {
        &self.peer_vec
    }

    /// Where `addr` stands among the entries.
    fn find(&self, addr: PeerAddr) -> (pos: Option<usize>)
        ensures
            match pos {
                Some(k) => k < self@.entries.len() && self@.entries[k as int].0 == addr,
                None => forall|i: int| 0 <= i < self@.entries.len() ==> self@.entries[i].0 != addr,
            },
    {
        let n = self.peer_map.len();
        for k in 0..n
            invariant
                n == self@.entries.len(),
                forall|i: int| 0 <= i < k ==> self@.entries[i].0 != addr,
        {
            if self.peer_map[k].0 == addr {
                return Some(k);
            }
        }
        None
    }

    /// What is known of `addr`, if anything.
    pub fn get(&self, addr: PeerAddr) -> (info: Option<PeerInfo>)
        requires
            self.wf(),
        ensures
            match info {
                Some(i) => self.table().contains_key(addr) && self.table()[addr] == i,
                None => !self.table().contains_key(addr),
            },
    {
        match self.find(addr) {
            Some(k) => {
                proof {
                    lemma_table_lookup(self@.entries, k as int);
                }
                Some(self.peer_map[k].1)
            },
            None => {
                proof {
                    lemma_table_absent(self@.entries, addr);
                }
                None
            },
        }
    }

    /// Sets what is known of `addr`, as a map insert does; the ranking is kept.
    pub fn insert(&mut self, addr: PeerAddr, info: PeerInfo)
        requires
            old(self).wf(),
        ensures
            final(self).wf(),
            final(self).table() == old(self).table().insert(addr, info),
            final(self)@.ranked == old(self)@.ranked,
    {
        let ghost s = self@.entries;
        match self.find(addr) {
            Some(k) => {
                proof {
                    lemma_table_update(s, k as int, info);
                }
                self.peer_map.set(k, (addr, info));
                assert(self@.entries =~= s.update(k as int, (s[k as int].0, info)));
            },
            None => {
                self.peer_map.push((addr, info));
                proof {
                    let s2 = self@.entries;
                    assert(s2.drop_last() =~= s);
                    assert forall|i: int, j: int|
                        0 <= i < s2.len() && 0 <= j < s2.len() && i != j implies #[trigger] s2[i].0
                        != #[trigger] s2[j].0 by {
                        if i < s.len() && j < s.len() {
                            assert(s2[i] == s[i] && s2[j] == s[j]);
                        } else if i < s.len() {
                            assert(s2[i] == s[i]);
                        } else {
                            assert(s2[j] == s[j]);
                        }
                    }
                }
            },
        }
    }

    /// Notes that `src` was heard from at `now`; see [`seen`].
    pub fn note_sender(&mut self, src: PeerAddr, now: i64)
        requires
            old(self).wf(),
        ensures
            final(self).wf(),
            final(self).table() == seen(old(self).table(), src, now),
            final(self)@.ranked == old(self)@.ranked,
    {
        match self.get(src) {
            Some(info) => self.insert(src, PeerInfo { when_last_seen: now, delay: info.delay }),
            None => self.insert(src, PeerInfo { when_last_seen: now, delay: SECOND }),
        }
    }

    /// Reads back the saved list `saved` of addresses with round trips at `now`;
    /// see [`merged`].
    pub fn merge_saved(&mut self, saved: &Vec<(PeerAddr, u64)>, now: i64)
        requires
            old(self).wf(),
            now >= 0,
        ensures
            final(self).wf(),
            final(self).table() == merged(old(self).table(), saved@, now),
            final(self)@.ranked == old(self)@.ranked,
    {
        let n = saved.len();
        let ghost t0 = self.table();
        for k in 0..n
            invariant
                n == saved@.len(),
                now >= 0,
                self.wf(),
                self.table() == merged(t0, saved@.take(k as int), now),
                self@.ranked == old(self)@.ranked,
                t0 == old(self).table(),
        {
            let (addr, delay) = saved[k];
            proof {
                assert(saved@.take(k + 1).drop_last() =~= saved@.take(k as int));
            }
            self.insert(addr, PeerInfo { when_last_seen: now - SAVED_AGE as i64, delay });
        }
        assert(saved@.take(n as int) =~= saved@);
    }

    /// The sort key of `info` at `now`; see [`rank`].
    fn rank_key(now: i64, info: PeerInfo) -> (key: u128)
        ensures
            key == rank(now as int, info),
    {
        let e = elapsed_since(now, info.when_last_seen);
        proof {
            assert((e as int) * (info.delay as int) <= u128::MAX) by (nonlinear_arith)
                requires
                    e <= u64::MAX,
                    info.delay <= u64::MAX,
            ;
        }
        (e as u128) * (info.delay as u128)
    }

    /// Ranks the known peers at `now`, best first: the ranking becomes the
    /// entries, each once, ordered by [`rank`].
    pub fn sort(&mut self, now: i64)
        requires
            old(self).wf(),
        ensures
            final(self).wf(),
            final(self)@.entries == old(self)@.entries,
            final(self)@.ranked.to_multiset() == old(self)@.entries.to_multiset(),
            ranked_by(final(self)@.ranked, now as int),
    {
        let n = self.peer_map.len();
        let ghost s = self@.entries;
        let mut ranked: Vec<(PeerAddr, PeerInfo)> = Vec::new();
        let mut keys: Vec<u128> = Vec::new();
        assert(s.take(0) =~= ranked@);
        for k in 0..n
            invariant
                n == s.len(),
                s == self@.entries,
                ranked@.len() == keys@.len(),
                ranked@.len() == k,
                ranked@.to_multiset() == s.take(k as int).to_multiset(),
                ranked_by(ranked@, now as int),
                forall|j: int| 0 <= j < keys@.len() ==> keys@[j] == rank(now as int, #[trigger] ranked@[j].1),
        {
            let item = self.peer_map[k];
            let key = Self::rank_key(now, item.1);
            let mut j: usize = 0;
            while j < ranked.len() && keys[j] <= key
                invariant
                    j <= ranked@.len(),
                    ranked@.len() == keys@.len(),
                    forall|i: int| 0 <= i < j ==> rank(now as int, #[trigger] ranked@[i].1) <= key,
                    forall|i: int| 0 <= i < keys@.len() ==> keys@[i] == rank(now as int, #[trigger] ranked@[i].1),
                decreases ranked@.len() - j,
            {
                j = j + 1;
            }
            let ghost before = ranked@;
            ranked.insert(j, item);
            keys.insert(j, key);
            proof {
                assert(s.take(k + 1) =~= s.take(k as int).push(item));
                assert forall|a: int, b: int| 0 <= a <= b < ranked@.len() implies rank(now as int, #[trigger] ranked@[a].1)
                    <= rank(now as int, #[trigger] ranked@[b].1) by {
                    if a < j && b < j {
                        assert(ranked@[a] == before[a] && ranked@[b] == before[b]);
                    } else if a < j && b == j {
                        assert(ranked@[a] == before[a]);
                    } else if a < j {
                        assert(ranked@[a] == before[a] && ranked@[b] == before[b - 1]);
                    } else if a == j && b > j {
                        assert(ranked@[b] == before[b - 1]);
                        assert(j < before.len());
                        assert(keys@[j + 1] == rank(now as int, ranked@[j + 1].1));
                        assert(rank(now as int, before[j as int].1) > key);
                    } else if a > j {
                        assert(ranked@[a] == before[a - 1] && ranked@[b] == before[b - 1]);
                    }
                }
                assert forall|i: int| 0 <= i < keys@.len() implies keys@[i] == rank(now as int, #[trigger] ranked@[i].1) by {
                    if i < j {
                        assert(ranked@[i] == before[i]);
                    } else if i > j {
                        assert(ranked@[i] == before[i - 1]);
                    }
                }
            }
        }
        assert(s.take(n as int) =~= s);
        self.peer_vec = ranked;
    }

    /// The addresses at the positions `picks` of the ranking; see [`picked`].
    /// The positions come from a random draw skewed toward the best.
    pub fn best_peers(&self, picks: &Vec<usize>) -> (best: Vec<PeerAddr>)
        ensures
            best@ == picked(self@.ranked, picks@),
            best@.no_duplicates(),
    {
        let mut best: Vec<PeerAddr> = Vec::new();
        let n = picks.len();
        let len = self.peer_vec.len();
        for k in 0..n
            invariant
                n == picks@.len(),
                len == self@.ranked.len(),
                best@ == picked(self@.ranked, picks@.take(k as int)),
                best@.no_duplicates(),
        {
            let i = picks[k];
            proof {
                assert(picks@.take(k + 1).drop_last() =~= picks@.take(k as int));
                assert(picks@.take(k + 1).last() == i);
            }
            if i < len {
                proof {
                    lemma_with_peer_unique(best@, self@.ranked[i as int].0);
                }
                add_peer(&mut best, self.peer_vec[i].0);
            }
        }
        assert(picks@.take(n as int) =~= picks@);
        best
    }

    /// The peers to write to the saved list: the first `SAVED_PEERS` of the
    /// ranking.
    pub fn peers_to_save(&self) -> (list: Vec<(PeerAddr, PeerInfo)>)
        ensures
            list@ == saved_part(self@.ranked),
    {
        let n = if self.peer_vec.len() < SAVED_PEERS {
            self.peer_vec.len()
        } else {
            SAVED_PEERS
        };
        let mut list: Vec<(PeerAddr, PeerInfo)> = Vec::new();
        for k in 0..n
            invariant
                n <= self@.ranked.len(),
                list@ == self@.ranked.take(k as int),
        {
            list.push(self.peer_vec[k]);
            assert(list@ =~= self@.ranked.take(k + 1));
        }
        list
    }

    /// The messages that probe a peer at `now`: ask it for peers, and ask it to
    /// send back the time, to measure the round trip.
    pub fn probe_messages(now: i64) -> (out: Vec<Message>)
        requires
            now >= 0,
        ensures
            views(out@) == seq![
                MessageView::PleaseSendPeers,
                MessageView::PleaseReturnThisMessage { sent_at: now as nat },
            ],
    {
        let mut out: Vec<Message> = Vec::new();
        out.push(Message::PleaseSendPeers(PleaseSendPeers {}));
        out.push(Message::PleaseReturnThisMessage(PleaseReturnThisMessage { sent_at: now as u64 }));
        assert(views(out@) =~= seq![
            MessageView::PleaseSendPeers,
            MessageView::PleaseReturnThisMessage { sent_at: now as nat },
        ]);
        out
    }

    /// Whether the peer list is due to be saved, by the UTC wall clock: see
    /// [`save_due`] (second and minute read from two readings of the clock).
    pub fn save_due_now() -> (due: bool)
        ensures
            exists|s: nat, m: nat| s < 60 && m < 60 && due == save_due(s, m),
    {
        let second = utc_second();
        let minute = utc_minute();
        save_due_at(second, minute)
    }
}

/// Whether the peer list is due to be saved at `second` past `minute`.
pub fn save_due_at(second: u32, minute: u32) -> (due: bool)
    ensures
        due == save_due(second as nat, minute as nat),
{
    second / 3 + minute % 5 == 0
}

impl PleaseSendPeers {
    /// Answers with the addresses at the positions `picks` of the ranking.
    pub fn send_peers(&self, ps: &PeerState, picks: &Vec<usize>) -> (out: Vec<Message>)
        ensures
            views(out@) == seq![MessageView::Peers { peers: picked(ps@.ranked, picks@) }],
    {
        let best = ps.best_peers(picks);
        let mut out: Vec<Message> = Vec::new();
        out.push(Message::Peers(Peers { peers: best }));
        assert(views(out@) =~= seq![MessageView::Peers { peers: picked(ps@.ranked, picks@) }]);
        out
    }
}

impl Peers {
    /// Adds the suggested peers not known yet at `now`; see [`suggested`].
    /// Nothing is sent in reply.
    pub fn receive_peers(&self, ps: &mut PeerState, now: i64) -> (out: Vec<Message>)
        requires
            old(ps).wf(),
            now >= 0,
        ensures
            final(ps).wf(),
            final(ps).table() == suggested(old(ps).table(), self.peers@, now),
            final(ps)@.ranked == old(ps)@.ranked,
            out@.len() == 0,
    {
        let n = self.peers.len();
        let ghost t0 = ps.table();
        for k in 0..n
            invariant
                n == self.peers@.len(),
                now >= 0,
                ps.wf(),
                ps.table() == suggested(t0, self.peers@.take(k as int), now),
                ps@.ranked == old(ps)@.ranked,
                t0 == old(ps).table(),
        {
            let p = self.peers[k];
            proof {
                assert(self.peers@.take(k + 1).drop_last() =~= self.peers@.take(k as int));
            }
            if ps.get(p).is_none() {
                ps.insert(p, PeerInfo { when_last_seen: now - SUGGESTED_AGE as i64, delay: SECOND });
            }
        }
        assert(self.peers@.take(n as int) =~= self.peers@);
        Vec::new()
    }
}

impl ReturnedMessage {
    /// Takes the round trip to `src` to be the time from `sent_at` to `now`,
    /// when `src` is known. Nothing is sent in reply.
    pub fn update_round_trip_time(&self, ps: &mut PeerState, src: PeerAddr, now: i64) -> (out: Vec<Message>)
        requires
            old(ps).wf(),
        ensures
            final(ps).wf(),
            final(ps).table() == if old(ps).table().contains_key(src) {
                old(ps).table().insert(
                    src,
                    PeerInfo {
                        delay: elapsed(now as int, self.sent_at as int) as u64,
                        ..old(ps).table()[src]
                    },
                )
            } else {
                old(ps).table()
            },
            final(ps)@.ranked == old(ps)@.ranked,
            out@.len() == 0,
    {
        match ps.get(src) {
            Some(info) => {
                let delay: u64 = if (now as i128) > (self.sent_at as i128) {
                    (now as i128 - self.sent_at as i128) as u64
                } else {
                    0
                };
                ps.insert(src, PeerInfo { delay, ..info });
            },
            None => {},
        }
        Vec::new()
    }
}

impl PleaseReturnThisMessage {
    /// Asks the receiver to send back the time `now`.
    pub fn at(now: i64) -> (m: Message)
        requires
            now >= 0,
        ensures
            m@ == (MessageView::PleaseReturnThisMessage { sent_at: now as nat }),
    {
        Message::PleaseReturnThisMessage(PleaseReturnThisMessage { sent_at: now as u64 })
    }

    /// Whether a batch of replies also times the round trip: one time in 73.
    pub fn due_with(roll: u32) -> (due: bool)
        ensures
            due == ping_due(roll),
    {
        roll % 73 == 0
    }

    /// Whether a batch of replies also times the round trip, drawing the random
    /// number: [`PleaseReturnThisMessage::due_with`] of some number.
    pub fn due() -> (due: bool)
        ensures
            exists|roll: u32| due == #[trigger] ping_due(roll),
    {
        let roll = random_u32();
        Self::due_with(roll)
    }
}

} // verus!
