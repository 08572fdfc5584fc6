//! Who is on the group: the peer table.
//!
//! Times are nanoseconds on a clock that only moves forward.

use crate::lists::lemma_filter_from;
use crate::text::{lex_le, name_le};
use vstd::prelude::*;
use vstd::relations::*;
use vstd::seq_lib::*;

verus! {

/// How long after a voice frame its sender counts as speaking: 300 ms.
pub const SPEAKING_NS: u64 = 300_000_000;

/// How long a peer stays listed without being heard from: 15 s.
pub const EXPIRY_NS: u64 = 15_000_000_000;

/// The time from `then` to `now`, none if `then` is later.
pub open spec fn elapsed(now: u64, then: u64) -> nat {
    if now >= then {
        (now - then) as nat
    } else {
        0
    }
}

struct Peer {
    id: u64,
    name: String,
    last_seen: u64,
    speaking_until: u64,
}

#[verifier::ext_equal]
pub struct PeerView {
    pub id: u64,
    pub name: Seq<char>,
    pub last_seen: u64,
    pub speaking_until: u64,
}

impl View for Peer {
    type V = PeerView;

    closed spec fn view(&self) -> PeerView {
        PeerView {
            id: self.id,
            name: self.name@,
            last_seen: self.last_seen,
            speaking_until: self.speaking_until,
        }
    }
}

/// No peer is listed twice.
pub open spec fn distinct_peers(peers: Seq<PeerView>) -> bool {
    forall|i: int, j: int|
        0 <= i < j < peers.len() ==> (#[trigger] peers[i]).id != (#[trigger] peers[j]).id
}

pub open spec fn listed(peers: Seq<PeerView>, id: u64) -> bool {
    exists|i: int| 0 <= i < peers.len() && (#[trigger] peers[i]).id == id
}

/// The table after `id` was heard from: a known peer has its name and time
/// brought up to date, a new one is added, not speaking.
pub open spec fn seen(peers: Seq<PeerView>, id: u64, name: Seq<char>, now: u64) -> Seq<PeerView> {
    if listed(peers, id) {
        peers.map_values(
            |p: PeerView|
                if p.id == id {
                    PeerView { name, last_seen: now, ..p }
                } else {
                    p
                },
        )
    } else {
        peers.push(PeerView { id, name, last_seen: now, speaking_until: now })
    }
}

/// The table with `id` speaking until `until`.
pub open spec fn speaking(peers: Seq<PeerView>, id: u64, until: u64) -> Seq<PeerView> {
    peers.map_values(
        |p: PeerView|
            if p.id == id {
                PeerView { speaking_until: until, ..p }
            } else {
                p
            },
    )
}

/// The table without `id`.
pub open spec fn gone(peers: Seq<PeerView>, id: u64) -> Seq<PeerView> {
    peers.filter(|p: PeerView| p.id != id)
}

/// The peers that were heard from within the last 15 seconds.
pub open spec fn unexpired(peers: Seq<PeerView>, now: u64) -> Seq<PeerView> {
    peers.filter(|p: PeerView| elapsed(now, p.last_seen) < EXPIRY_NS)
}

/// `p` put into a list that is ordered by name, behind the peers of that name.
pub open spec fn insert_by_name(sorted: Seq<PeerView>, p: PeerView) -> Seq<PeerView>
    decreases sorted.len(),
{
    if sorted.len() == 0 || lex_le(sorted.last().name, p.name) {
        sorted.push(p)
    } else {
        insert_by_name(sorted.drop_last(), p).push(sorted.last())
    }
}

/// The peers ordered by name.
pub open spec fn by_name(peers: Seq<PeerView>) -> Seq<PeerView>
    decreases peers.len(),
{
    if peers.len() == 0 {
        Seq::empty()
    } else {
        insert_by_name(by_name(peers.drop_last()), peers.last())
    }
}

/// The names of the peers, ordered.
pub open spec fn sorted_names(peers: Seq<PeerView>) -> Seq<Seq<char>> {
    by_name(peers).map_values(|p: PeerView| p.name)
}

/// A line of the peer list.
pub struct PeerRow {
    pub id: u64,
    pub name: String,
    pub speaking: bool,
}

#[verifier::ext_equal]
pub struct PeerRowView {
    pub id: u64,
    pub name: Seq<char>,
    pub speaking: bool,
}

impl View for PeerRow {
    type V = PeerRowView;

    open spec fn view(&self) -> PeerRowView {
        PeerRowView { id: self.id, name: self.name@, speaking: self.speaking }
    }
}

/// How a peer is shown at the time `now`.
pub open spec fn row_of(p: PeerView, now: u64) -> PeerRowView {
    PeerRowView { id: p.id, name: p.name, speaking: p.speaking_until > now }
}

/// The peers on the group.
pub struct Peers {
    list: Vec<Peer>,
}

impl View for Peers {
    type V = Seq<PeerView>;

    closed spec fn view(&self) -> Seq<PeerView> {
        self.list@.map_values(|p: Peer| p@)
    }
}

impl Peers {
    pub open spec fn wf(&self) -> bool {
        distinct_peers(self@)
    }

    pub fn new() -> (r: Self)
        ensures
            r.wf(),
            r@ == Seq::<PeerView>::empty(),
    {
        let r = Peers { list: Vec::new() };
        assert(r@ =~= Seq::<PeerView>::empty());
        r
    }

    fn find(&self, id: u64) -> (r: Option<usize>)
        ensures
            match r {
                Some(i) => i < self.list@.len() && self@[i as int].id == id,
                None => !listed(self@, id),
            },
    {
        let mut i: usize = 0;
        while i < self.list.len()
            invariant
                i <= self.list@.len(),
                forall|j: int| 0 <= j < i ==> (#[trigger] self@[j]).id != id,
            decreases self.list@.len() - i,
        {
            if self.list[i].id == id {
                return Some(i);
            }
            i += 1;
        }
        None
    }

    /// The peer spoke: it counts as speaking for a while.
    pub fn mark_speaking(&mut self, id: u64, now: u64)
        requires
            old(self).wf(),
            now <= u64::MAX - SPEAKING_NS,
        ensures
            final(self).wf(),
            final(self)@ == speaking(old(self)@, id, (now + SPEAKING_NS) as u64),
    {
        let until: u64 = now + SPEAKING_NS;
        match self.find(id) {
            Some(i) => {
                self.list[i].speaking_until = until;
                assert(self@ =~= speaking(old(self)@, id, until));
            },
            None => {
                assert(self@ =~= speaking(self@, id, until)) by {
                    assert forall|j: int| 0 <= j < self@.len() implies (#[trigger] self@[j]).id
                        != id by {}
                }
            },
        }
    }

    /// Takes a peer off the table. Says whether it was on it.
    pub fn remove(&mut self, id: u64) -> (r: bool)
        requires
            old(self).wf(),
        ensures
            final(self).wf(),
            r == listed(old(self)@, id),
            final(self)@ == gone(old(self)@, id),
    {
        proof {
            lemma_filter_distinct(self@, |p: PeerView| p.id != id);
        }
        match self.find(id) {
            Some(i) => {
                let ghost before = self@;
                let _ = self.list.remove(i);
                assert(self@ =~= before.remove(i as int));
                proof {
                    lemma_gone_is_remove(before, i as int);
                }
                true
            },
            None => {
                proof {
                    lemma_gone_absent(self@, id);
                }
                false
            },
        }
    }

    /// Drops the peers that have not been heard from for too long.
    pub fn expire(&mut self, now: u64)
        requires
            old(self).wf(),
        ensures
            final(self).wf(),
            final(self)@ == unexpired(old(self)@, now),
    {
        let ghost keep = |p: PeerView| elapsed(now, p.last_seen) < EXPIRY_NS;
        let ghost before = self@;
        proof {
            lemma_filter_distinct(before, keep);
        }
        let mut all: Vec<Peer> = Vec::new();
        std::mem::swap(&mut self.list, &mut all);
        let n = all.len();
        let mut i: usize = 0;
        assert(before.take(0).filter(keep) =~= Seq::<PeerView>::empty()) by {
            reveal(Seq::filter);
        }
        assert(self@ =~= Seq::<PeerView>::empty());
        while i < n
            invariant
                i <= n,
                n == before.len(),
                keep == (|p: PeerView| elapsed(now, p.last_seen) < EXPIRY_NS),
                all@.map_values(|p: Peer| p@) =~= before.skip(i as int),
                self@ == before.take(i as int).filter(keep),
            decreases n - i,
        {
            let ghost rest = all@.map_values(|p: Peer| p@);
            assert(rest.len() == n - i);
            let peer = all.remove(0);
            assert(peer@ == rest[0]);
            assert(peer@ == before[i as int]);
            assert(before.take(i + 1) =~= before.take(i as int).push(before[i as int]));
            proof {
                before.take(i as int).lemma_filter_push(before[i as int], keep);
            }
            let ghost kept = self@;
            if now < peer.last_seen || now - peer.last_seen < EXPIRY_NS {
                self.list.push(peer);
                assert(self@ =~= kept.push(peer@));
            }
            assert(all@.map_values(|p: Peer| p@) =~= rest.skip(1));
            i += 1;
        }
        assert(before.take(i as int) =~= before);
    }

    /// The peers ordered by name, as indices into the table.
    fn order(&self) -> (r: Vec<usize>)
        ensures
            r@.len() == self@.len(),
            forall|k: int| 0 <= k < r@.len() ==> #[trigger] r@[k] < self@.len(),
            r@.map_values(|i: usize| self@[i as int]) == by_name(self@),
    {
        let mut r: Vec<usize> = Vec::new();
        let ghost pick = |i: usize| self@[i as int];
        let mut n: usize = 0;
        assert(r@.map_values(pick) =~= by_name(self@.take(0)));
        while n < self.list.len()
            invariant
                n <= self.list@.len(),
                self.list@.len() == self@.len(),
                r@.len() == n,
                pick == (|i: usize| self@[i as int]),
                forall|k: int| 0 <= k < r@.len() ==> #[trigger] r@[k] < n,
                r@.map_values(pick) == by_name(self@.take(n as int)),
            decreases self.list@.len() - n,
        {
            let ghost sorted = r@.map_values(pick);
            let ghost new = self@[n as int];
            let mut at: usize = n;
            assert(sorted.take(at as int) =~= sorted);
            assert(sorted.skip(at as int) =~= Seq::<PeerView>::empty());
            assert(insert_by_name(sorted, new) =~= insert_by_name(sorted.take(at as int), new)
                + sorted.skip(at as int));
            while at > 0 && !name_le(self.list[r[at - 1]].name.as_str(), self.list[n].name.as_str())
                invariant
                    at <= n,
                    n < self.list@.len(),
                    self.list@.len() == self@.len(),
                    r@.len() == n,
                    pick == (|i: usize| self@[i as int]),
                    sorted == r@.map_values(pick),
                    new == self@[n as int],
                    forall|k: int| 0 <= k < r@.len() ==> #[trigger] r@[k] < n,
                    insert_by_name(sorted, new) == insert_by_name(sorted.take(at as int), new)
                        + sorted.skip(at as int),
                decreases at,
            {
                let ghost front = sorted.take(at as int);
                assert(front.last() == sorted[at - 1]);
                assert(front.drop_last() =~= sorted.take(at - 1));
                assert(insert_by_name(front, new) == insert_by_name(sorted.take(at - 1), new).push(
                    sorted[at - 1],
                ));
                assert(insert_by_name(front, new) + sorted.skip(at as int) =~= insert_by_name(
                    sorted.take(at - 1),
                    new,
                ) + sorted.skip(at - 1));
                at -= 1;
            }
            let ghost front = sorted.take(at as int);
            assert(at > 0 ==> front.last() == sorted[at - 1]);
            assert(insert_by_name(front, new) == front.push(new));
            r.insert(at, n);
            assert(self@.take(n + 1).drop_last() =~= self@.take(n as int));
            assert(r@.map_values(pick) =~= front.push(new) + sorted.skip(at as int));
            assert forall|k: int| 0 <= k < r@.len() implies #[trigger] r@[k] < n + 1 by {}
            n += 1;
        }
        assert(self@.take(n as int) =~= self@);
        r
    }

    /// The peer list as it is shown at the time `now`: ordered by name.
    pub fn rows(&self, now: u64) -> (r: Vec<PeerRow>)
        ensures
            r@.map_values(|row: PeerRow| row@) == by_name(self@).map_values(
                |p: PeerView| row_of(p, now),
            ),
    {
        let order = self.order();
        let ghost sorted = by_name(self@);
        assert(sorted.len() == order@.len());
        let mut r: Vec<PeerRow> = Vec::new();
        let mut k: usize = 0;
        while k < order.len()
            invariant
                k <= order@.len(),
                order@.len() == self@.len(),
                self@.len() == self.list@.len(),
                forall|j: int| 0 <= j < order@.len() ==> #[trigger] order@[j] < self@.len(),
                order@.map_values(|i: usize| self@[i as int]) == sorted,
                sorted.len() == order@.len(),
                r@.map_values(|row: PeerRow| row@) =~= sorted.take(k as int).map_values(
                    |p: PeerView| row_of(p, now),
                ),
            decreases order@.len() - k,
        {
            let peer = &self.list[order[k]];
            assert(sorted[k as int] == order@.map_values(|i: usize| self@[i as int])[k as int]);
            assert(peer@ == sorted[k as int]);
            let row = PeerRow {
                id: peer.id,
                name: peer.name.clone(),
                speaking: peer.speaking_until > now,
            };
            assert(row@ =~= row_of(peer@, now));
            let ghost done = r@.map_values(|row: PeerRow| row@);
            r.push(row);
            assert(r@.map_values(|row: PeerRow| row@) =~= done.push(row@));
            assert(sorted.take(k + 1) =~= sorted.take(k as int).push(sorted[k as int]));
            k += 1;
        }
        assert(sorted.take(k as int) =~= sorted);
        r
    }

    /// The names of the peers, ordered.
    pub fn names(&self) -> (r: Vec<String>)
        ensures
            crate::text::views(r@) == sorted_names(self@),
    {
        let order = self.order();
        let ghost sorted = by_name(self@);
        assert(sorted.len() == order@.len());
        let mut r: Vec<String> = Vec::new();
        let mut k: usize = 0;
        while k < order.len()
            invariant
                k <= order@.len(),
                order@.len() == self@.len(),
                self@.len() == self.list@.len(),
                forall|j: int| 0 <= j < order@.len() ==> #[trigger] order@[j] < self@.len(),
                order@.map_values(|i: usize| self@[i as int]) == sorted,
                sorted.len() == order@.len(),
                crate::text::views(r@) =~= sorted.take(k as int).map_values(|p: PeerView| p.name),
            decreases order@.len() - k,
        {
            let peer = &self.list[order[k]];
            assert(sorted[k as int] == order@.map_values(|i: usize| self@[i as int])[k as int]);
            assert(peer@ == sorted[k as int]);
            let ghost done = crate::text::views(r@);
            r.push(peer.name.clone());
            assert(crate::text::views(r@) =~= done.push(peer@.name));
            assert(sorted.take(k + 1) =~= sorted.take(k as int).push(sorted[k as int]));
            k += 1;
        }
        assert(sorted.take(k as int) =~= sorted);
        r
    }
}

/// A peer was heard from. Says whether it is new.
pub fn upsert_peer(peers: &mut Peers, id: u64, name: &str, now: u64) -> (r: bool)
    requires
        old(peers).wf(),
    ensures
        final(peers).wf(),
        r == !listed(old(peers)@, id),
        final(peers)@ == seen(old(peers)@, id, name@, now),
{
    match peers.find(id) {
        Some(i) => {
            peers.list[i].name = name.to_owned();
            peers.list[i].last_seen = now;
            assert(peers@ =~= seen(old(peers)@, id, name@, now));
            false
        },
        None => {
            peers.list.push(Peer { id, name: name.to_owned(), last_seen: now, speaking_until: now });
            assert(peers@ =~= seen(old(peers)@, id, name@, now));
            true
        },
    }
}

// ---- filtering --------------------------------------------------------------

/// Filtering lists nobody twice.
pub proof fn lemma_filter_distinct(peers: Seq<PeerView>, keep: spec_fn(PeerView) -> bool)
    requires
        distinct_peers(peers),
    ensures
        distinct_peers(peers.filter(keep)),
{
    let kept = peers.filter(keep);
    assert forall|a: int, b: int| 0 <= a < b < kept.len() implies (#[trigger] kept[a]).id != (
    #[trigger] kept[b]).id by {
        let i = lemma_filter_from(peers, keep, a);
        let j = lemma_filter_from(peers, keep, b);
        assert(i != j);
        assert(peers[i].id != peers[j].id);
    }
}

proof fn lemma_gone_absent(peers: Seq<PeerView>, id: u64)
    requires
        !listed(peers, id),
    ensures
        gone(peers, id) == peers,
    decreases peers.len(),
{
    reveal(Seq::filter);
    if peers.len() > 0 {
        let front = peers.drop_last();
        assert(peers.last() == peers[peers.len() - 1]);
        assert(!listed(front, id)) by {
            assert forall|i: int| 0 <= i < front.len() implies (#[trigger] front[i]).id != id by {
                assert(peers[i].id != id);
            }
        }
        lemma_gone_absent(front, id);
        assert(front.push(peers.last()) =~= peers);
    }
    assert(gone(peers, id) =~= peers);
}

proof fn lemma_gone_is_remove(peers: Seq<PeerView>, i: int)
    requires
        distinct_peers(peers),
        0 <= i < peers.len(),
    ensures
        gone(peers, peers[i].id) == peers.remove(i),
    decreases peers.len(),
{
    reveal(Seq::filter);
    let id = peers[i].id;
    let n = peers.len() - 1;
    let front = peers.drop_last();
    if i == n {
        assert(!listed(front, id)) by {
            assert forall|j: int| 0 <= j < front.len() implies (#[trigger] front[j]).id != id by {
                assert(peers[j].id != peers[i].id);
            }
        }
        lemma_gone_absent(front, id);
        assert(gone(peers, id) =~= peers.remove(i));
    } else {
        assert(distinct_peers(front)) by {
            assert forall|a: int, b: int| 0 <= a < b < front.len() implies (#[trigger] front[a]).id
                != (#[trigger] front[b]).id by {
                assert(peers[a].id != peers[b].id);
            }
        }
        assert(front[i] == peers[i]);
        assert(peers[i].id != peers[n].id);
        lemma_gone_is_remove(front, i);
        assert(gone(peers, id) =~= peers.remove(i));
    }
}

// ---- laws -------------------------------------------------------------------

/// A peer that was just heard from is listed under the name it gave and is not
/// due to expire; nobody else is touched.
pub proof fn heard_peers_are_listed(peers: Seq<PeerView>, id: u64, name: Seq<char>, now: u64)
    requires
        distinct_peers(peers),
    ensures
        distinct_peers(seen(peers, id, name, now)),
        listed(seen(peers, id, name, now), id),
        forall|p: PeerView| #[trigger] seen(peers, id, name, now).contains(p) && p.id == id ==> p.name
            == name && p.last_seen == now,
        forall|p: PeerView| p.id != id ==> (peers.contains(p) <==> #[trigger] seen(
            peers,
            id,
            name,
            now,
        ).contains(p)),
{
    let after = seen(peers, id, name, now);
    if listed(peers, id) {
        let i = choose|i: int| 0 <= i < peers.len() && (#[trigger] peers[i]).id == id;
        assert(after[i].id == id);
    } else {
        assert(after[peers.len() as int].id == id);
    }
    assert forall|p: PeerView| p.id != id && peers.contains(p) implies #[trigger] after.contains(
        p,
    ) by {
        let j = choose|j: int| 0 <= j < peers.len() && peers[j] == p;
        assert(after[j] == p);
    }
    assert forall|p: PeerView| p.id != id && #[trigger] after.contains(p) implies peers.contains(
        p,
    ) by {
        let j = choose|j: int| 0 <= j < after.len() && after[j] == p;
        assert(peers[j] == p);
    }
}

/// A peer that said goodbye is not listed, and everybody else still is.
pub proof fn departed_peers_are_unlisted(peers: Seq<PeerView>, id: u64)
    ensures
        !listed(gone(peers, id), id),
        forall|p: PeerView| p.id != id ==> (peers.contains(p) <==> #[trigger] gone(
            peers,
            id,
        ).contains(p)),
{
    let keep = |p: PeerView| p.id != id;
    lemma_filter_exact(peers, keep);
    let after = gone(peers, id);
    assert forall|j: int| 0 <= j < after.len() implies (#[trigger] after[j]).id != id by {
        let i = lemma_filter_from(peers, keep, j);
    }
}

/// A peer stays on the table exactly as long as less than 15 seconds have gone
/// by since it was last heard from.
pub proof fn peers_expire_after_the_limit(peers: Seq<PeerView>, now: u64, p: PeerView)
    ensures
        unexpired(peers, now).contains(p) <==> peers.contains(p) && now - p.last_seen
            < 15_000_000_000,
        unexpired(peers, now).len() <= peers.len(),
{
    let keep = |p: PeerView| elapsed(now, p.last_seen) < EXPIRY_NS;
    lemma_filter_exact(peers, keep);
    peers.lemma_filter_len(keep);
}

proof fn lemma_filter_exact(peers: Seq<PeerView>, keep: spec_fn(PeerView) -> bool)
    ensures
        forall|p: PeerView| #[trigger]
            peers.filter(keep).contains(p) <==> peers.contains(p) && keep(p),
{
    assert forall|p: PeerView| peers.contains(p) && keep(p) implies #[trigger] peers.filter(
        keep,
    ).contains(p) by {
        let i = choose|i: int| 0 <= i < peers.len() && peers[i] == p;
        peers.lemma_filter_contains(keep, i);
    }
    assert forall|p: PeerView| #[trigger] peers.filter(keep).contains(p) implies peers.contains(p)
        && keep(p) by {
        let j = choose|j: int| 0 <= j < peers.filter(keep).len() && peers.filter(keep)[j] == p;
        let i = lemma_filter_from(peers, keep, j);
    }
}

/// A peer shows as speaking from a voice frame until 300 ms later.
pub proof fn speaking_lasts_a_while(peers: Seq<PeerView>, id: u64, now: u64, later: u64, p: PeerView)
    requires
        now <= u64::MAX - SPEAKING_NS,
        now <= later,
        speaking(peers, id, (now + SPEAKING_NS) as u64).contains(p),
        p.id == id,
    ensures
        row_of(p, later).speaking <==> later - now < 300_000_000,
{
    let after = speaking(peers, id, (now + SPEAKING_NS) as u64);
    let i = choose|i: int| 0 <= i < after.len() && after[i] == p;
    assert(peers[i].id == id);
}

/// The peer list is ordered by name and holds every peer once.
pub proof fn list_is_ordered_and_complete(peers: Seq<PeerView>)
    ensures
        forall|i: int, j: int|
            0 <= i < j < by_name(peers).len() ==> lex_le(
                (#[trigger] by_name(peers)[i]).name,
                (#[trigger] by_name(peers)[j]).name,
            ),
        by_name(peers).to_multiset() == peers.to_multiset(),
    decreases peers.len(),
{
    if peers.len() == 0 {
        assert(by_name(peers) =~= peers);
    } else {
        let front = peers.drop_last();
        list_is_ordered_and_complete(front);
        lemma_insert_by_name(by_name(front), peers.last());
        assert(front.push(peers.last()) =~= peers);
        broadcast use to_multiset_build;

    }
}

proof fn lemma_insert_by_name(sorted: Seq<PeerView>, p: PeerView)
    requires
        forall|i: int, j: int|
            0 <= i < j < sorted.len() ==> lex_le(
                (#[trigger] sorted[i]).name,
                (#[trigger] sorted[j]).name,
            ),
    ensures
        forall|i: int, j: int|
            0 <= i < j < insert_by_name(sorted, p).len() ==> lex_le(
                (#[trigger] insert_by_name(sorted, p)[i]).name,
                (#[trigger] insert_by_name(sorted, p)[j]).name,
            ),
        insert_by_name(sorted, p).to_multiset() == sorted.to_multiset().insert(p),
        insert_by_name(sorted, p).len() == sorted.len() + 1,
        forall|i: int|
            0 <= i < insert_by_name(sorted, p).len() ==> (#[trigger] insert_by_name(sorted, p)[i])
                == p || sorted.contains(insert_by_name(sorted, p)[i]),
    decreases sorted.len(),
{
    broadcast use to_multiset_build;

    let out = insert_by_name(sorted, p);
    if sorted.len() == 0 || lex_le(sorted.last().name, p.name) {
        assert forall|i: int, j: int| 0 <= i < j < out.len() implies lex_le(
            (#[trigger] out[i]).name,
            (#[trigger] out[j]).name,
        ) by {
            if j == sorted.len() {
                if i < sorted.len() - 1 {
                    crate::text::lemma_lex_transitive(out[i].name, sorted.last().name, p.name);
                }
            }
        }
        assert forall|i: int| 0 <= i < out.len() implies (#[trigger] out[i]) == p
            || sorted.contains(out[i]) by {
            if i < sorted.len() {
                assert(out[i] == sorted[i]);
            }
        }
    } else {
        let front = sorted.drop_last();
        let last = sorted.last();
        lemma_insert_by_name(front, p);
        let inner = insert_by_name(front, p);
        assert(out == inner.push(last));
        crate::text::lemma_lex_total(last.name, p.name);
        assert forall|i: int, j: int| 0 <= i < j < out.len() implies lex_le(
            (#[trigger] out[i]).name,
            (#[trigger] out[j]).name,
        ) by {
            if j == inner.len() {
                assert(out[i] == inner[i]);
                if inner[i] != p {
                    let k = choose|k: int| 0 <= k < front.len() && front[k] == inner[i];
                    assert(sorted[k] == inner[i]);
                    assert(lex_le(sorted[k].name, sorted[sorted.len() - 1].name));
                }
            } else {
                assert(out[i] == inner[i] && out[j] == inner[j]);
            }
        }
        assert forall|i: int| 0 <= i < out.len() implies (#[trigger] out[i]) == p
            || sorted.contains(out[i]) by {
            if i < inner.len() {
                assert(out[i] == inner[i]);
                if inner[i] != p {
                    let k = choose|k: int| 0 <= k < front.len() && front[k] == inner[i];
                    assert(sorted[k] == inner[i]);
                }
            } else {
                assert(sorted[sorted.len() - 1] == last);
            }
        }
        assert(sorted =~= front.push(last));
        assert(out.to_multiset() =~= sorted.to_multiset().insert(p));
    }
}

/// The names that are listed do not depend on the order in which the peers came
/// to be known.
pub proof fn listing_ignores_arrival_order(a: Seq<PeerView>, b: Seq<PeerView>)
    requires
        a.map_values(|p: PeerView| p.name).to_multiset() == b.map_values(
            |p: PeerView| p.name,
        ).to_multiset(),
    ensures
        sorted_names(a) == sorted_names(b),
{
    let leq = |x: Seq<char>, y: Seq<char>| lex_le(x, y);
    assert(total_ordering(leq)) by {
        assert forall|x: Seq<char>| #[trigger] leq(x, x) by {
            crate::text::lemma_lex_total(x, x);
        }
        assert forall|x: Seq<char>, y: Seq<char>| #[trigger] leq(x, y) && #[trigger] leq(
            y,
            x,
        ) implies x == y by {
            crate::text::lemma_lex_antisymmetric(x, y);
        }
        assert forall|x: Seq<char>, y: Seq<char>, z: Seq<char>| #[trigger] leq(x, y)
            && #[trigger] leq(y, z) implies leq(x, z) by {
            crate::text::lemma_lex_transitive(x, y, z);
        }
        assert forall|x: Seq<char>, y: Seq<char>| #[trigger] leq(x, y) || #[trigger] leq(y, x) by {
            crate::text::lemma_lex_total(x, y);
        }
    }
    list_is_ordered_and_complete(a);
    list_is_ordered_and_complete(b);
    lemma_names_multiset(a);
    lemma_names_multiset(b);
    assert(sorted_by(sorted_names(a), leq));
    assert(sorted_by(sorted_names(b), leq));
    lemma_sorted_unique(sorted_names(a), sorted_names(b), leq);
}

proof fn lemma_names_multiset(peers: Seq<PeerView>)
    ensures
        sorted_names(peers).to_multiset() == peers.map_values(|p: PeerView| p.name).to_multiset(),
    decreases peers.len(),
{
    broadcast use to_multiset_build;

    let f = |p: PeerView| p.name;
    if peers.len() == 0 {
        assert(sorted_names(peers) =~= peers.map_values(f));
    } else {
        let front = peers.drop_last();
        lemma_names_multiset(front);
        lemma_insert_names(by_name(front), peers.last());
        assert(peers.map_values(f) =~= front.map_values(f).push(peers.last().name));
    }
}

proof fn lemma_insert_names(sorted: Seq<PeerView>, p: PeerView)
    ensures
        insert_by_name(sorted, p).map_values(|p: PeerView| p.name).to_multiset()
            == sorted.map_values(|p: PeerView| p.name).to_multiset().insert(p.name),
    decreases sorted.len(),
{
    broadcast use to_multiset_build;

    let f = |p: PeerView| p.name;
    if sorted.len() == 0 || lex_le(sorted.last().name, p.name) {
        assert(sorted.push(p).map_values(f) =~= sorted.map_values(f).push(p.name));
    } else {
        let front = sorted.drop_last();
        let last = sorted.last();
        lemma_insert_names(front, p);
        assert(insert_by_name(front, p).push(last).map_values(f) =~= insert_by_name(
            front,
            p,
        ).map_values(f).push(last.name));
        assert(sorted.map_values(f) =~= front.map_values(f).push(last.name));
        assert(insert_by_name(sorted, p).map_values(f).to_multiset() =~= sorted.map_values(
            f,
        ).to_multiset().insert(p.name));
    }
}

/// A message brings the name and the time of its sender up to date and leaves
/// alone until when it counts as speaking; a sender that was not listed is added,
/// not speaking.
pub proof fn a_message_updates_its_sender(
    peers: Seq<PeerView>,
    id: u64,
    name: Seq<char>,
    now: u64,
    i: int,
)
    ensures
        0 <= i < peers.len() && peers[i].id == id ==> {
            &&& seen(peers, id, name, now).len() == peers.len()
            &&& seen(peers, id, name, now)[i].id == id
            &&& seen(peers, id, name, now)[i].name == name
            &&& seen(peers, id, name, now)[i].last_seen == now
            &&& seen(peers, id, name, now)[i].speaking_until == peers[i].speaking_until
        },
        0 <= i < peers.len() && peers[i].id != id ==> seen(peers, id, name, now)[i] == peers[i],
        (forall|k: int| 0 <= k < peers.len() ==> (#[trigger] peers[k]).id != id) ==> {
            let after = seen(peers, id, name, now);
            &&& after.len() == peers.len() + 1
            &&& after.last().id == id
            &&& after.last().name == name
            &&& after.last().last_seen == now
            &&& after.last().speaking_until == now
        },
{
    if 0 <= i < peers.len() && peers[i].id == id {
        assert(listed(peers, id));
    }
}

/// A voice frame sets until when its sender counts as speaking, and nothing else
/// of anybody.
pub proof fn a_voice_marks_its_sender(peers: Seq<PeerView>, id: u64, until: u64, i: int)
    requires
        0 <= i < peers.len(),
    ensures
        speaking(peers, id, until).len() == peers.len(),
        speaking(peers, id, until)[i].id == peers[i].id,
        speaking(peers, id, until)[i].name == peers[i].name,
        speaking(peers, id, until)[i].last_seen == peers[i].last_seen,
        peers[i].id == id ==> speaking(peers, id, until)[i].speaking_until == until,
        peers[i].id != id ==> speaking(peers, id, until)[i] == peers[i],
{
}

/// A peer is shown under its own name and id.
pub proof fn rows_name_their_peer(p: PeerView, now: u64)
    ensures
        row_of(p, now).id == p.id,
        row_of(p, now).name == p.name,
        row_of(p, now).speaking <==> now < p.speaking_until,
{
}

/// The list of names is ordered and holds the name of every peer, as often as
/// there are peers of that name, and no other.
pub proof fn names_are_ordered_and_complete(peers: Seq<PeerView>)
    ensures
        sorted_names(peers).len() == peers.len(),
        forall|i: int, j: int|
            0 <= i < j < peers.len() ==> lex_le(
                #[trigger] sorted_names(peers)[i],
                #[trigger] sorted_names(peers)[j],
            ),
        sorted_names(peers).to_multiset() == peers.map_values(|p: PeerView| p.name).to_multiset(),
{
    list_is_ordered_and_complete(peers);
    let list = by_name(peers);
    to_multiset_len(list);
    to_multiset_len(peers);
    assert forall|i: int, j: int| 0 <= i < j < peers.len() implies lex_le(
        #[trigger] sorted_names(peers)[i],
        #[trigger] sorted_names(peers)[j],
    ) by {
        assert(lex_le(list[i].name, list[j].name));
    }
    lemma_names_multiset(peers);
}

} // verus!
