//! The peers this node knows: one record per address, kept in the order of
//! the addresses' bytes, as a `BTreeMap<String, _>` keeps its keys.

use vstd::prelude::*;
use vstd::utf8::{encode_utf8, decode_utf8, encode_utf8_decode_utf8};
use vstd::slice::slice_to_vec;

verus! {

/// A point in time: whole seconds since the Unix epoch and the nanoseconds
/// past them.
#[derive(Debug, Clone, Copy, PartialEq, Eq, Structural)]
pub struct Timestamp {
    pub sec: i64,
    pub nsec: i32,
}

/// Calls `time::get_time`: the current wall-clock time. The crate builds
/// its result with `Timespec::new`, which checks that the nanoseconds lie
/// in `0..1_000_000_000`; nothing else is claimed of it.
#[verifier::external_body]
fn now() -> (r: Timestamp)
    ensures
        0 <= r.nsec < 1_000_000_000,
{
    let t = time::get_time();
    Timestamp { sec: t.sec, nsec: t.nsec }
}

/// What is known of one peer.
#[derive(Debug, Clone)]
pub struct Peer {
    address: String,
    key_id: String,
    last_seen: Timestamp,
    offline: bool,
}

/// A peer as its contract speaks of it: address, key id, when it was last
/// seen, and whether it is offline.
pub type PeerView = (Seq<char>, Seq<char>, Timestamp, bool);

impl View for Peer {
    type V = PeerView;

    closed spec fn view(&self) -> PeerView {
        (self.address@, self.key_id@, self.last_seen, self.offline)
    }
}

impl Peer {
    pub fn new_with_time(addr: String, key: String, last: Timestamp, offline: bool) -> (r: Peer)
        ensures
            r@ == (addr@, key@, last, offline),
    {
        Peer { address: addr, key_id: key, last_seen: last, offline: offline }
    }

    /// A peer seen now.
    pub fn new(addr: String, key: String, offline: bool) -> (r: Peer)
        ensures
            r@.0 == addr@,
            r@.1 == key@,
            r@.3 == offline,
            0 <= r@.2.nsec < 1_000_000_000,
    {
        Peer { address: addr, key_id: key, last_seen: now(), offline: offline }
    }

    pub fn address(&self) -> (r: &String)
        ensures
            r@ == self@.0,
    {
        &self.address
    }

    pub fn key_id(&self) -> (r: &String)
        ensures
            r@ == self@.1,
    {
        &self.key_id
    }

    pub fn last_seen(&self) -> (r: Timestamp)
        ensures
            r == self@.2,
    {
        self.last_seen
    }

    pub fn offline(&self) -> (r: bool)
        ensures
            r == self@.3,
    {
        self.offline
    }
}

// The order of addresses.

/// `a` comes before `b` in the lexicographic order of bytes, the order of
/// `Ord` on `str`.
pub open spec fn bytes_lt(a: Seq<u8>, b: Seq<u8>) -> bool
    decreases a.len(),
{
    if a.len() == 0 {
        b.len() > 0
    } else if b.len() == 0 {
        false
    } else if a[0] != b[0] {
        a[0] < b[0]
    } else {
        bytes_lt(a.drop_first(), b.drop_first())
    }
}

/// The bytes an address is ordered by.
pub open spec fn address_key(address: Seq<char>) -> Seq<u8> {
    encode_utf8(address)
}

proof fn lemma_lt_irreflexive(a: Seq<u8>)
    ensures
        !bytes_lt(a, a),
    decreases a.len(),
{
    if a.len() > 0 {
        lemma_lt_irreflexive(a.drop_first());
    }
}

proof fn lemma_lt_total(a: Seq<u8>, b: Seq<u8>)
    ensures
        a != b ==> bytes_lt(a, b) || bytes_lt(b, a),
        !(bytes_lt(a, b) && bytes_lt(b, a)),
    decreases a.len(),
{
    if a.len() > 0 && b.len() > 0 {
        lemma_lt_total(a.drop_first(), b.drop_first());
        if a[0] == b[0] && a.drop_first() == b.drop_first() {
            assert(a =~= seq![a[0]] + a.drop_first());
            assert(b =~= seq![b[0]] + b.drop_first());
        }
    } else if a.len() == 0 && b.len() == 0 {
        assert(a =~= b);
    }
}

proof fn lemma_lt_transitive(a: Seq<u8>, b: Seq<u8>, c: Seq<u8>)
    requires
        bytes_lt(a, b),
        bytes_lt(b, c),
    ensures
        bytes_lt(a, c),
    decreases a.len(),
{
    if a.len() > 0 && b.len() > 0 && c.len() > 0 {
        if a[0] == b[0] && b[0] == c[0] {
            lemma_lt_transitive(a.drop_first(), b.drop_first(), c.drop_first());
        }
    }
}

/// Whether `a` comes before `b`, and whether they are equal.
fn compare_bytes(a: &[u8], b: &[u8]) -> (r: (bool, bool))
    ensures
        r.0 == bytes_lt(a@, b@),
        r.1 == (a@ == b@),
{
    let n = a.len();
    let m = b.len();
    let mut i: usize = 0;
    assert(a@.skip(0) =~= a@);
    assert(b@.skip(0) =~= b@);
    while i < n && i < m && a[i] == b[i]
        invariant
            i <= n,
            i <= m,
            n == a@.len(),
            m == b@.len(),
            bytes_lt(a@, b@) == bytes_lt(a@.skip(i as int), b@.skip(i as int)),
            a@.take(i as int) == b@.take(i as int),
        decreases n - i,
    {
        assert(a@.skip(i as int).drop_first() =~= a@.skip(i + 1));
        assert(b@.skip(i as int).drop_first() =~= b@.skip(i + 1));
        assert(a@.take(i + 1) =~= a@.take(i as int).push(a@[i as int]));
        assert(b@.take(i + 1) =~= b@.take(i as int).push(b@[i as int]));
        i = i + 1;
    }
    let ghost sa = a@.skip(i as int);
    let ghost sb = b@.skip(i as int);
    if i < n && i < m {
        assert(sa[0] == a@[i as int] && sb[0] == b@[i as int]);
        proof {
            if a@ == b@ {
                assert(a@[i as int] == b@[i as int]);
            }
        }
        (a[i] < b[i], false)
    } else {
        if i == n && i == m {
            assert(a@ =~= a@.take(i as int));
            assert(b@ =~= b@.take(i as int));
            (false, true)
        } else if i == n {
            assert(a@ =~= a@.take(i as int));
            (true, false)
        } else {
            assert(b@ =~= b@.take(i as int));
            assert(sa.len() > 0 && sb.len() == 0);
            (false, false)
        }
    }
}

/// The peers are ordered by address, with no address twice.
pub open spec fn sorted_by_address(ps: Seq<PeerView>) -> bool {
    forall|i: int, j: int|
        0 <= i < j < ps.len() ==> bytes_lt(
            address_key((#[trigger] ps[i]).0),
            address_key((#[trigger] ps[j]).0),
        )
}

/// Some peer has the address `a`.
pub open spec fn has_address(ps: Seq<PeerView>, a: Seq<char>) -> bool {
    exists|i: int| 0 <= i < ps.len() && (#[trigger] ps[i]).0 == a
}

/// A position of a peer with the address `a`.
pub open spec fn index_of_address(ps: Seq<PeerView>, a: Seq<char>) -> int {
    choose|i: int| 0 <= i < ps.len() && (#[trigger] ps[i]).0 == a
}

/// The peers known by address.
pub open spec fn peer_map(ps: Seq<PeerView>) -> Map<Seq<char>, PeerView> {
    Map::new(|a: Seq<char>| has_address(ps, a), |a: Seq<char>| ps[index_of_address(ps, a)])
}

proof fn lemma_sorted_distinct(ps: Seq<PeerView>, i: int, j: int)
    requires
        sorted_by_address(ps),
        0 <= i < ps.len(),
        0 <= j < ps.len(),
        i != j,
    ensures
        ps[i].0 != ps[j].0,
{
    if i < j {
        assert(bytes_lt(address_key(ps[i].0), address_key(ps[j].0)));
        lemma_lt_irreflexive(address_key(ps[i].0));
    } else {
        assert(bytes_lt(address_key(ps[j].0), address_key(ps[i].0)));
        lemma_lt_irreflexive(address_key(ps[j].0));
    }
}

proof fn lemma_peer_map_index(ps: Seq<PeerView>, i: int)
    requires
        sorted_by_address(ps),
        0 <= i < ps.len(),
    ensures
        peer_map(ps).contains_key(ps[i].0),
        peer_map(ps)[ps[i].0] == ps[i],
{
    let a = ps[i].0;
    assert(has_address(ps, a));
    let j = index_of_address(ps, a);
    assert(0 <= j < ps.len() && ps[j].0 == a);
    assert(peer_map(ps)[a] == ps[j]);
    if j != i {
        lemma_sorted_distinct(ps, i, j);
    }
}

proof fn lemma_map_after_insert(
    before: Seq<PeerView>,
    after: Seq<PeerView>,
    pv: PeerView,
    i: int,
    replaced: bool,
)
    requires
        sorted_by_address(before),
        sorted_by_address(after),
        replaced ==> 0 <= i < before.len() && before[i].0 == pv.0 && after == before.update(i, pv),
        !replaced ==> 0 <= i <= before.len() && after == before.insert(i, pv),
    ensures
        peer_map(after) == peer_map(before).insert(pv.0, pv),
{
    let want = peer_map(before).insert(pv.0, pv);
    assert(after[i] == pv);
    // the index in `before` of the entry at `j` in `after`, for `j != i`
    let src = |j: int| if !replaced && j > i { j - 1 } else { j };
    assert forall|a: Seq<char>| #[trigger] peer_map(after).contains_key(a) <==> want.contains_key(a)
        by {
        if peer_map(after).contains_key(a) {
            let j = choose|j: int| 0 <= j < after.len() && (#[trigger] after[j]).0 == a;
            if j != i {
                assert(before[src(j)] == after[j]);
            }
        }
        if want.contains_key(a) {
            if a == pv.0 {
                assert(after[i].0 == a);
            } else {
                let k = choose|k: int| 0 <= k < before.len() && (#[trigger] before[k]).0 == a;
                if replaced {
                    assert(k != i);
                    assert(after[k] == before[k]);
                } else if k < i {
                    assert(after[k] == before[k]);
                } else {
                    assert(after[k + 1] == before[k]);
                }
            }
        }
    }
    assert forall|a: Seq<char>| #[trigger] peer_map(after).contains_key(a) implies peer_map(after)[a]
        == want[a] by {
        let j = choose|j: int| 0 <= j < after.len() && (#[trigger] after[j]).0 == a;
        lemma_peer_map_index(after, j);
        if j == i {
        } else {
            lemma_sorted_distinct(after, i, j);
            assert(before[src(j)] == after[j]);
            lemma_peer_map_index(before, src(j));
        }
    }
    assert(peer_map(after) =~= want);
}

/// The peers this node knows, one per address.
#[derive(Debug)]
pub struct Peers {
    peers: Vec<Peer>,
}

impl Peers {
    /// The peers in the order of their addresses.
    pub closed spec fn entries(&self) -> Seq<PeerView> {
        self.peers@.map_values(|p: Peer| p@)
    }

    /// Addresses are distinct and in order.
    pub open spec fn wf(&self) -> bool {
        sorted_by_address(self.entries())
    }

    pub fn new() -> (r: Peers)
        ensures
            r.wf(),
            r@ == Map::<Seq<char>, PeerView>::empty(),
    {
        let r = Peers { peers: Vec::new() };
        assert(r.entries() =~= Seq::<PeerView>::empty());
        assert(r@ =~= Map::<Seq<char>, PeerView>::empty());
        r
    }

    /// Records a peer seen now at `addr`, replacing what was known of that
    /// address.
    pub fn add(&mut self, addr: String, key: String, offline: bool)
        requires
            old(self).wf(),
        ensures
            final(self).wf(),
            final(self)@.dom() == old(self)@.dom().insert(addr@),
            final(self)@.remove(addr@) == old(self)@.remove(addr@),
            final(self)@[addr@].0 == addr@,
            final(self)@[addr@].1 == key@,
            final(self)@[addr@].3 == offline,
            0 <= final(self)@[addr@].2.nsec < 1_000_000_000,
    {
        let p = Peer::new(addr, key, offline);
        self.insert(p);
        proof {
            assert(final(self)@.remove(p@.0) =~= old(self)@.remove(p@.0));
        }
    }

    /// The peers, in the order of their addresses' bytes: each known peer
    /// once.
    pub fn list(&self) -> (r: &[Peer])
        requires
            self.wf(),
        ensures
            r@.map_values(|p: Peer| p@) == self.entries(),
            sorted_by_address(r@.map_values(|p: Peer| p@)),
            forall|i: int|
                0 <= i < r@.len() ==> self@.contains_key((#[trigger] r@[i])@.0) && self@[r@[i]@.0]
                    == r@[i]@,
            forall|a: Seq<char>|
                #[trigger] self@.contains_key(a) ==> exists|i: int| 0 <= i < r@.len() && (#[trigger] r@[i])@.0 == a,
    {
        let r = self.peers.as_slice();
        proof {
            let es = self.entries();
            assert(r@.map_values(|p: Peer| p@) =~= es);
            assert forall|i: int| 0 <= i < r@.len() implies self@.contains_key((#[trigger] r@[i])@.0)
                && self@[r@[i]@.0] == r@[i]@ by {
                assert(es[i] == r@[i]@);
                lemma_peer_map_index(es, i);
            }
            assert forall|a: Seq<char>| #[trigger] self@.contains_key(a) implies exists|i: int|
                0 <= i < r@.len() && (#[trigger] r@[i])@.0 == a by {
                let i = index_of_address(es, a);
                assert(es[i] == r@[i]@);
            }
        }
        r
    }

    /// The peer at `addr`, if one is known.
    pub fn get(&self, addr: &str) -> (r: Option<&Peer>)
        requires
            self.wf(),
        ensures
            r is None <==> !self@.contains_key(addr@),
            r matches Some(p) ==> p@ == self@[addr@],
    {
        let wanted = addr.to_owned();
        let n = self.peers.len();
        let mut i: usize = 0;
        let ghost es = self.entries();
        while i < n
            invariant
                n == es.len(),
                i <= n,
                es == self.entries(),
                sorted_by_address(es),
                wanted@ == addr@,
                forall|j: int| 0 <= j < i ==> (#[trigger] es[j]).0 != addr@,
            decreases n - i,
        {
            if self.peers[i].address == wanted {
                assert(es[i as int].0 == addr@);
                proof {
                    lemma_peer_map_index(es, i as int);
                }
                return Some(&self.peers[i]);
            }
            i = i + 1;
        }
        assert(!has_address(es, addr@));
        None
    }

    /// Records `p`, replacing the peer with the same address.
    pub fn insert(&mut self, p: Peer)
        requires
            old(self).wf(),
        ensures
            final(self).wf(),
            final(self)@ == old(self)@.insert(p@.0, p@),
    {
        let ghost before = self.entries();
        let ghost pv = p@;
        let key = p.address.as_str().as_bytes();
        let n = self.peers.len();
        let mut i: usize = 0;
        let mut found = false;
        while i < n
            invariant_except_break
                n == self.peers@.len(),
                i <= n,
                before == self.entries(),
                key@ == address_key(pv.0),
                forall|j: int| 0 <= j < i ==> bytes_lt(address_key((#[trigger] before[j]).0), key@),
                !found,
            ensures
                n == self.peers@.len(),
                i <= n,
                before == self.entries(),
                forall|j: int| 0 <= j < i ==> bytes_lt(address_key((#[trigger] before[j]).0), key@),
                found ==> i < n && before[i as int].0 == pv.0,
                !found ==> i == n || bytes_lt(key@, address_key(before[i as int].0)),
            decreases n - i,
        {
            let other = self.peers[i].address.as_str().as_bytes();
            assert(other@ == address_key(before[i as int].0));
            let (lt, eq) = compare_bytes(other, key);
            if eq {
                proof {
                    encode_utf8_decode_utf8(before[i as int].0);
                    encode_utf8_decode_utf8(pv.0);
                }
                found = true;
                break;
            }
            if !lt {
                proof {
                    lemma_lt_total(other@, key@);
                }
                break;
            }
            i = i + 1;
        }
        if found {
            self.peers.set(i, p);
            proof {
                let after = self.entries();
                assert(after =~= before.update(i as int, pv));
                assert(sorted_by_address(after)) by {
                    assert forall|a: int, b: int| 0 <= a < b < after.len() implies bytes_lt(
                        address_key((#[trigger] after[a]).0),
                        address_key((#[trigger] after[b]).0),
                    ) by {
                        assert(before[a] == after[a] || a == i);
                        assert(before[b] == after[b] || b == i);
                        assert(bytes_lt(address_key(before[a].0), address_key(before[b].0)));
                    }
                }
                lemma_map_after_insert(before, after, pv, i as int, true);
            }
        } else {
            self.peers.insert(i, p);
            proof {
                let after = self.entries();
                assert(after =~= before.insert(i as int, pv));
                assert(sorted_by_address(after)) by {
                    assert forall|a: int, b: int| 0 <= a < b < after.len() implies bytes_lt(
                        address_key((#[trigger] after[a]).0),
                        address_key((#[trigger] after[b]).0),
                    ) by {
                        if b < i {
                            assert(after[a] == before[a] && after[b] == before[b]);
                        } else if b == i {
                            assert(after[a] == before[a]);
                        } else if a == i {
                            assert(after[b] == before[b - 1]);
                            if b - 1 > i {
                                assert(bytes_lt(
                                    address_key(before[i as int].0),
                                    address_key(before[b - 1].0),
                                ));
                                lemma_lt_transitive(
                                    key@,
                                    address_key(before[i as int].0),
                                    address_key(before[b - 1].0),
                                );
                            }
                        } else if a < i {
                            assert(after[a] == before[a] && after[b] == before[b - 1]);
                            assert(bytes_lt(address_key(before[a].0), key@));
                            if b - 1 > i {
                                assert(bytes_lt(
                                    address_key(before[i as int].0),
                                    address_key(before[b - 1].0),
                                ));
                                lemma_lt_transitive(
                                    key@,
                                    address_key(before[i as int].0),
                                    address_key(before[b - 1].0),
                                );
                            }
                            lemma_lt_transitive(
                                address_key(before[a].0),
                                key@,
                                address_key(before[b - 1].0),
                            );
                        } else {
                            assert(after[a] == before[a - 1] && after[b] == before[b - 1]);
                        }
                    }
                }
                lemma_map_after_insert(before, after, pv, i as int, false);
            }
        }
    }
}

impl View for Peers {
    type V = Map<Seq<char>, PeerView>;

    open spec fn view(&self) -> Map<Seq<char>, PeerView> {
        peer_map(self.entries())
    }
}

} // verus!
