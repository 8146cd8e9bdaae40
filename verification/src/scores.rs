//! The scores a peer keeps of the peers it knows.

use vstd::prelude::*;
use vstd::string::*;
use rand::seq::IteratorRandom;
use rand::Rng;

verus! {

/// The score of a peer goes up by this much (in hundredths of a point) for
/// each chunk of a file it sends with the right password.
pub const CHUNK_REWARD: i64 = 50;

/// The score of a peer goes down by this much for each file it sends with the
/// wrong password.
pub const WRONG_PASSWORD_PENALTY: i64 = -1;

/// Each round of decay takes this much off every score, never below zero.
pub const DECAY_STEP: i64 = 10;

/// The least score a newly discovered peer starts with.
pub const INITIAL_SCORE_MIN: i64 = 300;

/// The greatest score a newly discovered peer starts with.
pub const INITIAL_SCORE_MAX: i64 = 800;

/// `a + b`, held at the bounds of `i64`.
pub open spec fn saturating_sum(a: int, b: int) -> int {
    if a + b > i64::MAX {
        i64::MAX as int
    } else if a + b < i64::MIN {
        i64::MIN as int
    } else {
        a + b
    }
}

/// A score after one round of decay.
pub open spec fn decayed(s: int) -> int {
    if s - DECAY_STEP < 0 {
        0
    } else {
        s - DECAY_STEP
    }
}

/// A round of decay never takes a score below zero, and takes exactly
/// `DECAY_STEP` off a score that has that much.
pub proof fn decay_never_goes_below_zero(s: int)
    ensures
        decayed(s) >= 0,
        s >= DECAY_STEP ==> decayed(s) == s - DECAY_STEP,
        s < DECAY_STEP ==> decayed(s) == 0,
{
}

/// The peers a node knows, each with its score, in hundredths of a point.
/// Each peer stands once.
pub struct PeerScores {
    entries: Vec<(String, i64)>,
}

impl PeerScores {
    /// The peers, in the order they are kept.
    pub closed spec fn peers(&self) -> Seq<Seq<char>> {
        self.entries@.map_values(|e: (String, i64)| e.0@)
    }

    /// No peer stands twice.
    pub closed spec fn wf(&self) -> bool {
        self.peers().no_duplicates()
    }

    pub closed spec fn position(&self, peer: Seq<char>) -> int {
        choose|i: int| 0 <= i < self.entries@.len() && self.entries@[i].0@ == peer
    }

    /// Each known peer's score.
    pub closed spec fn view(&self) -> Map<Seq<char>, int> {
        Map::new(
            |p: Seq<char>| self.peers().contains(p),
            |p: Seq<char>| self.entries@[self.position(p)].1 as int,
        )
    }

    proof fn lemma_view_at(&self, i: int)
        requires
            self.wf(),
            0 <= i < self.entries@.len(),
        ensures
            self@.contains_key(self.entries@[i].0@),
            self@[self.entries@[i].0@] == self.entries@[i].1,
            self.position(self.entries@[i].0@) == i,
    {
        let p = self.entries@[i].0@;
        assert(self.peers()[i] == p);
        let j = self.position(p);
        assert(self.peers()[j] == p);
    }

    /// No peers.
    pub fn new() -> (res: Self)
        ensures
            res.wf(),
            res@ == Map::<Seq<char>, int>::empty(),
    {
        let res = PeerScores { entries: Vec::new() };
        assert(res@ =~= Map::<Seq<char>, int>::empty());
        res
    }

    /// The number of known peers.
    pub fn len(&self) -> (n: usize)
        requires
            self.wf(),
        ensures
            n == self@.len(),
    {
        proof {
            self.lemma_len();
        }
        self.entries.len()
    }

    proof fn lemma_len(&self)
        requires
            self.wf(),
        ensures
            self@.dom().finite(),
            self@.len() == self.entries@.len(),
    {
        assert(self@.dom() =~= self.peers().to_set());
        self.peers().unique_seq_to_set();
    }

    /// A table knows finitely many peers, and each score fits in an `i64`.
    pub proof fn lemma_finite_and_bounded(&self)
        requires
            self.wf(),
        ensures
            self@.dom().finite(),
            forall|p: Seq<char>|
                self@.contains_key(p) ==> i64::MIN <= #[trigger] self@[p] <= i64::MAX,
    {
        self.lemma_len();
        assert forall|p: Seq<char>| self@.contains_key(p) implies i64::MIN <= #[trigger] self@[p]
            <= i64::MAX by {
            let j = self.position(p);
            assert(self.peers()[j] == p);
            self.lemma_view_at(j);
        }
    }

    fn find(&self, peer: &String) -> (res: Option<usize>)
        requires
            self.wf(),
        ensures
            match res {
                Some(i) => i < self.entries@.len() && self.entries@[i as int].0@ == peer@,
                None => !self@.contains_key(peer@),
            },
    {
        let mut i: usize = 0;
        while i < self.entries.len()
            invariant
                i <= self.entries@.len(),
                forall|j: int| 0 <= j < i ==> self.entries@[j].0@ != peer@,
            decreases self.entries.len() - i,
        {
            if self.entries[i].0 == *peer {
                return Some(i);
            }
            i = i + 1;
        }
        proof {
            if self@.contains_key(peer@) {
                let k = choose|k: int| 0 <= k < self.peers().len() && self.peers()[k] == peer@;
                assert(self.entries@[k].0@ == peer@);
            }
        }
        None
    }

    /// The score of `peer`, if it is known.
    pub fn score_of(&self, peer: &str) -> (res: Option<i64>)
        requires
            self.wf(),
        ensures
            match res {
                Some(s) => self@.contains_key(peer@) && self@[peer@] == s,
                None => !self@.contains_key(peer@),
            },
    {
        let key = String::from_str(peer);
        match self.find(&key) {
            Some(i) => {
                proof {
                    self.lemma_view_at(i as int);
                }
                Some(self.entries[i].1)
            },
            None => None,
        }
    }

    /// Adds `delta` to the score of `peer`, which starts from 0 where the peer
    /// is not known yet; the sum is held at the bounds of `i64`.
    pub fn update_peer_score(&mut self, peer: &str, delta: i64)
        requires
            old(self).wf(),
        ensures
            final(self).wf(),
            final(self)@ == old(self)@.insert(
                peer@,
                saturating_sum(
                    if old(self)@.contains_key(peer@) {
                        old(self)@[peer@]
                    } else {
                        0
                    },
                    delta as int,
                ),
            ),
    {
        let key = String::from_str(peer);
        let ghost old_self = *old(self);
        match self.find(&key) {
            Some(i) => {
                proof {
                    old_self.lemma_view_at(i as int);
                }
                let current = self.entries[i].1;
                let next = match current.checked_add(delta) {
                    Some(s) => s,
                    None => if delta > 0 {
                        i64::MAX
                    } else {
                        i64::MIN
                    },
                };
                self.entries.set(i, (key, next));
                proof {
                    assert(self.peers() =~= old_self.peers());
                    self.lemma_view_at(i as int);
                    assert forall|p: Seq<char>| #[trigger] self@.contains_key(p) implies self@[p]
                        == old_self@.insert(peer@, next as int)[p] by {
                        let j = self.position(p);
                        assert(self.peers()[j] == p);
                        self.lemma_view_at(j);
                        if p != peer@ {
                            assert(j != i);
                            assert(old_self.entries@[j] == self.entries@[j]);
                            old_self.lemma_view_at(j);
                        }
                    }
                    assert(self@ =~= old_self@.insert(peer@, next as int));
                }
            },
            None => {
                let next = delta;
                self.entries.push((key, next));
                proof {
                    assert(self.peers() =~= old_self.peers().push(peer@));
                    assert(self.wf()) by {
                        assert forall|a: int, b: int|
                            0 <= a < b < self.peers().len() implies self.peers()[a]
                            != self.peers()[b] by {
                            if b == self.peers().len() - 1 {
                                assert(old_self.peers()[a] == self.peers()[a]);
                                assert(old_self.peers().contains(self.peers()[a]));
                            } else {
                                assert(old_self.peers()[a] == self.peers()[a]);
                                assert(old_self.peers()[b] == self.peers()[b]);
                            }
                        }
                    }
                    assert forall|p: Seq<char>| #[trigger] self@.contains_key(p) implies self@[p]
                        == old_self@.insert(peer@, next as int)[p] by {
                        let j = self.position(p);
                        assert(self.peers()[j] == p);
                        self.lemma_view_at(j);
                        if p != peer@ {
                            assert(old_self.entries@[j] == self.entries@[j]);
                            old_self.lemma_view_at(j);
                        }
                    }
                    assert forall|p: Seq<char>|
                        #[trigger] old_self@.insert(peer@, next as int).contains_key(p)
                            implies self@.contains_key(p) by {
                        if p != peer@ {
                            let j = old_self.position(p);
                            assert(old_self.peers()[j] == p);
                            assert(self.peers()[j] == p);
                        } else {
                            assert(self.peers()[self.peers().len() - 1] == p);
                        }
                    }
                    assert(self@ =~= old_self@.insert(peer@, next as int));
                }
            },
        }
    }
}


/// Calls `rand::Rng::gen_range` on `rand::thread_rng()` with `lo..=hi`.
/// Trusted: the result lies between `lo` and `hi`; which value comes is left
/// to chance and not stated.
#[verifier::external_body]
fn random_in_range(lo: i64, hi: i64) -> (r: i64)
    requires
        lo <= hi,
    ensures
        lo <= r <= hi,
{
    rand::thread_rng().gen_range(lo..=hi)
}

/// Calls `rand::seq::IteratorRandom::choose` on the items with
/// `rand::thread_rng()`. Trusted: the result is `None` exactly when there is
/// no item, and else one of the items; which one is left to chance.
#[verifier::external_body]
fn choose_one(items: Vec<String>) -> (res: Option<String>)
    ensures
        res is None <==> items@.len() == 0,
        match res {
            Some(x) => items@.contains(x),
            None => true,
        },
{
    items.into_iter().choose(&mut rand::thread_rng())
}

/// The least of two numbers.
pub open spec fn min_nat(a: nat, b: nat) -> nat {
    if a < b {
        a
    } else {
        b
    }
}

/// The list `sel` of peers of `scores` holds, first, the `k` peers with the
/// highest scores, best first: none of the other peers scores more than any
/// of them.
pub open spec fn leads_with_top(sel: Seq<Seq<char>>, scores: Map<Seq<char>, int>, k: nat) -> bool {
    &&& k <= sel.len()
    &&& forall|a: int, b: int| 0 <= a < b < k ==> scores[sel[a]] >= scores[sel[b]]
    &&& forall|a: int, p: Seq<char>|
        0 <= a < k && scores.contains_key(p) && !sel.take(k as int).contains(p) ==> scores[sel[a]]
            >= scores[p]
}

impl PeerScores {
    proof fn lemma_push_fresh(before: PeerScores, after: PeerScores, key: String, v: i64)
        requires
            before.wf(),
            !before@.contains_key(key@),
            after.entries@ == before.entries@.push((key, v)),
        ensures
            after.wf(),
            after@ == before@.insert(key@, v as int),
    {
        let peer = key@;
        assert(after.peers() =~= before.peers().push(peer));
        assert(after.wf()) by {
            assert forall|a: int, b: int|
                0 <= a < b < after.peers().len() implies after.peers()[a] != after.peers()[b] by {
                assert(before.peers()[a] == after.peers()[a]);
                if b == after.peers().len() - 1 {
                    assert(before.peers().contains(after.peers()[a]));
                } else {
                    assert(before.peers()[b] == after.peers()[b]);
                }
            }
        }
        assert forall|p: Seq<char>| #[trigger] after@.contains_key(p) implies after@[p]
            == before@.insert(peer, v as int)[p] by {
            let j = after.position(p);
            assert(after.peers()[j] == p);
            after.lemma_view_at(j);
            if p != peer {
                assert(before.entries@[j] == after.entries@[j]);
                before.lemma_view_at(j);
            }
        }
        assert forall|p: Seq<char>| #[trigger] before@.insert(peer, v as int).contains_key(p)
            implies after@.contains_key(p) by {
            if p != peer {
                let j = before.position(p);
                assert(before.peers()[j] == p);
                assert(after.peers()[j] == p);
            } else {
                assert(after.peers()[after.peers().len() - 1] == p);
            }
        }
        assert(after@ =~= before@.insert(peer, v as int));
    }

    /// Every known peer with its score, each once.
    pub fn list(&self) -> (res: Vec<(String, i64)>)
        requires
            self.wf(),
        ensures
            res@.len() == self@.len(),
            res@.map_values(|e: (String, i64)| e.0@).no_duplicates(),
            forall|i: int|
                0 <= i < res@.len() ==> self@.contains_key((#[trigger] res@[i]).0@) && self@[res@[i].0@]
                    == res@[i].1,
            forall|p: Seq<char>|
                #[trigger] self@.contains_key(p) ==> res@.map_values(|e: (String, i64)| e.0@).contains(p),
    {
        proof {
            self.lemma_len();
        }
        let mut res: Vec<(String, i64)> = Vec::new();
        let mut i: usize = 0;
        while i < self.entries.len()
            invariant
                self.wf(),
                i <= self.entries@.len(),
                res@.len() == i,
                forall|j: int| 0 <= j < i ==> #[trigger] res@[j] == self.entries@[j],
            decreases self.entries.len() - i,
        {
            res.push((self.entries[i].0.clone(), self.entries[i].1));
            i = i + 1;
        }
        proof {
            assert(res@ =~= self.entries@);
            assert(res@.map_values(|e: (String, i64)| e.0@) =~= self.peers());
            assert forall|i: int| 0 <= i < res@.len() implies self@.contains_key((#[trigger] res@[i]).0@)
                && self@[res@[i].0@] == res@[i].1 by {
                self.lemma_view_at(i);
            }
        }
        res
    }

    /// Gives `peer` the score `initial` unless it is known already, in which
    /// case nothing changes.
    pub fn insert_if_absent(&mut self, peer: &str, initial: i64)
        requires
            old(self).wf(),
        ensures
            final(self).wf(),
            final(self)@ == (if old(self)@.contains_key(peer@) {
                old(self)@
            } else {
                old(self)@.insert(peer@, initial as int)
            }),
    {
        let key = String::from_str(peer);
        match self.find(&key) {
            Some(i) => {
                proof {
                    self.lemma_view_at(i as int);
                }
            },
            None => {
                let ghost before = *self;
                self.entries.push((key, initial));
                proof {
                    PeerScores::lemma_push_fresh(before, *self, key, initial);
                }
            },
        }
    }

    /// A newly discovered peer starts with a score drawn at random between
    /// `INITIAL_SCORE_MIN` and `INITIAL_SCORE_MAX`; a known peer keeps its
    /// score.
    pub fn discover_peer(&mut self, peer: &str)
        requires
            old(self).wf(),
        ensures
            final(self).wf(),
            old(self)@.contains_key(peer@) ==> final(self)@ == old(self)@,
            !old(self)@.contains_key(peer@) ==> {
                &&& final(self)@.contains_key(peer@)
                &&& INITIAL_SCORE_MIN <= final(self)@[peer@] <= INITIAL_SCORE_MAX
                &&& final(self)@ == old(self)@.insert(peer@, final(self)@[peer@])
            },
    {
        let initial = random_in_range(INITIAL_SCORE_MIN, INITIAL_SCORE_MAX);
        self.insert_if_absent(peer, initial);
    }

    /// Forgets the peers that are not among `connected` and lowers the score
    /// of each remaining one by `DECAY_STEP`, never below zero.
    pub fn remove_disconnected_peers_and_decay_scores(&mut self, connected: &Vec<String>)
        requires
            old(self).wf(),
        ensures
            final(self).wf(),
            forall|p: Seq<char>|
                #[trigger] final(self)@.contains_key(p) <==> old(self)@.contains_key(p)
                    && connected@.map_values(|c: String| c@).contains(p),
            forall|p: Seq<char>|
                #[trigger] final(self)@.contains_key(p) ==> final(self)@[p] == decayed(
                    old(self)@[p],
                ),
    {
        let ghost conn = connected@.map_values(|c: String| c@);
        let ghost old_self = *old(self);
        let mut kept = PeerScores::new();
        let mut i: usize = 0;
        while i < self.entries.len()
            invariant
                *self == old_self,
                old_self.wf(),
                conn == connected@.map_values(|c: String| c@),
                i <= self.entries@.len(),
                kept.wf(),
                forall|p: Seq<char>|
                    #[trigger] kept@.contains_key(p) <==> old_self.peers().take(i as int).contains(p)
                        && conn.contains(p),
                forall|p: Seq<char>|
                    #[trigger] kept@.contains_key(p) ==> old_self@.contains_key(p) && kept@[p]
                        == decayed(old_self@[p]),
            decreases self.entries.len() - i,
        {
            let ghost before = kept;
            proof {
                old_self.lemma_view_at(i as int);
            }
            let ghost pk = self.entries@[i as int].0@;
            assert(old_self.peers().take(i + 1) =~= old_self.peers().take(i as int).push(pk));
            proof {
                assert forall|p: Seq<char>| old_self.peers().take(i + 1).contains(p) <==> (
                    old_self.peers().take(i as int).contains(p) || pk == p) by {
                    lemma_push_contains(old_self.peers().take(i as int), pk, p);
                }
            }
            let mut is_connected = false;
            let mut j: usize = 0;
            while j < connected.len()
                invariant
                    j <= connected@.len(),
                    i < self.entries@.len(),
                    pk == self.entries@[i as int].0@,
                    conn == connected@.map_values(|c: String| c@),
                    is_connected <==> conn.take(j as int).contains(pk),
                decreases connected.len() - j,
            {
                assert(conn.take(j + 1) =~= conn.take(j as int).push(conn[j as int]));
                proof {
                    lemma_push_contains(conn.take(j as int), conn[j as int], pk);
                }
                if connected[j] == self.entries[i].0 {
                    is_connected = true;
                }
                j = j + 1;
            }
            assert(conn.take(j as int) =~= conn);
            if is_connected {
                let score = self.entries[i].1;
                let next = if score < DECAY_STEP {
                    0
                } else {
                    score - DECAY_STEP
                };
                let key = self.entries[i].0.clone();
                proof {
                    if kept@.contains_key(pk) {
                        let a = choose|a: int| 0 <= a < i && old_self.peers()[a] == pk;
                        assert(old_self.peers()[a] == old_self.peers()[i as int]);
                    }
                }
                kept.entries.push((key, next));
                proof {
                    PeerScores::lemma_push_fresh(before, kept, key, next);
                }
            }
            i = i + 1;
        }
        assert(old_self.peers().take(i as int) =~= old_self.peers());
        assert forall|p: Seq<char>| old_self@.contains_key(p) <==> old_self.peers().contains(p) by {}
        *self = kept;
    }

    /// Chooses up to `n` peers to send a chunk to: the `n - 1` best scored
    /// peers, best first, then one more drawn at random from the others.
    pub fn select_peers(&self, n: usize) -> (res: Vec<String>)
        requires
            self.wf(),
        ensures
            res@.map_values(|s: String| s@).no_duplicates(),
            forall|i: int|
                0 <= i < res@.len() ==> self@.contains_key(#[trigger] res@[i]@),
            res@.len() == min_nat(n as nat, self@.len()),
            leads_with_top(
                res@.map_values(|s: String| s@),
                self@,
                min_nat((if n == 0 { 0 } else { n - 1 }) as nat, self@.len()),
            ),
            n >= self@.len() ==> forall|p: Seq<char>|
                #[trigger] self@.contains_key(p) ==> res@.map_values(|s: String| s@).contains(p),
    {
        proof {
            self.lemma_len();
        }
        let len = self.entries.len();
        let want = n.saturating_sub(1);
        let k = if want < len {
            want
        } else {
            len
        };
        let mut chosen: Vec<usize> = Vec::new();
        let mut selected: Vec<String> = Vec::new();
        while chosen.len() < k
            invariant
                k <= len == self.entries@.len(),
                self.wf(),
                chosen.len() <= k,
                selected@.len() == chosen@.len(),
                chosen@.no_duplicates(),
                forall|a: int| 0 <= a < chosen@.len() ==> #[trigger] chosen@[a] < len,
                forall|a: int|
                    0 <= a < chosen@.len() ==> #[trigger] selected@[a]@ == self.entries@[chosen@[a] as int].0@,
                forall|a: int, b: int|
                    0 <= a < b < chosen@.len() ==> self.entries@[chosen@[a] as int].1
                        >= self.entries@[chosen@[b] as int].1,
                forall|a: int, q: usize|
                    #![trigger chosen@[a], self.entries@[q as int]]
                    0 <= a < chosen@.len() && q < len && !chosen@.contains(q)
                        ==> self.entries@[chosen@[a] as int].1 >= self.entries@[q as int].1,
            decreases k - chosen.len(),
        {
            let mut best: usize = len;
            let mut q: usize = 0;
            while q < len
                invariant
                    len == self.entries@.len(),
                    q <= len,
                    best == len || (best < q && !chosen@.contains(best)),
                    best == len ==> forall|r: usize| r < q ==> #[trigger] chosen@.contains(r),
                    best < len ==> forall|r: usize|
                        r < q && !#[trigger] chosen@.contains(r) ==> self.entries@[best as int].1
                            >= self.entries@[r as int].1,
                decreases len - q,
            {
                let mut taken = false;
                let mut c: usize = 0;
                while c < chosen.len()
                    invariant
                        c <= chosen@.len(),
                        taken <==> chosen@.take(c as int).contains(q),
                    decreases chosen.len() - c,
                {
                    assert(chosen@.take(c + 1) =~= chosen@.take(c as int).push(chosen@[c as int]));
                    proof {
                        lemma_push_contains(chosen@.take(c as int), chosen@[c as int], q);
                    }
                    if chosen[c] == q {
                        taken = true;
                    }
                    c = c + 1;
                }
                assert(chosen@.take(c as int) =~= chosen@);
                if !taken {
                    if best == len || self.entries[q].1 > self.entries[best].1 {
                        best = q;
                    }
                }
                q = q + 1;
            }
            proof {
                if best == len {
                    lemma_unchosen_index(chosen@, len);
                    let r = choose|r: usize| r < len && !chosen@.contains(r);
                    assert(chosen@.contains(r));
                }
            }
            let ghost old_chosen = chosen@;
            chosen.push(best);
            selected.push(self.entries[best].0.clone());
            proof {
                assert(chosen@.no_duplicates()) by {
                    assert forall|a: int, b: int|
                        0 <= a < b < chosen@.len() implies chosen@[a] != chosen@[b] by {
                        if b == chosen@.len() - 1 {
                            assert(old_chosen.contains(chosen@[a]));
                        } else {
                            assert(old_chosen[a] == chosen@[a] && old_chosen[b] == chosen@[b]);
                        }
                    }
                }
                assert forall|a: int, q: usize|
                    #![trigger chosen@[a], self.entries@[q as int]]
                    0 <= a < chosen@.len() && q < len && !chosen@.contains(q)
                        implies self.entries@[chosen@[a] as int].1 >= self.entries@[q as int].1 by {
                    assert(!old_chosen.contains(q)) by {
                        if old_chosen.contains(q) {
                            let w = choose|w: int| 0 <= w < old_chosen.len() && old_chosen[w] == q;
                            assert(chosen@[w] == q);
                        }
                    }
                    if a < old_chosen.len() {
                        assert(old_chosen[a] == chosen@[a]);
                    }
                }
                assert forall|a: int, b: int|
                    0 <= a < b < chosen@.len() implies self.entries@[chosen@[a] as int].1
                        >= self.entries@[chosen@[b] as int].1 by {
                    if b == chosen@.len() - 1 {
                        assert(old_chosen[a] == chosen@[a]);
                    } else {
                        assert(old_chosen[a] == chosen@[a] && old_chosen[b] == chosen@[b]);
                    }
                }
            }
        }
        let ghost top = selected@;
        let mut remaining: Vec<String> = Vec::new();
        let ghost mut rest_idx: Seq<int> = Seq::empty();
        let mut q: usize = 0;
        while q < len
            invariant
                len == self.entries@.len(),
                q <= len,
                remaining@.len() == rest_idx.len(),
                forall|a: int|
                    0 <= a < rest_idx.len() ==> 0 <= #[trigger] rest_idx[a] < len && !chosen@.contains(
                        rest_idx[a] as usize,
                    ) && remaining@[a]@ == self.entries@[rest_idx[a]].0@,
                forall|r: usize|
                    r < q && !#[trigger] chosen@.contains(r) ==> rest_idx.contains(r as int),
            decreases len - q,
        {
            let mut taken = false;
            let mut c: usize = 0;
            while c < chosen.len()
                invariant
                    c <= chosen@.len(),
                    taken <==> chosen@.take(c as int).contains(q),
                decreases chosen.len() - c,
            {
                assert(chosen@.take(c + 1) =~= chosen@.take(c as int).push(chosen@[c as int]));
                proof {
                    lemma_push_contains(chosen@.take(c as int), chosen@[c as int], q);
                }
                if chosen[c] == q {
                    taken = true;
                }
                c = c + 1;
            }
            assert(chosen@.take(c as int) =~= chosen@);
            if !taken {
                remaining.push(self.entries[q].0.clone());
                proof {
                    let ghost old_rest = rest_idx;
                    rest_idx = rest_idx.push(q as int);
                    assert forall|r: usize| r < q + 1 && !#[trigger] chosen@.contains(r) implies rest_idx.contains(r as int) by {
                        if r < q {
                            let w = choose|w: int| 0 <= w < old_rest.len() && old_rest[w] == r as int;
                            assert(rest_idx[w] == r as int);
                        } else {
                            assert(rest_idx[rest_idx.len() - 1] == r as int);
                        }
                    }
                }
            }
            q = q + 1;
        }
        proof {
            if remaining@.len() > 0 {
                let r = rest_idx[0];
                let longer = chosen@.push(r as usize);
                assert(longer.no_duplicates()) by {
                    assert forall|a: int, b: int| 0 <= a < b < longer.len() implies longer[a] != longer[b] by {
                        if b == longer.len() - 1 {
                            assert(chosen@[a] == longer[a]);
                            assert(chosen@.contains(longer[a]));
                        } else {
                            assert(chosen@[a] == longer[a] && chosen@[b] == longer[b]);
                        }
                    }
                }
                assert forall|a: int| 0 <= a < longer.len() implies #[trigger] longer[a] < len by {
                    if a < chosen@.len() {
                        assert(longer[a] == chosen@[a]);
                    }
                }
                crate::download::lemma_distinct_below(longer, len as nat);
            }
            if k < len {
                lemma_unchosen_index(chosen@, len);
                let r = choose|r: usize| r < len && !chosen@.contains(r);
                assert(rest_idx.contains(r as int));
            }
        }
        match choose_one(remaining) {
            Some(extra) => {
                let ghost w = choose|w: int| 0 <= w < remaining@.len() && remaining@[w] == extra;
                assert(remaining@[w] == extra);
                let ghost ri = rest_idx[w];
                let ghost before = selected@;
                selected.push(extra);
                proof {
                    assert(selected@[selected@.len() - 1]@ == self.entries@[ri].0@);
                    assert forall|a: int| 0 <= a < before.len() implies before[a]@ != extra@ by {
                        let ca = chosen@[a] as int;
                        assert(selected@[a]@ == self.entries@[ca].0@);
                        assert(ca != ri);
                        self.lemma_view_at(ca);
                        self.lemma_view_at(ri);
                    }
                }
            },
            None => {},
        }
        let ghost full = selected@;
        selected.truncate(n);
        proof {
            let views = selected@.map_values(|s: String| s@);
            assert(k <= full.len() <= k + 1);
            assert(n == 0 ==> k == 0);
            assert(n > 0 ==> k <= n - 1);
            assert(forall|a: int| 0 <= a < selected@.len() ==> selected@[a] == full[a]);
            assert(views.take(k as int) =~= top.map_values(|s: String| s@));
            assert forall|a: int, b: int| 0 <= a < b < views.len() implies views[a] != views[b] by {
                if b < k {
                    let ca = chosen@[a] as int;
                    let cb = chosen@[b] as int;
                    self.lemma_view_at(ca);
                    self.lemma_view_at(cb);
                    assert(ca != cb);
                }
            }
            assert forall|i: int| 0 <= i < selected@.len() implies self@.contains_key(
                #[trigger] selected@[i]@,
            ) by {
                if i < k {
                    self.lemma_view_at(chosen@[i] as int);
                } else {
                    let w = choose|w: int| 0 <= w < rest_idx.len() && remaining@[w]@ == selected@[i]@;
                    self.lemma_view_at(rest_idx[w]);
                }
            }
            assert forall|a: int, b: int| 0 <= a < b < k implies self@[views[a]] >= self@[views[b]] by {
                self.lemma_view_at(chosen@[a] as int);
                self.lemma_view_at(chosen@[b] as int);
            }
            assert forall|a: int, p: Seq<char>|
                0 <= a < k && self@.contains_key(p) && !views.take(k as int).contains(p) implies self@[views[a]] >= self@[p] by {
                let qp = self.position(p);
                assert(self.peers()[qp] == p);
                self.lemma_view_at(qp);
                self.lemma_view_at(chosen@[a] as int);
                if chosen@.contains(qp as usize) {
                    let w = choose|w: int| 0 <= w < chosen@.len() && chosen@[w] == qp as usize;
                    assert(views.take(k as int)[w] == p);
                }
            }
            if n >= self@.len() {
                lemma_distinct_covers(views, self@);
            }
        }
        selected
    }
}

/// A list of distinct keys of a finite map, as long as the map, holds every
/// key of it.
proof fn lemma_distinct_covers(sel: Seq<Seq<char>>, m: Map<Seq<char>, int>)
    requires
        sel.no_duplicates(),
        m.dom().finite(),
        sel.len() == m.len(),
        forall|i: int| 0 <= i < sel.len() ==> m.contains_key(#[trigger] sel[i]),
    ensures
        forall|p: Seq<char>| #[trigger] m.contains_key(p) ==> sel.contains(p),
{
    sel.unique_seq_to_set();
    assert(sel.to_set().subset_of(m.dom())) by {
        assert forall|p: Seq<char>| sel.to_set().contains(p) implies m.dom().contains(p) by {
            let w = choose|w: int| 0 <= w < sel.len() && sel[w] == p;
        }
    }
    vstd::set_lib::lemma_len_subset(sel.to_set(), m.dom());
    vstd::set_lib::lemma_subset_equality(sel.to_set(), m.dom());
}

/// Whether `s` with `x` pushed holds `y`.
proof fn lemma_push_contains<A>(s: Seq<A>, x: A, y: A)
    ensures
        s.push(x).contains(y) <==> (s.contains(y) || x == y),
{
    if s.push(x).contains(y) {
        let w = choose|w: int| 0 <= w < s.push(x).len() && s.push(x)[w] == y;
        if w < s.len() {
            assert(s[w] == y);
        }
    }
    if s.contains(y) {
        let w = choose|w: int| 0 <= w < s.len() && s[w] == y;
        assert(s.push(x)[w] == y);
    }
    if x == y {
        assert(s.push(x)[s.len() as int] == y);
    }
}

/// Among fewer than `len` distinct indices below `len`, some index below
/// `len` is missing.
proof fn lemma_unchosen_index(chosen: Seq<usize>, len: usize)
    requires
        chosen.no_duplicates(),
        forall|a: int| 0 <= a < chosen.len() ==> #[trigger] chosen[a] < len,
        chosen.len() < len,
    ensures
        exists|r: usize| r < len && !#[trigger] chosen.contains(r),
    decreases len,
{
    let top: usize = (len - 1) as usize;
    if !chosen.contains(top) {
        assert(top < len && !chosen.contains(top));
    } else {
        let i = choose|i: int| 0 <= i < chosen.len() && chosen[i] == top;
        let shorter = chosen.remove(i);
        assert forall|a: int| 0 <= a < shorter.len() implies #[trigger] shorter[a] < (len - 1) as usize by {
            if a < i {
                assert(shorter[a] == chosen[a]);
            } else {
                assert(shorter[a] == chosen[a + 1]);
            }
        }
        assert(shorter.no_duplicates()) by {
            assert forall|a: int, b: int| 0 <= a < b < shorter.len() implies shorter[a] != shorter[b] by {
                let a2 = if a < i { a } else { a + 1 };
                let b2 = if b < i { b } else { b + 1 };
                assert(shorter[a] == chosen[a2]);
                assert(shorter[b] == chosen[b2]);
            }
        }
        lemma_unchosen_index(shorter, (len - 1) as usize);
        let r = choose|r: usize| r < len - 1 && !shorter.contains(r);
        if chosen.contains(r) {
            let j = choose|j: int| 0 <= j < chosen.len() && chosen[j] == r;
            if j < i {
                assert(shorter[j] == chosen[j]);
            } else {
                assert(j != i);
                assert(shorter[j - 1] == chosen[j]);
            }
        }
    }
}

} // verus!
