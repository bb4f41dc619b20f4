use vstd::prelude::*;
use crate::types::{AccountId, Error, HashValue, Header, HeaderSubmitted, MerkleProof, StateClaim};
use crate::hashing::{bytes_below, digest_below, digest_eq, hash_claim, hash_header, header_digest};

verus! {

/// One stored header, under its digest, with the account that relayed it.
struct Entry {
    hash: HashValue,
    header: Header,
    submitter: AccountId,
}

/// The first position in `entries` that holds `d`, if any.
fn find_in(entries: &Vec<Entry>, d: &HashValue) -> (r: Option<usize>)
    ensures
        r matches Some(i) ==> i < entries@.len() && entries@[i as int].hash@ == d@,
        r is None ==> forall|k: int| 0 <= k < entries@.len() ==> entries@[k].hash@ != d@,
{
    let mut i: usize = 0;
    while i < entries.len()
        invariant
            i <= entries@.len(),
            forall|k: int| 0 <= k < i ==> entries@[k].hash@ != d@,
        decreases entries@.len() - i,
    {
        if digest_eq(&entries[i].hash, d) {
            return Some(i);
        }
        i = i + 1;
    }
    None
}

/// A light client of a proof-of-work source chain.
///
/// It stores every accepted header under its digest, keeps the canonical
/// chain as one digest per height from the genesis header up to the best
/// height, and records who relayed each header so that verification fees can
/// be routed to them.
pub struct SpvBridge {
    entries: Vec<Entry>,
    /// `canon[i]` is the canonical digest at height `genesis_height + i`.
    canon: Vec<HashValue>,
    genesis_height: u64,
    difficulty_threshold: HashValue,
    relay_fee: u128,
    verify_fee: u128,
    events: Vec<HeaderSubmitted>,
    store: Ghost<Map<Seq<u8>, Header>>,
    ledger: Ghost<Map<Seq<u8>, AccountId>>,
}

impl SpvBridge {
    /// The header store: digest to header.
    pub closed spec fn store(self) -> Map<Seq<u8>, Header> {
        self.store@
    }

    /// The fee ledger: digest to the account that first relayed it.
    pub closed spec fn ledger(self) -> Map<Seq<u8>, AccountId> {
        self.ledger@
    }

    pub closed spec fn genesis_height(self) -> int {
        self.genesis_height as int
    }

    /// The digest of the genesis header.
    pub closed spec fn genesis(self) -> Seq<u8> {
        self.canon@[0]@
    }

    pub closed spec fn best(self) -> int {
        self.genesis_height + self.canon@.len() - 1
    }

    /// The canonical digest at height `h`, for `genesis_height() <= h <= best()`.
    pub closed spec fn canonical(self, h: int) -> Seq<u8> {
        self.canon@[h - self.genesis_height]@
    }

    pub closed spec fn threshold(self) -> Seq<u8> {
        self.difficulty_threshold@
    }

    pub closed spec fn relay_fee(self) -> u128 {
        self.relay_fee
    }

    pub closed spec fn verify_fee(self) -> u128 {
        self.verify_fee
    }

    /// The events emitted so far, oldest first.
    pub closed spec fn emitted(self) -> Seq<HeaderSubmitted> {
        self.events@
    }

    /// `h` is a height of the canonical chain.
    pub open spec fn in_chain(self, h: int) -> bool {
        self.genesis_height() <= h <= self.best()
    }

    /// `d` is stored and is the canonical digest at its own height.
    pub open spec fn is_canon(self, d: Seq<u8>) -> bool {
        &&& self.store().contains_key(d)
        &&& self.in_chain(self.store()[d].height as int)
        &&& self.canonical(self.store()[d].height as int) == d
    }

    /// The ancestor `k` generations above `d`, following parent digests.
    pub open spec fn ancestor(self, d: Seq<u8>, k: nat) -> Seq<u8>
        decreases k,
    {
        if k == 0 {
            d
        } else {
            self.ancestor(self.store()[d].parent@, (k - 1) as nat)
        }
    }

    /// Every stored header but genesis has a stored parent one below it.
    pub open spec fn parents_stored(self) -> bool {
        forall|d: Seq<u8>|
            #[trigger] self.store().contains_key(d) && d != self.genesis() ==> {
                &&& self.store().contains_key(self.store()[d].parent@)
                &&& self.store()[self.store()[d].parent@].height + 1 == self.store()[d].height
            }
    }

    /// Each canonical digest is stored at its height and links to the one below.
    pub open spec fn chain_contiguous(self) -> bool {
        &&& self.genesis_height() <= self.best()
        &&& forall|h: int|
            #![trigger self.canonical(h)]
            self.in_chain(h) ==> {
                &&& self.store().contains_key(self.canonical(h))
                &&& self.store()[self.canonical(h)].height == h
                &&& h > self.genesis_height() ==> self.store()[self.canonical(h)].parent@
                    == self.canonical(h - 1)
            }
    }

    /// `entries` holds the header store and the fee ledger, one entry per digest.
    closed spec fn entries_match(self) -> bool {
        &&& self.ledger@.dom() == self.store@.dom()
        &&& forall|i: int|
            0 <= i < self.entries@.len() ==> {
                &&& #[trigger] self.store@.contains_key(self.entries@[i].hash@)
                &&& self.store@[self.entries@[i].hash@] == self.entries@[i].header
                &&& self.ledger@[self.entries@[i].hash@] == self.entries@[i].submitter
            }
        &&& forall|d: Seq<u8>|
            #[trigger] self.store@.contains_key(d) ==> exists|i: int|
                0 <= i < self.entries@.len() && self.entries@[i].hash@ == d
        &&& forall|i: int, j: int|
            0 <= i < j < self.entries@.len() ==> self.entries@[i].hash@ != self.entries@[j].hash@
    }

    /// The invariant that every operation keeps.
    pub closed spec fn wf(self) -> bool {
        &&& self.canon@.len() >= 1
        &&& self.best() <= u64::MAX
        &&& self.entries_match()
        &&& forall|d: Seq<u8>|
            #[trigger] self.store@.contains_key(d) ==> {
                &&& header_digest(self.store@[d]) == d
                &&& self.genesis_height() <= self.store@[d].height <= self.best()
                &&& d != self.genesis() ==> bytes_below(d, self.threshold())
            }
        &&& self.parents_stored()
        &&& self.chain_contiguous()
    }

    /// Why `header`, relayed with `payment`, would be refused, if it would be;
    /// the checks run in this order.
    pub open spec fn rejection(self, header: Header, payment: u128) -> Option<Error> {
        let d = header_digest(header);
        if payment < self.relay_fee() {
            Some(Error::InsufficientRelayFee)
        } else if self.store().contains_key(d) {
            Some(Error::HeaderAlreadySubmitted)
        } else if !self.store().contains_key(header.parent@) {
            Some(Error::UnknownParent)
        } else if self.store()[header.parent@].height + 1 != header.height {
            Some(Error::IncorrectHeight)
        } else if !bytes_below(d, self.threshold()) {
            Some(Error::PoWThresholdNotMet)
        } else {
            None
        }
    }

    /// `self` is `prev` after `header` was accepted from `submitter`: it is
    /// stored, credited and announced, and its branch is adopted exactly when
    /// it is taller than the best height of `prev`.
    pub open spec fn accepted(self, prev: SpvBridge, header: Header, submitter: AccountId) -> bool {
        let d = header_digest(header);
        &&& !prev.store().contains_key(d)
        &&& self.store() == prev.store().insert(d, header)
        &&& self.ledger() == prev.ledger().insert(d, submitter)
        &&& self.emitted().len() == prev.emitted().len() + 1
        &&& self.emitted().drop_last() == prev.emitted()
        &&& self.emitted().last().block_hash@ == d
        &&& self.emitted().last().block_height == header.height
        &&& self.emitted().last().submitter == submitter
        &&& self.genesis() == prev.genesis()
        &&& self.genesis_height() == prev.genesis_height()
        &&& self.threshold() == prev.threshold()
        &&& self.relay_fee() == prev.relay_fee()
        &&& self.verify_fee() == prev.verify_fee()
        &&& header.height > prev.best() ==> {
            &&& self.best() == header.height
            &&& self.canonical(header.height as int) == d
        }
        &&& header.height <= prev.best() ==> {
            &&& self.best() == prev.best()
            &&& forall|h: int| prev.in_chain(h) ==> #[trigger] self.canonical(h) == prev.canonical(h)
        }
    }

    /// A stored header at the genesis height is the genesis header.
    proof fn lemma_genesis_unique(self, d: Seq<u8>)
        requires
            self.wf(),
            self.store().contains_key(d),
            self.store()[d].height == self.genesis_height(),
        ensures
            d == self.genesis(),
    {
        if d != self.genesis() {
            let p = self.store()[d].parent@;
            assert(self.store().contains_key(p));
        }
    }

    /// Starts a bridge from a checkpoint header, which is stored without any
    /// proof-of-work or parent check, made canonical, and credited to `caller`.
    pub fn new(
        source_genesis_header: Header,
        difficulty: HashValue,
        init_relay_fee: u128,
        init_verify_fee: u128,
        caller: AccountId,
    ) -> (r: Self)
        ensures
            r.wf(),
            r.genesis() == header_digest(source_genesis_header),
            r.genesis_height() == source_genesis_header.height,
            r.best() == source_genesis_header.height,
            r.canonical(source_genesis_header.height as int) == r.genesis(),
            r.store() == Map::<Seq<u8>, Header>::empty().insert(r.genesis(), source_genesis_header),
            r.ledger() == Map::<Seq<u8>, AccountId>::empty().insert(r.genesis(), caller),
            r.threshold() == difficulty@,
            r.relay_fee() == init_relay_fee,
            r.verify_fee() == init_verify_fee,
            r.emitted() == Seq::<HeaderSubmitted>::empty(),
    {
        let h = hash_header(&source_genesis_header);
        let mut entries: Vec<Entry> = Vec::new();
        entries.push(Entry { hash: h, header: source_genesis_header, submitter: caller });
        let mut canon: Vec<HashValue> = Vec::new();
        canon.push(h);
        let r = SpvBridge {
            entries,
            canon,
            genesis_height: source_genesis_header.height,
            difficulty_threshold: difficulty,
            relay_fee: init_relay_fee,
            verify_fee: init_verify_fee,
            events: Vec::new(),
            store: Ghost(Map::empty().insert(h@, source_genesis_header)),
            ledger: Ghost(Map::empty().insert(h@, caller)),
        };
        assert(r.ledger@.dom() =~= r.store@.dom());
        assert forall|d: Seq<u8>| #[trigger] r.store@.contains_key(d) implies exists|i: int|
            0 <= i < r.entries@.len() && r.entries@[i].hash@ == d by {
            assert(r.entries@[0].hash@ == d);
        }
        r
    }

    /// The position in `entries` of the header stored under `d`, if any.
    fn find(&self, d: &HashValue) -> (r: Option<usize>)
        requires
            self.wf(),
        ensures
            r is Some <==> self.store().contains_key(d@),
            r matches Some(i) ==> i < self.entries@.len() && self.entries@[i as int].hash@ == d@,
    {
        let r = find_in(&self.entries, d);
        proof {
            if r is None && self.store@.contains_key(d@) {
                let k = choose|k: int| 0 <= k < self.entries@.len() && self.entries@[k].hash@ == d@;
                assert(self.entries@[k].hash@ != d@);
            }
        }
        r
    }

    /// Whether a header is stored under `header_hash`.
    pub fn header_is_known(&self, header_hash: HashValue) -> (r: bool)
        requires
            self.wf(),
        ensures
            r == self.store().contains_key(header_hash@),
    {
        self.find(&header_hash).is_some()
    }

    /// The canonical digest at `height`, if the canonical chain reaches it.
    pub fn canon_hash(&self, height: u64) -> (r: Option<HashValue>)
        requires
            self.wf(),
        ensures
            r is Some <==> self.in_chain(height as int),
            r matches Some(d) ==> d@ == self.canonical(height as int),
    {
        if height < self.genesis_height {
            return None;
        }
        let off: u64 = height - self.genesis_height;
        if off >= self.canon.len() as u64 {
            return None;
        }
        Some(self.canon[off as usize])
    }

    /// Whether the header stored under `header_hash` is canonical at its height.
    pub fn header_is_canon(&self, header_hash: HashValue) -> (r: bool)
        requires
            self.wf(),
        ensures
            r == self.is_canon(header_hash@),
    {
        match self.find(&header_hash) {
            None => false,
            Some(i) => {
                let height = self.entries[i].header.height;
                proof {
                    assert(self.store@.contains_key(self.entries@[i as int].hash@));
                }
                match self.canon_hash(height) {
                    None => false,
                    Some(c) => digest_eq(&c, &header_hash),
                }
            }
        }
    }

    /// The account credited for the header stored under `header_hash`.
    pub fn fee_recipient(&self, header_hash: HashValue) -> (r: Option<AccountId>)
        requires
            self.wf(),
        ensures
            r is Some <==> self.ledger().contains_key(header_hash@),
            r matches Some(a) ==> a == self.ledger()[header_hash@],
    {
        match self.find(&header_hash) {
            None => None,
            Some(i) => {
                proof {
                    assert(self.store@.contains_key(self.entries@[i as int].hash@));
                }
                Some(self.entries[i].submitter)
            }
        }
    }

    /// Relays `header`, paid with `payment`, on behalf of `submitter`.
    ///
    /// A header that passes every check is stored and credited to
    /// `submitter`. When it is taller than the best height its branch becomes
    /// canonical: walking down its ancestors, each is written as canonical at
    /// its height until one already is, so the work is bounded by the depth
    /// of the fork. A refused header leaves the bridge unchanged.
    pub fn submit_new_header(&mut self, header: Header, payment: u128, submitter: AccountId) -> (r:
        Result<(), Error>)
        requires
            old(self).wf(),
        ensures
            final(self).wf(),
            final(self).best() >= old(self).best(),
            old(self).rejection(header, payment) matches Some(e) ==> r == Err::<(), Error>(e)
                && *final(self) == *old(self),
            old(self).rejection(header, payment) is None ==> r is Ok && final(self).accepted(
                *old(self),
                header,
                submitter,
            ),
    {
        if payment < self.relay_fee {
            return Err(Error::InsufficientRelayFee);
        }
        let d = hash_header(&header);
        if self.find(&d).is_some() {
            return Err(Error::HeaderAlreadySubmitted);
        }
        let pi = match self.find(&header.parent) {
            None => {
                return Err(Error::UnknownParent);
            },
            Some(i) => i,
        };
        let parent_height = self.entries[pi].header.height;
        proof {
            assert(self.store@.contains_key(self.entries@[pi as int].hash@));
        }
        if header.height == 0 || header.height - 1 != parent_height {
            return Err(Error::IncorrectHeight);
        }
        if !digest_below(&d, &self.difficulty_threshold) {
            return Err(Error::PoWThresholdNotMet);
        }
        let ghost prev = *self;
        let best = self.genesis_height + (self.canon.len() - 1) as u64;
        self.store_header(d, header, submitter);
        if header.height > best {
            self.adopt_branch(Ghost(prev), d, header);
        } else {
            proof {
                self.lemma_side_branch_wf(prev, header);
            }
        }
        proof {
            assert(self.events@.drop_last() =~= prev.events@);
            if header.height > best {
                assert(self.canonical(header.height as int) == self.canon@[prev.canon@.len() as int]@);
            }
        }
        Ok(())
    }

    /// Adds an accepted header to the store and the ledger, and announces it.
    fn store_header(&mut self, d: HashValue, header: Header, submitter: AccountId)
        requires
            old(self).wf(),
            !old(self).store().contains_key(d@),
        ensures
            final(self).entries_match(),
            final(self).entries@ == old(self).entries@.push(Entry { hash: d, header, submitter }),
            final(self).store@ == old(self).store@.insert(d@, header),
            final(self).ledger@ == old(self).ledger@.insert(d@, submitter),
            final(self).events@ == old(self).events@.push(
                HeaderSubmitted { block_hash: d, block_height: header.height, submitter },
            ),
            final(self).canon == old(self).canon,
            final(self).genesis_height == old(self).genesis_height,
            final(self).difficulty_threshold == old(self).difficulty_threshold,
            final(self).relay_fee == old(self).relay_fee,
            final(self).verify_fee == old(self).verify_fee,
    {
        let ghost prev = *self;
        self.entries.push(Entry { hash: d, header, submitter });
        self.store = Ghost(self.store@.insert(d@, header));
        self.ledger = Ghost(self.ledger@.insert(d@, submitter));
        self.events.push(HeaderSubmitted { block_hash: d, block_height: header.height, submitter });
        proof {
            assert forall|k: int| 0 <= k < prev.entries@.len() implies prev.entries@[k].hash@
                != d@ by {
                assert(prev.store@.contains_key(prev.entries@[k].hash@));
            }
            assert(self.ledger@.dom() =~= self.store@.dom());
            assert forall|dd: Seq<u8>| #[trigger] self.store@.contains_key(dd) implies exists|
                i: int,
            | 0 <= i < self.entries@.len() && self.entries@[i].hash@ == dd by {
                if dd == d@ {
                    assert(self.entries@[prev.entries@.len() as int].hash@ == dd);
                } else {
                    assert(prev.store@.contains_key(dd));
                    let i = choose|i: int|
                        0 <= i < prev.entries@.len() && prev.entries@[i].hash@ == dd;
                    assert(self.entries@[i].hash@ == dd);
                }
            }
            assert forall|i: int| 0 <= i < self.entries@.len() implies {
                &&& #[trigger] self.store@.contains_key(self.entries@[i].hash@)
                &&& self.store@[self.entries@[i].hash@] == self.entries@[i].header
                &&& self.ledger@[self.entries@[i].hash@] == self.entries@[i].submitter
            } by {
                if i < prev.entries@.len() {
                    assert(prev.store@.contains_key(prev.entries@[i].hash@));
                }
            }
        }
    }

    /// The facts about a freshly stored header that keep the invariant.
    closed spec fn fresh_header(self, prev: SpvBridge, header: Header) -> bool {
        let d = header_digest(header);
        &&& prev.wf()
        &&& self.entries_match()
        &&& !prev.store@.contains_key(d)
        &&& self.store@ == prev.store@.insert(d, header)
        &&& prev.store@.contains_key(header.parent@)
        &&& prev.store@[header.parent@].height + 1 == header.height
        &&& bytes_below(d, prev.threshold())
        &&& self.genesis_height == prev.genesis_height
        &&& self.difficulty_threshold == prev.difficulty_threshold
    }

    /// A stored header that does not outgrow the best height keeps the invariant.
    proof fn lemma_side_branch_wf(self, prev: SpvBridge, header: Header)
        requires
            self.fresh_header(prev, header),
            self.canon == prev.canon,
            header.height <= prev.best(),
        ensures
            self.wf(),
    {
        let d = header_digest(header);
        assert(prev.canonical(prev.genesis_height()) == prev.genesis());
        assert forall|dd: Seq<u8>| #[trigger] self.store@.contains_key(dd) implies {
            &&& header_digest(self.store@[dd]) == dd
            &&& self.genesis_height() <= self.store@[dd].height <= self.best()
            &&& dd != self.genesis() ==> bytes_below(dd, self.threshold())
        } by {
            if dd != d {
                assert(prev.store@.contains_key(dd));
            }
        }
        assert forall|dd: Seq<u8>|
            #[trigger] self.store().contains_key(dd) && dd != self.genesis() implies {
            &&& self.store().contains_key(self.store()[dd].parent@)
            &&& self.store()[self.store()[dd].parent@].height + 1 == self.store()[dd].height
        } by {
            if dd != d {
                assert(prev.store().contains_key(dd));
            }
        }
        assert forall|h: int| #![trigger self.canonical(h)] self.in_chain(h) implies {
            &&& self.store().contains_key(self.canonical(h))
            &&& self.store()[self.canonical(h)].height == h
            &&& h > self.genesis_height() ==> self.store()[self.canonical(h)].parent@
                == self.canonical(h - 1)
        } by {
            assert(prev.canonical(h) == self.canonical(h));
            assert(prev.in_chain(h));
        }
    }

    /// Makes the branch of a freshly stored header one above the best height
    /// canonical: each ancestor is written at its height until one already
    /// stands there.
    #[verifier::rlimit(60)]
    fn adopt_branch(&mut self, Ghost(prev): Ghost<SpvBridge>, d: HashValue, header: Header)
        requires
            old(self).fresh_header(prev, header),
            d@ == header_digest(header),
            old(self).canon == prev.canon,
            header.height == prev.best() + 1,
        ensures
            final(self).wf(),
            final(self).entries == old(self).entries,
            final(self).store == old(self).store,
            final(self).ledger == old(self).ledger,
            final(self).events == old(self).events,
            final(self).genesis_height == old(self).genesis_height,
            final(self).difficulty_threshold == old(self).difficulty_threshold,
            final(self).relay_fee == old(self).relay_fee,
            final(self).verify_fee == old(self).verify_fee,
            final(self).canon@.len() == prev.canon@.len() + 1,
            final(self).canon@[0] == prev.canon@[0],
            final(self).canon@[prev.canon@.len() as int]@ == d@,
    {
        let ghost mid = *self;
        let n = self.canon.len();
        self.canon.push(d);
        let mut cur: HashValue = header.parent;
        let mut idx: usize = n - 1;
        proof {
            assert(prev.canonical(prev.genesis_height()) == prev.genesis());
        }
        while !digest_eq(&self.canon[idx], &cur)
            invariant
                prev.wf(),
                mid.fresh_header(prev, header),
                n == prev.canon@.len(),
                header.height == prev.genesis_height + n,
                self.entries == mid.entries,
                self.store == mid.store,
                self.ledger == mid.ledger,
                self.events == mid.events,
                self.genesis_height == mid.genesis_height,
                self.difficulty_threshold == mid.difficulty_threshold,
                self.relay_fee == mid.relay_fee,
                self.verify_fee == mid.verify_fee,
                self.canon@.len() == n + 1,
                idx < n,
                self.canon@[n as int]@ == d@,
                prev.store@.contains_key(cur@),
                prev.store@[cur@].height == prev.genesis_height + idx,
                forall|k: int| 0 <= k <= idx ==> #[trigger] self.canon@[k] == prev.canon@[k],
                forall|k: int|
                    idx < k <= n ==> self.store@.contains_key(#[trigger] self.canon@[k]@)
                        && self.store@[self.canon@[k]@].height == prev.genesis_height + k,
                forall|k: int|
                    idx + 1 < k <= n ==> self.store@[#[trigger] self.canon@[k]@].parent@
                        == self.canon@[k - 1]@,
                self.store@[self.canon@[idx + 1]@].parent@ == cur@,
            decreases idx,
        {
            proof {
                if idx == 0 {
                    prev.lemma_genesis_unique(cur@);
                }
                assert(idx > 0);
                assert(prev.canonical(prev.genesis_height()) == prev.genesis());
                assert(prev.store@[prev.genesis()].height == prev.genesis_height);
                assert(cur@ != prev.genesis());
            }
            self.canon.set(idx, cur);
            let ci = find_in(&self.entries, &cur);
            proof {
                let i = choose|i: int|
                    0 <= i < prev.entries@.len() && prev.entries@[i].hash@ == cur@;
                assert(mid.store@.contains_key(cur@));
                let j = choose|j: int|
                    0 <= j < mid.entries@.len() && mid.entries@[j].hash@ == cur@;
                assert(self.entries@[j].hash@ == cur@);
            }
            let ci = ci.unwrap();
            proof {
                assert(mid.store@.contains_key(mid.entries@[ci as int].hash@));
                assert(prev.store@.contains_key(cur@));
            }
            cur = self.entries[ci].header.parent;
            idx = idx - 1;
        }
        proof {
            self.lemma_adopted_wf(prev, mid, header, idx as int);
        }
    }

    /// After the walk, the new branch and the old chain below it form one
    /// contiguous canonical chain.
    proof fn lemma_adopted_wf(self, prev: SpvBridge, mid: SpvBridge, header: Header, idx: int)
        requires
            mid.fresh_header(prev, header),
            prev.wf(),
            header.height == prev.genesis_height + prev.canon@.len(),
            self.entries == mid.entries,
            self.store == mid.store,
            self.ledger == mid.ledger,
            self.genesis_height == mid.genesis_height,
            self.difficulty_threshold == mid.difficulty_threshold,
            self.canon@.len() == prev.canon@.len() + 1,
            0 <= idx < prev.canon@.len(),
            self.canon@[prev.canon@.len() as int]@ == header_digest(header),
            forall|k: int| 0 <= k <= idx ==> #[trigger] self.canon@[k] == prev.canon@[k],
            forall|k: int|
                idx < k <= prev.canon@.len() ==> self.store@.contains_key(#[trigger] self.canon@[k]@)
                    && self.store@[self.canon@[k]@].height == prev.genesis_height + k,
            forall|k: int|
                idx < k <= prev.canon@.len() ==> self.store@[#[trigger] self.canon@[k]@].parent@
                    == self.canon@[k - 1]@,
        ensures
            self.wf(),
    {
        let d = header_digest(header);
        let n = prev.canon@.len() as int;
        assert(self.canon@[0] == prev.canon@[0]);
        assert(prev.canonical(prev.genesis_height()) == prev.genesis());
        assert forall|dd: Seq<u8>| #[trigger] self.store@.contains_key(dd) implies {
            &&& header_digest(self.store@[dd]) == dd
            &&& self.genesis_height() <= self.store@[dd].height <= self.best()
            &&& dd != self.genesis() ==> bytes_below(dd, self.threshold())
        } by {
            if dd != d {
                assert(prev.store@.contains_key(dd));
            }
        }
        assert forall|dd: Seq<u8>|
            #[trigger] self.store().contains_key(dd) && dd != self.genesis() implies {
            &&& self.store().contains_key(self.store()[dd].parent@)
            &&& self.store()[self.store()[dd].parent@].height + 1 == self.store()[dd].height
        } by {
            if dd != d {
                assert(prev.store().contains_key(dd));
            }
        }
        assert forall|h: int| #![trigger self.canonical(h)] self.in_chain(h) implies {
            &&& self.store().contains_key(self.canonical(h))
            &&& self.store()[self.canonical(h)].height == h
            &&& h > self.genesis_height() ==> self.store()[self.canonical(h)].parent@
                == self.canonical(h - 1)
        } by {
            let k = h - self.genesis_height;
            if k <= idx {
                assert(self.canonical(h) == prev.canonical(h));
                assert(prev.in_chain(h));
                if k > 0 {
                    assert(self.canonical(h - 1) == prev.canonical(h - 1));
                }
            } else {
                assert(self.canon@[k]@ == self.canonical(h));
                assert(self.canon@[k - 1]@ == self.canonical(h - 1));
            }
        }
    }

    /// Whether a claim proved against the header stored under `d` is
    /// accepted: the fee is paid, the header is canonical, at least
    /// `min_depth` canonical blocks stand on it, and the proof verifies.
    pub open spec fn verifies(self, d: Seq<u8>, min_depth: u64, payment: u128, proof_ok: bool) -> bool {
        &&& payment >= self.verify_fee()
        &&& self.is_canon(d)
        &&& self.best() - self.store()[d].height >= min_depth
        &&& proof_ok
    }

    /// The header stored under `header_hash`, if it is canonical with at
    /// least `min_depth` canonical blocks on top of it.
    fn deep_canonical_header(&self, header_hash: HashValue, min_depth: u64) -> (r: Option<Header>)
        requires
            self.wf(),
        ensures
            r is Some <==> (self.is_canon(header_hash@) && self.best() - self.store()[header_hash@].height
                >= min_depth),
            r matches Some(h) ==> h == self.store()[header_hash@],
    {
        let i = match self.find(&header_hash) {
            None => {
                return None;
            },
            Some(i) => i,
        };
        let header = self.entries[i].header;
        proof {
            assert(self.store@.contains_key(self.entries@[i as int].hash@));
        }
        if !self.header_is_canon(header_hash) {
            return None;
        }
        let best = self.best_height();
        if best - header.height < min_depth {
            return None;
        }
        Some(header)
    }

    /// Checks that the transaction `tx_hash` is included in the header stored
    /// under `header_hash`, which must be canonical and at least `min_depth`
    /// blocks deep, paying `payment`; a payment below the verification fee
    /// gives `false`. On `true` the verification fee is owed to
    /// `fee_recipient(header_hash)`.
    pub fn verify_transaction(
        &self,
        tx_hash: HashValue,
        header_hash: HashValue,
        min_depth: u64,
        p: MerkleProof,
        payment: u128,
    ) -> (r: bool)
        requires
            self.wf(),
        ensures
            r == self.verifies(header_hash@, min_depth, payment, p.verifies),
    {
        if payment < self.verify_fee {
            return false;
        }
        match self.deep_canonical_header(header_hash, min_depth) {
            None => false,
            Some(header) => MerkleProof::check_merkle_proof(tx_hash, p, header.transactions_root),
        }
    }

    /// Checks that `claim` holds in the storage of the header stored under
    /// `block_hash`, which must be canonical and at least `min_depth` blocks
    /// deep, paying `payment`. The proof is taken over the claim's digest. On
    /// `true` the verification fee is owed to `fee_recipient(block_hash)`.
    pub fn verify_state(
        &self,
        claim: StateClaim,
        block_hash: HashValue,
        min_depth: u64,
        p: MerkleProof,
        payment: u128,
    ) -> (r: bool)
        requires
            self.wf(),
        ensures
            r == self.verifies(block_hash@, min_depth, payment, p.verifies),
    {
        let claim_hash = hash_claim(&claim);
        if payment < self.verify_fee {
            return false;
        }
        match self.deep_canonical_header(block_hash, min_depth) {
            None => false,
            Some(header) => MerkleProof::check_merkle_proof(claim_hash, p, header.storage_root),
        }
    }

    /// The digest of a header.
    pub fn hash_header(header: Header) -> (r: HashValue)
        ensures
            r@ == header_digest(header),
    {
        hash_header(&header)
    }

    /// Every stored header other than genesis has its parent stored, one
    /// height below it.
    pub proof fn lemma_no_dangling_parents(self)
        requires
            self.wf(),
        ensures
            forall|d: Seq<u8>|
                #[trigger] self.store().contains_key(d) && d != self.genesis() ==> {
                    &&& self.store().contains_key(self.store()[d].parent@)
                    &&& self.store()[self.store()[d].parent@].height + 1 == self.store()[d].height
                },
    {
    }

    /// The canonical chain runs without a gap from the genesis header to the
    /// best height: each canonical header is stored at its height, and above
    /// genesis its parent is the canonical digest one height below.
    pub proof fn lemma_canonical_contiguity(self)
        requires
            self.wf(),
        ensures
            self.canonical(self.genesis_height()) == self.genesis(),
            forall|h: int|
                #![trigger self.canonical(h)]
                self.in_chain(h) ==> {
                    &&& self.store().contains_key(self.canonical(h))
                    &&& self.store()[self.canonical(h)].height == h
                    &&& h > self.genesis_height() ==> self.store()[self.canonical(h)].parent@
                        == self.canonical(h - 1)
                },
    {
    }

    /// Every canonical digest is the ancestor of the tip at its height: the
    /// canonical chain is the branch that ends at the best height.
    pub proof fn lemma_canonical_is_tip_branch(self)
        requires
            self.wf(),
        ensures
            forall|h: int|
                #![trigger self.canonical(h)]
                self.in_chain(h) ==> self.canonical(h) == self.ancestor(
                    self.canonical(self.best()),
                    (self.best() - h) as nat,
                ),
    {
        assert forall|h: int| #![trigger self.canonical(h)] self.in_chain(h) implies self.canonical(h)
            == self.ancestor(self.canonical(self.best()), (self.best() - h) as nat) by {
            self.lemma_ancestor_step(h);
        }
    }

    proof fn lemma_ancestor_step(self, h: int)
        requires
            self.wf(),
            self.in_chain(h),
        ensures
            self.canonical(h) == self.ancestor(self.canonical(self.best()), (self.best() - h) as nat),
        decreases self.best() - h,
    {
        if h < self.best() {
            self.lemma_ancestor_step(h + 1);
            self.lemma_ancestor_unfold(self.canonical(self.best()), (self.best() - h - 1) as nat);
            assert(self.in_chain(h + 1));
            assert(self.store()[self.canonical(h + 1)].parent@ == self.canonical(h));
        }
    }

    /// One generation more is the parent of the ancestor.
    proof fn lemma_ancestor_unfold(self, d: Seq<u8>, k: nat)
        ensures
            self.ancestor(d, k + 1) == self.store()[self.ancestor(d, k)].parent@,
        decreases k,
    {
        let p = self.store()[d].parent@;
        assert(self.ancestor(d, k + 1) == self.ancestor(p, k));
        if k > 0 {
            self.lemma_ancestor_unfold(p, (k - 1) as nat);
            assert(self.ancestor(d, k) == self.ancestor(p, (k - 1) as nat));
        } else {
            assert(self.ancestor(p, 0) == p);
        }
    }

    /// Where two states that share their stored headers agree on the
    /// canonical digest at height `f`, they agree at every height below it:
    /// a reorganisation rewrites the chain only above the fork point.
    pub proof fn lemma_agreement_below_fork(self, other: SpvBridge, f: int)
        requires
            self.wf(),
            other.wf(),
            self.store().submap_of(other.store()),
            self.genesis_height() == other.genesis_height(),
            self.in_chain(f),
            other.in_chain(f),
            self.canonical(f) == other.canonical(f),
        ensures
            forall|h: int|
                self.genesis_height() <= h <= f ==> #[trigger] self.canonical(h) == other.canonical(h),
    {
        assert forall|h: int| self.genesis_height() <= h <= f implies #[trigger] self.canonical(h)
            == other.canonical(h) by {
            self.lemma_agree_down(other, f, h);
        }
    }

    proof fn lemma_agree_down(self, other: SpvBridge, f: int, h: int)
        requires
            self.wf(),
            other.wf(),
            self.store().submap_of(other.store()),
            self.genesis_height() == other.genesis_height(),
            self.in_chain(f),
            other.in_chain(f),
            self.canonical(f) == other.canonical(f),
            self.genesis_height() <= h <= f,
        ensures
            self.canonical(h) == other.canonical(h),
        decreases f - h,
    {
        if h < f {
            assert(self.in_chain(f - 1) && other.in_chain(f - 1));
            assert(self.store().contains_key(self.canonical(f)));
            assert(self.canonical(f - 1) == other.canonical(f - 1));
            self.lemma_agree_down(other, f - 1, h);
        }
    }

    /// After a taller header is accepted, the canonical chain from genesis
    /// to the new tip is the branch of that header, and below the fork point
    /// (any height where old and new chains agree) nothing changed.
    pub proof fn lemma_reorg(self, next: SpvBridge, header: Header, submitter: AccountId)
        requires
            self.wf(),
            next.wf(),
            next.accepted(self, header, submitter),
            header.height > self.best(),
        ensures
            next.best() == header.height,
            forall|h: int|
                #![trigger next.canonical(h)]
                next.in_chain(h) ==> next.canonical(h) == next.ancestor(
                    header_digest(header),
                    (header.height - h) as nat,
                ),
            forall|f: int|
                #![trigger self.canonical(f)]
                self.in_chain(f) && self.canonical(f) == next.canonical(f) ==> forall|h: int|
                    self.genesis_height() <= h <= f ==> #[trigger] next.canonical(h)
                        == self.canonical(h),
    {
        assert(next.canonical(next.best()) == header_digest(header));
        next.lemma_canonical_is_tip_branch();
        self.lemma_reorg_below_fork(next, header, submitter);
    }

    proof fn lemma_reorg_below_fork(self, next: SpvBridge, header: Header, submitter: AccountId)
        requires
            self.wf(),
            next.wf(),
            next.accepted(self, header, submitter),
        ensures
            forall|f: int|
                #![trigger self.canonical(f)]
                self.in_chain(f) && self.canonical(f) == next.canonical(f) ==> forall|h: int|
                    self.genesis_height() <= h <= f ==> #[trigger] next.canonical(h)
                        == self.canonical(h),
    {
        assert forall|k: Seq<u8>| #[trigger] self.store().contains_key(k) implies next.store().contains_key(k)
            && next.store()[k] == self.store()[k] by {
            assert(k != header_digest(header));
        }
        assert(self.store().submap_of(next.store()));
        assert(next.best() >= self.best()) by {
            if next.best() < self.best() {
                assert(self.in_chain(self.best()));
                assert(self.store().contains_key(self.canonical(self.best())));
                assert(next.store().contains_key(self.canonical(self.best())));
            }
        }
        assert forall|f: int|
            #![trigger self.canonical(f)]
            self.in_chain(f) && self.canonical(f) == next.canonical(f) implies forall|h: int|
                self.genesis_height() <= h <= f ==> #[trigger] next.canonical(h)
                    == self.canonical(h) by {
            assert(next.in_chain(f));
            self.lemma_agreement_below_fork(next, f);
        }
    }

    /// A header that is already stored is refused as a resubmission whenever
    /// the relay fee is paid (and `submit_new_header` leaves the bridge
    /// unchanged on every refusal).
    pub proof fn lemma_resubmission_refused(self, header: Header, payment: u128)
        requires
            self.store().contains_key(header_digest(header)),
            payment >= self.relay_fee(),
        ensures
            self.rejection(header, payment) == Some(Error::HeaderAlreadySubmitted),
    {
    }

    /// A header that passes the earlier checks is refused for its proof of
    /// work exactly when its digest is not below the difficulty threshold.
    pub proof fn lemma_pow_enforced(self, header: Header, payment: u128)
        requires
            payment >= self.relay_fee(),
            !self.store().contains_key(header_digest(header)),
            self.store().contains_key(header.parent@),
            self.store()[header.parent@].height + 1 == header.height,
        ensures
            (self.rejection(header, payment) == Some(Error::PoWThresholdNotMet)) <==> !bytes_below(
                header_digest(header),
                self.threshold(),
            ),
            self.rejection(header, payment) is None <==> bytes_below(
                header_digest(header),
                self.threshold(),
            ),
    {
    }

    /// No verification against a stored header succeeds while fewer than
    /// `min_depth` canonical blocks stand on it.
    pub proof fn lemma_depth_gating(self, d: Seq<u8>, min_depth: u64, payment: u128, proof_ok: bool)
        requires
            self.store().contains_key(d),
            self.best() - self.store()[d].height < min_depth,
        ensures
            !self.verifies(d, min_depth, payment, proof_ok),
    {
    }

    /// The events emitted so far, oldest first.
    pub fn submitted_events(&self) -> (r: &Vec<HeaderSubmitted>)
        ensures
            r@ == self.emitted(),
    {
        &self.events
    }

    /// The best height: the top of the canonical chain.
    pub fn best_height(&self) -> (r: u64)
        requires
            self.wf(),
        ensures
            r == self.best(),
    {
        self.genesis_height + (self.canon.len() - 1) as u64
    }
}

} // verus!
