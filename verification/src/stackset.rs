//! A stack with expected O(1) membership testing.
//!
//! The interface is that of a stack — `push`, `pop`, `top` — with an added
//! `contains` method for lookups.  One open-addressing hash table backs both
//! roles at once: every occupied slot holds a key together with the index of
//! the slot below it in stack order, and `top_index` names the slot holding
//! the current top.  Collisions are resolved by quadratic probing (offsets
//! 1, 3, 5, ..., the running index wrapped modulo the table length), the
//! table length is always prime, and the table is kept less than half full,
//! which together guarantee that every probe path reaches an empty slot.
//!
//! Growth re-inserts every key into a fresh table of the next prime size and
//! rebuilds the stack links to the new slot indices, so probe paths stay
//! consistent with the new table length.  Clearing only ever happens at the
//! top of the stack: every slot that a live key probed past holds a key
//! pushed earlier, which can only be popped later, so probe paths never
//! acquire holes and lookups may stop at the first empty slot.

use vstd::prelude::*;
use vstd::arithmetic::div_mod::*;
use vstd::seq_lib::*;
use crate::primes::{is_prime, probe_at, lemma_prime_is_odd, lemma_probe_prefix_pigeonhole};

verus! {

/// A table slot: empty, or a key plus the index of the slot below it in
/// stack order (`None` for the bottom element).
type Slot = Option<(usize, Option<usize>)>;

/// The table length the container starts with: the smallest usable prime.
const INITIAL_CAPACITY: usize = 11;

/// The table never grows beyond this length, so index arithmetic stays far
/// below `usize::MAX` on every architecture.
const CAPACITY_LIMIT: usize = 0x1000_0000;

/// The most keys a container will hold at once; keeps every intermediate
/// table length under `CAPACITY_LIMIT`.
pub const MAX_KEYS: usize = 0x0100_0000;

/// Where a key's probe sequence starts: the key reduced modulo the table
/// length (division-method hashing; the length is prime).
pub open spec fn hash_spec(key: usize, cap: int) -> int {
    (key as int) % cap
}

/// Slot `s` appears in the chain prefix `ch[..j]`: it belongs to a key
/// pushed before the key at position `j`.
pub open spec fn in_prefix(ch: Seq<int>, j: int, s: int) -> bool {
    exists|j2: int| 0 <= j2 < j && #[trigger] ch[j2] == s
}

/// The probe path of `key` reaches the slot `ch[j]` at step `n`, and every
/// earlier step lands on a slot already in the chain prefix `ch[..j]` — that
/// is, on a key pushed before this one.
pub open spec fn probe_path_ok(ch: Seq<int>, cap: int, key: usize, j: int, n: int) -> bool {
    &&& probe_at(hash_spec(key, cap), n, cap) == ch[j]
    &&& forall|m: int|
        0 <= m < n ==> #[trigger] in_prefix(ch, j, probe_at(hash_spec(key, cap), m, cap))
}

/// A stack data structure with expected amortized O(1) lookup, backed by a
/// single open-addressing hash table whose occupied slots are threaded into
/// a singly-linked list that records stack order.
pub struct StackSet {
    top_index: Option<usize>,
    count: usize,
    capacity: usize,
    table: Vec<Slot>,
    /// The slot indices of the live keys, bottom of the stack first.
    chain: Ghost<Seq<int>>,
}

impl View for StackSet {
    type V = Seq<usize>;

    /// The keys currently on the stack, bottom first.
    closed spec fn view(&self) -> Seq<usize> {
        Seq::new(self.chain@.len(), |j: int| self.key_at(j))
    }
}

impl StackSet {
    /// The key stored at stack position `j` (0 is the bottom).
    spec fn key_at(&self, j: int) -> usize {
        self.table@[self.chain@[j]].unwrap().0
    }

    /// Slot `chain[j]` is in range, occupied, and its back-pointer names the
    /// slot of the key below it in stack order.
    spec fn slot_ok(&self, j: int) -> bool {
        let s = self.chain@[j];
        &&& 0 <= s < self.table@.len()
        &&& self.table@[s] is Some
        &&& self.table@[s].unwrap().1 == (if j == 0 {
            None::<usize>
        } else {
            Some(self.chain@[j - 1] as usize)
        })
    }

    /// The structural invariant: the chain threads exactly the occupied
    /// slots, in stack order, ending at `top_index`.
    spec fn chain_ok(&self) -> bool {
        let ch = self.chain@;
        &&& self.table@.len() == self.capacity
        &&& ch.len() == self.count
        &&& ch.no_duplicates()
        &&& match self.top_index {
            None => ch.len() == 0,
            Some(ti) => ch.len() > 0 && ch.last() == ti as int,
        }
        &&& forall|j: int| 0 <= j < ch.len() ==> #[trigger] self.slot_ok(j)
        &&& forall|s: int|
            0 <= s < self.table@.len() && #[trigger] self.table@[s] is Some ==> ch.contains(s)
    }

    /// Every live key's probe path reaches its slot having crossed only keys
    /// pushed before it.
    spec fn probe_ok_at(&self, j: int) -> bool {
        exists|n: int|
            0 <= n && #[trigger] probe_path_ok(
                self.chain@,
                self.capacity as int,
                self.key_at(j),
                j,
                n,
            )
    }

    spec fn probes_ok(&self) -> bool {
        forall|j: int| 0 <= j < self.chain@.len() ==> #[trigger] self.probe_ok_at(j)
    }

    /// The full invariant.  The load bound `2 * count < capacity` is what
    /// makes every probe path reach an empty slot.
    pub closed spec fn wf(&self) -> bool {
        &&& self.chain_ok()
        &&& self.probes_ok()
        &&& is_prime(self.capacity as int)
        &&& 11 <= self.capacity <= CAPACITY_LIMIT
        &&& 2 * self.count < self.capacity
    }

    /// The current table length, for stating that it never shrinks.
    pub closed spec fn spec_capacity(&self) -> int {
        self.capacity as int
    }

    /// An empty container with the smallest usable prime table length.
    pub fn new() -> (s: StackSet)
        ensures
            s.wf(),
            s@ == Seq::<usize>::empty(),
            s.spec_capacity() == 11,
    {
        let table = empty_table(INITIAL_CAPACITY);
        let s = StackSet {
            top_index: None,
            count: 0,
            capacity: INITIAL_CAPACITY,
            table,
            chain: Ghost(Seq::empty()),
        };
        proof {
            lemma_11_is_prime();
            assert(s@ =~= Seq::<usize>::empty());
        }
        s
    }

    /// True exactly when the stack holds no keys.
    pub fn is_empty(&self) -> (r: bool)
        requires
            self.wf(),
        ensures
            r == (self@.len() == 0),
    {
        self.top_index.is_none()
    }

    /// The most recently pushed key not yet popped, or `None` on an empty
    /// stack.  No mutation.
    pub fn top(&self) -> (r: Option<usize>)
        requires
            self.wf(),
        ensures
            r == (if self@.len() == 0 {
                None::<usize>
            } else {
                Some(self@.last())
            }),
    {
        match self.top_index {
            None => None,
            Some(ti) => {
                proof {
                    assert(self.slot_ok(self.chain@.len() - 1));
                }
                Some(self.table[ti].unwrap().0)
            },
        }
    }

    /// Probes from `hash` for the first empty slot, writes `key` there with
    /// a back-pointer to the previous top, and makes that slot the new top.
    /// The load bound guarantees the probe loop finds an empty slot within
    /// `count + 1` steps.
    #[verifier::loop_isolation(false)]
    fn place(&mut self, hash: usize, key: usize)
        requires
            old(self).chain_ok(),
            old(self).probes_ok(),
            is_prime(old(self).capacity as int),
            11 <= old(self).capacity <= CAPACITY_LIMIT,
            2 * old(self).count < old(self).capacity,
            hash as int == hash_spec(key, old(self).capacity as int),
        ensures
            final(self).chain_ok(),
            final(self).probes_ok(),
            final(self).capacity == old(self).capacity,
            final(self).count == old(self).count + 1,
            final(self)@ == old(self)@.push(key),
    {
        let ghost cap = self.capacity as int;
        let ghost h = hash as int;
        let mut idx: usize = hash;
        let mut off: usize = 1;
        let ghost mut i: int = 0;
        proof {
            lemma_mod_bound(key as int, cap);
            lemma_probe_start(h, cap);
        }
        while self.table[idx].is_some()
            invariant
                0 <= i <= self.count,
                off == 2 * i + 1,
                idx as int == probe_at(h, i, cap),
                idx < self.capacity,
                forall|m: int| 0 <= m < i ==> self.chain@.contains(#[trigger] probe_at(h, m, cap)),
            decreases self.count - i,
        {
            proof {
                assert(self.chain@.contains(idx as int));
                assert(probe_at(h, i, cap) == idx as int);
                lemma_probe_prefix_pigeonhole(h, cap, i + 1, self.chain@);
            }
            let next = idx + off;
            idx = next % self.capacity;
            off = off + 2;
            proof {
                lemma_probe_step(h, cap, i);
                i = i + 1;
                lemma_mod_bound(next as int, cap);
            }
        }
        let prev_top = self.top_index;
        self.table.set(idx, Some((key, prev_top)));
        self.top_index = Some(idx);
        self.count = self.count + 1;
        self.chain = Ghost(self.chain@.push(idx as int));
        proof {
            let och = old(self).chain@;
            let nch = self.chain@;
            let e = idx as int;
            assert(!och.contains(e)) by {
                if och.contains(e) {
                    let j = choose|j: int| 0 <= j < och.len() && och[j] == e;
                    assert(old(self).slot_ok(j));
                }
            }
            assert(nch.no_duplicates()) by {
                assert forall|x: int, y: int|
                    0 <= x < nch.len() && 0 <= y < nch.len() && x != y implies nch[x] != nch[y] by {
                    if x < och.len() && y < och.len() {
                        assert(och[x] != och[y]);
                    } else if x < och.len() {
                        assert(nch[y] == e && !och.contains(e) && och[x] == nch[x]);
                    } else {
                        assert(nch[x] == e && !och.contains(e) && och[y] == nch[y]);
                    }
                }
            }
            assert forall|j: int| 0 <= j < nch.len() implies #[trigger] self.slot_ok(j) by {
                if j < och.len() {
                    assert(old(self).slot_ok(j));
                    assert(och[j] != e);
                } else {
                    assert(nch[j] == e);
                    assert(self.table@[e].unwrap().1 == prev_top);
                    if j == 0 {
                        assert(och.len() == 0);
                        assert(prev_top == None::<usize>);
                    } else {
                        assert(och.len() > 0);
                        assert(prev_top == Some(och.last() as usize));
                        assert(nch[j - 1] == och.last());
                    }
                }
            }
            assert forall|s: int|
                0 <= s < self.table@.len() && self.table@[s] is Some implies nch.contains(s) by {
                if s == e {
                    assert(nch[nch.len() - 1] == e);
                } else {
                    assert(old(self).table@[s] is Some);
                    assert(och.contains(s));
                    let j = choose|j: int| 0 <= j < och.len() && och[j] == s;
                    assert(nch[j] == s);
                }
            }
            assert forall|j: int| 0 <= j < nch.len() implies #[trigger] self.probe_ok_at(j) by {
                if j < och.len() {
                    assert(old(self).probe_ok_at(j));
                    let n = choose|n: int|
                        0 <= n && #[trigger] probe_path_ok(och, cap, old(self).key_at(j), j, n);
                    assert(old(self).slot_ok(j));
                    assert(self.key_at(j) == old(self).key_at(j));
                    lemma_probe_path_stable(och, nch, cap, self.key_at(j), j, n);
                    assert(probe_path_ok(self.chain@, self.capacity as int, self.key_at(j), j, n));
                    assert(self.probe_ok_at(j));
                } else {
                    assert(self.key_at(j) == key);
                    assert(nch[j] == e);
                    assert(probe_at(h, i, cap) == e);
                    assert forall|m: int| 0 <= m < i implies #[trigger] in_prefix(
                        nch,
                        j,
                        probe_at(hash_spec(key, cap), m, cap),
                    ) by {
                        assert(och.contains(probe_at(h, m, cap)));
                        let j2 = choose|j2: int| 0 <= j2 < och.len() && och[j2] == probe_at(h, m, cap);
                        assert(nch[j2] == probe_at(hash_spec(key, cap), m, cap));
                    }
                    assert(probe_path_ok(nch, cap, key, j, i));
                    assert(probe_path_ok(self.chain@, self.capacity as int, self.key_at(j), j, i));
                    assert(self.probe_ok_at(j));
                }
            }
            assert forall|j: int| 0 <= j < och.len() implies self.key_at(j) == old(self).key_at(j) by {
                assert(old(self).slot_ok(j));
            }
            assert(self@ =~= old(self)@.push(key));
        }
    }

    /// Removes and returns the top of the stack.  Popping an empty container
    /// is a programmer error, so an empty stack is ruled out by contract;
    /// callers guard with `is_empty`.  Clears exactly the top slot, so probe
    /// paths of the remaining keys stay unbroken.  The table never shrinks.
    pub fn pop(&mut self) -> (key: usize)
        requires
            old(self).wf(),
            old(self)@.len() > 0,
        ensures
            final(self).wf(),
            key == old(self)@.last(),
            final(self)@ == old(self)@.drop_last(),
            final(self).spec_capacity() == old(self).spec_capacity(),
    {
        proof {
            assert(old(self).slot_ok(old(self).chain@.len() - 1));
        }
        let ti = self.top_index.unwrap();
        let entry = self.table[ti].unwrap();
        self.table.set(ti, None);
        self.top_index = entry.1;
        self.count = self.count - 1;
        self.chain = Ghost(self.chain@.drop_last());
        proof {
            let och = old(self).chain@;
            let nch = self.chain@;
            let ts = ti as int;
            let cap = self.capacity as int;
            assert(nch.no_duplicates()) by {
                assert forall|x: int, y: int|
                    0 <= x < nch.len() && 0 <= y < nch.len() && x != y implies nch[x] != nch[y] by {
                    assert(och[x] != och[y]);
                }
            }
            assert forall|j: int| 0 <= j < nch.len() implies #[trigger] self.slot_ok(j) by {
                assert(old(self).slot_ok(j));
                assert(och[j] != och[och.len() - 1]);
            }
            assert forall|s: int|
                0 <= s < self.table@.len() && #[trigger] self.table@[s] is Some implies nch.contains(
                s,
            ) by {
                assert(old(self).table@[s] is Some);
                assert(och.contains(s));
                let j = choose|j: int| 0 <= j < och.len() && och[j] == s;
                assert(s != ts);
                assert(j != och.len() - 1);
                assert(nch[j] == s);
            }
            assert forall|j: int| 0 <= j < nch.len() implies #[trigger] self.probe_ok_at(j) by {
                assert(old(self).probe_ok_at(j));
                let n = choose|n: int|
                    0 <= n && #[trigger] probe_path_ok(och, cap, old(self).key_at(j), j, n);
                assert(old(self).slot_ok(j));
                assert(och[j] != och[och.len() - 1]);
                assert(self.key_at(j) == old(self).key_at(j));
                lemma_probe_path_stable(och, nch, cap, self.key_at(j), j, n);
                assert(probe_path_ok(self.chain@, self.capacity as int, self.key_at(j), j, n));
                assert(self.probe_ok_at(j));
            }
            if och.len() > 1 {
                assert(old(self).slot_ok(och.len() - 2));
                assert(entry.1 == Some(och[och.len() - 2] as usize));
                assert(nch.last() == och[och.len() - 2]);
                assert(0 <= och[och.len() - 2] < self.capacity);
            }
            assert forall|j: int| 0 <= j < nch.len() implies self.key_at(j) == old(self).key_at(
                j,
            ) by {
                assert(old(self).slot_ok(j));
                assert(och[j] != och[och.len() - 1]);
            }
            assert(self@ =~= old(self)@.drop_last());
        }
        entry.0
    }

    /// Whether `key` is currently on the stack.  Runs the same probe
    /// sequence a push of `key` would run and stops at the first empty slot:
    /// every slot a live key probed past belongs to a key pushed earlier,
    /// still present, so a gap proves absence.  No mutation.
    #[verifier::loop_isolation(false)]
    pub fn contains(&self, key: usize) -> (r: bool)
        requires
            self.wf(),
        ensures
            r == self@.contains(key),
    {
        let hash = self.hash(key);
        let ghost cap = self.capacity as int;
        let ghost h = hash as int;
        let mut idx: usize = hash;
        let mut off: usize = 1;
        let ghost mut i: int = 0;
        proof {
            lemma_probe_start(h, cap);
        }
        while self.table[idx].is_some()
            invariant
                0 <= i <= self.count,
                off == 2 * i + 1,
                idx as int == probe_at(h, i, cap),
                idx < self.capacity,
                forall|m: int| 0 <= m < i ==> self.chain@.contains(#[trigger] probe_at(h, m, cap)),
                forall|m: int|
                    0 <= m < i ==> self.table@[#[trigger] probe_at(h, m, cap)].unwrap().0 != key,
            decreases self.count - i,
        {
            let entry = self.table[idx].unwrap();
            if entry.0 == key {
                proof {
                    assert(self.chain@.contains(idx as int));
                    let j = choose|j: int|
                        0 <= j < self.chain@.len() && self.chain@[j] == idx as int;
                    assert(self.slot_ok(j));
                    assert(self@[j] == key);
                }
                return true;
            }
            proof {
                assert(self.chain@.contains(idx as int));
                lemma_probe_prefix_pigeonhole(h, cap, i + 1, self.chain@);
            }
            let next = idx + off;
            idx = next % self.capacity;
            off = off + 2;
            proof {
                lemma_probe_step(h, cap, i);
                i = i + 1;
                lemma_mod_bound(next as int, cap);
            }
        }
        proof {
            if self@.contains(key) {
                let j = choose|j: int| 0 <= j < self@.len() && self@[j] == key;
                assert(self.probe_ok_at(j));
                let n = choose|n: int|
                    0 <= n && #[trigger] probe_path_ok(self.chain@, cap, self.key_at(j), j, n);
                assert(self.key_at(j) == key);
                assert(self.slot_ok(j));
                if n < i {
                    assert(self.table@[probe_at(h, n, cap)].unwrap().0 != key);
                    assert(probe_at(h, n, cap) == self.chain@[j]);
                    assert(false);
                } else if n == i {
                    assert(probe_at(h, i, cap) == self.chain@[j]);
                    assert(false);
                } else {
                    assert(in_prefix(self.chain@, j, probe_at(h, i, cap)));
                    let j2 = choose|j2: int|
                        0 <= j2 < j && self.chain@[j2] == probe_at(h, i, cap);
                    assert(self.slot_ok(j2));
                    assert(false);
                }
            }
        }
        false
    }

    /// Grows the table to the smallest prime strictly greater than twice
    /// the current length, then re-inserts every key from the bottom of the
    /// stack up into a fresh table, rebuilding the stack links to the new
    /// slot indices.  A full rehash is required because slot positions
    /// depend on the table length: merely appending empty slots would leave
    /// old entries where probe sequences computed modulo the new length
    /// cannot find them.
    #[verifier::loop_isolation(false)]
    fn resize(&mut self)
        requires
            old(self).chain_ok(),
            old(self).probes_ok(),
            is_prime(old(self).capacity as int),
            11 <= old(self).capacity <= CAPACITY_LIMIT,
            2 * old(self).count <= old(self).capacity + 1,
            old(self).capacity <= 2 * old(self).count + 1,
            old(self).count <= MAX_KEYS,
        ensures
            final(self).wf(),
            final(self)@ == old(self)@,
            is_prime(final(self).spec_capacity()),
            final(self).spec_capacity() > 2 * old(self).spec_capacity(),
            forall|q: int|
                2 * old(self).spec_capacity() < q < final(self).spec_capacity() ==> !is_prime(q),
    {
        let ghost och = self.chain@;
        let mut keys: Vec<usize> = Vec::new();
        let mut cur: Option<usize> = self.top_index;
        while cur.is_some()
            invariant
                keys@.len() <= self.count,
                keys@.len() < self.count ==> (cur is Some && cur.unwrap() as int == och[self.count
                    - 1 - keys@.len()]),
                keys@.len() == self.count ==> cur is None,
                forall|x: int| 0 <= x < keys@.len() ==> keys@[x] == self@[self.count - 1 - x],
            decreases self.count - keys@.len(),
        {
            let ti = cur.unwrap();
            let ghost j = self.count - 1 - keys@.len();
            proof {
                assert(self.slot_ok(j));
                if j > 0 {
                    assert(self.slot_ok(j - 1));
                }
            }
            let entry = self.table[ti].unwrap();
            keys.push(entry.0);
            cur = entry.1;
        }
        let doubled = self.capacity * 2;
        let new_cap = next_prime_at_least(doubled);
        proof {
            // The doubled length is even and above 2, so it is not itself
            // prime: the least prime at least `doubled` is strictly greater.
            assert(!is_prime(doubled as int)) by {
                assert((doubled as int) % 2 == 0);
            }
            assert(new_cap > doubled);
        }
        let mut fresh = StackSet {
            top_index: None,
            count: 0,
            capacity: new_cap,
            table: empty_table(new_cap),
            chain: Ghost(Seq::empty()),
        };
        proof {
            assert(fresh@ =~= Seq::<usize>::empty());
        }
        let total = keys.len();
        let mut done: usize = 0;
        while done < total
            invariant
                fresh.chain_ok(),
                fresh.probes_ok(),
                fresh.capacity == new_cap,
                fresh.count == done,
                done <= total,
                fresh@ == self@.take(done as int),
            decreases total - done,
        {
            let k = keys[total - 1 - done];
            proof {
                assert(k == self@[done as int]);
            }
            let hsh = fresh.hash(k);
            fresh.place(hsh, k);
            done = done + 1;
            proof {
                assert(fresh@ =~= self@.take(done as int));
            }
        }
        proof {
            assert(self@.take(total as int) =~= self@);
        }
        *self = fresh;
    }

    /// Writes `key` into the first empty slot of the probe sequence that
    /// starts at `hash`, links it as the new top, and grows the table once
    /// it has become half full — after the insertion, so the new key is
    /// carried into the rehash.  The table length is untouched while the
    /// load stays below half, and otherwise becomes the smallest prime
    /// strictly greater than twice the old length.
    fn push_at(&mut self, hash: usize, key: usize)
        requires
            old(self).wf(),
            old(self)@.len() < MAX_KEYS,
            hash as int == hash_spec(key, old(self).capacity as int),
        ensures
            final(self).wf(),
            final(self)@ == old(self)@.push(key),
            final(self).spec_capacity() >= old(self).spec_capacity(),
            old(self)@.len() + 1 < old(self).spec_capacity() / 2 ==> final(self).spec_capacity()
                == old(self).spec_capacity(),
            old(self)@.len() + 1 >= old(self).spec_capacity() / 2 ==> {
                &&& is_prime(final(self).spec_capacity())
                &&& final(self).spec_capacity() > 2 * old(self).spec_capacity()
                &&& forall|q: int|
                    2 * old(self).spec_capacity() < q < final(self).spec_capacity() ==> !is_prime(
                        q,
                    )
            },
    {
        self.place(hash, key);
        proof {
            lemma_prime_is_odd(self.capacity as int);
            lemma_fundamental_div_mod(self.capacity as int, 2);
            assert(self.count == old(self)@.len() + 1);
        }
        if self.count >= self.capacity / 2 {
            self.resize();
        }
    }

    /// Pushes `key` onto the stack.  The key must not already be present:
    /// set semantics are the caller's obligation, as a duplicate would
    /// occupy a second slot that only a later pop of the first copy could
    /// expose.  The table length never decreases: it is unchanged while the
    /// stack, with the new key counted, stays below half the table length,
    /// and otherwise grows to the smallest prime strictly greater than
    /// twice the old length.
    pub fn push(&mut self, key: usize)
        requires
            old(self).wf(),
            !old(self)@.contains(key),
            old(self)@.len() < MAX_KEYS,
        ensures
            final(self).wf(),
            final(self)@ == old(self)@.push(key),
            final(self).spec_capacity() >= old(self).spec_capacity(),
            old(self)@.len() + 1 < old(self).spec_capacity() / 2 ==> final(self).spec_capacity()
                == old(self).spec_capacity(),
            old(self)@.len() + 1 >= old(self).spec_capacity() / 2 ==> {
                &&& is_prime(final(self).spec_capacity())
                &&& final(self).spec_capacity() > 2 * old(self).spec_capacity()
                &&& forall|q: int|
                    2 * old(self).spec_capacity() < q < final(self).spec_capacity() ==> !is_prime(
                        q,
                    )
            },
    {
        let h = self.hash(key);
        self.push_at(h, key);
    }

    /// A key's starting slot: the key reduced modulo the table length.
    fn hash(&self, key: usize) -> (h: usize)
        requires
            self.capacity > 0,
        ensures
            h as int == hash_spec(key, self.capacity as int),
            h < self.capacity,
    {
        key % self.capacity
    }
}

/// One probe step: adding the next odd offset `2 * n + 1` to the slot of
/// step `n` and wrapping lands on the slot of step `n + 1`.
proof fn lemma_probe_step(h: int, cap: int, n: int)
    requires
        cap > 0,
        0 <= h,
        0 <= n,
    ensures
        (probe_at(h, n, cap) + (2 * n + 1)) % cap == probe_at(h, n + 1, cap),
{
    let a = h + n * n;
    let b = 2 * n + 1;
    assert((n + 1) * (n + 1) == n * n + 2 * n + 1) by (nonlinear_arith);
    lemma_add_mod_noop_right(a % cap, b, cap);
    lemma_add_mod_noop(a, b, cap);
}

/// The probe path of step 0 is the hash slot itself.
proof fn lemma_probe_start(h: int, cap: int)
    requires
        0 <= h < cap,
    ensures
        probe_at(h, 0, cap) == h,
{
    lemma_small_mod(h as nat, cap as nat);
}

/// A probe path certificate only mentions chain entries up to position `j`,
/// so it survives any change that keeps that prefix.
proof fn lemma_probe_path_stable(ch: Seq<int>, ch2: Seq<int>, cap: int, key: usize, j: int, n: int)
    requires
        0 <= j < ch.len(),
        j < ch2.len(),
        0 <= n,
        probe_path_ok(ch, cap, key, j, n),
        forall|x: int| 0 <= x <= j ==> ch2[x] == ch[x],
    ensures
        probe_path_ok(ch2, cap, key, j, n),
{
    let h = hash_spec(key, cap);
    assert(ch2[j] == ch[j]);
    assert forall|m: int| 0 <= m < n implies #[trigger] in_prefix(
        ch2,
        j,
        probe_at(h, m, cap),
    ) by {
        assert(in_prefix(ch, j, probe_at(h, m, cap)));
        let j2 = choose|j2: int| 0 <= j2 < j && #[trigger] ch[j2] == probe_at(h, m, cap);
        assert(ch2[j2] == probe_at(h, m, cap));
    }
}

/// Relies on `next_prime::next_prime`, which returns the least prime that
/// is at least its argument (it walks the odd numbers from the argument up,
/// testing each by trial division).  The upper bound is Bertrand's
/// postulate: for every n >= 2 some prime lies in [n, 2n).  The argument is
/// capped so the crate's internal square-root search cannot overflow.
#[verifier::external_body]
fn next_prime_at_least(n: usize) -> (r: usize)
    requires
        2 <= n <= 0x4000_0000,
    ensures
        is_prime(r as int),
        n <= r,
        r < 2 * n,
        forall|q: int| n <= q < r ==> !is_prime(q),
{
    next_prime::next_prime(n as u64) as usize
}

/// A table of `cap` empty slots.
fn empty_table(cap: usize) -> (t: Vec<Slot>)
    ensures
        t@.len() == cap,
        forall|s: int| 0 <= s < cap ==> t@[s] is None,
{
    let mut t: Vec<Slot> = Vec::new();
    let mut i: usize = 0;
    while i < cap
        invariant
            i <= cap,
            t@.len() == i,
            forall|s: int| 0 <= s < i ==> t@[s] is None,
        decreases cap - i,
    {
        t.push(None);
        i = i + 1;
    }
    t
}

/// The stack contents after `n` pops, each pop removing the current top.
pub open spec fn after_pops(s: Seq<usize>, n: nat) -> Seq<usize>
    decreases n,
{
    if n == 0 {
        s
    } else {
        after_pops(s, (n - 1) as nat).drop_last()
    }
}

/// The LIFO law, on the stack model that `push`, `top` and `pop` are
/// specified against: a push makes its key the top, and the pop that
/// follows returns exactly that key and restores the stack below it.
/// Iterated, pops return keys in the exact reverse of insertion order.
pub proof fn lemma_last_in_first_out(s: Seq<usize>, k: usize)
    ensures
        s.push(k).len() == s.len() + 1,
        s.push(k).last() == k,
        s.push(k).drop_last() == s,
{
    assert(s.push(k).drop_last() =~= s);
}

/// Pushing a key that was absent and popping straight away leaves the key
/// absent again.
pub proof fn lemma_push_pop_absent(s: Seq<usize>, k: usize)
    requires
        !s.contains(k),
    ensures
        !s.push(k).drop_last().contains(k),
{
    assert(s.push(k).drop_last() =~= s);
}

/// Membership survives the other keys' traffic: a present key stays
/// present under any further push, and under any pop that removes a
/// different key.  So a pushed key answers `contains` with true until it is
/// itself popped.
pub proof fn lemma_membership_preserved(s: Seq<usize>, k: usize, other: usize)
    ensures
        s.contains(k) ==> s.push(other).contains(k),
        s.len() > 0 && s.contains(k) && s.last() != k ==> s.drop_last().contains(k),
{
    if s.contains(k) {
        let x = choose|x: int| 0 <= x < s.len() && s[x] == k;
        assert(s.push(other)[x] == k);
        if s.len() > 0 && s.last() != k {
            assert(x < s.len() - 1);
            assert(s.drop_last()[x] == k);
        }
    }
}

/// After `n` of the pushed keys have been popped again, the stack holds its
/// previous contents plus the still-unpopped prefix of the pushed keys.
proof fn lemma_pops_peel_suffix(s: Seq<usize>, ks: Seq<usize>, n: int)
    requires
        0 <= n <= ks.len(),
    ensures
        after_pops(s + ks, n as nat) == s + ks.take(ks.len() - n),
    decreases n,
{
    if n == 0 {
        assert(s + ks.take(ks.len() as int) =~= s + ks);
    } else {
        lemma_pops_peel_suffix(s, ks, n - 1);
        assert((s + ks.take(ks.len() - n + 1)).drop_last() =~= s + ks.take(ks.len() - n));
    }
}

/// Round trip: pushing any keys and then popping as many times returns the
/// stack to exactly its old contents — pushed onto an empty container, to
/// empty.  (The table itself never shrinks: `pop` keeps the capacity, and
/// `push` never decreases it.)
pub proof fn lemma_round_trip(s: Seq<usize>, ks: Seq<usize>)
    ensures
        after_pops(s + ks, ks.len()) == s,
{
    lemma_pops_peel_suffix(s, ks, ks.len() as int);
    assert(s + ks.take(0) =~= s);
}

/// 11 has no divisor strictly between 1 and itself.
proof fn lemma_11_is_prime()
    ensures
        is_prime(11),
{
    assert forall|d: int| 1 < d < 11 implies #[trigger] (11int % d) != 0 by {
        if d == 2 {
            assert(11int % 2 == 1);
        } else if d == 3 {
            assert(11int % 3 == 2);
        } else if d == 4 {
            assert(11int % 4 == 3);
        } else if d == 5 {
            assert(11int % 5 == 1);
        } else if d == 6 {
            assert(11int % 6 == 5);
        } else if d == 7 {
            assert(11int % 7 == 4);
        } else if d == 8 {
            assert(11int % 8 == 3);
        } else if d == 9 {
            assert(11int % 9 == 2);
        } else {
            assert(d == 10);
            assert(11int % 10 == 1);
        }
    }
}

} // verus!
