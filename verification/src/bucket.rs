//! Least-recently-used bookkeeping for the entries of a hash-table bucket.
//!
//! A bucket holds up to `BUCKET_LEN` entries. For a cache, the entries that
//! are in use form a circular doubly-linked list through a small array of
//! `(prev, next)` slot numbers, and the bucket keeps a `tail` word: `0` when
//! the list is empty, otherwise one more than the slot of the most recently
//! used entry. From the most recently used entry, `next` leads to older and
//! older entries, and the oldest entry's `next` leads back to the newest; the
//! newest entry's `prev` is the oldest, which is the one to evict.

use vstd::prelude::*;

verus! {

/// Number of entry slots in a bucket.
pub const BUCKET_LEN: usize = 32;

/// Interface of the list that orders the entries of a bucket from most to
/// least recently used. `tail` is kept by the bucket and handed in; every
/// method returns the new `tail` when it changes.
pub trait LruList: Default + Sized {
    /// Whether the list is consistent with the `tail` word.
    spec fn lru_valid(&self, tail: u32) -> bool;

    /// Removes the least recently used entry: its slot and the new `tail`, or
    /// `None` when there is nothing to evict.
    fn evict(&mut self, tail: u32) -> (r: Option<(u8, u32)>)
        requires
            old(self).lru_valid(tail),
        ensures
            final(self).lru_valid(
                match r {
                    Some((_, t)) => t,
                    None => tail,
                },
            ),
    ;

    /// Takes `entry` out of the list: the new `tail` when it changed.
    fn remove(&mut self, tail: u32, entry: u8) -> (r: Option<u32>)
        requires
            old(self).lru_valid(tail),
            entry < BUCKET_LEN,
        ensures
            final(self).lru_valid(
                match r {
                    Some(t) => t,
                    None => tail,
                },
            ),
    ;

    /// Makes `entry` the most recently used one, adding it when it was not in
    /// the list: the new `tail` when it changed.
    fn promote(&mut self, tail: u32, entry: u8) -> (r: Option<u32>)
        requires
            old(self).lru_valid(tail),
            entry < BUCKET_LEN,
        ensures
            final(self).lru_valid(
                match r {
                    Some(t) => t,
                    None => tail,
                },
            ),
    ;
}

/// The list of a bucket that does not track use: nothing is ever in it.
impl LruList for () {
    open spec fn lru_valid(&self, tail: u32) -> bool {
        true
    }

    fn evict(&mut self, tail: u32) -> (r: Option<(u8, u32)>) {
        None
    }

    fn remove(&mut self, tail: u32, entry: u8) -> (r: Option<u32>) {
        None
    }

    fn promote(&mut self, tail: u32, entry: u8) -> (r: Option<u32>) {
        None
    }
}

/// The entry after the one at index `i` of `order`, going round.
pub open spec fn succ(order: Seq<u8>, i: int) -> u8 {
    if i + 1 < order.len() {
        order[i + 1]
    } else {
        order[0]
    }
}

/// The entry before the one at index `i` of `order`, going round.
pub open spec fn pred(order: Seq<u8>, i: int) -> u8 {
    if i > 0 {
        order[i - 1]
    } else {
        order.last()
    }
}

/// `links` is the array of `(prev, next)` pairs of the circular list that
/// visits `order` from newest to oldest; the slots of entries outside the
/// list are `(0, 0)`.
pub open spec fn linked(links: Seq<(u8, u8)>, order: Seq<u8>) -> bool {
    &&& links.len() == BUCKET_LEN
    &&& order.no_duplicates()
    &&& forall|i: int| 0 <= i < order.len() ==> #[trigger] order[i] < BUCKET_LEN
    &&& forall|i: int|
        0 <= i < order.len() ==> #[trigger] links[order[i] as int] == (pred(order, i), succ(order, i))
    &&& forall|e: int| 0 <= e < BUCKET_LEN && !order.contains(e as u8) ==> #[trigger] links[e] == (0u8, 0u8)
}

/// The `tail` word that stands for `order`.
pub open spec fn tail_of(order: Seq<u8>) -> u32 {
    if order.len() == 0 {
        0
    } else {
        (order[0] + 1) as u32
    }
}

/// `order` with `entry` in front, taken out of where it was.
pub open spec fn promoted(order: Seq<u8>, entry: u8) -> Seq<u8> {
    if order.contains(entry) {
        seq![entry] + order.remove(order.index_of(entry))
    } else {
        seq![entry] + order
    }
}

/// A promoted entry is the most recently used one, and, unless it is alone,
/// it is not the one evicted next; the list still holds each entry once.
pub proof fn lemma_promoted_not_evicted_next(order: Seq<u8>, entry: u8)
    requires
        order.no_duplicates(),
    ensures
        promoted(order, entry)[0] == entry,
        promoted(order, entry).no_duplicates(),
        promoted(order, entry).len() > 1 ==> promoted(order, entry).last() != entry,
{
    let p = promoted(order, entry);
    let rest = if order.contains(entry) {
        order.remove(order.index_of(entry))
    } else {
        order
    };
    assert(p =~= seq![entry] + rest);
    if order.contains(entry) {
        let k = order.index_of(entry);
        order.remove_ensures(k);
        assert forall|i: int| 0 <= i < rest.len() implies rest[i] != entry by {
            let a = if i < k { i } else { i + 1 };
            assert(rest[i] == order[a]);
            assert(a != k);
        }
        assert forall|i: int, j: int| 0 <= i < j < rest.len() implies rest[i] != rest[j] by {
            let a = if i < k { i } else { i + 1 };
            let b = if j < k { j } else { j + 1 };
            assert(rest[i] == order[a]);
            assert(rest[j] == order[b]);
        }
    }
    assert forall|i: int, j: int| 0 <= i < j < p.len() implies p[i] != p[j] by {
        if i == 0 {
            assert(p[j] == rest[j - 1]);
        } else {
            assert(p[i] == rest[i - 1]);
            assert(p[j] == rest[j - 1]);
        }
    }
    if p.len() > 1 {
        assert(p.last() == rest[rest.len() - 1]);
    }
}

/// The least-recently-used list kept in an array of `(prev, next)` slot
/// numbers, one pair per entry slot of the bucket.
pub struct DoublyLinkedList {
    links: Vec<(u8, u8)>,
    order: Ghost<Seq<u8>>,
}

impl DoublyLinkedList {
    /// The entries in the list, from most to least recently used.
    pub closed spec fn order(&self) -> Seq<u8> {
        self.order@
    }

    /// The `(prev, next)` pair of every slot.
    pub closed spec fn links(&self) -> Seq<(u8, u8)> {
        self.links@
    }

    /// Reads the pair of slot `pos`.
    fn read(&self, pos: u32) -> (r: (u8, u8))
        requires
            self.links@.len() == BUCKET_LEN,
            pos < BUCKET_LEN,
        ensures
            r == self.links@[pos as int],
    {
        self.links[pos as usize]
    }

    /// Writes the pair of slot `pos`.
    fn write(&mut self, pos: u32, v: (u8, u8))
        requires
            old(self).links@.len() == BUCKET_LEN,
            pos < BUCKET_LEN,
        ensures
            final(self).links@ == old(self).links@.update(pos as int, v),
            final(self).order == old(self).order,
    {
        self.links.set(pos as usize, v);
    }
}

/// Whether the pair is `(a, b)`.
fn pair_is(p: (u8, u8), a: u8, b: u8) -> (r: bool)
    ensures
        r == (p == (a, b)),
{
    p.0 == a && p.1 == b
}

impl Default for DoublyLinkedList {
    fn default() -> (r: DoublyLinkedList)
        ensures
            r.order() == Seq::<u8>::empty(),
            r.lru_valid(0),
    {
        let mut links: Vec<(u8, u8)> = Vec::new();
        let mut i: usize = 0;
        while i < BUCKET_LEN
            invariant
                i <= BUCKET_LEN,
                links@.len() == i,
                forall|j: int| 0 <= j < i ==> links@[j] == (0u8, 0u8),
            decreases BUCKET_LEN - i,
        {
            links.push((0u8, 0u8));
            i += 1;
        }
        let r = DoublyLinkedList { links, order: Ghost(Seq::empty()) };
        assert(linked(r.links@, r.order@));
        r
    }
}

/// Taking the entry at index `k` out of the list: its neighbours are joined
/// and its slot is cleared.
proof fn lemma_unlink(links: Seq<(u8, u8)>, order: Seq<u8>, k: int)
    requires
        linked(links, order),
        order.len() >= 2,
        0 <= k < order.len(),
    ensures
        ({
            let e = order[k];
            let p = pred(order, k);
            let nx = succ(order, k);
            let l1 = links.update(p as int, (links[p as int].0, nx));
            let l2 = l1.update(nx as int, (p, l1[nx as int].1));
            let l3 = l2.update(e as int, (0u8, 0u8));
            linked(l3, order.remove(k))
        }),
{
    let n = order.len() as int;
    let e = order[k];
    let p = pred(order, k);
    let nx = succ(order, k);
    let l1 = links.update(p as int, (links[p as int].0, nx));
    let l2 = l1.update(nx as int, (p, l1[nx as int].1));
    let l3 = l2.update(e as int, (0u8, 0u8));
    let o = order.remove(k);
    order.remove_ensures(k);
    let kp = if k > 0 { k - 1 } else { n - 1 };
    let kn = if k + 1 < n { k + 1 } else { 0 };
    assert(order[kp] == p);
    assert(order[kn] == nx);
    assert(p != e);
    assert(nx != e);
    assert forall|i: int, j: int| 0 <= i < j < o.len() implies o[i] != o[j] by {
        let a = if i < k { i } else { i + 1 };
        let b = if j < k { j } else { j + 1 };
        assert(o[i] == order[a]);
        assert(o[j] == order[b]);
    }
    assert forall|i: int| 0 <= i < o.len() implies #[trigger] o[i] < BUCKET_LEN by {
        let a = if i < k { i } else { i + 1 };
        assert(o[i] == order[a]);
    }
    assert forall|i: int| 0 <= i < o.len() implies #[trigger] l3[o[i] as int] == (pred(o, i), succ(o, i)) by {
        let a = if i < k { i } else { i + 1 };
        assert(o[i] == order[a]);
        assert(links[order[a] as int] == (pred(order, a), succ(order, a)));
        if n == 2 {
            assert(o.len() == 1);
            assert(p == nx);
            assert(o[0] == p);
        } else {
            let ia = if a > 0 { a - 1 } else { n - 1 };
            let ib = if a + 1 < n { a + 1 } else { 0 };
            assert(order[ia] == pred(order, a));
            assert(order[ib] == succ(order, a));
            if o[i] == p {
                assert(a == kp);
                assert(p != nx) by {
                    assert(kp != kn);
                }
                assert(succ(o, i) == nx);
                assert(pred(o, i) == pred(order, a)) by {
                    assert(ia != k);
                }
            } else if o[i] == nx {
                assert(a == kn);
                assert(pred(o, i) == p);
                assert(succ(o, i) == succ(order, a)) by {
                    assert(ib != k);
                }
            } else {
                assert(a != kp && a != kn);
                assert(ia != k && ib != k);
                assert(pred(o, i) == pred(order, a));
                assert(succ(o, i) == succ(order, a));
            }
        }
    }
    assert forall|x: int| 0 <= x < BUCKET_LEN && !o.contains(x as u8) implies #[trigger] l3[x] == (0u8, 0u8) by {
        if x != e as int {
            if order.contains(x as u8) {
                let a = choose|a: int| 0 <= a < n && order[a] == x as u8;
                if a != k {
                    let i = if a < k { a } else { a - 1 };
                    assert(o[i] == x as u8);
                }
            }
            assert(!order.contains(x as u8));
            assert(x != p as int && x != nx as int) by {
                assert(order[kp] == p);
                assert(order[kn] == nx);
            }
        }
    }
}

/// Putting `entry`, not in the list, in front of a list that is not empty.
proof fn lemma_push_front(links: Seq<(u8, u8)>, order: Seq<u8>, entry: u8)
    requires
        linked(links, order),
        order.len() >= 1,
        entry < BUCKET_LEN,
        !order.contains(entry),
    ensures
        ({
            let h = order[0];
            let oldest = order.last();
            let l1 = links.update(oldest as int, (links[oldest as int].0, entry));
            let l2 = l1.update(entry as int, (oldest, l1[entry as int].1));
            let l3 = l2.update(h as int, (entry, l2[h as int].1));
            let l4 = l3.update(entry as int, (l3[entry as int].0, h));
            linked(l4, seq![entry] + order)
        }),
{
    let n = order.len() as int;
    let h = order[0];
    let oldest = order.last();
    let l1 = links.update(oldest as int, (links[oldest as int].0, entry));
    let l2 = l1.update(entry as int, (oldest, l1[entry as int].1));
    let l3 = l2.update(h as int, (entry, l2[h as int].1));
    let l4 = l3.update(entry as int, (l3[entry as int].0, h));
    let o = seq![entry] + order;
    assert(order[n - 1] == oldest);
    assert(h != entry);
    assert(oldest != entry);
    assert forall|i: int, j: int| 0 <= i < j < o.len() implies o[i] != o[j] by {
        if i == 0 {
            assert(o[j] == order[j - 1]);
        } else {
            assert(o[i] == order[i - 1]);
            assert(o[j] == order[j - 1]);
        }
    }
    assert forall|i: int| 0 <= i < o.len() implies #[trigger] o[i] < BUCKET_LEN by {
        if i > 0 {
            assert(o[i] == order[i - 1]);
        }
    }
    assert forall|i: int| 0 <= i < o.len() implies #[trigger] l4[o[i] as int] == (pred(o, i), succ(o, i)) by {
        if i == 0 {
            assert(succ(o, 0) == h);
            assert(pred(o, 0) == oldest);
        } else {
            let a = i - 1;
            assert(o[i] == order[a]);
            assert(links[order[a] as int] == (pred(order, a), succ(order, a)));
            if n == 1 {
                assert(o[i] == h);
                assert(h == oldest);
            } else if a == 0 {
                assert(pred(o, i) == entry);
                assert(succ(o, i) == succ(order, a));
                assert(o[i] != oldest) by {
                    assert(order[n - 1] == oldest);
                }
            } else if a == n - 1 {
                assert(succ(o, i) == entry);
                assert(pred(o, i) == pred(order, a));
                assert(o[i] != h) by {
                    assert(order[0] == h);
                }
            } else {
                assert(pred(o, i) == pred(order, a));
                assert(succ(o, i) == succ(order, a));
                assert(o[i] != h && o[i] != oldest) by {
                    assert(order[0] == h);
                    assert(order[n - 1] == oldest);
                }
            }
        }
    }
    assert forall|x: int| 0 <= x < BUCKET_LEN && !o.contains(x as u8) implies #[trigger] l4[x] == (0u8, 0u8) by {
        assert(x != entry as int) by {
            assert(o[0] == entry);
        }
        if order.contains(x as u8) {
            let a = choose|a: int| 0 <= a < n && order[a] == x as u8;
            assert(o[a + 1] == x as u8);
        }
        assert(x != h as int && x != oldest as int) by {
            assert(o[1] == h);
            assert(o[n] == oldest);
        }
    }
}

/// A linked entry whose pair is `(0, 0)` has slot `0` on both sides, which
/// only happens in a list of two.
proof fn lemma_zero_pair(links: Seq<(u8, u8)>, order: Seq<u8>, k: int)
    requires
        linked(links, order),
        0 <= k < order.len(),
        links[order[k] as int] == (0u8, 0u8),
    ensures
        order.len() == 1 ==> order[k] == 0,
        order.len() >= 2 ==> order.len() == 2 && order[k] != 0 && order.contains(0u8) && links[0] == (
            order[k],
            order[k],
        ),
{
    let n = order.len() as int;
    if n >= 2 {
        let kp = if k > 0 { k - 1 } else { n - 1 };
        let kn = if k + 1 < n { k + 1 } else { 0 };
        assert(order[kp] == 0);
        assert(order[kn] == 0);
        assert(kp == kn);
        assert(n == 2);
        assert(links[order[kp] as int] == (pred(order, kp), succ(order, kp)));
        assert(pred(order, kp) == order[k] && succ(order, kp) == order[k]);
    }
}

/// Whether `entry` is in the list, read from the links and the `tail` word.
proof fn lemma_membership(links: Seq<(u8, u8)>, order: Seq<u8>, entry: u8)
    requires
        linked(links, order),
        entry < BUCKET_LEN,
    ensures
        !order.contains(entry) <==> (links[entry as int] == (0u8, 0u8) && (links[0] != (entry, entry) || (
        tail_of(order) != 1 && tail_of(order) != entry + 1))),
{
    if order.contains(entry) {
        let k = choose|k: int| 0 <= k < order.len() && order[k] == entry;
        if links[entry as int] == (0u8, 0u8) {
            lemma_zero_pair(links, order, k);
            if order.len() == 2 {
                assert(order[0] == entry || order[1] == entry);
                assert(order[0] == 0 || order[1] == 0);
            }
        }
    } else {
        if links[0] == (entry, entry) {
            if order.contains(0u8) {
                let k = choose|k: int| 0 <= k < order.len() && order[k] == 0u8;
                assert(links[order[k] as int] == (pred(order, k), succ(order, k)));
                let kp = if k > 0 { k - 1 } else { order.len() - 1 };
                assert(order[kp] == entry);
            }
            assert(entry == 0);
            if order.len() > 0 {
                assert(order[0] != 0);
            }
        }
    }
}

impl LruList for DoublyLinkedList {
    open spec fn lru_valid(&self, tail: u32) -> bool {
        linked(self.links(), self.order()) && tail == tail_of(self.order())
    }

    fn evict(&mut self, tail: u32) -> (r: Option<(u8, u32)>)
        ensures
            match r {
                None => old(self).order().len() == 0 && *final(self) == *old(self),
                Some((e, t)) => {
                    &&& old(self).order().len() > 0
                    &&& e == old(self).order().last()
                    &&& final(self).order() == old(self).order().drop_last()
                    &&& t == tail_of(final(self).order())
                },
            },
    {
        let ghost o = self.order@;
        if tail == 0 {
            None
        } else {
            let ghost n = o.len() as int;
            assert(self.links@[o[0] as int] == (pred(o, 0), succ(o, 0)));
            let lru = self.read(tail - 1).0;
            assert(lru == o[n - 1]);
            let new_tail = if tail - 1 == lru as u32 {
                proof {
                    if n > 1 {
                        assert(o[0] != o[n - 1]);
                    }
                }
                self.write(lru as u32, (0, 0));
                proof {
                    assert(o.drop_last() =~= Seq::<u8>::empty());
                    self.order = Ghost(o.drop_last());
                    assert forall|x: int| 0 <= x < BUCKET_LEN && !self.order@.contains(x as u8) implies #[trigger] self.links@[x]
                        == (0u8, 0u8) by {
                        if x != lru as int {
                            assert(!o.contains(x as u8)) by {
                                if o.contains(x as u8) {
                                    let a = choose|a: int| 0 <= a < n && o[a] == x as u8;
                                    assert(a == 0);
                                }
                            }
                        }
                    }
                }
                0
            } else {
                assert(n >= 2);
                proof {
                    lemma_unlink(self.links@, o, n - 1);
                }
                assert(self.links@[lru as int] == (pred(o, n - 1), succ(o, n - 1)));
                let new_lru = self.read(lru as u32).0;
                let v = self.read(new_lru as u32);
                self.write(new_lru as u32, (v.0, (tail - 1) as u8));
                let w = self.read(tail - 1);
                self.write(tail - 1, (new_lru, w.1));
                tail
            };
            if new_tail != 0 {
                self.write(lru as u32, (0, 0));
                proof {
                    assert(o.remove(n - 1) =~= o.drop_last());
                    self.order = Ghost(o.drop_last());
                }
            }
            Some((lru, new_tail))
        }
    }

    fn remove(&mut self, tail: u32, entry: u8) -> (r: Option<u32>)
        ensures
            !old(self).order().contains(entry) ==> r is None && *final(self) == *old(self),
            old(self).order().contains(entry) ==> {
                let k = old(self).order().index_of(entry);
                &&& final(self).order() == old(self).order().remove(k)
                &&& r == if k == 0 {
                    Some(tail_of(final(self).order()))
                } else {
                    None::<u32>
                }
            },
    {
        let ghost o = self.order@;
        proof {
            lemma_membership(self.links@, o, entry);
        }
        if tail == 0 || (pair_is(self.read(entry as u32), 0, 0) && (!pair_is(self.read(0), entry, entry)
            || (tail != 1 && tail != entry as u32 + 1))) {
            return None;
        }
        let ghost k = o.index_of(entry);
        let ghost n = o.len() as int;
        assert(o[k] == entry);
        assert(self.links@[entry as int] == (pred(o, k), succ(o, k)));
        if self.read(entry as u32).0 == entry {
            proof {
                if n >= 2 {
                    let kp = if k > 0 { k - 1 } else { n - 1 };
                    assert(o[kp] == entry);
                }
                assert(n == 1);
            }
            self.write(entry as u32, (0, 0));
            proof {
                assert(o.remove(k) =~= Seq::<u8>::empty());
                self.order = Ghost(o.remove(k));
                assert forall|x: int| 0 <= x < BUCKET_LEN && !self.order@.contains(x as u8) implies #[trigger] self.links@[x]
                    == (0u8, 0u8) by {
                    if x != entry as int {
                        assert(!o.contains(x as u8)) by {
                            if o.contains(x as u8) {
                                let a = choose|a: int| 0 <= a < n && o[a] == x as u8;
                                assert(a == 0);
                            }
                        }
                    }
                }
            }
            return Some(0);
        }
        proof {
            if n < 2 {
                assert(pred(o, k) == o[0]);
                assert(k == 0);
            }
            lemma_unlink(self.links@, o, k);
        }
        let (prev, next) = self.read(entry as u32);
        let v = self.read(prev as u32);
        self.write(prev as u32, (v.0, next));
        let w = self.read(next as u32);
        self.write(next as u32, (prev, w.1));
        let new_tail = if tail == entry as u32 + 1 {
            proof {
                assert(k == 0) by {
                    assert(o[0] == entry);
                }
            }
            Some(next as u32 + 1)
        } else {
            proof {
                assert(k != 0);
            }
            None
        };
        self.write(entry as u32, (0, 0));
        proof {
            self.order = Ghost(o.remove(k));
            if k == 0 {
                assert(self.order@[0] == o[1]);
            } else {
                assert(self.order@[0] == o[0]);
            }
        }
        new_tail
    }

    fn promote(&mut self, tail: u32, entry: u8) -> (r: Option<u32>)
        ensures
            old(self).order().len() > 0 && old(self).order()[0] == entry ==> r is None && *final(self)
                == *old(self),
            !(old(self).order().len() > 0 && old(self).order()[0] == entry) ==> {
                &&& final(self).order() == promoted(old(self).order(), entry)
                &&& r == Some(tail_of(final(self).order()))
            },
    {
        let ghost o = self.order@;
        if tail == entry as u32 + 1 {
            return None;
        } else if tail == 0 {
            self.write(entry as u32, (entry, entry));
            proof {
                let no = seq![entry];
                assert(promoted(o, entry) =~= no);
                self.order = Ghost(no);
                assert(self.links@[no[0] as int] == (pred(no, 0), succ(no, 0)));
                assert forall|x: int| 0 <= x < BUCKET_LEN && !no.contains(x as u8) implies #[trigger] self.links@[x]
                    == (0u8, 0u8) by {
                    assert(x != entry as int) by {
                        assert(no[0] == entry);
                    }
                    assert(!o.contains(x as u8));
                }
            }
            return Some(entry as u32 + 1);
        }
        proof {
            lemma_membership(self.links@, o, entry);
        }
        let ghost mut rest: Seq<u8> = o;
        if !pair_is(self.read(entry as u32), 0, 0) || (pair_is(self.read(0), entry, entry) && tail == 1) {
            let ghost k = o.index_of(entry);
            let ghost n = o.len() as int;
            proof {
                assert(o[k] == entry);
                assert(k != 0);
                lemma_unlink(self.links@, o, k);
            }
            let (prev, next) = self.read(entry as u32);
            let v = self.read(prev as u32);
            self.write(prev as u32, (v.0, next));
            let w = self.read(next as u32);
            self.write(next as u32, (prev, w.1));
            self.write(entry as u32, (0, 0));
            proof {
                rest = o.remove(k);
                o.remove_ensures(k);
                assert(rest[0] == o[0]);
            }
        }
        let ghost l = self.links@;
        assert(linked(l, rest));
        assert(rest.len() >= 1);
        assert(!rest.contains(entry));
        proof {
            lemma_push_front(l, rest, entry);
        }
        assert(l[rest[0] as int] == (pred(rest, 0), succ(rest, 0)));
        let oldest = self.read(tail - 1).0;
        let v = self.read(oldest as u32);
        self.write(oldest as u32, (v.0, entry));
        let w = self.read(entry as u32);
        self.write(entry as u32, (oldest, w.1));
        let x = self.read(tail - 1);
        self.write(tail - 1, (entry, x.1));
        let y = self.read(entry as u32);
        self.write(entry as u32, (y.0, (tail - 1) as u8));
        proof {
            self.order = Ghost(seq![entry] + rest);
            assert(promoted(o, entry) =~= seq![entry] + rest);
        }
        Some(entry as u32 + 1)
    }
}

} // verus!
