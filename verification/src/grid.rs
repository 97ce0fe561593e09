//! The sparse live-cell store and the generation rule.
//!
//! A grid state is modelled as the set of live cells, a `Set<(int, int)>`
//! over unbounded coordinates. The store keeps the live set as a hash set
//! of paired coordinate keys; the generation rule first tallies, for every
//! live cell and every dead neighbour of a live cell, how many of its eight
//! neighbours are live, all against the unmodified current generation, and
//! then applies the survival/birth rule to every tallied cell.

use vstd::prelude::*;

use std::collections::HashMap;
use std::collections::HashSet;

use crate::cell::{
    cell_key, coord_in_range, key_cell, key_of, lemma_key_of, lemma_unpack_key, unpack_spec, Point,
};

verus! {

broadcast use lemma_key_of, lemma_unpack_key, vstd::seq_lib::group_seq_properties;

/// Some key of `ks` unpacks to the cell `c`.
pub open spec fn has_key(ks: Set<u128>, c: (int, int)) -> bool {
    exists|k: u128| ks.contains(k) && unpack_spec(k as int) == c
}

/// 1 if `b` holds, else 0; used to sum neighbour indicators.
pub open spec fn ind(b: bool) -> int {
    if b {
        1
    } else {
        0
    }
}

/// How many of the eight cells surrounding `c` are live in `s`.
pub open spec fn neighbor_count(s: Set<(int, int)>, c: (int, int)) -> int {
    ind(s.contains((c.0 - 1, c.1 - 1))) + ind(s.contains((c.0, c.1 - 1))) + ind(
        s.contains((c.0 + 1, c.1 - 1)),
    ) + ind(s.contains((c.0 - 1, c.1))) + ind(s.contains((c.0 + 1, c.1))) + ind(
        s.contains((c.0 - 1, c.1 + 1)),
    ) + ind(s.contains((c.0, c.1 + 1))) + ind(s.contains((c.0 + 1, c.1 + 1)))
}

/// `a` is one of the eight cells surrounding `b`.
pub open spec fn is_neighbor(a: (int, int), b: (int, int)) -> bool {
    &&& a != b
    &&& -1 <= a.0 - b.0 <= 1
    &&& -1 <= a.1 - b.1 <= 1
}

/// The standard two-state, eight-neighbour rule: a live cell survives with
/// two or three live neighbours; a dead cell is born with exactly three.
pub open spec fn next_alive(s: Set<(int, int)>, c: (int, int)) -> bool {
    if s.contains(c) {
        neighbor_count(s, c) == 2 || neighbor_count(s, c) == 3
    } else {
        neighbor_count(s, c) == 3
    }
}

/// The next generation of the live set `s`.
pub open spec fn step(s: Set<(int, int)>) -> Set<(int, int)> {
    Set::new(|c: (int, int)| next_alive(s, c))
}

/// Both coordinates of `c` are strictly inside the `i64` range, so that
/// every neighbour of `c` is still representable.
pub open spec fn strictly_inside(c: (int, int)) -> bool {
    &&& i64::MIN < c.0 < i64::MAX
    &&& i64::MIN < c.1 < i64::MAX
}

/// The set of cells that a set of packed keys stands for.
pub open spec fn cells_of(ks: Set<u128>) -> Set<(int, int)> {
    Set::new(|c: (int, int)| has_key(ks, c))
}

/// How many cells of the key sequence `vs` are neighbours of `n`: the
/// number of reports `n` receives while the live cells `vs` are swept.
pub open spec fn reported(vs: Seq<u128>, n: (int, int)) -> int
    decreases vs.len(),
{
    if vs.len() == 0 {
        0
    } else {
        reported(vs.drop_last(), n) + ind(is_neighbor(unpack_spec(vs.last() as int), n))
    }
}

/// One more swept cell adds its own adjacency indicator to every tally.
proof fn lemma_reported_push(vs: Seq<u128>, k: u128, n: (int, int))
    ensures
        reported(vs.push(k), n) == reported(vs, n) + ind(
            is_neighbor(unpack_spec(k as int), n),
        ),
{
    assert(vs.push(k).drop_last() =~= vs);
    assert(vs.push(k).last() == k);
}

/// Appending a fresh element keeps a sequence duplicate-free.
proof fn lemma_push_no_dup<A>(s: Seq<A>, x: A)
    requires
        s.no_duplicates(),
        !s.contains(x),
    ensures
        s.push(x).no_duplicates(),
{
    let t = s.push(x);
    assert forall|a: int, b: int| 0 <= a < b < t.len() implies t[a] != t[b] by {
        if b == s.len() {
            assert(t[b] == x);
            if t[a] == x {
                assert(s[a] == x);
                assert(s.contains(s[a]));
            }
        }
    }
}

/// A cell has between zero and eight live neighbours.
proof fn lemma_count_bounds(s: Set<(int, int)>, c: (int, int))
    ensures
        0 <= neighbor_count(s, c) <= 8,
{
}

/// A newly live cell raises the count of exactly its neighbours, by one.
proof fn lemma_count_insert(s: Set<(int, int)>, c: (int, int), n: (int, int))
    requires
        !s.contains(c),
    ensures
        neighbor_count(s.insert(c), n) == neighbor_count(s, n) + ind(is_neighbor(c, n)),
{
}

/// Sweeping a duplicate-free key sequence reports to each cell exactly its
/// live-neighbour count in the swept set; that count never exceeds eight.
proof fn lemma_reported_full(vs: Seq<u128>, n: (int, int))
    requires
        vs.no_duplicates(),
    ensures
        reported(vs, n) == neighbor_count(cells_of(vs.to_set()), n),
        0 <= reported(vs, n) <= 8,
    decreases vs.len(),
{
    if vs.len() == 0 {
        assert(!has_key(vs.to_set(), (n.0 - 1, n.1 - 1)));
        assert(neighbor_count(cells_of(vs.to_set()), n) == 0);
    } else {
        let u = vs.drop_last();
        let k = vs.last();
        let c = unpack_spec(k as int);
        assert(u.no_duplicates());
        lemma_reported_full(u, n);
        assert(u.push(k) =~= vs);
        assert(vs.to_set() =~= u.to_set().insert(k));
        assert(!cells_of(u.to_set()).contains(c)) by {
            if has_key(u.to_set(), c) {
                let k2 = choose|k2: u128| u.to_set().contains(k2) && unpack_spec(k2 as int) == c;
                assert(key_of(unpack_spec(k2 as int)) == k2);
                assert(k2 == k);
                assert(u.contains(k));
                let a = choose|a: int| 0 <= a < u.len() && u[a] == k;
                assert(vs[a] == vs[vs.len() - 1]);
            }
        }
        assert(cells_of(vs.to_set()) =~= cells_of(u.to_set()).insert(c)) by {
            assert forall|c2: (int, int)|
                has_key(u.to_set().insert(k), c2) <==> (has_key(u.to_set(), c2) || c2 == c) by {
                if has_key(u.to_set().insert(k), c2) {
                    let k2 = choose|k2: u128|
                        u.to_set().insert(k).contains(k2) && unpack_spec(k2 as int) == c2;
                    if k2 != k {
                        assert(u.to_set().contains(k2));
                    }
                }
                if c2 == c {
                    assert(u.to_set().insert(k).contains(k));
                }
                if has_key(u.to_set(), c2) {
                    let k2 = choose|k2: u128| u.to_set().contains(k2) && unpack_spec(k2 as int) == c2;
                    assert(u.to_set().insert(k).contains(k2));
                }
            }
        }
        lemma_count_insert(cells_of(u.to_set()), c, n);
        lemma_reported_push(u, k, n);
    }
}

/// Sweep one live cell `k`: record its own live-neighbour count under `k`,
/// and report one sighting to each of its dead neighbours' tallies.
#[verifier::rlimit(100)]
fn tally_cell(pts: &HashSet<u128>, tally: &mut HashMap<u128, u8>, k: u128)
    requires
        pts@.contains(k),
        strictly_inside(unpack_spec(k as int)),
        !old(tally)@.contains_key(k),
        forall|k2: u128| #[trigger] old(tally)@.contains_key(k2) ==> old(tally)@[k2] <= 8,
    ensures
        final(tally)@.contains_key(k),
        final(tally)@[k] == neighbor_count(cells_of(pts@), unpack_spec(k as int)),
        forall|k2: u128|
            k2 != k && is_neighbor(unpack_spec(k2 as int), unpack_spec(k as int)) && !pts@.contains(k2) ==> #[trigger] final(tally)@.contains_key(k2) && final(tally)@[k2] as int == (
            if old(tally)@.contains_key(k2) {
                old(tally)@[k2] + 1
            } else {
                1int
            }),
        forall|k2: u128|
            !(k2 == k || (is_neighbor(unpack_spec(k2 as int), unpack_spec(k as int))
                && !pts@.contains(k2))) ==> #[trigger] final(tally)@.contains_key(k2) == old(tally)@.contains_key(k2) && (old(tally)@.contains_key(k2) ==> final(tally)@[k2] == old(tally)@[k2]),
{
    let ghost cc = unpack_spec(k as int);
    let ghost cset = cells_of(pts@);
    let c = key_cell(k);
    tally.insert(k, 0);
    let n1 = Point::new(c.x - 1, c.y - 1);
    let n2 = Point::new(c.x, c.y - 1);
    let n3 = Point::new(c.x + 1, c.y - 1);
    let n4 = Point::new(c.x - 1, c.y);
    let n5 = Point::new(c.x + 1, c.y);
    let n6 = Point::new(c.x - 1, c.y + 1);
    let n7 = Point::new(c.x, c.y + 1);
    let n8 = Point::new(c.x + 1, c.y + 1);
    proof {
        lemma_has_key(pts@, n1@);
        lemma_has_key(pts@, n2@);
        lemma_has_key(pts@, n3@);
        lemma_has_key(pts@, n4@);
        lemma_has_key(pts@, n5@);
        lemma_has_key(pts@, n6@);
        lemma_has_key(pts@, n7@);
        lemma_has_key(pts@, n8@);
    }
    tally_one(pts, tally, k, n1);
    tally_one(pts, tally, k, n2);
    tally_one(pts, tally, k, n3);
    tally_one(pts, tally, k, n4);
    tally_one(pts, tally, k, n5);
    tally_one(pts, tally, k, n6);
    tally_one(pts, tally, k, n7);
    tally_one(pts, tally, k, n8);
    proof {
        assert(n1@ == (cc.0 - 1, cc.1 - 1) && n2@ == (cc.0, cc.1 - 1) && n3@ == (
            cc.0 + 1,
            cc.1 - 1,
        ) && n4@ == (cc.0 - 1, cc.1) && n5@ == (cc.0 + 1, cc.1) && n6@ == (cc.0 - 1, cc.1 + 1)
            && n7@ == (cc.0, cc.1 + 1) && n8@ == (cc.0 + 1, cc.1 + 1));
        assert(tally@.contains_key(k));
        assert(tally@[k] == neighbor_count(cset, cc));
        assert forall|k2: u128|
            k2 != k && is_neighbor(unpack_spec(k2 as int), cc) && !pts@.contains(k2) implies {
            &&& tally@.contains_key(k2)
            &&& tally@[k2] as int == (if old(tally)@.contains_key(k2) {
                old(tally)@[k2] + 1
            } else {
                1int
            })
        } by {
            let u2 = unpack_spec(k2 as int);
            assert(u2 == (u2.0, u2.1));
            assert(k2 == key_of(u2));
            assert(u2 == n1@ || u2 == n2@ || u2 == n3@ || u2 == n4@ || u2 == n5@ || u2 == n6@ || u2
                == n7@ || u2 == n8@);
        }
        assert forall|k2: u128|
            !(k2 == k || (is_neighbor(unpack_spec(k2 as int), cc) && !pts@.contains(k2))) implies {
            &&& tally@.contains_key(k2) == old(tally)@.contains_key(k2)
            &&& (old(tally)@.contains_key(k2) ==> tally@[k2] == old(tally)@[k2])
        } by {
            let u2 = unpack_spec(k2 as int);
            assert(u2 == (u2.0, u2.1));
            assert(k2 == key_of(u2));
        }
    }
}

/// Record, for the live cell keyed `k` and one neighbour position `n`: if
/// `n` is live it raises `k`'s own tally, otherwise `k` raises `n`'s.
fn tally_one(pts: &HashSet<u128>, tally: &mut HashMap<u128, u8>, k: u128, n: Point<i64>)
    requires
        pts@.contains(k),
        n@ != unpack_spec(k as int),
        old(tally)@.contains_key(k),
        old(tally)@[k] < 100,
        forall|k2: u128| #[trigger] old(tally)@.contains_key(k2) ==> old(tally)@[k2] < 250,
    ensures
        pts@.contains(key_of(n@)) ==> final(tally)@ == old(tally)@.insert(
            k,
            (old(tally)@[k] + 1) as u8,
        ),
        !pts@.contains(key_of(n@)) ==> final(tally)@ == old(tally)@.insert(
            key_of(n@),
            (if old(tally)@.contains_key(key_of(n@)) {
                old(tally)@[key_of(n@)] + 1
            } else {
                1int
            }) as u8,
        ),
{
    let nk = cell_key(n);
    if pts.contains(&nk) {
        let v = *tally.get(&k).unwrap();
        tally.insert(k, v + 1);
    } else {
        let v: u8 = match tally.get(&nk) {
            Some(r) => *r + 1,
            None => 1,
        };
        tally.insert(nk, v);
    }
}

/// The set of currently live cells, keyed by the coordinate pairing.
pub struct GameMatrix {
    pts: HashSet<u128>,
}

impl View for GameMatrix {
    type V = Set<(int, int)>;

    /// The live-cell set: every cell some stored key unpacks to.
    closed spec fn view(&self) -> Set<(int, int)> {
        cells_of(self.pts@)
    }
}

/// A cell is in the image of a key set iff its own key is in the set; a
/// cell with unrepresentable coordinates never is.
proof fn lemma_has_key(ks: Set<u128>, c: (int, int))
    ensures
        coord_in_range(c) ==> (has_key(ks, c) <==> ks.contains(key_of(c))),
        !coord_in_range(c) ==> !has_key(ks, c),
{
    if coord_in_range(c) && ks.contains(key_of(c)) {
        assert(unpack_spec(key_of(c) as int) == c);
    }
}

impl GameMatrix {
    /// A store with no live cells.
    pub fn new() -> (g: GameMatrix)
        ensures
            g@ == Set::<(int, int)>::empty(),
    {
        let g = GameMatrix { pts: HashSet::new() };
        proof {
            assert(g@ =~= Set::<(int, int)>::empty());
        }
        g
    }

    /// Whether `p` is currently live. Total: no precondition, no effect.
    pub fn contains(&self, p: Point<i64>) -> (r: bool)
        ensures
            r == self@.contains(p@),
    {
        let k = cell_key(p);
        let r = self.pts.contains(&k);
        proof {
            lemma_has_key(self.pts@, p@);
        }
        r
    }

    /// Flip the state of `p`: remove it if live, insert it if dead.
    pub fn toggle(&mut self, p: Point<i64>)
        ensures
            final(self)@ == if old(self)@.contains(p@) {
                old(self)@.remove(p@)
            } else {
                old(self)@.insert(p@)
            },
    {
        let k = cell_key(p);
        proof {
            lemma_has_key(old(self).pts@, p@);
        }
        if self.pts.contains(&k) {
            self.pts.remove(&k);
            proof {
                assert forall|c: (int, int)| #[trigger]
                    self@.contains(c) <==> old(self)@.remove(p@).contains(c) by {
                    lemma_has_key(old(self).pts@, c);
                    lemma_has_key(self.pts@, c);
                }
                assert(self@ =~= old(self)@.remove(p@));
            }
        } else {
            self.pts.insert(k);
            proof {
                assert forall|c: (int, int)| #[trigger]
                    self@.contains(c) <==> old(self)@.insert(p@).contains(c) by {
                    lemma_has_key(old(self).pts@, c);
                    lemma_has_key(self.pts@, c);
                }
                assert(self@ =~= old(self)@.insert(p@));
            }
        }
    }

    /// An independent copy of the current live set: later changes to either
    /// store leave the other untouched.
    pub fn snapshot(&self) -> (g: GameMatrix)
        ensures
            g@ == self@,
    {
        let mut copy: HashSet<u128> = HashSet::new();
        let ghost mut done: Seq<u128> = Seq::empty();
        for kref in it: self.pts.iter()
            invariant
                done == it.seq().unref().take(it.index()),
                it.seq().unref().to_set() == self.pts@,
                forall|k: u128| #[trigger] copy@.contains(k) <==> done.contains(k),
                forall|k: u128| #[trigger] done.contains(k) ==> self.pts@.contains(k),
                forall|k: u128| #[trigger]
                    self.pts@.contains(k) ==> done.contains(k) || it.seq().unref().skip(
                        it.index(),
                    ).contains(k),
        {
            copy.insert(*kref);
            proof {
                let s = it.seq().unref();
                let i = it.index();
                assert(s.take(i + 1) =~= done.push(s[i]));
                assert(s.contains(s[i]));
                assert(s.to_set().contains(s[i]));
                assert forall|k: u128|
                    self.pts@.contains(k) && !done.push(s[i]).contains(k) implies s.skip(
                    i + 1,
                ).contains(k) by {
                    assert(!done.contains(k));
                    assert(s.skip(i).contains(k));
                    let j = choose|j: int| 0 <= j < s.skip(i).len() && s.skip(i)[j] == k;
                    assert(s.skip(i)[j] == s[i + j]);
                    assert(j != 0);
                    assert(s.skip(i + 1)[j - 1] == s[i + j]);
                    assert(s.skip(i + 1).contains(k));
                }
                done = done.push(*kref);
            }
        }
        let g = GameMatrix { pts: copy };
        proof {
            assert forall|k: u128| #[trigger] copy@.contains(k) <==> self.pts@.contains(k) by {}
            assert(copy@ =~= self.pts@);
            assert(g@ =~= self@);
        }
        g
    }

    /// Substitute the entire live set with the one held by `g`.
    pub fn replace(&mut self, g: GameMatrix)
        ensures
            final(self)@ == g@,
    {
        self.pts = g.pts;
    }

    /// Empty the live set.
    pub fn clear(&mut self)
        ensures
            final(self)@ == Set::<(int, int)>::empty(),
    {
        self.pts.clear();
        proof {
            assert(self@ =~= Set::<(int, int)>::empty());
        }
    }

    /// The live cells, each exactly once, in no fixed order; for rendering
    /// and inspection.
    pub fn cells(&self) -> (v: Vec<Point<i64>>)
        ensures
            forall|i: int| 0 <= i < v@.len() ==> self@.contains(#[trigger] v@[i]@),
            forall|c: (int, int)| #[trigger]
                self@.contains(c) ==> exists|i: int| 0 <= i < v@.len() && v@[i]@ == c,
            forall|i: int, j: int| 0 <= i < j < v@.len() ==> v@[i]@ != v@[j]@,
    {
        let mut v: Vec<Point<i64>> = Vec::new();
        let ghost mut done: Seq<u128> = Seq::empty();
        for kref in it: self.pts.iter()
            invariant
                done == it.seq().unref().take(it.index()),
                it.seq().unref().to_set() == self.pts@,
                it.seq().unref().no_duplicates(),
                v@.len() == done.len(),
                forall|i: int|
                    0 <= i < v@.len() ==> (#[trigger] v@[i])@ == unpack_spec(done[i] as int),
                forall|k: u128| #[trigger] done.contains(k) ==> self.pts@.contains(k),
                forall|k: u128| #[trigger]
                    self.pts@.contains(k) ==> done.contains(k) || it.seq().unref().skip(
                        it.index(),
                    ).contains(k),
        {
            let p = key_cell(*kref);
            assert(*kref == it.seq().unref()[it.index()]);
            v.push(p);
            proof {
                let s = it.seq().unref();
                let i = it.index();
                assert(s.take(i + 1) =~= done.push(s[i]));
                assert(s.contains(s[i]));
                assert(s.to_set().contains(s[i]));
                assert forall|k: u128|
                    self.pts@.contains(k) && !done.push(s[i]).contains(k) implies s.skip(
                    i + 1,
                ).contains(k) by {
                    assert(!done.contains(k));
                    assert(s.skip(i).contains(k));
                    let j = choose|j: int| 0 <= j < s.skip(i).len() && s.skip(i)[j] == k;
                    assert(s.skip(i)[j] == s[i + j]);
                    assert(j != 0);
                    assert(s.skip(i + 1)[j - 1] == s[i + j]);
                    assert(s.skip(i + 1).contains(k));
                }
                done = done.push(*kref);
            }
        }
        proof {
            assert forall|i: int| 0 <= i < v@.len() implies self@.contains(#[trigger] v@[i]@) by {
                assert(done.contains(done[i]));
                assert(self.pts@.contains(done[i]));
                assert(unpack_spec(done[i] as int) == v@[i]@);
            }
            assert forall|c: (int, int)| #[trigger] self@.contains(c) implies exists|i: int|
                0 <= i < v@.len() && v@[i]@ == c by {
                let k = choose|k: u128| self.pts@.contains(k) && unpack_spec(k as int) == c;
                assert(done.contains(k));
                let i = choose|i: int| 0 <= i < done.len() && done[i] == k;
                assert(v@[i]@ == c);
            }
            assert forall|i: int, j: int| 0 <= i < j < v@.len() implies v@[i]@ != v@[j]@ by {
                assert(done[i] != done[j]);
            }
        }
        v
    }

    /// Advance the live set by one generation of the standard rule.
    ///
    /// The neighbour tallies are gathered in one full sweep of the current
    /// generation before any cell changes state, so the result is a pure
    /// function of the current live set. Live cells must sit strictly
    /// inside the `i64` coordinate range so that every neighbour
    /// coordinate is representable.
    pub fn update(&mut self)
        requires
            forall|c: (int, int)| old(self)@.contains(c) ==> strictly_inside(c),
        ensures
            final(self)@ == step(old(self)@),
            forall|c: (int, int)| #[trigger]
                final(self)@.contains(c) <==> next_alive(old(self)@, c),
    {
        let ghost p0 = self.pts@;
        let ghost live = self@;
        let mut tally: HashMap<u128, u8> = HashMap::new();
        let ghost mut done: Seq<u128> = Seq::empty();
        for kref in it: self.pts.iter()
            invariant
                self.pts@ == p0,
                live == cells_of(p0),
                forall|c: (int, int)| #[trigger] live.contains(c) ==> strictly_inside(c),
                done == it.seq().unref().take(it.index()),
                it.seq().unref().to_set() == p0,
                it.seq().unref().no_duplicates(),
                done.no_duplicates(),
                forall|k: u128| #[trigger] done.contains(k) ==> p0.contains(k),
                forall|k: u128| #[trigger]
                    p0.contains(k) ==> done.contains(k) || it.seq().unref().skip(
                        it.index(),
                    ).contains(k),
                forall|k: u128| #[trigger]
                    tally@.contains_key(k) <==> (done.contains(k) || (!p0.contains(k) && reported(
                        done,
                        unpack_spec(k as int),
                    ) > 0)),
                forall|k: u128|
                    tally@.contains_key(k) && p0.contains(k) ==> #[trigger] tally@[k]
                        == neighbor_count(live, unpack_spec(k as int)),
                forall|k: u128|
                    tally@.contains_key(k) && !p0.contains(k) ==> #[trigger] tally@[k] == reported(
                        done,
                        unpack_spec(k as int),
                    ),
                forall|k: u128| #[trigger] tally@.contains_key(k) ==> tally@[k] <= 8,
        {
            let k = *kref;
            proof {
                let s = it.seq().unref();
                let i = it.index();
                assert(s.contains(s[i]));
                assert(s.to_set().contains(k));
                assert(!done.contains(k)) by {
                    if done.contains(k) {
                        let a = choose|a: int| 0 <= a < done.len() && done[a] == k;
                        assert(done[a] == s[a]);
                        assert(s[a] == s[i]);
                    }
                }
                assert(has_key(p0, unpack_spec(k as int))) by {
                    assert(p0.contains(k));
                }
                assert(live.contains(unpack_spec(k as int)));
            }
            let ghost pre = tally@;
            tally_cell(&self.pts, &mut tally, k);
            proof {
                let s = it.seq().unref();
                let i = it.index();
                let cc = unpack_spec(k as int);
                let done2 = done.push(k);
                assert(s.take(i + 1) =~= done2);
                lemma_push_no_dup(done, k);
                assert forall|k2: u128| #[trigger]
                    tally@.contains_key(k2) <==> (done2.contains(k2) || (!p0.contains(k2)
                        && reported(done2, unpack_spec(k2 as int)) > 0)) by {
                    let u2 = unpack_spec(k2 as int);
                    lemma_reported_push(done, k, u2);
                    lemma_reported_full(done, u2);
                }
                assert forall|k2: u128|
                    tally@.contains_key(k2) && p0.contains(k2) implies tally@[k2]
                    == neighbor_count(live, unpack_spec(k2 as int)) by {
                    if k2 == k {
                        assert(tally@[k] == neighbor_count(cells_of(self.pts@), cc));
                    } else {
                        assert(pre.contains_key(k2) ==> tally@[k2] == pre[k2]);
                    }
                }
                assert forall|k2: u128|
                    tally@.contains_key(k2) && !p0.contains(k2) implies tally@[k2] == reported(
                    done2,
                    unpack_spec(k2 as int),
                ) by {
                    let u2 = unpack_spec(k2 as int);
                    lemma_reported_push(done, k, u2);
                    if is_neighbor(u2, cc) {
                        lemma_reported_full(done, u2);
                        assert(k2 != k);
                    }
                }
                assert forall|k2: u128| #[trigger] tally@.contains_key(k2) implies tally@[k2]
                    <= 8 by {
                    let u2 = unpack_spec(k2 as int);
                    if k2 == k {
                        lemma_count_bounds(live, cc);
                    } else if !p0.contains(k2) {
                        lemma_reported_full(done2, u2);
                    }
                }
                assert forall|k2: u128|
                    p0.contains(k2) && !done2.contains(k2) implies s.skip(i + 1).contains(k2) by {
                    assert(!done.contains(k2));
                    assert(s.skip(i).contains(k2));
                    let j = choose|j: int| 0 <= j < s.skip(i).len() && s.skip(i)[j] == k2;
                    assert(s.skip(i)[j] == s[i + j]);
                    assert(j != 0);
                    assert(s.skip(i + 1)[j - 1] == s[i + j]);
                    assert(s.skip(i + 1).contains(k2));
                }
                done = done2;
            }
        }
        proof {
            assert(self.pts@ == p0);
            assert(done.to_set() =~= p0);
        }
        let ghost t = tally@;
        proof {
            assert forall|k: u128| #[trigger]
                t.contains_key(k) <==> (p0.contains(k) || neighbor_count(
                    live,
                    unpack_spec(k as int),
                ) > 0) by {
                let u2 = unpack_spec(k as int);
                lemma_reported_full(done, u2);
                assert(cells_of(done.to_set()) == cells_of(p0));
                if p0.contains(k) {
                    assert(done.contains(k));
                    assert(done.to_set().contains(k));
                }
            }
            assert forall|k: u128| #[trigger] t.contains_key(k) implies t[k] as int
                == neighbor_count(live, unpack_spec(k as int)) by {
                let u2 = unpack_spec(k as int);
                if !p0.contains(k) {
                    lemma_reported_full(done, u2);
                    assert(cells_of(done.to_set()) == cells_of(p0));
                }
            }
        }
        let ghost mut applied: Seq<u128> = Seq::empty();
        for kref in it2: tally.keys()
            invariant
                tally@ == t,
                live == cells_of(p0),
                forall|c: (int, int)| #[trigger] live.contains(c) ==> strictly_inside(c),
                forall|k: u128| #[trigger]
                    t.contains_key(k) <==> (p0.contains(k) || neighbor_count(
                        live,
                        unpack_spec(k as int),
                    ) > 0),
                forall|k: u128| #[trigger]
                    t.contains_key(k) ==> t[k] as int == neighbor_count(
                        live,
                        unpack_spec(k as int),
                    ),
                applied == it2.seq().unref().take(it2.index()),
                it2.seq().unref().to_set() == t.dom(),
                it2.seq().unref().no_duplicates(),
                forall|k: u128| #[trigger] applied.contains(k) ==> t.contains_key(k),
                forall|k: u128| #[trigger]
                    t.contains_key(k) ==> applied.contains(k) || it2.seq().unref().skip(
                        it2.index(),
                    ).contains(k),
                forall|k: u128| #[trigger]
                    applied.contains(k) ==> (self.pts@.contains(k) <==> next_alive(
                        live,
                        unpack_spec(k as int),
                    )),
                forall|k: u128|
                    !applied.contains(k) ==> (#[trigger] self.pts@.contains(k) <==> p0.contains(
                        k,
                    )),
        {
            let k = *kref;
            proof {
                let s2 = it2.seq().unref();
                let i2 = it2.index();
                assert(s2.contains(s2[i2]));
                assert(s2.to_set().contains(k));
                assert(t.dom().contains(k));
                assert(t.contains_key(k));
                assert(!applied.contains(k)) by {
                    if applied.contains(k) {
                        let a = choose|a: int| 0 <= a < applied.len() && applied[a] == k;
                        assert(applied[a] == s2[a]);
                        assert(s2[a] == s2[i2]);
                    }
                }
                let u = unpack_spec(k as int);
                lemma_has_key(p0, u);
                assert(key_of(u) == k);
                assert(live.contains(u) <==> p0.contains(k));
            }
            let cnt = *tally.get(kref).unwrap();
            let is_live = self.pts.contains(&k);
            if is_live {
                if cnt < 2 || cnt > 3 {
                    self.pts.remove(&k);
                }
            } else {
                if cnt == 3 {
                    self.pts.insert(k);
                }
            }
            proof {
                let s2 = it2.seq().unref();
                let i2 = it2.index();
                let u = unpack_spec(k as int);
                let applied2 = applied.push(k);
                assert(s2.take(i2 + 1) =~= applied2);
                assert(cnt as int == neighbor_count(live, u));
                assert(self.pts@.contains(k) <==> next_alive(live, u));
                assert forall|k2: u128|
                    p0.contains(k2) && !applied2.contains(k2) implies s2.skip(i2 + 1).contains(
                    k2,
                ) by {
                    assert(t.contains_key(k2));
                    assert(!applied.contains(k2));
                    assert(s2.skip(i2).contains(k2));
                    let j = choose|j: int| 0 <= j < s2.skip(i2).len() && s2.skip(i2)[j] == k2;
                    assert(s2.skip(i2)[j] == s2[i2 + j]);
                    assert(j != 0);
                    assert(s2.skip(i2 + 1)[j - 1] == s2[i2 + j]);
                    assert(s2.skip(i2 + 1).contains(k2));
                }
                assert forall|k2: u128|
                    t.contains_key(k2) && !applied2.contains(k2) implies s2.skip(i2 + 1).contains(
                    k2,
                ) by {
                    assert(!applied.contains(k2));
                    assert(s2.skip(i2).contains(k2));
                    let j = choose|j: int| 0 <= j < s2.skip(i2).len() && s2.skip(i2)[j] == k2;
                    assert(s2.skip(i2)[j] == s2[i2 + j]);
                    assert(j != 0);
                    assert(s2.skip(i2 + 1)[j - 1] == s2[i2 + j]);
                    assert(s2.skip(i2 + 1).contains(k2));
                }
                applied = applied2;
            }
        }
        proof {
            assert forall|k: u128| #[trigger]
                self.pts@.contains(k) <==> next_alive(live, unpack_spec(k as int)) by {
                let u = unpack_spec(k as int);
                lemma_has_key(p0, u);
                assert(key_of(u) == k);
                if t.contains_key(k) {
                    assert(applied.contains(k));
                } else {
                    lemma_count_bounds(live, u);
                    assert(neighbor_count(live, u) == 0);
                    assert(!p0.contains(k));
                    assert(!live.contains(u));
                    assert(!applied.contains(k));
                }
            }
            assert forall|c: (int, int)| #[trigger]
                self@.contains(c) <==> next_alive(live, c) by {
                lemma_has_key(self.pts@, c);
                if coord_in_range(c) {
                    assert(self.pts@.contains(key_of(c)) <==> next_alive(
                        live,
                        unpack_spec(key_of(c) as int),
                    ));
                } else {
                    if live.contains((c.0 - 1, c.1 - 1)) {
                        assert(strictly_inside((c.0 - 1, c.1 - 1)));
                    }
                    if live.contains((c.0, c.1 - 1)) {
                        assert(strictly_inside((c.0, c.1 - 1)));
                    }
                    if live.contains((c.0 + 1, c.1 - 1)) {
                        assert(strictly_inside((c.0 + 1, c.1 - 1)));
                    }
                    if live.contains((c.0 - 1, c.1)) {
                        assert(strictly_inside((c.0 - 1, c.1)));
                    }
                    if live.contains((c.0 + 1, c.1)) {
                        assert(strictly_inside((c.0 + 1, c.1)));
                    }
                    if live.contains((c.0 - 1, c.1 + 1)) {
                        assert(strictly_inside((c.0 - 1, c.1 + 1)));
                    }
                    if live.contains((c.0, c.1 + 1)) {
                        assert(strictly_inside((c.0, c.1 + 1)));
                    }
                    if live.contains((c.0 + 1, c.1 + 1)) {
                        assert(strictly_inside((c.0 + 1, c.1 + 1)));
                    }
                    assert(neighbor_count(live, c) == 0);
                    if live.contains(c) {
                        assert(strictly_inside(c));
                    }
                }
            }
            assert(self@ =~= step(live));
        }
    }
}

/// Determinism of the generation rule: the next generation is a function of
/// the live set alone, so two stores holding equal live sets advance to
/// equal live sets.
pub proof fn lemma_step_deterministic(s1: Set<(int, int)>, s2: Set<(int, int)>)
    requires
        s1 == s2,
    ensures
        step(s1) == step(s2),
{
}

/// The standard rule table, row by row: a live cell with fewer than two or
/// more than three live neighbours dies, with two or three it survives; a
/// dead cell is born with exactly three live neighbours and otherwise stays
/// dead.
pub proof fn lemma_rule_table(s: Set<(int, int)>, c: (int, int))
    ensures
        s.contains(c) && neighbor_count(s, c) <= 1 ==> !step(s).contains(c),
        s.contains(c) && (neighbor_count(s, c) == 2 || neighbor_count(s, c) == 3) ==> step(
            s,
        ).contains(c),
        s.contains(c) && neighbor_count(s, c) >= 4 ==> !step(s).contains(c),
        !s.contains(c) && neighbor_count(s, c) == 3 ==> step(s).contains(c),
        !s.contains(c) && neighbor_count(s, c) != 3 ==> !step(s).contains(c),
{
}

/// An empty grid stays empty: no cell has three live neighbours.
pub proof fn lemma_step_empty()
    ensures
        step(Set::<(int, int)>::empty()) == Set::<(int, int)>::empty(),
{
    assert forall|c: (int, int)| !step(Set::<(int, int)>::empty()).contains(c) by {
        lemma_count_bounds(Set::<(int, int)>::empty(), c);
        assert(neighbor_count(Set::<(int, int)>::empty(), c) == 0);
    }
    assert(step(Set::<(int, int)>::empty()) =~= Set::<(int, int)>::empty());
}

} // verus!
