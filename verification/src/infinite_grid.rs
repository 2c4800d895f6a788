use vstd::prelude::*;
use core::ops::Range;
use crate::coords::Coord2D;

verus! {

/// The key of an entry, as a pair of unbounded integers.
pub open spec fn entry_key<T>(e: ((i64, i64), T)) -> (int, int) {
    (e.0.0 as int, e.0.1 as int)
}

/// No two entries share a key.
pub open spec fn keys_distinct<T>(s: Seq<((i64, i64), T)>) -> bool {
    forall|a: int, b: int| 0 <= a < b < s.len() ==> entry_key(s[a]) != entry_key(s[b])
}

/// The partial map described by an entry list, later entries winning.
pub open spec fn assoc_map<T>(s: Seq<((i64, i64), T)>) -> Map<(int, int), T>
    decreases s.len(),
{
    if s.len() == 0 {
        Map::empty()
    } else {
        assoc_map(s.drop_last()).insert(entry_key(s.last()), s.last().1)
    }
}

/// With distinct keys, the map holds exactly the listed entries.
proof fn lemma_assoc_map_props<T>(s: Seq<((i64, i64), T)>)
    requires
        keys_distinct(s),
    ensures
        forall|i: int|
            0 <= i < s.len() ==> assoc_map(s).dom().contains(entry_key(#[trigger] s[i]))
                && assoc_map(s)[entry_key(s[i])] == s[i].1,
        forall|p: (int, int)|
            #[trigger] assoc_map(s).dom().contains(p) ==> exists|i: int|
                0 <= i < s.len() && entry_key(#[trigger] s[i]) == p,
    decreases s.len(),
{
    if s.len() > 0 {
        let t = s.drop_last();
        lemma_assoc_map_props(t);
        assert forall|i: int| 0 <= i < s.len() implies assoc_map(s).dom().contains(
            entry_key(#[trigger] s[i]),
        ) && assoc_map(s)[entry_key(s[i])] == s[i].1 by {
            if i < s.len() - 1 {
                assert(t[i] == s[i]);
                assert(entry_key(s[i]) != entry_key(s.last()));
            }
        }
        assert forall|p: (int, int)| #[trigger] assoc_map(s).dom().contains(p) implies exists|
            i: int,
        | 0 <= i < s.len() && entry_key(#[trigger] s[i]) == p by {
            if p == entry_key(s.last()) {
                assert(entry_key(s[s.len() - 1]) == p);
            } else {
                assert(assoc_map(s) == assoc_map(t).insert(entry_key(s.last()), s.last().1));
                assert(assoc_map(t).dom().contains(p));
                let i = choose|i: int| 0 <= i < t.len() && entry_key(#[trigger] t[i]) == p;
                assert(t[i] == s[i]);
                assert(entry_key(s[i]) == p);
            }
        }
    }
}

/// How a half-open range grows to cover a new value: an empty range snaps to
/// the value, a value below the start or at or past the end stretches it.
pub open spec fn grow_range(start: int, end: int, v: int) -> (int, int) {
    if start >= end {
        (v, v + 1)
    } else if v < start {
        (v, end)
    } else if v >= end {
        (start, v + 1)
    } else {
        (start, end)
    }
}

/// The mathematical content of an [`InfiniteGrid`]: its filled cells as a
/// partial map, the default for everything else, the bounding box of all
/// cells ever set, and the display orientation flag.
pub ghost struct InfGridView<T> {
    pub default: T,
    pub cells: Map<(int, int), T>,
    pub x_start: int,
    pub x_end: int,
    pub y_start: int,
    pub y_end: int,
    pub flip_y: bool,
}

/// An unbounded sparse grid: cells that were never set read as the default
/// value, and the bounding box of everything set so far is tracked.
pub struct InfiniteGrid<T: Copy> {
    default: T,
    data: Vec<((i64, i64), T)>,
    x_start: i64,
    x_end: i64,
    y_start: i64,
    y_end: i64,
    flip_y: bool,
}

impl<T: Copy> View for InfiniteGrid<T> {
    type V = InfGridView<T>;

    closed spec fn view(&self) -> InfGridView<T> {
        InfGridView {
            default: self.default,
            cells: assoc_map(self.data@),
            x_start: self.x_start as int,
            x_end: self.x_end as int,
            y_start: self.y_start as int,
            y_end: self.y_end as int,
            flip_y: self.flip_y,
        }
    }
}

impl<T: Copy> InfiniteGrid<T> {
    /// The entry list never repeats a key, and every key leaves room for the
    /// bounding box arithmetic.
    pub closed spec fn wf(&self) -> bool {
        &&& keys_distinct(self.data@)
        &&& forall|j: int|
            0 <= j < self.data@.len() ==> (entry_key(#[trigger] self.data@[j])).0 < i64::MAX && (
            entry_key(self.data@[j])).1 < i64::MAX
    }

    /// An empty grid whose every cell reads `default_val`.
    pub fn new(default_val: T) -> (r: Self)
        ensures
            r.wf(),
            r@.default == default_val,
            r@.cells == Map::<(int, int), T>::empty(),
            r@.x_start == 0 && r@.x_end == 0,
            r@.y_start == 0 && r@.y_end == 0,
            !r@.flip_y,
    {
        InfiniteGrid {
            default: default_val,
            data: Vec::new(),
            x_start: 0,
            x_end: 0,
            y_start: 0,
            y_end: 0,
            flip_y: false,
        }
    }

    /// The cell at `(x, y)`: its stored value, or the default when it was
    /// never set.
    pub fn get(&self, x: i64, y: i64) -> (r: T)
        requires
            self.wf(),
        ensures
            r == if self@.cells.dom().contains((x as int, y as int)) {
                self@.cells[(x as int, y as int)]
            } else {
                self@.default
            },
    {
        proof {
            lemma_assoc_map_props(self.data@);
        }
        let mut i: usize = 0;
        while i < self.data.len()
            invariant
                self.wf(),
                i <= self.data@.len(),
                forall|j: int| 0 <= j < i ==> entry_key(#[trigger] self.data@[j]) != (
                x as int,
                y as int,
                ),
            decreases self.data@.len() - i,
        {
            let e = self.data[i];
            if e.0.0 == x && e.0.1 == y {
                proof {
                    lemma_assoc_map_props(self.data@);
                }
                return e.1;
            }
            i = i + 1;
        }
        proof {
            lemma_assoc_map_props(self.data@);
            if self@.cells.dom().contains((x as int, y as int)) {
                let j = choose|j: int|
                    0 <= j < self.data@.len() && entry_key(#[trigger] self.data@[j]) == (
                    x as int,
                    y as int,
                    );
            }
        }
        self.default
    }

    /// The cell at coordinate `c`.
    pub fn get_c(&self, c: Coord2D) -> (r: T)
        requires
            self.wf(),
        ensures
            r == if self@.cells.dom().contains((c.x as int, c.y as int)) {
                self@.cells[(c.x as int, c.y as int)]
            } else {
                self@.default
            },
    {
        self.get(c.x, c.y)
    }

    /// Sets the cell at `(x, y)` and stretches the bounding box over it.
    pub fn set(&mut self, x: i64, y: i64, val: T)
        requires
            old(self).wf(),
            x < i64::MAX,
            y < i64::MAX,
        ensures
            final(self).wf(),
            final(self)@.default == old(self)@.default,
            final(self)@.flip_y == old(self)@.flip_y,
            final(self)@.cells == old(self)@.cells.insert((x as int, y as int), val),
            (final(self)@.x_start, final(self)@.x_end) == grow_range(
                old(self)@.x_start,
                old(self)@.x_end,
                x as int,
            ),
            (final(self)@.y_start, final(self)@.y_end) == grow_range(
                old(self)@.y_start,
                old(self)@.y_end,
                y as int,
            ),
    {
        proof {
            lemma_assoc_map_props(self.data@);
        }
        let mut i: usize = 0;
        let mut found = false;
        while i < self.data.len() && !found
            invariant
                self == old(self),
                self.wf(),
                i <= self.data@.len(),
                found ==> i < self.data@.len() && entry_key(self.data@[i as int]) == (
                x as int,
                y as int,
                ),
                !found ==> forall|j: int|
                    0 <= j < i ==> entry_key(#[trigger] self.data@[j]) != (x as int, y as int),
            decreases self.data@.len() - i + (if found {
                0int
            } else {
                1int
            }),
        {
            let e = self.data[i];
            if e.0.0 == x && e.0.1 == y {
                found = true;
            } else {
                i = i + 1;
            }
        }
        let ghost d0 = self.data@;
        if found {
            self.data.set(i, ((x, y), val));
            proof {
                lemma_update_entry(d0, i as int, ((x, y), val));
            }
        } else {
            self.data.push(((x, y), val));
            proof {
                assert(self.data@.drop_last() =~= d0);
                assert forall|a: int, b: int| 0 <= a < b < self.data@.len() implies entry_key(
                    self.data@[a],
                ) != entry_key(self.data@[b]) by {
                    if b == self.data@.len() - 1 {
                        assert(entry_key(d0[a]) != (x as int, y as int));
                    }
                }
            }
        }
        if self.x_start >= self.x_end {
            self.x_start = x;
            self.x_end = x + 1;
        } else if x < self.x_start {
            self.x_start = x;
        } else if x >= self.x_end {
            self.x_end = x + 1;
        }
        if self.y_start >= self.y_end {
            self.y_start = y;
            self.y_end = y + 1;
        } else if y < self.y_start {
            self.y_start = y;
        } else if y >= self.y_end {
            self.y_end = y + 1;
        }
    }

    /// Sets the cell at coordinate `c`.
    pub fn set_c(&mut self, c: Coord2D, val: T)
        requires
            old(self).wf(),
            c.x < i64::MAX,
            c.y < i64::MAX,
        ensures
            final(self).wf(),
            final(self)@.default == old(self)@.default,
            final(self)@.flip_y == old(self)@.flip_y,
            final(self)@.cells == old(self)@.cells.insert((c.x as int, c.y as int), val),
            (final(self)@.x_start, final(self)@.x_end) == grow_range(
                old(self)@.x_start,
                old(self)@.x_end,
                c.x as int,
            ),
            (final(self)@.y_start, final(self)@.y_end) == grow_range(
                old(self)@.y_start,
                old(self)@.y_end,
                c.y as int,
            ),
    {
        self.set(c.x, c.y, val);
    }

    /// The x extent of the bounding box of everything set so far.
    pub fn x_bounds(&self) -> (r: Range<i64>)
        ensures
            r.start == self@.x_start,
            r.end == self@.x_end,
    {
        self.x_start..self.x_end
    }

    /// The y extent of the bounding box of everything set so far.
    pub fn y_bounds(&self) -> (r: Range<i64>)
        ensures
            r.start == self@.y_start,
            r.end == self@.y_end,
    {
        self.y_start..self.y_end
    }

    /// Whether displays should run the y axis upward.
    pub fn flipped(&self) -> (r: bool)
        ensures
            r == self@.flip_y,
    {
        self.flip_y
    }

    /// Chooses whether displays should run the y axis upward.
    pub fn flip_y(&mut self, val: bool)
        ensures
            final(self).wf() == old(self).wf(),
            final(self)@ == (InfGridView { flip_y: val, ..old(self)@ }),
    {
        self.flip_y = val;
    }

    /// The filled cells as (coordinate pair, value) entries, each key once.
    pub fn iter(&self) -> (r: &Vec<((i64, i64), T)>)
        requires
            self.wf(),
        ensures
            keys_distinct(r@),
            forall|i: int|
                0 <= i < r@.len() ==> self@.cells.dom().contains(entry_key(#[trigger] r@[i]))
                    && self@.cells[entry_key(r@[i])] == r@[i].1,
            forall|p: (int, int)|
                #[trigger] self@.cells.dom().contains(p) ==> exists|i: int|
                    0 <= i < r@.len() && entry_key(#[trigger] r@[i]) == p,
    {
        proof {
            lemma_assoc_map_props(self.data@);
        }
        &self.data
    }
}

/// Whether a key passes the optional lower and upper bounds of a purge.
pub open spec fn within_bounds(
    p: (int, int),
    min_x: Option<i64>,
    min_y: Option<i64>,
    max_x: Option<i64>,
    max_y: Option<i64>,
) -> bool {
    &&& (min_x matches Some(v) ==> p.0 >= v)
    &&& (min_y matches Some(v) ==> p.1 >= v)
    &&& (max_x matches Some(v) ==> p.0 <= v)
    &&& (max_y matches Some(v) ==> p.1 <= v)
}

/// The entries of `s` whose keys satisfy `kp`, in order.
pub open spec fn kept_entries<T>(s: Seq<((i64, i64), T)>, kp: spec_fn((int, int)) -> bool) -> Seq<
    ((i64, i64), T),
>
    decreases s.len(),
{
    if s.len() == 0 {
        s
    } else {
        let rest = kept_entries(s.drop_last(), kp);
        if kp(entry_key(s.last())) {
            rest.push(s.last())
        } else {
            rest
        }
    }
}

/// Keeping only the entries whose keys pass `kp` restricts the map to the
/// keys that pass `kp`, keeps the surviving values, and keeps the keys
/// distinct.
proof fn lemma_kept_entries<T>(s: Seq<((i64, i64), T)>, kp: spec_fn((int, int)) -> bool)
    requires
        keys_distinct(s),
    ensures
        keys_distinct(kept_entries(s, kp)),
        forall|p: (int, int)|
            #[trigger] assoc_map(kept_entries(s, kp)).dom().contains(p) <==> (assoc_map(
                s,
            ).dom().contains(p) && kp(p)),
        forall|p: (int, int)|
            #[trigger] assoc_map(kept_entries(s, kp)).dom().contains(p) ==> assoc_map(
                kept_entries(s, kp),
            )[p] == assoc_map(s)[p],
    decreases s.len(),
{
    if s.len() > 0 {
        let t = s.drop_last();
        let f = kept_entries(s, kp);
        let ft = kept_entries(t, kp);
        lemma_kept_entries(t, kp);
        lemma_assoc_map_props(t);
        lemma_assoc_map_props(ft);
        let lk = entry_key(s.last());
        assert(forall|a: int, b: int| 0 <= a < b < t.len() ==> entry_key(#[trigger] t[a]) != entry_key(#[trigger] t[b]));
        assert forall|p: (int, int)| #[trigger] assoc_map(ft).dom().contains(p) implies p
            != lk by {
            if p == lk {
                let i = choose|i: int| 0 <= i < t.len() && entry_key(#[trigger] t[i]) == p;
                assert(entry_key(s[i]) == entry_key(s[s.len() - 1]));
            }
        }
        if kp(lk) {
            assert(f == ft.push(s.last()));
            assert(f.drop_last() =~= ft);
            assert(assoc_map(f) == assoc_map(ft).insert(lk, s.last().1));
            assert forall|a: int, b: int| 0 <= a < b < f.len() implies entry_key(f[a])
                != entry_key(f[b]) by {
                if b == f.len() - 1 {
                    assert(assoc_map(ft).dom().contains(entry_key(ft[a])));
                }
            }
        } else {
            assert(f == ft);
        }
    }
}

impl<T: Copy> InfiniteGrid<T> {
    /// Drops every cell outside the given optional bounds and shrinks the
    /// bounding box to what is left: the surviving cells span it exactly, and
    /// it collapses to zero when nothing survives.
    pub fn purge(
        &mut self,
        min_x: Option<i64>,
        min_y: Option<i64>,
        max_x: Option<i64>,
        max_y: Option<i64>,
    )
        requires
            old(self).wf(),
        ensures
            final(self).wf(),
            final(self)@.default == old(self)@.default,
            final(self)@.flip_y == old(self)@.flip_y,
            forall|p: (int, int)|
                #[trigger] final(self)@.cells.dom().contains(p) <==> (old(self)@.cells.dom().contains(p) && within_bounds(p, min_x, min_y, max_x, max_y)),
            forall|p: (int, int)|
                #[trigger] final(self)@.cells.dom().contains(p) ==> final(self)@.cells[p] == old(self)@.cells[p],
            (final(self)@.cells.dom() =~= Set::empty()) ==> final(self)@.x_start == 0 && final(self)@.x_end == 0 && final(self)@.y_start == 0 && final(self)@.y_end == 0,
            !(final(self)@.cells.dom() =~= Set::empty()) ==> {
                &&& forall|p: (int, int)| #[trigger]
                    final(self)@.cells.dom().contains(p) ==> final(self)@.x_start <= p.0 < final(self)@.x_end && final(self)@.y_start <= p.1 < final(self)@.y_end
                &&& exists|p: (int, int)| #[trigger]
                    final(self)@.cells.dom().contains(p) && p.0 == final(self)@.x_start
                &&& exists|p: (int, int)| #[trigger]
                    final(self)@.cells.dom().contains(p) && p.0 == final(self)@.x_end - 1
                &&& exists|p: (int, int)| #[trigger]
                    final(self)@.cells.dom().contains(p) && p.1 == final(self)@.y_start
                &&& exists|p: (int, int)| #[trigger]
                    final(self)@.cells.dom().contains(p) && p.1 == final(self)@.y_end - 1
            },
    {
        let ghost kp = |p: (int, int)| within_bounds(p, min_x, min_y, max_x, max_y);
        let ghost d0 = self.data@;
        let mut kept: Vec<((i64, i64), T)> = Vec::new();
        let mut xs: i64 = 0;
        let mut xe: i64 = 0;
        let mut ys: i64 = 0;
        let mut ye: i64 = 0;
        let mut any = false;
        let mut i: usize = 0;
        while i < self.data.len()
            invariant
                self == old(self),
                self.wf(),
                d0 == self.data@,
                i <= d0.len(),
                kept@ == kept_entries(d0.subrange(0, i as int), kp),
                kp == (|p: (int, int)| within_bounds(p, min_x, min_y, max_x, max_y)),
                any <==> kept@.len() > 0,
                !any ==> xs == 0 && xe == 0 && ys == 0 && ye == 0,
                any ==> {
                    &&& forall|a: int|
                        0 <= a < kept@.len() ==> xs <= entry_key(#[trigger] kept@[a]).0 < xe && ys
                            <= entry_key(kept@[a]).1 < ye
                    &&& exists|a: int|
                        0 <= a < kept@.len() && entry_key(#[trigger] kept@[a]).0 == xs
                    &&& exists|a: int|
                        0 <= a < kept@.len() && entry_key(#[trigger] kept@[a]).0 == xe - 1
                    &&& exists|a: int|
                        0 <= a < kept@.len() && entry_key(#[trigger] kept@[a]).1 == ys
                    &&& exists|a: int|
                        0 <= a < kept@.len() && entry_key(#[trigger] kept@[a]).1 == ye - 1
                },
            decreases d0.len() - i,
        {
            let e = self.data[i];
            let x = e.0.0;
            let y = e.0.1;
            let mut keep = true;
            match min_x {
                Option::Some(v) => {
                    if x < v {
                        keep = false;
                    }
                },
                Option::None => {},
            }
            match min_y {
                Option::Some(v) => {
                    if y < v {
                        keep = false;
                    }
                },
                Option::None => {},
            }
            match max_x {
                Option::Some(v) => {
                    if x > v {
                        keep = false;
                    }
                },
                Option::None => {},
            }
            match max_y {
                Option::Some(v) => {
                    if y > v {
                        keep = false;
                    }
                },
                Option::None => {},
            }
            proof {
                assert(keep == kp(entry_key(e)));
                assert(d0.subrange(0, i + 1).drop_last() =~= d0.subrange(0, i as int));
                assert(d0.subrange(0, i + 1).last() == e);
            }
            if keep {
                let ghost kept0 = kept@;
                let ghost was_any = any;
                let ghost oxs = xs;
                let ghost oxe = xe;
                let ghost oys = ys;
                let ghost oye = ye;
                kept.push(e);
                if !any {
                    any = true;
                    xs = x;
                    xe = x + 1;
                    ys = y;
                    ye = y + 1;
                } else {
                    if x < xs {
                        xs = x;
                    }
                    if x + 1 > xe {
                        xe = x + 1;
                    }
                    if y < ys {
                        ys = y;
                    }
                    if y + 1 > ye {
                        ye = y + 1;
                    }
                }
                proof {
                    let ghost last = kept@.len() - 1;
                    assert(kept@[last] == e);
                    assert(entry_key(kept@[last]) == (x as int, y as int));
                    if was_any {
                        let a1 = choose|a: int|
                            0 <= a < kept0.len() && entry_key(#[trigger] kept0[a]).0 == oxs;
                        let a2 = choose|a: int|
                            0 <= a < kept0.len() && entry_key(#[trigger] kept0[a]).0 == oxe - 1;
                        let a3 = choose|a: int|
                            0 <= a < kept0.len() && entry_key(#[trigger] kept0[a]).1 == oys;
                        let a4 = choose|a: int|
                            0 <= a < kept0.len() && entry_key(#[trigger] kept0[a]).1 == oye - 1;
                        assert(kept@[a1] == kept0[a1] && kept@[a2] == kept0[a2] && kept@[a3]
                            == kept0[a3] && kept@[a4] == kept0[a4]);
                        if x < oxs {
                            assert(entry_key(kept@[last]).0 == xs);
                        } else {
                            assert(entry_key(kept@[a1]).0 == xs);
                        }
                        if x + 1 > oxe {
                            assert(entry_key(kept@[last]).0 == xe - 1);
                        } else {
                            assert(entry_key(kept@[a2]).0 == xe - 1);
                        }
                        if y < oys {
                            assert(entry_key(kept@[last]).1 == ys);
                        } else {
                            assert(entry_key(kept@[a3]).1 == ys);
                        }
                        if y + 1 > oye {
                            assert(entry_key(kept@[last]).1 == ye - 1);
                        } else {
                            assert(entry_key(kept@[a4]).1 == ye - 1);
                        }
                    } else {
                        assert(entry_key(kept@[last]).0 == xs);
                        assert(entry_key(kept@[last]).0 == xe - 1);
                        assert(entry_key(kept@[last]).1 == ys);
                        assert(entry_key(kept@[last]).1 == ye - 1);
                    }
                }
            }
            i = i + 1;
        }
        proof {
            assert(d0.subrange(0, d0.len() as int) =~= d0);
            lemma_kept_entries(d0, kp);
            lemma_assoc_map_props(kept@);
        }
        self.data = kept;
        self.x_start = xs;
        self.x_end = xe;
        self.y_start = ys;
        self.y_end = ye;
        proof {
            if self@.cells.dom() =~= Set::<(int, int)>::empty() {
                if any {
                    assert(self@.cells.dom().contains(entry_key(self.data@[0])));
                }
            } else {
                let q = choose|q: (int, int)| self@.cells.dom().contains(q);
                assert(kept_entries(d0, kp).len() > 0) by {
                    if kept_entries(d0, kp).len() == 0 {
                        assert(!self@.cells.dom().contains(q));
                    }
                }
            }
        }
    }
}

/// The ranges of `g` delimit exactly the bounding box of its filled cells,
/// collapsing to zero when there are none.
pub open spec fn bounds_tight<T>(g: InfGridView<T>) -> bool {
    if g.cells.dom() =~= Set::<(int, int)>::empty() {
        g.x_start == 0 && g.x_end == 0 && g.y_start == 0 && g.y_end == 0
    } else {
        &&& forall|p: (int, int)| #[trigger]
            g.cells.dom().contains(p) ==> g.x_start <= p.0 < g.x_end && g.y_start <= p.1 < g.y_end
        &&& exists|p: (int, int)| #[trigger] g.cells.dom().contains(p) && p.0 == g.x_start
        &&& exists|p: (int, int)| #[trigger] g.cells.dom().contains(p) && p.0 == g.x_end - 1
        &&& exists|p: (int, int)| #[trigger] g.cells.dom().contains(p) && p.1 == g.y_start
        &&& exists|p: (int, int)| #[trigger] g.cells.dom().contains(p) && p.1 == g.y_end - 1
    }
}

/// Setting one cell keeps the bounding box tight.
proof fn lemma_bounds_tight_insert<T>(g0: InfGridView<T>, g1: InfGridView<T>, x: i64, y: i64, v: T)
    requires
        bounds_tight(g0),
        g1.cells == g0.cells.insert((x as int, y as int), v),
        (g1.x_start, g1.x_end) == grow_range(g0.x_start, g0.x_end, x as int),
        (g1.y_start, g1.y_end) == grow_range(g0.y_start, g0.y_end, y as int),
    ensures
        bounds_tight(g1),
{
    let p0 = (x as int, y as int);
    assert(g1.cells.dom().contains(p0));
    assert(!(g1.cells.dom() =~= Set::<(int, int)>::empty()));
    if g0.cells.dom() =~= Set::<(int, int)>::empty() {
        assert forall|p: (int, int)| #[trigger]
            g1.cells.dom().contains(p) implies g1.x_start <= p.0 < g1.x_end && g1.y_start <= p.1
            < g1.y_end by {
            assert(p == p0);
        }
    } else {
        let w1 = choose|p: (int, int)| #[trigger] g0.cells.dom().contains(p) && p.0 == g0.x_start;
        let w2 = choose|p: (int, int)|
            #[trigger] g0.cells.dom().contains(p) && p.0 == g0.x_end - 1;
        let w3 = choose|p: (int, int)| #[trigger] g0.cells.dom().contains(p) && p.1 == g0.y_start;
        let w4 = choose|p: (int, int)|
            #[trigger] g0.cells.dom().contains(p) && p.1 == g0.y_end - 1;
        assert(g0.x_start < g0.x_end && g0.y_start < g0.y_end);
        assert(g1.cells.dom().contains(w1) && g1.cells.dom().contains(w2) && g1.cells.dom(
        ).contains(w3) && g1.cells.dom().contains(w4));
        if x < g0.x_start {
            assert(g1.cells.dom().contains(p0) && p0.0 == g1.x_start);
        } else {
            assert(g1.cells.dom().contains(w1) && w1.0 == g1.x_start);
        }
        if x >= g0.x_end {
            assert(g1.cells.dom().contains(p0) && p0.0 == g1.x_end - 1);
        } else {
            assert(g1.cells.dom().contains(w2) && w2.0 == g1.x_end - 1);
        }
        if y < g0.y_start {
            assert(g1.cells.dom().contains(p0) && p0.1 == g1.y_start);
        } else {
            assert(g1.cells.dom().contains(w3) && w3.1 == g1.y_start);
        }
        if y >= g0.y_end {
            assert(g1.cells.dom().contains(p0) && p0.1 == g1.y_end - 1);
        } else {
            assert(g1.cells.dom().contains(w4) && w4.1 == g1.y_end - 1);
        }
    }
}

impl<T: Copy> InfiniteGrid<T> {
    /// A sparse grid read from lines of characters: `mapfunc` sees each
    /// character with its position and decides whether (and with what value)
    /// the cell is filled. The bounding box delimits the filled cells.
    pub fn from_input<F: Fn(char, i64, i64) -> Option<T>>(
        input: &Vec<String>,
        default_val: T,
        mapfunc: F,
    ) -> (r: Self)
        requires
            input@.len() <= i64::MAX,
            forall|l: int| 0 <= l < input@.len() ==> (#[trigger] input@[l])@.len() <= i64::MAX,
            forall|c: char, x: i64, y: i64| #[trigger] call_requires(mapfunc, (c, x, y)),
        ensures
            r.wf(),
            r@.default == default_val,
            !r@.flip_y,
            forall|p: (int, int)|
                #[trigger] r@.cells.dom().contains(p) ==> 0 <= p.1 < input@.len() && 0 <= p.0
                    < input@[p.1]@.len() && call_ensures(
                    mapfunc,
                    (input@[p.1]@[p.0], p.0 as i64, p.1 as i64),
                    Some(r@.cells[p]),
                ),
            forall|x: int, y: int|
                0 <= y < input@.len() && 0 <= x < input@[y]@.len() && !(
                #[trigger] r@.cells.dom().contains((x, y))) ==> call_ensures(
                    mapfunc,
                    (input@[y]@[x], x as i64, y as i64),
                    Option::<T>::None,
                ),
            bounds_tight(r@),
    {
        let ghost linesv = input@.map_values(|l: String| l@);
        let mut inst = InfiniteGrid::new(default_val);
        let mut uy: usize = 0;
        while uy < input.len()
            invariant
                linesv == input@.map_values(|l: String| l@),
                input@.len() <= i64::MAX,
                forall|l: int| 0 <= l < input@.len() ==> (#[trigger] input@[l])@.len() <= i64::MAX,
                forall|c: char, x: i64, y: i64| #[trigger] call_requires(mapfunc, (c, x, y)),
                uy <= input@.len(),
                inst.wf(),
                inst@.default == default_val,
                !inst@.flip_y,
                forall|p: (int, int)|
                    #[trigger] inst@.cells.dom().contains(p) ==> 0 <= p.1 < uy && 0 <= p.0
                        < input@[p.1]@.len() && call_ensures(
                        mapfunc,
                        (input@[p.1]@[p.0], p.0 as i64, p.1 as i64),
                        Some(inst@.cells[p]),
                    ),
                forall|x: int, y: int|
                    0 <= y < uy && 0 <= x < input@[y]@.len() && !(
                    #[trigger] inst@.cells.dom().contains((x, y))) ==> call_ensures(
                        mapfunc,
                        (input@[y]@[x], x as i64, y as i64),
                        Option::<T>::None,
                    ),
                bounds_tight(inst@),
            decreases input@.len() - uy,
        {
            let line = crate::read::str_chars(input[uy].as_str());
            proof {
                assert(linesv[uy as int] == input@[uy as int]@);
            }
            let mut ux: usize = 0;
            while ux < line.len()
                invariant
                    linesv == input@.map_values(|l: String| l@),
                    input@.len() <= i64::MAX,
                    forall|l: int|
                        0 <= l < input@.len() ==> (#[trigger] input@[l])@.len() <= i64::MAX,
                    forall|c: char, x: i64, y: i64| #[trigger] call_requires(mapfunc, (c, x, y)),
                    uy < input@.len(),
                    line@ == input@[uy as int]@,
                    ux <= line@.len(),
                    inst.wf(),
                    inst@.default == default_val,
                    !inst@.flip_y,
                    forall|p: (int, int)|
                        #[trigger] inst@.cells.dom().contains(p) ==> ((0 <= p.1 < uy && 0 <= p.0
                            < input@[p.1]@.len()) || (p.1 == uy && 0 <= p.0 < ux)) && call_ensures(
                            mapfunc,
                            (input@[p.1]@[p.0], p.0 as i64, p.1 as i64),
                            Some(inst@.cells[p]),
                        ),
                    forall|x: int, y: int|
                        ((0 <= y < uy && 0 <= x < input@[y]@.len()) || (y == uy && 0 <= x < ux))
                            && !(#[trigger] inst@.cells.dom().contains((x, y))) ==> call_ensures(
                            mapfunc,
                            (input@[y]@[x], x as i64, y as i64),
                            Option::<T>::None,
                        ),
                    bounds_tight(inst@),
                decreases line@.len() - ux,
            {
                let c = line[ux];
                let x = ux as i64;
                let y = uy as i64;
                match mapfunc(c, x, y) {
                    Option::Some(v) => {
                        let ghost g0 = inst@;
                        inst.set(x, y, v);
                        proof {
                            lemma_bounds_tight_insert(g0, inst@, x, y, v);
                        }
                    },
                    Option::None => {},
                }
                ux = ux + 1;
            }
            uy = uy + 1;
        }
        inst
    }

    /// A sparse grid derived from another: `mapfunc` sees each cell of the
    /// other grid's bounding box (defaults included) and decides whether the
    /// new grid fills that position.
    pub fn from_other<U: Copy, F: Fn(U) -> Option<T>>(
        other: &InfiniteGrid<U>,
        default_val: T,
        mapfunc: F,
    ) -> (r: Self)
        requires
            other.wf(),
            forall|u: U| #[trigger] call_requires(mapfunc, (u,)),
        ensures
            r.wf(),
            r@.default == default_val,
            !r@.flip_y,
            forall|p: (int, int)|
                #[trigger] r@.cells.dom().contains(p) ==> other@.x_start <= p.0 < other@.x_end
                    && other@.y_start <= p.1 < other@.y_end && call_ensures(
                    mapfunc,
                    (
                        if other@.cells.dom().contains(p) {
                            other@.cells[p]
                        } else {
                            other@.default
                        },
                    ),
                    Some(r@.cells[p]),
                ),
            forall|x: int, y: int|
                other@.x_start <= x < other@.x_end && other@.y_start <= y < other@.y_end && !(
                #[trigger] r@.cells.dom().contains((x, y))) ==> call_ensures(
                    mapfunc,
                    (
                        if other@.cells.dom().contains((x, y)) {
                            other@.cells[(x, y)]
                        } else {
                            other@.default
                        },
                    ),
                    Option::<T>::None,
                ),
            bounds_tight(r@),
    {
        let mut inst = InfiniteGrid::new(default_val);
        let y_start = other.y_bounds().start;
        let y_end = other.y_bounds().end;
        let x_start = other.x_bounds().start;
        let x_end = other.x_bounds().end;
        let mut y = y_start;
        while y < y_end
            invariant
                other.wf(),
                forall|u: U| #[trigger] call_requires(mapfunc, (u,)),
                y_start == other@.y_start,
                y_end == other@.y_end,
                x_start == other@.x_start,
                x_end == other@.x_end,
                y_start <= y <= y_end || (y == y_start && y_end < y_start),
                inst.wf(),
                inst@.default == default_val,
                !inst@.flip_y,
                forall|p: (int, int)|
                    #[trigger] inst@.cells.dom().contains(p) ==> x_start <= p.0 < x_end && y_start
                        <= p.1 < y && call_ensures(
                        mapfunc,
                        (
                            if other@.cells.dom().contains(p) {
                                other@.cells[p]
                            } else {
                                other@.default
                            },
                        ),
                        Some(inst@.cells[p]),
                    ),
                forall|x: int, y2: int|
                    x_start <= x < x_end && y_start <= y2 < y && !(
                    #[trigger] inst@.cells.dom().contains((x, y2))) ==> call_ensures(
                        mapfunc,
                        (
                            if other@.cells.dom().contains((x, y2)) {
                                other@.cells[(x, y2)]
                            } else {
                                other@.default
                            },
                        ),
                        Option::<T>::None,
                    ),
                bounds_tight(inst@),
            decreases y_end - y,
        {
            let mut x = x_start;
            while x < x_end
                invariant
                    other.wf(),
                    forall|u: U| #[trigger] call_requires(mapfunc, (u,)),
                    y_start == other@.y_start,
                    y_end == other@.y_end,
                    x_start == other@.x_start,
                    x_end == other@.x_end,
                    y_start <= y < y_end,
                    x_start <= x <= x_end || (x == x_start && x_end < x_start),
                    inst.wf(),
                    inst@.default == default_val,
                    !inst@.flip_y,
                    forall|p: (int, int)|
                        #[trigger] inst@.cells.dom().contains(p) ==> ((x_start <= p.0 < x_end
                            && y_start <= p.1 < y) || (p.1 == y && x_start <= p.0 < x))
                            && call_ensures(
                            mapfunc,
                            (
                                if other@.cells.dom().contains(p) {
                                    other@.cells[p]
                                } else {
                                    other@.default
                                },
                            ),
                            Some(inst@.cells[p]),
                        ),
                    forall|x2: int, y2: int|
                        ((x_start <= x2 < x_end && y_start <= y2 < y) || (y2 == y && x_start <= x2
                            < x)) && !(#[trigger] inst@.cells.dom().contains((x2, y2)))
                            ==> call_ensures(
                            mapfunc,
                            (
                                if other@.cells.dom().contains((x2, y2)) {
                                    other@.cells[(x2, y2)]
                                } else {
                                    other@.default
                                },
                            ),
                            Option::<T>::None,
                        ),
                    bounds_tight(inst@),
                decreases x_end - x,
            {
                let other_val = other.get(x, y);
                match mapfunc(other_val) {
                    Option::Some(v) => {
                        let ghost g0 = inst@;
                        inst.set(x, y, v);
                        proof {
                            lemma_bounds_tight_insert(g0, inst@, x, y, v);
                        }
                    },
                    Option::None => {},
                }
                x = x + 1;
            }
            y = y + 1;
        }
        inst
    }
}

/// Replacing the entry at `i` with one of the same key updates the map at
/// Replacing the entry at `i` with one of the same key updates the map at
/// Replacing the entry at `i` with one of the same key updates the map at
/// that key and keeps the keys distinct.
proof fn lemma_update_entry<T>(s: Seq<((i64, i64), T)>, i: int, e: ((i64, i64), T))
    requires
        keys_distinct(s),
        0 <= i < s.len(),
        entry_key(s[i]) == entry_key(e),
    ensures
        keys_distinct(s.update(i, e)),
        assoc_map(s.update(i, e)) == assoc_map(s).insert(entry_key(e), e.1),
    decreases s.len(),
{
    let t = s.update(i, e);
    assert forall|a: int, b: int| 0 <= a < b < t.len() implies entry_key(t[a]) != entry_key(
        t[b],
    ) by {
        assert(entry_key(t[a]) == entry_key(s[a]) && entry_key(t[b]) == entry_key(s[b]));
    }
    if i == s.len() - 1 {
        assert(t.drop_last() =~= s.drop_last());
        assert(assoc_map(t) =~= assoc_map(s).insert(entry_key(e), e.1));
    } else {
        assert(t.drop_last() =~= s.drop_last().update(i, e));
        lemma_update_entry(s.drop_last(), i, e);
        assert(entry_key(s.last()) != entry_key(s[i]));
        assert(t.last() == s.last());
        assert(assoc_map(t) == assoc_map(s.drop_last()).insert(entry_key(e), e.1).insert(
            entry_key(s.last()),
            s.last().1,
        ));
        assert(assoc_map(t) =~= assoc_map(s).insert(entry_key(e), e.1));
    }
}

} // verus!
