//! Regions relative to a seed cell, and the comparison of their shapes.

use vstd::prelude::*;
use crate::grid::Gridlike;
use crate::model::GridView;
use crate::panel::Panel;
use crate::region::at_or_before;
use crate::rotation::Rotation;

verus! {

/// A set of cells given by their offsets from a seed cell, each with the panel found
/// there. The cell of an entry `(dx, dy, _)` is `(offset_x + dx, offset_y + dy)`.
#[derive(Clone, Debug, PartialEq, Eq)]
pub struct Neighbourhood {
    pub offset_x: usize,
    pub offset_y: usize,
    pub contents: Vec<(i8, i8, Panel)>,
}

/// Whether some entry of the list has the offset `(dx, dy)`.
pub open spec fn has_offset(entries: Seq<(i8, i8, Panel)>, dx: int, dy: int) -> bool {
    exists|i: int| 0 <= i < entries.len() && (#[trigger] entries[i]).0 == dx && entries[i].1 == dy
}

/// The offsets of the entries, as a set.
pub open spec fn offsets_of(entries: Seq<(i8, i8, Panel)>) -> Set<(int, int)> {
    Set::new(|p: (int, int)| has_offset(entries, p.0, p.1))
}

/// The offsets of the entries after a turn, as a set.
pub open spec fn turned_offsets_of(entries: Seq<(i8, i8, Panel)>, rot: Rotation) -> Set<
    (int, int),
> {
    Set::new(
        |p: (int, int)|
            exists|i: int|
                0 <= i < entries.len() && rot.apply(
                    (#[trigger] entries[i]).0 as int,
                    entries[i].1 as int,
                ) == p,
    )
}

/// Whether every entry, turned and then moved to the seed `(seed_x, seed_y)`, is a cell
/// of a grid of the given size.
pub open spec fn fits(
    entries: Seq<(i8, i8, Panel)>,
    rot: Rotation,
    seed_x: int,
    seed_y: int,
    width: int,
    height: int,
) -> bool {
    forall|i: int|
        0 <= i < entries.len() ==> {
            let p = rot.apply((#[trigger] entries[i]).0 as int, entries[i].1 as int);
            0 <= p.0 + seed_x < width && 0 <= p.1 + seed_y < height
        }
}

/// Whether every entry of `from`, turned, is an offset of `into`.
pub open spec fn turns_into(
    from: Seq<(i8, i8, Panel)>,
    rot: Rotation,
    into: Seq<(i8, i8, Panel)>,
) -> bool {
    forall|i: int|
        0 <= i < from.len() ==> {
            let p = rot.apply((#[trigger] from[i]).0 as int, from[i].1 as int);
            has_offset(into, p.0, p.1)
        }
}

/// The seed and the cells left, above, below and right of it that the grid has, each with
/// its panel, ordered by `dx`, then `dy`.
pub open spec fn around(grid: GridView, x: int, y: int) -> Seq<(i8, i8, Panel)> {
    (if x > 0 {
        seq![(-1i8, 0i8, grid.panel(x - 1, y))]
    } else {
        Seq::empty()
    }) + (if y > 0 {
        seq![(0i8, -1i8, grid.panel(x, y - 1))]
    } else {
        Seq::empty()
    }) + seq![(0i8, 0i8, grid.panel(x, y))] + (if y + 1 < grid.height {
        seq![(0i8, 1i8, grid.panel(x, y + 1))]
    } else {
        Seq::empty()
    }) + (if x + 1 < grid.width {
        seq![(1i8, 0i8, grid.panel(x + 1, y))]
    } else {
        Seq::empty()
    })
}

/// The entries around a cell rise strictly by `dx`, then `dy`.
pub proof fn lemma_around_rises(grid: GridView, x: int, y: int)
    ensures
        GridView::strictly_rising(around(grid, x, y)),
{
    let left: Seq<(i8, i8, Panel)> = if x > 0 {
        seq![(-1i8, 0i8, grid.panel(x - 1, y))]
    } else {
        Seq::empty()
    };
    let up: Seq<(i8, i8, Panel)> = if y > 0 {
        seq![(0i8, -1i8, grid.panel(x, y - 1))]
    } else {
        Seq::empty()
    };
    let down: Seq<(i8, i8, Panel)> = if y + 1 < grid.height {
        seq![(0i8, 1i8, grid.panel(x, y + 1))]
    } else {
        Seq::empty()
    };
    let right: Seq<(i8, i8, Panel)> = if x + 1 < grid.width {
        seq![(1i8, 0i8, grid.panel(x + 1, y))]
    } else {
        Seq::empty()
    };
    let all = around(grid, x, y);
    assert(all =~= left + up + seq![(0i8, 0i8, grid.panel(x, y))] + down + right);
    // The rank of an offset in the order: left, up, seed, down, right.
    assert forall|i: int| 0 <= i < all.len() implies ({
        let e = #[trigger] all[i];
        let rank = e.0 * 3 + e.1;
        &&& (e.0 == -1 && e.1 == 0) || (e.0 == 0 && -1 <= e.1 <= 1) || (e.0 == 1 && e.1 == 0)
        &&& rank == (if i < left.len() {
            -3int
        } else if i < left.len() + up.len() {
            -1int
        } else if i == left.len() + up.len() {
            0int
        } else if i < left.len() + up.len() + 1 + down.len() {
            1int
        } else {
            3int
        })
    }) by {}
    assert forall|i: int, j: int| 0 <= i < j < all.len() implies ({
        let a = #[trigger] all[i];
        let b = #[trigger] all[j];
        a.0 < b.0 || (a.0 == b.0 && a.1 < b.1)
    }) by {
        let a = all[i];
        let b = all[j];
        assert(a.0 * 3 + a.1 < b.0 * 3 + b.1);
    }
}

/// Whether an entry stays when a region around `(seed_x, seed_y)` is cut back to what a
/// row-by-row scan that has reached `(upto_x, upto_y)` knows: a fixed cell always stays.
pub open spec fn stays(
    entry: (i8, i8, Panel),
    seed_x: int,
    seed_y: int,
    upto_x: int,
    upto_y: int,
) -> bool {
    entry.2.fixed || at_or_before(entry.0 + seed_x, entry.1 + seed_y, upto_x, upto_y)
}

/// The horizontal or the vertical part of an entry's offset.
pub open spec fn coordinate(entry: (i8, i8, Panel), horizontal: bool) -> int {
    if horizontal {
        entry.0 as int
    } else {
        entry.1 as int
    }
}

/// Whether `m` is the least of zero and the entries' coordinates along one axis.
pub open spec fn is_min_with_zero(entries: Seq<(i8, i8, Panel)>, horizontal: bool, m: int) -> bool {
    &&& m <= 0
    &&& forall|i: int| 0 <= i < entries.len() ==> m <= coordinate(#[trigger] entries[i], horizontal)
    &&& m == 0 || exists|i: int|
        0 <= i < entries.len() && coordinate(#[trigger] entries[i], horizontal) == m
}

/// Whether `m` is the greatest of zero and the entries' coordinates along one axis.
pub open spec fn is_max_with_zero(entries: Seq<(i8, i8, Panel)>, horizontal: bool, m: int) -> bool {
    &&& m >= 0
    &&& forall|i: int| 0 <= i < entries.len() ==> m >= coordinate(#[trigger] entries[i], horizontal)
    &&& m == 0 || exists|i: int|
        0 <= i < entries.len() && coordinate(#[trigger] entries[i], horizontal) == m
}

/// The test [`stays`] as a predicate on entries.
pub open spec fn stays_pred(seed_x: int, seed_y: int, upto_x: int, upto_y: int) -> spec_fn(
    (i8, i8, Panel),
) -> bool {
    |entry: (i8, i8, Panel)| stays(entry, seed_x, seed_y, upto_x, upto_y)
}

/// The test "turned, this entry is an offset of `other`" as a predicate on entries.
pub open spec fn overlaps_pred(other: Seq<(i8, i8, Panel)>, rot: Rotation) -> spec_fn(
    (i8, i8, Panel),
) -> bool {
    |entry: (i8, i8, Panel)|
        has_offset(
            other,
            rot.apply(entry.0 as int, entry.1 as int).0,
            rot.apply(entry.0 as int, entry.1 as int).1,
        )
}

/// The cell of an entry of a region around `(seed_x, seed_y)`, with its panel.
pub open spec fn grid_cell(entry: (i8, i8, Panel), seed_x: int, seed_y: int) -> (
    usize,
    usize,
    Panel,
) {
    ((entry.0 + seed_x) as usize, (entry.1 + seed_y) as usize, entry.2)
}

/// Taking entries away from a list that rises strictly leaves a list that rises strictly.
pub proof fn lemma_filter_keeps_rising(
    entries: Seq<(i8, i8, Panel)>,
    pred: spec_fn((i8, i8, Panel)) -> bool,
)
    requires
        GridView::strictly_rising(entries),
    ensures
        GridView::strictly_rising(entries.filter(pred)),
    decreases entries.len(),
{
    reveal(Seq::filter);
    if entries.len() > 0 {
        let shorter = entries.drop_last();
        let last = entries.last();
        let kept = shorter.filter(pred);
        assert(GridView::strictly_rising(shorter)) by {
            assert forall|i: int, j: int| 0 <= i < j < shorter.len() implies ({
                let a = #[trigger] shorter[i];
                let b = #[trigger] shorter[j];
                a.0 < b.0 || (a.0 == b.0 && a.1 < b.1)
            }) by {
                assert(shorter[i] == entries[i]);
                assert(shorter[j] == entries[j]);
            }
        }
        lemma_filter_keeps_rising(shorter, pred);
        if pred(last) {
            let all = kept.push(last);
            assert forall|i: int, j: int| 0 <= i < j < all.len() implies ({
                let a = #[trigger] all[i];
                let b = #[trigger] all[j];
                a.0 < b.0 || (a.0 == b.0 && a.1 < b.1)
            }) by {
                assert(all[i] == kept[i]);
                if j < kept.len() {
                    assert(all[j] == kept[j]);
                } else {
                    assert(kept.contains(kept[i]));
                    shorter.lemma_filter_contains_rev(pred, kept[i]);
                    let k = choose|k: int| 0 <= k < shorter.len() && shorter[k] == kept[i];
                    assert(shorter[k] == entries[k]);
                    assert(entries[entries.len() - 1] == last);
                }
            }
        }
    }
}

/// Whether the list holds an entry with the given offset.
fn holds(entries: &Vec<(i8, i8, Panel)>, dx: i16, dy: i16) -> (r: bool)
    ensures
        r == has_offset(entries@, dx as int, dy as int),
{
    let mut i: usize = 0;
    while i < entries.len()
        invariant
            i <= entries@.len(),
            forall|k: int|
                0 <= k < i ==> !((#[trigger] entries@[k]).0 == dx && entries@[k].1 == dy),
        decreases entries@.len() - i,
    {
        let e = entries[i];
        if e.0 as i16 == dx && e.1 as i16 == dy {
            return true;
        }
        i += 1;
    }
    false
}

/// Whether every entry of `from`, turned, is an offset of `into`.
fn all_turn_into(from: &Vec<(i8, i8, Panel)>, rot: Rotation, into: &Vec<(i8, i8, Panel)>) -> (r:
    bool)
    ensures
        r == turns_into(from@, rot, into@),
{
    let mut i: usize = 0;
    while i < from.len()
        invariant
            i <= from@.len(),
            forall|k: int|
                0 <= k < i ==> {
                    let p = rot.apply((#[trigger] from@[k]).0 as int, from@[k].1 as int);
                    has_offset(into@, p.0, p.1)
                },
        decreases from@.len() - i,
    {
        let e = from[i];
        let p = rot.rotate_wide(e.0 as i16, e.1 as i16);
        if !holds(into, p.0, p.1) {
            return false;
        }
        i += 1;
    }
    true
}

/// Whether every entry, turned and moved to the seed, is a cell of the grid.
fn all_fit(
    entries: &Vec<(i8, i8, Panel)>,
    rot: Rotation,
    seed_x: usize,
    seed_y: usize,
    width: usize,
    height: usize,
) -> (r: bool)
    ensures
        r == fits(entries@, rot, seed_x as int, seed_y as int, width as int, height as int),
{
    let mut i: usize = 0;
    while i < entries.len()
        invariant
            i <= entries@.len(),
            forall|k: int|
                0 <= k < i ==> {
                    let p = rot.apply((#[trigger] entries@[k]).0 as int, entries@[k].1 as int);
                    0 <= p.0 + seed_x < width && 0 <= p.1 + seed_y < height
                },
        decreases entries@.len() - i,
    {
        let e = entries[i];
        let p = rot.rotate_wide(e.0 as i16, e.1 as i16);
        let x = p.0 as i128 + seed_x as i128;
        let y = p.1 as i128 + seed_y as i128;
        if !(0 <= x && x < width as i128 && 0 <= y && y < height as i128) {
            return false;
        }
        i += 1;
    }
    true
}

/// Turning the offsets of `b` gives the offsets of `a` exactly when every turned entry
/// of `b` is in `a` and every entry of `a`, turned back, is in `b`.
#[verifier::rlimit(50)]
pub proof fn lemma_turned_offsets(
    a: Seq<(i8, i8, Panel)>,
    b: Seq<(i8, i8, Panel)>,
    rot: Rotation,
)
    ensures
        (offsets_of(a) == turned_offsets_of(b, rot)) <==> (turns_into(b, rot, a) && turns_into(
            a,
            rot.inverse_spec(),
            b,
        )),
{
    let inv = rot.inverse_spec();
    if turns_into(b, rot, a) && turns_into(a, inv, b) {
        assert forall|p: (int, int)| offsets_of(a).contains(p) == turned_offsets_of(
            b,
            rot,
        ).contains(p) by {
            if offsets_of(a).contains(p) {
                let i = choose|i: int|
                    0 <= i < a.len() && (#[trigger] a[i]).0 == p.0 && a[i].1 == p.1;
                let q = inv.apply(a[i].0 as int, a[i].1 as int);
                assert(has_offset(b, q.0, q.1));
                let j = choose|j: int| 0 <= j < b.len() && (#[trigger] b[j]).0 == q.0 && b[j].1 == q.1;
                rot.lemma_inverse(p.0, p.1);
                assert(rot.apply(b[j].0 as int, b[j].1 as int) == p);
            }
            if turned_offsets_of(b, rot).contains(p) {
                let j = choose|j: int|
                    0 <= j < b.len() && rot.apply((#[trigger] b[j]).0 as int, b[j].1 as int) == p;
                assert(has_offset(a, p.0, p.1));
            }
        }
        assert(offsets_of(a) =~= turned_offsets_of(b, rot));
    }
    if offsets_of(a) == turned_offsets_of(b, rot) {
        assert forall|i: int| 0 <= i < b.len() implies ({
            let p = rot.apply((#[trigger] b[i]).0 as int, b[i].1 as int);
            has_offset(a, p.0, p.1)
        }) by {
            let p = rot.apply(b[i].0 as int, b[i].1 as int);
            assert(turned_offsets_of(b, rot).contains(p));
            assert(offsets_of(a).contains(p));
        }
        assert forall|i: int| 0 <= i < a.len() implies ({
            let p = inv.apply((#[trigger] a[i]).0 as int, a[i].1 as int);
            has_offset(b, p.0, p.1)
        }) by {
            let q = (a[i].0 as int, a[i].1 as int);
            assert(has_offset(a, q.0, q.1));
            assert(offsets_of(a).contains(q));
            assert(turned_offsets_of(b, rot).contains(q));
            let j = choose|j: int|
                0 <= j < b.len() && rot.apply((#[trigger] b[j]).0 as int, b[j].1 as int) == q;
            rot.lemma_inverse(b[j].0 as int, b[j].1 as int);
        }
    }
}

/// Turning by nothing leaves the offsets as they are.
pub proof fn lemma_unturned_offsets(a: Seq<(i8, i8, Panel)>)
    ensures
        turned_offsets_of(a, Rotation::D0) == offsets_of(a),
{
    assert forall|p: (int, int)| offsets_of(a).contains(p) == turned_offsets_of(
        a,
        Rotation::D0,
    ).contains(p) by {
        if offsets_of(a).contains(p) {
            let i = choose|i: int| 0 <= i < a.len() && (#[trigger] a[i]).0 == p.0 && a[i].1 == p.1;
            assert(Rotation::D0.apply(a[i].0 as int, a[i].1 as int) == p);
        }
        if turned_offsets_of(a, Rotation::D0).contains(p) {
            let j = choose|j: int|
                0 <= j < a.len() && Rotation::D0.apply((#[trigger] a[j]).0 as int, a[j].1 as int)
                    == p;
            assert(has_offset(a, p.0, p.1));
        }
    }
    assert(turned_offsets_of(a, Rotation::D0) =~= offsets_of(a));
}

impl Neighbourhood {
    /// The offsets of the region, as a set.
    pub open spec fn offsets(&self) -> Set<(int, int)> {
        offsets_of(self.contents@)
    }

    /// Whether the two regions have the same offsets.
    pub open spec fn same_shape_spec(&self, other: &Neighbourhood) -> bool {
        self.offsets() == other.offsets()
    }

    /// Whether some turn of `other` about its seed gives the offsets of this region.
    pub open spec fn same_shape_rotated_spec(&self, other: &Neighbourhood) -> bool {
        exists|rot: Rotation| self.offsets() == turned_offsets_of(other.contents@, rot)
    }

    /// Whether the entries of `other` are the entries of this region, each turned by
    /// `rot`.
    pub open spec fn turned_to(&self, rot: Rotation, other: &Neighbourhood) -> bool {
        &&& other.contents@.len() == self.contents@.len()
        &&& forall|i: int|
            0 <= i < self.contents@.len() ==> ((#[trigger] other.contents@[i]).0 as int, other.contents@[i].1 as int)
                == rot.apply(self.contents@[i].0 as int, self.contents@[i].1 as int)
    }

    /// A region moved to another seed has the shape of the region.
    pub proof fn lemma_moved_region_has_same_shape(&self, moved: &Neighbourhood)
        requires
            moved.contents@ == self.contents@,
        ensures
            moved.same_shape_spec(self),
            self.same_shape_spec(moved),
            moved.same_shape_rotated_spec(self),
    {
        lemma_unturned_offsets(self.contents@);
    }

    /// A region and the region turned by any of the four turns have the same shape up to
    /// a turn, whichever of the two is held against the other.
    pub proof fn lemma_turned_region_has_same_shape(&self, rot: Rotation, turned: &Neighbourhood)
        requires
            self.turned_to(rot, turned),
        ensures
            turned.same_shape_rotated_spec(self),
            self.same_shape_rotated_spec(turned),
    {
        let a = self.contents@;
        let b = turned.contents@;
        let back = rot.inverse_spec();
        assert(turns_into(a, rot, b)) by {
            assert forall|i: int| 0 <= i < a.len() implies ({
                let p = rot.apply((#[trigger] a[i]).0 as int, a[i].1 as int);
                has_offset(b, p.0, p.1)
            }) by {
                assert(b[i].0 == rot.apply(a[i].0 as int, a[i].1 as int).0);
            }
        }
        assert(turns_into(b, back, a)) by {
            assert forall|i: int| 0 <= i < b.len() implies ({
                let p = back.apply((#[trigger] b[i]).0 as int, b[i].1 as int);
                has_offset(a, p.0, p.1)
            }) by {
                rot.lemma_inverse(a[i].0 as int, a[i].1 as int);
                assert(a[i].0 == back.apply(b[i].0 as int, b[i].1 as int).0);
            }
        }
        lemma_turned_offsets(b, a, rot);
        lemma_turned_offsets(a, b, back);
        back.lemma_inverse(0, 0);
        assert(back.inverse_spec() == rot);
    }

    /// Whether every entry names a cell with coordinates that a `usize` can hold.
    pub open spec fn placeable(&self) -> bool {
        forall|i: int|
            0 <= i < self.contents@.len() ==> {
                &&& 0 <= (#[trigger] self.contents@[i]).0 + self.offset_x <= usize::MAX
                &&& 0 <= self.contents@[i].1 + self.offset_y <= usize::MAX
            }
    }

    /// The cells of the region in grid coordinates, in the order of the entries.
    pub open spec fn grid_cells(&self) -> Seq<(usize, usize, Panel)> {
        Seq::new(
            self.contents@.len(),
            |i: int| grid_cell(self.contents@[i], self.offset_x as int, self.offset_y as int),
        )
    }

    /// The region made of `(x, y)` and of the cells directly left, above, below and right
    /// of it that the grid has, whatever their lit state, ordered by `(dx, dy)`.
    pub fn new_around<G: Gridlike>(x: usize, y: usize, grid: &G) -> (n: Neighbourhood)
        requires
            grid.wf(),
            grid@.contains(x as int, y as int),
        ensures
            n.offset_x == x,
            n.offset_y == y,
            n.contents@ == around(grid@, x as int, y as int),
            GridView::strictly_rising(n.contents@),
    {
        proof {
            grid.lemma_wf();
        }
        let mut contents: Vec<(i8, i8, Panel)> = Vec::new();
        if x > 0 {
            contents.push((-1, 0, grid.panel_at(x - 1, y)));
        }
        if y > 0 {
            contents.push((0, -1, grid.panel_at(x, y - 1)));
        }
        contents.push((0, 0, grid.panel_at(x, y)));
        if y + 1 < grid.height() {
            contents.push((0, 1, grid.panel_at(x, y + 1)));
        }
        if x + 1 < grid.width() {
            contents.push((1, 0, grid.panel_at(x + 1, y)));
        }
        proof {
            assert(contents@ =~= around(grid@, x as int, y as int));
            lemma_around_rises(grid@, x as int, y as int);
        }
        Neighbourhood { offset_x: x, offset_y: y, contents }
    }

    /// Moves the seed; the offsets stay, so cells may leave the grid.
    pub fn translate_to(&mut self, x: usize, y: usize)
        ensures
            final(self).offset_x == x,
            final(self).offset_y == y,
            final(self).contents == old(self).contents,
    {
        self.offset_x = x;
        self.offset_y = y;
    }

    /// A copy of the region with the seed moved.
    pub fn translated_to(&self, x: usize, y: usize) -> (n: Neighbourhood)
        ensures
            n.offset_x == x,
            n.offset_y == y,
            n.contents@ == self.contents@,
    {
        let mut contents: Vec<(i8, i8, Panel)> = Vec::new();
        let mut i: usize = 0;
        while i < self.contents.len()
            invariant
                i <= self.contents@.len(),
                contents@ == self.contents@.take(i as int),
            decreases self.contents@.len() - i,
        {
            contents.push(self.contents[i]);
            i += 1;
            proof {
                assert(contents@ =~= self.contents@.take(i as int));
            }
        }
        proof {
            assert(self.contents@.take(i as int) =~= self.contents@);
        }
        Neighbourhood { offset_x: x, offset_y: y, contents }
    }

    /// Whether the region holds the cell `(x, y)` of the grid.
    pub fn contains(&self, x: usize, y: usize) -> (r: bool)
        ensures
            r == has_offset(self.contents@, x - self.offset_x, y - self.offset_y),
    {
        let dx: i128 = x as i128 - self.offset_x as i128;
        let dy: i128 = y as i128 - self.offset_y as i128;
        if dx < -128 || dx > 127 || dy < -128 || dy > 127 {
            return false;
        }
        holds(&self.contents, dx as i16, dy as i16)
    }

    /// Whether every cell of the region is a cell of a grid of the given size.
    pub fn inbounds(&self, width: usize, height: usize) -> (r: bool)
        ensures
            r == fits(
                self.contents@,
                Rotation::D0,
                self.offset_x as int,
                self.offset_y as int,
                width as int,
                height as int,
            ),
    {
        all_fit(&self.contents, Rotation::D0, self.offset_x, self.offset_y, width, height)
    }

    /// Whether some turn of the region about its seed puts every cell on a grid of the
    /// given size.
    pub fn inbounds_rotated(&self, width: usize, height: usize) -> (r: bool)
        ensures
            r == exists|rot: Rotation|
                fits(
                    self.contents@,
                    rot,
                    self.offset_x as int,
                    self.offset_y as int,
                    width as int,
                    height as int,
                ),
    {
        let rotations = Rotation::all();
        let mut k: usize = 0;
        while k < 4
            invariant
                k <= 4,
                rotations@ == seq![Rotation::D0, Rotation::D90, Rotation::D180, Rotation::D270],
                forall|j: int|
                    0 <= j < k ==> !fits(
                        self.contents@,
                        #[trigger] rotations@[j],
                        self.offset_x as int,
                        self.offset_y as int,
                        width as int,
                        height as int,
                    ),
            decreases 4 - k,
        {
            if all_fit(&self.contents, rotations[k], self.offset_x, self.offset_y, width, height) {
                return true;
            }
            k += 1;
        }
        proof {
            assert forall|rot: Rotation|
                !fits(
                    self.contents@,
                    rot,
                    self.offset_x as int,
                    self.offset_y as int,
                    width as int,
                    height as int,
                ) by {
                assert(rot == rotations@[0] || rot == rotations@[1] || rot == rotations@[2] || rot
                    == rotations@[3]);
            }
        }
        false
    }

    /// Cuts the region back to what a row-by-row scan that has reached `(upto_x, upto_y)`
    /// knows: the entries of cells after that point leave, but for fixed cells.
    pub fn constrain_to_before(&mut self, upto_x: usize, upto_y: usize)
        ensures
            final(self).offset_x == old(self).offset_x,
            final(self).offset_y == old(self).offset_y,
            final(self).contents@ == old(self).contents@.filter(
                stays_pred(
                    old(self).offset_x as int,
                    old(self).offset_y as int,
                    upto_x as int,
                    upto_y as int,
                ),
            ),
            GridView::strictly_rising(old(self).contents@) ==> GridView::strictly_rising(
                final(self).contents@,
            ),
    {
        proof {
            if GridView::strictly_rising(self.contents@) {
                lemma_filter_keeps_rising(
                    self.contents@,
                    stays_pred(
                        self.offset_x as int,
                        self.offset_y as int,
                        upto_x as int,
                        upto_y as int,
                    ),
                );
            }
        }
        let ghost pred = stays_pred(
            self.offset_x as int,
            self.offset_y as int,
            upto_x as int,
            upto_y as int,
        );
        let mut kept: Vec<(i8, i8, Panel)> = Vec::new();
        let mut i: usize = 0;
        proof {
            reveal(Seq::filter);
            assert(self.contents@.take(0).filter(pred) =~= Seq::empty());
        }
        while i < self.contents.len()
            invariant
                i <= self.contents@.len(),
                pred == stays_pred(
                    self.offset_x as int,
                    self.offset_y as int,
                    upto_x as int,
                    upto_y as int,
                ),
                kept@ == self.contents@.take(i as int).filter(pred),
            decreases self.contents@.len() - i,
        {
            let e = self.contents[i];
            let x = e.0 as i128 + self.offset_x as i128;
            let y = e.1 as i128 + self.offset_y as i128;
            let keep = e.2.fixed || y < upto_y as i128 || (y == upto_y as i128 && x
                <= upto_x as i128);
            proof {
                reveal(Seq::filter);
                let longer = self.contents@.take(i + 1);
                assert(longer.drop_last() =~= self.contents@.take(i as int));
                assert(longer.last() == e);
                assert(keep == pred(e));
            }
            if keep {
                kept.push(e);
            }
            i += 1;
        }
        proof {
            assert(self.contents@.take(i as int) =~= self.contents@);
        }
        self.contents = kept;
    }

    /// Whether the two regions have the same offsets: the same shape with the seed at the
    /// same place in it.
    pub fn same_shape(&self, other: &Neighbourhood) -> (r: bool)
        ensures
            r == self.same_shape_spec(other),
    {
        let r = all_turn_into(&other.contents, Rotation::D0, &self.contents) && all_turn_into(
            &self.contents,
            Rotation::D0,
            &other.contents,
        );
        proof {
            lemma_turned_offsets(self.contents@, other.contents@, Rotation::D0);
            lemma_unturned_offsets(other.contents@);
        }
        r
    }

    /// Whether some turn of `other` about its seed gives the offsets of this region.
    pub fn same_shape_rotated(&self, other: &Neighbourhood) -> (r: bool)
        ensures
            r == self.same_shape_rotated_spec(other),
    {
        let rotations = Rotation::all();
        let mut k: usize = 0;
        while k < 4
            invariant
                k <= 4,
                rotations@ == seq![Rotation::D0, Rotation::D90, Rotation::D180, Rotation::D270],
                forall|j: int|
                    0 <= j < k ==> self.offsets() != turned_offsets_of(
                        other.contents@,
                        #[trigger] rotations@[j],
                    ),
            decreases 4 - k,
        {
            let rot = rotations[k];
            proof {
                lemma_turned_offsets(self.contents@, other.contents@, rot);
            }
            if all_turn_into(&other.contents, rot, &self.contents) && all_turn_into(
                &self.contents,
                rot.inverse(),
                &other.contents,
            ) {
                return true;
            }
            k += 1;
        }
        proof {
            assert forall|rot: Rotation|
                self.offsets() != turned_offsets_of(other.contents@, rot) by {
                assert(rot == rotations@[0] || rot == rotations@[1] || rot == rotations@[2] || rot
                    == rotations@[3]);
            }
        }
        false
    }

    /// How many entries of this region land on an offset of `other` when turned.
    pub fn rotated_overlap(&self, other: &Neighbourhood, rot: Rotation) -> (count: usize)
        ensures
            count == self.contents@.filter(overlaps_pred(other.contents@, rot)).len(),
    {
        let ghost pred = overlaps_pred(other.contents@, rot);
        let mut count: usize = 0;
        let mut i: usize = 0;
        proof {
            reveal(Seq::filter);
            assert(self.contents@.take(0).filter(pred) =~= Seq::empty());
        }
        while i < self.contents.len()
            invariant
                i <= self.contents@.len(),
                pred == overlaps_pred(other.contents@, rot),
                count == self.contents@.take(i as int).filter(pred).len(),
                count <= i,
            decreases self.contents@.len() - i,
        {
            let e = self.contents[i];
            let p = rot.rotate_wide(e.0 as i16, e.1 as i16);
            let hit = holds(&other.contents, p.0, p.1);
            proof {
                reveal(Seq::filter);
                let longer = self.contents@.take(i + 1);
                assert(longer.drop_last() =~= self.contents@.take(i as int));
                assert(longer.last() == e);
                assert(hit == pred(e));
            }
            if hit {
                count += 1;
            }
            i += 1;
        }
        proof {
            assert(self.contents@.take(i as int) =~= self.contents@);
        }
        count
    }

    /// How many entries of this region land on an offset of `other`, both seeds laid on
    /// each other.
    pub fn overlap(&self, other: &Neighbourhood) -> (count: usize)
        ensures
            count == self.contents@.filter(overlaps_pred(other.contents@, Rotation::D0)).len(),
    {
        self.rotated_overlap(other, Rotation::D0)
    }

    /// The box around the seed and the region, relative to the seed, as
    /// `(x_min, y_min, x_max, y_max)`.
    pub fn bounds(&self) -> (b: (i8, i8, i8, i8))
        ensures
            is_min_with_zero(self.contents@, true, b.0 as int),
            is_min_with_zero(self.contents@, false, b.1 as int),
            is_max_with_zero(self.contents@, true, b.2 as int),
            is_max_with_zero(self.contents@, false, b.3 as int),
    {
        let mut x_min: i8 = 0;
        let mut x_max: i8 = 0;
        let mut y_min: i8 = 0;
        let mut y_max: i8 = 0;
        let mut i: usize = 0;
        while i < self.contents.len()
            invariant
                i <= self.contents@.len(),
                is_min_with_zero(self.contents@.take(i as int), true, x_min as int),
                is_min_with_zero(self.contents@.take(i as int), false, y_min as int),
                is_max_with_zero(self.contents@.take(i as int), true, x_max as int),
                is_max_with_zero(self.contents@.take(i as int), false, y_max as int),
            decreases self.contents@.len() - i,
        {
            let e = self.contents[i];
            let ghost shorter = self.contents@.take(i as int);
            let ghost longer = self.contents@.take(i + 1);
            proof {
                assert(longer[i as int] == e);
                assert(forall|k: int| 0 <= k < i ==> #[trigger] longer[k] == shorter[k]);
            }
            let ghost x_min0 = x_min as int;
            let ghost x_max0 = x_max as int;
            let ghost y_min0 = y_min as int;
            let ghost y_max0 = y_max as int;
            if e.0 < x_min {
                x_min = e.0;
            }
            if e.0 > x_max {
                x_max = e.0;
            }
            if e.1 < y_min {
                y_min = e.1;
            }
            if e.1 > y_max {
                y_max = e.1;
            }
            proof {
                lemma_extreme_step(
                    shorter,
                    longer,
                    true,
                    x_min0,
                    x_max0,
                    x_min as int,
                    x_max as int,
                );
                lemma_extreme_step(
                    shorter,
                    longer,
                    false,
                    y_min0,
                    y_max0,
                    y_min as int,
                    y_max as int,
                );
            }
            i += 1;
        }
        proof {
            assert(self.contents@.take(i as int) =~= self.contents@);
        }
        (x_min, y_min, x_max, y_max)
    }

    /// A cursor over the cells of the region in grid coordinates.
    pub fn grid_iter(&self) -> (it: NeighbourhoodGridIter<'_>)
        requires
            self.placeable(),
        ensures
            it.wf(),
            it.remaining() == self.grid_cells(),
    {
        let it = NeighbourhoodGridIter { neighbourhood: self, idx: 0 };
        proof {
            assert(self.grid_cells().skip(0) =~= self.grid_cells());
        }
        it
    }
}

/// One more entry keeps a least and a greatest value that were updated for it.
proof fn lemma_extreme_step(
    shorter: Seq<(i8, i8, Panel)>,
    longer: Seq<(i8, i8, Panel)>,
    horizontal: bool,
    low0: int,
    high0: int,
    low: int,
    high: int,
)
    requires
        longer.len() == shorter.len() + 1,
        forall|k: int| 0 <= k < shorter.len() ==> #[trigger] longer[k] == shorter[k],
        is_min_with_zero(shorter, horizontal, low0),
        is_max_with_zero(shorter, horizontal, high0),
        low == (if coordinate(longer[shorter.len() as int], horizontal) < low0 {
            coordinate(longer[shorter.len() as int], horizontal)
        } else {
            low0
        }),
        high == (if coordinate(longer[shorter.len() as int], horizontal) > high0 {
            coordinate(longer[shorter.len() as int], horizontal)
        } else {
            high0
        }),
    ensures
        is_min_with_zero(longer, horizontal, low),
        is_max_with_zero(longer, horizontal, high),
{
    let n = shorter.len() as int;
    let v = coordinate(longer[n], horizontal);
    assert forall|i: int| 0 <= i < longer.len() implies low <= coordinate(
        #[trigger] longer[i],
        horizontal,
    ) && high >= coordinate(longer[i], horizontal) by {
        if i < n {
            assert(longer[i] == shorter[i]);
        }
    }
    if low != 0 {
        if v < low0 {
            assert(coordinate(longer[n], horizontal) == low);
        } else {
            let i = choose|i: int| 0 <= i < n && coordinate(#[trigger] shorter[i], horizontal) == low0;
            assert(longer[i] == shorter[i]);
        }
    }
    if high != 0 {
        if v > high0 {
            assert(coordinate(longer[n], horizontal) == high);
        } else {
            let i = choose|i: int|
                0 <= i < n && coordinate(#[trigger] shorter[i], horizontal) == high0;
            assert(longer[i] == shorter[i]);
        }
    }
}

/// A cursor over the cells of a region, in grid coordinates.
pub struct NeighbourhoodGridIter<'a> {
    neighbourhood: &'a Neighbourhood,
    idx: usize,
}

impl<'a> NeighbourhoodGridIter<'a> {
    /// The cursor stands within its region, and every cell of the region can be named.
    pub closed spec fn wf(&self) -> bool {
        self.idx <= self.neighbourhood.contents@.len() && self.neighbourhood.placeable()
    }

    /// The cells that the cursor has yet to hand out.
    pub closed spec fn remaining(&self) -> Seq<(usize, usize, Panel)> {
        self.neighbourhood.grid_cells().skip(self.idx as int)
    }

    /// Hands out the next cell with its panel, or `None` at the end.
    pub fn next(&mut self) -> (r: Option<(usize, usize, Panel)>)
        requires
            old(self).wf(),
        ensures
            final(self).wf(),
            match r {
                Some(cell) => old(self).remaining().len() > 0 && cell == old(self).remaining()[0]
                    && final(self).remaining() == old(self).remaining().drop_first(),
                None => old(self).remaining().len() == 0 && final(self).remaining() == old(
                    self,
                ).remaining(),
            },
    {
        if self.idx >= self.neighbourhood.contents.len() {
            None
        } else {
            let e = self.neighbourhood.contents[self.idx];
            let x = (self.neighbourhood.offset_x as i128 + e.0 as i128) as usize;
            let y = (self.neighbourhood.offset_y as i128 + e.1 as i128) as usize;
            proof {
                assert(self.neighbourhood.grid_cells().skip(self.idx as int).drop_first()
                    =~= self.neighbourhood.grid_cells().skip(self.idx + 1));
            }
            self.idx += 1;
            Some((x, y, e.2))
        }
    }
}

} // verus!
