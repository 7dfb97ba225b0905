//! Core math types for hex casting: directions, angles, coordinates, patterns.

use vstd::prelude::*;
use crate::text::str_eq;

verus! {

/// The six directions of the hex grid.
#[derive(Debug, Clone, Copy, PartialEq, Eq, Hash, Structural)]
pub enum HexDir {
    NorthEast,
    East,
    SouthEast,
    SouthWest,
    West,
    NorthWest,
}

impl HexDir {
    /// Position of the direction in clockwise order, starting at north-east.
    pub open spec fn idx(self) -> int {
        match self {
            HexDir::NorthEast => 0,
            HexDir::East => 1,
            HexDir::SouthEast => 2,
            HexDir::SouthWest => 3,
            HexDir::West => 4,
            HexDir::NorthWest => 5,
        }
    }

    /// The direction at a position of the clockwise order, taken modulo six.
    pub open spec fn at(i: int) -> HexDir {
        let k = i % 6;
        if k == 0 {
            HexDir::NorthEast
        } else if k == 1 {
            HexDir::East
        } else if k == 2 {
            HexDir::SouthEast
        } else if k == 3 {
            HexDir::SouthWest
        } else if k == 4 {
            HexDir::West
        } else {
            HexDir::NorthWest
        }
    }

    pub fn ordinal(&self) -> (r: u8)
        ensures
            r == self.idx(),
    {
        match self {
            HexDir::NorthEast => 0,
            HexDir::East => 1,
            HexDir::SouthEast => 2,
            HexDir::SouthWest => 3,
            HexDir::West => 4,
            HexDir::NorthWest => 5,
        }
    }

    pub fn from_ordinal(ord: u8) -> (r: Self)
        ensures
            r == HexDir::at(ord as int),
            r.idx() == ord % 6,
    {
        match ord % 6 {
            0 => HexDir::NorthEast,
            1 => HexDir::East,
            2 => HexDir::SouthEast,
            3 => HexDir::SouthWest,
            4 => HexDir::West,
            _ => HexDir::NorthWest,
        }
    }
}


impl HexDir {
    /// Rotate this direction by an angle: the result lies `angle` sixths of a
    /// turn clockwise from `self`.
    pub fn rotated_by(self, angle: HexAngle) -> (r: Self)
        ensures
            r.idx() == (self.idx() + angle.idx()) % 6,
            r == HexDir::at(self.idx() + angle.idx()),
    {
        let ord = self.ordinal();
        let ang = angle.ordinal();
        HexDir::from_ordinal((ord + ang) % 6)
    }

    /// Get the angle from another direction to this one.
    pub fn angle_from(self, other: Self) -> (r: HexAngle)
        ensures
            r.idx() == (self.idx() - other.idx()) % 6,
            r == HexAngle::at(self.idx() - other.idx()),
    {
        let diff: u8 = (self.ordinal() + 6 - other.ordinal()) % 6;
        HexAngle::from_ordinal(diff)
    }

    /// Convert to a coordinate delta.
    pub fn as_delta(self) -> (r: HexCoord)
        ensures
            r == self.delta(),
    {
        match self {
            HexDir::NorthEast => HexCoord(1, -1),
            HexDir::East => HexCoord(1, 0),
            HexDir::SouthEast => HexCoord(0, 1),
            HexDir::SouthWest => HexCoord(-1, 1),
            HexDir::West => HexCoord(-1, 0),
            HexDir::NorthWest => HexCoord(0, -1),
        }
    }

    /// The axial coordinate step that moving in this direction makes.
    pub open spec fn delta(self) -> HexCoord {
        match self {
            HexDir::NorthEast => HexCoord(1i32, -1i32),
            HexDir::East => HexCoord(1i32, 0i32),
            HexDir::SouthEast => HexCoord(0i32, 1i32),
            HexDir::SouthWest => HexCoord(-1i32, 1i32),
            HexDir::West => HexCoord(-1i32, 0i32),
            HexDir::NorthWest => HexCoord(0i32, -1i32),
        }
    }
}

/// The six angles between two directions, in sixths of a clockwise turn.
#[derive(Debug, Clone, Copy, PartialEq, Eq, Hash, Structural)]
pub enum HexAngle {
    Zero,
    Sixty,
    OneTwenty,
    OneEighty,
    TwoForty,
    ThreeHundred,
}

impl HexAngle {
    /// Number of sixths of a clockwise turn.
    pub open spec fn idx(self) -> int {
        match self {
            HexAngle::Zero => 0,
            HexAngle::Sixty => 1,
            HexAngle::OneTwenty => 2,
            HexAngle::OneEighty => 3,
            HexAngle::TwoForty => 4,
            HexAngle::ThreeHundred => 5,
        }
    }

    /// The angle of `i` sixths of a turn, taken modulo six.
    pub open spec fn at(i: int) -> HexAngle {
        let k = i % 6;
        if k == 0 {
            HexAngle::Zero
        } else if k == 1 {
            HexAngle::Sixty
        } else if k == 2 {
            HexAngle::OneTwenty
        } else if k == 3 {
            HexAngle::OneEighty
        } else if k == 4 {
            HexAngle::TwoForty
        } else {
            HexAngle::ThreeHundred
        }
    }

    pub fn ordinal(&self) -> (r: u8)
        ensures
            r == self.idx(),
    {
        match self {
            HexAngle::Zero => 0,
            HexAngle::Sixty => 1,
            HexAngle::OneTwenty => 2,
            HexAngle::OneEighty => 3,
            HexAngle::TwoForty => 4,
            HexAngle::ThreeHundred => 5,
        }
    }

    pub fn from_ordinal(ord: u8) -> (r: Self)
        ensures
            r == HexAngle::at(ord as int),
            r.idx() == ord % 6,
    {
        match ord % 6 {
            0 => HexAngle::Zero,
            1 => HexAngle::Sixty,
            2 => HexAngle::OneTwenty,
            3 => HexAngle::OneEighty,
            4 => HexAngle::TwoForty,
            _ => HexAngle::ThreeHundred,
        }
    }
}

/// A coordinate on the hex grid, using axial coordinates.
#[derive(Debug, Clone, Copy, PartialEq, Eq, Hash, Structural)]
pub struct HexCoord(pub i32, pub i32);

impl Default for HexCoord {
    fn default() -> (r: Self)
        ensures
            r == HexCoord(0, 0),
    {
        HexCoord(0, 0)
    }
}

/// Whether adding the two coordinates componentwise stays within `i32`.
pub open spec fn sum_fits(a: HexCoord, b: HexCoord) -> bool {
    &&& i32::MIN <= a.0 + b.0 <= i32::MAX
    &&& i32::MIN <= a.1 + b.1 <= i32::MAX
}

/// Whether subtracting the two coordinates componentwise stays within `i32`.
pub open spec fn difference_fits(a: HexCoord, b: HexCoord) -> bool {
    &&& i32::MIN <= a.0 - b.0 <= i32::MAX
    &&& i32::MIN <= a.1 - b.1 <= i32::MAX
}

/// Componentwise sum (only meaningful where `sum_fits`).
pub open spec fn coord_sum(a: HexCoord, b: HexCoord) -> HexCoord {
    HexCoord((a.0 + b.0) as i32, (a.1 + b.1) as i32)
}

impl HexCoord {
    pub fn new(q: i32, r: i32) -> (c: Self)
        ensures
            c == HexCoord(q, r),
    {
        HexCoord(q, r)
    }

    pub fn add(self, other: Self) -> (c: Self)
        requires
            sum_fits(self, other),
        ensures
            c.0 == self.0 + other.0,
            c.1 == self.1 + other.1,
    {
        HexCoord(self.0 + other.0, self.1 + other.1)
    }

    pub fn sub(self, other: Self) -> (c: Self)
        requires
            difference_fits(self, other),
        ensures
            c.0 == self.0 - other.0,
            c.1 == self.1 - other.1,
    {
        HexCoord(self.0 - other.0, self.1 - other.1)
    }

    /// Whether all six neighbours of the coordinate are representable.
    pub open spec fn has_neighbors(self) -> bool {
        &&& i32::MIN < self.0 < i32::MAX
        &&& i32::MIN < self.1 < i32::MAX
    }

    /// Get the six neighbors of this coordinate, in the clockwise order of
    /// the directions that lead to them, starting at north-east.
    pub fn neighbors(self) -> (r: [HexCoord; 6])
        requires
            self.has_neighbors(),
        ensures
            forall|i: int| 0 <= i < 6 ==> #[trigger] r@[i] == coord_sum(self, HexDir::at(i).delta()),
    {
        let r = [
            self.add(HexDir::NorthEast.as_delta()),
            self.add(HexDir::East.as_delta()),
            self.add(HexDir::SouthEast.as_delta()),
            self.add(HexDir::SouthWest.as_delta()),
            self.add(HexDir::West.as_delta()),
            self.add(HexDir::NorthWest.as_delta()),
        ];
        assert forall|i: int| 0 <= i < 6 implies #[trigger] r@[i] == coord_sum(self, HexDir::at(i).delta()) by {
            if i == 0 {} else if i == 1 {} else if i == 2 {} else if i == 3 {} else if i == 4 {} else {}
        }
        r
    }
}


/// A hex pattern: a sequence of directions drawn on the hex grid.
#[derive(Debug, PartialEq, Eq, Hash)]
pub struct HexPattern {
    pub start: HexDir,
    pub steps: Vec<HexDir>,
}

impl Clone for HexPattern {
    /// A copy of the pattern, with the same directions.
    fn clone(&self) -> (r: Self)
        ensures
            r.start == self.start,
            r.steps@ == self.steps@,
    {
        let mut steps: Vec<HexDir> = Vec::new();
        let mut i: usize = 0;
        while i < self.steps.len()
            invariant
                i <= self.steps@.len(),
                steps@ == self.steps@.take(i as int),
            decreases self.steps@.len() - i,
        {
            steps.push(self.steps[i]);
            i = i + 1;
            assert(steps@ =~= self.steps@.take(i as int));
        }
        assert(self.steps@.take(i as int) =~= self.steps@);
        HexPattern { start: self.start, steps }
    }
}

/// The code letter of a direction in the compact pattern form.
pub open spec fn dir_letter(d: HexDir) -> char {
    match d {
        HexDir::NorthEast => 'A',
        HexDir::East => 'B',
        HexDir::SouthEast => 'C',
        HexDir::SouthWest => 'D',
        HexDir::West => 'E',
        HexDir::NorthWest => 'F',
    }
}

/// The direction that a code letter stands for, if it is one.
pub open spec fn letter_dir(c: char) -> Option<HexDir> {
    if c == 'A' {
        Some(HexDir::NorthEast)
    } else if c == 'B' {
        Some(HexDir::East)
    } else if c == 'C' {
        Some(HexDir::SouthEast)
    } else if c == 'D' {
        Some(HexDir::SouthWest)
    } else if c == 'E' {
        Some(HexDir::West)
    } else if c == 'F' {
        Some(HexDir::NorthWest)
    } else {
        None
    }
}

/// The directions of the code letters in `s`, other characters skipped.
pub open spec fn letters_dirs(s: Seq<char>) -> Seq<HexDir>
    decreases s.len(),
{
    if s.len() == 0 {
        Seq::empty()
    } else {
        let rest = letters_dirs(s.drop_last());
        match letter_dir(s.last()) {
            Some(d) => rest.push(d),
            None => rest,
        }
    }
}

/// The compact form of a direction sequence: one code letter per direction.
pub open spec fn dirs_letters(ds: Seq<HexDir>) -> Seq<char> {
    ds.map_values(|d: HexDir| dir_letter(d))
}

/// What `HexPattern::from_serialized` gives for a string with these characters.
pub open spec fn parse_pattern_chars(s: Seq<char>) -> Option<(HexDir, Seq<HexDir>)> {
    if s.len() == 0 {
        None
    } else {
        match letter_dir(s[0]) {
            Some(start) => Some((start, letters_dirs(s.skip(1)))),
            None => None,
        }
    }
}

/// Axial `q` of the end point of the path drawn by `ds` from the origin.
pub open spec fn walk_q(ds: Seq<HexDir>) -> int
    decreases ds.len(),
{
    if ds.len() == 0 {
        0
    } else {
        walk_q(ds.drop_last()) + ds.last().delta().0
    }
}

/// Axial `r` of the end point of the path drawn by `ds` from the origin.
pub open spec fn walk_r(ds: Seq<HexDir>) -> int
    decreases ds.len(),
{
    if ds.len() == 0 {
        0
    } else {
        walk_r(ds.drop_last()) + ds.last().delta().1
    }
}

/// Sum of the `q` of every vertex that the path `ds` reaches after a segment.
pub open spec fn tour_q(ds: Seq<HexDir>) -> int
    decreases ds.len(),
{
    if ds.len() == 0 {
        0
    } else {
        tour_q(ds.drop_last()) + walk_q(ds)
    }
}

/// Sum of the `r` of every vertex that the path `ds` reaches after a segment.
pub open spec fn tour_r(ds: Seq<HexDir>) -> int
    decreases ds.len(),
{
    if ds.len() == 0 {
        0
    } else {
        tour_r(ds.drop_last()) + walk_r(ds)
    }
}

/// Whether an integer fits in `i32`.
pub open spec fn fits_i32(x: int) -> bool {
    i32::MIN <= x <= i32::MAX
}

/// Integer division rounding toward zero, as Rust's `/` on integers does.
pub open spec fn trunc_div(a: int, b: int) -> int
    recommends
        b > 0,
{
    if a >= 0 {
        a / b
    } else {
        -((-a) / b)
    }
}

impl HexPattern {
    /// The directions of the pattern in drawing order, the start first.
    pub open spec fn dirs(self) -> Seq<HexDir> {
        seq![self.start].add(self.steps@)
    }

    /// Whether every running position and running sum of positions of the
    /// traced path fits in `i32`, and so does the number of vertices.
    pub open spec fn centroid_fits(self) -> bool {
        &&& self.steps@.len() < i32::MAX
        &&& forall|k: int|
            1 <= k <= self.dirs().len() ==> {
                &&& fits_i32(walk_q(#[trigger] self.dirs().take(k)))
                &&& fits_i32(walk_r(self.dirs().take(k)))
                &&& fits_i32(tour_q(self.dirs().take(k)))
                &&& fits_i32(tour_r(self.dirs().take(k)))
            }
    }

    pub fn new(start: HexDir, steps: Vec<HexDir>) -> (p: Self)
        ensures
            p.start == start,
            p.steps@ == steps@,
    {
        HexPattern { start, steps: steps }
    }

    /// Create a pattern from a list of directions (first is start, rest are steps).
    pub fn from_list(dirs: Vec<HexDir>) -> (p: Self)
        ensures
            dirs@.len() == 0 ==> p.start == HexDir::NorthEast && p.steps@ == Seq::<HexDir>::empty(),
            dirs@.len() > 0 ==> p.dirs() == dirs@,
    {
        if dirs.len() == 0 {
            HexPattern { start: HexDir::NorthEast, steps: Vec::new() }
        } else {
            let start = dirs[0];
            let mut steps: Vec<HexDir> = Vec::new();
            let mut i: usize = 1;
            while i < dirs.len()
                invariant
                    1 <= i <= dirs@.len(),
                    steps@ == dirs@.subrange(1, i as int),
                decreases dirs@.len() - i,
            {
                steps.push(dirs[i]);
                i = i + 1;
            }
            let p = HexPattern { start, steps };
            assert(p.dirs() =~= dirs@);
            p
        }
    }

    /// Get all directions in order, including start.
    pub fn all_dirs(&self) -> (r: Vec<HexDir>)
        ensures
            r@ == self.dirs(),
    {
        let mut dirs: Vec<HexDir> = Vec::new();
        dirs.push(self.start);
        let mut i: usize = 0;
        while i < self.steps.len()
            invariant
                i <= self.steps@.len(),
                dirs@ == seq![self.start].add(self.steps@.take(i as int)),
            decreases self.steps@.len() - i,
        {
            dirs.push(self.steps[i]);
            i = i + 1;
            assert(dirs@ =~= seq![self.start].add(self.steps@.take(i as int)));
        }
        assert(self.steps@.take(i as int) =~= self.steps@);
        dirs
    }

    /// Compute the centroid of this pattern (approximate): the mean, rounded
    /// toward zero, of the vertices that the path reaches after each segment
    /// when it is drawn from the origin.
    pub fn centroid(&self) -> (c: HexCoord)
        requires
            self.centroid_fits(),
        ensures
            c.0 == trunc_div(tour_q(self.dirs()), self.dirs().len() as int),
            c.1 == trunc_div(tour_r(self.dirs()), self.dirs().len() as int),
    {
        let ghost ds = self.dirs();
        assert(ds.take(1) =~= seq![self.start]);
        assert(ds.take(1).drop_last() =~= Seq::<HexDir>::empty());
        assert(ds.take(1).last() == self.start);
        assert(walk_q(ds.take(1).drop_last()) == 0);
        assert(walk_r(ds.take(1).drop_last()) == 0);
        assert(tour_q(ds.take(1).drop_last()) == 0);
        assert(tour_r(ds.take(1).drop_last()) == 0);
        assert(walk_q(ds.take(1)) == self.start.delta().0);
        assert(walk_r(ds.take(1)) == self.start.delta().1);
        assert(tour_q(ds.take(1)) == self.start.delta().0);
        assert(tour_r(ds.take(1)) == self.start.delta().1);
        let mut pos = self.start.as_delta();
        let mut sum = pos;
        let mut i: usize = 0;
        while i < self.steps.len()
            invariant
                self.centroid_fits(),
                ds == self.dirs(),
                i <= self.steps@.len(),
                pos.0 == walk_q(ds.take(i + 1)),
                pos.1 == walk_r(ds.take(i + 1)),
                sum.0 == tour_q(ds.take(i + 1)),
                sum.1 == tour_r(ds.take(i + 1)),
            decreases self.steps@.len() - i,
        {
            let ghost k = i + 2;
            assert(ds.take(k).drop_last() =~= ds.take(i + 1));
            assert(ds.take(k).last() == self.steps@[i as int]);
            assert(fits_i32(walk_q(ds.take(k))));
            pos = pos.add(self.steps[i].as_delta());
            sum = sum.add(pos);
            i = i + 1;
        }
        assert(ds.take(i + 1) =~= ds);
        let count: i64 = (self.steps.len() + 1) as i64;
        let q = trunc_div_i64(sum.0 as i64, count);
        let r = trunc_div_i64(sum.1 as i64, count);
        HexCoord(q as i32, r as i32)
    }

    /// Check if this pattern is valid: the path it traces from the origin
    /// visits no vertex twice, except that a closed pattern may end where it
    /// started.
    pub fn is_valid(&self) -> (b: bool)
        ensures
            b == no_repeated_vertex(self.dirs()),
    {
        let ghost ds = self.dirs();
        let mut verts: Vec<(i128, i128)> = Vec::new();
        verts.push((0, 0));
        let d0 = self.start.as_delta();
        let mut q: i128 = d0.0 as i128;
        let mut r: i128 = d0.1 as i128;
        verts.push((q, r));
        proof {
            assert(ds.take(0) =~= Seq::<HexDir>::empty());
            assert(ds.take(1).drop_last() =~= Seq::<HexDir>::empty());
            assert(ds.take(1).last() == self.start);
            assert(vertex(ds, 0) == (0int, 0int));
            assert(vertex(ds, 1) == (self.start.delta().0 as int, self.start.delta().1 as int));
            assert(verts@[0].0 == vertex(ds, 0).0 && verts@[0].1 == vertex(ds, 0).1);
            assert(verts@[1].0 == vertex(ds, 1).0 && verts@[1].1 == vertex(ds, 1).1);
            lemma_delta_unit(self.start);
        }
        let mut t: usize = 0;
        while t < self.steps.len()
            invariant
                ds == self.dirs(),
                t <= self.steps@.len(),
                verts@.len() == t + 2,
                q == verts@[t + 1].0,
                r == verts@[t + 1].1,
                -(t + 1) <= q <= t + 1,
                -(t + 1) <= r <= t + 1,
                forall|k: int| 0 <= k < verts@.len() ==> #[trigger] verts@[k].0 == vertex(ds, k).0
                    && verts@[k].1 == vertex(ds, k).1,
            decreases self.steps@.len() - t,
        {
            let d = self.steps[t].as_delta();
            proof {
                lemma_delta_unit(self.steps@[t as int]);
                let k = t + 2;
                assert(ds.take(k).drop_last() =~= ds.take(k - 1));
                assert(ds.take(k).last() == self.steps@[t as int]);
            }
            q = q + d.0 as i128;
            r = r + d.1 as i128;
            let ghost before = verts@;
            verts.push((q, r));
            proof {
                let k = t + 2;
                assert(vertex(ds, k) == (vertex(ds, k - 1).0 + d.0, vertex(ds, k - 1).1 + d.1));
                assert forall|m: int| 0 <= m < verts@.len() implies #[trigger] verts@[m].0 == vertex(ds, m).0
                    && verts@[m].1 == vertex(ds, m).1 by {
                    if m < k {
                        assert(verts@[m] == before[m]);
                        assert(before[m].0 == vertex(ds, m).0);
                    }
                }
            }
            t = t + 1;
        }
        assert(verts@.len() == ds.len() + 1);
        let b = no_repeat(&verts);
        proof {
            assert forall|i: int, j: int| 0 <= i < j <= ds.len() implies #[trigger] vertex_ok(ds, i, j)
                == pair_ok(verts@, i, j) by {
                assert(verts@[i].0 == vertex(ds, i).0 && verts@[i].1 == vertex(ds, i).1);
                assert(verts@[j].0 == vertex(ds, j).0 && verts@[j].1 == vertex(ds, j).1);
            }
            if b {
                assert forall|i: int, j: int| 0 <= i < j <= ds.len() implies #[trigger] vertex_ok(ds, i, j) by {
                    assert(pair_ok(verts@, i, j));
                }
            } else {
                let (i, j) = choose|i: int, j: int| 0 <= i < j < verts@.len() && !#[trigger] pair_ok(verts@, i, j);
                assert(!vertex_ok(ds, i, j));
            }
        }
        b
    }
}

/// Whether entries `a` and `c` of a vertex list may coexist: they differ, or
/// they are its first and last entry.
pub open spec fn pair_ok(v: Seq<(i128, i128)>, a: int, c: int) -> bool {
    v[a] != v[c] || (a == 0 && c == v.len() - 1)
}

/// Whether no two entries of a vertex list are equal, except its first and
/// last.
fn no_repeat(v: &Vec<(i128, i128)>) -> (b: bool)
    ensures
        b == (forall|a: int, c: int| 0 <= a < c < v@.len() ==> #[trigger] pair_ok(v@, a, c)),
{
    let n = v.len();
    let mut j: usize = 1;
    while j < n
        invariant
            n == v@.len(),
            1 <= j,
            j <= n || n == 0,
            forall|a: int, c: int| 0 <= a < c < j && c < n ==> #[trigger] pair_ok(v@, a, c),
        decreases n - j,
    {
        let mut i: usize = 0;
        while i < j
            invariant
                n == v@.len(),
                1 <= j < n,
                i <= j,
                forall|a: int, c: int| 0 <= a < c < j ==> #[trigger] pair_ok(v@, a, c),
                forall|a: int| 0 <= a < i ==> #[trigger] pair_ok(v@, a, j as int),
            decreases j - i,
        {
            let vi = v[i];
            let vj = v[j];
            if vi.0 == vj.0 && vi.1 == vj.1 && !(i == 0 && j == n - 1) {
                assert(!pair_ok(v@, i as int, j as int));
                return false;
            }
            i = i + 1;
        }
        assert forall|a: int, c: int| 0 <= a < c < j + 1 implies #[trigger] pair_ok(v@, a, c) by {
            if c < j {
            } else {
                assert(c == j);
            }
        }
        j = j + 1;
    }
    true
}

/// The vertex that the path `ds` reaches after its first `k` segments,
/// starting from the origin.
pub open spec fn vertex(ds: Seq<HexDir>, k: int) -> (int, int) {
    (walk_q(ds.take(k)), walk_r(ds.take(k)))
}

/// Whether vertices `i` and `j` of the path `ds` may coexist: they differ,
/// or they are the first and last vertex of a closed path.
pub open spec fn vertex_ok(ds: Seq<HexDir>, i: int, j: int) -> bool {
    vertex(ds, i) != vertex(ds, j) || (i == 0 && j == ds.len())
}

/// Whether the path `ds` traced from the origin visits no vertex twice,
/// except that its end may be its start.
pub open spec fn no_repeated_vertex(ds: Seq<HexDir>) -> bool {
    forall|i: int, j: int| 0 <= i < j <= ds.len() ==> #[trigger] vertex_ok(ds, i, j)
}

/// Each component of a direction's step is -1, 0 or 1.
proof fn lemma_delta_unit(d: HexDir)
    ensures
        -1 <= d.delta().0 <= 1,
        -1 <= d.delta().1 <= 1,
{
}

impl HexPattern {
    /// Serialize the pattern to a compact string form using single-letter
    /// direction codes (`A` north-east, clockwise to `F` north-west).
    pub fn serialized_form(&self) -> (s: String)
        ensures
            s@ == dirs_letters(self.dirs()),
    {
        let mut s = String::new();
        s.append(letter_str(self.start));
        let mut i: usize = 0;
        while i < self.steps.len()
            invariant
                i <= self.steps@.len(),
                s@ == dirs_letters(seq![self.start].add(self.steps@.take(i as int))),
            decreases self.steps@.len() - i,
        {
            s.append(letter_str(self.steps[i]));
            i = i + 1;
            assert(seq![self.start].add(self.steps@.take(i as int)) =~= seq![self.start].add(
                self.steps@.take(i - 1),
            ).push(self.steps@[i - 1]));
        }
        assert(self.steps@.take(i as int) =~= self.steps@);
        s
    }

    /// Deserialize a pattern from its compact string form. The first
    /// character must be a code letter; later characters that are not code
    /// letters are skipped.
    pub fn from_serialized(s: &str) -> (r: Option<Self>)
        ensures
            r.is_none() == parse_pattern_chars(s@).is_none(),
            r matches Some(p) ==> (p.start, p.steps@) == parse_pattern_chars(s@).unwrap(),
    {
        let n = s.unicode_len();
        if n == 0 {
            return None;
        }
        let start = match letter_to_dir(s.get_char(0)) {
            Some(d) => d,
            None => return None,
        };
        let mut steps: Vec<HexDir> = Vec::new();
        let mut i: usize = 1;
        assert(s@.subrange(1, 1) =~= Seq::<char>::empty());
        while i < n
            invariant
                n == s@.len(),
                1 <= i <= n,
                steps@ == letters_dirs(s@.subrange(1, i as int)),
            decreases n - i,
        {
            let c = s.get_char(i);
            assert(s@.subrange(1, i + 1).drop_last() =~= s@.subrange(1, i as int));
            match letter_to_dir(c) {
                Some(d) => steps.push(d),
                None => {},
            }
            i = i + 1;
        }
        assert(s@.subrange(1, n as int) =~= s@.skip(1));
        Some(HexPattern { start, steps })
    }
}

/// The one-letter string that codes a direction.
fn letter_str(d: HexDir) -> (s: &'static str)
    ensures
        s@ == seq![dir_letter(d)],
{
    match d {
        HexDir::NorthEast => {
            proof {
                reveal_strlit("A");
            }
            "A"
        },
        HexDir::East => {
            proof {
                reveal_strlit("B");
            }
            "B"
        },
        HexDir::SouthEast => {
            proof {
                reveal_strlit("C");
            }
            "C"
        },
        HexDir::SouthWest => {
            proof {
                reveal_strlit("D");
            }
            "D"
        },
        HexDir::West => {
            proof {
                reveal_strlit("E");
            }
            "E"
        },
        HexDir::NorthWest => {
            proof {
                reveal_strlit("F");
            }
            "F"
        },
    }
}

/// The direction that a code letter stands for.
fn letter_to_dir(c: char) -> (r: Option<HexDir>)
    ensures
        r == letter_dir(c),
{
    if c == 'A' {
        Some(HexDir::NorthEast)
    } else if c == 'B' {
        Some(HexDir::East)
    } else if c == 'C' {
        Some(HexDir::SouthEast)
    } else if c == 'D' {
        Some(HexDir::SouthWest)
    } else if c == 'E' {
        Some(HexDir::West)
    } else if c == 'F' {
        Some(HexDir::NorthWest)
    } else {
        None
    }
}

/// The direction named by an upper-case name: the full name
/// (`NORTH_EAST`, ...) or its initials (`NE`, ...).
pub open spec fn dir_of_name(name: Seq<char>) -> Option<HexDir> {
    if name == "NORTH_EAST"@ || name == "NE"@ {
        Some(HexDir::NorthEast)
    } else if name == "EAST"@ || name == "E"@ {
        Some(HexDir::East)
    } else if name == "SOUTH_EAST"@ || name == "SE"@ {
        Some(HexDir::SouthEast)
    } else if name == "SOUTH_WEST"@ || name == "SW"@ {
        Some(HexDir::SouthWest)
    } else if name == "WEST"@ || name == "W"@ {
        Some(HexDir::West)
    } else if name == "NORTH_WEST"@ || name == "NW"@ {
        Some(HexDir::NorthWest)
    } else {
        None
    }
}

/// What `str::to_uppercase` gives for a string with these characters.
pub uninterp spec fn unicode_uppercase(s: Seq<char>) -> Seq<char>;

/// Whether every character is ASCII.
pub open spec fn all_ascii(s: Seq<char>) -> bool {
    forall|i: int| 0 <= i < s.len() ==> (#[trigger] s[i] as u32) < 128
}

/// The upper-case form of an ASCII character: `a` to `z` become `A` to `Z`,
/// every other character stays.
pub open spec fn ascii_upper(c: char) -> char {
    if 'a' <= c && c <= 'z' {
        ((c as u32) - 32) as char
    } else {
        c
    }
}

/// The ASCII upper-case form of a string, character by character.
pub open spec fn ascii_uppercase(s: Seq<char>) -> Seq<char> {
    s.map_values(|c: char| ascii_upper(c))
}

/// Calls `str::to_uppercase`, which maps every character to its Unicode
/// upper-case form. The contract names the result and states what the
/// standard library documents for ASCII text: its letters `a` to `z` become
/// `A` to `Z` and its other characters stay. What the mapping does to other
/// characters is left to the standard library.
#[verifier::external_body]
fn to_uppercase(s: &str) -> (r: String)
    ensures
        r@ == unicode_uppercase(s@),
        all_ascii(s@) ==> r@ == ascii_uppercase(s@),
{
    s.to_uppercase()
}

impl HexDir {
    /// The direction named by an already upper-cased name.
    pub fn from_upper_name(name: &str) -> (r: Option<Self>)
        ensures
            r == dir_of_name(name@),
    {
        if str_eq(name, "NORTH_EAST") || str_eq(name, "NE") {
            Some(HexDir::NorthEast)
        } else if str_eq(name, "EAST") || str_eq(name, "E") {
            Some(HexDir::East)
        } else if str_eq(name, "SOUTH_EAST") || str_eq(name, "SE") {
            Some(HexDir::SouthEast)
        } else if str_eq(name, "SOUTH_WEST") || str_eq(name, "SW") {
            Some(HexDir::SouthWest)
        } else if str_eq(name, "WEST") || str_eq(name, "W") {
            Some(HexDir::West)
        } else if str_eq(name, "NORTH_WEST") || str_eq(name, "NW") {
            Some(HexDir::NorthWest)
        } else {
            None
        }
    }

    /// The direction named by `s` in any letter case.
    pub fn from_string(s: &str) -> (r: Option<Self>)
        ensures
            r == dir_of_name(unicode_uppercase(s@)),
            all_ascii(s@) ==> r == dir_of_name(ascii_uppercase(s@)),
    {
        let upper = to_uppercase(s);
        HexDir::from_upper_name(upper.as_str())
    }

    /// The upper-case name of the direction.
    pub fn display_string(&self) -> (s: String)
        ensures
            s@ == self.name(),
    {
        match self {
            HexDir::NorthEast => String::from_str("NORTH_EAST"),
            HexDir::East => String::from_str("EAST"),
            HexDir::SouthEast => String::from_str("SOUTH_EAST"),
            HexDir::SouthWest => String::from_str("SOUTH_WEST"),
            HexDir::West => String::from_str("WEST"),
            HexDir::NorthWest => String::from_str("NORTH_WEST"),
        }
    }

    /// The full upper-case name of the direction.
    pub open spec fn name(self) -> Seq<char> {
        match self {
            HexDir::NorthEast => "NORTH_EAST"@,
            HexDir::East => "EAST"@,
            HexDir::SouthEast => "SOUTH_EAST"@,
            HexDir::SouthWest => "SOUTH_WEST"@,
            HexDir::West => "WEST"@,
            HexDir::NorthWest => "NORTH_WEST"@,
        }
    }
}

/// How far a traced pattern has got.
#[derive(Debug, Clone, Copy, PartialEq, Eq, Structural)]
pub enum PatternStatus {
    /// The pattern is incomplete (traced via Iota).
    Incomplete,
    /// The pattern is valid but not closed.
    Open,
    /// The pattern is closed and valid.
    Closed,
    /// The pattern is invalid (e.g., self-intersecting).
    Invalid,
}

/// The two-letter or one-letter initials of a direction.
pub open spec fn initials(d: HexDir) -> Seq<char> {
    match d {
        HexDir::NorthEast => "NE"@,
        HexDir::East => "E"@,
        HexDir::SouthEast => "SE"@,
        HexDir::SouthWest => "SW"@,
        HexDir::West => "W"@,
        HexDir::NorthWest => "NW"@,
    }
}

/// Every direction is read back from its full name and from its initials,
/// in any mix of ASCII letter case that upper-cases to them: the name that
/// `display_string` writes and `from_string` reads agree.
pub proof fn lemma_names_read_back(d: HexDir)
    ensures
        dir_of_name(d.name()) == Some(d),
        dir_of_name(initials(d)) == Some(d),
        all_ascii(d.name()),
        ascii_uppercase(d.name()) == d.name(),
        all_ascii(initials(d)),
        ascii_uppercase(initials(d)) == initials(d),
{
    reveal_strlit("NORTH_EAST");
    reveal_strlit("EAST");
    reveal_strlit("SOUTH_EAST");
    reveal_strlit("SOUTH_WEST");
    reveal_strlit("WEST");
    reveal_strlit("NORTH_WEST");
    reveal_strlit("NE");
    reveal_strlit("E");
    reveal_strlit("SE");
    reveal_strlit("SW");
    reveal_strlit("W");
    reveal_strlit("NW");
    assert("NORTH_EAST"@[0] != "SOUTH_EAST"@[0]);
    assert("NORTH_EAST"@[0] != "SOUTH_WEST"@[0]);
    assert("NORTH_EAST"@[6] != "NORTH_WEST"@[6]);
    assert("SOUTH_EAST"@[6] != "SOUTH_WEST"@[6]);
    assert("SOUTH_WEST"@[0] != "NORTH_WEST"@[0]);
    assert("SOUTH_EAST"@[0] != "NORTH_WEST"@[0]);
    assert("EAST"@[0] != "WEST"@[0]);
    assert("NE"@[0] != "SE"@[0]);
    assert("NE"@[0] != "SW"@[0]);
    assert("NE"@[1] != "NW"@[1]);
    assert("SE"@[1] != "SW"@[1]);
    assert("SE"@[0] != "NW"@[0]);
    assert("SW"@[0] != "NW"@[0]);
    assert("E"@[0] != "W"@[0]);
    let n = d.name();
    let i = initials(d);
    assert(ascii_uppercase(n) =~= n);
    assert(ascii_uppercase(i) =~= i);
}

/// A direction is recovered from its ordinal, and the ordinal of the
/// direction at position `i` is `i` modulo six.
pub proof fn lemma_dir_ordinal_roundtrip(d: HexDir, i: int)
    ensures
        HexDir::at(d.idx()) == d,
        0 <= d.idx() < 6,
        HexDir::at(i).idx() == i % 6,
{
}

/// An angle is recovered from its ordinal, and the ordinal of the angle of
/// `i` sixths is `i` modulo six.
pub proof fn lemma_angle_ordinal_roundtrip(a: HexAngle, i: int)
    ensures
        HexAngle::at(a.idx()) == a,
        0 <= a.idx() < 6,
        HexAngle::at(i).idx() == i % 6,
{
}

/// Rotating `from` by the angle from `from` to `to` gives `to`, and the angle
/// from `d` to `d` rotated by `a` is `a`.
pub proof fn lemma_rotation_angle_inverse(from: HexDir, to: HexDir, d: HexDir, a: HexAngle)
    ensures
        HexDir::at(from.idx() + HexAngle::at(to.idx() - from.idx()).idx()) == to,
        HexAngle::at(HexDir::at(d.idx() + a.idx()).idx() - d.idx()) == a,
{
    let x = from.idx();
    let y = to.idx();
    let k = HexAngle::at(y - x).idx();
    assert(k == (y - x) % 6);
    assert(HexDir::at(x + k).idx() == (x + k) % 6);
    assert((x + k) % 6 == y);
    lemma_dir_ordinal_roundtrip(to, x + k);
    assert(HexDir::at(x + k) == HexDir::at(y));
    let e = HexDir::at(d.idx() + a.idx()).idx();
    assert(e == (d.idx() + a.idx()) % 6);
    assert((e - d.idx()) % 6 == a.idx());
    lemma_angle_ordinal_roundtrip(a, e - d.idx());
}

/// Rotation by an angle composes by adding the angles, and a full turn of
/// six sixths is the identity.
pub proof fn lemma_rotation_composes(d: HexDir, a: HexAngle, b: HexAngle)
    ensures
        HexDir::at(HexDir::at(d.idx() + a.idx()).idx() + b.idx()) == HexDir::at(
            d.idx() + HexAngle::at(a.idx() + b.idx()).idx(),
        ),
        HexDir::at(d.idx() + HexAngle::Zero.idx()) == d,
{
}

/// Subtracting what was added gives the coordinate back, and the step of
/// each direction is undone by the step of the opposite direction.
pub proof fn lemma_coord_add_sub(a: HexCoord, b: HexCoord, d: HexDir)
    requires
        sum_fits(a, b),
    ensures
        difference_fits(coord_sum(a, b), b),
        coord_sum(a, b).0 - b.0 == a.0,
        coord_sum(a, b).1 - b.1 == a.1,
        d.delta().0 + HexDir::at(d.idx() + 3).delta().0 == 0,
        d.delta().1 + HexDir::at(d.idx() + 3).delta().1 == 0,
{
}

/// The six direction steps are pairwise distinct, so a step determines its
/// direction.
pub proof fn lemma_delta_injective(d: HexDir, e: HexDir)
    ensures
        d.delta() == e.delta() ==> d == e,
{
}

/// A pattern's direction list starts with its start direction and
/// determines the pattern: `from_list` of `all_dirs` gives it back.
pub proof fn lemma_dirs_determine_pattern(p: HexPattern, q: HexPattern)
    ensures
        p.dirs().len() == p.steps@.len() + 1,
        p.dirs()[0] == p.start,
        p.dirs().skip(1) == p.steps@,
        p.dirs() == q.dirs() ==> p.start == q.start && p.steps@ == q.steps@,
{
    assert(p.dirs().skip(1) =~= p.steps@);
    if p.dirs() == q.dirs() {
        assert(q.dirs().skip(1) =~= q.steps@);
    }
}

/// Reading code letters back gives the directions they code.
pub proof fn lemma_letters_roundtrip(ds: Seq<HexDir>)
    ensures
        letters_dirs(dirs_letters(ds)) == ds,
    decreases ds.len(),
{
    if ds.len() > 0 {
        lemma_letters_roundtrip(ds.drop_last());
        assert(dirs_letters(ds).drop_last() =~= dirs_letters(ds.drop_last()));
        assert(ds.drop_last().push(ds.last()) =~= ds);
    } else {
        assert(dirs_letters(ds) =~= Seq::<char>::empty());
    }
}

/// Coding the directions of a string made only of code letters gives the
/// string back.
pub proof fn lemma_dirs_roundtrip(s: Seq<char>)
    requires
        forall|i: int| 0 <= i < s.len() ==> letter_dir(#[trigger] s[i]).is_some(),
    ensures
        dirs_letters(letters_dirs(s)) == s,
        letters_dirs(s).len() == s.len(),
    decreases s.len(),
{
    if s.len() > 0 {
        let t = s.drop_last();
        assert forall|i: int| 0 <= i < t.len() implies letter_dir(#[trigger] t[i]).is_some() by {
            assert(t[i] == s[i]);
        }
        lemma_dirs_roundtrip(t);
        let c = s.last();
        assert(letter_dir(c).is_some());
        assert(dir_letter(letter_dir(c).unwrap()) == c);
        assert(letters_dirs(s) == letters_dirs(t).push(letter_dir(c).unwrap()));
        assert(dirs_letters(letters_dirs(s)) =~= dirs_letters(letters_dirs(t)).push(c));
        assert(t.push(c) =~= s);
    } else {
        assert(dirs_letters(letters_dirs(s)) =~= s);
    }
}

/// The compact form of a non-empty direction sequence parses back to its
/// first direction and the rest.
pub proof fn lemma_letters_parse(ds: Seq<HexDir>)
    requires
        ds.len() > 0,
    ensures
        parse_pattern_chars(dirs_letters(ds)) == Some((ds[0], ds.skip(1))),
{
    let cs = dirs_letters(ds);
    assert(cs.skip(1) =~= dirs_letters(ds.skip(1)));
    lemma_letters_roundtrip(ds.skip(1));
    assert(cs[0] == dir_letter(ds[0]));
}

/// The compact form of a pattern parses back to the same pattern, and a
/// string made only of code letters is the compact form of the pattern it
/// parses to.
pub proof fn lemma_serialization_roundtrip(p: HexPattern, s: Seq<char>)
    ensures
        parse_pattern_chars(dirs_letters(p.dirs())) == Some((p.start, p.steps@)),
        s.len() > 0 && (forall|i: int| 0 <= i < s.len() ==> letter_dir(#[trigger] s[i]).is_some())
            ==> dirs_letters(seq![parse_pattern_chars(s).unwrap().0].add(
            parse_pattern_chars(s).unwrap().1,
        )) == s,
{
    let cs = dirs_letters(p.dirs());
    assert(cs.skip(1) =~= dirs_letters(p.steps@));
    lemma_letters_roundtrip(p.steps@);
    assert(cs[0] == dir_letter(p.start));
    if s.len() > 0 && (forall|i: int| 0 <= i < s.len() ==> letter_dir(#[trigger] s[i]).is_some()) {
        let t = s.skip(1);
        assert forall|i: int| 0 <= i < t.len() implies letter_dir(#[trigger] t[i]).is_some() by {
            assert(t[i] == s[i + 1]);
        }
        lemma_dirs_roundtrip(t);
        assert(letter_dir(s[0]).is_some());
        let r = parse_pattern_chars(s).unwrap();
        assert(dir_letter(letter_dir(s[0]).unwrap()) == s[0]);
        assert(dir_letter(r.0) == s[0]);
        assert(r.1 == letters_dirs(t));
        assert(dirs_letters(seq![r.0].add(r.1)) =~= seq![s[0]].add(dirs_letters(r.1)));
        assert(seq![s[0]].add(t) =~= s);
    }
}

/// `a / b` rounded toward zero.
fn trunc_div_i64(a: i64, b: i64) -> (q: i64)
    requires
        b > 0,
        i32::MIN <= a <= i32::MAX,
    ensures
        q == trunc_div(a as int, b as int),
        i32::MIN <= q <= i32::MAX,
{
    if a >= 0 {
        a / b
    } else {
        let m: i64 = -a;
        assert(m / b <= m) by (nonlinear_arith)
            requires
                m >= 0,
                b > 0,
        ;
        -(m / b)
    }
}

} // verus!
