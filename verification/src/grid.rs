//! The casting grid session: the stroke being drawn over the hex lattice,
//! the strokes drawn so far with how their casts went, and the stack the
//! server last reported.
//!
//! Screen geometry, rendering and the packet plumbing stand around this
//! state; every decision about strokes and packets is made here.

use vstd::prelude::*;
use crate::math::{HexCoord, HexDir, HexPattern, difference_fits};
use crate::text::{split_lines, starts_with, lines_of, texts};
use crate::casting::vm::{decode_lossy, utf8_lossy};

verus! {

pub const UI_ID: &'static str = "hexcasting:grid";

pub const CH_CAST: &'static str = "hexcasting:cast";

pub const CH_STACK: &'static str = "hexcasting:stack";

pub const CH_OPEN: &'static str = "hexcasting:open_grid";

/// How the cast of a completed stroke resolved, for stroke colouring.
#[derive(Debug, Clone, Copy, PartialEq, Eq, Structural)]
pub enum StrokeResult {
    Pending,
    Succeeded,
    Mishap,
}

/// The state of one casting-grid session.
pub struct GridSession {
    /// Dots of the stroke currently being drawn.
    stroke: Vec<HexCoord>,
    /// Completed strokes of this session, with their cast result.
    drawn: Vec<(Vec<HexCoord>, StrokeResult)>,
    /// Stack lines as reported by the server (top first).
    stack_view: Vec<String>,
}

/// The direction whose step leads from `a` to `b`, if they are neighbours.
pub open spec fn step_dir(a: HexCoord, b: HexCoord) -> Option<HexDir> {
    if exists|d: HexDir| d.delta() == crate::math::HexCoord((b.0 - a.0) as i32, (b.1 - a.1) as i32) {
        Some(choose|d: HexDir| d.delta() == crate::math::HexCoord((b.0 - a.0) as i32, (b.1 - a.1) as i32))
    } else {
        None
    }
}

/// Whether `a` and `b` are neighbouring lattice dots.
pub open spec fn adjacent(a: HexCoord, b: HexCoord) -> bool {
    &&& difference_fits(b, a)
    &&& step_dir(a, b) is Some
}

/// Whether the segment between `p` and `q` is the one between `a` and `b`,
/// in either direction.
pub open spec fn same_edge(p: HexCoord, q: HexCoord, a: HexCoord, b: HexCoord) -> bool {
    (p == a && q == b) || (p == b && q == a)
}

/// Whether the stroke `s` uses the segment between `a` and `b`.
pub open spec fn uses_edge(s: Seq<HexCoord>, a: HexCoord, b: HexCoord) -> bool {
    exists|i: int| 0 <= i < s.len() - 1 && same_edge(#[trigger] s[i], s[i + 1], a, b)
}

/// A well-drawn stroke: consecutive dots are neighbours and no segment is
/// traversed twice (dots may repeat).
pub open spec fn stroke_ok(s: Seq<HexCoord>) -> bool {
    &&& forall|i: int| 0 <= i < s.len() - 1 ==> adjacent(#[trigger] s[i], s[i + 1])
    &&& forall|i: int, j: int|
        0 <= i < j < s.len() - 1 ==> !same_edge(#[trigger] s[i], s[i + 1], #[trigger] s[j], s[j + 1])
}

/// The directions of the segments of a stroke whose dots are neighbours.
pub open spec fn stroke_dirs(s: Seq<HexCoord>) -> Seq<HexDir> {
    Seq::new(
        if s.len() == 0 { 0 } else { (s.len() - 1) as nat },
        |i: int| step_dir(s[i], s[i + 1]).unwrap(),
    )
}

/// Which stroke result a stack packet's first line reports, if any.
pub open spec fn marker_result(lines: Seq<Seq<char>>) -> Option<StrokeResult> {
    if lines.len() == 0 {
        None
    } else if "#ok"@.len() <= lines[0].len() && lines[0].take("#ok"@.len() as int) == "#ok"@ {
        Some(StrokeResult::Succeeded)
    } else if "#mishap"@.len() <= lines[0].len() && lines[0].take("#mishap"@.len() as int)
        == "#mishap"@ {
        Some(StrokeResult::Mishap)
    } else {
        None
    }
}

/// The direction whose step leads from `a` to `b`, if they are neighbours.
pub fn dir_between(a: HexCoord, b: HexCoord) -> (r: Option<HexDir>)
    requires
        difference_fits(b, a),
    ensures
        r == step_dir(a, b),
{
    let d = b.sub(a);
    let mut k: u8 = 0;
    while k < 6
        invariant
            k <= 6,
            d == crate::math::HexCoord((b.0 - a.0) as i32, (b.1 - a.1) as i32),
            forall|j: int| 0 <= j < k ==> HexDir::at(j).delta() != d,
        decreases 6 - k,
    {
        let dir = HexDir::from_ordinal(k);
        if dir.as_delta() == d {
            return Some(dir);
        }
        k = k + 1;
    }
    proof {
        assert forall|e: HexDir| e.delta() != d by {
            crate::math::lemma_dir_ordinal_roundtrip(e, 0);
            assert(HexDir::at(e.idx()) == e);
        }
    }
    None
}

impl GridSession {
    /// The stroke being drawn is always well drawn.
    #[verifier::type_invariant]
    spec fn inv(self) -> bool {
        stroke_ok(self.stroke@)
    }

    pub closed spec fn stroke(&self) -> Seq<HexCoord> {
        self.stroke@
    }

    /// The completed strokes of the session and how their casts went.
    pub closed spec fn drawn(&self) -> Seq<(Seq<HexCoord>, StrokeResult)> {
        self.drawn@.map_values(|e: (Vec<HexCoord>, StrokeResult)| (e.0@, e.1))
    }

    /// The stack lines last reported by the server, top first.
    pub closed spec fn stack_view(&self) -> Seq<Seq<char>> {
        texts(self.stack_view@)
    }

    pub fn new() -> (g: Self)
        ensures
            g.stroke() == Seq::<HexCoord>::empty(),
            g.drawn() == Seq::<(Seq<HexCoord>, StrokeResult)>::empty(),
            g.stack_view() == Seq::<Seq<char>>::empty(),
    {
        let g = GridSession { stroke: Vec::new(), drawn: Vec::new(), stack_view: Vec::new() };
        assert(g.drawn() =~= Seq::<(Seq<HexCoord>, StrokeResult)>::empty());
        assert(g.stack_view() =~= Seq::<Seq<char>>::empty());
        g
    }

    /// The stack lines last reported by the server, top first.
    pub fn stack_lines(&self) -> (r: &Vec<String>)
        ensures
            texts(r@) == self.stack_view(),
    {
        &self.stack_view
    }

    /// The dots of the stroke being drawn.
    pub fn stroke_dots(&self) -> (r: &Vec<HexCoord>)
        ensures
            r@ == self.stroke(),
    {
        &self.stroke
    }

    /// The completed strokes of the session, with how their casts went.
    pub fn drawn_strokes(&self) -> (r: &Vec<(Vec<HexCoord>, StrokeResult)>)
        ensures
            r@.map_values(|e: (Vec<HexCoord>, StrokeResult)| (e.0@, e.1)) == self.drawn(),
    {
        &self.drawn
    }
}

/// The server's stack packet is `#ok\t<name>` or `#mishap\t<msg>` on its
/// first line (the cast result), followed by the stack itself, top first.
/// The result line colours the stroke that triggered it; the rest becomes
/// the displayed stack.
pub fn on_stack_packet(g: &mut GridSession, payload: &[u8])
    ensures
        final(g).stroke() == old(g).stroke(),
        final(g).stack_view() == (if lines_of(utf8_lossy(payload@)).len() == 0 {
            Seq::<Seq<char>>::empty()
        } else {
            lines_of(utf8_lossy(payload@)).drop_first()
        }),
        ({
            let res = marker_result(lines_of(utf8_lossy(payload@)));
            let d = old(g).drawn();
            final(g).drawn() == (if res is Some && d.len() > 0 {
                d.update(d.len() - 1, (d.last().0, res.unwrap()))
            } else {
                d
            })
        }),
{
    proof {
        use_type_invariant(&*g);
    }
    let text = decode_lossy(payload);
    let lines = split_lines(text.as_str());
    let ghost ls = lines_of(text@);
    let mut result: Option<StrokeResult> = None;
    if lines.len() > 0 {
        if starts_with(lines[0].as_str(), "#ok") {
            result = Some(StrokeResult::Succeeded);
        } else if starts_with(lines[0].as_str(), "#mishap") {
            result = Some(StrokeResult::Mishap);
        }
    }
    assert(result == marker_result(ls));
    let ghost d = old(g).drawn();
    match result {
        Some(res) => {
            let n = g.drawn.len();
            if n > 0 {
                let mut drawn: Vec<(Vec<HexCoord>, StrokeResult)> = Vec::new();
                std::mem::swap(&mut drawn, &mut g.drawn);
                let (strk, _) = drawn.pop().unwrap();
                drawn.push((strk, res));
                g.drawn = drawn;
                assert(g.drawn() =~= d.update(d.len() - 1, (d.last().0, res)));
            }
        },
        None => {},
    }
    let mut view: Vec<String> = Vec::new();
    if lines.len() > 0 {
        let mut i: usize = 1;
        assert(texts(view@) =~= ls.subrange(1, 1));
        while i < lines.len()
            invariant
                1 <= i <= lines@.len(),
                texts(lines@) == ls,
                texts(view@) == ls.subrange(1, i as int),
            decreases lines@.len() - i,
        {
            let ghost before = view@;
            let line = lines[i].clone();
            assert(line@ == ls[i as int]);
            view.push(line);
            i = i + 1;
            assert(texts(view@) =~= texts(before).push(line@));
            assert(texts(view@) =~= ls.subrange(1, i as int));
        }
        assert(ls.subrange(1, i as int) =~= ls.drop_first());
    } else {
        assert(texts(view@) =~= Seq::<Seq<char>>::empty());
    }
    g.stack_view = view;
}

/// Reset per-session drawing when the grid opens: the stroke in progress and
/// the completed strokes are dropped. The displayed stack stays: it is the
/// server's and survives reopening.
pub fn on_open(g: &mut GridSession)
    ensures
        final(g).stroke() == Seq::<HexCoord>::empty(),
        final(g).drawn() == Seq::<(Seq<HexCoord>, StrokeResult)>::empty(),
        final(g).stack_view() == old(g).stack_view(),
{
    g.stroke = Vec::new();
    g.drawn = Vec::new();
    assert(g.drawn() =~= Seq::<(Seq<HexCoord>, StrokeResult)>::empty());
}

/// Called when the server wiped the caster's stack: the displayed stack is
/// cleared.
pub fn on_reset(g: &mut GridSession)
    ensures
        final(g).stroke() == old(g).stroke(),
        final(g).drawn() == old(g).drawn(),
        final(g).stack_view() == Seq::<Seq<char>>::empty(),
{
    proof {
        use_type_invariant(&*g);
    }
    g.stack_view = Vec::new();
    assert(g.stack_view() =~= Seq::<Seq<char>>::empty());
}

/// The stroke after dragging onto dot `c`: dragging onto the last dot does
/// nothing; dragging back onto the dot before it undoes the last segment;
/// dragging onto a neighbour of the last dot extends the stroke unless that
/// segment was already drawn. Without a stroke, dragging does nothing.
pub open spec fn drag_effect(s: Seq<HexCoord>, c: HexCoord) -> Seq<HexCoord> {
    if s.len() == 0 {
        s
    } else if c == s.last() {
        s
    } else if s.len() >= 2 && s[s.len() - 2] == c {
        s.drop_last()
    } else if step_dir(s.last(), c) is Some && !uses_edge(s, s.last(), c) {
        s.push(c)
    } else {
        s
    }
}

/// Whether the stroke `s` uses the segment between `a` and `b`.
fn stroke_uses_edge(s: &Vec<HexCoord>, a: HexCoord, b: HexCoord) -> (r: bool)
    ensures
        r == uses_edge(s@, a, b),
{
    if s.len() < 2 {
        return false;
    }
    let mut i: usize = 0;
    while i < s.len() - 1
        invariant
            s@.len() >= 2,
            i <= s@.len() - 1,
            forall|k: int| 0 <= k < i ==> !same_edge(#[trigger] s@[k], s@[k + 1], a, b),
        decreases s@.len() - i,
    {
        let p = s[i];
        let q = s[i + 1];
        if (p == a && q == b) || (p == b && q == a) {
            return true;
        }
        i = i + 1;
    }
    false
}

/// A click on the grid: on a dot, a new stroke starts there.
pub fn on_click(g: &mut GridSession, dot: Option<HexCoord>)
    ensures
        final(g).stroke() == (match dot {
            Some(c) => seq![c],
            None => old(g).stroke(),
        }),
        final(g).drawn() == old(g).drawn(),
        final(g).stack_view() == old(g).stack_view(),
{
    if let Some(c) = dot {
        let mut stroke: Vec<HexCoord> = Vec::new();
        stroke.push(c);
        assert(stroke@ =~= seq![c]);
        g.stroke = stroke;
    }
}

/// The mouse dragged onto dot `c`.
pub fn on_drag(g: &mut GridSession, c: HexCoord)
    requires
        old(g).stroke().len() > 0 ==> difference_fits(c, old(g).stroke().last()),
    ensures
        final(g).stroke() == drag_effect(old(g).stroke(), c),
        final(g).drawn() == old(g).drawn(),
        final(g).stack_view() == old(g).stack_view(),
{
    proof {
        use_type_invariant(&*g);
    }
    let n = g.stroke.len();
    if n == 0 {
        return;
    }
    let last = g.stroke[n - 1];
    if c == last {
        return;
    }
    proof {
        lemma_drag_keeps_stroke_ok(g.stroke@, c);
    }
    if n >= 2 && g.stroke[n - 2] == c {
        let mut stroke: Vec<HexCoord> = Vec::new();
        std::mem::swap(&mut stroke, &mut g.stroke);
        stroke.pop();
        g.stroke = stroke;
        return;
    }
    if dir_between(last, c).is_some() {
        if !stroke_uses_edge(&g.stroke, last, c) {
            let mut stroke: Vec<HexCoord> = Vec::new();
            std::mem::swap(&mut stroke, &mut g.stroke);
            stroke.push(c);
            g.stroke = stroke;
        }
    }
}

/// Moving one step in a direction reaches a neighbour, and the step
/// between them is that direction.
pub proof fn lemma_step_dir_of_neighbor(c: HexCoord, d: HexDir)
    requires
        c.has_neighbors(),
    ensures
        adjacent(c, crate::math::coord_sum(c, d.delta())),
        step_dir(c, crate::math::coord_sum(c, d.delta())) == Some(d),
{
    let n = crate::math::coord_sum(c, d.delta());
    let diff = crate::math::HexCoord((n.0 - c.0) as i32, (n.1 - c.1) as i32);
    assert(diff == d.delta());
    let e = choose|e: HexDir| e.delta() == diff;
    crate::math::lemma_delta_injective(e, d);
}

/// The mouse was released: a stroke of at least two dots becomes a
/// pattern, which the session keeps as pending; a shorter one is dropped.
pub fn on_release(g: &mut GridSession) -> (r: Option<HexPattern>)
    ensures
        final(g).stroke() == Seq::<HexCoord>::empty(),
        final(g).stack_view() == old(g).stack_view(),
        r is Some <==> old(g).stroke().len() >= 2,
        r is None ==> final(g).drawn() == old(g).drawn(),
        r matches Some(p) ==> {
            &&& p.dirs() == stroke_dirs(old(g).stroke())
            &&& final(g).drawn() == old(g).drawn().push((old(g).stroke(), StrokeResult::Pending))
        },
{
    proof {
        use_type_invariant(&*g);
    }
    let n = g.stroke.len();
    if n >= 2 {
        let mut dirs: Vec<HexDir> = Vec::new();
        let mut i: usize = 0;
        while i + 1 < n
            invariant
                n == g.stroke@.len(),
                stroke_ok(g.stroke@),
                i < n,
                dirs@ == stroke_dirs(g.stroke@).take(i as int),
            decreases n - i,
        {
            let d = dir_between(g.stroke[i], g.stroke[i + 1]);
            dirs.push(d.unwrap());
            i = i + 1;
            assert(dirs@ =~= stroke_dirs(g.stroke@).take(i as int));
        }
        assert(stroke_dirs(g.stroke@).take(i as int) =~= stroke_dirs(g.stroke@));
        let pattern = HexPattern::from_list(dirs);
        let mut taken: Vec<HexCoord> = Vec::new();
        std::mem::swap(&mut taken, &mut g.stroke);
        let ghost d0 = g.drawn();
        let mut drawn: Vec<(Vec<HexCoord>, StrokeResult)> = Vec::new();
        std::mem::swap(&mut drawn, &mut g.drawn);
        drawn.push((taken, StrokeResult::Pending));
        g.drawn = drawn;
        assert(g.drawn() =~= d0.push((old(g).stroke(), StrokeResult::Pending)));
        Some(pattern)
    } else {
        g.stroke = Vec::new();
        None
    }
}

/// Every operation on a session leaves its stroke well drawn: dragging
/// only adds a neighbour of the last dot over a segment not yet drawn, or
/// undoes the last segment.
pub proof fn lemma_drag_keeps_stroke_ok(s: Seq<HexCoord>, c: HexCoord)
    requires
        stroke_ok(s),
        s.len() > 0 ==> difference_fits(c, s.last()),
    ensures
        stroke_ok(drag_effect(s, c)),
{
    let t = drag_effect(s, c);
    if s.len() > 0 && c != s.last() && !(s.len() >= 2 && s[s.len() - 2] == c) && step_dir(
        s.last(),
        c,
    ) is Some && !uses_edge(s, s.last(), c) {
        assert forall|i: int| 0 <= i < t.len() - 1 implies adjacent(#[trigger] t[i], t[i + 1]) by {
            if i < s.len() - 1 {
                assert(t[i] == s[i] && t[i + 1] == s[i + 1]);
            }
        }
        assert forall|i: int, j: int|
            0 <= i < j < t.len() - 1 implies !same_edge(#[trigger] t[i], t[i + 1], #[trigger] t[j], t[j + 1]) by {
            if j == s.len() - 1 {
                assert(t[j] == s.last() && t[j + 1] == c);
                if same_edge(t[i], t[i + 1], t[j], t[j + 1]) {
                    assert(same_edge(s[i], s[i + 1], s.last(), c));
                }
            }
        }
    } else if s.len() >= 2 && c != s.last() && s[s.len() - 2] == c {
        assert forall|i: int| 0 <= i < t.len() - 1 implies adjacent(#[trigger] t[i], t[i + 1]) by {
            assert(t[i] == s[i] && t[i + 1] == s[i + 1]);
        }
        assert forall|i: int, j: int|
            0 <= i < j < t.len() - 1 implies !same_edge(#[trigger] t[i], t[i + 1], #[trigger] t[j], t[j + 1]) by {
            assert(t[i] == s[i] && t[i + 1] == s[i + 1]);
            assert(t[j] == s[j] && t[j + 1] == s[j + 1]);
        }
    }
}

/// Neighbouring dots are different dots.
proof fn lemma_adjacent_distinct(a: HexCoord, b: HexCoord)
    requires
        adjacent(a, b),
    ensures
        a != b,
{
    if a == b {
        let d = choose|d: HexDir| d.delta() == crate::math::HexCoord((b.0 - a.0) as i32, (b.1 - a.1) as i32);
        assert(d.delta() == crate::math::HexCoord(0, 0));
        assert(false);
    }
}

/// What dragging does to a well-drawn stroke, in terms of the stroke and
/// the dot dragged onto: back onto the dot before the last, the last
/// segment is undone; onto a neighbour of the last dot over a segment not
/// yet drawn, the stroke is extended by that dot; onto the last dot, onto
/// a dot that is no neighbour, or over a segment already drawn, the stroke
/// stays as it is.
pub proof fn lemma_drag_laws(s: Seq<HexCoord>, c: HexCoord)
    requires
        stroke_ok(s),
        s.len() > 0,
        difference_fits(c, s.last()),
    ensures
        s.len() >= 2 && c == s[s.len() - 2] ==> drag_effect(s, c) == s.drop_last(),
        !(s.len() >= 2 && c == s[s.len() - 2]) && adjacent(s.last(), c) && !uses_edge(s, s.last(), c)
            ==> drag_effect(s, c) == s.push(c),
        c == s.last() ==> drag_effect(s, c) == s,
        !adjacent(s.last(), c) && !(s.len() >= 2 && c == s[s.len() - 2]) ==> drag_effect(s, c) == s,
        !(s.len() >= 2 && c == s[s.len() - 2]) && uses_edge(s, s.last(), c) ==> drag_effect(s, c) == s,
{
    if s.len() >= 2 {
        let n = s.len() - 2;
        assert(adjacent(s[n], s[n + 1]));
        lemma_adjacent_distinct(s[n], s[n + 1]);
    }
    if adjacent(s.last(), c) {
        lemma_adjacent_distinct(s.last(), c);
    }
}

/// The first line of a stack packet colours the last stroke by how it
/// begins: `#ok` marks it succeeded, `#mishap` marks it failed, anything
/// else (or no line at all) leaves it alone.
pub proof fn lemma_marker_by_prefix(lines: Seq<Seq<char>>)
    ensures
        lines.len() == 0 ==> marker_result(lines) is None,
        lines.len() > 0 && "#ok"@.is_prefix_of(lines[0]) ==> marker_result(lines) == Some(
            StrokeResult::Succeeded,
        ),
        lines.len() > 0 && "#mishap"@.is_prefix_of(lines[0]) ==> marker_result(lines) == Some(
            StrokeResult::Mishap,
        ),
        lines.len() > 0 && !"#ok"@.is_prefix_of(lines[0]) && !"#mishap"@.is_prefix_of(lines[0])
            ==> marker_result(lines) is None,
{
    reveal_strlit("#ok");
    reveal_strlit("#mishap");
    if lines.len() > 0 {
        let l = lines[0];
        if "#ok"@.len() <= l.len() {
            assert(l.take(3) =~= l.subrange(0, 3));
        }
        if "#mishap"@.len() <= l.len() {
            assert(l.take(7) =~= l.subrange(0, 7));
            if "#mishap"@.is_prefix_of(l) {
                assert("#mishap"@[1] == 'm');
                assert(l.subrange(0, 7)[1] == l[1]);
                assert(l[1] == 'm');
                assert(!"#ok"@.is_prefix_of(l)) by {
                    if "#ok"@.is_prefix_of(l) {
                        assert("#ok"@[1] == 'o');
                        assert(l.subrange(0, 3)[1] == l[1]);
                    }
                }
            }
        }
    }
}

/// The result marker that the server puts first in its stack packet
/// colours the stroke that was cast: `#ok`, a tab and any name marks it
/// succeeded; `#mishap`, a tab and any message marks it failed.
pub proof fn lemma_result_marker_colours(name: Seq<char>, rest: Seq<Seq<char>>)
    ensures
        marker_result(seq!["#ok\t"@ + name] + rest) == Some(StrokeResult::Succeeded),
        marker_result(seq!["#mishap\t"@ + name] + rest) == Some(StrokeResult::Mishap),
{
    reveal_strlit("#ok");
    reveal_strlit("#mishap");
    reveal_strlit("#ok\t");
    reveal_strlit("#mishap\t");
    let a = seq!["#ok\t"@ + name] + rest;
    let b = seq!["#mishap\t"@ + name] + rest;
    assert(a[0] == "#ok\t"@ + name);
    assert(b[0] == "#mishap\t"@ + name);
    assert(a[0].subrange(0, 3) =~= "#ok"@);
    assert(b[0].subrange(0, 7) =~= "#mishap"@);
    lemma_marker_by_prefix(a);
    lemma_marker_by_prefix(b);
}

/// The pattern released from a well-drawn stroke traces the stroke: each
/// dot is the one before it moved one step in the pattern's direction.
pub proof fn lemma_release_traces_stroke(s: Seq<HexCoord>)
    requires
        stroke_ok(s),
    ensures
        forall|k: int|
            0 <= k < s.len() - 1 ==> #[trigger] s[k + 1] == crate::math::coord_sum(
                s[k],
                stroke_dirs(s)[k].delta(),
            ),
{
    assert forall|k: int| 0 <= k < s.len() - 1 implies #[trigger] s[k + 1] == crate::math::coord_sum(
        s[k],
        stroke_dirs(s)[k].delta(),
    ) by {
        assert(adjacent(s[k], s[k + 1]));
        let d = step_dir(s[k], s[k + 1]).unwrap();
        assert(d.delta() == crate::math::HexCoord((s[k + 1].0 - s[k].0) as i32, (s[k + 1].1 - s[k].1) as i32));
    }
}

} // verus!
