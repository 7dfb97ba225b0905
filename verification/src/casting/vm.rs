//! The casting VM: pattern resolution by angle signature and execution of
//! the known patterns against a caster's stack.
//!
//! Patterns are matched by their *angle signature*, the sequence of turns
//! between consecutive segments, so a pattern means the same thing whatever
//! direction it was drawn in: `w` straight, `e` 60° right, `d` 120° right,
//! `s` 180°, `a` 120° left, `q` 60° left.

use vstd::prelude::*;
use crate::math::{HexAngle, HexDir, HexPattern};
use crate::iota::{Iota, IotaValue, TextPart, Part, parts_view, bool_text, uuid_hyphenated, uuid_text, uuid_parse, parse_uuid};
use crate::text::{int_text, decimal, i64_text, u64_text};
use crate::text::str_eq;
use vstd::utf8::{valid_utf8, decode_utf8};

verus! {

/// The signature letter of a turn.
pub open spec fn angle_letter(a: HexAngle) -> char {
    match a {
        HexAngle::Zero => 'w',
        HexAngle::Sixty => 'e',
        HexAngle::OneTwenty => 'd',
        HexAngle::OneEighty => 's',
        HexAngle::TwoForty => 'a',
        HexAngle::ThreeHundred => 'q',
    }
}

/// The turn from direction `from` to direction `to`.
pub open spec fn turn(from: HexDir, to: HexDir) -> HexAngle {
    HexAngle::at(to.idx() - from.idx())
}

/// The angle signature of a sequence of directions: one letter for the turn
/// between each pair of consecutive directions.
pub open spec fn signature_of(ds: Seq<HexDir>) -> Seq<char> {
    Seq::new(
        if ds.len() == 0 { 0 } else { (ds.len() - 1) as nat },
        |k: int| angle_letter(turn(ds[k], ds[k + 1])),
    )
}

/// The directions `ds`, each rotated by the angle `a`.
pub open spec fn rotate_dirs(ds: Seq<HexDir>, a: HexAngle) -> Seq<HexDir> {
    ds.map_values(|d: HexDir| HexDir::at(d.idx() + a.idx()))
}

/// The one-letter string for a turn.
fn angle_str(a: HexAngle) -> (s: &'static str)
    ensures
        s@ == seq![angle_letter(a)],
{
    match a {
        HexAngle::Zero => {
            proof {
                reveal_strlit("w");
            }
            "w"
        },
        HexAngle::Sixty => {
            proof {
                reveal_strlit("e");
            }
            "e"
        },
        HexAngle::OneTwenty => {
            proof {
                reveal_strlit("d");
            }
            "d"
        },
        HexAngle::OneEighty => {
            proof {
                reveal_strlit("s");
            }
            "s"
        },
        HexAngle::TwoForty => {
            proof {
                reveal_strlit("a");
            }
            "a"
        },
        HexAngle::ThreeHundred => {
            proof {
                reveal_strlit("q");
            }
            "q"
        },
    }
}

/// The angle signature of a pattern, e.g. `"qaq"` for Mind's Reflection.
pub fn angle_signature(p: &HexPattern) -> (sig: String)
    ensures
        sig@ == signature_of(p.dirs()),
{
    let ghost ds = p.dirs();
    let mut sig = String::new();
    let mut prev = p.start;
    let mut i: usize = 0;
    while i < p.steps.len()
        invariant
            ds == p.dirs(),
            i <= p.steps@.len(),
            prev == ds[i as int],
            sig@ == signature_of(ds.take(i + 1)),
        decreases p.steps@.len() - i,
    {
        let step = p.steps[i];
        sig.append(angle_str(step.angle_from(prev)));
        prev = step;
        i = i + 1;
        assert(signature_of(ds.take(i + 1)) =~= signature_of(ds.take(i as int)).push(
            angle_letter(turn(ds[i - 1], ds[i as int])),
        ));
    }
    assert(ds.take(i + 1) =~= ds);
    sig
}

/// Rotating every direction of a pattern by the same angle leaves its angle
/// signature unchanged: a pattern means the same thing whatever direction it
/// was drawn in.
pub proof fn lemma_signature_rotation_invariant(ds: Seq<HexDir>, a: HexAngle)
    ensures
        signature_of(rotate_dirs(ds, a)) == signature_of(ds),
{
    let rs = rotate_dirs(ds, a);
    assert forall|k: int| 0 <= k < signature_of(ds).len() implies signature_of(rs)[k]
        == signature_of(ds)[k] by {
        let x = ds[k].idx();
        let y = ds[k + 1].idx();
        let s = a.idx();
        assert(HexDir::at(x + s).idx() == (x + s) % 6);
        assert(HexDir::at(y + s).idx() == (y + s) % 6);
        assert(((y + s) % 6 - (x + s) % 6) % 6 == (y - x) % 6);
    }
    assert(signature_of(rs) =~= signature_of(ds));
}

/// How the execution of one pattern ended.
#[derive(Debug)]
pub enum Outcome {
    /// The pattern worked; the name of what it did.
    Success(&'static str),
    /// The pattern failed; why.
    Mishap(String),
}

/// The mathematical form of an outcome: whether it succeeded, and its text.
pub enum Verdict {
    Success(Seq<char>),
    Mishap(Seq<char>),
}

impl Outcome {
    pub open spec fn verdict(self) -> Verdict {
        match self {
            Outcome::Success(name) => Verdict::Success(name@),
            Outcome::Mishap(msg) => Verdict::Mishap(msg@),
        }
    }
}

/// What a pattern asks the world about an entity.
#[derive(Debug, Clone, Copy, PartialEq, Eq, Structural)]
pub enum Query {
    /// Where the entity is.
    Position,
    /// Where the entity looks.
    LookVector,
}

/// The text by which the host knows the entity with this UUID: the UUID's
/// hyphenated form.
pub fn entity_text(entity: u128) -> (s: String)
    ensures
        s@ == uuid_hyphenated(entity),
{
    uuid_text(entity)
}

/// What the VM needs next after it ran a pattern against a stack.
#[derive(Debug)]
pub enum Step {
    /// The pattern is done.
    Done(Outcome),
    /// The pattern needs the answer to `query` about the entity; its result
    /// follows from `resume`.
    Ask { entity: u128, query: Query },
    /// The top of the stack is to be shown to the caster; then the pattern is
    /// done with the outcome.
    Reveal(Outcome),
}

/// The mathematical form of a step.
pub enum StepView {
    Done(Verdict),
    Ask(u128, Query),
    Reveal(Verdict),
}

impl Step {
    pub open spec fn view(self) -> StepView {
        match self {
            Step::Done(o) => StepView::Done(o.verdict()),
            Step::Ask { entity, query } => StepView::Ask(entity, query),
            Step::Reveal(o) => StepView::Reveal(o.verdict()),
        }
    }
}

/// The signature of Mind's Reflection.
pub open spec fn sig_minds_reflection() -> Seq<char> {
    "qaq"@
}

/// The signature of Compass' Purification.
pub open spec fn sig_compass() -> Seq<char> {
    "aa"@
}

/// The signature of Alidade's Purification.
pub open spec fn sig_alidade() -> Seq<char> {
    "wa"@
}

/// The signature of Reveal.
pub open spec fn sig_reveal() -> Seq<char> {
    "de"@
}

/// The signature of Jester's Gambit.
pub open spec fn sig_jester() -> Seq<char> {
    "aawdd"@
}

/// The signature of the pattern that clears the stack.
pub open spec fn sig_clear() -> Seq<char> {
    "dsw"@
}

/// The message of a pattern that no known one matches.
pub open spec fn fizzle_text(sig: Seq<char>) -> Seq<char> {
    "the pattern `"@.add(sig).add("` fizzles"@)
}

/// What running the pattern with signature `sig` does to `stack` when the
/// caster's entity is `caster`: the new stack and the step that follows.
pub open spec fn cast_effect(sig: Seq<char>, caster: Option<u128>, stack: Seq<Iota>) -> (
    Seq<Iota>,
    StepView,
) {
    if sig == sig_minds_reflection() {
        match caster {
            Some(u) => (stack.push(Iota::Entity(u)), StepView::Done(Verdict::Success("Mind's Reflection"@))),
            None => (stack, StepView::Done(Verdict::Mishap("the caster's mind is out of reach"@))),
        }
    } else if sig == sig_compass() || sig == sig_alidade() {
        if stack.len() == 0 {
            (stack, StepView::Done(Verdict::Mishap("the stack is empty"@)))
        } else {
            match stack.last() {
                Iota::Entity(u) => (
                    stack.drop_last(),
                    StepView::Ask(u, if sig == sig_compass() { Query::Position } else { Query::LookVector }),
                ),
                _ => (stack, StepView::Done(Verdict::Mishap("expected an entity on the stack"@))),
            }
        }
    } else if sig == sig_reveal() {
        if stack.len() == 0 {
            (stack, StepView::Done(Verdict::Mishap("nothing to reveal"@)))
        } else {
            (stack, StepView::Reveal(Verdict::Success("Reveal"@)))
        }
    } else if sig == sig_jester() {
        if stack.len() >= 2 {
            (
                stack.drop_last().drop_last().push(stack.last()).push(stack[stack.len() - 2]),
                StepView::Done(Verdict::Success("Jester's Gambit"@)),
            )
        } else {
            (stack, StepView::Done(Verdict::Mishap("need two iotas to swap"@)))
        }
    } else if sig == sig_clear() {
        (Seq::empty(), StepView::Done(Verdict::Success("stack cleared"@)))
    } else {
        (stack, StepView::Done(Verdict::Mishap(fizzle_text(sig))))
    }
}

/// The name of the pattern that answers a query.
pub open spec fn query_name(q: Query) -> Seq<char> {
    match q {
        Query::Position => "Compass' Purification"@,
        Query::LookVector => "Alidade's Purification"@,
    }
}

/// What the answer to a query does to the stack, and the outcome: the
/// vector is pushed, or the entity could not be found.
pub open spec fn resume_effect(q: Query, answer: Option<(u64, u64, u64)>, stack: Seq<Iota>) -> (
    Seq<Iota>,
    Verdict,
) {
    match answer {
        Some((x, y, z)) => (stack.push(Iota::Vec3(x, y, z)), Verdict::Success(query_name(q))),
        None => (stack, Verdict::Mishap("that entity is nowhere to be found"@)),
    }
}

fn mishap(msg: &str) -> (o: Outcome)
    ensures
        o.verdict() == Verdict::Mishap(msg@),
{
    Outcome::Mishap(String::from_str(msg))
}

/// Run the pattern with signature `sig` against `stack` for a caster whose
/// entity is `caster`. Patterns that need the world answer a query go on in
/// `resume`.
pub fn execute(sig: &str, caster: Option<u128>, stack: &mut Vec<Iota>) -> (r: Step)
    ensures
        (final(stack)@, r.view()) == cast_effect(sig@, caster, old(stack)@),
{
    if str_eq(sig, "qaq") {
        match caster {
            Some(u) => {
                stack.push(Iota::Entity(u));
                Step::Done(Outcome::Success("Mind's Reflection"))
            },
            None => Step::Done(mishap("the caster's mind is out of reach")),
        }
    } else if str_eq(sig, "aa") || str_eq(sig, "wa") {
        let query = if str_eq(sig, "aa") {
            Query::Position
        } else {
            Query::LookVector
        };
        match stack.pop() {
            Some(Iota::Entity(u)) => Step::Ask { entity: u, query },
            Some(other) => {
                stack.push(other);
                Step::Done(mishap("expected an entity on the stack"))
            },
            None => Step::Done(mishap("the stack is empty")),
        }
    } else if str_eq(sig, "de") {
        if stack.len() > 0 {
            Step::Reveal(Outcome::Success("Reveal"))
        } else {
            Step::Done(mishap("nothing to reveal"))
        }
    } else if str_eq(sig, "aawdd") {
        let n = stack.len();
        if n >= 2 {
            let top = stack.pop().unwrap();
            let below = stack.pop().unwrap();
            stack.push(top);
            stack.push(below);
            Step::Done(Outcome::Success("Jester's Gambit"))
        } else {
            Step::Done(mishap("need two iotas to swap"))
        }
    } else if str_eq(sig, "dsw") {
        stack.clear();
        Step::Done(Outcome::Success("stack cleared"))
    } else {
        let mut msg = String::from_str("the pattern `");
        msg.append(sig);
        msg.append("` fizzles");
        Step::Done(Outcome::Mishap(msg))
    }
}

/// Finish a pattern that asked `query` about an entity, given the answer.
pub fn resume(query: Query, answer: Option<(u64, u64, u64)>, stack: &mut Vec<Iota>) -> (o: Outcome)
    ensures
        (final(stack)@, o.verdict()) == resume_effect(query, answer, old(stack)@),
{
    match answer {
        Some((x, y, z)) => {
            stack.push(Iota::Vec3(x, y, z));
            match query {
                Query::Position => Outcome::Success("Compass' Purification"),
                Query::LookVector => Outcome::Success("Alidade's Purification"),
            }
        },
        None => mishap("that entity is nowhere to be found"),
    }
}

/// Casting Jester's Gambit twice leaves the stack as it was, and on a stack
/// of at least two iotas it swaps the top two.
pub proof fn lemma_jester_involution(caster: Option<u128>, stack: Seq<Iota>)
    requires
        stack.len() >= 2,
    ensures
        cast_effect(sig_jester(), caster, cast_effect(sig_jester(), caster, stack).0).0 == stack,
        cast_effect(sig_jester(), caster, stack).0.len() == stack.len(),
        cast_effect(sig_jester(), caster, stack).0.last() == stack[stack.len() - 2],
        cast_effect(sig_jester(), caster, stack).0[stack.len() - 2] == stack.last(),
{
    reveal_strlit("qaq");
    reveal_strlit("aa");
    reveal_strlit("wa");
    reveal_strlit("de");
    reveal_strlit("aawdd");
    let once = cast_effect(sig_jester(), caster, stack).0;
    assert(once =~= stack.drop_last().drop_last().push(stack.last()).push(stack[stack.len() - 2]));
    let twice = cast_effect(sig_jester(), caster, once).0;
    assert(twice =~= stack);
}

/// Answering a query pushes the vector found, whatever was asked, and the
/// pattern succeeds; with no answer the stack stays and the pattern fails.
pub proof fn lemma_answer_pushes_vector(q: Query, x: u64, y: u64, z: u64, stack: Seq<Iota>)
    ensures
        resume_effect(q, Some((x, y, z)), stack).0 == stack.push(Iota::Vec3(x, y, z)),
        resume_effect(q, Some((x, y, z)), stack).1 is Success,
        resume_effect(q, None, stack).0 == stack,
        resume_effect(q, None, stack).1 is Mishap,
{
}

/// Compass' and Alidade's Purification replace the entity on top of the
/// stack by the vector the world answers: asked about that entity, for its
/// position and its look vector respectively, and given an answer, they
/// leave the stack below with the vector on top, one item as long as
/// before.
pub proof fn lemma_purifications(caster: Option<u128>, u: u128, stack: Seq<Iota>, x: u64, y: u64, z: u64)
    ensures
        cast_effect(sig_compass(), caster, stack.push(Iota::Entity(u))) == (stack, StepView::Ask(u, Query::Position)),
        cast_effect(sig_alidade(), caster, stack.push(Iota::Entity(u))) == (stack, StepView::Ask(u, Query::LookVector)),
        resume_effect(Query::Position, Some((x, y, z)), stack).0 == stack.push(Iota::Vec3(x, y, z)),
        resume_effect(Query::LookVector, Some((x, y, z)), stack).0 == stack.push(Iota::Vec3(x, y, z)),
        resume_effect(Query::LookVector, Some((x, y, z)), stack).0.len() == stack.push(Iota::Entity(u)).len(),
{
    reveal_strlit("qaq");
    reveal_strlit("aa");
    reveal_strlit("wa");
    let s = stack.push(Iota::Entity(u));
    assert(s.drop_last() =~= stack);
    assert(sig_compass().len() != sig_minds_reflection().len());
    assert(sig_alidade().len() != sig_minds_reflection().len());
    assert(sig_alidade() != sig_compass()) by {
        assert(sig_alidade()[0] != sig_compass()[0]);
    }
}

/// A pattern that ends in a mishap right away leaves the stack as it was.
pub proof fn lemma_mishap_keeps_stack(sig: Seq<char>, caster: Option<u128>, stack: Seq<Iota>)
    ensures
        cast_effect(sig, caster, stack).1 matches StepView::Done(Verdict::Mishap(_)) ==> cast_effect(
            sig,
            caster,
            stack,
        ).0 == stack,
{
    reveal_strlit("qaq");
    reveal_strlit("aa");
    reveal_strlit("wa");
    reveal_strlit("de");
    reveal_strlit("aawdd");
    reveal_strlit("dsw");
}

/// Mind's Reflection pushes the caster's entity, clearing empties the stack,
/// and a pattern no known one matches fizzles with the stack left as it was.
pub proof fn lemma_simple_patterns(u: u128, caster: Option<u128>, stack: Seq<Iota>, other: Seq<char>)
    requires
        other != sig_minds_reflection(),
        other != sig_compass(),
        other != sig_alidade(),
        other != sig_reveal(),
        other != sig_jester(),
        other != sig_clear(),
    ensures
        cast_effect(sig_minds_reflection(), Some(u), stack).0 == stack.push(Iota::Entity(u)),
        cast_effect(sig_clear(), caster, stack).0 == Seq::<Iota>::empty(),
        cast_effect(other, caster, stack) == (stack, StepView::Done(Verdict::Mishap(fizzle_text(other)))),
{
    reveal_strlit("qaq");
    reveal_strlit("aa");
    reveal_strlit("wa");
    reveal_strlit("de");
    reveal_strlit("aawdd");
    reveal_strlit("dsw");
    assert(sig_clear()[0] != sig_minds_reflection()[0]);
    assert(sig_clear().len() != sig_compass().len());
    assert(sig_clear().len() != sig_alidade().len());
    assert(sig_clear().len() != sig_reveal().len());
    assert(sig_clear().len() != sig_jester().len());
}

/// One line of the stack panel for an iota value, as text parts: doubles
/// with two decimals (one in a vector), an entity by the first eight
/// characters of its UUID, a pattern by its angle signature and a list by
/// its size.
pub open spec fn line_parts(v: IotaValue) -> Seq<Part> {
    match v {
        IotaValue::Boolean(b) => seq![Part::Text(bool_text(b))],
        IotaValue::Double(d) => seq![Part::Fixed(d, 2)],
        IotaValue::Int(n) => seq![Part::Text(int_text(n as int))],
        IotaValue::Str(s) => seq![Part::Text("\""@.add(s).add("\""@))],
        IotaValue::Entity(u) => seq![Part::Text("entity "@.add(uuid_hyphenated(u).take(8)))],
        IotaValue::Vec3(x, y, z) => seq![
            Part::Text("("@),
            Part::Fixed(x, 1),
            Part::Text(", "@),
            Part::Fixed(y, 1),
            Part::Text(", "@),
            Part::Fixed(z, 1),
            Part::Text(")"@),
        ],
        IotaValue::Pattern(ds) => seq![Part::Text("pattern "@.add(signature_of(ds)))],
        IotaValue::List(l) => seq![Part::Text("["@.add(decimal(l.len())).add(" iotas]"@))],
        IotaValue::Null => seq![Part::Text("null"@)],
    }
}

fn text_part(s: &str) -> (p: TextPart)
    ensures
        p.view() == Part::Text(s@),
{
    TextPart::Text(String::from_str(s))
}

/// One line of the stack panel for an iota, as text parts.
pub fn display_iota(i: &Iota) -> (r: Vec<TextPart>)
    ensures
        parts_view(r@) == line_parts(i.value()),
{
    let mut out: Vec<TextPart> = Vec::new();
    match i {
        Iota::Boolean(b) => {
            let t = if *b {
                String::from_str("true")
            } else {
                String::from_str("false")
            };
            out.push(TextPart::Text(t));
        },
        Iota::Double(d) => out.push(TextPart::Fixed(*d, 2)),
        Iota::Int(n) => out.push(TextPart::Text(i64_text(*n))),
        Iota::String(t) => {
            let mut s = String::from_str("\"");
            s.append(t.as_str());
            s.append("\"");
            out.push(TextPart::Text(s));
        },
        Iota::Entity(u) => {
            let full = uuid_text(*u);
            proof {
                crate::iota::lemma_uuid_hyphenated_len(*u);
            }
            let mut s = String::from_str("entity ");
            s.append(full.as_str().substring_char(0, 8));
            out.push(TextPart::Text(s));
        },
        Iota::Vec3(x, y, z) => {
            out.push(text_part("("));
            out.push(TextPart::Fixed(*x, 1));
            out.push(text_part(", "));
            out.push(TextPart::Fixed(*y, 1));
            out.push(text_part(", "));
            out.push(TextPart::Fixed(*z, 1));
            out.push(text_part(")"));
        },
        Iota::Pattern(p) => {
            let mut s = String::from_str("pattern ");
            s.append(angle_signature(p).as_str());
            out.push(TextPart::Text(s));
        },
        Iota::List(l) => {
            let mut s = String::from_str("[");
            s.append(u64_text(l.len() as u64).as_str());
            s.append(" iotas]");
            out.push(TextPart::Text(s));
        },
        Iota::Null => out.push(text_part("null")),
    }
    assert(parts_view(out@) =~= line_parts(i.value()));
    out
}

/// The text of the first line of the stack packet for an outcome.
pub open spec fn marker_text(v: Verdict) -> Seq<char> {
    match v {
        Verdict::Success(name) => "#ok\t"@.add(name),
        Verdict::Mishap(msg) => "#mishap\t"@.add(msg),
    }
}

/// The stack packet that answers a cast, as text parts: the result marker,
/// then one line per iota of the stack, top first, each after a newline.
pub open spec fn packet_parts(v: Verdict, stack: Seq<IotaValue>) -> Seq<Part> {
    seq![Part::Text(marker_text(v))].add(
        Seq::new(
            stack.len(),
            |k: int| seq![Part::Text("\n"@)].add(line_parts(stack[stack.len() - 1 - k])),
        ).flatten(),
    )
}

/// The stack packet that answers a cast, as text parts.
pub fn stack_packet(o: &Outcome, stack: &Vec<Iota>) -> (r: Vec<TextPart>)
    ensures
        parts_view(r@) == packet_parts(o.verdict(), crate::casting::spell_list::values_of(stack@)),
{
    let ghost vals = crate::casting::spell_list::values_of(stack@);
    let ghost lines = Seq::new(
        vals.len(),
        |k: int| seq![Part::Text("\n"@)].add(line_parts(vals[vals.len() - 1 - k])),
    );
    let mut out: Vec<TextPart> = Vec::new();
    out.push(TextPart::Text(result_marker(o)));
    let n = stack.len();
    let mut k: usize = 0;
    assert(lines.take(0) =~= Seq::<Seq<Part>>::empty());
    assert(parts_view(out@) =~= seq![Part::Text(marker_text(o.verdict()))].add(lines.take(0).flatten()));
    while k < n
        invariant
            n == stack@.len(),
            vals == crate::casting::spell_list::values_of(stack@),
            lines == Seq::new(
                vals.len(),
                |k: int| seq![Part::Text("\n"@)].add(line_parts(vals[vals.len() - 1 - k])),
            ),
            k <= n,
            parts_view(out@) == seq![Part::Text(marker_text(o.verdict()))].add(lines.take(k as int).flatten()),
        decreases n - k,
    {
        let ghost mid = parts_view(out@);
        out.push(text_part("\n"));
        let mut line = display_iota(&stack[n - 1 - k]);
        let ghost line_view = parts_view(line@);
        let ghost with_nl = parts_view(out@);
        let ghost out_before = out@;
        let ghost line_seq = line@;
        out.append(&mut line);
        assert(parts_view(out@) =~= with_nl.add(line_view));
        proof {
            assert(vals[n - 1 - k] == stack@[n - 1 - k].value());
            assert(lines[k as int] == seq![Part::Text("\n"@)].add(line_view));
            assert(lines.take(k + 1) =~= lines.take(k as int).push(lines[k as int]));
            lines.take(k as int).lemma_flatten_push(lines[k as int]);
            assert(parts_view(out@) =~= mid.add(lines[k as int]));
        }
        k = k + 1;
    }
    assert(lines.take(k as int) =~= lines);
    out
}

/// Whether no name has two entries.
pub open spec fn distinct_names<V>(es: Seq<(String, V)>) -> bool {
    forall|i: int, j: int|
        0 <= i < es.len() && 0 <= j < es.len() && i != j ==> #[trigger] es[i].0@ != #[trigger] es[j].0@
}

/// A table from player names to values, with at most one entry per name.
pub struct NameMap<V> {
    entries: Vec<(String, V)>,
}

impl<V> NameMap<V> {
    /// The names that have an entry.
    pub closed spec fn names(&self) -> Set<Seq<char>> {
        Set::new(|n: Seq<char>| exists|i: int| 0 <= i < self.entries@.len() && self.entries@[i].0@ == n)
    }

    /// Position of the entry of `n`, for a name that has one.
    closed spec fn pos(&self, n: Seq<char>) -> int {
        choose|i: int| 0 <= i < self.entries@.len() && self.entries@[i].0@ == n
    }

    /// The table as a map from names to values.
    pub closed spec fn view(&self) -> Map<Seq<char>, V> {
        Map::new(|n: Seq<char>| self.names().contains(n), |n: Seq<char>| self.entries@[self.pos(n)].1)
    }

    /// No name has two entries.
    #[verifier::type_invariant]
    spec fn inv(self) -> bool {
        distinct_names(self.entries@)
    }

    proof fn lemma_pos(&self, i: int)
        requires
            distinct_names(self.entries@),
            0 <= i < self.entries@.len(),
        ensures
            self.pos(self.entries@[i].0@) == i,
            self.view().contains_key(self.entries@[i].0@),
            self.view()[self.entries@[i].0@] == self.entries@[i].1,
    {
        let n = self.entries@[i].0@;
        assert(self.names().contains(n));
        let p = self.pos(n);
        assert(self.entries@[p].0@ == n);
    }

    /// The names that have an entry, in the order their entries are kept.
    pub closed spec fn order(&self) -> Seq<Seq<char>> {
        self.entries@.map_values(|e: (String, V)| e.0@)
    }

    /// References to the values, one per name, in the order of `order`.
    pub fn values(&self) -> (r: Vec<&V>)
        ensures
            r@.len() == self.order().len(),
            self.order().no_duplicates(),
            forall|n: Seq<char>| self@.contains_key(n) <==> self.order().contains(n),
            forall|k: int| 0 <= k < r@.len() ==> *r@[k] == self@[#[trigger] self.order()[k]],
    {
        proof {
            use_type_invariant(self);
        }
        let mut r: Vec<&V> = Vec::new();
        let mut i: usize = 0;
        while i < self.entries.len()
            invariant
                distinct_names(self.entries@),
                i <= self.entries@.len(),
                r@.len() == i,
                forall|k: int| 0 <= k < i ==> *r@[k] == self.entries@[k].1,
            decreases self.entries@.len() - i,
        {
            r.push(&self.entries[i].1);
            i = i + 1;
        }
        proof {
            assert forall|k: int| 0 <= k < r@.len() implies *r@[k] == self@[#[trigger] self.order()[k]] by {
                self.lemma_pos(k);
            }
            assert forall|n: Seq<char>| self@.contains_key(n) <==> self.order().contains(n) by {
                if self@.contains_key(n) {
                    let k = choose|k: int| 0 <= k < self.entries@.len() && self.entries@[k].0@ == n;
                    assert(self.order()[k] == n);
                }
                if self.order().contains(n) {
                    let k = choose|k: int| 0 <= k < self.order().len() && self.order()[k] == n;
                    self.lemma_pos(k);
                }
            }
            assert forall|a: int, b: int| 0 <= a < self.order().len() && 0 <= b < self.order().len() && a != b implies self.order()[a] != self.order()[b] by {}
        }
        r
    }

    pub fn new() -> (m: Self)
        ensures
            m@ == Map::<Seq<char>, V>::empty(),
    {
        let m = NameMap { entries: Vec::new() };
        assert(m@ =~= Map::<Seq<char>, V>::empty());
        m
    }

    /// Position of the entry for `name`, if any.
    fn find(&self, name: &str) -> (r: Option<usize>)
        ensures
            r is None <==> !self@.contains_key(name@),
            r matches Some(i) ==> i < self.entries@.len() && self.entries@[i as int].0@ == name@,
    {
        proof {
            use_type_invariant(self);
        }
        let mut i: usize = 0;
        while i < self.entries.len()
            invariant
                distinct_names(self.entries@),
                i <= self.entries@.len(),
                forall|k: int| 0 <= k < i ==> self.entries@[k].0@ != name@,
            decreases self.entries@.len() - i,
        {
            if str_eq(self.entries[i].0.as_str(), name) {
                proof {
                    self.lemma_pos(i as int);
                }
                return Some(i);
            }
            i = i + 1;
        }
        assert(!self.names().contains(name@));
        None
    }

    /// The value for `name`, if it has one.
    pub fn get(&self, name: &str) -> (r: Option<&V>)
        ensures
            r is None <==> !self@.contains_key(name@),
            r matches Some(v) ==> *v == self@[name@],
    {
        proof {
            use_type_invariant(self);
        }
        match self.find(name) {
            Some(i) => {
                proof {
                    self.lemma_pos(i as int);
                }
                Some(&self.entries[i].1)
            },
            None => None,
        }
    }

    /// Set the value for `name`, replacing any value it had.
    pub fn insert(&mut self, name: &str, value: V)
        ensures
            final(self)@ == old(self)@.insert(name@, value),
    {
        proof {
            use_type_invariant(&*self);
        }
        let ghost old_map = self@;
        match self.find(name) {
            Some(i) => {
                let mut entries: Vec<(String, V)> = Vec::new();
                std::mem::swap(&mut entries, &mut self.entries);
                let ghost oe = entries@;
                entries.set(i, (String::from_str(name), value));
                proof {
                    assert forall|k: int| 0 <= k < entries@.len() implies #[trigger] entries@[k].0@ == oe[k].0@ by {}
                }
                self.entries = entries;
                proof {
                    let ghost new_entries = self.entries@;
                    assert forall|n: Seq<char>| #![auto] self.names().contains(n) <==> old_map.insert(name@, value).contains_key(n) by {
                        if self.names().contains(n) {
                            let k = choose|k: int| 0 <= k < new_entries.len() && new_entries[k].0@ == n;
                            if k != i {
                                assert(old(self).entries@[k].0@ == n);
                                assert(old(self).names().contains(n));
                            }
                        }
                        if old_map.insert(name@, value).contains_key(n) && n != name@ {
                            assert(old(self).names().contains(n));
                            let k = choose|k: int| 0 <= k < old(self).entries@.len() && old(self).entries@[k].0@ == n;
                            assert(new_entries[k].0@ == n);
                        }
                        if n == name@ {
                            assert(new_entries[i as int].0@ == n);
                        }
                    }
                    assert forall|k: int| 0 <= k < new_entries.len() implies #[trigger] self.view()[new_entries[k].0@] == old_map.insert(name@, value)[new_entries[k].0@] by {
                        self.lemma_pos(k);
                        if k != i {
                            old(self).lemma_pos(k);
                        }
                    }
                    assert forall|n: Seq<char>| self.names().contains(n) implies self.view()[n] == old_map.insert(name@, value)[n] by {
                        let k = choose|k: int| 0 <= k < new_entries.len() && new_entries[k].0@ == n;
                        assert(self.view()[new_entries[k].0@] == old_map.insert(name@, value)[new_entries[k].0@]);
                    }
                    assert(self@ =~= old_map.insert(name@, value));
                }
            },
            None => {
                let mut entries: Vec<(String, V)> = Vec::new();
                std::mem::swap(&mut entries, &mut self.entries);
                let ghost oe = entries@;
                entries.push((String::from_str(name), value));
                proof {
                    assert forall|k: int| 0 <= k < oe.len() implies #[trigger] oe[k].0@ != name@ by {
                        if oe[k].0@ == name@ {
                            assert(old(self).names().contains(name@));
                        }
                    }
                    assert forall|a: int, b: int|
                        0 <= a < entries@.len() && 0 <= b < entries@.len() && a != b implies #[trigger] entries@[a].0@
                        != #[trigger] entries@[b].0@ by {
                        if a < oe.len() && b < oe.len() {
                            assert(entries@[a] == oe[a] && entries@[b] == oe[b]);
                        } else if a < oe.len() {
                            assert(entries@[a] == oe[a]);
                        } else {
                            assert(entries@[b] == oe[b]);
                        }
                    }
                }
                self.entries = entries;
                proof {
                    let ghost new_entries = self.entries@;
                    let last = new_entries.len() - 1;
                    assert forall|n: Seq<char>| #![auto] self.names().contains(n) <==> old_map.insert(name@, value).contains_key(n) by {
                        if self.names().contains(n) {
                            let k = choose|k: int| 0 <= k < new_entries.len() && new_entries[k].0@ == n;
                            if k != last {
                                assert(old(self).entries@[k].0@ == n);
                                assert(old(self).names().contains(n));
                            }
                        }
                        if old_map.insert(name@, value).contains_key(n) && n != name@ {
                            assert(old(self).names().contains(n));
                            let k = choose|k: int| 0 <= k < old(self).entries@.len() && old(self).entries@[k].0@ == n;
                            assert(new_entries[k].0@ == n);
                        }
                        if n == name@ {
                            assert(new_entries[last].0@ == n);
                        }
                    }
                    assert forall|k: int| 0 <= k < new_entries.len() implies #[trigger] self.view()[new_entries[k].0@] == old_map.insert(name@, value)[new_entries[k].0@] by {
                        self.lemma_pos(k);
                        if k != last {
                            old(self).lemma_pos(k);
                        }
                    }
                    assert forall|n: Seq<char>| self.names().contains(n) implies self.view()[n] == old_map.insert(name@, value)[n] by {
                        let k = choose|k: int| 0 <= k < new_entries.len() && new_entries[k].0@ == n;
                        assert(self.view()[new_entries[k].0@] == old_map.insert(name@, value)[new_entries[k].0@]);
                    }
                    assert(self@ =~= old_map.insert(name@, value));
                }
            },
        }
    }

    /// Remove the entry for `name`, handing back its value.
    pub fn remove(&mut self, name: &str) -> (r: Option<V>)
        ensures
            final(self)@ == old(self)@.remove(name@),
            r is None <==> !old(self)@.contains_key(name@),
            r matches Some(v) ==> v == old(self)@[name@],
    {
        proof {
            use_type_invariant(&*self);
        }
        let ghost old_map = self@;
        match self.find(name) {
            Some(i) => {
                proof {
                    self.lemma_pos(i as int);
                }
                let mut entries: Vec<(String, V)> = Vec::new();
                std::mem::swap(&mut entries, &mut self.entries);
                let ghost oe = entries@;
                let (_, v) = entries.remove(i);
                proof {
                    assert forall|k: int| 0 <= k < entries@.len() implies #[trigger] entries@[k] == (if k < i { oe[k] } else { oe[k + 1] }) by {}
                    assert forall|a: int, b: int|
                        0 <= a < entries@.len() && 0 <= b < entries@.len() && a != b implies #[trigger] entries@[a].0@
                        != #[trigger] entries@[b].0@ by {
                        let ka = if a < i { a } else { a + 1 };
                        let kb = if b < i { b } else { b + 1 };
                        assert(entries@[a] == oe[ka]);
                        assert(entries@[b] == oe[kb]);
                    }
                }
                self.entries = entries;
                proof {
                    let ghost new_entries = self.entries@;
                    let ghost oe = old(self).entries@;
                    assert forall|k: int| 0 <= k < new_entries.len() implies #[trigger] new_entries[k] == (if k < i { oe[k] } else { oe[k + 1] }) by {}
                    assert forall|n: Seq<char>| #![auto] self.names().contains(n) <==> old_map.remove(name@).contains_key(n) by {
                        if self.names().contains(n) {
                            let k = choose|k: int| 0 <= k < new_entries.len() && new_entries[k].0@ == n;
                            let ko = if k < i { k } else { k + 1 };
                            assert(oe[ko].0@ == n);
                            assert(old(self).names().contains(n));
                        }
                        if old_map.remove(name@).contains_key(n) {
                            assert(old(self).names().contains(n));
                            let k = choose|k: int| 0 <= k < oe.len() && oe[k].0@ == n;
                            assert(k != i);
                            let kn = if k < i { k } else { k - 1 };
                            assert(new_entries[kn].0@ == n);
                        }
                    }
                    assert forall|k: int| 0 <= k < new_entries.len() implies #[trigger] self.view()[new_entries[k].0@] == old_map.remove(name@)[new_entries[k].0@] by {
                        self.lemma_pos(k);
                        let ko = if k < i { k } else { k + 1 };
                        old(self).lemma_pos(ko);
                    }
                    assert forall|n: Seq<char>| self.names().contains(n) implies self.view()[n] == old_map.remove(name@)[n] by {
                        let k = choose|k: int| 0 <= k < new_entries.len() && new_entries[k].0@ == n;
                        assert(self.view()[new_entries[k].0@] == old_map.remove(name@)[new_entries[k].0@]);
                    }
                    assert(self@ =~= old_map.remove(name@));
                }
                Some(v)
            },
            None => {
                assert(self@ =~= old_map.remove(name@));
                None
            },
        }
    }
}

/// What `String::from_utf8_lossy` gives for these bytes.
pub uninterp spec fn utf8_lossy(b: Seq<u8>) -> Seq<char>;

/// Calls `String::from_utf8_lossy`, which decodes UTF-8 and replaces each
/// invalid sequence by U+FFFD. The contract names the result and states,
/// as the standard library documents, that valid UTF-8 is decoded as it is.
#[verifier::external_body]
pub(crate) fn decode_lossy(b: &[u8]) -> (s: String)
    ensures
        s@ == utf8_lossy(b@),
        valid_utf8(b@) ==> s@ == decode_utf8(b@),
{
    String::from_utf8_lossy(b).into_owned()
}

/// Server-side casting state: the UUID of every player seen joining, and
/// each caster's stack.
pub struct CastingState {
    players: NameMap<String>,
    stacks: NameMap<Vec<Iota>>,
}

impl CastingState {
    /// Player names and the UUID text each was seen with.
    pub closed spec fn players(&self) -> Map<Seq<char>, Seq<char>> {
        self.players@.map_values(|u: String| u@)
    }

    /// Each caster's stack, bottom first. A caster without an entry has an
    /// empty stack.
    pub closed spec fn stacks(&self) -> Map<Seq<char>, Seq<Iota>> {
        self.stacks@.map_values(|v: Vec<Iota>| v@)
    }

    /// The stack of `player`, bottom first.
    pub open spec fn stack_of(&self, player: Seq<char>) -> Seq<Iota> {
        if self.stacks().contains_key(player) {
            self.stacks()[player]
        } else {
            Seq::empty()
        }
    }

    /// The entity of `player`: the UUID it was seen with, if that reads as one.
    pub open spec fn caster_of(&self, player: Seq<char>) -> Option<u128> {
        if self.players().contains_key(player) {
            uuid_parse(self.players()[player])
        } else {
            None
        }
    }

    pub fn new() -> (st: Self)
        ensures
            st.players() == Map::<Seq<char>, Seq<char>>::empty(),
            st.stacks() == Map::<Seq<char>, Seq<Iota>>::empty(),
    {
        let st = CastingState { players: NameMap::new(), stacks: NameMap::new() };
        assert(st.players() =~= Map::<Seq<char>, Seq<char>>::empty());
        assert(st.stacks() =~= Map::<Seq<char>, Seq<Iota>>::empty());
        st
    }

    /// The stack of `player`, bottom first, if the player has one.
    pub fn stack(&self, player: &str) -> (r: Option<&Vec<Iota>>)
        ensures
            r is None <==> !self.stacks().contains_key(player@),
            r matches Some(v) ==> v@ == self.stacks()[player@],
    {
        self.stacks.get(player)
    }
}

/// Remember the UUID text that a player joined with.
pub fn remember_player(st: &mut CastingState, name: &str, uuid: &str)
    ensures
        final(st).players() == old(st).players().insert(name@, uuid@),
        final(st).stacks() == old(st).stacks(),
{
    st.players.insert(name, String::from_str(uuid));
    assert(st.players() =~= old(st).players().insert(name@, uuid@));
}

/// The UUID text that `player` was seen with, if any.
pub fn uuid_of(st: &CastingState, player: &str) -> (r: Option<String>)
    ensures
        r is None <==> !st.players().contains_key(player@),
        r matches Some(u) ==> u@ == st.players()[player@],
{
    match st.players.get(player) {
        Some(u) => Some(u.clone()),
        None => None,
    }
}

/// Clear a caster's stack.
pub fn reset(st: &mut CastingState, player: &str)
    ensures
        final(st).stacks() == old(st).stacks().remove(player@),
        final(st).stack_of(player@) == Seq::<Iota>::empty(),
        final(st).players() == old(st).players(),
{
    let _ = st.stacks.remove(player);
    assert(st.stacks() =~= old(st).stacks().remove(player@));
}

/// A player used the staff: sneaking, the player's stack is cleared and the
/// grid is told to open afresh (`reset`); otherwise the grid just opens
/// (empty order). Returns the order for the grid.
pub fn use_staff(st: &mut CastingState, player: &str, sneaking: bool) -> (order: &'static str)
    ensures
        final(st).players() == old(st).players(),
        sneaking ==> final(st).stacks() == old(st).stacks().remove(player@) && order@ == "reset"@,
        !sneaking ==> final(st).stacks() == old(st).stacks() && order@ == ""@,
{
    if sneaking {
        reset(st, player);
        "reset"
    } else {
        ""
    }
}

/// Remembering a player's UUID text and then looking it up gives that text
/// back; other players are unaffected.
pub proof fn lemma_remember_then_lookup(players: Map<Seq<char>, Seq<char>>, name: Seq<char>, uuid: Seq<char>, other: Seq<char>)
    requires
        other != name,
    ensures
        players.insert(name, uuid).contains_key(name),
        players.insert(name, uuid)[name] == uuid,
        players.insert(name, uuid).contains_key(other) == players.contains_key(other),
        players.contains_key(other) ==> players.insert(name, uuid)[other] == players[other],
{
}

/// The pattern in the bytes of a cast packet, read as the compact pattern
/// form.
pub open spec fn packet_pattern(payload: Seq<u8>) -> Option<(HexDir, Seq<HexDir>)> {
    crate::math::parse_pattern_chars(utf8_lossy(payload))
}

/// Run the pattern that `player` drew, sent as the bytes of its compact form,
/// against the player's stack. `None` when the bytes hold no pattern; the
/// stack is then left alone.
pub fn start_cast(st: &mut CastingState, player: &str, payload: &[u8]) -> (r: Option<Step>)
    ensures
        final(st).players() == old(st).players(),
        r is None <==> packet_pattern(payload@) is None,
        r is None ==> final(st).stacks() == old(st).stacks(),
        r matches Some(step) ==> {
            let (start, steps) = packet_pattern(payload@).unwrap();
            let sig = signature_of(seq![start].add(steps));
            let (stack, view) = cast_effect(sig, old(st).caster_of(player@), old(st).stack_of(player@));
            &&& step.view() == view
            &&& final(st).stacks() == old(st).stacks().insert(player@, stack)
        },
{
    let text = decode_lossy(payload);
    let pattern = match HexPattern::from_serialized(text.as_str()) {
        Some(p) => p,
        None => return None,
    };
    let sig = angle_signature(&pattern);
    let caster = match uuid_of(st, player) {
        Some(u) => parse_uuid(u.as_str()),
        None => None,
    };
    let mut stack = match st.stacks.remove(player) {
        Some(v) => v,
        None => Vec::new(),
    };
    let step = execute(sig.as_str(), caster, &mut stack);
    st.stacks.insert(player, stack);
    assert(st.stacks() =~= old(st).stacks().insert(player@, stack@));
    assert(st.players() =~= old(st).players());
    Some(step)
}

/// Finish, for `player`, a pattern that asked `query` about an entity.
pub fn finish_query(st: &mut CastingState, player: &str, query: Query, answer: Option<(u64, u64, u64)>) -> (o: Outcome)
    ensures
        final(st).players() == old(st).players(),
        ({
            let (stack, verdict) = resume_effect(query, answer, old(st).stack_of(player@));
            &&& o.verdict() == verdict
            &&& final(st).stacks() == old(st).stacks().insert(player@, stack)
        }),
{
    let mut stack = match st.stacks.remove(player) {
        Some(v) => v,
        None => Vec::new(),
    };
    let o = resume(query, answer, &mut stack);
    st.stacks.insert(player, stack);
    assert(st.stacks() =~= old(st).stacks().insert(player@, stack@));
    assert(st.players() =~= old(st).players());
    o
}

/// The first line of the stack packet, which tells the grid how the cast
/// went: `#ok`, a tab and the pattern's name, or `#mishap`, a tab and why.
pub fn result_marker(o: &Outcome) -> (s: String)
    ensures
        s@ == match o.verdict() {
            Verdict::Success(name) => "#ok\t"@.add(name),
            Verdict::Mishap(msg) => "#mishap\t"@.add(msg),
        },
{
    match o {
        Outcome::Success(name) => {
            let mut s = String::from_str("#ok\t");
            s.append(name);
            s
        },
        Outcome::Mishap(msg) => {
            let mut s = String::from_str("#mishap\t");
            s.append(msg.as_str());
            s
        },
    }
}

/// The action-bar line that reports the outcome: the pattern's name, or
/// `mishap: ` and why.
pub fn actionbar_text(o: &Outcome) -> (s: String)
    ensures
        s@ == match o.verdict() {
            Verdict::Success(name) => name,
            Verdict::Mishap(msg) => "mishap: "@.add(msg),
        },
{
    match o {
        Outcome::Success(name) => String::from_str(name),
        Outcome::Mishap(msg) => {
            let mut s = String::from_str("mishap: ");
            s.append(msg.as_str());
            s
        },
    }
}

} // verus!
