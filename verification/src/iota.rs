//! Iotas: the dynamically typed values of the casting VM.
//!
//! A double is held as its IEEE-754 bit pattern and an entity reference as
//! the 128-bit value of its UUID, so that every iota is made of plain values.

use vstd::prelude::*;
use crate::math::{HexPattern, dirs_letters};
use crate::text::{i64_text, int_text, after_prefix, before_suffix, strip_prefix, strip_suffix, str_eq, int_parse, parse_i64, words, split_words, comma_pieces, split_commas, lemma_pieces_shape, comma_free, join_commas, lemma_pieces_join, pieces, sep_free, lemma_three_words};
use crate::math::parse_pattern_chars;

verus! {

/// Unique identifier for each iota type. The identifiers are exactly the
/// nine named ones, numbered from 0 (`BOOLEAN`) to 8 (`INT`).
#[allow(non_camel_case_types)]
#[derive(Debug, Clone, Copy, PartialEq, Eq, Hash, Structural)]
pub enum IotaTypeId {
    BOOLEAN,
    DOUBLE,
    ENTITY,
    LIST,
    NULL,
    PATTERN,
    VEC3,
    STRING,
    INT,
}

impl IotaTypeId {
    /// The number that identifies the type.
    pub open spec fn code(self) -> u8 {
        match self {
            IotaTypeId::BOOLEAN => 0,
            IotaTypeId::DOUBLE => 1,
            IotaTypeId::ENTITY => 2,
            IotaTypeId::LIST => 3,
            IotaTypeId::NULL => 4,
            IotaTypeId::PATTERN => 5,
            IotaTypeId::VEC3 => 6,
            IotaTypeId::STRING => 7,
            IotaTypeId::INT => 8,
        }
    }
}

/// The core Iota enum: a dynamically typed value used in the casting VM.
#[derive(Debug)]
pub enum Iota {
    Boolean(bool),
    /// A double, held as its IEEE-754 bit pattern.
    Double(u64),
    Int(i64),
    String(String),
    /// A reference to an entity, held as the 128-bit value of its UUID.
    Entity(u128),
    /// A vector of three doubles, each held as its IEEE-754 bit pattern.
    Vec3(u64, u64, u64),
    Pattern(HexPattern),
    List(Vec<Iota>),
    Null,
}

/// The mathematical value of an iota.
pub enum IotaValue {
    Boolean(bool),
    Double(u64),
    Int(i64),
    Str(Seq<char>),
    Entity(u128),
    Vec3(u64, u64, u64),
    Pattern(Seq<crate::math::HexDir>),
    List(Seq<IotaValue>),
    Null,
}

impl Iota {
    /// The value of the iota.
    pub open spec fn value(self) -> IotaValue
        decreases self,
    {
        match self {
            Iota::Boolean(b) => IotaValue::Boolean(b),
            Iota::Double(d) => IotaValue::Double(d),
            Iota::Int(i) => IotaValue::Int(i),
            Iota::String(s) => IotaValue::Str(s@),
            Iota::Entity(u) => IotaValue::Entity(u),
            Iota::Vec3(x, y, z) => IotaValue::Vec3(x, y, z),
            Iota::Pattern(p) => IotaValue::Pattern(p.dirs()),
            Iota::List(v) => IotaValue::List(
                Seq::new(
                    v@.len(),
                    |k: int|
                        if 0 <= k < v@.len() {
                            v@[k].value()
                        } else {
                            IotaValue::Null
                        },
                ),
            ),
            Iota::Null => IotaValue::Null,
        }
    }
}

impl Clone for Iota {
    /// A deep copy of the iota, with the same value.
    fn clone(&self) -> (r: Self)
        ensures
            r.value() == self.value(),
        decreases self,
    {
        match self {
            Iota::Boolean(b) => Iota::Boolean(*b),
            Iota::Double(d) => Iota::Double(*d),
            Iota::Int(i) => Iota::Int(*i),
            Iota::String(s) => Iota::String(s.clone()),
            Iota::Entity(u) => Iota::Entity(*u),
            Iota::Vec3(x, y, z) => Iota::Vec3(*x, *y, *z),
            Iota::Pattern(p) => Iota::Pattern(p.clone()),
            Iota::List(v) => {
                let mut out: Vec<Iota> = Vec::new();
                let mut i: usize = 0;
                while i < v.len()
                    invariant
                        self is List,
                        self->List_0 == *v,
                        i <= v@.len(),
                        out@.len() == i,
                        forall|k: int| 0 <= k < i ==> #[trigger] out@[k].value() == v@[k].value(),
                    decreases v@.len() - i,
                {
                    proof {
                        assert(decreases_to!(*self => self->List_0));
                        assert(decreases_to!(self->List_0 => self->List_0[i as int]));
                    }
                    let c = v[i].clone();
                    out.push(c);
                    i = i + 1;
                }
                let r = Iota::List(out);
                proof {
                    let a = r.value()->List_0;
                    let b = self.value()->List_0;
                    assert(a.len() == b.len());
                    assert forall|k: int| 0 <= k < a.len() implies a[k] == b[k] by {
                        assert(a[k] == out@[k].value());
                        assert(b[k] == v@[k].value());
                    }
                    assert(a =~= b);
                }
                r
            },
            Iota::Null => Iota::Null,
        }
    }
}

/// The type identifier of an iota value.
pub open spec fn type_of_value(v: IotaValue) -> IotaTypeId {
    match v {
        IotaValue::Boolean(_) => IotaTypeId::BOOLEAN,
        IotaValue::Double(_) => IotaTypeId::DOUBLE,
        IotaValue::Int(_) => IotaTypeId::INT,
        IotaValue::Str(_) => IotaTypeId::STRING,
        IotaValue::Entity(_) => IotaTypeId::ENTITY,
        IotaValue::Vec3(_, _, _) => IotaTypeId::VEC3,
        IotaValue::Pattern(_) => IotaTypeId::PATTERN,
        IotaValue::List(_) => IotaTypeId::LIST,
        IotaValue::Null => IotaTypeId::NULL,
    }
}

/// Whether a double, given by its IEEE-754 bits, is different from `0.0`:
/// every value but positive and negative zero is (NaN included).
pub open spec fn double_nonzero(bits: u64) -> bool {
    bits & 0x7fff_ffff_ffff_ffffu64 != 0
}

/// Whether an iota value counts as true in the VM.
pub open spec fn truthy(v: IotaValue) -> bool {
    match v {
        IotaValue::Boolean(b) => b,
        IotaValue::Null => false,
        IotaValue::Double(d) => double_nonzero(d),
        IotaValue::Int(i) => i != 0,
        IotaValue::List(l) => l.len() != 0,
        IotaValue::Str(s) => s.len() != 0,
        _ => true,
    }
}

impl Iota {
    pub fn get_type(&self) -> (t: IotaTypeId)
        ensures
            t == type_of_value(self.value()),
    {
        match self {
            Iota::Boolean(_) => IotaTypeId::BOOLEAN,
            Iota::Double(_) => IotaTypeId::DOUBLE,
            Iota::Int(_) => IotaTypeId::INT,
            Iota::String(_) => IotaTypeId::STRING,
            Iota::Entity(_) => IotaTypeId::ENTITY,
            Iota::Vec3(_, _, _) => IotaTypeId::VEC3,
            Iota::Pattern(_) => IotaTypeId::PATTERN,
            Iota::List(_) => IotaTypeId::LIST,
            Iota::Null => IotaTypeId::NULL,
        }
    }

    /// Whether this iota is considered "truthy" in the VM.
    pub fn is_truthy(&self) -> (b: bool)
        ensures
            b == truthy(self.value()),
    {
        match self {
            Iota::Boolean(b) => *b,
            Iota::Null => false,
            Iota::Double(d) => *d & 0x7fff_ffff_ffff_ffffu64 != 0,
            Iota::Int(i) => *i != 0,
            Iota::List(l) => l.len() != 0,
            Iota::String(s) => s.unicode_len() != 0,
            _ => true,
        }
    }
}

/// A piece of text that a double, or plain characters, make. A double is
/// kept as its IEEE-754 bits; turning it into characters is left to the
/// caller.
#[derive(Debug, Clone, PartialEq)]
pub enum TextPart {
    /// These characters, as they are.
    Text(String),
    /// A double, written as Rust's `Display` (`{}`) writes it.
    Double(u64),
    /// A double, written with this many decimals (`{:.N}`).
    Fixed(u64, u8),
}

/// The mathematical form of a text part.
pub enum Part {
    Text(Seq<char>),
    Double(u64),
    Fixed(u64, u8),
}

impl TextPart {
    pub open spec fn view(self) -> Part {
        match self {
            TextPart::Text(s) => Part::Text(s@),
            TextPart::Double(d) => Part::Double(d),
            TextPart::Fixed(d, n) => Part::Fixed(d, n),
        }
    }
}

/// The mathematical form of a sequence of text parts.
pub open spec fn parts_view(v: Seq<TextPart>) -> Seq<Part> {
    v.map_values(|p: TextPart| p.view())
}

/// `true` or `false`, as Rust writes a boolean.
pub open spec fn bool_text(b: bool) -> Seq<char> {
    if b {
        "true"@
    } else {
        "false"@
    }
}

/// The lower-case hexadecimal digits, by value.
pub open spec fn hex_alphabet() -> Seq<char> {
    seq!['0', '1', '2', '3', '4', '5', '6', '7', '8', '9', 'a', 'b', 'c', 'd', 'e', 'f']
}

/// The last `n` hexadecimal digits of `x`, most significant first.
pub open spec fn hex_digits(x: nat, n: nat) -> Seq<char>
    decreases n,
{
    if n == 0 {
        Seq::empty()
    } else {
        hex_digits(x / 16, (n - 1) as nat).push(hex_alphabet()[(x % 16) as int])
    }
}

/// What `uuid::Uuid`'s `Display` writes for the UUID with this 128-bit
/// value: its 32 lower-case hexadecimal digits, most significant first,
/// with a hyphen after the 8th, 12th, 16th and 20th.
pub open spec fn uuid_hyphenated(u: u128) -> Seq<char> {
    let h = hex_digits(u as nat, 32);
    h.subrange(0, 8) + seq!['-'] + h.subrange(8, 12) + seq!['-'] + h.subrange(12, 16) + seq!['-']
        + h.subrange(16, 20) + seq!['-'] + h.subrange(20, 32)
}

/// Calls `uuid::Uuid::from_u128` and the UUID's `Display`, which writes the
/// lower-case hyphenated form of the value's 16 big-endian bytes. The
/// contract states that form.
#[verifier::external_body]
pub(crate) fn uuid_text(u: u128) -> (s: String)
    ensures
        s@ == uuid_hyphenated(u),
{
    uuid::Uuid::from_u128(u).to_string()
}

/// What `uuid::Uuid::parse_str` gives for a string with these characters
/// that is not the lower-case hyphenated form of a UUID.
pub uninterp spec fn uuid_parse_other(s: Seq<char>) -> Option<u128>;

/// What `uuid::Uuid::parse_str` gives for a string with these characters:
/// the hyphenated form that `Display` writes reads back as its UUID; what
/// other texts give is `uuid_parse_other`.
pub open spec fn uuid_parse(s: Seq<char>) -> Option<u128> {
    if exists|u: u128| #[trigger] uuid_hyphenated(u) == s {
        Some(choose|u: u128| #[trigger] uuid_hyphenated(u) == s)
    } else {
        uuid_parse_other(s)
    }
}

/// Calls `uuid::Uuid::parse_str` and keeps the 128-bit value of the UUID it
/// reads. The contract states what the crate documents of the form it
/// writes: the lower-case hyphenated form of a UUID reads back as that UUID.
/// Which other texts are UUIDs, and which, is left to the `uuid` crate.
#[verifier::external_body]
pub(crate) fn parse_uuid(s: &str) -> (r: Option<u128>)
    ensures
        forall|u: u128| #[trigger] uuid_hyphenated(u) == s@ ==> r == Some(u),
        (forall|u: u128| #[trigger] uuid_hyphenated(u) != s@) ==> r == uuid_parse_other(s@),
{
    match uuid::Uuid::parse_str(s) {
        Ok(u) => Some(u.as_u128()),
        Err(_) => None,
    }
}

/// A power of sixteen.
pub open spec fn pow16(n: nat) -> nat
    decreases n,
{
    if n == 0 {
        1
    } else {
        16 * pow16((n - 1) as nat)
    }
}

proof fn lemma_hex_digits_len(x: nat, n: nat)
    ensures
        hex_digits(x, n).len() == n,
    decreases n,
{
    if n > 0 {
        lemma_hex_digits_len(x / 16, (n - 1) as nat);
    }
}

proof fn lemma_hex_alphabet_distinct(a: int, b: int)
    requires
        0 <= a < 16,
        0 <= b < 16,
        hex_alphabet()[a] == hex_alphabet()[b],
    ensures
        a == b,
{
    let h = hex_alphabet();
    assert(h[0] == '0' && h[1] == '1' && h[2] == '2' && h[3] == '3' && h[4] == '4' && h[5] == '5'
        && h[6] == '6' && h[7] == '7' && h[8] == '8' && h[9] == '9' && h[10] == 'a' && h[11] == 'b'
        && h[12] == 'c' && h[13] == 'd' && h[14] == 'e' && h[15] == 'f');
}

/// Equal digit strings come from numbers equal modulo the power of sixteen.
proof fn lemma_hex_digits_determine(x: nat, y: nat, n: nat)
    requires
        hex_digits(x, n) == hex_digits(y, n),
    ensures
        x % pow16(n) == y % pow16(n),
    decreases n,
{
    if n == 0 {
    } else {
        let m = (n - 1) as nat;
        let hx = hex_digits(x, n);
        let hy = hex_digits(y, n);
        assert(hx.drop_last() =~= hex_digits(x / 16, m));
        assert(hy.drop_last() =~= hex_digits(y / 16, m));
        lemma_hex_digits_determine(x / 16, y / 16, m);
        assert(hx.last() == hex_alphabet()[(x % 16) as int]);
        assert(hy.last() == hex_alphabet()[(y % 16) as int]);
        lemma_hex_alphabet_distinct((x % 16) as int, (y % 16) as int);
        lemma_pow16_positive(m);
        vstd::arithmetic::div_mod::lemma_mod_breakdown(x as int, 16, pow16(m) as int);
        vstd::arithmetic::div_mod::lemma_mod_breakdown(y as int, 16, pow16(m) as int);
    }
}

proof fn lemma_pow16_positive(n: nat)
    ensures
        pow16(n) > 0,
    decreases n,
{
    if n > 0 {
        lemma_pow16_positive((n - 1) as nat);
    }
}

/// Different UUIDs are written differently.
proof fn lemma_uuid_hyphenated_injective(u: u128, v: u128)
    requires
        uuid_hyphenated(u) == uuid_hyphenated(v),
    ensures
        u == v,
{
    let hu = hex_digits(u as nat, 32);
    let hv = hex_digits(v as nat, 32);
    lemma_hex_digits_len(u as nat, 32);
    lemma_hex_digits_len(v as nat, 32);
    let a = uuid_hyphenated(u);
    let b = uuid_hyphenated(v);
    assert forall|i: int| 0 <= i < 32 implies hu[i] == hv[i] by {
        if i < 8 {
            assert(a[i] == hu[i] && b[i] == hv[i]);
        } else if i < 12 {
            assert(a[i + 1] == hu[i] && b[i + 1] == hv[i]);
        } else if i < 16 {
            assert(a[i + 2] == hu[i] && b[i + 2] == hv[i]);
        } else if i < 20 {
            assert(a[i + 3] == hu[i] && b[i + 3] == hv[i]);
        } else {
            assert(a[i + 4] == hu[i] && b[i + 4] == hv[i]);
        }
    }
    assert(hu =~= hv);
    lemma_hex_digits_determine(u as nat, v as nat, 32);
    assert(pow16(32) == 0x1_0000_0000_0000_0000_0000_0000_0000_0000nat) by {
        reveal_with_fuel(pow16, 33);
    }
    vstd::arithmetic::div_mod::lemma_small_mod(u as nat, pow16(32));
    vstd::arithmetic::div_mod::lemma_small_mod(v as nat, pow16(32));
}

/// The hyphenated form of a UUID has 36 characters.
pub(crate) proof fn lemma_uuid_hyphenated_len(u: u128)
    ensures
        uuid_hyphenated(u).len() == 36,
{
    lemma_hex_digits_len(u as nat, 32);
}

/// The hyphenated form of a UUID reads back as that UUID.
pub proof fn lemma_uuid_roundtrip(u: u128)
    ensures
        uuid_parse(uuid_hyphenated(u)) == Some(u),
{
    let w = choose|w: u128| #[trigger] uuid_hyphenated(w) == uuid_hyphenated(u);
    lemma_uuid_hyphenated_injective(w, u);
}

/// What a double parser gives for a text: the answer it can give for any
/// string with these characters.
pub open spec fn parsed<F: Fn(&str) -> Option<u64>>(f: F) -> spec_fn(Seq<char>) -> Option<u64> {
    |t: Seq<char>| choose|r: Option<u64>| can_answer(f, t, r)
}

/// Whether the double parser `f` can answer `r` for a string with the
/// characters `t`.
pub open spec fn can_answer<F: Fn(&str) -> Option<u64>>(f: F, t: Seq<char>, r: Option<u64>) -> bool {
    exists|x: &str| x@ == t && #[trigger] f.ensures((x,), r)
}

/// The values that are there, in order.
pub open spec fn somes(os: Seq<Option<IotaValue>>) -> Seq<IotaValue>
    decreases os.len(),
{
    if os.len() == 0 {
        Seq::empty()
    } else {
        match os.last() {
            Some(v) => somes(os.drop_last()).push(v),
            None => somes(os.drop_last()),
        }
    }
}

/// The iota value that a storage text holds, doubles read by `pd`: the type
/// prefix decides how the rest is read; a list's text is split at every
/// comma and the pieces that hold no iota are skipped.
pub open spec fn deser_value(s: Seq<char>, pd: spec_fn(Seq<char>) -> Option<u64>) -> Option<IotaValue>
    decreases s.len(), 1int,
{
    if let Some(rest) = after_prefix(s, "bool:"@) {
        if rest == "true"@ {
            Some(IotaValue::Boolean(true))
        } else if rest == "false"@ {
            Some(IotaValue::Boolean(false))
        } else {
            None
        }
    } else if let Some(rest) = after_prefix(s, "double:"@) {
        match pd(rest) {
            Some(d) => Some(IotaValue::Double(d)),
            None => None,
        }
    } else if let Some(rest) = after_prefix(s, "int:"@) {
        match int_parse(rest) {
            Some(i) => Some(IotaValue::Int(i)),
            None => None,
        }
    } else if let Some(rest) = after_prefix(s, "str:"@) {
        Some(IotaValue::Str(rest))
    } else if let Some(rest) = after_prefix(s, "entity:"@) {
        match uuid_parse(rest) {
            Some(u) => Some(IotaValue::Entity(u)),
            None => None,
        }
    } else if let Some(rest) = after_prefix(s, "vec3:"@) {
        let ws = words(rest);
        if ws.len() == 3 {
            match (pd(ws[0]), pd(ws[1]), pd(ws[2])) {
                (Some(x), Some(y), Some(z)) => Some(IotaValue::Vec3(x, y, z)),
                _ => None,
            }
        } else {
            None
        }
    } else if let Some(rest) = after_prefix(s, "pattern:"@) {
        match parse_pattern_chars(rest) {
            Some((start, steps)) => Some(IotaValue::Pattern(seq![start].add(steps))),
            None => None,
        }
    } else if let Some(rest) = after_prefix(s, "list:["@) {
        match before_suffix(rest, "]"@) {
            Some(inner) => Some(IotaValue::List(somes(deser_pieces(comma_pieces(inner), s.len(), pd)))),
            None => None,
        }
    } else if s == "null"@ {
        Some(IotaValue::Null)
    } else {
        None
    }
}

/// The iota value, if any, that each of the pieces holds; only pieces
/// shorter than `bound` are read (every piece of a list's text is shorter
/// than the list's text).
pub open spec fn deser_pieces(ps: Seq<Seq<char>>, bound: nat, pd: spec_fn(Seq<char>) -> Option<u64>) -> Seq<Option<IotaValue>>
    decreases bound, 0int,
{
    Seq::new(
        ps.len(),
        |k: int|
            if 0 <= k < ps.len() && ps[k].len() < bound {
                deser_value(ps[k], pd)
            } else {
                None
            },
    )
}

/// The storage form of an iota value, as text parts: a type prefix and the
/// payload; a list is its items' forms between `list:[` and `]`, separated
/// by commas.
pub open spec fn serial_parts(v: IotaValue) -> Seq<Part>
    decreases v, 0int,
{
    match v {
        IotaValue::Boolean(b) => seq![Part::Text("bool:"@.add(bool_text(b)))],
        IotaValue::Double(d) => seq![Part::Text("double:"@), Part::Double(d)],
        IotaValue::Int(i) => seq![Part::Text("int:"@.add(int_text(i as int)))],
        IotaValue::Str(s) => seq![Part::Text("str:"@.add(s))],
        IotaValue::Entity(u) => seq![Part::Text("entity:"@.add(uuid_hyphenated(u)))],
        IotaValue::Vec3(x, y, z) => seq![
            Part::Text("vec3:"@),
            Part::Double(x),
            Part::Text(" "@),
            Part::Double(y),
            Part::Text(" "@),
            Part::Double(z),
        ],
        IotaValue::Pattern(ds) => seq![Part::Text("pattern:"@.add(dirs_letters(ds)))],
        IotaValue::List(items) => seq![Part::Text("list:["@)].add(list_parts(items).flatten()).push(
            Part::Text("]"@),
        ),
        IotaValue::Null => seq![Part::Text("null"@)],
    }
}

/// The text parts that each item of a list adds to the list's storage form.
pub open spec fn list_parts(items: Seq<IotaValue>) -> Seq<Seq<Part>>
    decreases items, 2int,
{
    Seq::new(
        items.len(),
        |k: int|
            if 0 <= k < items.len() {
                list_item_parts(items, k)
            } else {
                Seq::empty()
            },
    )
}

/// The text parts that item `k` of a list adds to the list's storage form:
/// its own form, after a comma unless it is the first.
pub open spec fn list_item_parts(items: Seq<IotaValue>, k: int) -> Seq<Part>
    decreases items[k], 1int,
{
    if 0 <= k < items.len() {
        if k == 0 {
            serial_parts(items[k])
        } else {
            seq![Part::Text(","@)].add(serial_parts(items[k]))
        }
    } else {
        Seq::empty()
    }
}

/// The human-readable name of an iota value, for tooltips, as text parts.
pub open spec fn display_parts(v: IotaValue) -> Seq<Part> {
    match v {
        IotaValue::Boolean(b) => seq![Part::Text(bool_text(b))],
        IotaValue::Double(d) => seq![Part::Double(d)],
        IotaValue::Int(i) => seq![Part::Text(int_text(i as int))],
        IotaValue::Str(s) => seq![Part::Text("\""@.add(s).add("\""@))],
        IotaValue::Entity(_) => seq![Part::Text("Entity"@)],
        IotaValue::Vec3(x, y, z) => seq![
            Part::Text("("@),
            Part::Double(x),
            Part::Text(", "@),
            Part::Double(y),
            Part::Text(", "@),
            Part::Double(z),
            Part::Text(")"@),
        ],
        IotaValue::Pattern(ds) => seq![Part::Text("Pattern("@.add(dirs_letters(ds)).add(")"@))],
        IotaValue::List(_) => seq![Part::Text("List"@)],
        IotaValue::Null => seq![Part::Text("Null"@)],
    }
}

fn text_part(s: &str) -> (p: TextPart)
    ensures
        p.view() == Part::Text(s@),
{
    TextPart::Text(String::from_str(s))
}

/// The text of a boolean.
fn bool_string(b: bool) -> (s: String)
    ensures
        s@ == bool_text(b),
{
    if b {
        String::from_str("true")
    } else {
        String::from_str("false")
    }
}

impl Iota {
    /// The storage form of the iota, as text parts.
    pub fn serialize(&self) -> (r: Vec<TextPart>)
        ensures
            parts_view(r@) == serial_parts(self.value()),
    {
        let mut out: Vec<TextPart> = Vec::new();
        self.serialize_into(&mut out);
        assert(parts_view(out@) =~= Seq::<Part>::empty().add(serial_parts(self.value())));
        out
    }

    fn serialize_into(&self, out: &mut Vec<TextPart>)
        ensures
            parts_view(final(out)@) == parts_view(old(out)@).add(serial_parts(self.value())),
        decreases self,
    {
        let ghost before = parts_view(out@);
        match self {
            Iota::Boolean(b) => {
                let mut s = String::from_str("bool:");
                s.append(bool_string(*b).as_str());
                out.push(TextPart::Text(s));
            },
            Iota::Double(d) => {
                out.push(text_part("double:"));
                out.push(TextPart::Double(*d));
            },
            Iota::Int(i) => {
                let mut s = String::from_str("int:");
                s.append(i64_text(*i).as_str());
                out.push(TextPart::Text(s));
            },
            Iota::String(t) => {
                let mut s = String::from_str("str:");
                s.append(t.as_str());
                out.push(TextPart::Text(s));
            },
            Iota::Entity(u) => {
                let mut s = String::from_str("entity:");
                s.append(uuid_text(*u).as_str());
                out.push(TextPart::Text(s));
            },
            Iota::Vec3(x, y, z) => {
                out.push(text_part("vec3:"));
                out.push(TextPart::Double(*x));
                out.push(text_part(" "));
                out.push(TextPart::Double(*y));
                out.push(text_part(" "));
                out.push(TextPart::Double(*z));
            },
            Iota::Pattern(p) => {
                let mut s = String::from_str("pattern:");
                s.append(p.serialized_form().as_str());
                out.push(TextPart::Text(s));
            },
            Iota::List(items) => {
                out.push(text_part("list:["));
                let ghost vals = self.value()->List_0;
                let ghost lp = list_parts(vals);
                assert(lp.take(0) =~= Seq::<Seq<Part>>::empty());
                assert(parts_view(out@) =~= before.push(Part::Text("list:["@)).add(lp.take(0).flatten()));
                let mut i: usize = 0;
                while i < items.len()
                    invariant
                        self is List,
                        self->List_0 == *items,
                        vals == self.value()->List_0,
                        lp == list_parts(vals),
                        vals.len() == items@.len(),
                        forall|k: int| 0 <= k < vals.len() ==> #[trigger] vals[k] == items@[k].value(),
                        i <= items@.len(),
                        parts_view(out@) == before.push(Part::Text("list:["@)).add(lp.take(i as int).flatten()),
                    decreases items@.len() - i,
                {
                    let ghost mid = parts_view(out@);
                    if i > 0 {
                        out.push(text_part(","));
                    }
                    proof {
                        assert(decreases_to!(*self => self->List_0));
                        assert(decreases_to!(self->List_0 => self->List_0[i as int]));
                    }
                    items[i].serialize_into(out);
                    proof {
                        assert(lp.take(i + 1) =~= lp.take(i as int).push(lp[i as int]));
                        lp.take(i as int).lemma_flatten_push(lp[i as int]);
                        assert(lp[i as int] == list_item_parts(vals, i as int));
                        assert(parts_view(out@) =~= mid.add(lp[i as int]));
                    }
                    i = i + 1;
                }
                assert(lp.take(i as int) =~= lp);
                let ghost pre = parts_view(out@);
                out.push(text_part("]"));
                proof {
                    assert(parts_view(out@) =~= pre.push(Part::Text("]"@)));
                    assert(self.value() == IotaValue::List(vals));
                    assert(serial_parts(self.value()) == seq![Part::Text("list:["@)].add(lp.flatten()).push(Part::Text("]"@)));
                    assert(parts_view(out@) =~= before.add(serial_parts(self.value())));
                }
            },
            Iota::Null => {
                out.push(text_part("null"));
            },
        }
        proof {
            assert(parts_view(out@) =~= before.add(serial_parts(self.value())));
        }
    }

    /// The human-readable name of the iota, for tooltips, as text parts.
    pub fn display_name(&self) -> (r: Vec<TextPart>)
        ensures
            parts_view(r@) == display_parts(self.value()),
    {
        let mut out: Vec<TextPart> = Vec::new();
        match self {
            Iota::Boolean(b) => out.push(TextPart::Text(bool_string(*b))),
            Iota::Double(d) => out.push(TextPart::Double(*d)),
            Iota::Int(i) => out.push(TextPart::Text(i64_text(*i))),
            Iota::String(t) => {
                let mut s = String::from_str("\"");
                s.append(t.as_str());
                s.append("\"");
                out.push(TextPart::Text(s));
            },
            Iota::Entity(_) => out.push(text_part("Entity")),
            Iota::Vec3(x, y, z) => {
                out.push(text_part("("));
                out.push(TextPart::Double(*x));
                out.push(text_part(", "));
                out.push(TextPart::Double(*y));
                out.push(text_part(", "));
                out.push(TextPart::Double(*z));
                out.push(text_part(")"));
            },
            Iota::Pattern(p) => {
                let mut s = String::from_str("Pattern(");
                s.append(p.serialized_form().as_str());
                s.append(")");
                out.push(TextPart::Text(s));
            },
            Iota::List(_) => out.push(text_part("List")),
            Iota::Null => out.push(text_part("Null")),
        }
        assert(parts_view(out@) =~= display_parts(self.value()));
        out
    }
}

/// Whether two iota values tolerate each other: they have the same type and
/// equal payloads, doubles compared by `close`; lists item by item.
pub open spec fn tolerates_value(a: IotaValue, b: IotaValue, close: spec_fn(u64, u64) -> bool) -> bool
    decreases a,
{
    match (a, b) {
        (IotaValue::Boolean(x), IotaValue::Boolean(y)) => x == y,
        (IotaValue::Double(x), IotaValue::Double(y)) => close(x, y),
        (IotaValue::Int(x), IotaValue::Int(y)) => x == y,
        (IotaValue::Str(x), IotaValue::Str(y)) => x == y,
        (IotaValue::Entity(x), IotaValue::Entity(y)) => x == y,
        (IotaValue::Vec3(x1, x2, x3), IotaValue::Vec3(y1, y2, y3)) => close(x1, y1) && close(x2, y2)
            && close(x3, y3),
        (IotaValue::Pattern(x), IotaValue::Pattern(y)) => x == y,
        (IotaValue::List(x), IotaValue::List(y)) => x.len() == y.len() && (forall|k: int|
            0 <= k < x.len() ==> tolerates_value(#[trigger] x[k], y[k], close)),
        (IotaValue::Null, IotaValue::Null) => true,
        _ => false,
    }
}

/// Whether the strings hold the same characters.
fn string_eq(a: &String, b: &String) -> (r: bool)
    ensures
        r == (a@ == b@),
{
    *a == *b
}

/// The answers that a double comparison gives: `true` where it can answer
/// `true`.
pub open spec fn answers<F: Fn(u64, u64) -> bool>(close: F) -> spec_fn(u64, u64) -> bool {
    |x: u64, y: u64| close.ensures((x, y), true)
}

/// Whether two patterns have the same directions.
fn pattern_eq(a: &HexPattern, b: &HexPattern) -> (r: bool)
    ensures
        r == (a.dirs() == b.dirs()),
{
    if a.start != b.start || a.steps.len() != b.steps.len() {
        proof {
            if a.dirs() == b.dirs() {
                assert(a.dirs()[0] == b.dirs()[0]);
                assert(a.dirs().len() == b.dirs().len());
            }
        }
        return false;
    }
    let mut i: usize = 0;
    while i < a.steps.len()
        invariant
            a.steps@.len() == b.steps@.len(),
            i <= a.steps@.len(),
            forall|k: int| 0 <= k < i ==> a.steps@[k] == b.steps@[k],
        decreases a.steps@.len() - i,
    {
        if a.steps[i] != b.steps[i] {
            proof {
                if a.dirs() == b.dirs() {
                    assert(a.dirs()[i + 1] == b.dirs()[i + 1]);
                }
            }
            return false;
        }
        i = i + 1;
    }
    assert(a.dirs() =~= b.dirs());
    true
}

impl Iota {
    /// Whether this iota tolerates (is equal to) another, within type
    /// constraints; doubles are compared by `close`, which must always answer
    /// the same for the same two doubles.
    pub fn tolerates<F: Fn(u64, u64) -> bool>(&self, other: &Self, close: &F) -> (r: bool)
        requires
            forall|x: u64, y: u64| #[trigger] close.requires((x, y)),
            forall|x: u64, y: u64|
                !(#[trigger] close.ensures((x, y), true) && close.ensures((x, y), false)),
        ensures
            r == tolerates_value(self.value(), other.value(), answers(*close)),
        decreases self,
    {
        let ghost c = answers(*close);
        if self.get_type() != other.get_type() {
            return false;
        }
        match (self, other) {
            (Iota::Boolean(a), Iota::Boolean(b)) => *a == *b,
            (Iota::Double(a), Iota::Double(b)) => close(*a, *b),
            (Iota::Int(a), Iota::Int(b)) => *a == *b,
            (Iota::String(a), Iota::String(b)) => string_eq(a, b),
            (Iota::Entity(a), Iota::Entity(b)) => *a == *b,
            (Iota::Vec3(a1, a2, a3), Iota::Vec3(b1, b2, b3)) => close(*a1, *b1) && close(*a2, *b2) && close(*a3, *b3),
            (Iota::Pattern(a), Iota::Pattern(b)) => pattern_eq(a, b),
            (Iota::List(a), Iota::List(b)) => {
                if a.len() != b.len() {
                    return false;
                }
                let ghost av = self.value()->List_0;
                let ghost bv = other.value()->List_0;
                let mut i: usize = 0;
                while i < a.len()
                    invariant
                        self is List,
                        self->List_0 == *a,
                        av == self.value()->List_0,
                        bv == other.value()->List_0,
                        av.len() == a@.len(),
                        bv.len() == b@.len(),
                        a@.len() == b@.len(),
                        forall|k: int| 0 <= k < av.len() ==> #[trigger] av[k] == a@[k].value(),
                        forall|k: int| 0 <= k < bv.len() ==> #[trigger] bv[k] == b@[k].value(),
                        forall|x: u64, y: u64| #[trigger] close.requires((x, y)),
                        forall|x: u64, y: u64|
                            !(#[trigger] close.ensures((x, y), true) && close.ensures((x, y), false)),
                        i <= a@.len(),
                        c == answers(*close),
                        forall|k: int| 0 <= k < i ==> tolerates_value(#[trigger] av[k], bv[k], c),
                    decreases a@.len() - i,
                {
                    proof {
                        assert(decreases_to!(*self => self->List_0));
                        assert(decreases_to!(self->List_0 => self->List_0[i as int]));
                    }
                    if !a[i].tolerates(&b[i], close) {
                        assert(!tolerates_value(av[i as int], bv[i as int], c));
                        return false;
                    }
                    i = i + 1;
                }
                true
            },
            (Iota::Null, Iota::Null) => true,
            _ => false,
        }
    }
}

/// Whether the double with these IEEE-754 bits is a NaN.
pub open spec fn double_is_nan(bits: u64) -> bool {
    bits & 0x7ff0_0000_0000_0000u64 == 0x7ff0_0000_0000_0000u64 && bits & 0x000f_ffff_ffff_ffffu64
        != 0
}

/// Whether two doubles, given by their IEEE-754 bits, are equal as `f64`'s
/// `==` compares them: no NaN equals anything, and positive and negative
/// zero are equal.
pub open spec fn double_eq(a: u64, b: u64) -> bool {
    &&& !double_is_nan(a)
    &&& !double_is_nan(b)
    &&& (a == b || (a & 0x7fff_ffff_ffff_ffffu64 == 0 && b & 0x7fff_ffff_ffff_ffffu64 == 0))
}

/// `f64`'s `==` on the bits of two doubles.
fn double_eq_bits(a: u64, b: u64) -> (r: bool)
    ensures
        r == double_eq(a, b),
{
    let a_nan = a & 0x7ff0_0000_0000_0000u64 == 0x7ff0_0000_0000_0000u64 && a & 0x000f_ffff_ffff_ffffu64
        != 0;
    let b_nan = b & 0x7ff0_0000_0000_0000u64 == 0x7ff0_0000_0000_0000u64 && b & 0x000f_ffff_ffff_ffffu64
        != 0;
    !a_nan && !b_nan && (a == b || (a & 0x7fff_ffff_ffff_ffffu64 == 0 && b & 0x7fff_ffff_ffff_ffffu64
        == 0))
}

/// Whether two iota values are equal: of the same kind, doubles compared as
/// `f64`'s `==` does, lists item by item.
pub open spec fn value_eq(a: IotaValue, b: IotaValue) -> bool {
    tolerates_value(a, b, |x: u64, y: u64| double_eq(x, y))
}

impl Iota {
    /// Whether two iotas are equal, doubles compared as `f64`'s `==` does.
    fn equals(&self, other: &Self) -> (r: bool)
        ensures
            r == value_eq(self.value(), other.value()),
        decreases self,
    {
        let ghost c = |x: u64, y: u64| double_eq(x, y);
        match (self, other) {
            (Iota::Boolean(a), Iota::Boolean(b)) => *a == *b,
            (Iota::Double(a), Iota::Double(b)) => double_eq_bits(*a, *b),
            (Iota::Int(a), Iota::Int(b)) => *a == *b,
            (Iota::String(a), Iota::String(b)) => string_eq(a, b),
            (Iota::Entity(a), Iota::Entity(b)) => *a == *b,
            (Iota::Vec3(a1, a2, a3), Iota::Vec3(b1, b2, b3)) => double_eq_bits(*a1, *b1)
                && double_eq_bits(*a2, *b2) && double_eq_bits(*a3, *b3),
            (Iota::Pattern(a), Iota::Pattern(b)) => pattern_eq(a, b),
            (Iota::List(a), Iota::List(b)) => {
                if a.len() != b.len() {
                    return false;
                }
                let ghost av = self.value()->List_0;
                let ghost bv = other.value()->List_0;
                let mut i: usize = 0;
                while i < a.len()
                    invariant
                        self is List,
                        self->List_0 == *a,
                        av == self.value()->List_0,
                        bv == other.value()->List_0,
                        av.len() == a@.len(),
                        bv.len() == b@.len(),
                        a@.len() == b@.len(),
                        forall|k: int| 0 <= k < av.len() ==> #[trigger] av[k] == a@[k].value(),
                        forall|k: int| 0 <= k < bv.len() ==> #[trigger] bv[k] == b@[k].value(),
                        i <= a@.len(),
                        c == (|x: u64, y: u64| double_eq(x, y)),
                        forall|k: int| 0 <= k < i ==> tolerates_value(#[trigger] av[k], bv[k], c),
                    decreases a@.len() - i,
                {
                    proof {
                        assert(decreases_to!(*self => self->List_0));
                        assert(decreases_to!(self->List_0 => self->List_0[i as int]));
                    }
                    if !a[i].equals(&b[i]) {
                        assert(!tolerates_value(av[i as int], bv[i as int], c));
                        return false;
                    }
                    i = i + 1;
                }
                true
            },
            (Iota::Null, Iota::Null) => true,
            _ => false,
        }
    }
}

impl PartialEq for Iota {
    fn eq(&self, other: &Self) -> (r: bool) {
        self.equals(other)
    }
}

impl vstd::std_specs::cmp::PartialEqSpecImpl for Iota {
    open spec fn obeys_eq_spec() -> bool {
        true
    }

    open spec fn eq_spec(&self, other: &Iota) -> bool {
        value_eq(self.value(), other.value())
    }
}

/// Whether a double parser may be called on every string and answers the
/// same for strings with the same characters.
pub open spec fn parser_ok<F: Fn(&str) -> Option<u64>>(f: F) -> bool {
    &&& forall|x: &str| #[trigger] f.requires((x,))
    &&& forall|x: &str, y: &str, r1: Option<u64>, r2: Option<u64>|
        x@ == y@ && #[trigger] f.ensures((x,), r1) && #[trigger] f.ensures((y,), r2) ==> r1 == r2
}

/// Read a double with the parser.
fn read_double<F: Fn(&str) -> Option<u64>>(f: &F, x: &str) -> (r: Option<u64>)
    requires
        parser_ok(*f),
    ensures
        r == parsed(*f)(x@),
{
    let r = f(x);
    proof {
        assert(can_answer(*f, x@, r));
        let c = choose|c: Option<u64>| can_answer(*f, x@, c);
        let y = choose|y: &str| y@ == x@ && #[trigger] f.ensures((y,), c);
        assert(f.ensures((y,), c));
    }
    r
}

impl Iota {
    /// The iota that a storage text holds, doubles read by `parse_double`
    /// (which must answer the same for the same characters); `None` when the
    /// text holds none.
    pub fn deserialize<F: Fn(&str) -> Option<u64>>(s: &str, parse_double: &F) -> (r: Option<Iota>)
        requires
            parser_ok(*parse_double),
        ensures
            r is None <==> deser_value(s@, parsed(*parse_double)) is None,
            r matches Some(i) ==> i.value() == deser_value(s@, parsed(*parse_double)).unwrap(),
        decreases s@.len(),
    {
        let ghost pd = parsed(*parse_double);
        proof {
            reveal_strlit("bool:");
            reveal_strlit("double:");
            reveal_strlit("int:");
            reveal_strlit("str:");
            reveal_strlit("entity:");
            reveal_strlit("vec3:");
            reveal_strlit("pattern:");
            reveal_strlit("list:[");
        }
        if let Some(rest) = strip_prefix(s, "bool:") {
            if str_eq(rest, "true") {
                Some(Iota::Boolean(true))
            } else if str_eq(rest, "false") {
                Some(Iota::Boolean(false))
            } else {
                None
            }
        } else if let Some(rest) = strip_prefix(s, "double:") {
            match read_double(parse_double, rest) {
                Some(d) => Some(Iota::Double(d)),
                None => None,
            }
        } else if let Some(rest) = strip_prefix(s, "int:") {
            match parse_i64(rest) {
                Some(i) => Some(Iota::Int(i)),
                None => None,
            }
        } else if let Some(rest) = strip_prefix(s, "str:") {
            Some(Iota::String(String::from_str(rest)))
        } else if let Some(rest) = strip_prefix(s, "entity:") {
            match parse_uuid(rest) {
                Some(u) => Some(Iota::Entity(u)),
                None => None,
            }
        } else if let Some(rest) = strip_prefix(s, "vec3:") {
            let ws = split_words(rest);
            if ws.len() == 3 {
                assert(ws@.map_values(|t: &str| t@)[0] == ws@[0]@);
                assert(ws@.map_values(|t: &str| t@)[1] == ws@[1]@);
                assert(ws@.map_values(|t: &str| t@)[2] == ws@[2]@);
                let x = match read_double(parse_double, ws[0]) {
                    Some(x) => x,
                    None => return None,
                };
                let y = match read_double(parse_double, ws[1]) {
                    Some(y) => y,
                    None => return None,
                };
                let z = match read_double(parse_double, ws[2]) {
                    Some(z) => z,
                    None => return None,
                };
                Some(Iota::Vec3(x, y, z))
            } else {
                None
            }
        } else if let Some(rest) = strip_prefix(s, "pattern:") {
            match HexPattern::from_serialized(rest) {
                Some(p) => Some(Iota::Pattern(p)),
                None => None,
            }
        } else if let Some(rest) = strip_prefix(s, "list:[") {
            match strip_suffix(rest, "]") {
                Some(inner) => {
                    let pieces = split_commas(inner);
                    let ghost ps = comma_pieces(inner@);
                    let ghost ds = deser_pieces(ps, s@.len(), pd);
                    proof {
                        lemma_pieces_shape(inner@, false);
                    }
                    let mut items: Vec<Iota> = Vec::new();
                    let mut k: usize = 0;
                    assert(ds.take(0) =~= Seq::<Option<IotaValue>>::empty());
                    assert(crate::casting::spell_list::values_of(items@) =~= Seq::<IotaValue>::empty());
                    while k < pieces.len()
                        invariant
                            parser_ok(*parse_double),
                            pd == parsed(*parse_double),
                            pieces@.map_values(|t: &str| t@) == ps,
                            ds == deser_pieces(ps, s@.len(), pd),
                            forall|j: int| 0 <= j < ps.len() ==> #[trigger] ps[j].len() <= inner@.len(),
                            inner@.len() < s@.len(),
                            k <= pieces@.len(),
                            crate::casting::spell_list::values_of(items@) == somes(ds.take(k as int)),
                        decreases pieces@.len() - k,
                    {
                        let piece = pieces[k];
                        assert(ps[k as int] == piece@);
                        assert(ds.take(k + 1).drop_last() =~= ds.take(k as int));
                        assert(ds[k as int] == deser_value(piece@, pd));
                        let ghost before = items@;
                        match Iota::deserialize(piece, parse_double) {
                            Some(i) => {
                                items.push(i);
                                assert(crate::casting::spell_list::values_of(items@) =~= crate::casting::spell_list::values_of(before).push(i.value()));
                            },
                            None => {},
                        }
                        k = k + 1;
                    }
                    assert(ds.take(k as int) =~= ds);
                    let r = Iota::List(items);
                    assert(r.value()->List_0 =~= crate::casting::spell_list::values_of(items@));
                    Some(r)
                },
                None => None,
            }
        } else if str_eq(s, "null") {
            Some(Iota::Null)
        } else {
            None
        }
    }
}

/// A value tolerates itself whenever the double comparison does.
pub proof fn lemma_tolerates_reflexive(v: IotaValue, close: spec_fn(u64, u64) -> bool)
    requires
        forall|x: u64| #[trigger] close(x, x),
    ensures
        tolerates_value(v, v, close),
    decreases v,
{
    if let IotaValue::List(items) = v {
        assert forall|k: int| 0 <= k < items.len() implies tolerates_value(#[trigger] items[k], items[k], close) by {
            lemma_tolerates_reflexive(items[k], close);
        }
    }
}

/// Whether a value holds no double, at any depth.
pub open spec fn double_free(v: IotaValue) -> bool
    decreases v,
{
    match v {
        IotaValue::Double(_) => false,
        IotaValue::Vec3(_, _, _) => false,
        IotaValue::List(items) => forall|k: int| 0 <= k < items.len() ==> double_free(#[trigger] items[k]),
        _ => true,
    }
}

/// Without doubles, tolerance is plain equality, whatever compares doubles:
/// a value tolerates exactly the values equal to it (two entities tolerate
/// each other exactly when their UUIDs are equal, two strings when they
/// hold the same characters, two lists when they hold equal items).
pub proof fn lemma_tolerance_without_doubles(a: IotaValue, b: IotaValue, close: spec_fn(u64, u64) -> bool)
    requires
        double_free(a),
    ensures
        tolerates_value(a, b, close) == (a == b),
    decreases a,
{
    if let IotaValue::List(x) = a {
        if let IotaValue::List(y) = b {
            if x.len() == y.len() {
                assert forall|k: int| 0 <= k < x.len() implies tolerates_value(#[trigger] x[k], y[k], close)
                    == (x[k] == y[k]) by {
                    lemma_tolerance_without_doubles(x[k], y[k], close);
                }
                if tolerates_value(a, b, close) {
                    assert(x =~= y);
                }
            }
        }
    }
}

/// Entities tolerate each other, and are equal, exactly when their UUIDs
/// are equal, whatever compares doubles.
pub proof fn lemma_entity_tolerance(x: u128, y: u128, close: spec_fn(u64, u64) -> bool)
    ensures
        tolerates_value(IotaValue::Entity(x), IotaValue::Entity(y), close) == (x == y),
        value_eq(IotaValue::Entity(x), IotaValue::Entity(y)) == (x == y),
{
    lemma_tolerance_without_doubles(IotaValue::Entity(x), IotaValue::Entity(y), close);
    lemma_tolerance_without_doubles(IotaValue::Entity(x), IotaValue::Entity(y), |p: u64, q: u64| double_eq(p, q));
}

/// Two values of different types never tolerate each other.
pub proof fn lemma_tolerance_needs_same_type(a: IotaValue, b: IotaValue, close: spec_fn(u64, u64) -> bool)
    requires
        type_of_value(a) != type_of_value(b),
    ensures
        !tolerates_value(a, b, close),
{
}

/// Tolerance is symmetric whenever the double comparison is.
pub proof fn lemma_tolerates_symmetric(a: IotaValue, b: IotaValue, close: spec_fn(u64, u64) -> bool)
    requires
        forall|x: u64, y: u64| #[trigger] close(x, y) == close(y, x),
    ensures
        tolerates_value(a, b, close) == tolerates_value(b, a, close),
    decreases a,
{
    if let (IotaValue::List(x), IotaValue::List(y)) = (a, b) {
        if x.len() == y.len() {
            assert forall|k: int| 0 <= k < x.len() implies tolerates_value(#[trigger] x[k], y[k], close)
                == tolerates_value(y[k], x[k], close) by {
                lemma_tolerates_symmetric(x[k], y[k], close);
            }
            assert((forall|k: int| 0 <= k < x.len() ==> tolerates_value(#[trigger] x[k], y[k], close))
                == (forall|k: int| 0 <= k < y.len() ==> tolerates_value(#[trigger] y[k], x[k], close)));
        }
    }
}

/// The characters that text parts make: text as it is, doubles as `wd`
/// writes them and doubles with a fixed number of decimals as `wf` writes
/// them.
pub open spec fn written(
    ps: Seq<Part>,
    wd: spec_fn(u64) -> Seq<char>,
    wf: spec_fn(u64, u8) -> Seq<char>,
) -> Seq<char>
    decreases ps.len(),
{
    if ps.len() == 0 {
        Seq::empty()
    } else {
        written(ps.drop_last(), wd, wf).add(
            match ps.last() {
                Part::Text(t) => t,
                Part::Double(d) => wd(d),
                Part::Fixed(d, n) => wf(d, n),
            },
        )
    }
}

/// Whether `wd` writes the double `d` as a non-empty word without commas or
/// white space that `pd` reads back as `d`.
pub open spec fn reads_back(d: u64, wd: spec_fn(u64) -> Seq<char>, pd: spec_fn(Seq<char>) -> Option<u64>) -> bool {
    &&& wd(d).len() > 0
    &&& sep_free(wd(d), false)
    &&& sep_free(wd(d), true)
    &&& pd(wd(d)) == Some(d)
}

/// Whether every double that the value holds itself reads back.
pub open spec fn doubles_read_back(
    v: IotaValue,
    wd: spec_fn(u64) -> Seq<char>,
    pd: spec_fn(Seq<char>) -> Option<u64>,
) -> bool {
    match v {
        IotaValue::Double(d) => reads_back(d, wd, pd),
        IotaValue::Vec3(x, y, z) => reads_back(x, wd, pd) && reads_back(y, wd, pd) && reads_back(z, wd, pd),
        _ => true,
    }
}

/// Whether a value is neither a list nor a pattern without directions.
pub open spec fn single(v: IotaValue) -> bool {
    !(v is List) && !(v is Pattern && v->Pattern_0.len() == 0)
}

/// Storing a value that is no list, nor a pattern without directions, and
/// reading the text back gives the same value, provided that its doubles
/// are written as words that the double reader reads back.
pub proof fn lemma_storage_roundtrip(
    v: IotaValue,
    wd: spec_fn(u64) -> Seq<char>,
    wf: spec_fn(u64, u8) -> Seq<char>,
    pd: spec_fn(Seq<char>) -> Option<u64>,
)
    requires
        single(v),
        doubles_read_back(v, wd, pd),
    ensures
        deser_value(written(serial_parts(v), wd, wf), pd) == Some(v),
{
    if v is Double || v is Vec3 {
        lemma_double_roundtrip(v, wd, wf, pd);
    } else {
        lemma_text_roundtrip(v, pd);
        lemma_written_one(serial_parts(v)[0]->Text_0, wd, wf);
        assert(serial_parts(v) =~= seq![Part::Text(serial_parts(v)[0]->Text_0)]);
    }
}

/// The stored text of a double or a vector: its prefix and its doubles as
/// `wd` writes them, a vector's separated by single spaces.
proof fn lemma_double_written(v: IotaValue, wd: spec_fn(u64) -> Seq<char>, wf: spec_fn(u64, u8) -> Seq<char>)
    requires
        v is Double || v is Vec3,
    ensures
        v matches IotaValue::Double(d) ==> written(serial_parts(v), wd, wf) == "double:"@ + wd(d),
        v matches IotaValue::Vec3(x, y, z) ==> written(serial_parts(v), wd, wf) == "vec3:"@ + wd(x)
            + seq![' '] + wd(y) + seq![' '] + wd(z),
{
    reveal_strlit(" ");
    let e = Seq::<Part>::empty();
    assert(written(e, wd, wf) == Seq::<char>::empty());
    match v {
        IotaValue::Double(d) => {
            let ps = serial_parts(v);
            let p1 = seq![Part::Text("double:"@)];
            assert(ps.drop_last() =~= p1);
            assert(p1.drop_last() =~= e);
            assert(written(p1, wd, wf) =~= "double:"@);
            assert(written(ps, wd, wf) =~= "double:"@ + wd(d));
        },
        IotaValue::Vec3(x, y, z) => {
            let ps = serial_parts(v);
            let p1 = seq![Part::Text("vec3:"@)];
            let p2 = p1.push(Part::Double(x));
            let p3 = p2.push(Part::Text(" "@));
            let p4 = p3.push(Part::Double(y));
            let p5 = p4.push(Part::Text(" "@));
            let p6 = p5.push(Part::Double(z));
            assert(ps =~= p6);
            assert(p1.drop_last() =~= e);
            assert(p2.drop_last() =~= p1);
            assert(p3.drop_last() =~= p2);
            assert(p4.drop_last() =~= p3);
            assert(p5.drop_last() =~= p4);
            assert(p6.drop_last() =~= p5);
            assert(" "@ =~= seq![' ']);
            assert(written(p1, wd, wf) =~= "vec3:"@);
            assert(written(p2, wd, wf) =~= "vec3:"@ + wd(x));
            assert(written(p3, wd, wf) =~= "vec3:"@ + wd(x) + seq![' ']);
            assert(written(p4, wd, wf) =~= "vec3:"@ + wd(x) + seq![' '] + wd(y));
            assert(written(p5, wd, wf) =~= "vec3:"@ + wd(x) + seq![' '] + wd(y) + seq![' ']);
            assert(written(p6, wd, wf) =~= "vec3:"@ + wd(x) + seq![' '] + wd(y) + seq![' '] + wd(z));
        },
        _ => {},
    }
}

/// A double or a vector whose doubles read back is read back from its
/// stored text.
proof fn lemma_double_roundtrip(v: IotaValue, wd: spec_fn(u64) -> Seq<char>, wf: spec_fn(u64, u8) -> Seq<char>, pd: spec_fn(Seq<char>) -> Option<u64>)
    requires
        v is Double || v is Vec3,
        doubles_read_back(v, wd, pd),
    ensures
        deser_value(written(serial_parts(v), wd, wf), pd) == Some(v),
{
    reveal_strlit("bool:");
    reveal_strlit("double:");
    reveal_strlit("int:");
    reveal_strlit("str:");
    reveal_strlit("entity:");
    reveal_strlit("vec3:");
    lemma_double_written(v, wd, wf);
    let t = written(serial_parts(v), wd, wf);
    match v {
        IotaValue::Double(d) => {
            let body = wd(d);
            assert(t[0] == 'd');
            assert(t.take(5)[0] == t[0]);
            assert(after_prefix(t, "bool:"@) is None);
            assert(after_prefix(t, "double:"@) == Some(body)) by {
                assert(t.take(7) =~= "double:"@);
                assert(t.skip(7) =~= body);
            }
            assert(deser_value(t, pd) == Some(v));
        },
        IotaValue::Vec3(x, y, z) => {
            let rest = wd(x) + seq![' '] + wd(y) + seq![' '] + wd(z);
            assert(t =~= "vec3:"@ + rest);
            assert(t[0] == 'v');
            assert(t.len() >= 7);
            assert(t.take(5)[0] == t[0]);
            assert(t.take(7)[0] == t[0]);
            assert(t.take(4)[0] == t[0]);
            assert(after_prefix(t, "bool:"@) is None);
            assert(after_prefix(t, "double:"@) is None);
            assert(after_prefix(t, "int:"@) is None);
            assert(after_prefix(t, "str:"@) is None);
            assert(after_prefix(t, "entity:"@) is None);
            assert(after_prefix(t, "vec3:"@) == Some(rest)) by {
                assert(t.take(5) =~= "vec3:"@);
                assert(t.skip(5) =~= rest);
            }
            lemma_three_words(wd(x), wd(y), wd(z));
            assert(deser_value(t, pd) == Some(v));
        },
        _ => {},
    }
}

/// The stored text of a double or a vector whose doubles read back has no
/// comma.
proof fn lemma_double_text(v: IotaValue, wd: spec_fn(u64) -> Seq<char>, wf: spec_fn(u64, u8) -> Seq<char>, pd: spec_fn(Seq<char>) -> Option<u64>)
    requires
        v is Double || v is Vec3,
        doubles_read_back(v, wd, pd),
    ensures
        comma_free(written(serial_parts(v), wd, wf)),
{
    reveal_strlit("double:");
    reveal_strlit("vec3:");
    lemma_double_written(v, wd, wf);
    assert(comma_free(seq![' ']));
    match v {
        IotaValue::Double(d) => {
            assert(comma_free("double:"@));
            lemma_sep_comma_free(wd(d));
            lemma_comma_free_add("double:"@, wd(d));
        },
        IotaValue::Vec3(x, y, z) => {
            assert(comma_free("vec3:"@));
            lemma_sep_comma_free(wd(x));
            lemma_sep_comma_free(wd(y));
            lemma_sep_comma_free(wd(z));
            let a1 = "vec3:"@ + wd(x);
            lemma_comma_free_add("vec3:"@, wd(x));
            lemma_comma_free_add(a1, seq![' ']);
            let a2 = a1 + seq![' '];
            lemma_comma_free_add(a2, wd(y));
            let a3 = a2 + wd(y);
            lemma_comma_free_add(a3, seq![' ']);
            let a4 = a3 + seq![' '];
            lemma_comma_free_add(a4, wd(z));
        },
        _ => {},
    }
}

proof fn lemma_sep_comma_free(s: Seq<char>)
    requires
        sep_free(s, false),
    ensures
        comma_free(s),
{
    assert forall|i: int| 0 <= i < s.len() implies #[trigger] s[i] != ',' by {
        assert(!crate::text::is_separator(s[i], false));
    }
}

/// A boolean, integer, string, entity, pattern or null is stored as one
/// piece of text, which reads back as the value.
proof fn lemma_text_roundtrip(v: IotaValue, pd: spec_fn(Seq<char>) -> Option<u64>)
    requires
        v is Boolean || v is Int || v is Str || v is Entity || v is Null || (v is Pattern
            && v->Pattern_0.len() > 0),
    ensures
        serial_parts(v).len() == 1,
        serial_parts(v)[0] is Text,
        deser_value(serial_parts(v)[0]->Text_0, pd) == Some(v),
{
    reveal_strlit("bool:");
    reveal_strlit("double:");
    reveal_strlit("int:");
    reveal_strlit("str:");
    reveal_strlit("entity:");
    reveal_strlit("vec3:");
    reveal_strlit("pattern:");
    reveal_strlit("list:[");
    reveal_strlit("null");
    reveal_strlit("true");
    reveal_strlit("false");
    let ps = serial_parts(v);
    assert(ps.len() == 1);
    assert(ps.drop_last() =~= Seq::<Part>::empty());
    let t = ps[0]->Text_0;
    match v {
        IotaValue::Boolean(b) => {
            assert(t =~= "bool:"@.add(bool_text(b)));
            assert(after_prefix(t, "bool:"@) == Some(bool_text(b))) by {
                assert(t.take(5) =~= "bool:"@);
                assert(t.skip(5) =~= bool_text(b));
            }
            assert("true"@ != "false"@);
            assert(deser_value(t, pd) == Some(v));
        },
        IotaValue::Int(i) => {
            let body = int_text(i as int);
            assert(t =~= "int:"@.add(body));
            assert(t[0] == 'i');
            assert(after_prefix(t, "int:"@) == Some(body)) by {
                assert(t.take(4) =~= "int:"@);
                assert(t.skip(4) =~= body);
            }
            crate::text::lemma_int_text_roundtrip(i);
            assert(after_prefix(t, "bool:"@) is None);
            assert(after_prefix(t, "double:"@) is None);
            assert(deser_value(t, pd) == Some(v));
        },
        IotaValue::Str(x) => {
            assert(t =~= "str:"@.add(x));
            assert(t[0] == 's');
            assert(after_prefix(t, "str:"@) == Some(x)) by {
                assert(t.take(4) =~= "str:"@);
                assert(t.skip(4) =~= x);
            }
            assert(after_prefix(t, "bool:"@) is None);
            assert(after_prefix(t, "double:"@) is None);
            assert(after_prefix(t, "int:"@) is None);
            assert(deser_value(t, pd) == Some(v));
        },
        IotaValue::Entity(u) => {
            let body = uuid_hyphenated(u);
            assert(t =~= "entity:"@.add(body));
            assert(t[0] == 'e');
            assert(after_prefix(t, "entity:"@) == Some(body)) by {
                assert(t.take(7) =~= "entity:"@);
                assert(t.skip(7) =~= body);
            }
            lemma_uuid_roundtrip(u);
            assert(after_prefix(t, "bool:"@) is None);
            assert(after_prefix(t, "double:"@) is None);
            assert(after_prefix(t, "int:"@) is None);
            assert(after_prefix(t, "str:"@) is None);
            assert(deser_value(t, pd) == Some(v));
        },
        IotaValue::Pattern(ds) => {
            let body = dirs_letters(ds);
            assert(t =~= "pattern:"@.add(body));
            assert(t[0] == 'p');
            assert(after_prefix(t, "pattern:"@) == Some(body)) by {
                assert(t.take(8) =~= "pattern:"@);
                assert(t.skip(8) =~= body);
            }
            crate::math::lemma_letters_parse(ds);
            assert(seq![ds[0]].add(ds.skip(1)) =~= ds);
            assert(after_prefix(t, "bool:"@) is None);
            assert(after_prefix(t, "double:"@) is None);
            assert(after_prefix(t, "int:"@) is None);
            assert(after_prefix(t, "str:"@) is None);
            assert(after_prefix(t, "entity:"@) is None);
            assert(after_prefix(t, "vec3:"@) is None);
            assert(deser_value(t, pd) == Some(v));
        },
        IotaValue::Null => {
            assert(t =~= "null"@);
            assert(t.take(4)[0] != "int:"@[0]);
            assert(t.take(4)[0] != "str:"@[0]);
            assert(after_prefix(t, "bool:"@) is None);
            assert(after_prefix(t, "double:"@) is None);
            assert(after_prefix(t, "int:"@) is None);
            assert(after_prefix(t, "str:"@) is None);
            assert(after_prefix(t, "entity:"@) is None);
            assert(after_prefix(t, "vec3:"@) is None);
            assert(after_prefix(t, "pattern:"@) is None);
            assert(after_prefix(t, "list:["@) is None);
            assert(deser_value(t, pd) == Some(v));
        },
        _ => {},
    }
}

/// Whether a value can stand as an item of a stored list and be read back:
/// no list, no pattern without directions, and no string with a comma.
pub open spec fn storable(v: IotaValue) -> bool {
    &&& single(v)
    &&& (v matches IotaValue::Str(x) ==> comma_free(x))
}

/// The stored texts of a list's items.
pub open spec fn item_texts(
    items: Seq<IotaValue>,
    wd: spec_fn(u64) -> Seq<char>,
    wf: spec_fn(u64, u8) -> Seq<char>,
) -> Seq<Seq<char>> {
    Seq::new(items.len(), |k: int| written(serial_parts(items[k]), wd, wf))
}

proof fn lemma_written_add(a: Seq<Part>, b: Seq<Part>, wd: spec_fn(u64) -> Seq<char>, wf: spec_fn(u64, u8) -> Seq<char>)
    ensures
        written(a + b, wd, wf) == written(a, wd, wf) + written(b, wd, wf),
    decreases b.len(),
{
    if b.len() == 0 {
        assert(a + b =~= a);
        assert(written(b, wd, wf) == Seq::<char>::empty());
        assert(written(a, wd, wf) + Seq::<char>::empty() =~= written(a, wd, wf));
    } else {
        lemma_written_add(a, b.drop_last(), wd, wf);
        assert((a + b).drop_last() =~= a + b.drop_last());
        assert((a + b).last() == b.last());
        let t = match b.last() {
            Part::Text(x) => x,
            Part::Double(d) => wd(d),
            Part::Fixed(d, n) => wf(d, n),
        };
        assert(written(a, wd, wf) + written(b.drop_last(), wd, wf) + t =~= written(a, wd, wf) + (
        written(b.drop_last(), wd, wf) + t));
    }
}

proof fn lemma_written_one(x: Seq<char>, wd: spec_fn(u64) -> Seq<char>, wf: spec_fn(u64, u8) -> Seq<char>)
    ensures
        written(seq![Part::Text(x)], wd, wf) == x,
{
    let s1 = seq![Part::Text(x)];
    assert(s1.drop_last() =~= Seq::<Part>::empty());
    assert(s1.last() == Part::Text(x));
    assert(written(Seq::<Part>::empty(), wd, wf) == Seq::<char>::empty());
    assert(Seq::<char>::empty() + x =~= x);
}

proof fn lemma_comma_free_add(a: Seq<char>, b: Seq<char>)
    requires
        comma_free(a),
        comma_free(b),
    ensures
        comma_free(a + b),
{
    assert forall|i: int| 0 <= i < (a + b).len() implies #[trigger] (a + b)[i] != ',' by {
        if i < a.len() {
            assert((a + b)[i] == a[i]);
        } else {
            assert((a + b)[i] == b[i - a.len()]);
        }
    }
}

proof fn lemma_hex_digits_comma_free(x: nat, n: nat)
    ensures
        comma_free(hex_digits(x, n)),
    decreases n,
{
    if n > 0 {
        lemma_hex_digits_comma_free(x / 16, (n - 1) as nat);
        let h = hex_alphabet();
        assert(h[0] == '0' && h[1] == '1' && h[2] == '2' && h[3] == '3' && h[4] == '4' && h[5] == '5'
            && h[6] == '6' && h[7] == '7' && h[8] == '8' && h[9] == '9' && h[10] == 'a' && h[11] == 'b'
            && h[12] == 'c' && h[13] == 'd' && h[14] == 'e' && h[15] == 'f');
        let c = h[(x % 16) as int];
        assert(c != ',');
        let p = hex_digits(x / 16, (n - 1) as nat);
        assert forall|i: int| 0 <= i < p.push(c).len() implies #[trigger] p.push(c)[i] != ',' by {
            if i < p.len() {
                assert(p.push(c)[i] == p[i]);
            }
        }
    }
}

proof fn lemma_sub_comma_free(s: Seq<char>, a: int, b: int)
    requires
        comma_free(s),
        0 <= a <= b <= s.len(),
    ensures
        comma_free(s.subrange(a, b)),
{
    assert forall|i: int| 0 <= i < s.subrange(a, b).len() implies #[trigger] s.subrange(a, b)[i] != ',' by {
        assert(s.subrange(a, b)[i] == s[a + i]);
    }
}

/// A storable value is stored as a text without commas.
proof fn lemma_stored_text(v: IotaValue, wd: spec_fn(u64) -> Seq<char>, wf: spec_fn(u64, u8) -> Seq<char>, pd: spec_fn(Seq<char>) -> Option<u64>)
    requires
        storable(v),
        doubles_read_back(v, wd, pd),
    ensures
        comma_free(written(serial_parts(v), wd, wf)),
{
    if v is Double || v is Vec3 {
        lemma_double_text(v, wd, wf, pd);
    } else {
        lemma_text_comma_free(v);
        lemma_written_one(serial_parts(v)[0]->Text_0, wd, wf);
        assert(serial_parts(v) =~= seq![Part::Text(serial_parts(v)[0]->Text_0)]);
    }
}

/// A storable value without doubles is stored as one piece of text, without
/// commas.
proof fn lemma_text_comma_free(v: IotaValue)
    requires
        storable(v),
        !(v is Double || v is Vec3),
    ensures
        serial_parts(v).len() == 1,
        serial_parts(v)[0] is Text,
        comma_free(serial_parts(v)[0]->Text_0),
{
    reveal_strlit("bool:");
    reveal_strlit("int:");
    reveal_strlit("str:");
    reveal_strlit("entity:");
    reveal_strlit("pattern:");
    reveal_strlit("null");
    reveal_strlit("true");
    reveal_strlit("false");
    assert(comma_free("bool:"@));
    assert(comma_free("int:"@));
    assert(comma_free("str:"@));
    assert(comma_free("entity:"@));
    assert(comma_free("pattern:"@));
    assert(comma_free("null"@));
    assert(comma_free("true"@));
    assert(comma_free("false"@));
    match v {
        IotaValue::Boolean(b) => {
            lemma_comma_free_add("bool:"@, bool_text(b));
        },
        IotaValue::Int(i) => {
            let body = int_text(i as int);
            if i < 0 {
                crate::text::lemma_decimal_reads_back((-i) as nat);
                let d = crate::text::decimal((-i) as nat);
                assert(comma_free(d)) by {
                    assert forall|k: int| 0 <= k < d.len() implies #[trigger] d[k] != ',' by {
                        assert(crate::text::is_digit(d[k]));
                    }
                }
                assert(comma_free(seq!['-']));
                lemma_comma_free_add(seq!['-'], d);
            } else {
                crate::text::lemma_decimal_reads_back(i as nat);
                let d = crate::text::decimal(i as nat);
                assert forall|k: int| 0 <= k < d.len() implies #[trigger] d[k] != ',' by {
                    assert(crate::text::is_digit(d[k]));
                }
            }
            lemma_comma_free_add("int:"@, body);
        },
        IotaValue::Str(y) => {
            lemma_comma_free_add("str:"@, y);
        },
        IotaValue::Entity(u) => {
            let h = hex_digits(u as nat, 32);
            lemma_hex_digits_len(u as nat, 32);
            lemma_hex_digits_comma_free(u as nat, 32);
            let dash = seq!['-'];
            assert(comma_free(dash));
            lemma_sub_comma_free(h, 0, 8);
            lemma_sub_comma_free(h, 8, 12);
            lemma_sub_comma_free(h, 12, 16);
            lemma_sub_comma_free(h, 16, 20);
            lemma_sub_comma_free(h, 20, 32);
            let a1 = h.subrange(0, 8) + dash;
            lemma_comma_free_add(h.subrange(0, 8), dash);
            let a2 = a1 + h.subrange(8, 12);
            lemma_comma_free_add(a1, h.subrange(8, 12));
            let a3 = a2 + dash;
            lemma_comma_free_add(a2, dash);
            let a4 = a3 + h.subrange(12, 16);
            lemma_comma_free_add(a3, h.subrange(12, 16));
            let a5 = a4 + dash;
            lemma_comma_free_add(a4, dash);
            let a6 = a5 + h.subrange(16, 20);
            lemma_comma_free_add(a5, h.subrange(16, 20));
            let a7 = a6 + dash;
            lemma_comma_free_add(a6, dash);
            lemma_comma_free_add(a7, h.subrange(20, 32));
            lemma_comma_free_add("entity:"@, uuid_hyphenated(u));
        },
        IotaValue::Pattern(ds) => {
            let l = dirs_letters(ds);
            assert forall|k: int| 0 <= k < l.len() implies #[trigger] l[k] != ',' by {
                assert(l[k] == crate::math::dir_letter(ds[k]));
            }
            lemma_comma_free_add("pattern:"@, l);
        },
        IotaValue::Null => {},
        _ => {},
    }
}

/// The stored text of the first `m` items of a list, between its brackets,
/// is their texts joined by commas.
proof fn lemma_list_text(items: Seq<IotaValue>, m: int, wd: spec_fn(u64) -> Seq<char>, wf: spec_fn(u64, u8) -> Seq<char>)
    requires
        0 <= m <= items.len(),
    ensures
        written(list_parts(items).take(m).flatten_alt(), wd, wf) == join_commas(item_texts(items, wd, wf).take(m)),
    decreases m,
{
    reveal_strlit(",");
    let ss = list_parts(items);
    let ts = item_texts(items, wd, wf);
    if m == 0 {
        assert(ss.take(0).flatten_alt() =~= Seq::<Part>::empty());
        assert(ts.take(0) =~= Seq::<Seq<char>>::empty());
    } else {
        lemma_list_text(items, m - 1, wd, wf);
        assert(ss.take(m).drop_last() =~= ss.take(m - 1));
        assert(ss.take(m).last() == list_item_parts(items, m - 1));
        let prev = ss.take(m - 1).flatten_alt();
        lemma_written_add(prev, list_item_parts(items, m - 1), wd, wf);
        assert(ts.take(m).drop_last() =~= ts.take(m - 1));
        assert(ts.take(m).last() == ts[m - 1]);
        if m == 1 {
            assert(prev =~= Seq::<Part>::empty());
            assert(written(Seq::<Part>::empty(), wd, wf) == Seq::<char>::empty());
            assert(Seq::<char>::empty() + ts[0] =~= ts[0]);
        } else {
            let x = written(serial_parts(items[m - 1]), wd, wf);
            assert(list_item_parts(items, m - 1) == seq![Part::Text(","@)] + serial_parts(items[m - 1]));
            lemma_written_add(seq![Part::Text(","@)], serial_parts(items[m - 1]), wd, wf);
            lemma_written_one(","@, wd, wf);
            assert(","@ =~= seq![',']);
            assert(written(prev, wd, wf) + (seq![','] + x) =~= written(prev, wd, wf) + seq![','] + x);
        }
    }
}

/// The values that are all there are those values.
proof fn lemma_somes_all(os: Seq<Option<IotaValue>>, vs: Seq<IotaValue>)
    requires
        os.len() == vs.len(),
        forall|k: int| 0 <= k < os.len() ==> #[trigger] os[k] == Some(vs[k]),
    ensures
        somes(os) == vs,
    decreases os.len(),
{
    if os.len() > 0 {
        lemma_somes_all(os.drop_last(), vs.drop_last());
        assert(vs.drop_last().push(vs.last()) =~= vs);
    }
}

/// The stored text of a list of storable items: its items' texts joined by
/// commas, between `list:[` and `]`.
proof fn lemma_list_whole_text(items: Seq<IotaValue>, wd: spec_fn(u64) -> Seq<char>, wf: spec_fn(u64, u8) -> Seq<char>)
    ensures
        written(serial_parts(IotaValue::List(items)), wd, wf) == "list:["@ + join_commas(item_texts(items, wd, wf))
            + "]"@,
{
    let n = items.len() as int;
    let ss = list_parts(items);
    let ts = item_texts(items, wd, wf);
    lemma_list_text(items, n, wd, wf);
    assert(ss.take(n) =~= ss);
    assert(ts.take(n) =~= ts);
    ss.lemma_flatten_and_flatten_alt_are_equivalent();
    let f = ss.flatten();
    let ps = serial_parts(IotaValue::List(items));
    assert(ps == seq![Part::Text("list:["@)] + f + seq![Part::Text("]"@)]);
    lemma_written_add(seq![Part::Text("list:["@)] + f, seq![Part::Text("]"@)], wd, wf);
    lemma_written_add(seq![Part::Text("list:["@)], f, wd, wf);
    lemma_written_one("list:["@, wd, wf);
    lemma_written_one("]"@, wd, wf);
}

/// A text that starts with `list:[` holds no other prefix that the reader
/// tries first.
proof fn lemma_list_prefix(t: Seq<char>, rest: Seq<char>)
    requires
        t == "list:["@ + rest,
    ensures
        after_prefix(t, "bool:"@) is None,
        after_prefix(t, "double:"@) is None,
        after_prefix(t, "int:"@) is None,
        after_prefix(t, "str:"@) is None,
        after_prefix(t, "entity:"@) is None,
        after_prefix(t, "vec3:"@) is None,
        after_prefix(t, "pattern:"@) is None,
        after_prefix(t, "list:["@) == Some(rest),
{
    reveal_strlit("bool:");
    reveal_strlit("double:");
    reveal_strlit("int:");
    reveal_strlit("str:");
    reveal_strlit("entity:");
    reveal_strlit("vec3:");
    reveal_strlit("pattern:");
    reveal_strlit("list:[");
    assert(t[0] == 'l');
    assert(t.take(6) =~= "list:["@);
    assert(t.skip(6) =~= rest);
}

/// The empty text holds no iota.
proof fn lemma_empty_text(pd: spec_fn(Seq<char>) -> Option<u64>)
    ensures
        deser_value(Seq::<char>::empty(), pd) is None,
{
    reveal_strlit("bool:");
    reveal_strlit("double:");
    reveal_strlit("int:");
    reveal_strlit("str:");
    reveal_strlit("entity:");
    reveal_strlit("vec3:");
    reveal_strlit("pattern:");
    reveal_strlit("list:[");
    reveal_strlit("null");
    assert(Seq::<char>::empty() != "null"@);
}

/// Storing a list whose items are no lists, no patterns without directions
/// and no strings with commas, and reading the text back, gives the same
/// list, provided that its doubles are written as words that the double
/// reader reads back.
pub proof fn lemma_list_storage_roundtrip(
    items: Seq<IotaValue>,
    wd: spec_fn(u64) -> Seq<char>,
    wf: spec_fn(u64, u8) -> Seq<char>,
    pd: spec_fn(Seq<char>) -> Option<u64>,
)
    requires
        forall|k: int| 0 <= k < items.len() ==> storable(#[trigger] items[k]),
        forall|k: int| 0 <= k < items.len() ==> doubles_read_back(#[trigger] items[k], wd, pd),
    ensures
        deser_value(written(serial_parts(IotaValue::List(items)), wd, wf), pd) == Some(IotaValue::List(items)),
{
    reveal_strlit("]");
    let n = items.len() as int;
    let ts = item_texts(items, wd, wf);
    let j = join_commas(ts);
    lemma_list_whole_text(items, wd, wf);
    let t = written(serial_parts(IotaValue::List(items)), wd, wf);
    let rest = j + "]"@;
    assert(t =~= "list:["@ + rest);
    lemma_list_prefix(t, rest);
    assert(before_suffix(rest, "]"@) == Some(j)) by {
        assert(rest.skip(rest.len() - 1) =~= "]"@);
        assert(rest.take(rest.len() - 1) =~= j);
    }
    let cs = comma_pieces(j);
    let os = deser_pieces(cs, t.len(), pd);
    if n == 0 {
        assert(ts =~= Seq::<Seq<char>>::empty());
        assert(j == Seq::<char>::empty());
        assert(cs == seq![Seq::<char>::empty()]);
        lemma_empty_text(pd);
        assert(os[0] is None);
        assert(os.drop_last() =~= Seq::<Option<IotaValue>>::empty());
        assert(somes(os) == somes(os.drop_last()));
        assert(somes(os) =~= items);
    } else {
        assert forall|k: int| 0 <= k < ts.len() implies comma_free(#[trigger] ts[k]) by {
            lemma_stored_text(items[k], wd, wf, pd);
        }
        lemma_pieces_join(ts);
        lemma_pieces_shape(j, false);
        assert forall|k: int| 0 <= k < os.len() implies #[trigger] os[k] == Some(items[k]) by {
            assert(cs[k] == ts[k]);
            assert(pieces(j, false)[k].len() <= j.len());
            assert(ts[k].len() < t.len());
            lemma_storage_roundtrip(items[k], wd, wf, pd);
        }
        lemma_somes_all(os, items);
    }
}

/// Trait for iota type descriptors.
pub trait IotaType {
    /// The identifier that `id` reports.
    spec fn spec_type_id(&self) -> IotaTypeId;

    /// The name that `name` reports.
    spec fn spec_name(&self) -> Seq<char>;

    /// The colour that `color` reports.
    spec fn spec_color(&self) -> u32;

    fn id(&self) -> (r: IotaTypeId)
        ensures
            r == self.spec_type_id(),
    ;

    fn name(&self) -> (r: &'static str)
        ensures
            r@ == self.spec_name(),
    ;

    fn color(&self) -> (r: u32)
        ensures
            r == self.spec_color(),
    ;
}

/// What a registry keeps of a registered iota type: its identifier, name
/// and colour.
#[derive(Debug, Clone, Copy)]
pub struct IotaTypeEntry {
    pub id: IotaTypeId,
    pub name: &'static str,
    pub color: u32,
}

impl IotaType for IotaTypeEntry {
    open spec fn spec_type_id(&self) -> IotaTypeId {
        self.id
    }

    open spec fn spec_name(&self) -> Seq<char> {
        self.name@
    }

    open spec fn spec_color(&self) -> u32 {
        self.color
    }

    fn id(&self) -> (r: IotaTypeId) {
        self.id
    }

    fn name(&self) -> (r: &'static str) {
        self.name
    }

    fn color(&self) -> (r: u32) {
        self.color
    }
}

/// Registry of iota types, used for deserialization and display colours.
#[derive(Debug)]
pub struct IotaTypeRegistry {
    types: Vec<IotaTypeEntry>,
}

impl IotaTypeRegistry {
    /// The registered types, in registration order.
    pub closed spec fn entries(&self) -> Seq<IotaTypeEntry> {
        self.types@
    }

    pub fn new() -> (r: Self)
        ensures
            r.entries() == Seq::<IotaTypeEntry>::empty(),
    {
        IotaTypeRegistry { types: Vec::new() }
    }

    /// Register a type: it is added after those already registered.
    pub fn register<T: IotaType>(&mut self, t: &T)
        ensures
            final(self).entries().len() == old(self).entries().len() + 1,
            final(self).entries().drop_last() == old(self).entries(),
            final(self).entries().last().id == t.spec_type_id(),
            final(self).entries().last().name@ == t.spec_name(),
            final(self).entries().last().color == t.spec_color(),
    {
        let entry = IotaTypeEntry { id: t.id(), name: t.name(), color: t.color() };
        self.types.push(entry);
        assert(self.types@.drop_last() =~= old(self).types@);
    }

    /// The first registered type whose identifier is `id`, if any.
    pub fn get(&self, id: IotaTypeId) -> (r: Option<&IotaTypeEntry>)
        ensures
            r is None <==> (forall|k: int| 0 <= k < self.entries().len() ==> self.entries()[k].id != id),
            r matches Some(e) ==> exists|k: int|
                0 <= k < self.entries().len() && self.entries()[k] == *e && e.id == id && (forall|j: int|
                    0 <= j < k ==> self.entries()[j].id != id),
    {
        let mut i: usize = 0;
        while i < self.types.len()
            invariant
                i <= self.types@.len(),
                forall|k: int| 0 <= k < i ==> self.types@[k].id != id,
            decreases self.types@.len() - i,
        {
            if self.types[i].id == id {
                return Some(&self.types[i]);
            }
            i = i + 1;
        }
        None
    }
}

/// Registering types one after another keeps them in registration order:
/// for any run of registrations from an empty registry, each of which
/// appends its entry as `register` does, the entries are the registered
/// ones in order; `get` then finds the first registered with an identifier,
/// and a later registration never shadows an earlier one.
pub proof fn lemma_registrations_in_order(es: Seq<IotaTypeEntry>, states: Seq<Seq<IotaTypeEntry>>)
    requires
        states.len() == es.len() + 1,
        states[0] == Seq::<IotaTypeEntry>::empty(),
        forall|k: int|
            0 <= k < es.len() ==> {
                &&& (#[trigger] states[k + 1]).len() == states[k].len() + 1
                &&& states[k + 1].drop_last() == states[k]
                &&& states[k + 1].last() == es[k]
            },
    ensures
        states[es.len() as int] == es,
    decreases es.len(),
{
    if es.len() > 0 {
        let n = es.len() - 1;
        lemma_registrations_in_order(es.take(n), states.take(n + 1));
        assert(states.take(n + 1)[n] == es.take(n));
        assert(states[n + 1].drop_last() == states[n]);
        assert(states[n + 1] =~= es.take(n).push(es[n]));
        assert(es.take(n).push(es[n]) =~= es);
    }
}

impl Default for IotaTypeRegistry {
    /// An empty registry.
    fn default() -> (r: Self)
        ensures
            r.entries() == Seq::<IotaTypeEntry>::empty(),
    {
        IotaTypeRegistry::new()
    }
}

pub struct BoolIotaType;

impl IotaType for BoolIotaType {
    open spec fn spec_type_id(&self) -> IotaTypeId {
        IotaTypeId::BOOLEAN
    }

    open spec fn spec_name(&self) -> Seq<char> {
        "boolean"@
    }

    open spec fn spec_color(&self) -> u32 {
        0xffff_ff55
    }

    fn id(&self) -> (r: IotaTypeId) {
        IotaTypeId::BOOLEAN
    }

    fn name(&self) -> (r: &'static str) {
        "boolean"
    }

    fn color(&self) -> (r: u32) {
        0xffff_ff55
    }
}

pub struct DoubleIotaType;

impl IotaType for DoubleIotaType {
    open spec fn spec_type_id(&self) -> IotaTypeId {
        IotaTypeId::DOUBLE
    }

    open spec fn spec_name(&self) -> Seq<char> {
        "double"@
    }

    open spec fn spec_color(&self) -> u32 {
        0xff55_55ff
    }

    fn id(&self) -> (r: IotaTypeId) {
        IotaTypeId::DOUBLE
    }

    fn name(&self) -> (r: &'static str) {
        "double"
    }

    fn color(&self) -> (r: u32) {
        0xff55_55ff
    }
}

pub struct PatternIotaType;

impl IotaType for PatternIotaType {
    open spec fn spec_type_id(&self) -> IotaTypeId {
        IotaTypeId::PATTERN
    }

    open spec fn spec_name(&self) -> Seq<char> {
        "pattern"@
    }

    open spec fn spec_color(&self) -> u32 {
        0xffff_55ff
    }

    fn id(&self) -> (r: IotaTypeId) {
        IotaTypeId::PATTERN
    }

    fn name(&self) -> (r: &'static str) {
        "pattern"
    }

    fn color(&self) -> (r: u32) {
        0xffff_55ff
    }
}

/// Register all built-in iota types into a registry: boolean, double and
/// pattern, in that order.
pub fn register_builtin_types(reg: &mut IotaTypeRegistry)
    ensures
        final(reg).entries().len() == old(reg).entries().len() + 3,
        final(reg).entries().take(old(reg).entries().len() as int) == old(reg).entries(),
        final(reg).entries()[old(reg).entries().len() as int].id == IotaTypeId::BOOLEAN,
        final(reg).entries()[old(reg).entries().len() as int].name@ == "boolean"@,
        final(reg).entries()[old(reg).entries().len() as int].color == 0xffff_ff55,
        final(reg).entries()[old(reg).entries().len() + 1int].id == IotaTypeId::DOUBLE,
        final(reg).entries()[old(reg).entries().len() + 1int].name@ == "double"@,
        final(reg).entries()[old(reg).entries().len() + 1int].color == 0xff55_55ff,
        final(reg).entries()[old(reg).entries().len() + 2int].id == IotaTypeId::PATTERN,
        final(reg).entries()[old(reg).entries().len() + 2int].name@ == "pattern"@,
        final(reg).entries()[old(reg).entries().len() + 2int].color == 0xffff_55ff,
{
    let ghost e0 = reg.entries();
    reg.register(&BoolIotaType);
    reg.register(&DoubleIotaType);
    reg.register(&PatternIotaType);
    proof {
        let e3 = reg.entries();
        assert(e3.drop_last().drop_last().drop_last() == e0);
        assert(e3.take(e0.len() as int) =~= e0);
    }
}

} // verus!
