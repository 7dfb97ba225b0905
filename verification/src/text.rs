//! Small verified helpers on strings, seen as sequences of characters.

use vstd::prelude::*;

verus! {

/// Whether `s` and `t` hold the same characters.
pub fn str_eq(s: &str, t: &str) -> (b: bool)
    ensures
        b == (s@ == t@),
{
    let n = s.unicode_len();
    let m = t.unicode_len();
    if n != m {
        return false;
    }
    let mut i: usize = 0;
    while i < n
        invariant
            n == s@.len(),
            m == t@.len(),
            n == m,
            i <= n,
            forall|j: int| 0 <= j < i ==> s@[j] == t@[j],
        decreases n - i,
    {
        if s.get_char(i) != t.get_char(i) {
            return false;
        }
        i = i + 1;
    }
    assert(s@ =~= t@);
    true
}

/// Whether `s` begins with the characters of `prefix`.
pub fn starts_with(s: &str, prefix: &str) -> (b: bool)
    ensures
        b == (prefix@.len() <= s@.len() && s@.take(prefix@.len() as int) == prefix@),
{
    let n = s.unicode_len();
    let m = prefix.unicode_len();
    if m > n {
        return false;
    }
    let mut i: usize = 0;
    while i < m
        invariant
            n == s@.len(),
            m == prefix@.len(),
            m <= n,
            i <= m,
            forall|j: int| 0 <= j < i ==> s@[j] == prefix@[j],
        decreases m - i,
    {
        if s.get_char(i) != prefix.get_char(i) {
            assert(s@.take(m as int)[i as int] != prefix@[i as int]);
            return false;
        }
        i = i + 1;
    }
    assert(s@.take(m as int) =~= prefix@);
    true
}

/// A line without its line ending: a carriage return before the newline
/// is dropped along with it.
pub open spec fn strip_cr(line: Seq<char>) -> Seq<char> {
    if line.len() > 0 && line.last() == '\r' {
        line.drop_last()
    } else {
        line
    }
}

/// The lines of a text, as `str::lines` gives them: the text is cut after
/// every newline, each newline (and a carriage return just before it) is
/// dropped, and a final line ending adds no empty line.
pub open spec fn lines_of(s: Seq<char>) -> Seq<Seq<char>>
    decreases s.len(),
{
    if s.len() == 0 {
        Seq::empty()
    } else {
        match s.index_of_first('\n') {
            None => seq![s],
            Some(i) => {
                if 0 <= i < s.len() {
                    seq![strip_cr(s.take(i))].add(lines_of(s.skip(i + 1)))
                } else {
                    Seq::empty()
                }
            },
        }
    }
}

/// The characters of each string of a sequence.
pub open spec fn texts(v: Seq<String>) -> Seq<Seq<char>> {
    v.map_values(|t: String| t@)
}

/// The lines of `text`, each without its line ending.
pub fn split_lines(text: &str) -> (r: Vec<String>)
    ensures
        texts(r@) == lines_of(text@),
{
    let n = text.unicode_len();
    let mut out: Vec<String> = Vec::new();
    let mut start: usize = 0;
    let mut i: usize = 0;
    assert(text@.skip(0) =~= text@);
    assert(texts(out@) =~= Seq::<Seq<char>>::empty());
    assert(texts(out@).add(lines_of(text@)) =~= lines_of(text@));
    while i < n
        invariant
            n == text@.len(),
            start <= i <= n,
            forall|j: int| start <= j < i ==> text@[j] != '\n',
            lines_of(text@) == texts(out@).add(lines_of(text@.skip(start as int))),
        decreases n - i,
    {
        if text.get_char(i) == '\n' {
            let mut end = i;
            if end > start && text.get_char(end - 1) == '\r' {
                end = end - 1;
            }
            let line = String::from_str(text.substring_char(start, end));
            proof {
                let rest = text@.skip(start as int);
                let k = (i - start) as int;
                rest.index_of_first_ensures('\n');
                assert(rest[k] == '\n');
                assert(rest.contains('\n'));
                let f = rest.index_of_first('\n').unwrap();
                if f < k {
                    assert(rest[f] == text@[start + f]);
                }
                assert(f == k);
                assert(strip_cr(rest.take(k)) =~= text@.subrange(start as int, end as int));
                assert(rest.skip(k + 1) =~= text@.skip(i + 1));
                assert(lines_of(rest) == seq![strip_cr(rest.take(k))].add(lines_of(rest.skip(k + 1))));
            }
            let ghost before = out@;
            out.push(line);
            proof {
                assert(texts(out@) =~= texts(before).push(line@));
                assert(texts(out@).add(lines_of(text@.skip(i + 1))) =~= texts(before).add(
                    seq![line@].add(lines_of(text@.skip(i + 1))),
                ));
            }
            start = i + 1;
        }
        i = i + 1;
    }
    if start < n {
        let line = String::from_str(text.substring_char(start, n));
        proof {
            let rest = text@.skip(start as int);
            rest.index_of_first_ensures('\n');
            if rest.contains('\n') {
                let f = rest.index_of_first('\n').unwrap();
                assert(rest[f] == text@[start + f]);
            }
            assert(rest =~= line@);
            assert(lines_of(rest) == seq![rest]);
        }
        let ghost before = out@;
        out.push(line);
        assert(texts(out@) =~= texts(before).push(line@));
        assert(texts(out@) =~= texts(before).add(lines_of(text@.skip(start as int))));
    } else {
        assert(text@.skip(start as int) =~= Seq::<char>::empty());
        assert(texts(out@) =~= texts(out@).add(lines_of(text@.skip(start as int))));
    }
    out
}

/// The decimal digit of a number below ten.
pub open spec fn digit_char(d: int) -> char {
    if d == 0 {
        '0'
    } else if d == 1 {
        '1'
    } else if d == 2 {
        '2'
    } else if d == 3 {
        '3'
    } else if d == 4 {
        '4'
    } else if d == 5 {
        '5'
    } else if d == 6 {
        '6'
    } else if d == 7 {
        '7'
    } else if d == 8 {
        '8'
    } else {
        '9'
    }
}

/// The decimal digits of a natural number, most significant first, without
/// leading zeros (zero is `0`).
pub open spec fn decimal(n: nat) -> Seq<char>
    decreases n,
{
    if n < 10 {
        seq![digit_char(n as int)]
    } else {
        decimal(n / 10).push(digit_char((n % 10) as int))
    }
}

/// An integer as Rust's `Display` writes it: a minus sign before the digits
/// of a negative number.
pub open spec fn int_text(i: int) -> Seq<char> {
    if i < 0 {
        seq!['-'].add(decimal((-i) as nat))
    } else {
        decimal(i as nat)
    }
}

/// The one-digit string of a number below ten.
fn digit_str(d: u64) -> (s: &'static str)
    requires
        d < 10,
    ensures
        s@ == seq![digit_char(d as int)],
{
    if d == 0 {
        proof {
            reveal_strlit("0");
        }
        "0"
    } else if d == 1 {
        proof {
            reveal_strlit("1");
        }
        "1"
    } else if d == 2 {
        proof {
            reveal_strlit("2");
        }
        "2"
    } else if d == 3 {
        proof {
            reveal_strlit("3");
        }
        "3"
    } else if d == 4 {
        proof {
            reveal_strlit("4");
        }
        "4"
    } else if d == 5 {
        proof {
            reveal_strlit("5");
        }
        "5"
    } else if d == 6 {
        proof {
            reveal_strlit("6");
        }
        "6"
    } else if d == 7 {
        proof {
            reveal_strlit("7");
        }
        "7"
    } else if d == 8 {
        proof {
            reveal_strlit("8");
        }
        "8"
    } else {
        proof {
            reveal_strlit("9");
        }
        "9"
    }
}

/// Append the decimal digits of `n` to `s`.
fn push_decimal(s: &mut String, n: u64)
    ensures
        final(s)@ == old(s)@.add(decimal(n as nat)),
    decreases n,
{
    if n < 10 {
        s.append(digit_str(n));
    } else {
        push_decimal(s, n / 10);
        s.append(digit_str(n % 10));
        assert(decimal(n as nat) == decimal((n / 10) as nat).push(digit_char((n % 10) as int)));
        assert(old(s)@.add(decimal((n / 10) as nat)).add(seq![digit_char((n % 10) as int)]) =~= old(s)@.add(decimal(n as nat)));
    }
}

/// The decimal form of a number, as Rust's `Display` writes it.
pub fn u64_text(n: u64) -> (s: String)
    ensures
        s@ == decimal(n as nat),
{
    let mut s = String::new();
    push_decimal(&mut s, n);
    assert(Seq::<char>::empty().add(decimal(n as nat)) =~= decimal(n as nat));
    s
}

/// The decimal form of an integer, as Rust's `Display` writes it.
pub fn i64_text(i: i64) -> (s: String)
    ensures
        s@ == int_text(i as int),
{
    if i < 0 {
        let magnitude: u64 = if i == i64::MIN {
            9_223_372_036_854_775_808u64
        } else {
            (-i) as u64
        };
        let mut s = String::from_str("-");
        proof {
            reveal_strlit("-");
        }
        push_decimal(&mut s, magnitude);
        s
    } else {
        u64_text(i as u64)
    }
}

/// `s` without the leading `prefix`, if it starts with it.
pub open spec fn after_prefix(s: Seq<char>, prefix: Seq<char>) -> Option<Seq<char>> {
    if prefix.len() <= s.len() && s.take(prefix.len() as int) == prefix {
        Some(s.skip(prefix.len() as int))
    } else {
        None
    }
}

/// `s` without the trailing `suffix`, if it ends with it.
pub open spec fn before_suffix(s: Seq<char>, suffix: Seq<char>) -> Option<Seq<char>> {
    if suffix.len() <= s.len() && s.skip(s.len() - suffix.len()) == suffix {
        Some(s.take(s.len() - suffix.len()))
    } else {
        None
    }
}

/// The rest of `s` after `prefix`, if `s` starts with it.
pub fn strip_prefix<'a>(s: &'a str, prefix: &str) -> (r: Option<&'a str>)
    ensures
        r is None <==> after_prefix(s@, prefix@) is None,
        r matches Some(t) ==> t@ == after_prefix(s@, prefix@).unwrap(),
{
    if starts_with(s, prefix) {
        let n = s.unicode_len();
        let m = prefix.unicode_len();
        Some(s.substring_char(m, n))
    } else {
        None
    }
}

/// `s` without `suffix` at its end, if it ends with it.
pub fn strip_suffix<'a>(s: &'a str, suffix: &str) -> (r: Option<&'a str>)
    ensures
        r is None <==> before_suffix(s@, suffix@) is None,
        r matches Some(t) ==> t@ == before_suffix(s@, suffix@).unwrap(),
{
    let n = s.unicode_len();
    let m = suffix.unicode_len();
    if m > n {
        return None;
    }
    let mut i: usize = 0;
    while i < m
        invariant
            n == s@.len(),
            m == suffix@.len(),
            m <= n,
            i <= m,
            forall|j: int| 0 <= j < i ==> s@[n - m + j] == suffix@[j],
        decreases m - i,
    {
        if s.get_char(n - m + i) != suffix.get_char(i) {
            assert(s@.skip(n - m)[i as int] != suffix@[i as int]);
            return None;
        }
        i = i + 1;
    }
    assert(s@.skip(n - m) =~= suffix@);
    Some(s.substring_char(0, n - m))
}

/// Whether a character has the Unicode `White_Space` property, which is
/// what `char::is_whitespace` tests.
pub open spec fn is_white(c: char) -> bool {
    ||| '\u{9}' <= c <= '\u{d}'
    ||| c == ' '
    ||| c == '\u{85}'
    ||| c == '\u{a0}'
    ||| c == '\u{1680}'
    ||| '\u{2000}' <= c <= '\u{200a}'
    ||| c == '\u{2028}'
    ||| c == '\u{2029}'
    ||| c == '\u{202f}'
    ||| c == '\u{205f}'
    ||| c == '\u{3000}'
}

/// Whether a character separates pieces: a comma, or white space when
/// `white` is set.
pub open spec fn is_separator(c: char, white: bool) -> bool {
    if white {
        is_white(c)
    } else {
        c == ','
    }
}

/// The pieces of `s` between separators, empty pieces kept, as `str::split`
/// gives them: one piece more than there are separators.
pub open spec fn pieces(s: Seq<char>, white: bool) -> Seq<Seq<char>>
    decreases s.len(),
{
    if s.len() == 0 {
        seq![Seq::empty()]
    } else {
        let p = pieces(s.drop_last(), white);
        if is_separator(s.last(), white) {
            p.push(Seq::empty())
        } else {
            p.update(p.len() - 1, p.last().push(s.last()))
        }
    }
}

/// The non-empty items of a sequence of texts.
pub open spec fn non_empty(ps: Seq<Seq<char>>) -> Seq<Seq<char>>
    decreases ps.len(),
{
    if ps.len() == 0 {
        Seq::empty()
    } else if ps.last().len() == 0 {
        non_empty(ps.drop_last())
    } else {
        non_empty(ps.drop_last()).push(ps.last())
    }
}

/// The pieces of `s` between commas, as `str::split(',')` gives them.
pub open spec fn comma_pieces(s: Seq<char>) -> Seq<Seq<char>> {
    pieces(s, false)
}

/// The words of `s`, as `str::split_whitespace` gives them: the non-empty
/// pieces between white-space characters.
pub open spec fn words(s: Seq<char>) -> Seq<Seq<char>> {
    non_empty(pieces(s, true))
}

fn is_whitespace_char(c: char) -> (b: bool)
    ensures
        b == is_white(c),
{
    ('\u{9}' <= c && c <= '\u{d}') || c == ' ' || c == '\u{85}' || c == '\u{a0}' || c == '\u{1680}'
        || ('\u{2000}' <= c && c <= '\u{200a}') || c == '\u{2028}' || c == '\u{2029}' || c
        == '\u{202f}' || c == '\u{205f}' || c == '\u{3000}'
}

/// Every piece of `s.take(i)` is a piece of text no longer than it.
pub proof fn lemma_pieces_shape(s: Seq<char>, white: bool)
    ensures
        pieces(s, white).len() >= 1,
        forall|k: int| 0 <= k < pieces(s, white).len() ==> #[trigger] pieces(s, white)[k].len() <= s.len(),
    decreases s.len(),
{
    if s.len() > 0 {
        lemma_pieces_shape(s.drop_last(), white);
    }
}

/// Whether `s` holds no comma.
pub open spec fn comma_free(s: Seq<char>) -> bool {
    forall|i: int| 0 <= i < s.len() ==> #[trigger] s[i] != ','
}

/// The texts joined with a comma between each two.
pub open spec fn join_commas(ts: Seq<Seq<char>>) -> Seq<char>
    decreases ts.len(),
{
    if ts.len() == 0 {
        Seq::empty()
    } else if ts.len() == 1 {
        ts[0]
    } else {
        join_commas(ts.drop_last()) + seq![','] + ts.last()
    }
}

/// Whether `s` holds no separator (no comma, or no white space when
/// `white` is set).
pub open spec fn sep_free(s: Seq<char>, white: bool) -> bool {
    forall|i: int| 0 <= i < s.len() ==> !is_separator(#[trigger] s[i], white)
}

/// Appending text without separators extends the last piece.
pub proof fn lemma_pieces_append_plain(a: Seq<char>, b: Seq<char>, white: bool)
    requires
        sep_free(b, white),
    ensures
        pieces(a + b, white) == pieces(a, white).update(
            pieces(a, white).len() - 1,
            pieces(a, white).last() + b,
        ),
    decreases b.len(),
{
    lemma_pieces_shape(a, white);
    let p = pieces(a, white);
    if b.len() == 0 {
        assert(a + b =~= a);
        assert(p.last() + b =~= p.last());
        assert(p.update(p.len() - 1, p.last()) =~= p);
    } else {
        let c = b.last();
        let b1 = b.drop_last();
        assert(sep_free(b1, white)) by {
            assert forall|i: int| 0 <= i < b1.len() implies !is_separator(#[trigger] b1[i], white) by {
                assert(b1[i] == b[i]);
            }
        }
        lemma_pieces_append_plain(a, b1, white);
        assert((a + b).drop_last() =~= a + b1);
        assert((a + b).last() == c);
        assert(!is_separator(c, white)) by {
            assert(!is_separator(b[b.len() - 1], white));
        }
        let q = pieces(a + b1, white);
        assert(q.len() == p.len());
        assert(q.last() == p.last() + b1);
        assert(p.last() + b1 + seq![c] =~= p.last() + b);
        assert(q.last().push(c) =~= p.last() + b);
        assert(q.update(q.len() - 1, q.last().push(c)) =~= p.update(p.len() - 1, p.last() + b));
    }
}

/// Three non-empty words without white space, joined by single spaces,
/// split back into those words.
pub proof fn lemma_three_words(a: Seq<char>, b: Seq<char>, c: Seq<char>)
    requires
        a.len() > 0,
        b.len() > 0,
        c.len() > 0,
        sep_free(a, true),
        sep_free(b, true),
        sep_free(c, true),
    ensures
        words(a + seq![' '] + b + seq![' '] + c) == seq![a, b, c],
{
    let e = Seq::<char>::empty();
    lemma_pieces_append_plain(e, a, true);
    assert(e + a =~= a);
    assert(pieces(e, true) == seq![e]);
    assert(seq![e].update(0, e + a) =~= seq![a]);
    let s1 = a + seq![' '];
    assert(s1.drop_last() =~= a);
    assert(s1.last() == ' ');
    assert(is_separator(' ', true));
    assert(pieces(s1, true) =~= seq![a, e]);
    lemma_pieces_append_plain(s1, b, true);
    let s2 = s1 + b;
    assert(seq![a, e].update(1, e + b) =~= seq![a, b]);
    assert(e + b =~= b);
    assert(pieces(s2, true) =~= seq![a, b]);
    let s3 = s2 + seq![' '];
    assert(s3.drop_last() =~= s2);
    assert(s3.last() == ' ');
    assert(pieces(s3, true) =~= seq![a, b, e]);
    lemma_pieces_append_plain(s3, c, true);
    let s4 = s3 + c;
    assert(e + c =~= c);
    assert(seq![a, b, e].update(2, e + c) =~= seq![a, b, c]);
    assert(pieces(s4, true) =~= seq![a, b, c]);
    assert(s4 =~= a + seq![' '] + b + seq![' '] + c);
    let p = seq![a, b, c];
    assert(p.drop_last() =~= seq![a, b]);
    assert(seq![a, b].drop_last() =~= seq![a]);
    assert(seq![a].drop_last() =~= Seq::<Seq<char>>::empty());
    assert(non_empty(Seq::<Seq<char>>::empty()) == Seq::<Seq<char>>::empty());
    assert(non_empty(seq![a]) =~= seq![a]);
    assert(non_empty(seq![a, b]) =~= seq![a, b]);
    assert(non_empty(p) =~= p);
}

/// A text without commas has no separator between commas.
proof fn lemma_comma_free_sep_free(s: Seq<char>)
    requires
        comma_free(s),
    ensures
        sep_free(s, false),
{
    assert forall|i: int| 0 <= i < s.len() implies !is_separator(#[trigger] s[i], false) by {
        assert(s[i] != ',');
    }
}

/// Splitting texts without commas, joined by commas, at the commas gives
/// the texts back.
pub proof fn lemma_pieces_join(ts: Seq<Seq<char>>)
    requires
        ts.len() >= 1,
        forall|k: int| 0 <= k < ts.len() ==> comma_free(#[trigger] ts[k]),
    ensures
        comma_pieces(join_commas(ts)) == ts,
    decreases ts.len(),
{
    if ts.len() == 1 {
        lemma_comma_free_sep_free(ts[0]);
        lemma_pieces_append_plain(Seq::empty(), ts[0], false);
        assert(Seq::<char>::empty() + ts[0] =~= ts[0]);
        assert(Seq::<char>::empty() + ts[0] =~= ts[0]);
        assert(pieces(Seq::<char>::empty(), false) == seq![Seq::<char>::empty()]);
        assert(seq![Seq::<char>::empty()].update(0, Seq::<char>::empty() + ts[0]) =~= ts);
    } else {
        let d = ts.drop_last();
        lemma_pieces_join(d);
        let j = join_commas(d);
        let jc = j + seq![','];
        assert(jc.drop_last() =~= j);
        assert(jc.last() == ',');
        assert(pieces(jc, false) == d.push(Seq::<char>::empty()));
        assert(comma_free(ts[ts.len() - 1]));
        lemma_comma_free_sep_free(ts.last());
        lemma_pieces_append_plain(jc, ts.last(), false);
        assert(Seq::<char>::empty() + ts.last() =~= ts.last());
        assert(d.push(Seq::<char>::empty()).update(d.len() as int, Seq::<char>::empty() + ts.last()) =~= ts);
    }
}

/// The pieces of `s` between separators (commas, or white space when
/// `white` is set), empty pieces kept.
fn split_pieces(s: &str, white: bool) -> (r: Vec<&str>)
    ensures
        r@.map_values(|t: &str| t@) == pieces(s@, white),
{
    let n = s.unicode_len();
    let mut out: Vec<&str> = Vec::new();
    let mut start: usize = 0;
    let mut i: usize = 0;
    assert(s@.take(0) =~= Seq::<char>::empty());
    assert(s@.subrange(0, 0) =~= Seq::<char>::empty());
    assert(out@.map_values(|t: &str| t@).push(s@.subrange(0, 0)) =~= pieces(s@.take(0), white));
    while i < n
        invariant
            n == s@.len(),
            start <= i <= n,
            out@.map_values(|t: &str| t@).push(s@.subrange(start as int, i as int)) == pieces(
                s@.take(i as int),
                white,
            ),
        decreases n - i,
    {
        let c = s.get_char(i);
        let sep = if white {
            is_whitespace_char(c)
        } else {
            c == ','
        };
        let ghost before = out@.map_values(|t: &str| t@);
        assert(s@.take(i + 1).drop_last() =~= s@.take(i as int));
        assert(s@.take(i + 1).last() == c);
        if sep {
            let ghost old_start = start;
            out.push(s.substring_char(start, i));
            start = i + 1;
            assert(out@.map_values(|t: &str| t@) =~= before.push(s@.subrange(old_start as int, i as int)));
            assert(s@.subrange(start as int, i + 1) =~= Seq::<char>::empty());
        } else {
            assert(s@.subrange(start as int, i + 1) =~= s@.subrange(start as int, i as int).push(c));
        }
        i = i + 1;
        assert(out@.map_values(|t: &str| t@).push(s@.subrange(start as int, i as int)) =~= pieces(
            s@.take(i as int),
            white,
        ));
    }
    let ghost before = out@.map_values(|t: &str| t@);
    out.push(s.substring_char(start, n));
    assert(s@.take(n as int) =~= s@);
    assert(out@.map_values(|t: &str| t@) =~= before.push(s@.subrange(start as int, n as int)));
    out
}

/// The pieces of `s` between commas, as `str::split(',')` gives them.
pub fn split_commas(s: &str) -> (r: Vec<&str>)
    ensures
        r@.map_values(|t: &str| t@) == comma_pieces(s@),
{
    split_pieces(s, false)
}

/// The words of `s`, as `str::split_whitespace` gives them.
pub fn split_words(s: &str) -> (r: Vec<&str>)
    ensures
        r@.map_values(|t: &str| t@) == words(s@),
{
    let all = split_pieces(s, true);
    let ghost ps = pieces(s@, true);
    let mut out: Vec<&str> = Vec::new();
    let mut i: usize = 0;
    assert(ps.take(0) =~= Seq::<Seq<char>>::empty());
    while i < all.len()
        invariant
            all@.map_values(|t: &str| t@) == ps,
            i <= all@.len(),
            out@.map_values(|t: &str| t@) == non_empty(ps.take(i as int)),
        decreases all@.len() - i,
    {
        let t = all[i];
        let ghost before = out@.map_values(|t: &str| t@);
        assert(ps.take(i + 1).drop_last() =~= ps.take(i as int));
        assert(ps.take(i + 1).last() == t@);
        if t.unicode_len() > 0 {
            out.push(t);
            assert(out@.map_values(|t: &str| t@) =~= before.push(t@));
        }
        i = i + 1;
    }
    assert(ps.take(i as int) =~= ps);
    out
}

/// Whether a character is an ASCII decimal digit.
pub open spec fn is_digit(c: char) -> bool {
    '0' <= c <= '9'
}

/// The number that a sequence of ASCII digits writes in decimal.
pub open spec fn digits_value(ds: Seq<char>) -> int
    decreases ds.len(),
{
    if ds.len() == 0 {
        0
    } else {
        digits_value(ds.drop_last()) * 10 + (ds.last() as int - '0' as int)
    }
}

/// The digits part of a number's text: what follows a leading sign.
pub open spec fn sign_body(s: Seq<char>) -> Seq<char> {
    if s.len() > 0 && (s[0] == '-' || s[0] == '+') {
        s.skip(1)
    } else {
        s
    }
}

/// Whether every character is an ASCII decimal digit.
pub open spec fn all_digits(ds: Seq<char>) -> bool {
    forall|i: int| 0 <= i < ds.len() ==> is_digit(#[trigger] ds[i])
}

/// What `str::parse::<i64>` gives: an optional `+` or `-`, then one or more
/// ASCII digits, and a value that fits in `i64`.
pub open spec fn int_parse(s: Seq<char>) -> Option<i64> {
    let neg = s.len() > 0 && s[0] == '-';
    let body = sign_body(s);
    if body.len() == 0 || !all_digits(body) {
        None
    } else {
        let v = if neg {
            -digits_value(body)
        } else {
            digits_value(body)
        };
        if i64::MIN <= v <= i64::MAX {
            Some(v as i64)
        } else {
            None
        }
    }
}

proof fn lemma_digit_char(d: int)
    requires
        0 <= d < 10,
    ensures
        is_digit(digit_char(d)),
        digit_char(d) as int - '0' as int == d,
{
}

/// The decimal form of a natural number is made of digits and reads back
/// as the number.
pub proof fn lemma_decimal_reads_back(n: nat)
    ensures
        decimal(n).len() > 0,
        all_digits(decimal(n)),
        digits_value(decimal(n)) == n,
    decreases n,
{
    lemma_digit_char((n % 10) as int);
    if n < 10 {
        assert(decimal(n).drop_last() =~= Seq::<char>::empty());
        assert(digits_value(Seq::<char>::empty()) == 0);
        assert(decimal(n).last() == digit_char(n as int));
        assert(digits_value(decimal(n)) == digits_value(decimal(n).drop_last()) * 10 + (decimal(n).last() as int - '0' as int));
    }
    if n >= 10 {
        lemma_decimal_reads_back(n / 10);
        let t = decimal(n);
        assert(t.drop_last() =~= decimal(n / 10));
        assert(t.last() == digit_char((n % 10) as int));
        assert(digits_value(t) == digits_value(t.drop_last()) * 10 + (t.last() as int - '0' as int));
        assert((n / 10) * 10 + n % 10 == n);
        assert forall|i: int| 0 <= i < t.len() implies is_digit(#[trigger] t[i]) by {
            if i < t.len() - 1 {
                assert(t[i] == decimal(n / 10)[i]);
            }
        }
    }
}

/// Writing an integer in decimal and reading it back with `int_parse`
/// gives the integer.
pub proof fn lemma_int_text_roundtrip(i: i64)
    ensures
        int_parse(int_text(i as int)) == Some(i),
{
    if i < 0 {
        let m = (-(i as int)) as nat;
        lemma_decimal_reads_back(m);
        let t = int_text(i as int);
        assert(t[0] == '-');
        assert(t.skip(1) =~= decimal(m));
    } else {
        lemma_decimal_reads_back(i as nat);
        let t = decimal(i as nat);
        assert(is_digit(t[0]));
    }
}

proof fn lemma_digits_value_nonneg(ds: Seq<char>)
    requires
        forall|i: int| 0 <= i < ds.len() ==> is_digit(#[trigger] ds[i]),
    ensures
        digits_value(ds) >= 0,
    decreases ds.len(),
{
    if ds.len() > 0 {
        lemma_digits_value_nonneg(ds.drop_last());
    }
}

proof fn lemma_digits_value_grows(ds: Seq<char>, k: int)
    requires
        forall|i: int| 0 <= i < ds.len() ==> is_digit(#[trigger] ds[i]),
        0 <= k <= ds.len(),
    ensures
        digits_value(ds.take(k)) <= digits_value(ds),
    decreases ds.len() - k,
{
    if k < ds.len() {
        lemma_digits_value_grows(ds, k + 1);
        assert(ds.take(k + 1).drop_last() =~= ds.take(k));
        lemma_digits_value_nonneg(ds.take(k));
    } else {
        assert(ds.take(k) =~= ds);
    }
}

/// The integer that `s` writes, as `str::parse::<i64>` reads it.
pub fn parse_i64(s: &str) -> (r: Option<i64>)
    ensures
        r == int_parse(s@),
{
    let n = s.unicode_len();
    if n == 0 {
        return None;
    }
    let first = s.get_char(0);
    let neg = first == '-';
    let start: usize = if first == '-' || first == '+' {
        1
    } else {
        0
    };
    let ghost body = s@.skip(start as int);
    assert(body == sign_body(s@));
    if start == n {
        return None;
    }
    let limit: u64 = 9_223_372_036_854_775_808u64;
    let mut v: u64 = 0;
    let mut i: usize = start;
    assert(body.take(0) =~= Seq::<char>::empty());
    while i < n
        invariant
            n == s@.len(),
            start <= i <= n,
            start < n,
            body == s@.skip(start as int),
            body == sign_body(s@),
            limit == 9_223_372_036_854_775_808u64,
            forall|j: int| 0 <= j < i - start ==> is_digit(#[trigger] body[j]),
            v == digits_value(body.take(i - start)),
            v <= limit,
        decreases n - i,
    {
        let c = s.get_char(i);
        assert(body[i - start] == c);
        if !('0' <= c && c <= '9') {
            assert(!is_digit(body[i - start]));
            assert(body.len() == n - start);
            assert(!all_digits(body));
            assert(int_parse(s@) is None);
            return None;
        }
        let d = (c as u32 - '0' as u32) as u64;
        assert(d <= 9);
        assert(d == c as int - '0' as int);
        assert(body.take(i + 1 - start).drop_last() =~= body.take(i - start));
        assert(body.take(i + 1 - start).last() == c);
        if v > (limit - d) / 10 {
            proof {
                assert(v * 10 + d > limit) by (nonlinear_arith)
                    requires
                        v > (limit - d) / 10,
                        d <= 9,
                        limit == 9_223_372_036_854_775_808u64,
                ;
                assert(digits_value(body.take(i + 1 - start)) == v * 10 + d);
                if all_digits(body) {
                    lemma_digits_value_grows(body, i + 1 - start);
                    assert(digits_value(body) > limit);
                    assert(-digits_value(body) < i64::MIN);
                }
                assert(int_parse(s@) is None);
            }
            return None;
        }
        assert(v * 10 + d <= limit) by (nonlinear_arith)
            requires
                v <= (limit - d) / 10,
                d <= 9,
                limit == 9_223_372_036_854_775_808u64,
        ;
        v = v * 10 + d;
        i = i + 1;
    }
    assert(body.take(n - start) =~= body);
    assert(body.len() == n - start);
    assert(all_digits(body));
    assert(neg == (s@.len() > 0 && s@[0] == '-'));
    if neg {
        if v == limit {
            Some(i64::MIN)
        } else {
            Some(-(v as i64))
        }
    } else {
        if v == limit {
            None
        } else {
            Some(v as i64)
        }
    }
}

} // verus!
