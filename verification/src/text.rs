//! Text as sequences of characters: building it, taking it apart, reading and
//! writing numbers.
//!
//! Every function here works on whole characters. What a function returns is
//! said by a specification function over `Seq<char>`.
use vstd::prelude::*;
use vstd::string::*;

verus! {

// ---------------------------------------------------------------------
// Characters
// ---------------------------------------------------------------------

/// `String::push` adds one character at the end.
pub assume_specification[ String::push ](s: &mut String, c: char)
    ensures
        final(s)@ == old(s)@.push(c),
;

/// The debug form of a string, in quotes and with escapes.
pub uninterp spec fn debug_form(s: Seq<char>) -> Seq<char>;

/// `{:?}` of a `str`, as `std::fmt::Debug` writes it. The text depends on `s`
/// alone and is left unspecified.
#[verifier::external_body]
pub(crate) fn quoted(s: &str) -> (r: String)
    ensures
        r@ == debug_form(s@),
{
    format!("{s:?}")
}

/// The characters that Unicode lists as `White_Space`.
pub open spec fn is_space(c: char) -> bool {
    ||| '\u{9}' <= c <= '\u{d}'
    ||| c == ' '
    ||| c == '\u{85}'
    ||| c == '\u{a0}'
    ||| c == '\u{1680}'
    ||| '\u{2000}' <= c <= '\u{200a}'
    ||| c == '\u{2028}'
    ||| c == '\u{2029}'
    ||| c == '\u{202f}'
    ||| c == '\u{205f}'
    ||| c == '\u{3000}'
}

/// Whether `c` is white space.
pub fn space(c: char) -> (r: bool)
    ensures
        r == is_space(c),
{
    ('\u{9}' <= c && c <= '\u{d}') || c == ' ' || c == '\u{85}' || c == '\u{a0}' || c == '\u{1680}'
        || ('\u{2000}' <= c && c <= '\u{200a}') || c == '\u{2028}' || c == '\u{2029}'
        || c == '\u{202f}' || c == '\u{205f}' || c == '\u{3000}'
}

/// The characters of `s`.
pub fn chars_of(s: &str) -> (r: Vec<char>)
    ensures
        r@ == s@,
{
    let mut r: Vec<char> = Vec::new();
    for c in it: s.chars()
        invariant
            it.seq() == s@,
            r@ == s@.take(it.index() as int),
    {
        assert(s@.take(it.index() + 1) =~= s@.take(it.index() as int).push(c));
        r.push(c);
    }
    assert(s@.take(s@.len() as int) =~= s@);
    r
}

/// The text of `v[from..to]`.
pub fn text_of(v: &Vec<char>, from: usize, to: usize) -> (r: String)
    requires
        from <= to <= v.len(),
    ensures
        r@ == v@.subrange(from as int, to as int),
{
    let mut r = String::new();
    let mut i: usize = from;
    assert(v@.subrange(from as int, from as int) =~= Seq::<char>::empty());
    while i < to
        invariant
            from <= i <= to <= v.len(),
            r@ == v@.subrange(from as int, i as int),
        decreases to - i,
    {
        r.push(v[i]);
        i += 1;
        assert(v@.subrange(from as int, i as int) =~= v@.subrange(from as int, i - 1).push(v@[i - 1]));
    }
    r
}

/// Whether the two texts are the same.
pub fn same(a: &str, b: &str) -> (r: bool)
    ensures
        r == (a@ == b@),
{
    let x = a.to_owned();
    let y = b.to_owned();
    x == y
}


// ---------------------------------------------------------------------
// Putting texts together
// ---------------------------------------------------------------------

/// The 2 texts one after the other.
pub fn cat2(a: &str, b: &str) -> (r: String)
    ensures
        r@ == a@ + b@,
{
    let mut r = a.to_owned();
    r.append(b);
    r
}

/// The 3 texts one after the other.
pub fn cat3(a: &str, b: &str, c: &str) -> (r: String)
    ensures
        r@ == a@ + b@ + c@,
{
    let mut r = a.to_owned();
    r.append(b);
    r.append(c);
    r
}

/// The 4 texts one after the other.
pub fn cat4(a: &str, b: &str, c: &str, d: &str) -> (r: String)
    ensures
        r@ == a@ + b@ + c@ + d@,
{
    let mut r = a.to_owned();
    r.append(b);
    r.append(c);
    r.append(d);
    r
}

/// The 5 texts one after the other.
pub fn cat5(a: &str, b: &str, c: &str, d: &str, e: &str) -> (r: String)
    ensures
        r@ == a@ + b@ + c@ + d@ + e@,
{
    let mut r = a.to_owned();
    r.append(b);
    r.append(c);
    r.append(d);
    r.append(e);
    r
}

/// The 6 texts one after the other.
pub fn cat6(a: &str, b: &str, c: &str, d: &str, e: &str, f: &str) -> (r: String)
    ensures
        r@ == a@ + b@ + c@ + d@ + e@ + f@,
{
    let mut r = a.to_owned();
    r.append(b);
    r.append(c);
    r.append(d);
    r.append(e);
    r.append(f);
    r
}

/// The 7 texts one after the other.
pub fn cat7(a: &str, b: &str, c: &str, d: &str, e: &str, f: &str, g: &str) -> (r: String)
    ensures
        r@ == a@ + b@ + c@ + d@ + e@ + f@ + g@,
{
    let mut r = a.to_owned();
    r.append(b);
    r.append(c);
    r.append(d);
    r.append(e);
    r.append(f);
    r.append(g);
    r
}

/// A list of one text.
pub fn list1(a: &str) -> (r: Vec<String>)
    ensures
        r.deep_view() == seq![a@],
{
    let r = vec![a.to_owned()];
    assert(r.deep_view() =~= seq![a@]);
    r
}

/// A list of 2 texts.
pub fn list2(a: &str, b: &str) -> (r: Vec<String>)
    ensures
        r.deep_view() == seq![a@, b@],
{
    let r = vec![a.to_owned(), b.to_owned()];
    assert(r.deep_view() =~= seq![a@, b@]);
    r
}

/// A list of 3 texts.
pub fn list3(a: &str, b: &str, c: &str) -> (r: Vec<String>)
    ensures
        r.deep_view() == seq![a@, b@, c@],
{
    let r = vec![a.to_owned(), b.to_owned(), c.to_owned()];
    assert(r.deep_view() =~= seq![a@, b@, c@]);
    r
}

/// A list of 4 texts.
pub fn list4(a: &str, b: &str, c: &str, d: &str) -> (r: Vec<String>)
    ensures
        r.deep_view() == seq![a@, b@, c@, d@],
{
    let r = vec![a.to_owned(), b.to_owned(), c.to_owned(), d.to_owned()];
    assert(r.deep_view() =~= seq![a@, b@, c@, d@]);
    r
}

/// A list of 5 texts.
pub fn list5(a: &str, b: &str, c: &str, d: &str, e: &str) -> (r: Vec<String>)
    ensures
        r.deep_view() == seq![a@, b@, c@, d@, e@],
{
    let r = vec![a.to_owned(), b.to_owned(), c.to_owned(), d.to_owned(), e.to_owned()];
    assert(r.deep_view() =~= seq![a@, b@, c@, d@, e@]);
    r
}

/// A list of 6 texts.
pub fn list6(a: &str, b: &str, c: &str, d: &str, e: &str, f: &str) -> (r: Vec<String>)
    ensures
        r.deep_view() == seq![a@, b@, c@, d@, e@, f@],
{
    let r = vec![a.to_owned(), b.to_owned(), c.to_owned(), d.to_owned(), e.to_owned(), f.to_owned()];
    assert(r.deep_view() =~= seq![a@, b@, c@, d@, e@, f@]);
    r
}

/// `v` with `s` added at the end.
pub fn with(v: Vec<String>, s: &str) -> (r: Vec<String>)
    ensures
        r.deep_view() == v.deep_view().push(s@),
{
    let mut r = v;
    r.push(s.to_owned());
    assert(r.deep_view() =~= v.deep_view().push(s@));
    r
}

/// `v` followed by `w`.
pub fn chained(v: Vec<String>, w: Vec<String>) -> (r: Vec<String>)
    ensures
        r.deep_view() == v.deep_view() + w.deep_view(),
{
    let mut r = v;
    let mut w2 = w;
    r.append(&mut w2);
    assert(r.deep_view() =~= v.deep_view() + w.deep_view());
    r
}

/// A copy of an optional text.
pub fn copied_option(s: &Option<String>) -> (r: Option<String>)
    ensures
        r.deep_view() == s.deep_view(),
{
    match s {
        Some(t) => Some(t.clone()),
        None => None,
    }
}

/// The texts of `list` with `sep` between each two of them.
pub open spec fn joined(list: Seq<Seq<char>>, sep: Seq<char>) -> Seq<char>
    decreases list.len(),
{
    if list.len() == 0 {
        Seq::empty()
    } else if list.len() == 1 {
        list[0]
    } else {
        list[0] + sep + joined(list.skip(1), sep)
    }
}

proof fn lemma_joined_push(list: Seq<Seq<char>>, sep: Seq<char>, last: Seq<char>)
    requires
        list.len() > 0,
    ensures
        joined(list.push(last), sep) == joined(list, sep) + sep + last,
    decreases list.len(),
{
    reveal_with_fuel(joined, 3);
    let more = list.push(last);
    if list.len() == 1 {
        assert(more.skip(1) =~= seq![last]);
        assert(joined(more, sep) =~= list[0] + sep + last);
    } else {
        assert(more.skip(1) =~= list.skip(1).push(last));
        lemma_joined_push(list.skip(1), sep, last);
        assert(joined(more, sep) =~= joined(list, sep) + sep + last);
    }
}

/// Joins `list` by `sep`.
pub fn join(list: &Vec<String>, sep: &str) -> (r: String)
    ensures
        r@ == joined(list.deep_view(), sep@),
{
    let mut r = String::new();
    let mut i: usize = 0;
    let ghost all = list.deep_view();
    while i < list.len()
        invariant
            i <= list.len(),
            all == list.deep_view(),
            r@ == joined(all.take(i as int), sep@),
        decreases list.len() - i,
    {
        let ghost before = r@;
        if i > 0 {
            r.append(sep);
        }
        r.append(&list[i]);
        i += 1;
        proof {
            assert(all.take(i as int) =~= all.take(i - 1).push(all[i - 1]));
            if i == 1 {
                reveal_with_fuel(joined, 2);
                assert(all.take(1).len() == 1);
                assert(before =~= Seq::<char>::empty());
                assert(r@ =~= all[0]);
            } else {
                lemma_joined_push(all.take(i - 1), sep@, all[i - 1]);
                assert(r@ =~= before + sep@ + all[i - 1]);
            }
        }
    }
    assert(all.take(i as int) =~= all);
    r
}

/// `n` copies of `c`.
pub open spec fn repeated(c: char, n: nat) -> Seq<char> {
    Seq::new(n, |i: int| c)
}

/// `n` copies of `c`, as a text.
pub fn repeat(c: char, n: usize) -> (r: String)
    ensures
        r@ == repeated(c, n as nat),
{
    let mut r = String::new();
    let mut i: usize = 0;
    while i < n
        invariant
            i <= n,
            r@ =~= repeated(c, i as nat),
        decreases n - i,
    {
        r.push(c);
        i += 1;
    }
    r
}

/// `s` moved to the right edge of a field that is `width` wide.
pub open spec fn right_aligned(s: Seq<char>, width: nat) -> Seq<char> {
    if s.len() < width {
        repeated(' ', (width - s.len()) as nat) + s
    } else {
        s
    }
}

/// Aligns `s` to the right in a field of `width` characters.
pub fn align_right(s: &str, width: usize) -> (r: String)
    ensures
        r@ == right_aligned(s@, width as nat),
{
    let n: usize = s.unicode_len();
    if n < width {
        let pad = repeat(' ', width - n);
        cat2(&pad, s)
    } else {
        s.to_owned()
    }
}

// ---------------------------------------------------------------------
// Numbers
// ---------------------------------------------------------------------

/// The decimal digit of `d`.
pub open spec fn digit(d: nat) -> char {
    (48 + d) as char
}

/// `n` in decimal, without leading zeros.
pub open spec fn decimal(n: nat) -> Seq<char>
    decreases n,
{
    if n < 10 {
        seq![digit(n)]
    } else {
        decimal(n / 10).push(digit(n % 10))
    }
}

fn digit_char(d: usize) -> (c: char)
    requires
        d < 10,
    ensures
        c == digit(d as nat),
{
    match d {
        0 => '0',
        1 => '1',
        2 => '2',
        3 => '3',
        4 => '4',
        5 => '5',
        6 => '6',
        7 => '7',
        8 => '8',
        _ => '9',
    }
}

/// Writes `n` in decimal.
pub fn number(n: usize) -> (r: String)
    ensures
        r@ == decimal(n as nat),
    decreases n,
{
    let mut r = if n < 10 {
        String::new()
    } else {
        number(n / 10)
    };
    r.push(digit_char(n % 10));
    assert(n < 10 ==> r@ =~= seq![digit(n as nat)]);
    r
}

/// `n` in decimal, with a minus sign where it is negative.
pub open spec fn signed_decimal(n: int) -> Seq<char> {
    if n < 0 {
        "-"@ + decimal((-n) as nat)
    } else {
        decimal(n as nat)
    }
}

/// Writes `n` in decimal.
pub fn signed_number(n: isize) -> (r: String)
    ensures
        r@ == signed_decimal(n as int),
{
    if n < 0 {
        let m: usize = (-(n + 1)) as usize + 1;
        cat2("-", &number(m))
    } else {
        number(n as usize)
    }
}

/// Whether `c` is a decimal digit.
pub open spec fn is_digit(c: char) -> bool {
    '0' <= c <= '9'
}

/// The number that a text of decimal digits stands for.
pub open spec fn digits_value(s: Seq<char>) -> nat
    decreases s.len(),
{
    if s.len() == 0 {
        0
    } else {
        10 * digits_value(s.drop_last()) + (s.last() as nat - 48) as nat
    }
}

/// Whether `s` is a nonempty text of decimal digits.
pub open spec fn all_digits(s: Seq<char>) -> bool {
    s.len() > 0 && forall|i: int| 0 <= i < s.len() ==> is_digit(#[trigger] s[i])
}

/// `s` without one leading plus sign.
pub open spec fn unsigned_part(s: Seq<char>) -> Seq<char> {
    if s.len() > 0 && s[0] == '+' {
        s.skip(1)
    } else {
        s
    }
}

/// The unsigned number not above `max` that `s` stands for: decimal digits,
/// with at most one plus sign before them.
pub open spec fn parsed(s: Seq<char>, max: nat) -> Option<nat> {
    let d = unsigned_part(s);
    if all_digits(d) && digits_value(d) <= max {
        Some(digits_value(d))
    } else {
        None
    }
}

proof fn lemma_digits_grow(s: Seq<char>, i: int)
    requires
        0 <= i <= s.len(),
    ensures
        digits_value(s.take(i)) <= digits_value(s),
    decreases s.len() - i,
{
    if i < s.len() {
        lemma_digits_grow(s, i + 1);
        assert(s.take(i + 1).drop_last() =~= s.take(i));
    } else {
        assert(s.take(i) =~= s);
    }
}

/// A number that is written in decimal reads back as itself. It is made of
/// digits only, and does not begin with a zero unless it is one.
pub proof fn law_decimal_reads_back(n: nat, max: nat)
    requires
        n <= max,
    ensures
        parsed(decimal(n), max) == Some(n),
        digits_value(decimal(n)) == n,
        all_digits(decimal(n)),
        decimal(n).len() == 1 || decimal(n)[0] != '0',
    decreases n,
{
    let s = decimal(n);
    if n < 10 {
        assert(s.drop_last() =~= Seq::empty());
        reveal_with_fuel(digits_value, 2);
    } else {
        law_decimal_reads_back(n / 10, max);
        assert(s.drop_last() =~= decimal(n / 10));
        assert(n / 10 > 0);
        assert(decimal(n / 10)[0] != '0') by {
            if decimal(n / 10).len() == 1 {
                reveal_with_fuel(decimal, 2);
            }
        }
        assert(s[0] == decimal(n / 10)[0]);
    }
    assert(is_digit(s[0]));
}

/// Reads an unsigned number not above `max`.
pub fn parse(s: &str, max: u64) -> (r: Option<u64>)
    ensures
        r is Some <==> parsed(s@, max as nat) is Some,
        r matches Some(n) ==> n == parsed(s@, max as nat)->0,
{
    let v = chars_of(s);
    let start: usize = if v.len() > 0 && v[0] == '+' {
        1
    } else {
        0
    };
    let ghost d = unsigned_part(s@);
    assert(d =~= s@.skip(start as int));
    if v.len() == start {
        return None;
    }
    let mut n: u64 = 0;
    let mut i: usize = start;
    assert(d.take(0) =~= Seq::<char>::empty());
    while i < v.len()
        invariant
            start <= i <= v.len(),
            v@ == s@,
            d == s@.skip(start as int),
            d == unsigned_part(s@),
            n <= max,
            n == digits_value(d.take(i - start)),
            forall|j: int| 0 <= j < i - start ==> is_digit(#[trigger] d[j]),
        decreases v.len() - i,
    {
        let c = v[i];
        assert(d[i - start] == c);
        if !('0' <= c && c <= '9') {
            return None;
        }
        let k: u64 = (c as u32 - 48) as u64;
        proof {
            assert(d.take(i - start + 1).drop_last() =~= d.take(i - start));
            assert(d.take(i - start + 1).last() == c);
            lemma_digits_grow(d, i - start + 1);
        }
        if n > max / 10 {
            return None;
        }
        if k > max - n * 10 {
            return None;
        }
        n = n * 10 + k;
        i += 1;
    }
    assert(d.take(d.len() as int) =~= d);
    Some(n)
}

// ---------------------------------------------------------------------
// Taking texts apart
// ---------------------------------------------------------------------

/// Whether `s` begins with `prefix`.
pub open spec fn begins(s: Seq<char>, prefix: Seq<char>) -> bool {
    prefix.len() <= s.len() && s.take(prefix.len() as int) == prefix
}

/// What follows `prefix` in `s`, if `s` begins with it.
pub fn after_prefix(s: &str, prefix: &str) -> (r: Option<String>)
    ensures
        r is Some <==> begins(s@, prefix@),
        r matches Some(t) ==> t@ == s@.skip(prefix@.len() as int),
{
    let n: usize = prefix.unicode_len();
    let m: usize = s.unicode_len();
    if n > m {
        return None;
    }
    if !same(s.substring_char(0, n), prefix) {
        assert(s@.subrange(0, n as int) =~= s@.take(n as int));
        return None;
    }
    assert(s@.subrange(0, n as int) =~= s@.take(n as int));
    assert(s@.subrange(n as int, m as int) =~= s@.skip(n as int));
    Some(s.substring_char(n, m).to_owned())
}

/// The first `n` characters of `s`, or all of it.
pub open spec fn shortened(s: Seq<char>, n: nat) -> Seq<char> {
    if n < s.len() {
        s.take(n as int)
    } else {
        s
    }
}

/// Cuts `s` after `n` characters.
pub fn shorten(s: &str, n: usize) -> (r: String)
    ensures
        r@ == shortened(s@, n as nat),
{
    let m: usize = s.unicode_len();
    if n < m {
        assert(s@.subrange(0, n as int) =~= s@.take(n as int));
        s.substring_char(0, n).to_owned()
    } else {
        s.to_owned()
    }
}

/// `s` without the line feeds at its end.
pub open spec fn without_line_feeds(s: Seq<char>) -> Seq<char>
    decreases s.len(),
{
    if s.len() > 0 && s.last() == '\n' {
        without_line_feeds(s.drop_last())
    } else {
        s
    }
}

/// Drops the line feeds at the end of `s`.
pub fn drop_line_feeds(s: &str) -> (r: String)
    ensures
        r@ == without_line_feeds(s@),
{
    let v = chars_of(s);
    let mut n: usize = v.len();
    assert(s@.take(n as int) =~= s@);
    while n > 0 && v[n - 1] == '\n'
        invariant
            n <= v.len(),
            v@ == s@,
            without_line_feeds(s@.take(n as int)) == without_line_feeds(s@),
        decreases n,
    {
        assert(s@.take(n as int).drop_last() =~= s@.take(n - 1));
        n -= 1;
    }
    assert(s@.subrange(0, n as int) =~= s@.take(n as int));
    text_of(&v, 0, n)
}

/// `s` without the white space at its start.
pub open spec fn trimmed_start(s: Seq<char>) -> Seq<char>
    decreases s.len(),
{
    if s.len() > 0 && is_space(s[0]) {
        trimmed_start(s.skip(1))
    } else {
        s
    }
}

/// `s` without the white space at its end.
pub open spec fn trimmed_end(s: Seq<char>) -> Seq<char>
    decreases s.len(),
{
    if s.len() > 0 && is_space(s.last()) {
        trimmed_end(s.drop_last())
    } else {
        s
    }
}

/// `s` without the white space around it.
pub open spec fn trimmed(s: Seq<char>) -> Seq<char> {
    trimmed_end(trimmed_start(s))
}

/// Drops the white space around `s`.
pub fn trim(s: &str) -> (r: String)
    ensures
        r@ == trimmed(s@),
{
    let v = chars_of(s);
    let mut a: usize = 0;
    assert(s@.skip(0) =~= s@);
    while a < v.len() && space(v[a])
        invariant
            a <= v.len(),
            v@ == s@,
            trimmed_start(s@.skip(a as int)) == trimmed_start(s@),
        decreases v.len() - a,
    {
        assert(s@.skip(a as int).skip(1) =~= s@.skip(a + 1));
        a += 1;
    }
    let ghost rest = trimmed_start(s@);
    assert(rest == s@.skip(a as int));
    let mut b: usize = v.len();
    assert(s@.subrange(a as int, b as int) =~= rest);
    while b > a && space(v[b - 1])
        invariant
            a <= b <= v.len(),
            v@ == s@,
            trimmed_end(s@.subrange(a as int, b as int)) == trimmed_end(rest),
        decreases b,
    {
        assert(s@.subrange(a as int, b as int).drop_last() =~= s@.subrange(a as int, b - 1));
        b -= 1;
    }
    text_of(&v, a, b)
}

/// The place of the first `c` in `s`, or the length of `s`.
pub open spec fn until(s: Seq<char>, c: char) -> nat
    decreases s.len(),
{
    if s.len() == 0 || s[0] == c {
        0
    } else {
        1 + until(s.skip(1), c)
    }
}

/// `until` is the only place with nothing but other characters before it that
/// is at the end or holds the character.
pub proof fn lemma_until(s: Seq<char>, c: char, n: nat)
    requires
        n <= s.len(),
        forall|i: int| 0 <= i < n ==> s[i] != c,
        n == s.len() || s[n as int] == c,
    ensures
        until(s, c) == n,
    decreases n,
{
    if n > 0 {
        let t = s.skip(1);
        assert forall|i: int| 0 <= i < n - 1 implies t[i] != c by {
            assert(t[i] == s[i + 1]);
        }
        lemma_until(t, c, (n - 1) as nat);
    }
}

/// The place of the first `c` in `v` at or after `from`, or the length of `v`.
fn place_of(v: &Vec<char>, from: usize, c: char) -> (n: usize)
    requires
        from <= v.len(),
    ensures
        from <= n <= v.len(),
        n - from == until(v@.skip(from as int), c),
{
    let mut n: usize = from;
    while n < v.len() && v[n] != c
        invariant
            from <= n <= v.len(),
            forall|i: int| from <= i < n ==> v@[i] != c,
        decreases v.len() - n,
    {
        n += 1;
    }
    proof {
        let t = v@.skip(from as int);
        assert forall|i: int| 0 <= i < n - from implies t[i] != c by {
            assert(t[i] == v@[i + from]);
        }
        lemma_until(t, c, (n - from) as nat);
    }
    n
}

/// A line without the carriage return that stands before its line feed.
pub open spec fn without_return(s: Seq<char>) -> Seq<char> {
    if s.len() > 0 && s.last() == '\r' {
        s.drop_last()
    } else {
        s
    }
}

/// The lines of `s`. A line ends at a line feed, before which one carriage
/// return is dropped; what follows the last line feed is a line if it is not
/// empty.
pub open spec fn lines_of(s: Seq<char>) -> Seq<Seq<char>>
    decreases s.len(),
{
    let n = until(s, '\n');
    if s.len() == 0 {
        Seq::empty()
    } else if n >= s.len() {
        seq![s]
    } else {
        seq![without_return(s.take(n as int))] + lines_of(s.skip(n as int + 1))
    }
}

/// Splits `s` into its lines.
pub fn lines(s: &str) -> (r: Vec<String>)
    ensures
        r.deep_view() == lines_of(s@),
{
    let v = chars_of(s);
    let mut r: Vec<String> = Vec::new();
    let mut i: usize = 0;
    assert(s@.skip(0) =~= s@);
    assert(r.deep_view() =~= Seq::<Seq<char>>::empty());
    assert(r.deep_view() + lines_of(s@) =~= lines_of(s@));
    while i < v.len()
        invariant
            i <= v.len(),
            v@ == s@,
            r.deep_view() + lines_of(s@.skip(i as int)) == lines_of(s@),
        decreases v.len() - i,
    {
        let ghost t = s@.skip(i as int);
        let ghost before = r.deep_view();
        let n = place_of(&v, i, '\n');
        if n == v.len() {
            assert(s@.subrange(i as int, n as int) =~= t);
            r.push(text_of(&v, i, n));
            i = n;
            assert(r.deep_view() =~= before.push(t));
            assert(s@.skip(i as int) =~= Seq::<char>::empty());
            assert(before.push(t) + Seq::<Seq<char>>::empty() =~= before + seq![t]);
        } else {
            let end: usize = if n > i && v[n - 1] == '\r' {
                n - 1
            } else {
                n
            };
            let ghost line = without_return(t.take(n - i));
            assert(s@.subrange(i as int, end as int) =~= line);
            r.push(text_of(&v, i, end));
            assert(r.deep_view() =~= before.push(line));
            assert(t.skip(n - i + 1) =~= s@.skip(n + 1));
            assert(before.push(line) + lines_of(s@.skip(n + 1)) =~= before + (seq![line]
                + lines_of(s@.skip(n + 1))));
            i = n + 1;
        }
    }
    assert(s@.skip(i as int) =~= Seq::<char>::empty());
    assert(r.deep_view() + Seq::<Seq<char>>::empty() =~= r.deep_view());
    r
}

/// How many characters `s` has before its first white space.
pub open spec fn word_len(s: Seq<char>) -> nat
    decreases s.len(),
{
    if s.len() == 0 || is_space(s[0]) {
        0
    } else {
        1 + word_len(s.skip(1))
    }
}

proof fn lemma_word_len(s: Seq<char>, n: nat)
    requires
        n <= s.len(),
        forall|i: int| 0 <= i < n ==> !is_space(#[trigger] s[i]),
        n == s.len() || is_space(s[n as int]),
    ensures
        word_len(s) == n,
    decreases n,
{
    if n > 0 {
        let t = s.skip(1);
        assert forall|i: int| 0 <= i < n - 1 implies !is_space(#[trigger] t[i]) by {
            assert(t[i] == s[i + 1]);
        }
        lemma_word_len(t, (n - 1) as nat);
    }
}

proof fn lemma_word_len_bound(s: Seq<char>)
    ensures
        word_len(s) <= s.len(),
        s.len() > 0 && !is_space(s[0]) ==> word_len(s) > 0,
    decreases s.len(),
{
    if s.len() > 0 {
        lemma_word_len_bound(s.skip(1));
    }
}

/// The words of `s`: the longest stretches of it without white space.
pub open spec fn words_of(s: Seq<char>) -> Seq<Seq<char>>
    decreases s.len(),
    via words_of_decreases
{
    if s.len() == 0 {
        Seq::empty()
    } else if is_space(s[0]) {
        words_of(s.skip(1))
    } else {
        seq![s.take(word_len(s) as int)] + words_of(s.skip(word_len(s) as int))
    }
}

#[via_fn]
proof fn words_of_decreases(s: Seq<char>) {
    lemma_word_len_bound(s);
}

/// Splits `s` into its words.
pub fn words(s: &str) -> (r: Vec<String>)
    ensures
        r.deep_view() == words_of(s@),
{
    let v = chars_of(s);
    let mut r: Vec<String> = Vec::new();
    let mut i: usize = 0;
    assert(s@.skip(0) =~= s@);
    assert(r.deep_view() =~= Seq::<Seq<char>>::empty());
    assert(r.deep_view() + words_of(s@) =~= words_of(s@));
    while i < v.len()
        invariant
            i <= v.len(),
            v@ == s@,
            r.deep_view() + words_of(s@.skip(i as int)) == words_of(s@),
        decreases v.len() - i,
    {
        let ghost t = s@.skip(i as int);
        if space(v[i]) {
            assert(t.skip(1) =~= s@.skip(i + 1));
            i += 1;
        } else {
            let mut n: usize = i;
            while n < v.len() && !space(v[n])
                invariant
                    i <= n <= v.len(),
                    forall|k: int| i <= k < n ==> !is_space(#[trigger] v@[k]),
                decreases v.len() - n,
            {
                n += 1;
            }
            let ghost before = r.deep_view();
            proof {
                assert forall|k: int| 0 <= k < n - i implies !is_space(#[trigger] t[k]) by {
                    assert(t[k] == v@[k + i]);
                }
                lemma_word_len(t, (n - i) as nat);
                assert(s@.subrange(i as int, n as int) =~= t.take(n - i));
                assert(t.skip(n - i) =~= s@.skip(n as int));
            }
            r.push(text_of(&v, i, n));
            assert(r.deep_view() =~= before.push(t.take(n - i)));
            assert(before.push(t.take(n - i)) + words_of(s@.skip(n as int)) =~= before + (seq![
                t.take(n - i),
            ] + words_of(s@.skip(n as int))));
            i = n;
        }
    }
    assert(s@.skip(i as int) =~= Seq::<char>::empty());
    assert(r.deep_view() + Seq::<Seq<char>>::empty() =~= r.deep_view());
    r
}

/// What stands before the first `c` of `s`, or all of `s`.
pub open spec fn before_char(s: Seq<char>, c: char) -> Seq<char> {
    s.take(until(s, c) as int)
}

/// What stands after the first `c` of `s`, if `s` has one.
pub open spec fn after_char(s: Seq<char>, c: char) -> Option<Seq<char>> {
    if until(s, c) < s.len() {
        Some(s.skip(until(s, c) as int + 1))
    } else {
        None
    }
}

/// A text that ends at a given character splits there.
pub(crate) proof fn lemma_split(head: Seq<char>, c: char, tail: Seq<char>)
    requires
        !head.contains(c),
    ensures
        before_char(head.push(c) + tail, c) == head,
        after_char(head.push(c) + tail, c) == Some(tail),
{
    let s = head.push(c) + tail;
    assert forall|i: int| 0 <= i < head.len() implies s[i] != c by {
        assert(head.contains(head[i]));
    }
    assert(s[head.len() as int] == c);
    lemma_until(s, c, head.len());
    assert(s.take(head.len() as int) =~= head);
    assert(s.skip(head.len() as int + 1) =~= tail);
}

/// Splits `s` at its first `c`.
pub fn split_at_char(s: &str, c: char) -> (r: (String, Option<String>))
    ensures
        r.0@ == before_char(s@, c),
        r.1.deep_view() == after_char(s@, c),
{
    let v = chars_of(s);
    assert(s@.skip(0) =~= s@);
    let n = place_of(&v, 0, c);
    assert(s@.subrange(0, n as int) =~= s@.take(n as int));
    let head = text_of(&v, 0, n);
    if n < v.len() {
        assert(s@.subrange(n + 1, s@.len() as int) =~= s@.skip(n + 1));
        (head, Some(text_of(&v, n + 1, v.len())))
    } else {
        (head, None)
    }
}

/// The place of the first blank line in `s`: that of two line feeds in a row,
/// or the length of `s`.
pub open spec fn until_blank(s: Seq<char>) -> nat
    decreases s.len(),
{
    if s.len() == 0 || (s.len() >= 2 && s[0] == '\n' && s[1] == '\n') {
        0
    } else {
        1 + until_blank(s.skip(1))
    }
}

proof fn lemma_until_blank(s: Seq<char>, n: nat)
    requires
        n <= s.len(),
        forall|i: int| 0 <= i < n && i + 1 < s.len() ==> !(#[trigger] s[i] == '\n' && s[i + 1] == '\n'),
        n == s.len() || (n + 1 < s.len() && s[n as int] == '\n' && s[n as int + 1] == '\n'),
    ensures
        until_blank(s) == n,
    decreases n,
{
    if n > 0 {
        let t = s.skip(1);
        assert(s[0] == s[0]);
        assert forall|i: int| 0 <= i < n - 1 && i + 1 < t.len() implies !(#[trigger] t[i] == '\n'
            && t[i + 1] == '\n') by {
            assert(t[i] == s[i + 1] && t[i + 1] == s[i + 2]);
        }
        if n < s.len() {
            assert(t[n - 1] == s[n as int] && t[n as int] == s[n as int + 1]);
        }
        lemma_until_blank(t, (n - 1) as nat);
    }
}

/// Splits `s` at its first blank line. The line feeds there belong to neither
/// part.
pub fn split_at_blank(s: &str) -> (r: Option<(String, String)>)
    ensures
        r is Some <==> until_blank(s@) < s@.len(),
        r matches Some((a, b)) ==> a@ == s@.take(until_blank(s@) as int) && b@ == s@.skip(
            until_blank(s@) as int + 2,
        ),
        until_blank(s@) < s@.len() ==> until_blank(s@) + 2 <= s@.len(),
{
    let v = chars_of(s);
    let mut n: usize = 0;
    while n < v.len() && !(n + 1 < v.len() && v[n] == '\n' && v[n + 1] == '\n')
        invariant
            n <= v.len(),
            v@ == s@,
            forall|i: int| 0 <= i < n && i + 1 < s@.len() ==> !(#[trigger] s@[i] == '\n' && s@[i + 1]
                == '\n'),
        decreases v.len() - n,
    {
        n += 1;
    }
    proof {
        lemma_until_blank(s@, n as nat);
    }
    if n < v.len() {
        assert(s@.subrange(0, n as int) =~= s@.take(n as int));
        assert(s@.subrange(n + 2, s@.len() as int) =~= s@.skip(n + 2));
        Some((text_of(&v, 0, n), text_of(&v, n + 2, v.len())))
    } else {
        None
    }
}

/// Whether two lists hold the same texts in the same order.
pub fn same_list(a: &Vec<String>, b: &Vec<String>) -> (r: bool)
    ensures
        r == (a.deep_view() == b.deep_view()),
{
    let ghost v = a.deep_view();
    let ghost w = b.deep_view();
    if a.len() != b.len() {
        assert(v.len() != w.len());
        return false;
    }
    let mut i: usize = 0;
    while i < a.len()
        invariant
            i <= a.len(),
            a.len() == b.len(),
            v == a.deep_view(),
            w == b.deep_view(),
            forall|k: int| 0 <= k < i ==> v[k] == w[k],
        decreases a.len() - i,
    {
        assert(v[i as int] == a[i as int]@ && w[i as int] == b[i as int]@);
        if !same(&a[i], &b[i]) {
            return false;
        }
        i += 1;
    }
    assert(v =~= w);
    true
}

/// Whether `list` has the text `s`.
pub fn is_listed(list: &Vec<String>, s: &str) -> (r: bool)
    ensures
        r == list.deep_view().contains(s@),
{
    let mut i: usize = 0;
    let ghost all = list.deep_view();
    while i < list.len()
        invariant
            i <= list.len(),
            all == list.deep_view(),
            forall|k: int| 0 <= k < i ==> all[k] != s@,
        decreases list.len() - i,
    {
        assert(all[i as int] == list[i as int]@);
        if same(&list[i], s) {
            return true;
        }
        i += 1;
    }
    false
}

} // verus!
