//! Text helpers.
use vstd::prelude::*;
use vstd::string::*;

verus! {

broadcast use vstd::string::group_string_axioms;

/// `String::push`: appends one character.
pub assume_specification[ String::push ](s: &mut String, c: char)
    ensures
        final(s)@ == old(s)@.push(c),
;

/// Whether two strings are the same.
pub fn str_eq(a: &str, b: &str) -> (r: bool)
    ensures
        r == (a@ == b@),
{
    a.to_owned() == b.to_owned()
}

/// The characters of a string.
pub fn chars_of(s: &str) -> (v: Vec<char>)
    ensures
        v@ == s@,
{
    let mut v: Vec<char> = Vec::new();
    for c in it: s.chars()
        invariant
            v@ == it.history(),
            it.seq() == s@,
    {
        v.push(c);
    }
    v
}

/// Whether `needle` occurs in `hay`.
pub open spec fn occurs_in(needle: Seq<char>, hay: Seq<char>) -> bool {
    exists|i: int|
        0 <= i <= hay.len() - needle.len() && #[trigger] hay.subrange(i, i + needle.len()) == needle
}

/// Whether `needle` occurs in `hay`.
pub fn contains_str(hay: &str, needle: &str) -> (b: bool)
    ensures
        b == occurs_in(needle@, hay@),
{
    let h = chars_of(hay);
    let n = chars_of(needle);
    if n.len() > h.len() {
        return false;
    }
    let total: usize = h.len();
    let last: usize = total - n.len();
    let mut i: usize = 0;
    while i <= last
        invariant
            h@ == hay@,
            n@ == needle@,
            total == h@.len(),
            last == h@.len() - n@.len(),
            i <= last + 1,
            forall|k: int| 0 <= k < i ==> #[trigger] hay@.subrange(k, k + n@.len()) != needle@,
        decreases last + 1 - i,
    {
        let mut same = true;
        for j in 0..n.len()
            invariant
                h@ == hay@,
                n@ == needle@,
                i + n@.len() <= h@.len(),
                total == h@.len(),
                same <==> forall|q: int| 0 <= q < j ==> h@[i + q] == #[trigger] n@[q],
        {
            if h[i + j] != n[j] {
                same = false;
            }
        }
        if same {
            assert(hay@.subrange(i as int, i + n@.len()) =~= needle@);
            return true;
        }
        proof {
            let q = choose|q: int| 0 <= q < n@.len() && h@[i + q] != #[trigger] n@[q];
            assert(hay@.subrange(i as int, i + n@.len())[q] != needle@[q]);
        }
        if i == last {
            return false;
        }
        i = i + 1;
    }
    false
}

/// The string made of the given characters.
pub fn string_of(chars: &Vec<char>) -> (s: String)
    ensures
        s@ == chars@,
{
    let mut s = String::new();
    let n: usize = chars.len();
    for i in 0..n
        invariant
            n == chars@.len(),
            s@ == chars@.take(i as int),
    {
        s.push(chars[i]);
        assert(chars@.take(i + 1) =~= chars@.take(i as int).push(chars@[i as int]));
    }
    assert(chars@.take(n as int) =~= chars@);
    s
}

/// Whether `s` begins with `p`.
pub open spec fn begins_with(s: Seq<char>, p: Seq<char>) -> bool {
    s.len() >= p.len() && s.take(p.len() as int) == p
}

/// Whether `s` ends with `p`.
pub open spec fn finishes_with(s: Seq<char>, p: Seq<char>) -> bool {
    s.len() >= p.len() && s.skip(s.len() - p.len()) == p
}

/// Whether `p` stands in `s` at `at`.
pub fn stands_at(s: &Vec<char>, p: &Vec<char>, at: usize) -> (b: bool)
    requires
        at <= s@.len(),
    ensures
        b == begins_with(s@.skip(at as int), p@),
{
    let total: usize = s.len();
    if total - at < p.len() {
        return false;
    }
    let n: usize = p.len();
    for j in 0..n
        invariant
            n == p@.len(),
            total == s@.len(),
            at + n <= total,
            forall|k: int| 0 <= k < j ==> s@[at + k] == #[trigger] p@[k],
    {
        if s[at + j] != p[j] {
            proof {
                let t = s@.skip(at as int).take(p@.len() as int);
                assert(t[j as int] != p@[j as int]);
            }
            return false;
        }
    }
    assert(s@.skip(at as int).take(p@.len() as int) =~= p@);
    true
}

/// Whether `s` begins with `p`.
pub fn starts_with(s: &str, p: &str) -> (b: bool)
    ensures
        b == begins_with(s@, p@),
{
    let a = chars_of(s);
    let c = chars_of(p);
    assert(a@.skip(0) =~= a@);
    stands_at(&a, &c, 0)
}

/// Whether `s` ends with `p`.
pub fn ends_with(s: &str, p: &str) -> (b: bool)
    ensures
        b == finishes_with(s@, p@),
{
    let a = chars_of(s);
    let c = chars_of(p);
    if a.len() < c.len() {
        return false;
    }
    let at: usize = a.len() - c.len();
    let b = stands_at(&a, &c, at);
    assert(a@.skip(at as int).take(c@.len() as int) =~= a@.skip(at as int));
    b
}

/// The characters from `lo` up to `hi`.
pub fn slice_chars(s: &Vec<char>, lo: usize, hi: usize) -> (r: Vec<char>)
    requires
        lo <= hi <= s@.len(),
    ensures
        r@ == s@.subrange(lo as int, hi as int),
{
    let mut r: Vec<char> = Vec::new();
    for i in lo..hi
        invariant
            lo <= i <= hi <= s@.len(),
            r@ == s@.subrange(lo as int, i as int),
    {
        r.push(s[i]);
        assert(s@.subrange(lo as int, i + 1) =~= s@.subrange(lo as int, i as int).push(
            s@[i as int],
        ));
    }
    r
}

/// A decimal digit.
pub open spec fn digit_char(d: int) -> char {
    if d <= 0 {
        '0'
    } else if d == 1 {
        '1'
    } else if d == 2 {
        '2'
    } else if d == 3 {
        '3'
    } else if d == 4 {
        '4'
    } else if d == 5 {
        '5'
    } else if d == 6 {
        '6'
    } else if d == 7 {
        '7'
    } else if d == 8 {
        '8'
    } else {
        '9'
    }
}

/// A natural number in decimal.
pub open spec fn decimal(n: nat) -> Seq<char>
    decreases n,
{
    if n < 10 {
        seq![digit_char(n as int)]
    } else {
        decimal(n / 10).push(digit_char((n % 10) as int))
    }
}

/// An integer in decimal, with a sign where it is negative.
pub open spec fn signed_decimal(n: int) -> Seq<char> {
    if n < 0 {
        seq!['-'] + decimal((-n) as nat)
    } else {
        decimal(n as nat)
    }
}

/// A decimal digit.
fn digit_of(d: u64) -> (c: char)
    requires
        d < 10,
    ensures
        c == digit_char(d as int),
{
    match d {
        0 => '0',
        1 => '1',
        2 => '2',
        3 => '3',
        4 => '4',
        5 => '5',
        6 => '6',
        7 => '7',
        8 => '8',
        _ => '9',
    }
}

/// Appends `n` in decimal.
fn push_decimal(s: &mut String, n: u64)
    ensures
        final(s)@ == old(s)@ + decimal(n as nat),
    decreases n,
{
    if n < 10 {
        s.push(digit_of(n));
        assert(s@ =~= old(s)@ + decimal(n as nat));
    } else {
        push_decimal(s, n / 10);
        s.push(digit_of(n % 10));
        assert(s@ =~= old(s)@ + decimal(n as nat));
    }
}

/// `n` in decimal.
pub fn decimal_usize(n: usize) -> (s: String)
    ensures
        s@ == decimal(n as nat),
{
    let mut s = String::new();
    push_decimal(&mut s, n as u64);
    assert(s@ =~= decimal(n as nat));
    s
}

/// `n` in decimal.
pub fn decimal_i64(n: i64) -> (s: String)
    ensures
        s@ == signed_decimal(n as int),
{
    let mut s = String::new();
    if n < 0 {
        s.push('-');
        if n == i64::MIN {
            push_decimal(&mut s, 9223372036854775808);
        } else {
            push_decimal(&mut s, (-n) as u64);
        }
        assert(s@ =~= signed_decimal(n as int));
    } else {
        push_decimal(&mut s, n as u64);
        assert(s@ =~= signed_decimal(n as int));
    }
    s
}

/// The strings, with `sep` between each two.
pub open spec fn joined(parts: Seq<Seq<char>>, sep: Seq<char>) -> Seq<char>
    decreases parts.len(),
{
    if parts.len() == 0 {
        Seq::empty()
    } else if parts.len() == 1 {
        parts[0]
    } else {
        joined(parts.drop_last(), sep) + sep + parts.last()
    }
}

/// What strings hold.
pub open spec fn texts(parts: Seq<String>) -> Seq<Seq<char>> {
    parts.map_values(|s: String| s@)
}

/// The strings, with `sep` between each two.
pub fn join(parts: &Vec<String>, sep: &str) -> (s: String)
    ensures
        s@ == joined(texts(parts@), sep@),
{
    let n: usize = parts.len();
    let mut s = String::new();
    let ghost all = texts(parts@);
    assert(s@ =~= joined(all.take(0), sep@));
    for i in 0..n
        invariant
            n == parts@.len(),
            all == texts(parts@),
            s@ == joined(all.take(i as int), sep@),
    {
        if i > 0 {
            s.append(sep);
        }
        s.append(parts[i].as_str());
        proof {
            assert(all.take(i + 1).drop_last() =~= all.take(i as int));
            assert(all.take(i + 1).last() == parts@[i as int]@);
            if i == 0 {
                assert(all.take(1)[0] == parts@[0]@);
                assert(s@ =~= joined(all.take(1), sep@));
            }
        }
    }
    assert(all.take(n as int) =~= all);
    s
}

/// A single character replaced by another wherever it stands.
pub open spec fn swapped(s: Seq<char>, from: char, to: char) -> Seq<char> {
    s.map_values(|c: char| if c == from { to } else { c })
}

/// A single character replaced by another wherever it stands.
pub fn swap_char(s: &str, from: char, to: char) -> (r: String)
    ensures
        r@ == swapped(s@, from, to),
{
    let a = chars_of(s);
    let mut r = String::new();
    let n: usize = a.len();
    for i in 0..n
        invariant
            n == a@.len(),
            a@ == s@,
            r@ == swapped(s@.take(i as int), from, to),
    {
        if a[i] == from {
            r.push(to);
        } else {
            r.push(a[i]);
        }
        assert(swapped(s@.take(i + 1), from, to) =~= swapped(s@.take(i as int), from, to).push(
            if s@[i as int] == from {
                to
            } else {
                s@[i as int]
            },
        ));
    }
    assert(s@.take(n as int) =~= s@);
    r
}

/// The text with each occurrence of `pat` replaced by `by`, found from left to right without
/// overlap; an empty pattern occurs before each character and at the end.
pub open spec fn replaced(s: Seq<char>, pat: Seq<char>, by: Seq<char>) -> Seq<char>
    decreases s.len(),
{
    if pat.len() == 0 {
        if s.len() == 0 {
            by
        } else {
            by + seq![s[0]] + replaced(s.skip(1), pat, by)
        }
    } else if s.len() == 0 {
        s
    } else if begins_with(s, pat) {
        by + replaced(s.skip(pat.len() as int), pat, by)
    } else {
        seq![s[0]] + replaced(s.skip(1), pat, by)
    }
}

/// The text with each occurrence of `pat` replaced by `by`.
pub fn replace_all(s: &str, pat: &str, by: &str) -> (r: String)
    ensures
        r@ == replaced(s@, pat@, by@),
{
    let a = chars_of(s);
    let p = chars_of(pat);
    let mut r = String::new();
    let n: usize = a.len();
    let m: usize = p.len();
    let mut i: usize = 0;
    assert(a@.skip(0) =~= a@);
    assert(r@ + replaced(a@, p@, by@) =~= replaced(a@, p@, by@));
    while i < n
        invariant
            i <= n,
            n == a@.len(),
            m == p@.len(),
            a@ == s@,
            p@ == pat@,
            r@ + replaced(a@.skip(i as int), p@, by@) == replaced(s@, pat@, by@),
        decreases n - i,
    {
        let ghost rest = a@.skip(i as int);
        if m == 0 {
            r.append(by);
            r.push(a[i]);
            proof {
                assert(rest.skip(1) =~= a@.skip(i + 1));
                assert(r@ + replaced(a@.skip(i + 1), p@, by@) =~= replaced(s@, pat@, by@));
            }
            i = i + 1;
        } else if stands_at(&a, &p, i) {
            r.append(by);
            proof {
                assert(rest.skip(m as int) =~= a@.skip(i + m));
                assert(r@ + replaced(a@.skip(i + m), p@, by@) =~= replaced(s@, pat@, by@));
            }
            i = i + m;
        } else {
            r.push(a[i]);
            proof {
                assert(rest.skip(1) =~= a@.skip(i + 1));
                assert(r@ + replaced(a@.skip(i + 1), p@, by@) =~= replaced(s@, pat@, by@));
            }
            i = i + 1;
        }
    }
    assert(a@.skip(n as int).len() == 0);
    if m == 0 {
        r.append(by);
    }
    assert(r@ =~= replaced(s@, pat@, by@));
    r
}

/// How often the non-empty `pat` occurs, found from left to right without overlap.
pub open spec fn occurrences(s: Seq<char>, pat: Seq<char>) -> nat
    decreases s.len(),
{
    if pat.len() == 0 || s.len() == 0 {
        0
    } else if begins_with(s, pat) {
        1 + occurrences(s.skip(pat.len() as int), pat)
    } else {
        occurrences(s.skip(1), pat)
    }
}

/// How often the non-empty `pat` occurs.
pub fn count_occurrences(s: &str, pat: &str) -> (r: usize)
    ensures
        r == occurrences(s@, pat@),
        r <= s@.len(),
{
    let a = chars_of(s);
    let p = chars_of(pat);
    let n: usize = a.len();
    let m: usize = p.len();
    if m == 0 {
        return 0;
    }
    let mut r: usize = 0;
    let mut i: usize = 0;
    assert(a@.skip(0) =~= a@);
    while i < n
        invariant
            i <= n,
            n == a@.len(),
            m == p@.len(),
            m > 0,
            r <= i,
            a@ == s@,
            p@ == pat@,
            r + occurrences(a@.skip(i as int), p@) == occurrences(s@, pat@),
        decreases n - i,
    {
        let ghost rest = a@.skip(i as int);
        if stands_at(&a, &p, i) {
            assert(rest.skip(m as int) =~= a@.skip(i + m));
            r = r + 1;
            i = i + m;
        } else {
            assert(rest.skip(1) =~= a@.skip(i + 1));
            i = i + 1;
        }
    }
    r
}

/// The first place from `from` on at which `needle` stands in `hay`.
pub open spec fn first_at(hay: Seq<char>, needle: Seq<char>, from: int) -> Option<int>
    decreases hay.len() + 1 - from,
{
    if from < 0 || from > hay.len() {
        None
    } else if begins_with(hay.skip(from), needle) {
        Some(from)
    } else {
        first_at(hay, needle, from + 1)
    }
}

/// The first place at which `needle` stands in `hay`.
pub fn find_chars(hay: &Vec<char>, needle: &Vec<char>) -> (r: Option<usize>)
    ensures
        r is Some <==> first_at(hay@, needle@, 0) is Some,
        r is Some ==> first_at(hay@, needle@, 0) == Some(r->0 as int) && r->0 + needle@.len()
            <= hay@.len(),
{
    let n: usize = hay.len();
    let mut i: usize = 0;
    while i < n
        invariant
            n == hay@.len(),
            i <= n,
            first_at(hay@, needle@, 0) == first_at(hay@, needle@, i as int),
        decreases n - i,
    {
        if stands_at(hay, needle, i) {
            return Some(i);
        }
        i = i + 1;
    }
    reveal_with_fuel(first_at, 2);
    if stands_at(hay, needle, n) {
        Some(n)
    } else {
        None
    }
}

} // verus!
