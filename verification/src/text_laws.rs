//! How the texts that are put together come apart again.
use crate::duckdb::sql::bound;
use crate::text::{
    begins_with, decimal, digit_char, joined, occurrences, replaced, signed_decimal,
};
use vstd::prelude::*;
use vstd::string::*;

verus! {

/// The parts of a joined text: nothing joins to nothing, one part to itself, and two lists to the two
/// texts with the separator between them.
pub proof fn joined_lists_are_separated(a: Seq<Seq<char>>, b: Seq<Seq<char>>, sep: Seq<char>)
    ensures
        a.len() == 0 ==> joined(a, sep) == Seq::<char>::empty(),
        a.len() == 1 ==> joined(a, sep) == a[0],
        a.len() > 0 && b.len() > 0 ==> joined(a + b, sep) == joined(a, sep) + sep + joined(b, sep),
    decreases b.len(),
{
    if a.len() > 0 && b.len() > 0 {
        let all = a + b;
        assert(all.last() == b.last());
        assert(all.drop_last() =~= a + b.drop_last());
        if b.len() == 1 {
            assert(a + b.drop_last() =~= a);
            assert(joined(b, sep) == b[0]);
        } else {
            joined_lists_are_separated(a, b.drop_last(), sep);
            assert(joined(a, sep) + sep + joined(b, sep) =~= (joined(a, sep) + sep + joined(
                b.drop_last(),
                sep,
            )) + sep + b.last());
        }
    }
}

/// A pattern stands nowhere in the first `n` places of a text.
pub open spec fn stands_before(s: Seq<char>, pat: Seq<char>, n: int) -> bool {
    exists|i: int| 0 <= i < n && #[trigger] begins_with(s.skip(i), pat)
}

/// Replacing goes on behind the first place at which the pattern stands, and leaves a text alone in
/// which it stands nowhere. The occurrences that are counted are those that are replaced.
pub proof fn first_occurrence_is_replaced(
    a: Seq<char>,
    pat: Seq<char>,
    b: Seq<char>,
    by: Seq<char>,
)
    requires
        pat.len() > 0,
    ensures
        !stands_before(a + pat + b, pat, a.len() as int) ==> replaced(a + pat + b, pat, by) == a + by
            + replaced(b, pat, by) && occurrences(a + pat + b, pat) == 1 + occurrences(b, pat),
        !stands_before(a, pat, a.len() as int) ==> replaced(a, pat, by) == a && occurrences(a, pat)
            == 0,
    decreases a.len(),
{
    let s = a + pat + b;
    if a.len() == 0 {
        assert(s =~= pat + b);
        assert(begins_with(s, pat)) by {
            assert(s.take(pat.len() as int) =~= pat);
        }
        assert(s.skip(pat.len() as int) =~= b);
        assert(a + by + replaced(b, pat, by) =~= by + replaced(b, pat, by));
        assert(replaced(a, pat, by) =~= a);
    } else {
        let rest = a.skip(1);
        first_occurrence_is_replaced(rest, pat, b, by);
        assert(s.skip(0) =~= s);
        assert(a.skip(0) =~= a);
        assert(s.skip(1) =~= rest + pat + b);
        assert(s[0] == a[0]);
        if !stands_before(s, pat, a.len() as int) {
            assert(!begins_with(s.skip(0), pat));
            assert forall|i: int| 0 <= i < rest.len() implies !(#[trigger] begins_with(
                (rest + pat + b).skip(i),
                pat,
            )) by {
                assert((rest + pat + b).skip(i) =~= s.skip(i + 1));
                assert(!begins_with(s.skip(i + 1), pat));
            }
            assert(replaced(s, pat, by) =~= a + by + replaced(b, pat, by));
        }
        if !stands_before(a, pat, a.len() as int) {
            assert(!begins_with(a.skip(0), pat));
            assert forall|i: int| 0 <= i < rest.len() implies !(#[trigger] begins_with(
                rest.skip(i),
                pat,
            )) by {
                assert(rest.skip(i) =~= a.skip(i + 1));
                assert(!begins_with(a.skip(i + 1), pat));
            }
            assert(replaced(a, pat, by) =~= a);
        }
    }
}

/// A text without the pattern's first character is left alone.
proof fn lemma_plain(a: Seq<char>, s: Seq<char>, pat: Seq<char>, by: Seq<char>)
    requires
        pat.len() > 0,
        !a.contains(pat[0]),
    ensures
        replaced(a + s, pat, by) == a + replaced(s, pat, by),
    decreases a.len(),
{
    if a.len() == 0 {
        assert(a + s =~= s);
        assert(a + replaced(s, pat, by) =~= replaced(s, pat, by));
    } else {
        let all = a + s;
        assert(all[0] == a[0]);
        assert(a.contains(a[0]));
        assert(!begins_with(all, pat)) by {
            if begins_with(all, pat) {
                assert(all.take(pat.len() as int)[0] == pat[0]);
            }
        }
        assert(all.skip(1) =~= a.skip(1) + s);
        assert forall|c: char| a.skip(1).contains(c) implies a.contains(c) by {
            let i = choose|i: int| 0 <= i < a.skip(1).len() && a.skip(1)[i] == c;
            assert(a[i + 1] == c);
        }
        lemma_plain(a.skip(1), s, pat, by);
        assert(replaced(all, pat, by) =~= a + replaced(s, pat, by));
    }
}

proof fn lemma_number_plain(n: nat)
    ensures
        !decimal(n).contains('?'),
    decreases n,
{
    if n >= 10 {
        lemma_number_plain(n / 10);
        let d = digit_char((n % 10) as int);
        assert(d != '?');
        if decimal(n).contains('?') {
            let i = choose|i: int| 0 <= i < decimal(n).len() && decimal(n)[i] == '?';
            if i < decimal(n / 10).len() {
                assert(decimal(n / 10)[i] == '?');
            }
        }
    }
}

proof fn lemma_signed_plain(n: int)
    ensures
        !signed_decimal(n).contains('?'),
{
    if n < 0 {
        lemma_number_plain((-n) as nat);
        if signed_decimal(n).contains('?') {
            let i = choose|i: int| 0 <= i < signed_decimal(n).len() && signed_decimal(n)[i] == '?';
            if i > 0 {
                assert(decimal((-n) as nat)[i - 1] == '?');
            }
        }
    } else {
        lemma_number_plain(n as nat);
    }
}

/// A statement's window: behind a text without a question mark, `?1` becomes the start of the window
/// and `?2` its end, and the rest is filled in alike. A text without a question mark stays.
pub proof fn windows_are_filled_in(a: Seq<char>, b: Seq<char>, start: int, end: int)
    requires
        !a.contains('?'),
    ensures
        bound(a, start, end) == a,
        bound(a + "?1"@ + b, start, end) == a + signed_decimal(start) + bound(b, start, end),
        bound(a + "?2"@ + b, start, end) == a + signed_decimal(end) + bound(b, start, end),
{
    reveal_strlit("?1");
    reveal_strlit("?2");
    let one = "?1"@;
    let two = "?2"@;
    let f = signed_decimal(start);
    let t = signed_decimal(end);
    let none = Seq::<char>::empty();
    lemma_signed_plain(start);
    // No question mark.
    lemma_plain(a, none, one, f);
    lemma_plain(a, none, two, t);
    assert(a + none =~= a);
    assert(replaced(none, one, f) =~= none);
    assert(replaced(none, two, t) =~= none);
    // The start.
    let r = replaced(b, one, f);
    assert(a + one + b =~= a + (one + b));
    lemma_plain(a, one + b, one, f);
    assert((one + b).take(2) =~= one);
    assert((one + b).skip(2) =~= b);
    assert(replaced(one + b, one, f) == f + r);
    lemma_plain(a, f + r, two, t);
    lemma_plain(f, r, two, t);
    assert(a + (f + replaced(r, two, t)) =~= a + f + replaced(r, two, t));
    // The end.
    assert(a + two + b =~= a + (two + b));
    lemma_plain(a, two + b, one, f);
    let s = two + b;
    assert(s.take(2) =~= two);
    assert(two[1] == '2' && one[1] == '1');
    assert(!begins_with(s, one)) by {
        if begins_with(s, one) {
            assert(s.take(2)[1] == one[1]);
        }
    }
    let mid = seq!['2'] + b;
    assert(s.skip(1) =~= mid);
    lemma_plain(seq!['2'], b, one, f);
    assert(s[0] == '?');
    assert(replaced(s, one, f) =~= two + r);
    lemma_plain(a, two + r, two, t);
    assert((two + r).take(2) =~= two);
    assert((two + r).skip(2) =~= r);
    assert(replaced(two + r, two, t) == t + replaced(r, two, t));
    assert(a + (t + replaced(r, two, t)) =~= a + t + replaced(r, two, t));
}

} // verus!
