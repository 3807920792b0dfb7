//! How generated names fall into families, and how names become identifiers.
use crate::duckdb::names::{
    before_hash, family, is_digit, phase_of, quoted_body, quoted_char, sanitized, stem, udf_text,
    without_ats, without_digits, Phase,
};
use crate::text::{begins_with, finishes_with, occurs_in};
use vstd::prelude::*;
use vstd::string::*;

verus! {

proof fn lemma_digits_behind_at(s: Seq<char>)
    ensures
        without_ats(without_digits(seq!['@'] + s)) == without_ats(without_digits(s)),
    decreases s.len(),
{
    let t = seq!['@'] + s;
    if s.len() == 0 {
        assert(t =~= seq!['@']);
        assert(without_digits(t) == t);
        assert(t.skip(1) =~= s);
        assert(without_ats(t) == without_ats(s));
    } else if is_digit(s.last()) {
        assert(t.last() == s.last());
        assert(t.drop_last() =~= seq!['@'] + s.drop_last());
        lemma_digits_behind_at(s.drop_last());
    } else {
        assert(t.last() == s.last());
        assert(without_digits(t) == t);
        assert(t.skip(1) =~= s);
        assert(t[0] == '@');
    }
}

/// The stem of a name: an at sign in front and a digit behind make no difference, and a name without
/// them is its own stem.
pub proof fn stems_drop_what_is_generated(s: Seq<char>, d: char)
    ensures
        stem(seq!['@'] + s) == stem(s),
        is_digit(d) ==> stem(s.push(d)) == stem(s),
        s.len() > 0 && s[0] != '@' && !is_digit(s.last()) ==> stem(s) == s,
        stem(Seq::empty()) == Seq::<char>::empty(),
{
    lemma_digits_behind_at(s);
    assert(s.push(d).drop_last() =~= s);
}

proof fn lemma_before_hash(s: Seq<char>, t: Seq<char>)
    requires
        !s.contains('#'),
    ensures
        before_hash(s + seq!['#'] + t) == s,
        before_hash(s) == s,
    decreases s.len(),
{
    let all = s + seq!['#'] + t;
    if s.len() == 0 {
        assert(all[0] == '#');
        assert(before_hash(s) =~= s);
        assert(before_hash(all) =~= s);
    } else {
        let rest = s.skip(1);
        assert(s.contains(s[0]));
        assert forall|c: char| rest.contains(c) implies s.contains(c) by {
            let i = choose|i: int| 0 <= i < rest.len() && rest[i] == c;
            assert(s[i + 1] == c);
        }
        lemma_before_hash(rest, t);
        assert(all[0] == s[0]);
        assert(all.skip(1) =~= rest + seq!['#'] + t);
        assert(seq![s[0]] + rest =~= s);
    }
}

/// The family of a rule: an at sign in front, and what stands behind the first `#`, make no
/// difference; nor does a digit behind what is left. A name without them is its own family.
pub proof fn families_drop_what_is_generated(s: Seq<char>, t: Seq<char>, d: char)
    requires
        !s.contains('#'),
    ensures
        family(seq!['@'] + s) == family(s),
        s.len() > 0 && s[0] != '@' ==> family(s + seq!['#'] + t) == family(s),
        s.len() > 0 && s[0] != '@' && is_digit(d) ==> family(s.push(d)) == family(s),
        s.len() > 0 && s[0] != '@' && !is_digit(s.last()) ==> family(s) == s,
{
    let at = seq!['@'] + s;
    assert(at.skip(1) =~= s);
    assert(at[0] == '@');
    assert(without_ats(at) == without_ats(s));
    if s.len() > 0 && s[0] != '@' {
        lemma_before_hash(s, t);
        assert((s + seq!['#'] + t)[0] == s[0]);
        if is_digit(d) {
            let more = s.push(d);
            assert(!more.contains('#')) by {
                if more.contains('#') {
                    let i = choose|i: int| 0 <= i < more.len() && more[i] == '#';
                    if i < s.len() {
                        assert(s[i] == '#');
                    }
                }
            }
            lemma_before_hash(more, t);
            assert(more[0] == s[0]);
            assert(more.drop_last() =~= s);
        }
    }
}

/// A rule belongs to the phase that its family or its ruleset says: the rebuild comes first, then the
/// congruence, the upkeep of the union-find tables and the cleanup; all other rules are the user's.
pub proof fn phases_go_by_family_and_ruleset(name: Seq<char>, ruleset: Seq<char>)
    ensures
        ({
            let f = family(name);
            let rs = stem(ruleset);
            let rebuild = begins_with(f, "rebuild_rule"@) || rs == "rebuilding"@;
            let congruence = begins_with(f, "congruence_rule"@) || stem(name) == "congruence_rule"@ || rs
                == "congruence"@;
            let upkeep = finishes_with(f, "uf_update"@) || occurs_in("parent"@, f) || occurs_in(
                "uf_function_index"@,
                f,
            ) || rs == "uf_function_index"@ || rs == "parent"@ || rs == "single_parent"@ || rs
                == "uf_change_drain"@;
            let cleanup = occurs_in("cleanup"@, f) || rs == "cleanup"@;
            let p = phase_of(name, ruleset);
            &&& p == Phase::Rebuild <==> rebuild
            &&& p == Phase::Congruence <==> congruence && !rebuild
            &&& p == Phase::Maintenance <==> upkeep && !congruence && !rebuild
            &&& p == Phase::Cleanup <==> cleanup && !upkeep && !congruence && !rebuild
        }),
        forall|p: Phase, q: Phase| #[trigger] p.text() == #[trigger] q.text() ==> p == q,
{
    reveal_strlit("rebuild");
    reveal_strlit("congruence");
    reveal_strlit("maintenance");
    reveal_strlit("cleanup");
    reveal_strlit("user");
    assert(forall|p: Phase| #[trigger] p.text()[0] == match p {
        Phase::Rebuild => 'r',
        Phase::Congruence => 'c',
        Phase::Maintenance => 'm',
        Phase::Cleanup => 'c',
        Phase::User => 'u',
    });
    assert("congruence"@.len() == 10 && "cleanup"@.len() == 7);
    assert forall|p: Phase, q: Phase| #[trigger] p.text() == #[trigger] q.text() implies p == q by {
        assert(p.text()[0] == q.text()[0]);
    }
}

/// Whether a character is an ASCII letter or digit.
pub open spec fn is_plain(c: char) -> bool {
    is_digit(c) || ('A' <= c && c <= 'Z') || ('a' <= c && c <= 'z')
}

/// An identifier of a function is made character by character, from left to right. It holds letters,
/// digits and underscores alone; letters and digits stay, an at sign goes, an underscore is doubled.
pub proof fn identifiers_are_made_character_by_character(a: Seq<char>, b: Seq<char>, c: char, i: int)
    ensures
        sanitized(a + b) == sanitized(a) + sanitized(b),
        is_plain(c) ==> sanitized(seq![c]) == seq![c],
        c == '@' ==> sanitized(seq![c]) == Seq::<char>::empty(),
        c == '_' ==> sanitized(seq![c]) == seq!['_', '_'],
        !is_plain(c) && c != '@' && c != '_' ==> sanitized(seq![c]) == seq!['_'],
        0 <= i < sanitized(a).len() ==> is_plain(sanitized(a)[i]) || sanitized(a)[i] == '_',
    decreases a.len() + b.len(),
{
    lemma_one(c);
    if b.len() == 0 {
        assert(a + b =~= a);
        assert(sanitized(a) + sanitized(b) =~= sanitized(a));
        if a.len() > 0 {
            let less = a.drop_last();
            let n = sanitized(less).len() as int;
            identifiers_are_made_character_by_character(less, b, c, i);
            if 0 <= i < sanitized(a).len() {
                if i < n {
                    assert(sanitized(a)[i] == sanitized(less)[i]);
                } else {
                    assert(sanitized(a)[i] == udf_text(a.last())[i - n]);
                }
            }
        }
    } else {
        identifiers_are_made_character_by_character(a, Seq::empty(), c, i);
        identifiers_are_made_character_by_character(a, b.drop_last(), c, i);
        assert((a + b).drop_last() =~= a + b.drop_last());
        assert((a + b).last() == b.last());
        assert(sanitized(a + b) =~= sanitized(a) + sanitized(b));
    }
}

proof fn lemma_one(c: char)
    ensures
        sanitized(seq![c]) == udf_text(c),
{
    let one = seq![c];
    assert(one.drop_last() =~= Seq::empty());
    assert(sanitized(one.drop_last()) =~= Seq::empty());
    assert(one.last() == c);
    assert(sanitized(one) =~= udf_text(c));
}

/// A quoted identifier is made character by character, from left to right: an underscore is doubled,
/// and so is a quote; an upper-case letter becomes an underscore and the letter 32 places on, its
/// lower-case form; any other character stays.
pub proof fn quotes_are_made_character_by_character(a: Seq<char>, b: Seq<char>, c: char)
    ensures
        quoted_body(a + b) == quoted_body(a) + quoted_body(b),
        quoted_body(seq![c]) == if c == '_' {
            seq!['_', '_']
        } else if c == '"' {
            seq!['"', '"']
        } else if 'A' <= c && c <= 'Z' {
            seq!['_', (c as u8 + 32) as char]
        } else {
            seq![c]
        },
    decreases b.len(),
{
    let one = seq![c];
    assert(one.drop_last() =~= Seq::empty());
    assert(quoted_body(one.drop_last()) =~= Seq::empty());
    assert(one.last() == c);
    assert(quoted_body(one) =~= quoted_char(c));
    if b.len() == 0 {
        assert(a + b =~= a);
        assert(quoted_body(a) + quoted_body(b) =~= quoted_body(a));
    } else {
        quotes_are_made_character_by_character(a, b.drop_last(), c);
        assert((a + b).drop_last() =~= a + b.drop_last());
        assert((a + b).last() == b.last());
        assert(quoted_body(a + b) =~= quoted_body(a) + quoted_body(b));
    }
}

} // verus!
