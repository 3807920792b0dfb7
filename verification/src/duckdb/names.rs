//! Names: SQL identifiers, and the families that generated names fall into.
use crate::text::{begins_with, chars_of, contains_str, ends_with, finishes_with, occurs_in, slice_chars, starts_with, string_of, str_eq};
use vstd::prelude::*;

verus! {

/// Whether `c` is an ASCII upper-case letter.
pub open spec fn is_upper(c: char) -> bool {
    'A' <= c && c <= 'Z'
}

/// The lower-case form of an ASCII upper-case letter.
pub open spec fn lower(c: char) -> char {
    ((c as u8 + 32) as u8) as char
}

/// A letter in the case-insensitive comparison of identifiers.
pub open spec fn folded(c: char) -> char {
    if is_upper(c) {
        lower(c)
    } else {
        c
    }
}

/// How one character of a name is written inside a quoted identifier: an underscore is doubled,
/// an upper-case letter becomes an underscore and its lower-case form, a quote is doubled.
pub open spec fn quoted_char(c: char) -> Seq<char> {
    if c == '_' {
        seq!['_', '_']
    } else if is_upper(c) {
        seq!['_', lower(c)]
    } else if c == '"' {
        seq!['"', '"']
    } else {
        seq![c]
    }
}

/// The inside of a quoted identifier.
pub open spec fn quoted_body(name: Seq<char>) -> Seq<char>
    decreases name.len(),
{
    if name.len() == 0 {
        Seq::empty()
    } else {
        quoted_body(name.drop_last()) + quoted_char(name.last())
    }
}

/// A name as a quoted identifier.
pub open spec fn quoted(name: Seq<char>) -> Seq<char> {
    seq!['"'] + quoted_body(name) + seq!['"']
}

/// Quotes a name as a SQL identifier. Quoted identifiers are compared without regard to case, so
/// the case of each letter is written out.
pub fn q(name: &str) -> (s: String)
    ensures
        s@ == quoted(name@),
{
    let cs = chars_of(name);
    let n: usize = cs.len();
    let mut s = String::new();
    s.push('"');
    assert(s@ =~= seq!['"'] + quoted_body(cs@.take(0)));
    for i in 0..n
        invariant
            n == cs@.len(),
            s@ == seq!['"'] + quoted_body(cs@.take(i as int)),
    {
        let c = cs[i];
        let ghost before = s@;
        if c == '_' {
            s.push('_');
            s.push('_');
        } else if 'A' <= c && c <= 'Z' {
            s.push('_');
            s.push(((c as u8) + 32) as char);
        } else if c == '"' {
            s.push('"');
            s.push('"');
        } else {
            s.push(c);
        }
        proof {
            assert(s@ =~= before + quoted_char(c));
            assert(cs@.take(i + 1).drop_last() =~= cs@.take(i as int));
            assert(s@ =~= seq!['"'] + quoted_body(cs@.take(i + 1)));
        }
    }
    s.push('"');
    assert(cs@.take(n as int) =~= cs@);
    assert(s@ =~= quoted(name@));
    s
}

/// The text of an identifier as the database compares it.
pub open spec fn folded_text(s: Seq<char>) -> Seq<char> {
    s.map_values(|c: char| folded(c))
}

/// A quoted identifier holds no upper-case letter.
proof fn lemma_quoted_has_no_upper(name: Seq<char>)
    ensures
        forall|i: int| 0 <= i < quoted_body(name).len() ==> !is_upper(#[trigger] quoted_body(name)[i]),
    decreases name.len(),
{
    if name.len() > 0 {
        lemma_quoted_has_no_upper(name.drop_last());
        let a = quoted_body(name.drop_last());
        let b = quoted_char(name.last());
        assert forall|i: int| 0 <= i < quoted_body(name).len() implies !is_upper(
            #[trigger] quoted_body(name)[i],
        ) by {
            if i < a.len() {
                assert((a + b)[i] == a[i]);
            } else {
                assert((a + b)[i] == b[i - a.len()]);
            }
        }
    }
}

/// Quoting starts at the first character as well as it ends at the last one.
proof fn lemma_quoted_front(name: Seq<char>)
    requires
        name.len() > 0,
    ensures
        quoted_body(name) == quoted_char(name[0]) + quoted_body(name.skip(1)),
    decreases name.len(),
{
    if name.len() == 1 {
        assert(name.drop_last() =~= Seq::empty());
        assert(name.skip(1) =~= Seq::empty());
        assert(quoted_body(name) =~= quoted_char(name[0]) + quoted_body(name.skip(1)));
    } else {
        lemma_quoted_front(name.drop_last());
        assert(name.drop_last().skip(1) =~= name.skip(1).drop_last());
        assert(quoted_body(name) =~= quoted_char(name[0]) + quoted_body(name.skip(1)));
    }
}

/// Two characters whose quoted forms begin two equal texts are the same.
proof fn lemma_quoted_char_prefix(c: char, d: char, x: Seq<char>, y: Seq<char>)
    requires
        quoted_char(c) + x == quoted_char(d) + y,
    ensures
        c == d,
        x == y,
{
    let a = quoted_char(c) + x;
    let b = quoted_char(d) + y;
    assert(a[0] == quoted_char(c)[0]);
    assert(b[0] == quoted_char(d)[0]);
    if quoted_char(c).len() == 2 {
        assert(a[1] == quoted_char(c)[1]);
    }
    if quoted_char(d).len() == 2 {
        assert(b[1] == quoted_char(d)[1]);
    }
    assert(c == d);
    assert(x =~= a.skip(quoted_char(c).len() as int));
    assert(y =~= b.skip(quoted_char(d).len() as int));
}

/// Distinct names have distinct insides.
proof fn lemma_quoted_body_injective(a: Seq<char>, b: Seq<char>)
    requires
        quoted_body(a) == quoted_body(b),
    ensures
        a == b,
    decreases a.len(),
{
    if a.len() == 0 {
        if b.len() > 0 {
            lemma_quoted_front(b);
            assert(quoted_body(b).len() >= 1);
        }
        assert(a =~= b);
    } else {
        lemma_quoted_front(a);
        if b.len() == 0 {
            assert(quoted_body(a).len() >= 1);
        } else {
            lemma_quoted_front(b);
            lemma_quoted_char_prefix(
                a[0],
                b[0],
                quoted_body(a.skip(1)),
                quoted_body(b.skip(1)),
            );
            lemma_quoted_body_injective(a.skip(1), b.skip(1));
            assert(a =~= seq![a[0]] + a.skip(1));
            assert(b =~= seq![b[0]] + b.skip(1));
        }
    }
}

/// Two names whose quoted forms agree up to the case of their letters are the same name.
pub proof fn quoting_keeps_names_apart(a: Seq<char>, b: Seq<char>)
    requires
        folded_text(quoted(a)) == folded_text(quoted(b)),
    ensures
        a == b,
{
    lemma_quoted_has_no_upper(a);
    lemma_quoted_has_no_upper(b);
    assert(folded_text(quoted(a)) =~= quoted(a));
    assert(folded_text(quoted(b)) =~= quoted(b));
    assert(quoted_body(a) =~= quoted(a).subrange(1, quoted(a).len() - 1));
    assert(quoted_body(b) =~= quoted(b).subrange(1, quoted(b).len() - 1));
    lemma_quoted_body_injective(a, b);
}

/// Whether `c` is an ASCII digit.
pub open spec fn is_digit(c: char) -> bool {
    '0' <= c && c <= '9'
}

/// A name without the digits at its end.
pub open spec fn without_digits(s: Seq<char>) -> Seq<char>
    decreases s.len(),
{
    if s.len() > 0 && is_digit(s.last()) {
        without_digits(s.drop_last())
    } else {
        s
    }
}

/// A name without the `@` signs at its start.
pub open spec fn without_ats(s: Seq<char>) -> Seq<char>
    decreases s.len(),
{
    if s.len() > 0 && s[0] == '@' {
        without_ats(s.skip(1))
    } else {
        s
    }
}

/// A name up to its first `#`.
pub open spec fn before_hash(s: Seq<char>) -> Seq<char>
    decreases s.len(),
{
    if s.len() == 0 || s[0] == '#' {
        Seq::empty()
    } else {
        seq![s[0]] + before_hash(s.skip(1))
    }
}

/// The stem of a generated name: the digits at its end are dropped, then the `@` signs at its
/// start.
pub open spec fn stem(name: Seq<char>) -> Seq<char> {
    without_ats(without_digits(name))
}

/// The family of a rule: its name without the `@` signs at the start, without what follows the
/// first `#`, and without the digits that are then at its end.
pub open spec fn family(name: Seq<char>) -> Seq<char> {
    without_digits(before_hash(without_ats(name)))
}

fn trim_digits(s: &Vec<char>) -> (r: Vec<char>)
    ensures
        r@ == without_digits(s@),
{
    let mut n: usize = s.len();
    assert(s@.take(n as int) =~= s@);
    while n > 0 && '0' <= s[n - 1] && s[n - 1] <= '9'
        invariant
            n <= s@.len(),
            without_digits(s@.take(n as int)) == without_digits(s@),
        decreases n,
    {
        assert(s@.take(n as int).drop_last() =~= s@.take(n - 1));
        n = n - 1;
    }
    assert(s@.subrange(0, n as int) =~= s@.take(n as int));
    slice_chars(s, 0, n)
}

fn trim_ats(s: &Vec<char>) -> (r: Vec<char>)
    ensures
        r@ == without_ats(s@),
{
    let mut i: usize = 0;
    assert(s@.skip(0) =~= s@);
    while i < s.len() && s[i] == '@'
        invariant
            i <= s@.len(),
            without_ats(s@.skip(i as int)) == without_ats(s@),
        decreases s@.len() - i,
    {
        assert(s@.skip(i as int).skip(1) =~= s@.skip(i + 1));
        i = i + 1;
    }
    assert(s@.subrange(i as int, s@.len() as int) =~= s@.skip(i as int));
    slice_chars(s, i, s.len())
}

fn cut_hash(s: &Vec<char>) -> (r: Vec<char>)
    ensures
        r@ == before_hash(s@),
{
    let mut r: Vec<char> = Vec::new();
    let mut i: usize = 0;
    assert(s@.skip(0) =~= s@);
    assert(r@ + before_hash(s@) =~= before_hash(s@));
    while i < s.len() && s[i] != '#'
        invariant
            i <= s@.len(),
            r@ + before_hash(s@.skip(i as int)) == before_hash(s@),
        decreases s@.len() - i,
    {
        let ghost before = r@;
        r.push(s[i]);
        proof {
            assert(s@.skip(i as int).skip(1) =~= s@.skip(i + 1));
            assert(r@ + before_hash(s@.skip(i + 1)) =~= before + before_hash(s@.skip(i as int)));
        }
        i = i + 1;
    }
    assert(r@ =~= r@ + before_hash(s@.skip(i as int)));
    r
}

/// The stem of a generated name.
pub fn name_stem(name: &str) -> (r: String)
    ensures
        r@ == stem(name@),
{
    let cs = chars_of(name);
    let a = trim_digits(&cs);
    let b = trim_ats(&a);
    string_of(&b)
}

/// The family of a rule.
pub fn rule_family(rule_name: &str) -> (r: String)
    ensures
        r@ == family(rule_name@),
{
    let cs = chars_of(rule_name);
    let a = trim_ats(&cs);
    let b = cut_hash(&a);
    let c = trim_digits(&b);
    string_of(&c)
}

/// The rulesets that only keep the union-find tables canonical.
pub open spec fn uf_maintenance(ruleset: Seq<char>) -> bool {
    stem(ruleset) == "uf_function_index"@ || stem(ruleset) == "parent"@ || stem(ruleset)
        == "single_parent"@ || stem(ruleset) == "uf_change_drain"@
}

/// Whether the ruleset only keeps the union-find tables canonical, which the in-core union-find
/// makes needless.
pub fn is_uf_maintenance_ruleset(ruleset: &str) -> (b: bool)
    ensures
        b == uf_maintenance(ruleset@),
{
    let s = name_stem(ruleset);
    str_eq(s.as_str(), "uf_function_index") || str_eq(s.as_str(), "parent") || str_eq(
        s.as_str(),
        "single_parent",
    ) || str_eq(s.as_str(), "uf_change_drain")
}

/// Whether the rule is a constructor's congruence rule.
pub fn is_congruence_rule_name(rule_name: &str) -> (b: bool)
    ensures
        b == (stem(rule_name@) == "congruence_rule"@),
{
    let s = name_stem(rule_name);
    str_eq(s.as_str(), "congruence_rule")
}

/// Whether the ruleset is the one that rebuilds.
pub fn is_rebuilding_ruleset(ruleset: &str) -> (b: bool)
    ensures
        b == (stem(ruleset@) == "rebuilding"@),
{
    let s = name_stem(ruleset);
    str_eq(s.as_str(), "rebuilding")
}

/// Whether the rule is a rebuild rule.
pub fn is_rebuild_rule_name(rule_name: &str) -> (b: bool)
    ensures
        b == (family(rule_name@) == "rebuild_rule"@),
{
    let s = rule_family(rule_name);
    str_eq(s.as_str(), "rebuild_rule")
}

/// Whether the rule drains a change relation.
pub fn is_uf_change_drain_rule_name(rule_name: &str) -> (b: bool)
    ensures
        b == (family(rule_name@) == "uf_change_drain_rule"@),
{
    let s = rule_family(rule_name);
    str_eq(s.as_str(), "uf_change_drain_rule")
}

/// The phase of a run that a rule belongs to.
#[derive(Clone, Copy, Debug, PartialEq, Eq, Structural)]
pub enum Phase {
    Rebuild,
    Congruence,
    Maintenance,
    Cleanup,
    User,
}

/// The phase that a rule's name and ruleset put it into.
pub open spec fn phase_of(rule_name: Seq<char>, ruleset: Seq<char>) -> Phase {
    let fam = family(rule_name);
    if begins_with(fam, "rebuild_rule"@) || stem(ruleset) == "rebuilding"@ {
        Phase::Rebuild
    } else if begins_with(fam, "congruence_rule"@) || stem(rule_name) == "congruence_rule"@ || stem(
        ruleset,
    ) == "congruence"@ {
        Phase::Congruence
    } else if finishes_with(fam, "uf_update"@) || occurs_in("parent"@, fam) || occurs_in(
        "uf_function_index"@,
        fam,
    ) || uf_maintenance(ruleset) {
        Phase::Maintenance
    } else if occurs_in("cleanup"@, fam) || stem(ruleset) == "cleanup"@ {
        Phase::Cleanup
    } else {
        Phase::User
    }
}

/// The phase that a rule belongs to.
pub fn classify_rule(rule_name: &str, ruleset: &str) -> (p: Phase)
    ensures
        p == phase_of(rule_name@, ruleset@),
{
    let fam = rule_family(rule_name);
    let f = fam.as_str();
    let rs = name_stem(ruleset);
    if starts_with(f, "rebuild_rule") || is_rebuilding_ruleset(ruleset) {
        Phase::Rebuild
    } else if starts_with(f, "congruence_rule") || is_congruence_rule_name(rule_name) || str_eq(
        rs.as_str(),
        "congruence",
    ) {
        Phase::Congruence
    } else if ends_with(f, "uf_update") || contains_str(f, "parent") || contains_str(
        f,
        "uf_function_index",
    ) || is_uf_maintenance_ruleset(ruleset) {
        Phase::Maintenance
    } else if contains_str(f, "cleanup") || str_eq(rs.as_str(), "cleanup") {
        Phase::Cleanup
    } else {
        Phase::User
    }
}

impl Phase {
    /// The phase's label.
    pub open spec fn text(self) -> Seq<char> {
        match self {
            Phase::Rebuild => "rebuild"@,
            Phase::Congruence => "congruence"@,
            Phase::Maintenance => "maintenance"@,
            Phase::Cleanup => "cleanup"@,
            Phase::User => "user"@,
        }
    }

    /// The phase's label.
    pub fn label(self) -> (s: &'static str)
        ensures
            s@ == self.text(),
    {
        match self {
            Phase::Rebuild => "rebuild",
            Phase::Congruence => "congruence",
            Phase::Maintenance => "maintenance",
            Phase::Cleanup => "cleanup",
            Phase::User => "user",
        }
    }
}

/// What stands in a function's identifier for the character `c` of a name.
pub open spec fn udf_text(c: char) -> Seq<char> {
    if c == '@' {
        Seq::empty()
    } else if c == '_' {
        seq!['_', '_']
    } else if is_digit(c) || is_upper(c) || ('a' <= c && c <= 'z') {
        seq![c]
    } else {
        seq!['_']
    }
}

/// A name as a function's identifier.
pub open spec fn sanitized(s: Seq<char>) -> Seq<char>
    decreases s.len(),
{
    if s.len() == 0 {
        Seq::empty()
    } else {
        sanitized(s.drop_last()) + udf_text(s.last())
    }
}

/// A name as a function's identifier: an at sign is left out, an underscore is doubled, and what
/// else is no ASCII letter or digit becomes an underscore.
pub fn sanitize_for_udf(s: &str) -> (r: String)
    ensures
        r@ == sanitized(s@),
{
    let cs = chars_of(s);
    let n: usize = cs.len();
    let mut r = String::new();
    for i in 0..n
        invariant
            n == cs@.len(),
            r@ == sanitized(cs@.take(i as int)),
    {
        let c = cs[i];
        let ghost before = r@;
        if c == '@' {
        } else if c == '_' {
            r.push('_');
            r.push('_');
        } else if ('0' <= c && c <= '9') || ('A' <= c && c <= 'Z') || ('a' <= c && c <= 'z') {
            r.push(c);
        } else {
            r.push('_');
        }
        assert(r@ =~= before + udf_text(c));
        assert(cs@.take(i + 1).drop_last() =~= cs@.take(i as int));
    }
    assert(cs@.take(n as int) =~= cs@);
    r
}

} // verus!
