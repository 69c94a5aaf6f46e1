//! Selecting which rule tests to run. A selector is `script` or
//! `script:test`; a leading `!` excludes what it names instead.
use vstd::prelude::*;
use crate::text::str_equals;
use crate::model::opt_chars;

verus! {

/// A script, and the one test of it that is meant, if any.
pub type Pattern = (Seq<char>, Option<Seq<char>>);

/// Position of the first `:` in `s`, or -1 where there is none.
pub open spec fn first_colon(s: Seq<char>) -> int
    decreases s.len(),
{
    if s.len() == 0 {
        -1
    } else if s[0] == ':' {
        0
    } else {
        let r = first_colon(s.drop_first());
        if r < 0 {
            -1
        } else {
            r + 1
        }
    }
}

/// The pattern that a selector (without its `!`) stands for: split at the
/// first `:`.
pub open spec fn pattern_of(s: Seq<char>) -> Pattern {
    let p = first_colon(s);
    if p < 0 {
        (s, None)
    } else {
        (s.take(p), Some(s.skip(p + 1)))
    }
}

/// Whether a selector excludes.
pub open spec fn is_negated(s: Seq<char>) -> bool {
    s.len() > 0 && s[0] == '!'
}

/// The patterns of the selectors that exclude (`negated`) or include
/// (`!negated`), in order.
pub open spec fn patterns(sel: Seq<String>, negated: bool) -> Seq<Pattern>
    decreases sel.len(),
{
    if sel.len() == 0 {
        Seq::empty()
    } else {
        let rest = patterns(sel.drop_last(), negated);
        let s = sel.last()@;
        if is_negated(s) == negated {
            rest.push(pattern_of(if negated { s.skip(1) } else { s }))
        } else {
            rest
        }
    }
}

/// The patterns held as plain values, seen as characters.
pub open spec fn patterns_view(v: Seq<(String, Option<String>)>) -> Seq<Pattern> {
    v.map_values(
        |p: (String, Option<String>)|
            (
                p.0@,
                match p.1 {
                    Some(t) => Some(t@),
                    None => None,
                },
            ),
    )
}

/// Pattern `p` names script `script` and, where both name a test, the same test.
pub open spec fn pattern_matches(p: Pattern, script: Seq<char>, test: Option<Seq<char>>) -> bool {
    &&& p.0 == script
    &&& (p.1 is None || test is None || p.1->0 == test->0)
}

/// A test is run where no exclusion names it, and, where there are
/// inclusions, one of them names it.
pub open spec fn allowed_by(
    allowed: Seq<Pattern>,
    disallowed: Seq<Pattern>,
    script: Seq<char>,
    test: Option<Seq<char>>,
) -> bool {
    &&& !exists|i: int| 0 <= i < disallowed.len() && pattern_matches(#[trigger] disallowed[i], script, test)
    &&& (allowed.len() == 0 || exists|i: int|
        0 <= i < allowed.len() && pattern_matches(#[trigger] allowed[i], script, test))
}

/// The tests selected by a list of selectors.
#[derive(Clone, Debug, PartialEq)]
pub struct TestAllowance {
    pub allowed: Vec<(String, Option<String>)>,
    pub disallowed: Vec<(String, Option<String>)>,
}

fn split_pattern(s: &str) -> (r: (String, Option<String>))
    ensures
        patterns_view(seq![r]) == seq![pattern_of(s@)],
{
    let n = s.unicode_len();
    let mut i: usize = 0;
    while i < n
        invariant
            i <= n,
            n == s@.len(),
            forall|j: int| 0 <= j < i ==> s@[j] != ':',
        decreases n - i,
    {
        if s.get_char(i) == ':' {
            let r = (String::from_str(s.substring_char(0, i)), Some(String::from_str(s.substring_char(i + 1, n))));
            proof {
                lemma_first_colon_is(s@, i as int);
                assert(patterns_view(seq![r]) =~= seq![pattern_of(s@)]);
            }
            return r;
        }
        i += 1;
    }
    let r = (String::from_str(s), None);
    proof {
        lemma_first_colon_is(s@, -1);
        assert(patterns_view(seq![r]) =~= seq![pattern_of(s@)]);
    }
    r
}

proof fn lemma_first_colon_is(s: Seq<char>, p: int)
    requires
        -1 <= p < s.len(),
        p >= 0 ==> s[p] == ':',
        forall|j: int| 0 <= j < s.len() && (p < 0 || j < p) ==> s[j] != ':',
    ensures
        first_colon(s) == p,
    decreases s.len(),
{
    if s.len() > 0 && s[0] != ':' {
        let rest = s.drop_first();
        assert forall|j: int| 0 <= j < rest.len() && (p - 1 < 0 || j < p - 1) implies rest[j] != ':' by {
            assert(rest[j] == s[j + 1]);
        }
        if p >= 0 {
            assert(rest[p - 1] == s[p]);
        }
        lemma_first_colon_is(rest, if p < 0 { -1 } else { p - 1 });
    }
}

fn any_match(ps: &Vec<(String, Option<String>)>, script: &str, test: &Option<String>) -> (r: bool)
    ensures
        r == exists|i: int|
            0 <= i < ps.len() && pattern_matches(
                #[trigger] patterns_view(ps@)[i],
                script@,
                opt_chars(*test),
            ),
{
    let ghost tv = opt_chars(*test);
    let mut i: usize = 0;
    while i < ps.len()
        invariant
            i <= ps.len(),
            tv == opt_chars(*test),
            forall|j: int| 0 <= j < i ==> !pattern_matches(#[trigger] patterns_view(ps@)[j], script@, tv),
        decreases ps.len() - i,
    {
        let same_test = match (&ps[i].1, test) {
            (Some(a), Some(b)) => str_equals(a.as_str(), b.as_str()),
            _ => true,
        };
        if str_equals(ps[i].0.as_str(), script) && same_test {
            assert(pattern_matches(patterns_view(ps@)[i as int], script@, tv));
            return true;
        }
        assert(!pattern_matches(patterns_view(ps@)[i as int], script@, tv));
        i += 1;
    }
    false
}

impl TestAllowance {
    /// Reads a list of selectors.
    pub fn new(allowances: &Vec<String>) -> (r: TestAllowance)
        ensures
            patterns_view(r.allowed@) == patterns(allowances@, false),
            patterns_view(r.disallowed@) == patterns(allowances@, true),
    {
        let mut allowed: Vec<(String, Option<String>)> = Vec::new();
        let mut disallowed: Vec<(String, Option<String>)> = Vec::new();
        let mut i: usize = 0;
        while i < allowances.len()
            invariant
                i <= allowances.len(),
                patterns_view(allowed@) == patterns(allowances@.take(i as int), false),
                patterns_view(disallowed@) == patterns(allowances@.take(i as int), true),
            decreases allowances.len() - i,
        {
            let s = allowances[i].as_str();
            let ghost t = allowances@.take(i as int + 1);
            proof {
                assert(t.drop_last() =~= allowances@.take(i as int));
                assert(t.last()@ == s@);
            }
            if s.unicode_len() > 0 && s.get_char(0) == '!' {
                let n = s.unicode_len();
                let p = split_pattern(s.substring_char(1, n));
                let ghost before = allowed@;
                let ghost dbefore = disallowed@;
                disallowed.push(p);
                assert(patterns_view(disallowed@) =~= patterns_view(dbefore) + patterns_view(seq![p]));
                assert(s@.skip(1) =~= s@.subrange(1, n as int));
            } else {
                let p = split_pattern(s);
                let ghost before = allowed@;
                allowed.push(p);
                assert(patterns_view(allowed@) =~= patterns_view(before) + patterns_view(seq![p]));
            }
            i += 1;
        }
        assert(allowances@.take(allowances.len() as int) =~= allowances@);
        TestAllowance { allowed, disallowed }
    }

    /// Whether test `test` of script `script` is to be run (see [`allowed_by`]).
    pub fn valid(&self, script: &str, test: &Option<String>) -> (r: bool)
        ensures
            r == allowed_by(
                patterns_view(self.allowed@),
                patterns_view(self.disallowed@),
                script@,
                opt_chars(*test),
            ),
    {
        if any_match(&self.disallowed, script, test) {
            return false;
        }
        if self.allowed.len() > 0 {
            return any_match(&self.allowed, script, test);
        }
        true
    }
}

} // verus!
