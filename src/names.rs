//! The names of rule scripts: the identity under which their results are
//! stored.
use vstd::prelude::*;

verus! {

/// Position of the last `c` in `s`, or -1 where there is none.
pub open spec fn last_index(s: Seq<char>, c: char) -> int
    decreases s.len(),
{
    if s.len() == 0 {
        -1
    } else if s.last() == c {
        s.len() - 1
    } else {
        last_index(s.drop_last(), c)
    }
}

/// What follows the last `/` of a path, or the whole path where it has none.
pub open spec fn file_name_of(s: Seq<char>) -> Seq<char> {
    s.skip(last_index(s, '/') + 1)
}

/// A file name without its extension: what precedes its last `.`, unless
/// that `.` opens the name (as in `.hidden`), which then has no extension.
pub open spec fn without_extension(name: Seq<char>) -> Seq<char> {
    let d = last_index(name, '.');
    if d > 0 {
        name.take(d)
    } else {
        name
    }
}

/// The name of a script: the file name of its path, without directory and
/// without extension.
pub open spec fn script_name_of(s: Seq<char>) -> Seq<char> {
    without_extension(file_name_of(s))
}

proof fn lemma_last_index(s: Seq<char>, c: char)
    ensures
        -1 <= last_index(s, c) < s.len(),
        last_index(s, c) >= 0 ==> s[last_index(s, c)] == c,
        forall|j: int| last_index(s, c) < j < s.len() ==> s[j] != c,
    decreases s.len(),
{
    if s.len() > 0 && s.last() != c {
        let t = s.drop_last();
        lemma_last_index(t, c);
        assert forall|j: int| last_index(s, c) < j < s.len() implies s[j] != c by {
            if j < s.len() - 1 {
                assert(s[j] == t[j]);
            }
        }
    }
}

proof fn lemma_last_index_is(s: Seq<char>, c: char, p: int)
    requires
        -1 <= p < s.len(),
        p >= 0 ==> s[p] == c,
        forall|j: int| p < j < s.len() ==> s[j] != c,
    ensures
        last_index(s, c) == p,
{
    lemma_last_index(s, c);
    let q = last_index(s, c);
    assert(!(q < p));
    assert(!(p < q));
}

/// Where the last `c` of `s` stands within `s[from..to]`, as a position of
/// `s`, or `from - 1` where that part holds none.
fn last_in(s: &str, c: char, from: usize, to: usize) -> (r: usize)
    requires
        1 <= from <= to <= s@.len(),
    ensures
        from - 1 <= r < to,
        r >= from ==> s@[r as int] == c,
        forall|j: int| r < j < to && j >= from ==> s@[j] != c,
{
    let mut i: usize = to;
    while i > from
        invariant
            from <= i <= to,
            to <= s@.len(),
            forall|j: int| i <= j < to ==> s@[j] != c,
        decreases i,
    {
        if s.get_char(i - 1) == c {
            return i - 1;
        }
        i -= 1;
    }
    from - 1
}

/// The name of a script: the last component of its path, without its
/// extension (`scripts/anemia.lua` is named `anemia`).
pub fn script_name(script: &str) -> (r: &str)
    ensures
        r@ == script_name_of(script@),
{
    let n = script.unicode_len();
    let ghost s = script@;
    let mut i: usize = n;
    while i > 0 && script.get_char(i - 1) != '/'
        invariant
            i <= n,
            n == s.len(),
            s == script@,
            forall|j: int| i <= j < n ==> s[j] != '/',
        decreases i,
    {
        i -= 1;
    }
    // `i` is one past the last `/`, or 0 where there is none.
    proof {
        if i > 0 {
            assert(s[i - 1] == '/');
        }
        lemma_last_index_is(s, '/', i - 1);
    }
    let start = i;
    let ghost name = file_name_of(s);
    assert(name =~= s.subrange(start as int, n as int));
    if n - start >= 2 {
        let d = last_in(script, '.', start + 1, n);
        proof {
            let dn = d - start;
            lemma_last_index(name, '.');
            if d >= start + 1 {
                assert(name[dn as int] == '.');
                assert forall|j: int| dn < j < name.len() implies name[j] != '.' by {
                    assert(name[j] == s[start + j]);
                }
                lemma_last_index_is(name, '.', dn as int);
            } else {
                assert forall|j: int| 0 < j < name.len() implies name[j] != '.' by {
                    assert(name[j] == s[start + j]);
                }
                if name[0] == '.' {
                    lemma_last_index_is(name, '.', 0);
                } else {
                    lemma_last_index_is(name, '.', -1);
                }
            }
        }
        if d >= start + 1 {
            let r = script.substring_char(start, d);
            assert(r@ =~= name.take(d - start));
            return r;
        }
        return script.substring_char(start, n);
    }
    proof {
        lemma_last_index(name, '.');
        if name.len() == 1 && name[0] == '.' {
            lemma_last_index_is(name, '.', 0);
        }
    }
    script.substring_char(start, n)
}

} // verus!
