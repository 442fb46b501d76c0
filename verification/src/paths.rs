//! Path manipulation over plain strings.
//!
//! Paths are strings whose components are separated by `/`. The helpers here
//! mirror the handful of operations the processor needs: joining, splitting
//! off the last component, splitting a file name into stem and extension,
//! and stripping the source-root prefix from a walked path.

use vstd::prelude::*;

verus! {

/// Joins two path fragments with a `/` separator; an empty side disappears.
pub open spec fn spec_join(a: Seq<char>, b: Seq<char>) -> Seq<char> {
    if a.len() == 0 {
        b
    } else if b.len() == 0 {
        a
    } else {
        a + seq!['/'] + b
    }
}

/// Index of the last occurrence of `c` in `s`, or `-1` when absent.
pub open spec fn last_index_of(s: Seq<char>, c: char) -> int
    decreases s.len(),
{
    if s.len() == 0 {
        -1
    } else if s.last() == c {
        s.len() - 1
    } else {
        last_index_of(s.drop_last(), c)
    }
}

/// The last component of a path: everything after the final `/`.
pub open spec fn file_name_of(p: Seq<char>) -> Seq<char> {
    p.skip(last_index_of(p, '/') + 1)
}

/// Everything before the final `/`, or empty when the path is a bare name.
pub open spec fn parent_of(p: Seq<char>) -> Seq<char> {
    if last_index_of(p, '/') < 0 {
        Seq::empty()
    } else {
        p.take(last_index_of(p, '/'))
    }
}

/// The extension of a file name: the part after the final `.`, provided the
/// part before that dot is non-empty (so `.conf` has no extension).
pub open spec fn ext_of(name: Seq<char>) -> Option<Seq<char>> {
    if last_index_of(name, '.') <= 0 {
        None
    } else {
        Some(name.skip(last_index_of(name, '.') + 1))
    }
}

/// The stem of a file name: what precedes the extension, or the whole name.
pub open spec fn stem_of(name: Seq<char>) -> Seq<char> {
    if last_index_of(name, '.') <= 0 {
        name
    } else {
        name.take(last_index_of(name, '.'))
    }
}

/// Whether `p` lies under the directory `source` (or is `source` itself).
pub open spec fn is_under(source: Seq<char>, p: Seq<char>) -> bool {
    p == source || (p.len() > source.len() && p.take(source.len() as int) == source && p[
        source.len() as int
    ] == '/')
}

/// The location of `p` relative to `source`; empty for `source` itself.
pub open spec fn strip_source(source: Seq<char>, p: Seq<char>) -> Seq<char> {
    if p == source {
        Seq::empty()
    } else {
        p.skip(source.len() as int + 1)
    }
}

/// Drops one leading `/`, used to normalize a result root before a prefix
/// is prepended.
pub open spec fn strip_leading_slash(r: Seq<char>) -> Seq<char> {
    if r.len() > 0 && r[0] == '/' {
        r.skip(1)
    } else {
        r
    }
}

/// A join keeps its left side intact at the front.
pub proof fn lemma_spec_join_prefix(a: Seq<char>, b: Seq<char>)
    requires
        a.len() > 0,
    ensures
        spec_join(a, b).len() >= a.len(),
        spec_join(a, b).take(a.len() as int) == a,
{
    if b.len() == 0 {
        assert(spec_join(a, b).take(a.len() as int) =~= a);
    } else {
        assert(spec_join(a, b).take(a.len() as int) =~= a);
    }
}

/// Character-wise string equality.
pub fn str_eq(a: &str, b: &str) -> (r: bool)
    ensures
        r == (a@ == b@),
{
    let an = a.unicode_len();
    let bn = b.unicode_len();
    if an != bn {
        return false;
    }
    let mut i: usize = 0;
    while i < an
        invariant
            an == a@.len(),
            an == b@.len(),
            i <= an,
            forall|k: int| 0 <= k < i ==> a@[k] == b@[k],
        decreases an - i,
    {
        if a.get_char(i) != b.get_char(i) {
            return false;
        }
        i += 1;
    }
    proof {
        assert(a@ =~= b@);
    }
    true
}

proof fn lemma_last_index_take_step(s: Seq<char>, c: char, i: int)
    requires
        0 <= i < s.len(),
        s[i] != c,
    ensures
        last_index_of(s.take(i + 1), c) == last_index_of(s.take(i), c),
{
    assert(s.take(i + 1).drop_last() =~= s.take(i));
    assert(s.take(i + 1).last() == s[i]);
}

/// Scans for the last occurrence of `c`, reported as an index.
pub fn find_last(s: &str, c: char) -> (r: Option<usize>)
    ensures
        match r {
            Some(i) => i == last_index_of(s@, c) && i < s@.len(),
            None => last_index_of(s@, c) == -1,
        },
{
    let n = s.unicode_len();
    let mut i: usize = n;
    proof {
        assert(s@.take(n as int) =~= s@);
    }
    while i > 0
        invariant
            n == s@.len(),
            i <= n,
            last_index_of(s@, c) == last_index_of(s@.take(i as int), c),
        decreases i,
    {
        let ch = s.get_char(i - 1);
        if ch == c {
            proof {
                assert(s@.take(i as int).last() == c);
            }
            return Some(i - 1);
        }
        proof {
            lemma_last_index_take_step(s@, c, i - 1);
        }
        i -= 1;
    }
    proof {
        assert(s@.take(0) =~= Seq::<char>::empty());
    }
    None
}

/// Joins two path fragments with a `/` separator; an empty side disappears.
pub fn join_paths(a: &str, b: &str) -> (r: String)
    ensures
        r@ == spec_join(a@, b@),
{
    if a.unicode_len() == 0 {
        String::from_str(b)
    } else if b.unicode_len() == 0 {
        String::from_str(a)
    } else {
        let mut out = String::from_str(a);
        out.append("/");
        out.append(b);
        proof {
            reveal_strlit("/");
            assert(out@ =~= spec_join(a@, b@));
        }
        out
    }
}

/// The last component of a path.
pub fn file_name<'a>(p: &'a str) -> (r: &'a str)
    ensures
        r@ == file_name_of(p@),
{
    let n = p.unicode_len();
    match find_last(p, '/') {
        Some(i) => p.substring_char(i + 1, n),
        None => {
            proof {
                assert(p@.skip(0) =~= p@);
            }
            p
        },
    }
}

/// Everything before the final `/`, or empty when the path is a bare name.
pub fn parent<'a>(p: &'a str) -> (r: &'a str)
    ensures
        r@ == parent_of(p@),
{
    match find_last(p, '/') {
        Some(i) => p.substring_char(0, i),
        None => {
            proof {
                reveal_strlit("");
                assert(""@ =~= Seq::<char>::empty());
            }
            ""
        },
    }
}

/// The extension of a file name, when it has one.
pub fn extension<'a>(name: &'a str) -> (r: Option<&'a str>)
    ensures
        match r {
            Some(e) => ext_of(name@) == Some(e@),
            None => ext_of(name@) is None,
        },
{
    let n = name.unicode_len();
    match find_last(name, '.') {
        Some(i) => {
            if i == 0 {
                None
            } else {
                Some(name.substring_char(i + 1, n))
            }
        },
        None => None,
    }
}

/// The stem of a file name: what precedes the extension, or the whole name.
pub fn stem<'a>(name: &'a str) -> (r: &'a str)
    ensures
        r@ == stem_of(name@),
{
    match find_last(name, '.') {
        Some(i) => {
            if i == 0 {
                name
            } else {
                name.substring_char(0, i)
            }
        },
        None => name,
    }
}

/// Whether `p` lies under the directory `source` (or is `source` itself).
pub fn path_is_under(source: &str, p: &str) -> (r: bool)
    ensures
        r == is_under(source@, p@),
{
    let sn = source.unicode_len();
    let pn = p.unicode_len();
    if pn < sn {
        proof {
            assert(p@ != source@) by {
                if p@ == source@ {
                    assert(p@.len() == source@.len());
                }
            }
        }
        return false;
    }
    let head = p.substring_char(0, sn);
    if !str_eq(head, source) {
        proof {
            assert(p@ != source@) by {
                if p@ == source@ {
                    assert(p@.take(sn as int) =~= source@);
                }
            }
        }
        return false;
    }
    if pn == sn {
        proof {
            assert(p@ =~= source@);
        }
        return true;
    }
    p.get_char(sn) == '/'
}

/// Drops one leading `/`, used to normalize a result root before a prefix
/// is prepended.
pub fn strip_slash<'a>(r: &'a str) -> (o: &'a str)
    ensures
        o@ == strip_leading_slash(r@),
{
    let n = r.unicode_len();
    if n > 0 && r.get_char(0) == '/' {
        r.substring_char(1, n)
    } else {
        r
    }
}

/// The location of `p` relative to `source`; empty for `source` itself.
pub fn strip_source_prefix<'a>(source: &str, p: &'a str) -> (r: &'a str)
    requires
        is_under(source@, p@),
    ensures
        r@ == strip_source(source@, p@),
{
    let sn = source.unicode_len();
    let pn = p.unicode_len();
    if pn == sn {
        proof {
            assert(p@ =~= source@);
            reveal_strlit("");
            assert(""@ =~= Seq::<char>::empty());
        }
        ""
    } else {
        proof {
            assert(p@ != source@) by {
                if p@ == source@ {
                    assert(p@.len() == source@.len());
                }
            }
        }
        p.substring_char(sn + 1, pn)
    }
}

} // verus!
