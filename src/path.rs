//! Asset paths: `/`-separated names with an optional extension after the
//! last dot of the file name.
use vstd::prelude::*;

verus! {

/// The index of the last `c` in `s`, or -1.
pub open spec fn last_index_of(s: Seq<char>, c: char) -> int
    decreases s.len(),
{
    if s.len() == 0 {
        -1
    } else if s.last() == c {
        s.len() - 1
    } else {
        last_index_of(s.drop_last(), c)
    }
}

/// Where the file name of `p` starts: after its last `/`.
pub open spec fn name_start(p: Seq<char>) -> int {
    last_index_of(p, '/') + 1
}

/// The index of the dot that starts the extension of `p`, or -1: the last
/// dot of the file name, unless the name starts with it.
pub open spec fn ext_dot(p: Seq<char>) -> int {
    let d = last_index_of(p, '.');
    if d > name_start(p) {
        d
    } else {
        -1
    }
}

/// The extension of `p`, without its dot.
pub open spec fn extension(p: Seq<char>) -> Option<Seq<char>> {
    if ext_dot(p) >= 0 {
        Some(p.skip(ext_dot(p) + 1))
    } else {
        None
    }
}

/// `p` with its extension replaced by `ext` (or `ext` added where it has
/// none); a path with an empty file name stays as it is.
pub open spec fn with_extension(p: Seq<char>, ext: Seq<char>) -> Seq<char> {
    if name_start(p) == p.len() {
        p
    } else if ext_dot(p) >= 0 {
        p.take(ext_dot(p)) + seq!['.'] + ext
    } else {
        p + seq!['.'] + ext
    }
}

proof fn lemma_last_index_bounds(s: Seq<char>, c: char)
    ensures
        -1 <= last_index_of(s, c) < s.len(),
        last_index_of(s, c) >= 0 ==> s[last_index_of(s, c)] == c,
    decreases s.len(),
{
    if s.len() > 0 && s.last() != c {
        lemma_last_index_bounds(s.drop_last(), c);
    }
}

/// The index of the last `c` in `s`.
pub fn last_index(s: &Vec<char>, c: char) -> (r: Option<usize>)
    ensures
        match r {
            Some(k) => k as int == last_index_of(s@, c),
            None => last_index_of(s@, c) == -1,
        },
{
    let mut i: usize = s.len();
    assert(s@.take(i as int) =~= s@);
    while i > 0
        invariant
            i <= s@.len(),
            last_index_of(s@, c) == last_index_of(s@.take(i as int), c),
        decreases i,
    {
        let ghost pre = s@.take(i as int);
        assert(pre.drop_last() =~= s@.take(i - 1));
        if s[i - 1] == c {
            return Some(i - 1);
        }
        i = i - 1;
    }
    None
}

/// The index of the dot that starts the extension of `p` (see `ext_dot`).
pub fn ext_dot_exec(p: &Vec<char>) -> (r: Option<usize>)
    ensures
        match r {
            Some(k) => k as int == ext_dot(p@) && k < p@.len(),
            None => ext_dot(p@) == -1,
        },
{
    proof {
        lemma_last_index_bounds(p@, '.');
        lemma_last_index_bounds(p@, '/');
    }
    match last_index(p, '.') {
        None => None,
        Some(d) => match last_index(p, '/') {
            None => if d > 0 {
                Some(d)
            } else {
                None
            },
            Some(sl) => if d > sl && d - sl > 1 {
                Some(d)
            } else {
                None
            },
        },
    }
}

/// The extension of `p`, without its dot.
pub fn extension_of(p: &Vec<char>) -> (r: Option<Vec<char>>)
    ensures
        r matches Some(e) ==> extension(p@) == Some(e@),
        r is None ==> extension(p@) is None,
{
    let d = match ext_dot_exec(p) {
        None => {
            return None;
        },
        Some(d) => d,
    };
    let mut e: Vec<char> = Vec::new();
    assert(d < p.len());
    let mut i: usize = d + 1;
    while i < p.len()
        invariant
            d + 1 <= i <= p@.len(),
            e@ == p@.subrange(d + 1, i as int),
        decreases p.len() - i,
    {
        e.push(p[i]);
        i = i + 1;
        assert(e@ =~= p@.subrange(d + 1, i as int));
    }
    assert(e@ =~= p@.skip(d + 1));
    Some(e)
}

/// `p` with its extension replaced by `ext` (see `with_extension`).
pub fn replace_extension(p: &Vec<char>, ext: &Vec<char>) -> (r: Vec<char>)
    ensures
        r@ == with_extension(p@, ext@),
{
    proof {
        lemma_last_index_bounds(p@, '/');
    }
    let bare = match last_index(p, '/') {
        None => p.len() == 0,
        Some(sl) => p.len() > 0 && sl == p.len() - 1,
    };
    let d = ext_dot_exec(p);
    let stop: usize = match d {
        Some(k) => if bare {
            p.len()
        } else {
            k
        },
        None => p.len(),
    };
    let mut r: Vec<char> = Vec::new();
    let mut i: usize = 0;
    while i < stop
        invariant
            stop <= p@.len(),
            i <= stop,
            r@ == p@.take(i as int),
        decreases stop - i,
    {
        r.push(p[i]);
        i = i + 1;
        assert(r@ =~= p@.take(i as int));
    }
    if bare {
        assert(r@ =~= p@);
        return r;
    }
    r.push('.');
    let mut j: usize = 0;
    let ghost stem = p@.take(stop as int);
    while j < ext.len()
        invariant
            j <= ext@.len(),
            r@ == stem + seq!['.'] + ext@.take(j as int),
        decreases ext.len() - j,
    {
        r.push(ext[j]);
        j = j + 1;
        assert(r@ =~= stem + seq!['.'] + ext@.take(j as int));
    }
    assert(ext@.take(ext@.len() as int) =~= ext@);
    assert(d is None ==> stem =~= p@);
    r
}

} // verus!
