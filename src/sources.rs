//! The registry of source paths: each distinct path once, in first-seen order,
//! its position being its id.

use vstd::prelude::*;
use vstd::string::*;

verus! {

/// The paths held by a list of strings.
pub open spec fn paths(v: Seq<String>) -> Seq<Seq<char>> {
    v.map_values(|s: String| s@)
}

/// No path occurs twice.
pub open spec fn distinct(s: Seq<Seq<char>>) -> bool {
    forall|i: int, j: int| 0 <= i < j < s.len() ==> s[i] != s[j]
}

pub open spec fn is_slash_rooted(p: Seq<char>) -> bool {
    p.len() > 0 && p[0] == '/'
}

/// The paths with `p` added where it is new.
pub open spec fn registered(s: Seq<Seq<char>>, p: Seq<char>) -> Seq<Seq<char>> {
    if s.contains(p) {
        s
    } else {
        s.push(p)
    }
}

/// The position of `p` in `s`.
pub open spec fn position(s: Seq<Seq<char>>, p: Seq<char>) -> int {
    choose|i: int| 0 <= i < s.len() && s[i] == p
}

pub proof fn lemma_position(s: Seq<Seq<char>>, i: int)
    requires
        distinct(s),
        0 <= i < s.len(),
    ensures
        position(s, s[i]) == i,
{
    let j = position(s, s[i]);
    if j != i {
        if j < i {
            assert(s[j] != s[i]);
        } else {
            assert(s[i] != s[j]);
        }
    }
}

/// A registered path has a position among the paths.
pub proof fn lemma_position_registered(s: Seq<Seq<char>>, p: Seq<char>)
    ensures
        0 <= position(registered(s, p), p) < registered(s, p).len(),
        registered(s, p)[position(registered(s, p), p)] == p,
{
    let t = registered(s, p);
    if s.contains(p) {
        let i = choose|i: int| 0 <= i < s.len() && s[i] == p;
        assert(t[i] == p);
    } else {
        assert(t[s.len() as int] == p);
    }
}

/// `dir/name`.
pub open spec fn join_path(dir: Seq<char>, name: Seq<char>) -> Seq<char> {
    dir + seq!['/'] + name
}

/// `dir/name`.
pub fn join(dir: &str, name: &str) -> (r: String)
    ensures
        r@ == join_path(dir@, name@),
{
    let mut r = String::from_str(dir);
    r.append("/");
    r.append(name);
    proof {
        reveal_strlit("/");
    }
    r
}

/// Whether `p` begins with `/`.
pub fn starts_with_slash(p: &str) -> (r: bool)
    ensures
        r == is_slash_rooted(p@),
{
    if p.unicode_len() == 0 {
        false
    } else {
        p.get_char(0) == '/'
    }
}

/// The id of `path` in `sources`, appending it when it is new.
pub fn source_id(sources: &mut Vec<String>, path: String) -> (id: usize)
    requires
        distinct(paths(old(sources)@)),
    ensures
        distinct(paths(final(sources)@)),
        id < final(sources)@.len(),
        final(sources)@[id as int]@ == path@,
        paths(old(sources)@).contains(path@) ==> final(sources)@ == old(sources)@,
        !paths(old(sources)@).contains(path@) ==> final(sources)@ == old(sources)@.push(path)
            && id == old(sources)@.len(),
        paths(final(sources)@) == registered(paths(old(sources)@), path@),
        id == position(paths(final(sources)@), path@),
{
    let mut i: usize = 0;
    while i < sources.len()
        invariant
            i <= sources@.len(),
            sources@ == old(sources)@,
            distinct(paths(sources@)),
            forall|k: int| 0 <= k < i ==> sources@[k]@ != path@,
        decreases sources@.len() - i,
    {
        if sources[i] == path {
            proof {
                assert(paths(sources@)[i as int] == path@);
                lemma_position(paths(sources@), i as int);
            }
            return i;
        }
        i = i + 1;
    }
    proof {
        assert(!paths(sources@).contains(path@)) by {
            if paths(sources@).contains(path@) {
                let k = choose|k: int| 0 <= k < paths(sources@).len() && paths(sources@)[k] == path@;
                assert(sources@[k]@ == path@);
            }
        }
    }
    let id = sources.len();
    sources.push(path);
    proof {
        assert(paths(sources@) =~= paths(old(sources)@).push(path@));
        assert(paths(sources@)[id as int] == path@);
        lemma_position(paths(sources@), id as int);
    }
    id
}

} // verus!
