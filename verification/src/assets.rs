//! Where asset files are looked for.

use vstd::prelude::*;

verus! {

/// `s` begins with `p`.
pub open spec fn starts_with(s: Seq<char>, p: Seq<char>) -> bool {
    p.len() <= s.len() && s.take(p.len() as int) == p
}

/// The paths to try for an asset, in order: the path as given, then the
/// path with each of `prefixes` that it begins with removed, in the order of
/// `prefixes`.
pub open spec fn path_candidates_of(path: Seq<char>, prefixes: Seq<Seq<char>>) -> Seq<Seq<char>>
    decreases prefixes.len(),
{
    if prefixes.len() == 0 {
        seq![path]
    } else {
        let before = path_candidates_of(path, prefixes.drop_last());
        let p = prefixes.last();
        if starts_with(path, p) {
            before.push(path.skip(p.len() as int))
        } else {
            before
        }
    }
}

/// Whether `s` begins with `p`.
pub fn str_starts_with(s: &str, p: &str) -> (res: bool)
    ensures
        res == starts_with(s@, p@),
{
    let n = s.unicode_len();
    let m = p.unicode_len();
    if m > n {
        return false;
    }
    let mut i: usize = 0;
    while i < m
        invariant
            n == s@.len(),
            m == p@.len(),
            m <= n,
            i <= m,
            forall|k: int| 0 <= k < i ==> s@[k] == p@[k],
        decreases m - i,
    {
        if s.get_char(i) != p.get_char(i) {
            proof {
                assert(s@.take(m as int)[i as int] == s@[i as int]);
            }
            return false;
        }
        i += 1;
    }
    proof {
        assert(s@.take(m as int) =~= p@);
    }
    true
}

/// The paths to try for an asset whose configured path may not exist: the
/// path itself, then the path without each of `prefixes_to_strip` that it
/// begins with. The first of them that exists is the one to load.
pub fn path_candidates(path: &str, prefixes_to_strip: &[&str]) -> (res: Vec<String>)
    ensures
        res@.map_values(|c: String| c@) == path_candidates_of(path@, prefixes_to_strip@.map_values(|p: &str| p@)),
{
    let ghost prefixes = prefixes_to_strip@.map_values(|p: &str| p@);
    let mut res: Vec<String> = Vec::new();
    res.push(path.to_owned());
    let mut i: usize = 0;
    proof {
        assert(prefixes.take(0) =~= Seq::<Seq<char>>::empty());
        assert(res@.map_values(|c: String| c@) =~= path_candidates_of(path@, prefixes.take(0)));
    }
    while i < prefixes_to_strip.len()
        invariant
            i <= prefixes_to_strip@.len(),
            prefixes == prefixes_to_strip@.map_values(|p: &str| p@),
            res@.map_values(|c: String| c@) == path_candidates_of(path@, prefixes.take(i as int)),
        decreases prefixes_to_strip@.len() - i,
    {
        let p = prefixes_to_strip[i];
        proof {
            assert(prefixes.take(i + 1).drop_last() =~= prefixes.take(i as int));
            assert(prefixes.take(i + 1).last() == p@);
        }
        let ghost old_res = res@;
        if str_starts_with(path, p) {
            let n = path.unicode_len();
            let m = p.unicode_len();
            let rest = path.substring_char(m, n);
            res.push(rest.to_owned());
            proof {
                assert(rest@ =~= path@.skip(m as int));
                assert(res@.map_values(|c: String| c@) =~= old_res.map_values(|c: String| c@).push(path@.skip(m as int)));
            }
        }
        i += 1;
    }
    proof {
        assert(prefixes.take(prefixes_to_strip@.len() as int) =~= prefixes);
    }
    res
}

} // verus!
