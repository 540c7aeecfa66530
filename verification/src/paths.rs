//! The search-root list: splitting the colon-separated path list,
//! selecting the roots a run will search, and joining a root with a
//! subdirectory name.

use vstd::prelude::*;

verus! {

/// Splits `s` at every occurrence of `d`.  There is always at least
/// one piece: an empty input yields one empty piece, and a delimiter
/// at either end or two adjacent delimiters yield empty pieces, as
/// `str::split` does.
pub open spec fn split_on(s: Seq<char>, d: char) -> Seq<Seq<char>>
    decreases s.len(),
{
    if s.len() == 0 {
        seq![Seq::<char>::empty()]
    } else if s[0] == d {
        seq![Seq::<char>::empty()] + split_on(s.drop_first(), d)
    } else {
        let rest = split_on(s.drop_first(), d);
        seq![seq![s[0]] + rest[0]] + rest.drop_first()
    }
}

/// A sequence without the delimiter splits into itself alone.
proof fn lemma_split_no_delim(s: Seq<char>, d: char)
    requires
        forall|i: int| 0 <= i < s.len() ==> s[i] != d,
    ensures
        split_on(s, d) =~~= seq![s],
    decreases s.len(),
{
    if s.len() == 0 {
        assert(s =~= Seq::<char>::empty());
    } else {
        lemma_split_no_delim(s.drop_first(), d);
        assert(seq![s[0]] + s.drop_first() =~= s);
    }
}

/// Splitting at the first delimiter: the piece before it, then the
/// split of everything after it.
proof fn lemma_split_at_first(s: Seq<char>, d: char, j: int)
    requires
        0 <= j < s.len(),
        s[j] == d,
        forall|i: int| 0 <= i < j ==> s[i] != d,
    ensures
        split_on(s, d) =~~= seq![s.subrange(0, j)] + split_on(s.subrange(j + 1, s.len() as int), d),
    decreases j,
{
    if j == 0 {
        assert(s.subrange(0, 0) =~= Seq::<char>::empty());
        assert(s.subrange(1, s.len() as int) =~= s.drop_first());
    } else {
        let t = s.drop_first();
        lemma_split_at_first(t, d, j - 1);
        let rest = split_on(t, d);
        assert(rest =~~= seq![t.subrange(0, j - 1)] + split_on(
            t.subrange(j, t.len() as int),
            d,
        ));
        assert(seq![s[0]] + t.subrange(0, j - 1) =~= s.subrange(0, j));
        assert(t.subrange(j, t.len() as int) =~= s.subrange(j + 1, s.len() as int));
    }
}

/// Finds the position of the first colon in `s`, when there is one.
fn first_colon(s: &str) -> (r: Option<usize>)
    ensures
        match r {
            Option::Some(j) => j < s@.len() && s@[j as int] == ':' && (forall|i: int|
                0 <= i < j ==> s@[i] != ':'),
            Option::None => forall|i: int| 0 <= i < s@.len() ==> s@[i] != ':',
        },
{
    let n: usize = s.unicode_len();
    let mut j: usize = 0;
    while j < n
        invariant
            n == s@.len(),
            0 <= j <= n,
            forall|i: int| 0 <= i < j ==> s@[i] != ':',
        decreases n - j,
    {
        if s.get_char(j) == ':' {
            return Some(j);
        }
        j += 1;
    }
    None
}

/// Splits the colon-separated search-path list into its entries.
pub fn split_srcpath(s: &str) -> (parts: Vec<String>)
    ensures
        parts.deep_view() == split_on(s@, ':'),
    decreases s@.len(),
{
    match first_colon(s) {
        Option::None => {
            proof {
                lemma_split_no_delim(s@, ':');
            }
            let mut parts: Vec<String> = Vec::new();
            parts.push(String::from_str(s));
            assert(parts.deep_view() =~~= split_on(s@, ':'));
            parts
        },
        Option::Some(j) => {
            proof {
                lemma_split_at_first(s@, ':', j as int);
            }
            let n: usize = s.unicode_len();
            let head = s.substring_char(0, j);
            let tail = s.substring_char(j + 1, n);
            let rest = split_srcpath(tail);
            let mut parts: Vec<String> = Vec::new();
            parts.push(String::from_str(head));
            let mut k: usize = 0;
            while k < rest.len()
                invariant
                    0 <= k <= rest.len(),
                    parts.deep_view() =~~= seq![head@] + rest.deep_view().take(k as int),
                decreases rest.len() - k,
            {
                let ghost pdv = parts.deep_view();
                parts.push(rest[k].clone());
                proof {
                    assert(parts.deep_view() =~~= pdv.push(rest@[k as int]@));
                    assert(rest.deep_view()[k as int] == rest@[k as int]@);
                    assert(pdv.push(rest@[k as int]@) =~~= seq![head@] + rest.deep_view().take(
                        k + 1,
                    ));
                }
                k += 1;
            }
            assert(rest.deep_view().take(rest.len() as int) =~~= rest.deep_view());
            assert(parts.deep_view() =~~= split_on(s@, ':'));
            parts
        },
    }
}

/// Joins a root path and a subdirectory name with a path separator,
/// adding none when the root already ends in one.
pub open spec fn join_spec(root: Seq<char>, name: Seq<char>) -> Seq<char> {
    if root.len() > 0 && root.last() == '/' {
        root + name
    } else {
        root + seq!['/'] + name
    }
}

/// Builds the path of the entry `name` inside the directory `root`.
pub fn join_path(root: &str, name: &str) -> (r: String)
    ensures
        r@ == join_spec(root@, name@),
{
    let n: usize = root.unicode_len();
    if n > 0 && root.get_char(n - 1) == '/' {
        String::from_str(root).concat(name)
    } else {
        proof {
            reveal_strlit("/");
            assert("/"@ =~= seq!['/']);
        }
        String::from_str(root).concat("/").concat(name)
    }
}

/// A root named in the search-path list, together with whether it
/// exists on the filesystem at the time it was checked.
pub struct RootStatus {
    pub path: String,
    pub exists: bool,
}

/// Whether a root takes part in the search: it must exist, and when a
/// prefix is requested its path must equal the prefix exactly.
pub open spec fn root_kept(r: RootStatus, prefix: Option<Seq<char>>) -> bool {
    r.exists && match prefix {
        Option::Some(p) => r.path@ == p,
        Option::None => true,
    }
}

/// The paths of the roots that take part in the search, in the order
/// the search-path list gave them.
pub open spec fn selected_paths(roots: Seq<RootStatus>, prefix: Option<Seq<char>>) -> Seq<
    Seq<char>,
>
    decreases roots.len(),
{
    if roots.len() == 0 {
        Seq::empty()
    } else {
        let rest = selected_paths(roots.drop_last(), prefix);
        if root_kept(roots.last(), prefix) {
            rest.push(roots.last().path@)
        } else {
            rest
        }
    }
}

/// Keeps the roots that exist, and when `prefix` is given only those
/// whose path equals it exactly.
pub fn select_roots(roots: &Vec<RootStatus>, prefix: &Option<String>) -> (kept: Vec<String>)
    ensures
        kept.deep_view() == selected_paths(roots@, prefix.deep_view()),
{
    let ghost pv = prefix.deep_view();
    let mut kept: Vec<String> = Vec::new();
    let mut i: usize = 0;
    while i < roots.len()
        invariant
            0 <= i <= roots.len(),
            kept.deep_view() =~= selected_paths(roots@.take(i as int), pv),
            pv == prefix.deep_view(),
        decreases roots.len() - i,
    {
        let r = &roots[i];
        let keep = r.exists && match prefix {
            Option::Some(p) => r.path == *p,
            Option::None => true,
        };
        proof {
            assert(roots@.take(i + 1).drop_last() =~= roots@.take(i as int));
            assert(roots@.take(i + 1).last() == roots@[i as int]);
        }
        if keep {
            kept.push(r.path.clone());
        }
        i += 1;
    }
    proof {
        assert(roots@.take(roots@.len() as int) =~= roots@);
    }
    kept
}

/// A requested prefix restricts the search to exactly the existing
/// roots whose path equals it: every selected path is the prefix
/// itself, and the selection is empty precisely when no existing root
/// matches it.
pub proof fn lemma_prefix_restricts(roots: Seq<RootStatus>, p: Seq<char>)
    ensures
        forall|i: int|
            0 <= i < selected_paths(roots, Some(p)).len() ==> selected_paths(roots, Some(p))[i]
                == p,
        selected_paths(roots, Some(p)).len() == 0 <==> (forall|i: int|
            0 <= i < roots.len() ==> !(roots[i].exists && roots[i].path@ == p)),
    decreases roots.len(),
{
    if roots.len() > 0 {
        lemma_prefix_restricts(roots.drop_last(), p);
        assert(forall|i: int|
            0 <= i < roots.len() - 1 ==> roots.drop_last()[i] == roots[i]);
    }
}

} // verus!
