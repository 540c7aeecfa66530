//! The directory search: scanning the immediate children of each
//! search root for project directories, finding one by name and
//! enumerating them all.
//!
//! Directory contents are handed in as plain values (`RootDir`), so
//! the decisions here — which entries count as projects, which root
//! wins a search, what order the listing has — are all verified.

use vstd::prelude::*;

use crate::paths::join_path;
use crate::paths::join_spec;

verus! {

/// One entry of a directory, as the filesystem reports it: its
/// basename and whether it is itself a directory.
pub struct Entry {
    pub name: String,
    pub is_dir: bool,
}

/// A search root together with its immediate children, in the order
/// the filesystem enumerated them.
pub struct RootDir {
    pub path: String,
    pub entries: Vec<Entry>,
}

/// The basenames of the directories among `entries`, in order.
/// Entries that are not directories are skipped.
pub open spec fn dir_names(entries: Seq<Entry>) -> Seq<Seq<char>>
    decreases entries.len(),
{
    if entries.len() == 0 {
        Seq::empty()
    } else {
        let rest = dir_names(entries.drop_last());
        if entries.last().is_dir {
            rest.push(entries.last().name@)
        } else {
            rest
        }
    }
}

/// The full paths of the directories among `entries`, each joined
/// under `root`, in order.
pub open spec fn dir_paths(root: Seq<char>, entries: Seq<Entry>) -> Seq<Seq<char>>
    decreases entries.len(),
{
    if entries.len() == 0 {
        Seq::empty()
    } else {
        let rest = dir_paths(root, entries.drop_last());
        if entries.last().is_dir {
            rest.push(join_spec(root, entries.last().name@))
        } else {
            rest
        }
    }
}

/// The project paths a single root contributes.
pub open spec fn root_projects(r: RootDir) -> Seq<Seq<char>> {
    dir_paths(r.path@, r.entries@)
}

/// Whether the root has an immediate subdirectory named `name`.
pub open spec fn root_has(r: RootDir, name: Seq<char>) -> bool {
    exists|i: int|
        0 <= i < r.entries@.len() && r.entries@[i].is_dir && r.entries@[i].name@ == name
}

/// The project paths of all roots, in root order and within each root
/// in enumeration order.
pub open spec fn all_projects(roots: Seq<RootDir>) -> Seq<Seq<char>>
    decreases roots.len(),
{
    if roots.len() == 0 {
        Seq::empty()
    } else {
        all_projects(roots.drop_last()) + root_projects(roots.last())
    }
}

/// The project names of all roots, in the same order as
/// `all_projects`.
pub open spec fn all_names(roots: Seq<RootDir>) -> Seq<Seq<char>>
    decreases roots.len(),
{
    if roots.len() == 0 {
        Seq::empty()
    } else {
        all_names(roots.drop_last()) + dir_names(roots.last().entries@)
    }
}

/// The result of searching the roots in order for a project named
/// `name`: the path of the match inside the first root that has one,
/// and nothing when no root does.  Later roots are never consulted
/// once a root matches.
pub open spec fn find_spec(roots: Seq<RootDir>, name: Seq<char>) -> Option<Seq<char>>
    decreases roots.len(),
{
    if roots.len() == 0 {
        Option::None
    } else if root_has(roots[0], name) {
        Option::Some(join_spec(roots[0].path@, name))
    } else {
        find_spec(roots.drop_first(), name)
    }
}

/// Scans the immediate children of one root.  With a target name it
/// returns the path of the first directory entry of that name, or
/// nothing; without one it returns the paths of all directory
/// entries.  Entries that are not directories are skipped silently.
pub fn scan_root(root: &RootDir, target: Option<&String>) -> (found: Vec<String>)
    ensures
        match target {
            Option::Some(t) => found.deep_view() == (if root_has(*root, t@) {
                seq![join_spec(root.path@, t@)]
            } else {
                Seq::<Seq<char>>::empty()
            }),
            Option::None => found.deep_view() == root_projects(*root),
        },
{
    let mut found: Vec<String> = Vec::new();
    let mut i: usize = 0;
    while i < root.entries.len()
        invariant
            0 <= i <= root.entries.len(),
            match target {
                Option::Some(t) => found.len() == 0 && (forall|j: int|
                    0 <= j < i ==> !(root.entries@[j].is_dir && root.entries@[j].name@ == t@)),
                Option::None => found.deep_view() =~~= dir_paths(
                    root.path@,
                    root.entries@.take(i as int),
                ),
            },
        decreases root.entries.len() - i,
    {
        proof {
            assert(root.entries@.take(i + 1).drop_last() =~= root.entries@.take(i as int));
            assert(root.entries@.take(i + 1).last() == root.entries@[i as int]);
        }
        let e = &root.entries[i];
        if e.is_dir {
            match target {
                Option::Some(t) => {
                    if e.name == *t {
                        found.push(join_path(root.path.as_str(), e.name.as_str()));
                        assert(root_has(*root, t@));
                        assert(found.deep_view() =~~= seq![join_spec(root.path@, t@)]);
                        return found;
                    }
                },
                Option::None => {
                    let ghost fdv = found.deep_view();
                    found.push(join_path(root.path.as_str(), e.name.as_str()));
                    proof {
                        assert(found.deep_view() =~~= fdv.push(
                            join_spec(root.path@, root.entries@[i as int].name@),
                        ));
                    }
                },
            }
        }
        i += 1;
    }
    proof {
        assert(root.entries@.take(root.entries@.len() as int) =~= root.entries@);
        match target {
            Option::Some(t) => {
                assert(found.deep_view() =~~= Seq::<Seq<char>>::empty());
            },
            Option::None => {},
        }
    }
    found
}

/// Collects the project paths of every root: for each root in order,
/// the paths of its immediate subdirectories.
pub fn load_all_projects(roots: &Vec<RootDir>) -> (all: Vec<String>)
    ensures
        all.deep_view() == all_projects(roots@),
{
    let mut all: Vec<String> = Vec::new();
    let mut i: usize = 0;
    while i < roots.len()
        invariant
            0 <= i <= roots.len(),
            all.deep_view() =~~= all_projects(roots@.take(i as int)),
        decreases roots.len() - i,
    {
        proof {
            assert(roots@.take(i + 1).drop_last() =~= roots@.take(i as int));
            assert(roots@.take(i + 1).last() == roots@[i as int]);
        }
        let ghost adv = all.deep_view();
        let mut found = scan_root(&roots[i], None);
        let ghost fdv = found.deep_view();
        all.append(&mut found);
        proof {
            assert(all.deep_view() =~~= adv + fdv);
        }
        i += 1;
    }
    proof {
        assert(roots@.take(roots@.len() as int) =~= roots@);
    }
    all
}

/// Searches the roots in order for a project named `name` and returns
/// its path, from the first root that has it; later roots are not
/// scanned once a match is found.
pub fn find(roots: &Vec<RootDir>, name: &String) -> (r: Option<String>)
    ensures
        r.deep_view() == find_spec(roots@, name@),
{
    proof {
        assert(roots@.skip(0) =~= roots@);
    }
    let mut i: usize = 0;
    while i < roots.len()
        invariant
            0 <= i <= roots.len(),
            find_spec(roots@, name@) == find_spec(roots@.skip(i as int), name@),
        decreases roots.len() - i,
    {
        proof {
            assert(roots@.skip(i as int)[0] == roots@[i as int]);
            assert(roots@.skip(i as int).drop_first() =~= roots@.skip(i + 1));
        }
        let mut found = scan_root(&roots[i], Some(name));
        let ghost fdv = found.deep_view();
        if found.len() > 0 {
            proof {
                assert(fdv.len() == found@.len());
                assert(root_has(roots@[i as int], name@));
            }
            let p = found.remove(0);
            assert(p@ == fdv[0]);
            return Some(p);
        }
        proof {
            assert(fdv.len() == found@.len());
            assert(!root_has(roots@[i as int], name@));
        }
        i += 1;
    }
    proof {
        assert(roots@.skip(roots@.len() as int) =~= Seq::<RootDir>::empty());
    }
    None
}

/// The lexicographic order on character sequences: the order of
/// `str`, whose comparison is lexicographic over the characters.
pub open spec fn lex_le(a: Seq<char>, b: Seq<char>) -> bool
    decreases a.len(),
{
    if a.len() == 0 {
        true
    } else if b.len() == 0 {
        false
    } else if (a[0] as u32) < (b[0] as u32) {
        true
    } else if a[0] == b[0] {
        lex_le(a.drop_first(), b.drop_first())
    } else {
        false
    }
}

/// Whether the sequences appear in ascending lexicographic order.
pub open spec fn sorted_lex(s: Seq<Seq<char>>) -> bool {
    forall|i: int, j: int| 0 <= i < j < s.len() ==> lex_le(s[i], s[j])
}

/// Relies on itertools' `sorted`, which collects the elements and
/// sorts them with `Vec::sort`: ascending under `String`'s ordering,
/// lexicographic over the UTF-8 bytes and therefore over the
/// characters, keeping the elements themselves unchanged.
#[verifier::external_body]
fn sorted_strings(v: Vec<String>) -> (r: Vec<String>)
    ensures
        r.deep_view().to_multiset() == v.deep_view().to_multiset(),
        sorted_lex(r.deep_view()),
{
    itertools::Itertools::sorted(v.into_iter()).collect()
}

/// Lists the names of every project across the roots, each name the
/// basename of an immediate subdirectory of a root, in ascending
/// lexicographic order.
pub fn list_projects(roots: &Vec<RootDir>) -> (names: Vec<String>)
    ensures
        names.deep_view().to_multiset() == all_names(roots@).to_multiset(),
        sorted_lex(names.deep_view()),
{
    let mut collected: Vec<String> = Vec::new();
    let mut i: usize = 0;
    while i < roots.len()
        invariant
            0 <= i <= roots.len(),
            collected.deep_view() =~~= all_names(roots@.take(i as int)),
        decreases roots.len() - i,
    {
        proof {
            assert(roots@.take(i + 1).drop_last() =~= roots@.take(i as int));
            assert(roots@.take(i + 1).last() == roots@[i as int]);
        }
        let ghost before = collected.deep_view();
        let mut k: usize = 0;
        while k < roots[i].entries.len()
            invariant
                0 <= i < roots.len(),
                0 <= k <= roots@[i as int].entries@.len(),
                before == all_names(roots@.take(i as int)),
                collected.deep_view() =~~= before + dir_names(
                    roots@[i as int].entries@.take(k as int),
                ),
            decreases roots@[i as int].entries@.len() - k,
        {
            proof {
                assert(roots@[i as int].entries@.take(k + 1).drop_last() =~= roots@[i as int].entries@.take(
                    k as int,
                ));
                assert(roots@[i as int].entries@.take(k + 1).last() == roots@[i as int].entries@[k as int]);
            }
            let e = &roots[i].entries[k];
            if e.is_dir {
                let ghost cdv = collected.deep_view();
                collected.push(e.name.clone());
                proof {
                    assert(collected.deep_view() =~~= cdv.push(
                        roots@[i as int].entries@[k as int].name@,
                    ));
                }
            }
            k += 1;
        }
        proof {
            assert(roots@[i as int].entries@.take(roots@[i as int].entries@.len() as int)
                =~= roots@[i as int].entries@);
        }
        i += 1;
    }
    proof {
        assert(roots@.take(roots@.len() as int) =~= roots@);
    }
    sorted_strings(collected)
}

/// How a search relates to the roots as a whole: it comes back empty
/// exactly when no root has a subdirectory of the requested name, and
/// a successful search returns the match from the first root that has
/// one — no earlier root has a match, and later roots do not matter.
pub proof fn lemma_find_characterization(roots: Seq<RootDir>, name: Seq<char>)
    ensures
        find_spec(roots, name) is None <==> (forall|i: int|
            0 <= i < roots.len() ==> !root_has(roots[i], name)),
        find_spec(roots, name) is Some ==> exists|i: int|
            {
                &&& 0 <= i < roots.len()
                &&& root_has(roots[i], name)
                &&& find_spec(roots, name) == Option::Some(join_spec(roots[i].path@, name))
                &&& forall|j: int| 0 <= j < i ==> !root_has(roots[j], name)
            },
    decreases roots.len(),
{
    if roots.len() == 0 {
    } else if root_has(roots[0], name) {
        assert({
            &&& 0 <= 0 < roots.len()
            &&& root_has(roots[0], name)
            &&& find_spec(roots, name) == Option::Some(join_spec(roots[0].path@, name))
            &&& forall|j: int| 0 <= j < 0 ==> !root_has(roots[j], name)
        });
    } else {
        let rest = roots.drop_first();
        lemma_find_characterization(rest, name);
        assert(find_spec(roots, name) == find_spec(rest, name));
        if find_spec(roots, name) is None {
            assert forall|i: int| 0 <= i < roots.len() implies !root_has(roots[i], name) by {
                if i >= 1 {
                    assert(rest[i - 1] == roots[i]);
                    assert(!root_has(rest[i - 1], name));
                }
            }
        } else {
            let i = choose|i: int|
                {
                    &&& 0 <= i < rest.len()
                    &&& root_has(rest[i], name)
                    &&& find_spec(rest, name) == Option::Some(join_spec(rest[i].path@, name))
                    &&& forall|j: int| 0 <= j < i ==> !root_has(rest[j], name)
                };
            assert(rest[i] == roots[i + 1]);
            assert(root_has(roots[i + 1], name));
            assert(find_spec(roots, name) == Option::Some(join_spec(roots[i + 1].path@, name)));
            assert forall|j: int| 0 <= j < i + 1 implies !root_has(roots[j], name) by {
                if j >= 1 {
                    assert(rest[j - 1] == roots[j]);
                    assert(!root_has(rest[j - 1], name));
                }
            }
            assert({
                &&& 0 <= i + 1 < roots.len()
                &&& root_has(roots[i + 1], name)
                &&& find_spec(roots, name) == Option::Some(join_spec(roots[i + 1].path@, name))
                &&& forall|j: int| 0 <= j < i + 1 ==> !root_has(roots[j], name)
            });
        }
    }
}

} // verus!
