//! The dependency graph of installed packages, and the impact of a package:
//! how many packages it reaches, itself included.

use vstd::prelude::*;
use crate::namemap::{NameMap, NameSet};

verus! {

/// What the depgraph records of one installed package.
pub struct Package {
    pub version: String,
    /// The installed packages that depend on this one.
    pub required_by: Vec<String>,
    /// The packages this one depends on, without version constraints.
    pub depends_on: Vec<String>,
    /// The package groups it belongs to.
    pub groups: Vec<String>,
}

/// The installed packages, by name.
pub type PackageDb = NameMap<Package>;

/// The names in a list of strings.
pub open spec fn names_of(v: Seq<String>) -> Seq<Seq<char>> {
    v.map_values(|s: String| s@)
}

/// The neighbours of `x`: the packages that require it, or with `deps`
/// the packages it depends on. A name that is not installed has none.
pub open spec fn edges(db: Map<Seq<char>, Package>, deps: bool, x: Seq<char>) -> Seq<Seq<char>> {
    if db.contains_key(x) {
        if deps {
            names_of(db[x].depends_on@)
        } else {
            names_of(db[x].required_by@)
        }
    } else {
        Seq::empty()
    }
}

/// `p` walks from neighbour to neighbour.
pub open spec fn is_walk(db: Map<Seq<char>, Package>, deps: bool, p: Seq<Seq<char>>) -> bool {
    &&& p.len() > 0
    &&& forall|i: int| 0 <= i < p.len() - 1 ==> #[trigger] edges(db, deps, p[i]).contains(p[i + 1])
}

/// Some walk from `from` to `to` meets no name of `avoid`.
pub open spec fn reaches_avoiding(
    db: Map<Seq<char>, Package>,
    deps: bool,
    avoid: Set<Seq<char>>,
    from: Seq<char>,
    to: Seq<char>,
) -> bool {
    exists|p: Seq<Seq<char>>|
        #[trigger] is_walk(db, deps, p) && p[0] == from && p.last() == to && forall|i: int|
            0 <= i < p.len() ==> !avoid.contains(#[trigger] p[i])
}

/// The names reachable from `from` without passing through `avoid`.
pub open spec fn reach_avoiding(
    db: Map<Seq<char>, Package>,
    deps: bool,
    avoid: Set<Seq<char>>,
    from: Seq<char>,
) -> Set<Seq<char>> {
    Set::new(|x: Seq<char>| reaches_avoiding(db, deps, avoid, from, x))
}

/// The names reachable from `from`, `from` included.
pub open spec fn closure(db: Map<Seq<char>, Package>, deps: bool, from: Seq<char>) -> Set<
    Seq<char>,
> {
    reach_avoiding(db, deps, Set::empty(), from)
}

/// A set that holds `start` and, with every name outside `avoid`, all its
/// neighbours, holds every name reachable from `start` without passing `avoid`.
proof fn lemma_closed_set_holds_walk(
    db: Map<Seq<char>, Package>,
    deps: bool,
    avoid: Set<Seq<char>>,
    s: Set<Seq<char>>,
    p: Seq<Seq<char>>,
)
    requires
        is_walk(db, deps, p),
        s.contains(p[0]),
        forall|i: int| 0 <= i < p.len() ==> !avoid.contains(#[trigger] p[i]),
        forall|x: Seq<char>, y: Seq<char>|
            s.contains(x) && #[trigger] edges(db, deps, x).contains(y) ==> #[trigger] s.contains(y)
                || avoid.contains(y),
    ensures
        s.contains(p.last()),
    decreases p.len(),
{
    if p.len() > 1 {
        let q = p.drop_last();
        assert forall|i: int| 0 <= i < q.len() - 1 implies #[trigger] edges(db, deps, q[i]).contains(
            q[i + 1],
        ) by {
            assert(q[i] == p[i] && q[i + 1] == p[i + 1]);
        }
        assert forall|i: int| 0 <= i < q.len() implies !avoid.contains(#[trigger] q[i]) by {
            assert(q[i] == p[i]);
        }
        lemma_closed_set_holds_walk(db, deps, avoid, s, q);
        let k = p.len() - 2;
        assert(q.last() == p[k]);
        assert(edges(db, deps, p[k]).contains(p[k + 1]));
        assert(!avoid.contains(p[k + 1]));
    }
}

/// The list of neighbours of `name` in `packages`.
fn neighbours<'a>(name: &str, packages: &'a PackageDb, deps: bool) -> (r: Option<&'a Vec<String>>)
    ensures
        r is Some <==> packages@.contains_key(name@),
        match r {
            Some(v) => names_of(v@) == edges(packages@, deps, name@),
            None => edges(packages@, deps, name@) == Seq::<Seq<char>>::empty(),
        },
{
    match packages.get(name) {
        Some(p) => {
            if deps {
                Some(&p.depends_on)
            } else {
                Some(&p.required_by)
            }
        },
        None => None,
    }
}

/// Adds to `visited` every name reachable from `name` by walks that pass
/// no name already in `visited`.
fn visit(name: &str, packages: &PackageDb, deps: bool, visited: &mut NameSet)
    ensures
        final(visited)@.dom() == old(visited)@.dom() + reach_avoiding(
            packages@,
            deps,
            old(visited)@.dom(),
            name@,
        ),
{
    let ghost db = packages@;
    let ghost avoid = old(visited)@.dom();
    let ghost target = reach_avoiding(db, deps, avoid, name@);
    if visited.contains_key(name) {
        assert(target =~= Set::empty()) by {
            assert forall|x: Seq<char>| !target.contains(x) by {
                if reaches_avoiding(db, deps, avoid, name@, x) {
                    let p = choose|p: Seq<Seq<char>>|
                        #[trigger] is_walk(db, deps, p) && p[0] == name@ && p.last() == x
                            && forall|i: int| 0 <= i < p.len() ==> !avoid.contains(#[trigger] p[i]);
                    assert(!avoid.contains(p[0]));
                }
            }
        }
        assert(visited@.dom() + target =~= visited@.dom());
        return;
    }
    let start = name.to_string();
    assert(start@ == name@);
    visited.insert(name.to_string(), ());
    let mut stack: Vec<String> = Vec::new();
    stack.push(start);
    let ghost mut done: Set<Seq<char>> = Set::empty();
    proof {
        let p = seq![name@];
        assert(is_walk(db, deps, p));
        assert(reaches_avoiding(db, deps, avoid, name@, name@));
        assert(names_of(stack@) =~= seq![name@]);
        assert(seq![name@].to_set() =~= set![name@]) by {
            Seq::<Seq<char>>::empty().lemma_push_to_set_commute(name@);
            assert(Seq::<Seq<char>>::empty().push(name@) =~= seq![name@]);
            assert(Seq::<Seq<char>>::empty().to_set() =~= Set::empty());
        }
        assert(visited@.dom() =~= avoid + done + names_of(stack@).to_set());
    }
    packages.len();
    let ghost pkeys = db.dom();
    while stack.len() > 0
        invariant
            db == packages@,
            pkeys == db.dom(),
            pkeys.finite(),
            avoid.disjoint(target),
            target == reach_avoiding(db, deps, avoid, name@),
            target.contains(name@),
            visited@.dom() == avoid + done + names_of(stack@).to_set(),
            avoid.disjoint(done),
            avoid.disjoint(names_of(stack@).to_set()),
            done.disjoint(names_of(stack@).to_set()),
            names_of(stack@).no_duplicates(),
            done.subset_of(target),
            names_of(stack@).to_set().subset_of(target),
            visited@.dom().contains(name@),
            forall|x: Seq<char>, y: Seq<char>|
                done.contains(x) && #[trigger] edges(db, deps, x).contains(y)
                    ==> #[trigger] visited@.dom().contains(y),
        decreases pkeys.difference(done).len(), stack@.len(),
    {
        let ghost stack_before = stack@;
        let ghost done_before = done;
        let x = stack.pop().unwrap();
        let ghost xs = x@;
        proof {
            assert(stack_before.last() == x);
            assert(names_of(stack_before) =~= names_of(stack@).push(xs));
            assert(names_of(stack_before).last() == xs);
            names_of(stack@).lemma_push_to_set_commute(xs);
            assert(!names_of(stack@).contains(xs)) by {
                if names_of(stack@).contains(xs) {
                    let i = choose|i: int| 0 <= i < names_of(stack@).len() && names_of(stack@)[i] == xs;
                    assert(names_of(stack_before)[i] == names_of(stack_before)[names_of(stack_before).len() - 1]);
                }
            }
            assert(names_of(stack@) =~= names_of(stack_before).drop_last());
        }
        match neighbours(x.as_str(), packages, deps) {
            None => {},
            Some(list) => {
                let n = list.len();
                let mut j: usize = 0;
                while j < n
                    invariant
                        db == packages@,
                        n == list@.len(),
                        j <= n,
                        names_of(list@) == edges(db, deps, xs),
                        avoid.disjoint(target),
                        target == reach_avoiding(db, deps, avoid, name@),
                        target.contains(xs),
                        !avoid.contains(xs),
                        !done.contains(xs),
                        !names_of(stack@).to_set().contains(xs),
                        visited@.dom() == avoid + done + names_of(stack@).to_set().insert(xs),
                        avoid.disjoint(done),
                        avoid.disjoint(names_of(stack@).to_set()),
                        done.disjoint(names_of(stack@).to_set()),
                        names_of(stack@).no_duplicates(),
                        done.subset_of(target),
                        names_of(stack@).to_set().subset_of(target),
                        visited@.dom().contains(name@),
                        forall|x: Seq<char>, y: Seq<char>|
                            done.contains(x) && #[trigger] edges(db, deps, x).contains(y)
                                ==> #[trigger] visited@.dom().contains(y),
                        forall|k: int| 0 <= k < j ==> #[trigger] visited@.dom().contains(names_of(list@)[k]),
                    decreases n - j,
                {
                    let y = &list[j];
                    let ghost ys = y@;
                    assert(names_of(list@)[j as int] == ys);
                    if !visited.contains_key(y.as_str()) {
                        proof {
                            lemma_extend_reach(db, deps, avoid, name@, xs, ys);
                            names_of(stack@).lemma_push_to_set_commute(ys);
                        }
                        let ghost stack_prev = stack@;
                        visited.insert(y.clone(), ());
                        stack.push(y.clone());
                        proof {
                            assert(names_of(stack@) =~= names_of(stack_prev).push(ys));
                        }
                    }
                    j = j + 1;
                }
                proof {
                    assert forall|y: Seq<char>| #[trigger] edges(db, deps, xs).contains(y) implies visited@.dom().contains(y) by {
                        let k = choose|k: int| 0 <= k < names_of(list@).len() && names_of(list@)[k] == y;
                    }
                }
            },
        }
        proof {
            done = done.insert(xs);
            assert(visited@.dom() =~= avoid + done + names_of(stack@).to_set());
            if pkeys.contains(xs) {
                pkeys.lemma_set_insert_diff_decreases(done_before, xs);
            } else {
                assert(pkeys.difference(done) =~= pkeys.difference(done_before));
            }
        }
    }
    proof {
        assert(names_of(stack@).to_set() =~= Set::empty());
        assert forall|x: Seq<char>, y: Seq<char>|
            done.contains(x) && #[trigger] edges(db, deps, x).contains(y) implies #[trigger] done.contains(y)
                || avoid.contains(y) by {
            assert(visited@.dom().contains(y));
        }
        assert(target.subset_of(done)) by {
            assert forall|t: Seq<char>| target.contains(t) implies done.contains(t) by {
                let p = choose|p: Seq<Seq<char>>|
                    #[trigger] is_walk(db, deps, p) && p[0] == name@ && p.last() == t
                        && forall|i: int| 0 <= i < p.len() ==> !avoid.contains(#[trigger] p[i]);
                lemma_closed_set_holds_walk(db, deps, avoid, done, p);
            }
        }
        assert(visited@.dom() =~= avoid + target);
    }
}

/// A name reached avoiding `avoid` passes its reach on to its neighbours
/// outside `avoid`.
proof fn lemma_extend_reach(
    db: Map<Seq<char>, Package>,
    deps: bool,
    avoid: Set<Seq<char>>,
    from: Seq<char>,
    x: Seq<char>,
    y: Seq<char>,
)
    requires
        reaches_avoiding(db, deps, avoid, from, x),
        edges(db, deps, x).contains(y),
        !avoid.contains(y),
    ensures
        reaches_avoiding(db, deps, avoid, from, y),
{
    let p = choose|p: Seq<Seq<char>>|
        #[trigger] is_walk(db, deps, p) && p[0] == from && p.last() == x && forall|i: int|
            0 <= i < p.len() ==> !avoid.contains(#[trigger] p[i]);
    let q = p.push(y);
    assert forall|i: int| 0 <= i < q.len() - 1 implies #[trigger] edges(db, deps, q[i]).contains(q[i + 1]) by {
        if i < p.len() - 1 {
            assert(q[i] == p[i] && q[i + 1] == p[i + 1]);
            assert(edges(db, deps, p[i]).contains(p[i + 1]));
        } else {
            assert(q[i] == x && q[i + 1] == y);
        }
    }
    assert(is_walk(db, deps, q));
    assert forall|i: int| 0 <= i < q.len() implies !avoid.contains(#[trigger] q[i]) by {
        if i < p.len() {
            assert(q[i] == p[i]);
        }
    }
    assert(q[0] == from && q.last() == y);
}

/// Marks every package that transitively requires `name`, `name` included,
/// stopping at names already marked.
pub fn visit_dag(name: &str, packages: &PackageDb, visited: &mut NameSet)
    ensures
        final(visited)@.dom() == old(visited)@.dom() + reach_avoiding(
            packages@,
            false,
            old(visited)@.dom(),
            name@,
        ),
{
    visit(name, packages, false, visited)
}

/// Marks every package that `name` transitively depends on, `name` included,
/// stopping at names already marked.
pub fn visit_dep_dag(name: &str, packages: &PackageDb, visited: &mut NameSet)
    ensures
        final(visited)@.dom() == old(visited)@.dom() + reach_avoiding(
            packages@,
            true,
            old(visited)@.dom(),
            name@,
        ),
{
    visit(name, packages, true, visited)
}

/// The impact of `name`: the number of packages that transitively require
/// it, itself included.
pub fn dag_size(name: &str, packages: &PackageDb) -> (n: usize)
    ensures
        n == closure(packages@, false, name@).len(),
{
    let mut visited = NameSet::new();
    visit_dag(name, packages, &mut visited);
    assert(visited@.dom() =~= closure(packages@, false, name@));
    visited.len()
}

/// The reverse impact of `name`: the number of packages it transitively
/// depends on, itself included.
pub fn dep_dag_size(name: &str, packages: &PackageDb) -> (n: usize)
    ensures
        n == closure(packages@, true, name@).len(),
{
    let mut visited = NameSet::new();
    visit_dep_dag(name, packages, &mut visited);
    assert(visited@.dom() =~= closure(packages@, true, name@));
    visited.len()
}

} // verus!
