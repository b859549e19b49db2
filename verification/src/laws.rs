//! What holds of the library as a whole: of impacts, of the order of the
//! lists, of the shape of the tree on screen, and of key presses that undo
//! each other.

use vstd::prelude::*;
use vstd::set_lib::lemma_len_subset;
use vstd::seq_lib::seq_to_set_is_finite;
use crate::graph::{Package, PackageDb, edges, is_walk, closure, reaches_avoiding};
use crate::names::{name_lt, lemma_name_order};
use crate::sort::{sorted_by_insertion, strict_weak_order, is_sorted_by, lemma_sorted_by_insertion, lemma_sorted_unchanged};
use crate::state::{
    string_lt, roots_order, all_roots_order, by_update_impact, by_package_impact, impact_by,
    UpdateView, AllPkgView, TreeView, RowView, KindView, AppState, last_at_depth, clamped,
    resorted, update_views, all_pkg_views, expanded_current, collapsed_or_went_to_parent,
    impact_map, impact_in, kept_updates, sorted_neighbours, update_rows, package_rows,
};
use crate::keys::{Key, Action, key_step, key_ok, first_root_named};
use crate::text::{lowercase, occurs_at};
use crate::parse::{QiRecord, db_of, update_entries};
use crate::text::{lines, words};

verus! {

/// The names that appear in the neighbour lists of the packages in `keys`.
pub open spec fn listed_names(db: Map<Seq<char>, Package>, deps: bool, keys: Set<Seq<char>>) -> Set<Seq<char>> {
    Set::new(|y: Seq<char>| exists|k: Seq<char>| keys.contains(k) && #[trigger] edges(db, deps, k).contains(y))
}

proof fn lemma_listed_names_finite(db: Map<Seq<char>, Package>, deps: bool, keys: Set<Seq<char>>)
    requires
        keys.finite(),
    ensures
        listed_names(db, deps, keys).finite(),
    decreases keys.len(),
{
    broadcast use vstd::set::group_set_axioms;

    if keys.len() == 0 {
        vstd::set_lib::lemma_set_empty_equivalency_len(keys);
        assert(listed_names(db, deps, keys) =~= Set::empty());
    } else {
        let k = keys.choose();
        let rest = keys.remove(k);
        lemma_listed_names_finite(db, deps, rest);
        seq_to_set_is_finite(edges(db, deps, k));
        assert(listed_names(db, deps, keys) =~= listed_names(db, deps, rest).union(edges(db, deps, k).to_set())) by {
            assert forall|y: Seq<char>| listed_names(db, deps, keys).contains(y) implies listed_names(db, deps, rest).union(
                edges(db, deps, k).to_set(),
            ).contains(y) by {
                let j = choose|j: Seq<char>| keys.contains(j) && #[trigger] edges(db, deps, j).contains(y);
                if j != k {
                    assert(rest.contains(j));
                }
            }
        }
    }
}

/// The names reachable from a package form a finite set, when there are
/// finitely many packages.
pub proof fn lemma_closure_finite(db: Map<Seq<char>, Package>, deps: bool, from: Seq<char>)
    requires
        db.dom().finite(),
    ensures
        closure(db, deps, from).finite(),
{
    broadcast use vstd::set::group_set_axioms;

    let bound = listed_names(db, deps, db.dom()).insert(from);
    lemma_listed_names_finite(db, deps, db.dom());
    assert forall|y: Seq<char>| #[trigger] closure(db, deps, from).contains(y) implies bound.contains(y) by {
        assert(reaches_avoiding(db, deps, Set::empty(), from, y));
        let p = choose|p: Seq<Seq<char>>|
            #[trigger] is_walk(db, deps, p) && p[0] == from && p.last() == y && forall|i: int|
                0 <= i < p.len() ==> !Set::<Seq<char>>::empty().contains(#[trigger] p[i]);
        if p.len() > 1 {
            let k = p[p.len() - 2];
            assert(edges(db, deps, p[p.len() - 2]).contains(p[p.len() - 2 + 1]));
            assert(db.contains_key(k));
            assert(listed_names(db, deps, db.dom()).contains(y));
        }
    }
    lemma_len_subset(closure(db, deps, from), bound);
}

/// A package is part of its own impact, which is therefore at least one.
pub proof fn lemma_impact_at_least_one(db: Map<Seq<char>, Package>, deps: bool, name: Seq<char>)
    requires
        db.dom().finite(),
    ensures
        closure(db, deps, name).contains(name),
        closure(db, deps, name).len() >= 1,
{
    broadcast use vstd::set::group_set_axioms;

    let p = seq![name];
    assert(is_walk(db, deps, p));
    assert(reaches_avoiding(db, deps, Set::empty(), name, name));
    lemma_closure_finite(db, deps, name);
    lemma_len_subset(set![name], closure(db, deps, name));
}

/// When `b` is a neighbour of `a` (with `deps == false`: `b` requires `a`),
/// everything `b` reaches `a` reaches too, so the impact of `a` is at least
/// that of `b`.
pub proof fn lemma_impact_monotone(db: Map<Seq<char>, Package>, deps: bool, a: Seq<char>, b: Seq<char>)
    requires
        db.dom().finite(),
        edges(db, deps, a).contains(b),
    ensures
        closure(db, deps, b).subset_of(closure(db, deps, a)),
        closure(db, deps, b).len() <= closure(db, deps, a).len(),
{
    assert forall|y: Seq<char>| #[trigger] closure(db, deps, b).contains(y) implies closure(db, deps, a).contains(y) by {
        assert(reaches_avoiding(db, deps, Set::empty(), b, y));
        let p = choose|p: Seq<Seq<char>>|
            #[trigger] is_walk(db, deps, p) && p[0] == b && p.last() == y && forall|i: int|
                0 <= i < p.len() ==> !Set::<Seq<char>>::empty().contains(#[trigger] p[i]);
        let q = seq![a] + p;
        assert forall|i: int| 0 <= i < q.len() - 1 implies #[trigger] edges(db, deps, q[i]).contains(q[i + 1]) by {
            if i > 0 {
                assert(q[i] == p[i - 1] && q[i + 1] == p[i]);
                assert(edges(db, deps, p[i - 1]).contains(p[i - 1 + 1]));
            }
        }
        assert(is_walk(db, deps, q));
        assert(q.last() == y);
        assert(forall|i: int| 0 <= i < q.len() ==> !Set::<Seq<char>>::empty().contains(#[trigger] q[i]));
        assert(reaches_avoiding(db, deps, Set::empty(), a, y));
    }
    lemma_closure_finite(db, deps, a);
    lemma_len_subset(closure(db, deps, b), closure(db, deps, a));
}

/// Names in `String` order form a strict weak order.
pub proof fn lemma_string_order()
    ensures
        strict_weak_order(string_lt()),
{
    let lt = string_lt();
    assert forall|a: String, b: String, c: String| #[trigger] lt(a, b) && #[trigger] lt(b, c) implies lt(a, c) by {
        lemma_name_order(a@, b@, c@);
    }
    assert forall|a: String, b: String, c: String| !#[trigger] lt(a, b) && !#[trigger] lt(b, c) implies !lt(a, c) by {
        lemma_name_order(a@, b@, c@);
        lemma_name_order(b@, a@, c@);
        lemma_name_order(c@, b@, a@);
        lemma_name_order(a@, c@, b@);
        lemma_name_order(b@, c@, a@);
    }
    assert forall|a: String| !#[trigger] lt(a, a) by {
        lemma_name_order(a@, a@, a@);
    }
}

/// The children of a package are listed in name order, and they are all
/// its neighbours, each as often as it is listed.
pub proof fn lemma_children_sorted(list: Seq<String>)
    ensures
        is_sorted_by(sorted_by_insertion(list, string_lt()), string_lt()),
        sorted_by_insertion(list, string_lt()).to_multiset() == list.to_multiset(),
{
    lemma_string_order();
    lemma_sorted_by_insertion(list, string_lt());
}

/// The pending updates are listed by impact, highest first: no update
/// comes before one of higher impact, and none is lost or added.
pub proof fn lemma_updates_by_impact(
    rows: Seq<UpdateView>,
    transposed: bool,
    impacts: Map<Seq<char>, usize>,
    dep_impacts: Map<Seq<char>, usize>,
)
    ensures
        ({
            let r = sorted_by_insertion(rows, roots_order(transposed, impacts, dep_impacts));
            &&& forall|i: int, j: int|
                0 <= i < j < r.len() ==> impact_by(transposed, impacts, dep_impacts, #[trigger] r[j].0)
                    <= impact_by(transposed, impacts, dep_impacts, #[trigger] r[i].0)
            &&& r.to_multiset() == rows.to_multiset()
        }),
{
    let lt = roots_order(transposed, impacts, dep_impacts);
    assert(strict_weak_order(lt));
    lemma_sorted_by_insertion(rows, lt);
    let r = sorted_by_insertion(rows, lt);
    assert forall|i: int, j: int| 0 <= i < j < r.len() implies impact_by(transposed, impacts, dep_impacts, #[trigger] r[j].0)
        <= impact_by(transposed, impacts, dep_impacts, #[trigger] r[i].0) by {
        assert(!lt(r[j], r[i]));
    }
}

/// The updates as first listed are ordered by their recorded impact,
/// highest first.
pub proof fn lemma_new_updates_by_impact(rows: Seq<UpdateView>)
    ensures
        ({
            let r = sorted_by_insertion(rows, by_update_impact());
            &&& forall|i: int, j: int| 0 <= i < j < r.len() ==> #[trigger] r[j].3 <= #[trigger] r[i].3
            &&& r.to_multiset() == rows.to_multiset()
        }),
{
    let lt = by_update_impact();
    assert(strict_weak_order(lt));
    lemma_sorted_by_insertion(rows, lt);
    let r = sorted_by_insertion(rows, lt);
    assert forall|i: int, j: int| 0 <= i < j < r.len() implies #[trigger] r[j].3 <= #[trigger] r[i].3 by {
        assert(!lt(r[j], r[i]));
    }
}

pub(crate) proof fn lemma_impact_then_name(f: spec_fn(AllPkgView) -> usize, lt: spec_fn(AllPkgView, AllPkgView) -> bool)
    requires
        forall|a: AllPkgView, b: AllPkgView|
            #[trigger] lt(a, b) == (f(b) < f(a) || (f(a) == f(b) && name_lt(a.0, b.0))),
    ensures
        strict_weak_order(lt),
{
    assert forall|a: AllPkgView, b: AllPkgView, c: AllPkgView| #[trigger] lt(a, b) && #[trigger] lt(b, c) implies lt(a, c) by {
        lemma_name_order(a.0, b.0, c.0);
    }
    assert forall|a: AllPkgView, b: AllPkgView, c: AllPkgView| !#[trigger] lt(a, b) && !#[trigger] lt(b, c) implies !lt(a, c) by {
        lemma_name_order(a.0, b.0, c.0);
        lemma_name_order(b.0, a.0, c.0);
        lemma_name_order(c.0, b.0, a.0);
        lemma_name_order(a.0, c.0, b.0);
        lemma_name_order(b.0, c.0, a.0);
    }
    assert forall|a: AllPkgView| !#[trigger] lt(a, a) by {
        lemma_name_order(a.0, a.0, a.0);
    }
}

/// All packages are listed by impact, highest first, and by name among
/// equal impacts; none is lost or added.
pub proof fn lemma_packages_by_impact(
    rows: Seq<AllPkgView>,
    transposed: bool,
    impacts: Map<Seq<char>, usize>,
    dep_impacts: Map<Seq<char>, usize>,
)
    ensures
        ({
            let r = sorted_by_insertion(rows, all_roots_order(transposed, impacts, dep_impacts));
            &&& forall|i: int, j: int|
                0 <= i < j < r.len() ==> {
                    let ii = impact_by(transposed, impacts, dep_impacts, #[trigger] r[i].0);
                    let ij = impact_by(transposed, impacts, dep_impacts, #[trigger] r[j].0);
                    ij < ii || (ij == ii && !name_lt(r[j].0, r[i].0))
                }
            &&& r.to_multiset() == rows.to_multiset()
        }),
{
    let lt = all_roots_order(transposed, impacts, dep_impacts);
    lemma_impact_then_name(|a: AllPkgView| impact_by(transposed, impacts, dep_impacts, a.0), lt);
    lemma_sorted_by_insertion(rows, lt);
    let r = sorted_by_insertion(rows, lt);
    assert forall|i: int, j: int| 0 <= i < j < r.len() implies {
        let ii = impact_by(transposed, impacts, dep_impacts, #[trigger] r[i].0);
        let ij = impact_by(transposed, impacts, dep_impacts, #[trigger] r[j].0);
        ij < ii || (ij == ii && !name_lt(r[j].0, r[i].0))
    } by {
        assert(!lt(r[j], r[i]));
    }
}

/// The installed packages as first listed are ordered by their recorded
/// impact, highest first, then by name.
pub proof fn lemma_new_packages_by_impact(rows: Seq<AllPkgView>)
    ensures
        ({
            let r = sorted_by_insertion(rows, by_package_impact());
            &&& forall|i: int, j: int|
                0 <= i < j < r.len() ==> #[trigger] r[j].2 < #[trigger] r[i].2 || (r[j].2 == r[i].2
                    && !name_lt(r[j].0, r[i].0))
            &&& r.to_multiset() == rows.to_multiset()
        }),
{
    let lt = by_package_impact();
    lemma_impact_then_name(|a: AllPkgView| a.2, lt);
    lemma_sorted_by_insertion(rows, lt);
    let r = sorted_by_insertion(rows, lt);
    assert forall|i: int, j: int| 0 <= i < j < r.len() implies #[trigger] r[j].2 < #[trigger] r[i].2 || (r[j].2 == r[i].2
        && !name_lt(r[j].0, r[i].0)) by {
        assert(!lt(r[j], r[i]));
    }
}

/// Rows that start at depth `d`, never go above it, and go down at most
/// one level from one row to the next.
pub open spec fn nested_from(rows: Seq<RowView>, d: nat) -> bool {
    &&& forall|i: int| 0 <= i < rows.len() ==> #[trigger] rows[i].depth >= d
    &&& rows.len() > 0 ==> rows[0].depth == d
    &&& forall|i: int| 0 < i < rows.len() ==> #[trigger] rows[i].depth <= rows[i - 1].depth + 1
}

proof fn lemma_nested_push_concat(before: Seq<RowView>, row: RowView, sub: Seq<RowView>, d: nat)
    requires
        nested_from(before, d),
        row.depth == d,
        sub.len() == 0 || nested_from(sub, d + 1),
    ensures
        nested_from(before.push(row) + sub, d),
{
    let r = before.push(row) + sub;
    assert forall|i: int| 0 < i < r.len() implies #[trigger] r[i].depth <= r[i - 1].depth + 1 by {
        if i < before.len() {
            assert(r[i] == before[i] && r[i - 1] == before[i - 1]);
        } else if i == before.len() {
            assert(r[i] == row);
            assert(r[i - 1] == before[i - 1]);
        } else if i == before.len() + 1 {
            assert(r[i] == sub[0] && r[i - 1] == row);
        } else {
            assert(r[i] == sub[i - before.len() - 1] && r[i - 1] == sub[i - before.len() - 2]);
        }
    }
    assert forall|i: int| 0 <= i < r.len() implies #[trigger] r[i].depth >= d by {
        if i < before.len() {
            assert(r[i] == before[i]);
        } else if i > before.len() {
            assert(r[i] == sub[i - before.len() - 1]);
        }
    }
    if before.len() == 0 {
        assert(r[0] == row);
    } else {
        assert(r[0] == before[0]);
    }
}

/// The rows below a node start one level below it and nest.
pub proof fn lemma_rows_below_nested(tree: TreeView, names: Seq<Seq<char>>, d: nat, anc: Set<Seq<char>>)
    requires
        tree.expanded.finite(),
    ensures
        nested_from(tree.rows_below(names, d, anc), d),
    decreases tree.expanded.difference(anc).len(), names.len(),
{
    if names.len() > 0 {
        lemma_rows_below_nested(tree, names.drop_last(), d, anc);
        let n = names.last();
        let row = tree.dep_row(n, d, anc);
        if row.is_expanded {
            tree.expanded.lemma_set_insert_diff_decreases(anc, n);
            lemma_rows_below_nested(tree, tree.children(n), d + 1, anc.insert(n));
            lemma_nested_push_concat(tree.rows_below(names.drop_last(), d, anc), row, tree.rows_below(tree.children(n), d + 1, anc.insert(n)), d);
        } else {
            lemma_nested_push_concat(tree.rows_below(names.drop_last(), d, anc), row, Seq::empty(), d);
            assert(tree.rows_below(names.drop_last(), d, anc).push(row) + Seq::<RowView>::empty() =~= tree.rows_below(names.drop_last(), d, anc).push(row));
        }
    } else {
        assert(tree.rows_below(names, d, anc) =~= Seq::<RowView>::empty());
    }
}

/// The rows on screen start at the top level and go down at most one level
/// from one row to the next.
pub proof fn lemma_visible_nested(tree: TreeView, heads: Seq<(Seq<char>, KindView)>)
    requires
        tree.expanded.finite(),
    ensures
        nested_from(tree.rows_from_roots(heads), 0),
    decreases heads.len(),
{
    if heads.len() > 0 {
        lemma_visible_nested(tree, heads.drop_last());
        let n = heads.last().0;
        if tree.matches(n) {
            let kids = tree.children(n);
            let row = RowView {
                name: n,
                depth: 0,
                kind: heads.last().1,
                has_children: kids.len() > 0,
                is_expanded: tree.expanded.contains(n),
                is_cycle: false,
            };
            let before = tree.rows_from_roots(heads.drop_last());
            if row.is_expanded {
                lemma_rows_below_nested(tree, kids, 1, set![n]);
                lemma_nested_push_concat(before, row, tree.rows_below(kids, 1, set![n]), 0);
            } else {
                lemma_nested_push_concat(before, row, Seq::empty(), 0);
                assert(before.push(row) + Seq::<RowView>::empty() =~= before.push(row));
            }
        }
    } else {
        assert(tree.rows_from_roots(heads) =~= Seq::<RowView>::empty());
    }
}

proof fn lemma_row_at_depth_above(rows: Seq<RowView>, i: int, t: nat)
    requires
        nested_from(rows, 0),
        0 <= i < rows.len(),
        t < rows[i].depth,
    ensures
        last_at_depth(rows, i, t) matches Some(p) && 0 <= p < i && rows[p].depth == t,
    decreases i,
{
    assert(i > 0);
    if rows[i - 1].depth != t {
        lemma_row_at_depth_above(rows, i - 1, t);
    }
}

/// Every row below the top level has its parent above it: going to the
/// parent always finds a row one level up.
pub proof fn lemma_parent_row_exists(s: AppState, i: int)
    requires
        s.expanded@.dom().finite(),
        0 <= i < s.visible_spec().len(),
        s.visible_spec()[i].depth > 0,
    ensures
        ({
            let rows = s.visible_spec();
            last_at_depth(rows, i, (rows[i].depth - 1) as nat) matches Some(p) && 0 <= p < i
                && rows[p].depth == rows[i].depth - 1
        }),
{
    lemma_visible_nested(s.tree(), s.root_heads());
    let rows = s.visible_spec();
    lemma_row_at_depth_above(rows, i, (rows[i].depth - 1) as nat);
}

/// Pressing `a` twice gives back the mode, with the cursor at the top.
pub proof fn lemma_mode_toggle_twice(s: AppState, t: AppState, u: AppState, a1: Action, a2: Action)
    requires
        !s.show_help,
        s.info_popup is None,
        s.search is None,
        key_step(s, Key::Char('a'), t, a1),
        key_step(t, Key::Char('a'), u, a2),
    ensures
        u == (AppState { cursor: 0, ..s }),
{
}

/// Pressing `t` twice gives back the direction and the impacts, with
/// nothing expanded and the cursor at the top.
pub proof fn lemma_transpose_twice(s: AppState, t: AppState, u: AppState, a1: Action, a2: Action)
    requires
        !s.show_help,
        s.info_popup is None,
        s.search is None,
        key_step(s, Key::Char('t'), t, a1),
        key_step(t, Key::Char('t'), u, a2),
    ensures
        u.transposed == s.transposed,
        u.packages == s.packages,
        u.impacts == s.impacts,
        u.dep_impacts == s.dep_impacts,
        u.mode == s.mode,
        u.expanded@ == Map::<Seq<char>, ()>::empty(),
        u.cursor == 0,
{
}

/// Opening the search and cancelling it at once leaves everything as it
/// was, but for the cursor, which is kept on the list.
pub proof fn lemma_search_cancel(s: AppState, t: AppState, u: AppState, a1: Action, a2: Action)
    requires
        !s.show_help,
        s.info_popup is None,
        s.search is None,
        key_step(s, Key::Char('/'), t, a1),
        key_step(t, Key::Esc, u, a2),
    ensures
        u == (AppState { cursor: clamped(s.cursor, s.visible_spec().len()), ..s }),
{
    assert((AppState { search: None, cursor: s.cursor, ..t }) == s);
}

/// Opening the help and pressing any key leaves everything as it was.
pub proof fn lemma_help_closes(s: AppState, t: AppState, u: AppState, key: Key, a1: Action, a2: Action)
    requires
        !s.show_help,
        s.info_popup is None,
        s.search is None,
        key_step(s, Key::Char('h'), t, a1),
        key_step(t, key, u, a2),
    ensures
        u == s,
        a2 is Stay,
{
}

/// Quitting reports whether an update succeeded, and changes nothing.
pub proof fn lemma_quit_reports_update(s: AppState, t: AppState, a: Action)
    requires
        !s.show_help,
        s.info_popup is None,
        s.search is None,
        key_step(s, Key::Char('q'), t, a),
    ensures
        a == (Action::Quit { update_succeeded: s.update_succeeded }),
        t == s,
{
}

proof fn lemma_first_root_found(rows: Seq<RowView>, name: Seq<char>, from: int, i: int)
    requires
        0 <= from <= i < rows.len(),
        rows[i].depth == 0,
        rows[i].name == name,
    ensures
        first_root_named(rows, name, from) matches Some(p) && from <= p <= i && rows[p].depth == 0
            && rows[p].name == name,
    decreases i - from,
{
    if !(rows[from].depth == 0 && rows[from].name == name) {
        lemma_first_root_found(rows, name, from + 1, i);
    }
}

/// Confirming a search with a root under the cursor keeps that root under
/// the cursor in the whole list, which the search no longer filters.
pub proof fn lemma_search_enter_keeps_selection(s: AppState, t: AppState, a: Action)
    requires
        !s.show_help,
        s.info_popup is None,
        s.search is Some,
        s.expanded@.dom().finite(),
        s.cursor < s.visible_spec().len(),
        s.visible_spec()[s.cursor as int].depth == 0,
        key_step(s, Key::Enter, t, a),
    ensures
        t.search is None,
        t.cursor < t.visible_spec().len(),
        t.visible_spec()[t.cursor as int].depth == 0,
        t.visible_spec()[t.cursor as int].name == s.visible_spec()[s.cursor as int].name,
{
    let rows = s.visible_spec();
    let c = s.cursor as int;
    let name = rows[c].name;
    let heads = s.root_heads();
    let closed = AppState { search: None, ..s };
    let full = closed.visible_spec();
    let top = |r: RowView| r.depth == 0;
    let nm = |r: RowView| r.name;
    let first = |h: (Seq<char>, KindView)| h.0;
    let pass = |n: Seq<char>| s.tree().matches(n);
    let pass_all = |n: Seq<char>| closed.tree().matches(n);

    // The selected name is one of the roots.
    lemma_top_rows_are_matching_roots(s.tree(), heads);
    rows.lemma_filter_contains(top, c);
    let k = choose|k: int| 0 <= k < rows.filter(top).len() && rows.filter(top)[k] == rows[c];
    assert(rows.filter(top).map_values(nm)[k] == name);
    let names = heads.map_values(first);
    assert(names.filter(pass).contains(name));
    names.lemma_filter_contains_rev(pass, name);
    let j = choose|j: int| 0 <= j < names.len() && names[j] == name;

    // Without the filter, every root has a row at the top level.
    assert(closed.root_heads() =~= heads);
    lemma_top_rows_are_matching_roots(closed.tree(), heads);
    names.lemma_filter_contains(pass_all, j);
    let tops = full.filter(top);
    assert(tops.map_values(nm).contains(name));
    let k2 = choose|k2: int| 0 <= k2 < tops.map_values(nm).len() && tops.map_values(nm)[k2] == name;
    full.lemma_filter_pred(top, k2);
    assert(tops.contains(tops[k2]));
    full.lemma_filter_contains_rev(top, tops[k2]);
    let i = choose|i: int| 0 <= i < full.len() && full[i] == tops[k2];
    lemma_first_root_found(full, name, 0, i);
    assert(t.tree() == closed.tree());
    assert(t.root_heads() == closed.root_heads());
}

proof fn lemma_rows_below_grow(t1: TreeView, t2: TreeView, names: Seq<Seq<char>>, d: nat, anc: Set<Seq<char>>)
    requires
        t1.expanded.finite(),
        t2.expanded.finite(),
        t1.expanded.subset_of(t2.expanded),
        t2 == (TreeView { expanded: t2.expanded, ..t1 }),
    ensures
        t1.rows_below(names, d, anc).len() <= t2.rows_below(names, d, anc).len(),
    decreases t1.expanded.difference(anc).len(), names.len(),
{
    if names.len() > 0 {
        lemma_rows_below_grow(t1, t2, names.drop_last(), d, anc);
        let n = names.last();
        let row1 = t1.dep_row(n, d, anc);
        if row1.is_expanded {
            t1.expanded.lemma_set_insert_diff_decreases(anc, n);
            lemma_rows_below_grow(t1, t2, t1.children(n), d + 1, anc.insert(n));
        }
    }
}

proof fn lemma_rows_from_roots_grow(t1: TreeView, t2: TreeView, heads: Seq<(Seq<char>, KindView)>)
    requires
        t1.expanded.finite(),
        t2.expanded.finite(),
        t1.expanded.subset_of(t2.expanded),
        t2 == (TreeView { expanded: t2.expanded, ..t1 }),
    ensures
        t1.rows_from_roots(heads).len() <= t2.rows_from_roots(heads).len(),
    decreases heads.len(),
{
    if heads.len() > 0 {
        lemma_rows_from_roots_grow(t1, t2, heads.drop_last());
        let n = heads.last().0;
        if t1.matches(n) && t1.expanded.contains(n) {
            lemma_rows_below_grow(t1, t2, t1.children(n), 1, set![n]);
        }
    }
}

proof fn lemma_first_root_in_range(rows: Seq<RowView>, name: Seq<char>, from: int)
    requires
        0 <= from,
    ensures
        first_root_named(rows, name, from) matches Some(p) ==> from <= p < rows.len(),
    decreases rows.len() - from,
{
    if from < rows.len() && !(rows[from].depth == 0 && rows[from].name == name) {
        lemma_first_root_in_range(rows, name, from + 1);
    }
}

/// The cursor is on a row of the list, or at the top of an empty list.
pub open spec fn cursor_on_list(s: AppState) -> bool {
    s.cursor < s.visible_spec().len() || s.cursor == 0
}

/// Every key press keeps the cursor on the list.
pub proof fn lemma_keys_keep_cursor_on_list(s: AppState, key: Key, t: AppState, a: Action)
    requires
        s.expanded@.dom().finite(),
        cursor_on_list(s),
        key_ok(s, key),
        key_step(s, key, t, a),
    ensures
        cursor_on_list(t),
{
    if !s.show_help && s.info_popup is None && s.search is None && key == Key::Right {
        let row = s.visible_spec()[s.cursor as int];
        if row.has_children && !row.is_cycle {
            assert(t.expanded@.dom() =~= s.expanded@.dom().insert(row.name));
        } else {
            assert(t.expanded@.dom() =~= s.expanded@.dom());
        }
        assert(t.root_heads() =~= s.root_heads());
        lemma_rows_from_roots_grow(s.tree(), t.tree(), s.root_heads());
    } else if !s.show_help && s.info_popup is None && s.search is Some && key == Key::Enter {
        let rows = s.visible_spec();
        let closed = AppState { search: None, ..s };
        if s.cursor < rows.len() {
            lemma_first_root_in_range(closed.visible_spec(), rows[s.cursor as int].name, 0);
        }
        assert(t.tree() == closed.tree());
        assert(t.root_heads() == closed.root_heads());
    } else if !s.show_help && s.info_popup is None && s.search is None && key == Key::Left {
        let rows = s.visible_spec();
        let row = rows[s.cursor as int];
        if row.is_expanded {
            let collapsed = AppState { expanded: t.expanded, ..s };
            assert(t.tree() == collapsed.tree());
            assert(t.root_heads() == collapsed.root_heads());
        } else if row.depth > 0 {
            lemma_last_at_depth_in_range(rows, s.cursor as int, (row.depth - 1) as nat);
        }
    } else if !s.show_help && s.info_popup is None && s.search is Some && key == Key::Esc {
        let closed = AppState { search: None, cursor: s.search->0.pre_search_cursor, ..s };
        assert(t.tree() == closed.tree());
        assert(t.root_heads() == closed.root_heads());
    }
}

proof fn lemma_last_at_depth_in_range(rows: Seq<RowView>, end: int, depth: nat)
    ensures
        last_at_depth(rows, end, depth) matches Some(p) ==> 0 <= p < end,
    decreases end,
{
    if end > 0 && rows[end - 1].depth != depth {
        lemma_last_at_depth_in_range(rows, end - 1, depth);
    }
}

/// No key press changes the packages or their impacts, or forgets that an
/// update succeeded: only the program around the library changes those,
/// through `reload_packages` and `finish_update`.
pub proof fn lemma_keys_keep_data(s: AppState, key: Key, t: AppState, a: Action)
    requires
        key_step(s, key, t, a),
    ensures
        t.packages == s.packages,
        t.impacts == s.impacts,
        t.dep_impacts == s.dep_impacts,
        t.update_succeeded == s.update_succeeded,
{
}

/// Pressing `g` twice gives back the state.
pub proof fn lemma_groups_toggle_twice(s: AppState, t: AppState, u: AppState, a1: Action, a2: Action)
    requires
        !s.show_help,
        s.info_popup is None,
        s.search is None,
        key_step(s, Key::Char('g'), t, a1),
        key_step(t, Key::Char('g'), u, a2),
    ensures
        u == s,
        a1 is Stay,
        a2 is Stay,
{
}

/// The rows of one root: its own row, followed by the rows below it when
/// it is expanded.
pub open spec fn root_block(tree: TreeView, h: (Seq<char>, KindView)) -> Seq<RowView> {
    let n = h.0;
    let kids = tree.children(n);
    let row = RowView {
        name: n,
        depth: 0,
        kind: h.1,
        has_children: kids.len() > 0,
        is_expanded: tree.expanded.contains(n),
        is_cycle: false,
    };
    if row.is_expanded {
        seq![row] + tree.rows_below(kids, 1, set![n])
    } else {
        seq![row]
    }
}

/// The blocks of the roots `heads`, one after the other.
pub open spec fn blocks(tree: TreeView, heads: Seq<(Seq<char>, KindView)>) -> Seq<RowView>
    decreases heads.len(),
{
    if heads.len() == 0 {
        Seq::empty()
    } else {
        blocks(tree, heads.drop_last()) + root_block(tree, heads.last())
    }
}

proof fn lemma_rows_below_query_free(
    tree: TreeView,
    q: Option<Seq<char>>,
    names: Seq<Seq<char>>,
    d: nat,
    anc: Set<Seq<char>>,
)
    requires
        tree.expanded.finite(),
    ensures
        (TreeView { query: q, ..tree }).rows_below(names, d, anc) == tree.rows_below(names, d, anc),
    decreases tree.expanded.difference(anc).len(), names.len(),
{
    if names.len() > 0 {
        lemma_rows_below_query_free(tree, q, names.drop_last(), d, anc);
        let n = names.last();
        if tree.dep_row(n, d, anc).is_expanded {
            tree.expanded.lemma_set_insert_diff_decreases(anc, n);
            lemma_rows_below_query_free(tree, q, tree.children(n), d + 1, anc.insert(n));
        }
    }
}

proof fn lemma_blocks_query_free(tree: TreeView, q: Option<Seq<char>>, heads: Seq<(Seq<char>, KindView)>)
    requires
        tree.expanded.finite(),
    ensures
        blocks(TreeView { query: q, ..tree }, heads) == blocks(tree, heads),
    decreases heads.len(),
{
    if heads.len() > 0 {
        lemma_blocks_query_free(tree, q, heads.drop_last());
        lemma_rows_below_query_free(tree, q, tree.children(heads.last().0), 1, set![heads.last().0]);
    }
}

proof fn lemma_rows_are_blocks(tree: TreeView, heads: Seq<(Seq<char>, KindView)>)
    requires
        tree.expanded.finite(),
    ensures
        tree.rows_from_roots(heads) == blocks(tree, heads.filter(|h: (Seq<char>, KindView)| tree.matches(h.0))),
    decreases heads.len(),
{
    let pass = |h: (Seq<char>, KindView)| tree.matches(h.0);
    reveal_with_fuel(Seq::filter, 1);
    if heads.len() > 0 {
        lemma_rows_are_blocks(tree, heads.drop_last());
        let h = heads.last();
        if tree.matches(h.0) {
            let f = heads.drop_last().filter(pass);
            assert(heads.filter(pass) == f.push(h));
            assert(f.push(h).drop_last() =~= f);
            let kids = tree.children(h.0);
            let row = RowView {
                name: h.0,
                depth: 0,
                kind: h.1,
                has_children: kids.len() > 0,
                is_expanded: tree.expanded.contains(h.0),
                is_cycle: false,
            };
            let before = tree.rows_from_roots(heads.drop_last());
            if row.is_expanded {
                assert(before.push(row) + tree.rows_below(kids, 1, set![h.0]) =~= before + (seq![row]
                    + tree.rows_below(kids, 1, set![h.0])));
            } else {
                assert(before.push(row) =~= before + seq![row]);
            }
        } else {
            assert(heads.filter(pass) == heads.drop_last().filter(pass));
        }
    } else {
        assert(heads.filter(pass) =~= Seq::<(Seq<char>, KindView)>::empty());
    }
}

/// The search keeps whole blocks: the list on screen while searching is
/// the blocks of the unsearched list (a root and the rows below it) whose
/// root passes the filter, in their order; the unsearched list is all the
/// blocks.
pub proof fn lemma_search_keeps_blocks(s: AppState)
    requires
        s.expanded@.dom().finite(),
        s.search is Some,
    ensures
        ({
            let s0 = AppState { search: None, ..s };
            &&& s0.visible_spec() == blocks(s0.tree(), s0.root_heads())
            &&& s.visible_spec() == blocks(
                s0.tree(),
                s0.root_heads().filter(|h: (Seq<char>, KindView)| s.tree().matches(h.0)),
            )
        }),
{
    let s0 = AppState { search: None, ..s };
    let heads = s.root_heads();
    assert(s0.root_heads() =~= heads);
    lemma_rows_are_blocks(s.tree(), heads);
    lemma_rows_are_blocks(s0.tree(), heads);
    let all = |h: (Seq<char>, KindView)| s0.tree().matches(h.0);
    assert(heads.filter(all) =~= heads) by {
        lemma_filter_all(heads, all);
    }
    assert(s0.tree() == (TreeView { query: None, ..s.tree() }));
    lemma_blocks_query_free(s.tree(), None, heads.filter(|h: (Seq<char>, KindView)| s.tree().matches(h.0)));
}

proof fn lemma_filter_all<A>(s: Seq<A>, p: spec_fn(A) -> bool)
    requires
        forall|x: A| #[trigger] p(x),
    ensures
        s.filter(p) == s,
    decreases s.len(),
{
    reveal_with_fuel(Seq::filter, 1);
    if s.len() > 0 {
        lemma_filter_all(s.drop_last(), p);
        assert(s.drop_last().push(s.last()) =~= s);
    } else {
        assert(s.filter(p) =~= s);
    }
}

/// A search whose lower-case query is empty, as that of the empty query
/// is, shows the whole list.
pub proof fn lemma_empty_search_keeps_all(s: AppState)
    requires
        s.expanded@.dom().finite(),
        s.search is Some,
        lowercase(s.search->0.query@).len() == 0,
    ensures
        s.visible_spec() == (AppState { search: None, ..s }).visible_spec(),
{
    let s0 = AppState { search: None, ..s };
    lemma_search_keeps_blocks(s);
    let pass = |h: (Seq<char>, KindView)| s.tree().matches(h.0);
    assert forall|h: (Seq<char>, KindView)| #[trigger] pass(h) by {
        assert(occurs_at(lowercase(h.0), lowercase(s.search->0.query@), 0)) by {
            assert(lowercase(h.0).subrange(0, 0) =~= lowercase(s.search->0.query@));
        }
    }
    lemma_filter_all(s0.root_heads(), pass);
}

/// No row of `rows` shows `n`.
pub open spec fn shows_no(rows: Seq<RowView>, n: Seq<char>) -> bool {
    forall|j: int| 0 <= j < rows.len() ==> (#[trigger] rows[j]).name != n
}

proof fn lemma_rows_below_without(t1: TreeView, n: Seq<char>, names: Seq<Seq<char>>, d: nat, anc: Set<Seq<char>>)
    requires
        t1.expanded.finite(),
        shows_no(t1.rows_below(names, d, anc), n),
    ensures
        (TreeView { expanded: t1.expanded.insert(n), ..t1 }).rows_below(names, d, anc) == t1.rows_below(names, d, anc),
    decreases t1.expanded.difference(anc).len(), names.len(),
{
    let t2 = TreeView { expanded: t1.expanded.insert(n), ..t1 };
    if names.len() > 0 {
        let r1 = t1.rows_below(names, d, anc);
        let before = t1.rows_below(names.drop_last(), d, anc);
        let m = names.last();
        let row = t1.dep_row(m, d, anc);
        assert(r1[before.len() as int] == row);
        assert forall|j: int| 0 <= j < before.len() implies (#[trigger] before[j]).name != n by {
            assert(r1[j] == before[j]);
        }
        lemma_rows_below_without(t1, n, names.drop_last(), d, anc);
        assert(t2.dep_row(m, d, anc) == row);
        if row.is_expanded {
            t1.expanded.lemma_set_insert_diff_decreases(anc, m);
            let sub = t1.rows_below(t1.children(m), d + 1, anc.insert(m));
            assert forall|j: int| 0 <= j < sub.len() implies (#[trigger] sub[j]).name != n by {
                assert(r1[before.len() + 1 + j] == sub[j]);
            }
            lemma_rows_below_without(t1, n, t1.children(m), d + 1, anc.insert(m));
        }
    }
}

proof fn lemma_rows_below_first(t1: TreeView, n: Seq<char>, names: Seq<Seq<char>>, d: nat, anc: Set<Seq<char>>, k: int)
    requires
        t1.expanded.finite(),
        0 <= k < t1.rows_below(names, d, anc).len(),
        t1.rows_below(names, d, anc)[k].name == n,
        !t1.rows_below(names, d, anc)[k].is_cycle,
        !t1.rows_below(names, d, anc)[k].is_expanded,
        shows_no(t1.rows_below(names, d, anc).take(k), n),
    ensures
        ({
            let r1 = t1.rows_below(names, d, anc);
            let r2 = (TreeView { expanded: t1.expanded.insert(n), ..t1 }).rows_below(names, d, anc);
            &&& !t1.expanded.contains(n)
            &&& k < r2.len()
            &&& r2.take(k) == r1.take(k)
            &&& r2[k] == (RowView { is_expanded: true, ..r1[k] })
        }),
    decreases t1.expanded.difference(anc).len(), names.len(),
{
    let t2 = TreeView { expanded: t1.expanded.insert(n), ..t1 };
    let r1 = t1.rows_below(names, d, anc);
    let r2 = t2.rows_below(names, d, anc);
    let before = t1.rows_below(names.drop_last(), d, anc);
    let b = before.len() as int;
    let m = names.last();
    let row = t1.dep_row(m, d, anc);
    assert(r1[b] == row);
    assert forall|j: int| 0 <= j < b && j < k implies (#[trigger] before[j]).name != n by {
        assert(r1[j] == before[j]);
        assert(r1.take(k)[j] == r1[j]);
    }
    if k < b {
        assert(before[k] == r1[k]);
        assert(before.take(k) =~= r1.take(k));
        lemma_rows_below_first(t1, n, names.drop_last(), d, anc, k);
        let before2 = t2.rows_below(names.drop_last(), d, anc);
        assert(r2.take(k) =~= before2.take(k));
        assert(r2[k] == before2[k]);
    } else {
        lemma_rows_below_without(t1, n, names.drop_last(), d, anc);
        if k == b {
            assert(r2.take(k) =~= r1.take(k));
        } else {
            assert(row.name != n) by {
                assert(r1.take(k)[b] == r1[b]);
            }
            assert(t2.dep_row(m, d, anc) == row);
            if !row.is_expanded {
                assert(r1.len() == b + 1);
            }
            t1.expanded.lemma_set_insert_diff_decreases(anc, m);
            let sub = t1.rows_below(t1.children(m), d + 1, anc.insert(m));
            let k2 = k - b - 1;
            assert(r1 == before.push(row) + sub);
            assert(sub[k2] == r1[k]);
            assert(sub.take(k2) =~= r1.take(k).skip(b + 1));
            assert forall|j: int| 0 <= j < k2 implies (#[trigger] sub.take(k2)[j]).name != n by {
                assert(r1.take(k)[b + 1 + j] == sub.take(k2)[j]);
            }
            lemma_rows_below_first(t1, n, t1.children(m), d + 1, anc.insert(m), k2);
            let sub2 = t2.rows_below(t1.children(m), d + 1, anc.insert(m));
            assert(r2 == before.push(row) + sub2);
            assert(r2.take(k) =~= before.push(row) + sub2.take(k2));
            assert(r1.take(k) =~= before.push(row) + sub.take(k2));
            assert(r2[k] == sub2[k2]);
        }
    }
}

proof fn lemma_roots_without(t1: TreeView, n: Seq<char>, heads: Seq<(Seq<char>, KindView)>)
    requires
        t1.expanded.finite(),
        shows_no(t1.rows_from_roots(heads), n),
    ensures
        (TreeView { expanded: t1.expanded.insert(n), ..t1 }).rows_from_roots(heads) == t1.rows_from_roots(heads),
    decreases heads.len(),
{
    if heads.len() > 0 {
        let r1 = t1.rows_from_roots(heads);
        let before = t1.rows_from_roots(heads.drop_last());
        let m = heads.last().0;
        if t1.matches(m) {
            assert(r1[before.len() as int].name == m);
            assert forall|j: int| 0 <= j < before.len() implies (#[trigger] before[j]).name != n by {
                assert(r1[j] == before[j]);
            }
            lemma_roots_without(t1, n, heads.drop_last());
            if t1.expanded.contains(m) {
                let sub = t1.rows_below(t1.children(m), 1, set![m]);
                assert forall|j: int| 0 <= j < sub.len() implies (#[trigger] sub[j]).name != n by {
                    assert(r1[before.len() + 1 + j] == sub[j]);
                }
                lemma_rows_below_without(t1, n, t1.children(m), 1, set![m]);
            }
        } else {
            lemma_roots_without(t1, n, heads.drop_last());
        }
    }
}

proof fn lemma_roots_first(t1: TreeView, n: Seq<char>, heads: Seq<(Seq<char>, KindView)>, k: int)
    requires
        t1.expanded.finite(),
        0 <= k < t1.rows_from_roots(heads).len(),
        t1.rows_from_roots(heads)[k].name == n,
        !t1.rows_from_roots(heads)[k].is_cycle,
        !t1.rows_from_roots(heads)[k].is_expanded,
        shows_no(t1.rows_from_roots(heads).take(k), n),
    ensures
        ({
            let r1 = t1.rows_from_roots(heads);
            let r2 = (TreeView { expanded: t1.expanded.insert(n), ..t1 }).rows_from_roots(heads);
            &&& !t1.expanded.contains(n)
            &&& k < r2.len()
            &&& r2.take(k) == r1.take(k)
            &&& r2[k] == (RowView { is_expanded: true, ..r1[k] })
        }),
    decreases heads.len(),
{
    let t2 = TreeView { expanded: t1.expanded.insert(n), ..t1 };
    let r1 = t1.rows_from_roots(heads);
    let r2 = t2.rows_from_roots(heads);
    let before = t1.rows_from_roots(heads.drop_last());
    let b = before.len() as int;
    let m = heads.last().0;
    if !t1.matches(m) {
        lemma_roots_first(t1, n, heads.drop_last(), k);
    } else {
        let kids = t1.children(m);
        let row = RowView {
            name: m,
            depth: 0,
            kind: heads.last().1,
            has_children: kids.len() > 0,
            is_expanded: t1.expanded.contains(m),
            is_cycle: false,
        };
        assert(r1[b] == row);
        if k < b {
            assert(before[k] == r1[k]);
            assert(before.take(k) =~= r1.take(k));
            lemma_roots_first(t1, n, heads.drop_last(), k);
            let before2 = t2.rows_from_roots(heads.drop_last());
            assert(r2.take(k) =~= before2.take(k));
            assert(r2[k] == before2[k]);
        } else {
            assert forall|j: int| 0 <= j < b implies (#[trigger] before[j]).name != n by {
                assert(r1[j] == before[j]);
                assert(r1.take(k)[j] == r1[j]);
            }
            lemma_roots_without(t1, n, heads.drop_last());
            if k == b {
                assert(r2.take(k) =~= r1.take(k));
            } else {
                assert(m != n) by {
                    assert(r1.take(k)[b] == r1[b]);
                }
                if !row.is_expanded {
                    assert(r1.len() == b + 1);
                }
                let sub = t1.rows_below(kids, 1, set![m]);
                let k2 = k - b - 1;
                assert(r1 == before.push(row) + sub);
                assert(sub[k2] == r1[k]);
                assert forall|j: int| 0 <= j < k2 implies (#[trigger] sub.take(k2)[j]).name != n by {
                    assert(r1.take(k)[b + 1 + j] == sub.take(k2)[j]);
                }
                lemma_rows_below_first(t1, n, kids, 1, set![m], k2);
                let sub2 = t2.rows_below(kids, 1, set![m]);
                assert(r2 == before.push(row) + sub2);
                assert(r2.take(k) =~= before.push(row) + sub2.take(k2));
                assert(r1.take(k) =~= before.push(row) + sub.take(k2));
                assert(r2[k] == sub2[k2]);
            }
        }
    }
}

/// Expanding a row that no other row shows, then collapsing it, gives
/// back the state: the expanded names, the cursor and everything else. In
/// between, the cursor is on the list, on that row.
pub proof fn lemma_expand_then_collapse_calls(s: AppState, t: AppState, u: AppState)
    requires
        s.expanded@.dom().finite(),
        s.cursor < s.visible_spec().len(),
        s.visible_spec()[s.cursor as int].has_children,
        !s.visible_spec()[s.cursor as int].is_cycle,
        !s.visible_spec()[s.cursor as int].is_expanded,
        forall|j: int|
            0 <= j < s.visible_spec().len() && j != s.cursor ==> (#[trigger] s.visible_spec()[j]).name
                != s.visible_spec()[s.cursor as int].name,
        expanded_current(s, t),
        collapsed_or_went_to_parent(t, u),
    ensures
        t.cursor < t.visible_spec().len(),
        t.visible_spec()[t.cursor as int].name == s.visible_spec()[s.cursor as int].name,
        t.visible_spec()[t.cursor as int].is_expanded,
        u.expanded@ == s.expanded@,
        u == (AppState { expanded: u.expanded, ..s }),
{
    let rows = s.visible_spec();
    let c = s.cursor as int;
    let n = rows[c].name;
    let t1 = s.tree();
    let heads = s.root_heads();
    assert(t.expanded@.dom() =~= t1.expanded.insert(n));
    assert(t.tree() == (TreeView { expanded: t1.expanded.insert(n), ..t1 }));
    assert(t.root_heads() =~= heads);
    assert forall|j: int| 0 <= j < rows.take(c).len() implies (#[trigger] rows.take(c)[j]).name != n by {
        assert(rows.take(c)[j] == rows[j]);
    }
    lemma_roots_first(t1, n, heads, c);
    let rows2 = t.visible_spec();
    assert(rows2[c].is_expanded && rows2[c].name == n);
    assert(u.expanded@ =~= s.expanded@);
    let collapsed = AppState { expanded: u.expanded, ..t };
    assert(collapsed.tree() == t1);
    assert(collapsed.root_heads() =~= heads);
}

/// Pressing `→` on a row that no other row shows, then `←`, gives back the
/// state.
pub proof fn lemma_expand_then_collapse(s: AppState, t: AppState, u: AppState, a1: Action, a2: Action)
    requires
        s.expanded@.dom().finite(),
        !s.show_help,
        s.info_popup is None,
        s.search is None,
        s.cursor < s.visible_spec().len(),
        s.visible_spec()[s.cursor as int].has_children,
        !s.visible_spec()[s.cursor as int].is_cycle,
        !s.visible_spec()[s.cursor as int].is_expanded,
        forall|j: int|
            0 <= j < s.visible_spec().len() && j != s.cursor ==> (#[trigger] s.visible_spec()[j]).name
                != s.visible_spec()[s.cursor as int].name,
        key_step(s, Key::Right, t, a1),
        key_step(t, Key::Left, u, a2),
    ensures
        u.expanded@ == s.expanded@,
        u == (AppState { expanded: u.expanded, ..s }),
{
    lemma_expand_then_collapse_calls(s, t, u);
}

/// The packages rebuilt from `pacman -Qi` records hold, under each name,
/// the version, the packages that require it, the packages it depends on
/// and the groups of the last record of that name; and only the names of
/// records.
pub proof fn lemma_records_give_packages(rs: Seq<QiRecord>, i: int)
    requires
        0 <= i < rs.len(),
        forall|j: int| i < j < rs.len() ==> (#[trigger] rs[j]).name@ != rs[i].name@,
    ensures
        db_of(rs).contains_key(rs[i].name@),
        db_of(rs)[rs[i].name@].version == rs[i].version,
        db_of(rs)[rs[i].name@].required_by == rs[i].required_by,
        db_of(rs)[rs[i].name@].depends_on == rs[i].depends_on,
        db_of(rs)[rs[i].name@].groups == rs[i].groups,
    decreases rs.len(),
{
    if i < rs.len() - 1 {
        let d = rs.drop_last();
        assert forall|j: int| i < j < d.len() implies (#[trigger] d[j]).name@ != d[i].name@ by {
            assert(d[j] == rs[j]);
        }
        lemma_records_give_packages(d, i);
        assert(rs.last() == rs[rs.len() - 1]);
    }
}

/// Every package rebuilt from records is named by one of them.
pub proof fn lemma_packages_come_from_records(rs: Seq<QiRecord>, k: Seq<char>)
    requires
        db_of(rs).contains_key(k),
    ensures
        exists|i: int| 0 <= i < rs.len() && (#[trigger] rs[i]).name@ == k,
    decreases rs.len(),
{
    if rs.len() > 0 && rs.last().name@ != k {
        lemma_packages_come_from_records(rs.drop_last(), k);
        let i = choose|i: int| 0 <= i < rs.drop_last().len() && (#[trigger] rs.drop_last()[i]).name@ == k;
        assert(rs[i] == rs.drop_last()[i]);
    } else if rs.len() > 0 {
        assert(rs[rs.len() - 1].name@ == k);
    }
}

/// The impact that a row shows.
pub open spec fn kind_impact(k: KindView) -> usize {
    match k {
        KindView::Root { impact, .. } => impact,
        KindView::AllPkgRoot { impact, .. } => impact,
        KindView::Dep { impact, .. } => impact,
    }
}

/// Every row shows the tree's impact of its package.
pub open spec fn rows_show_impacts(tree: TreeView, rows: Seq<RowView>) -> bool {
    forall|i: int| 0 <= i < rows.len() ==> kind_impact((#[trigger] rows[i]).kind) == tree.impact(rows[i].name)
}

proof fn lemma_concat_impacts(tree: TreeView, a: Seq<RowView>, row: RowView, b: Seq<RowView>)
    requires
        rows_show_impacts(tree, a),
        kind_impact(row.kind) == tree.impact(row.name),
        rows_show_impacts(tree, b),
    ensures
        rows_show_impacts(tree, a.push(row) + b),
{
    let r = a.push(row) + b;
    assert forall|i: int| 0 <= i < r.len() implies kind_impact((#[trigger] r[i]).kind) == tree.impact(r[i].name) by {
        if i < a.len() {
            assert(r[i] == a[i]);
        } else if i > a.len() {
            assert(r[i] == b[i - a.len() - 1]);
        }
    }
}

proof fn lemma_rows_below_impacts(tree: TreeView, names: Seq<Seq<char>>, d: nat, anc: Set<Seq<char>>)
    requires
        tree.expanded.finite(),
    ensures
        rows_show_impacts(tree, tree.rows_below(names, d, anc)),
    decreases tree.expanded.difference(anc).len(), names.len(),
{
    if names.len() > 0 {
        lemma_rows_below_impacts(tree, names.drop_last(), d, anc);
        let n = names.last();
        let row = tree.dep_row(n, d, anc);
        let before = tree.rows_below(names.drop_last(), d, anc);
        if row.is_expanded {
            tree.expanded.lemma_set_insert_diff_decreases(anc, n);
            lemma_rows_below_impacts(tree, tree.children(n), d + 1, anc.insert(n));
            lemma_concat_impacts(tree, before, row, tree.rows_below(tree.children(n), d + 1, anc.insert(n)));
        } else {
            lemma_concat_impacts(tree, before, row, Seq::empty());
            assert(before.push(row) + Seq::<RowView>::empty() =~= before.push(row));
        }
    } else {
        assert(tree.rows_below(names, d, anc) =~= Seq::<RowView>::empty());
    }
}

proof fn lemma_roots_impacts(tree: TreeView, heads: Seq<(Seq<char>, KindView)>)
    requires
        tree.expanded.finite(),
        forall|j: int| 0 <= j < heads.len() ==> kind_impact((#[trigger] heads[j]).1) == tree.impact(heads[j].0),
    ensures
        rows_show_impacts(tree, tree.rows_from_roots(heads)),
    decreases heads.len(),
{
    if heads.len() > 0 {
        let d = heads.drop_last();
        assert forall|j: int| 0 <= j < d.len() implies kind_impact((#[trigger] d[j]).1) == tree.impact(d[j].0) by {
            assert(d[j] == heads[j]);
        }
        lemma_roots_impacts(tree, d);
        let h = heads.last();
        assert(h == heads[heads.len() - 1]);
        if tree.matches(h.0) {
            let kids = tree.children(h.0);
            let row = RowView {
                name: h.0,
                depth: 0,
                kind: h.1,
                has_children: kids.len() > 0,
                is_expanded: tree.expanded.contains(h.0),
                is_cycle: false,
            };
            let before = tree.rows_from_roots(d);
            if row.is_expanded {
                lemma_rows_below_impacts(tree, kids, 1, set![h.0]);
                lemma_concat_impacts(tree, before, row, tree.rows_below(kids, 1, set![h.0]));
            } else {
                lemma_concat_impacts(tree, before, row, Seq::empty());
                assert(before.push(row) + Seq::<RowView>::empty() =~= before.push(row));
            }
        }
    } else {
        assert(tree.rows_from_roots(heads) =~= Seq::<RowView>::empty());
    }
}

/// Every row on screen, root or dependency, shows the impact of its package
/// in the direction the tree is shown in: with the tree transposed the
/// size of its `depends_on` closure, otherwise that of its `required_by`
/// closure (1 for a package that is not installed), as long as the impacts
/// are those of the installed packages.
pub proof fn lemma_rows_show_current_impacts(s: AppState)
    requires
        s.expanded@.dom().finite(),
        s.impacts@ == impact_map(s.packages@, false),
        s.dep_impacts@ == impact_map(s.packages@, true),
    ensures
        forall|i: int|
            0 <= i < s.visible_spec().len() ==> kind_impact((#[trigger] s.visible_spec()[i]).kind) == impact_in(
                impact_map(s.packages@, s.transposed),
                s.visible_spec()[i].name,
            ),
{
    let tree = s.tree();
    let heads = s.root_heads();
    assert forall|j: int| 0 <= j < heads.len() implies kind_impact((#[trigger] heads[j]).1) == tree.impact(heads[j].0) by {}
    lemma_roots_impacts(tree, heads);
    let rows = s.visible_spec();
    assert forall|i: int| 0 <= i < rows.len() implies kind_impact((#[trigger] rows[i]).kind) == impact_in(
        impact_map(s.packages@, s.transposed),
        rows[i].name,
    ) by {
        assert(kind_impact(rows[i].kind) == tree.impact(rows[i].name));
    }
}

/// In the tree and in the search list, `↓` moves the cursor to the next
/// row when there is one, and otherwise leaves it; nothing else changes.
pub proof fn lemma_down_moves_to_next_row(s: AppState, t: AppState, a: Action)
    requires
        !s.show_help,
        s.info_popup is None,
        s.visible_spec().len() <= usize::MAX,
        key_step(s, Key::Down, t, a),
    ensures
        s.cursor + 1 < s.visible_spec().len() ==> t.cursor == s.cursor + 1,
        s.cursor + 1 >= s.visible_spec().len() ==> t.cursor == s.cursor,
        t == (AppState { cursor: t.cursor, ..s }),
        a is Stay,
{
}

/// In the tree and in the search list, `↑` moves the cursor to the previous
/// row when there is one, and otherwise leaves it; nothing else changes.
pub proof fn lemma_up_moves_to_previous_row(s: AppState, t: AppState, a: Action)
    requires
        !s.show_help,
        s.info_popup is None,
        key_step(s, Key::Up, t, a),
    ensures
        s.cursor > 0 ==> t.cursor == s.cursor - 1,
        s.cursor == 0 ==> t.cursor == 0,
        t == (AppState { cursor: t.cursor, ..s }),
        a is Stay,
{
}

/// `↓` from any row but the last, then `↑`, gives back the state.
pub proof fn lemma_down_then_up(s: AppState, t: AppState, u: AppState, a1: Action, a2: Action)
    requires
        !s.show_help,
        s.info_popup is None,
        s.cursor + 1 < s.visible_spec().len(),
        s.visible_spec().len() <= usize::MAX,
        key_step(s, Key::Down, t, a1),
        key_step(t, Key::Up, u, a2),
    ensures
        u == s,
{
    lemma_down_moves_to_next_row(s, t, a1);
    lemma_up_moves_to_previous_row(t, u, a2);
}

/// `←` on a row at the top level that is not expanded changes nothing; on
/// a collapsed row below the top level it moves the cursor up to a row one
/// level less deep, and changes nothing else.
pub proof fn lemma_left_on_collapsed_row(s: AppState, t: AppState)
    requires
        s.expanded@.dom().finite(),
        s.cursor < s.visible_spec().len(),
        !s.visible_spec()[s.cursor as int].is_expanded,
        collapsed_or_went_to_parent(s, t),
    ensures
        s.visible_spec()[s.cursor as int].depth == 0 ==> t == s,
        s.visible_spec()[s.cursor as int].depth > 0 ==> {
            &&& t.cursor < s.cursor
            &&& s.visible_spec()[t.cursor as int].depth + 1 == s.visible_spec()[s.cursor as int].depth
            &&& t == (AppState { cursor: t.cursor, ..s })
        },
{
    if s.visible_spec()[s.cursor as int].depth > 0 {
        lemma_parent_row_exists(s, s.cursor as int);
    }
}

/// The updates kept by a reload of the packages `db`: an update is kept,
/// with its name, old and new version unchanged and its impact looked up
/// anew, exactly when its package is still installed; as many are kept as
/// old updates are still installed.
pub proof fn lemma_reload_keeps_updates(olds: Seq<UpdateView>, db: Map<Seq<char>, Package>, transposed: bool, x: UpdateView)
    ensures
        ({
            let imp = impact_map(db, false);
            let r = sorted_by_insertion(kept_updates(olds, db, imp), roots_order(transposed, imp, impact_map(db, true)));
            &&& r.contains(x) <==> (db.contains_key(x.0) && x.3 == impact_in(imp, x.0) && exists|j: int|
                0 <= j < olds.len() && (#[trigger] olds[j]).0 == x.0 && olds[j].1 == x.1 && olds[j].2 == x.2)
            &&& r.len() == olds.filter(|u: UpdateView| db.contains_key(u.0)).len()
        }),
{
    broadcast use vstd::seq_lib::group_to_multiset_ensures;

    let imp = impact_map(db, false);
    let lt = roots_order(transposed, imp, impact_map(db, true));
    let keep = |u: UpdateView| db.contains_key(u.0);
    let refresh = |u: UpdateView| (u.0, u.1, u.2, impact_in(imp, u.0));
    let f = olds.filter(keep);
    let k = kept_updates(olds, db, imp);
    assert(k == f.map_values(refresh));
    assert(strict_weak_order(lt));
    lemma_sorted_by_insertion(k, lt);
    let r = sorted_by_insertion(k, lt);
    assert(r.contains(x) == k.contains(x)) by {
        assert(r.to_multiset().count(x) == k.to_multiset().count(x));
    }
    if k.contains(x) {
        let i = choose|i: int| 0 <= i < k.len() && k[i] == x;
        assert(k.len() == f.len());
        olds.lemma_filter_pred(keep, i);
        assert(f.contains(f[i]));
        olds.lemma_filter_contains_rev(keep, f[i]);
        let j = choose|j: int| 0 <= j < olds.len() && olds[j] == f[i];
        assert(olds[j].0 == x.0 && olds[j].1 == x.1 && olds[j].2 == x.2);
    }
    if db.contains_key(x.0) && x.3 == impact_in(imp, x.0) && exists|j: int|
        0 <= j < olds.len() && (#[trigger] olds[j]).0 == x.0 && olds[j].1 == x.1 && olds[j].2 == x.2 {
        let j = choose|j: int| 0 <= j < olds.len() && (#[trigger] olds[j]).0 == x.0 && olds[j].1 == x.1 && olds[j].2 == x.2;
        olds.lemma_filter_contains(keep, j);
        let i = choose|i: int| 0 <= i < f.len() && f[i] == olds[j];
        assert(k[i] == refresh(olds[j]));
        assert(refresh(olds[j]) == x);
        assert(k.contains(x));
    }
}

/// A package's impact counts the package itself and, directly, every
/// package that requires it (with `required_by`), or every package it
/// depends on (with `depends_on`).
pub proof fn lemma_closure_holds_neighbours(db: Map<Seq<char>, Package>, a: Seq<char>, i: int, j: int)
    requires
        db.contains_key(a),
    ensures
        closure(db, false, a).contains(a),
        closure(db, true, a).contains(a),
        0 <= i < db[a].required_by@.len() ==> closure(db, false, a).contains(db[a].required_by@[i]@),
        0 <= j < db[a].depends_on@.len() ==> closure(db, true, a).contains(db[a].depends_on@[j]@),
{
    let w0 = seq![a];
    assert(is_walk(db, false, w0) && w0[0] == a && w0.last() == a);
    assert(is_walk(db, true, w0));
    assert(reaches_avoiding(db, false, Set::empty(), a, a));
    assert(reaches_avoiding(db, true, Set::empty(), a, a));
    if 0 <= i < db[a].required_by@.len() {
        let b = db[a].required_by@[i]@;
        let w = seq![a, b];
        assert(edges(db, false, a)[i] == b);
        assert(edges(db, false, w[0]).contains(w[1]));
        assert(is_walk(db, false, w));
        assert(w.last() == b);
        assert(reaches_avoiding(db, false, Set::empty(), a, b));
    }
    if 0 <= j < db[a].depends_on@.len() {
        let b = db[a].depends_on@[j]@;
        let w = seq![a, b];
        assert(edges(db, true, a)[j] == b);
        assert(edges(db, true, w[0]).contains(w[1]));
        assert(is_walk(db, true, w));
        assert(w.last() == b);
        assert(reaches_avoiding(db, true, Set::empty(), a, b));
    }
}

/// The list of packages that require `a`, or with `deps` that it depends on.
pub open spec fn neighbour_list(db: Map<Seq<char>, Package>, deps: bool, a: Seq<char>) -> Seq<String> {
    if deps {
        db[a].depends_on@
    } else {
        db[a].required_by@
    }
}

/// The children of a package in the tree are the packages that require it
/// (with `deps` the packages it depends on), each as often as it is listed,
/// in name order.
pub proof fn lemma_children_are_neighbours(db: Map<Seq<char>, Package>, deps: bool, a: Seq<char>, x: Seq<char>)
    requires
        db.contains_key(a),
    ensures
        ({
            let list = neighbour_list(db, deps, a);
            let kids = sorted_neighbours(db, deps, a);
            &&& kids.len() == list.len()
            &&& kids.contains(x) <==> exists|i: int| 0 <= i < list.len() && (#[trigger] list[i])@ == x
            &&& forall|i: int, k: int| 0 <= i < k < kids.len() ==> !name_lt(#[trigger] kids[k], #[trigger] kids[i])
        }),
{
    broadcast use vstd::seq_lib::group_to_multiset_ensures;

    let list = neighbour_list(db, deps, a);
    lemma_children_sorted(list);
    let sorted = sorted_by_insertion(list, string_lt());
    let kids = sorted_neighbours(db, deps, a);
    assert(kids == sorted.map_values(|s: String| s@));
    lemma_string_order();
    lemma_sorted_by_insertion(list, string_lt());
    assert(kids.len() == list.len());
    assert forall|i: int, k: int| 0 <= i < k < kids.len() implies !name_lt(#[trigger] kids[k], #[trigger] kids[i]) by {
        assert(!string_lt()(sorted[k], sorted[i]));
        assert(kids[k] == sorted[k]@ && kids[i] == sorted[i]@);
    }
    if kids.contains(x) {
        let i = choose|i: int| 0 <= i < kids.len() && kids[i] == x;
        assert(sorted.contains(sorted[i]));
        assert(sorted.to_multiset().count(sorted[i]) > 0);
        assert(list.contains(sorted[i]));
        let j = choose|j: int| 0 <= j < list.len() && list[j] == sorted[i];
        assert(list[j]@ == x);
    }
    if exists|i: int| 0 <= i < list.len() && (#[trigger] list[i])@ == x {
        let j = choose|j: int| 0 <= j < list.len() && (#[trigger] list[j])@ == x;
        assert(list.contains(list[j]));
        assert(list.to_multiset().count(list[j]) > 0);
        assert(sorted.contains(list[j]));
        let i = choose|i: int| 0 <= i < sorted.len() && sorted[i] == list[j];
        assert(kids[i] == x);
        assert(kids.contains(x));
    }
}

/// An update is listed exactly when some line of the `checkupdates`
/// output has at least four words, the package name first, the installed
/// version second and the new version fourth (after the arrow).
pub proof fn lemma_update_lines(text: Seq<char>, e: (Seq<char>, Seq<char>, Seq<char>))
    ensures
        update_entries(text).contains(e) <==> exists|k: int|
            0 <= k < lines(text).len() && words(#[trigger] lines(text)[k]).len() >= 4 && words(lines(text)[k])[0]
                == e.0 && words(lines(text)[k])[1] == e.1 && words(lines(text)[k])[3] == e.2,
{
    let ls = lines(text);
    let keep = |l: Seq<char>| words(l).len() >= 4;
    let entry = |l: Seq<char>| (words(l)[0], words(l)[1], words(l)[3]);
    let f = ls.filter(keep);
    assert(update_entries(text) == f.map_values(entry));
    if update_entries(text).contains(e) {
        let i = choose|i: int| 0 <= i < f.len() && entry(f[i]) == e;
        ls.lemma_filter_pred(keep, i);
        assert(f.contains(f[i]));
        ls.lemma_filter_contains_rev(keep, f[i]);
        let k = choose|k: int| 0 <= k < ls.len() && ls[k] == f[i];
        assert(words(ls[k]).len() >= 4);
    }
    if exists|k: int|
        0 <= k < ls.len() && words(#[trigger] ls[k]).len() >= 4 && words(ls[k])[0] == e.0 && words(ls[k])[1]
            == e.1 && words(ls[k])[3] == e.2 {
        let k = choose|k: int|
            0 <= k < ls.len() && words(#[trigger] ls[k]).len() >= 4 && words(ls[k])[0] == e.0 && words(ls[k])[1]
                == e.1 && words(ls[k])[3] == e.2;
        ls.lemma_filter_contains(keep, k);
        let i = choose|i: int| 0 <= i < f.len() && f[i] == ls[k];
        assert(update_entries(text)[i] == e);
        assert(update_entries(text).contains(e));
    }
}

/// Sorting keeps the elements: the same ones, as many.
pub proof fn lemma_sorted_same_elements<T>(s: Seq<T>, lt: spec_fn(T, T) -> bool, x: T)
    requires
        strict_weak_order(lt),
    ensures
        sorted_by_insertion(s, lt).contains(x) == s.contains(x),
        sorted_by_insertion(s, lt).len() == s.len(),
{
    broadcast use vstd::seq_lib::group_to_multiset_ensures;

    lemma_sorted_by_insertion(s, lt);
    assert(sorted_by_insertion(s, lt).to_multiset().count(x) == s.to_multiset().count(x));
}

/// The updates the viewer starts with are the pending updates, each with
/// its name, installed version and new version as `checkupdates` gave
/// them, and the impact of its package; one per pending update.
pub proof fn lemma_start_updates(raw: Seq<(String, String, String)>, imp: Map<Seq<char>, usize>, x: UpdateView)
    ensures
        sorted_by_insertion(update_rows(raw, imp), by_update_impact()).contains(x) <==> (x.3 == impact_in(imp, x.0)
            && exists|j: int|
            0 <= j < raw.len() && (#[trigger] raw[j]).0@ == x.0 && raw[j].1@ == x.1 && raw[j].2@ == x.2),
        sorted_by_insertion(update_rows(raw, imp), by_update_impact()).len() == raw.len(),
{
    let rows = update_rows(raw, imp);
    assert(strict_weak_order(by_update_impact()));
    lemma_sorted_same_elements(rows, by_update_impact(), x);
    if rows.contains(x) {
        let j = choose|j: int| 0 <= j < rows.len() && rows[j] == x;
        assert(raw[j].0@ == x.0);
    }
    if x.3 == impact_in(imp, x.0) && exists|j: int|
        0 <= j < raw.len() && (#[trigger] raw[j]).0@ == x.0 && raw[j].1@ == x.1 && raw[j].2@ == x.2 {
        let j = choose|j: int| 0 <= j < raw.len() && (#[trigger] raw[j]).0@ == x.0 && raw[j].1@ == x.1 && raw[j].2@ == x.2;
        assert(rows[j] == x);
        assert(rows.contains(x));
    }
}

/// The list of all packages holds each installed package once, with its
/// version and its impact, and nothing else, in any order `lt`.
pub proof fn lemma_package_list(p: PackageDb, imp: Map<Seq<char>, usize>, lt: spec_fn(AllPkgView, AllPkgView) -> bool, x: AllPkgView)
    requires
        p.listed(),
        strict_weak_order(lt),
    ensures
        sorted_by_insertion(package_rows(&p, imp), lt).contains(x) <==> (p@.contains_key(x.0) && x.1
            == p@[x.0].version@ && x.2 == impact_in(imp, x.0)),
        sorted_by_insertion(package_rows(&p, imp), lt).len() == p@.dom().len(),
{
    let rows = package_rows(&p, imp);
    lemma_sorted_same_elements(rows, lt, x);
    if rows.contains(x) {
        let i = choose|i: int| 0 <= i < rows.len() && rows[i] == x;
        assert(p@.contains_key(p.keys()[i]));
    }
    if p@.contains_key(x.0) && x.1 == p@[x.0].version@ && x.2 == impact_in(imp, x.0) {
        assert(p.keys().contains(x.0));
        let i = choose|i: int| 0 <= i < p.keys().len() && p.keys()[i] == x.0;
        assert(p@[p.keys()[i]] == p.values()[i]);
        assert(rows[i] == x);
        assert(rows.contains(x));
    }
}

/// `→` adds the package under the cursor to the expanded ones when its row
/// has children and is not a cycle, and otherwise changes nothing; it
/// never moves the cursor or changes anything else.
pub proof fn lemma_right_expands_row(s: AppState, t: AppState)
    requires
        s.cursor < s.visible_spec().len(),
        expanded_current(s, t),
    ensures
        ({
            let row = s.visible_spec()[s.cursor as int];
            &&& (row.has_children && !row.is_cycle) ==> t.expanded@.dom() == s.expanded@.dom().insert(row.name)
            &&& !(row.has_children && !row.is_cycle) ==> t.expanded@ == s.expanded@
            &&& t == (AppState { expanded: t.expanded, ..s })
        }),
{
    let row = s.visible_spec()[s.cursor as int];
    if row.has_children && !row.is_cycle {
        assert(t.expanded@.dom() =~= s.expanded@.dom().insert(row.name));
    }
}

/// `←` on an expanded row removes just that package from the expanded
/// ones, keeps the cursor where it was as long as it is still on the list,
/// and changes nothing else.
pub proof fn lemma_left_collapses_row(s: AppState, t: AppState)
    requires
        s.cursor < s.visible_spec().len(),
        s.visible_spec()[s.cursor as int].is_expanded,
        collapsed_or_went_to_parent(s, t),
    ensures
        t.expanded@.dom() == s.expanded@.dom().remove(s.visible_spec()[s.cursor as int].name),
        s.cursor < t.visible_spec().len() ==> t.cursor == s.cursor,
        t.visible_spec().len() > 0 ==> t.cursor < t.visible_spec().len(),
        t == (AppState { expanded: t.expanded, cursor: t.cursor, ..s }),
{
    let collapsed = AppState { expanded: t.expanded, ..s };
    assert(t.expanded@.dom() =~= s.expanded@.dom().remove(s.visible_spec()[s.cursor as int].name));
    assert(t.tree() == collapsed.tree());
    assert(t.root_heads() == collapsed.root_heads());
}

/// Rows whose package is already an ancestor are leaves: they show no
/// children and are never expanded.
pub open spec fn cycles_are_leaves(rows: Seq<RowView>) -> bool {
    forall|i: int| 0 <= i < rows.len() && (#[trigger] rows[i]).is_cycle ==> !rows[i].has_children && !rows[i].is_expanded
}

proof fn lemma_leaves_push_concat(before: Seq<RowView>, row: RowView, sub: Seq<RowView>)
    requires
        cycles_are_leaves(before),
        row.is_cycle ==> !row.has_children && !row.is_expanded,
        cycles_are_leaves(sub),
    ensures
        cycles_are_leaves(before.push(row) + sub),
{
    let r = before.push(row) + sub;
    assert forall|i: int| 0 <= i < r.len() && (#[trigger] r[i]).is_cycle implies !r[i].has_children && !r[i].is_expanded by {
        if i < before.len() {
            assert(r[i] == before[i]);
        } else if i > before.len() {
            assert(r[i] == sub[i - before.len() - 1]);
        }
    }
}

proof fn lemma_rows_below_leaves(tree: TreeView, names: Seq<Seq<char>>, d: nat, anc: Set<Seq<char>>)
    requires
        tree.expanded.finite(),
    ensures
        cycles_are_leaves(tree.rows_below(names, d, anc)),
    decreases tree.expanded.difference(anc).len(), names.len(),
{
    if names.len() > 0 {
        lemma_rows_below_leaves(tree, names.drop_last(), d, anc);
        let n = names.last();
        let row = tree.dep_row(n, d, anc);
        let before = tree.rows_below(names.drop_last(), d, anc);
        if row.is_expanded {
            tree.expanded.lemma_set_insert_diff_decreases(anc, n);
            lemma_rows_below_leaves(tree, tree.children(n), d + 1, anc.insert(n));
            lemma_leaves_push_concat(before, row, tree.rows_below(tree.children(n), d + 1, anc.insert(n)));
        } else {
            lemma_leaves_push_concat(before, row, Seq::empty());
            assert(before.push(row) + Seq::<RowView>::empty() =~= before.push(row));
        }
    }
}

/// On screen, a package that repeats one of its ancestors is shown as a
/// leaf: the cycle guard stops the tree from unfolding forever.
pub proof fn lemma_cycles_are_leaves(s: AppState)
    requires
        s.expanded@.dom().finite(),
    ensures
        cycles_are_leaves(s.visible_spec()),
{
    lemma_visible_leaves(s.tree(), s.root_heads());
}

proof fn lemma_visible_leaves(tree: TreeView, heads: Seq<(Seq<char>, KindView)>)
    requires
        tree.expanded.finite(),
    ensures
        cycles_are_leaves(tree.rows_from_roots(heads)),
    decreases heads.len(),
{
    if heads.len() > 0 {
        lemma_visible_leaves(tree, heads.drop_last());
        let n = heads.last().0;
        if tree.matches(n) {
            let kids = tree.children(n);
            let row = RowView {
                name: n,
                depth: 0,
                kind: heads.last().1,
                has_children: kids.len() > 0,
                is_expanded: tree.expanded.contains(n),
                is_cycle: false,
            };
            let before = tree.rows_from_roots(heads.drop_last());
            if row.is_expanded {
                lemma_rows_below_leaves(tree, kids, 1, set![n]);
                lemma_leaves_push_concat(before, row, tree.rows_below(kids, 1, set![n]));
            } else {
                lemma_leaves_push_concat(before, row, Seq::empty());
                assert(before.push(row) + Seq::<RowView>::empty() =~= before.push(row));
            }
        }
    } else {
        assert(tree.rows_from_roots(heads) =~= Seq::<RowView>::empty());
    }
}

/// The top-level rows are exactly the roots that pass the search filter,
/// in their order.
pub proof fn lemma_top_rows_are_matching_roots(tree: TreeView, heads: Seq<(Seq<char>, KindView)>)
    requires
        tree.expanded.finite(),
    ensures
        tree.rows_from_roots(heads).filter(|r: RowView| r.depth == 0).map_values(|r: RowView| r.name)
            == heads.map_values(|h: (Seq<char>, KindView)| h.0).filter(|n: Seq<char>| tree.matches(n)),
    decreases heads.len(),
{
    let top = |r: RowView| r.depth == 0;
    let name = |r: RowView| r.name;
    let pass = |n: Seq<char>| tree.matches(n);
    let first = |h: (Seq<char>, KindView)| h.0;
    if heads.len() > 0 {
        lemma_top_rows_are_matching_roots(tree, heads.drop_last());
        let n = heads.last().0;
        let before = tree.rows_from_roots(heads.drop_last());
        assert(heads.map_values(first).drop_last() =~= heads.drop_last().map_values(first));
        assert(heads.map_values(first).last() == n);
        if tree.matches(n) {
            let kids = tree.children(n);
            let row = RowView {
                name: n,
                depth: 0,
                kind: heads.last().1,
                has_children: kids.len() > 0,
                is_expanded: tree.expanded.contains(n),
                is_cycle: false,
            };
            let sub = if row.is_expanded {
                tree.rows_below(kids, 1, set![n])
            } else {
                Seq::<RowView>::empty()
            };
            if row.is_expanded {
                lemma_rows_below_nested(tree, kids, 1, set![n]);
            }
            assert(sub.filter(top) =~= Seq::<RowView>::empty()) by {
                lemma_filter_none(sub, top);
            }
            assert(tree.rows_from_roots(heads) == before.push(row) + sub) by {
                if !row.is_expanded {
                    assert(before.push(row) + sub =~= before.push(row));
                }
            }
            Seq::filter_distributes_over_add(before.push(row), sub, top);
            assert(before.push(row).filter(top) == before.filter(top).push(row)) by {
                reveal_with_fuel(Seq::filter, 1);
                assert(before.push(row).drop_last() =~= before);
            }
            assert(heads.map_values(first).filter(pass) == heads.drop_last().map_values(first).filter(pass).push(n)) by {
                reveal_with_fuel(Seq::filter, 1);
            }
            assert(before.filter(top).push(row).map_values(name) =~= before.filter(top).map_values(name).push(n));
            assert(before.filter(top).push(row) + Seq::<RowView>::empty() =~= before.filter(top).push(row));
        } else {
            assert(heads.map_values(first).filter(pass) == heads.drop_last().map_values(first).filter(pass)) by {
                reveal_with_fuel(Seq::filter, 1);
            }
        }
    } else {
        assert(tree.rows_from_roots(heads) =~= Seq::<RowView>::empty());
        assert(heads.map_values(first) =~= Seq::<Seq<char>>::empty());
        assert(Seq::<RowView>::empty().filter(top) =~= Seq::<RowView>::empty()) by {
            reveal_with_fuel(Seq::filter, 1);
        }
        assert(Seq::<Seq<char>>::empty().filter(pass) =~= Seq::<Seq<char>>::empty()) by {
            reveal_with_fuel(Seq::filter, 1);
        }
    }
}

proof fn lemma_filter_none(rows: Seq<RowView>, top: spec_fn(RowView) -> bool)
    requires
        rows.len() == 0 || nested_from(rows, 1),
        forall|r: RowView| #[trigger] top(r) == (r.depth == 0),
    ensures
        rows.filter(top) == Seq::<RowView>::empty(),
    decreases rows.len(),
{
    reveal_with_fuel(Seq::filter, 1);
    if rows.len() > 0 {
        let rest = rows.drop_last();
        if rest.len() > 0 {
            assert forall|i: int| 0 <= i < rest.len() implies #[trigger] rest[i].depth >= 1 by {
                assert(rest[i] == rows[i]);
            }
            assert forall|i: int| 0 < i < rest.len() implies #[trigger] rest[i].depth <= rest[i - 1].depth + 1 by {
                assert(rest[i] == rows[i] && rest[i - 1] == rows[i - 1]);
            }
            assert(rest[0] == rows[0]);
        }
        lemma_filter_none(rest, top);
        assert(rows.last().depth >= 1) by {
            assert(rows[rows.len() - 1].depth >= 1);
        }
    }
}

} // verus!
