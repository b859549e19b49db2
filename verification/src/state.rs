//! The viewer's state: the package lists, which nodes are expanded, the
//! cursor, and the flattened tree that the screen shows.

use vstd::prelude::*;
use crate::graph::{Package, PackageDb, closure, dag_size, dep_dag_size};
use crate::namemap::{NameMap, NameSet};
use crate::names::{NameOrder, compare_names, name_lt};
use crate::sort::{insertion_sort, sorted_by_insertion};
use crate::text::{views, lowercase, occurs_in, to_lowercase, contains_text, clone_strings};

verus! {

/// Which packages the list starts from.
#[derive(Clone, Copy, PartialEq, Eq, Structural, Debug)]
pub enum Mode {
    /// The packages with a pending update.
    Updates,
    /// Every installed package.
    AllPackages,
}

/// A pending update.
pub struct UpdateInfo {
    pub name: String,
    pub old_version: String,
    pub new_version: String,
    pub impact: usize,
}

/// An installed package, as a root of the all-packages list.
pub struct AllPkgInfo {
    pub name: String,
    pub version: String,
    pub impact: usize,
}

/// What a row shows beside the package name.
pub enum ItemKind {
    Root { old_version: String, new_version: String, impact: usize },
    AllPkgRoot { version: String, impact: usize },
    Dep { installed_version: Option<String>, impact: usize },
}

/// One row in the visible flat list.
pub struct VisibleItem {
    /// Actual package name, used as the expand/collapse key.
    pub name: String,
    pub depth: usize,
    pub kind: ItemKind,
    pub has_children: bool,
    pub is_expanded: bool,
    /// True when the package is already an ancestor in the current path (cycle guard).
    pub is_cycle: bool,
}

/// The package-information popup.
pub struct InfoPopup {
    pub package: String,
    pub content: String,
    pub scroll: u16,
}

/// An ongoing name search.
pub struct SearchState {
    pub query: String,
    pub pre_search_cursor: usize,
}

/// Everything the viewer knows and shows.
pub struct AppState {
    pub roots: Vec<UpdateInfo>,
    pub all_roots: Vec<AllPkgInfo>,
    pub packages: PackageDb,
    /// Reverse impact (via required_by) of every package.
    pub impacts: NameMap<usize>,
    /// Forward impact (via depends_on) of every package.
    pub dep_impacts: NameMap<usize>,
    pub expanded: NameSet,
    pub cursor: usize,
    pub mode: Mode,
    pub transposed: bool,
    pub update_succeeded: bool,
    pub info_popup: Option<InfoPopup>,
    pub search: Option<SearchState>,
    pub show_help: bool,
    /// Whether the rows show the groups of their packages.
    pub show_groups: bool,
}

/// What a row shows beside the name, as values.
pub enum KindView {
    Root { old_version: Seq<char>, new_version: Seq<char>, impact: usize },
    AllPkgRoot { version: Seq<char>, impact: usize },
    Dep { installed_version: Option<Seq<char>>, impact: usize },
}

/// A row, as values.
pub struct RowView {
    pub name: Seq<char>,
    pub depth: nat,
    pub kind: KindView,
    pub has_children: bool,
    pub is_expanded: bool,
    pub is_cycle: bool,
}

impl ItemKind {
    pub open spec fn view(&self) -> KindView {
        match self {
            ItemKind::Root { old_version, new_version, impact } => KindView::Root {
                old_version: old_version@,
                new_version: new_version@,
                impact: *impact,
            },
            ItemKind::AllPkgRoot { version, impact } => KindView::AllPkgRoot {
                version: version@,
                impact: *impact,
            },
            ItemKind::Dep { installed_version, impact } => KindView::Dep {
                installed_version: match installed_version {
                    Some(v) => Some(v@),
                    None => None,
                },
                impact: *impact,
            },
        }
    }
}

impl VisibleItem {
    pub open spec fn view(&self) -> RowView {
        RowView {
            name: self.name@,
            depth: self.depth as nat,
            kind: self.kind@,
            has_children: self.has_children,
            is_expanded: self.is_expanded,
            is_cycle: self.is_cycle,
        }
    }
}

/// The rows of a list of visible items.
pub open spec fn rows_of(items: Seq<VisibleItem>) -> Seq<RowView> {
    items.map_values(|it: VisibleItem| it@)
}

/// Names in `String` order.
pub open spec fn string_lt() -> spec_fn(String, String) -> bool {
    |a: String, b: String| name_lt(a@, b@)
}

/// A list of names sorted as `slice::sort` sorts it.
pub fn sort_names(v: Vec<String>) -> (r: Vec<String>)
    ensures
        r@ == sorted_by_insertion(v@, string_lt()),
{
    insertion_sort(
        v,
        |a: &String, b: &String| -> (r: bool) ensures r == name_lt(a@, b@) { compare_names(a.as_str(), b.as_str()) == NameOrder::Less },
        Ghost(string_lt()),
    )
}

/// The sorted neighbours of `name` in `db`: those that require it, or with
/// `deps` those it depends on.
pub open spec fn sorted_neighbours(db: Map<Seq<char>, Package>, deps: bool, name: Seq<char>) -> Seq<Seq<char>> {
    if db.contains_key(name) {
        if deps {
            views(sorted_by_insertion(db[name].depends_on@, string_lt()))
        } else {
            views(sorted_by_insertion(db[name].required_by@, string_lt()))
        }
    } else {
        Seq::empty()
    }
}

/// The number stored under `name`, or 1.
pub open spec fn impact_in(m: Map<Seq<char>, usize>, name: Seq<char>) -> usize {
    if m.contains_key(name) {
        m[name]
    } else {
        1
    }
}

/// The impact of `name` in one direction or the other.
pub open spec fn impact_by(
    transposed: bool,
    impacts: Map<Seq<char>, usize>,
    dep_impacts: Map<Seq<char>, usize>,
    name: Seq<char>,
) -> usize {
    if transposed {
        impact_in(dep_impacts, name)
    } else {
        impact_in(impacts, name)
    }
}

fn lookup_impact_by(transposed: bool, impacts: &NameMap<usize>, dep_impacts: &NameMap<usize>, name: &str) -> (r: usize)
    ensures
        r == impact_by(transposed, impacts@, dep_impacts@, name@),
{
    if transposed {
        lookup_impact(dep_impacts, name)
    } else {
        lookup_impact(impacts, name)
    }
}

/// A pending update, as values.
pub type UpdateView = (Seq<char>, Seq<char>, Seq<char>, usize);

/// An installed package in the all-packages list, as values.
pub type AllPkgView = (Seq<char>, Seq<char>, usize);

pub open spec fn update_view(r: UpdateInfo) -> UpdateView {
    (r.name@, r.old_version@, r.new_version@, r.impact)
}

pub open spec fn all_pkg_view(r: AllPkgInfo) -> AllPkgView {
    (r.name@, r.version@, r.impact)
}

pub open spec fn update_views(s: Seq<UpdateInfo>) -> Seq<UpdateView> {
    s.map_values(|r: UpdateInfo| update_view(r))
}

pub open spec fn all_pkg_views(s: Seq<AllPkgInfo>) -> Seq<AllPkgView> {
    s.map_values(|r: AllPkgInfo| all_pkg_view(r))
}

/// Updates are listed by impact, highest first; equal impacts keep their order.
pub open spec fn roots_order(
    transposed: bool,
    impacts: Map<Seq<char>, usize>,
    dep_impacts: Map<Seq<char>, usize>,
) -> spec_fn(UpdateView, UpdateView) -> bool {
    |a: UpdateView, b: UpdateView|
        impact_by(transposed, impacts, dep_impacts, b.0) < impact_by(transposed, impacts, dep_impacts, a.0)
}

/// Installed packages are listed by impact, highest first, then by name.
pub open spec fn all_roots_order(
    transposed: bool,
    impacts: Map<Seq<char>, usize>,
    dep_impacts: Map<Seq<char>, usize>,
) -> spec_fn(AllPkgView, AllPkgView) -> bool {
    |a: AllPkgView, b: AllPkgView|
        {
            let ia = impact_by(transposed, impacts, dep_impacts, a.0);
            let ib = impact_by(transposed, impacts, dep_impacts, b.0);
            ib < ia || (ia == ib && name_lt(a.0, b.0))
        }
}

fn lookup_impact(m: &NameMap<usize>, name: &str) -> (r: usize)
    ensures
        r == impact_in(m@, name@),
{
    match m.get(name) {
        Some(v) => *v,
        None => 1,
    }
}

/// What the tree on screen is made of: the packages, their impacts in both
/// directions, the expanded names, the direction, and the lower-case query.
pub struct TreeView {
    pub packages: Map<Seq<char>, Package>,
    pub impacts: Map<Seq<char>, usize>,
    pub dep_impacts: Map<Seq<char>, usize>,
    pub expanded: Set<Seq<char>>,
    pub transposed: bool,
    pub query: Option<Seq<char>>,
}

impl TreeView {
    /// The children of `name` in the tree: the sorted neighbours in the
    /// current direction.
    pub open spec fn children(self, name: Seq<char>) -> Seq<Seq<char>> {
        sorted_neighbours(self.packages, self.transposed, name)
    }

    /// The impact shown for `name` in the current direction.
    pub open spec fn impact(self, name: Seq<char>) -> usize {
        impact_by(self.transposed, self.impacts, self.dep_impacts, name)
    }

    /// `name` passes the search filter: its lower-case form contains the
    /// lower-case query.
    pub open spec fn matches(self, name: Seq<char>) -> bool {
        match self.query {
            None => true,
            Some(q) => occurs_in(lowercase(name), q),
        }
    }

    /// The row of a dependency `n` shown at `depth` below the ancestors `anc`.
    pub open spec fn dep_row(self, n: Seq<char>, depth: nat, anc: Set<Seq<char>>) -> RowView {
        let cyc = anc.contains(n);
        let kids = if cyc {
            Seq::<Seq<char>>::empty()
        } else {
            self.children(n)
        };
        RowView {
            name: n,
            depth: depth,
            kind: KindView::Dep {
                installed_version: if self.packages.contains_key(n) {
                    Some(self.packages[n].version@)
                } else {
                    None
                },
                impact: self.impact(n),
            },
            has_children: kids.len() > 0,
            is_expanded: !cyc && self.expanded.contains(n),
            is_cycle: cyc,
        }
    }

    /// The rows for the dependencies `names` at `depth` below the ancestors
    /// `anc`: each row, followed by the rows below it when it is expanded.
    pub open spec fn rows_below(self, names: Seq<Seq<char>>, depth: nat, anc: Set<Seq<char>>) -> Seq<RowView>
        decreases self.expanded.difference(anc).len(), names.len(),
        when self.expanded.finite()
    {
        if names.len() == 0 {
            Seq::empty()
        } else {
            let before = self.rows_below(names.drop_last(), depth, anc);
            let n = names.last();
            let row = self.dep_row(n, depth, anc);
            if row.is_expanded {
                proof {
                    self.expanded.lemma_set_insert_diff_decreases(anc, n);
                }
                before.push(row) + self.rows_below(self.children(n), depth + 1, anc.insert(n))
            } else {
                before.push(row)
            }
        }
    }

    /// The root rows, each followed by the rows below it when it is
    /// expanded, for the roots in `heads` that pass the search filter.
    pub open spec fn rows_from_roots(self, heads: Seq<(Seq<char>, KindView)>) -> Seq<RowView>
        decreases heads.len(),
    {
        if heads.len() == 0 {
            Seq::empty()
        } else {
            let before = self.rows_from_roots(heads.drop_last());
            let n = heads.last().0;
            if !self.matches(n) {
                before
            } else {
                let kids = self.children(n);
                let row = RowView {
                    name: n,
                    depth: 0,
                    kind: heads.last().1,
                    has_children: kids.len() > 0,
                    is_expanded: self.expanded.contains(n),
                    is_cycle: false,
                };
                if row.is_expanded {
                    before.push(row) + self.rows_below(kids, 1, set![n])
                } else {
                    before.push(row)
                }
            }
        }
    }

    /// The roots of a mode, with what their rows show.
    pub open spec fn heads(self, mode: Mode, roots: Seq<UpdateView>, all_roots: Seq<AllPkgView>) -> Seq<(Seq<char>, KindView)> {
        match mode {
            Mode::Updates => roots.map_values(
                |r: UpdateView|
                    (r.0, KindView::Root { old_version: r.1, new_version: r.2, impact: self.impact(r.0) }),
            ),
            Mode::AllPackages => all_roots.map_values(
                |r: AllPkgView| (r.0, KindView::AllPkgRoot { version: r.1, impact: self.impact(r.0) }),
            ),
        }
    }
}

impl AppState {
    /// What the tree on screen is made of.
    pub open spec fn tree(&self) -> TreeView {
        TreeView {
            packages: self.packages@,
            impacts: self.impacts@,
            dep_impacts: self.dep_impacts@,
            expanded: self.expanded@.dom(),
            transposed: self.transposed,
            query: match self.search {
                Some(s) => Some(lowercase(s.query@)),
                None => None,
            },
        }
    }

    /// The children of `name` in the current direction.
    pub open spec fn children_spec(&self, name: Seq<char>) -> Seq<Seq<char>> {
        self.tree().children(name)
    }

    /// The impact shown for `name` in the current direction.
    pub open spec fn impact_spec(&self, name: Seq<char>) -> usize {
        self.tree().impact(name)
    }

    /// The roots of the current mode, with what their rows show.
    pub open spec fn root_heads(&self) -> Seq<(Seq<char>, KindView)> {
        self.tree().heads(self.mode, update_views(self.roots@), all_pkg_views(self.all_roots@))
    }

    /// The rows on screen.
    pub open spec fn visible_spec(&self) -> Seq<RowView> {
        self.tree().rows_from_roots(self.root_heads())
    }

    /// The packages that require `name`, sorted.
    pub fn req_by(&self, name: &str) -> (r: Vec<String>)
        ensures
            views(r@) == sorted_neighbours(self.packages@, false, name@),
    {
        match self.packages.get(name) {
            Some(p) => sort_names(clone_strings(&p.required_by)),
            None => Vec::new(),
        }
    }

    /// The packages `name` depends on, sorted.
    pub fn deps_of(&self, name: &str) -> (r: Vec<String>)
        ensures
            views(r@) == sorted_neighbours(self.packages@, true, name@),
    {
        match self.packages.get(name) {
            Some(p) => sort_names(clone_strings(&p.depends_on)),
            None => Vec::new(),
        }
    }

    /// The children of `name` in the current direction.
    pub fn children_of(&self, name: &str) -> (r: Vec<String>)
        ensures
            views(r@) == self.children_spec(name@),
    {
        if self.transposed {
            self.deps_of(name)
        } else {
            self.req_by(name)
        }
    }

    /// The impact of `name` in the current direction; 1 for an unknown name.
    pub fn impact_of(&self, name: &str) -> (r: usize)
        ensures
            r == self.impact_spec(name@),
    {
        if self.transposed {
            lookup_impact(&self.dep_impacts, name)
        } else {
            lookup_impact(&self.impacts, name)
        }
    }

    /// Appends the rows for the dependencies `names` at `depth`, below the
    /// ancestors in `ancestors`.
    pub fn collect_children(
        &self,
        names: Vec<String>,
        depth: usize,
        ancestors: &mut NameSet,
        out: &mut Vec<VisibleItem>,
    )
        requires
            depth + self.expanded@.dom().difference(old(ancestors)@.dom()).len() <= usize::MAX,
        ensures
            rows_of(final(out)@) == rows_of(old(out)@) + self.tree().rows_below(
                views(names@),
                depth as nat,
                old(ancestors)@.dom(),
            ),
            final(ancestors)@.dom() == old(ancestors)@.dom(),
        decreases self.expanded@.dom().difference(ancestors@.dom()).len(), names@.len(),
    {
        let ghost anc0 = ancestors@.dom();
        let ghost out0 = rows_of(out@);
        let ghost ns = views(names@);
        let _ = self.expanded.len();
        let ghost exp = self.expanded@.dom();
        let n = names.len();
        let mut i: usize = 0;
        assert(ns.take(0) =~= Seq::<Seq<char>>::empty());
        assert(rows_of(out@) =~= out0 + Seq::<RowView>::empty());
        while i < n
            invariant
                n == names@.len(),
                ns == views(names@),
                i <= n,
                exp == self.expanded@.dom(),
                exp.finite(),
                ancestors@.dom() == anc0,
                anc0 == old(ancestors)@.dom(),
                depth + exp.difference(anc0).len() <= usize::MAX,
                rows_of(out@) == out0 + self.tree().rows_below(ns.take(i as int), depth as nat, anc0),
            decreases n - i,
        {
            let name = &names[i];
            let ghost nm = name@;
            assert(ns[i as int] == nm);
            let is_cycle = ancestors.contains_key(name.as_str());
            let children = if is_cycle {
                Vec::new()
            } else {
                self.children_of(name.as_str())
            };
            let has_children = children.len() > 0;
            let is_expanded = !is_cycle && self.expanded.contains_key(name.as_str());
            let installed_version = match self.packages.get(name.as_str()) {
                Some(p) => Some(p.version.clone()),
                None => None,
            };
            let impact = self.impact_of(name.as_str());
            let item = VisibleItem {
                name: name.clone(),
                depth,
                kind: ItemKind::Dep { installed_version, impact },
                has_children,
                is_expanded,
                is_cycle,
            };
            let ghost row = self.tree().dep_row(nm, depth as nat, anc0);
            assert(item@ == row) by {
                if is_cycle {
                    assert(views(children@) =~= Seq::<Seq<char>>::empty());
                }
            }
            let ghost t = ns.take(i + 1);
            assert(t.drop_last() =~= ns.take(i as int));
            assert(t.last() == nm);
            let ghost before_rows = rows_of(out@);
            out.push(item);
            assert(rows_of(out@) =~= before_rows.push(row));
            if is_expanded {
                let _ = ancestors.len();
                ancestors.insert(name.clone(), ());
                let _ = ancestors.len();
                proof {
                    assert(ancestors@.dom() =~= anc0.insert(nm));
                    exp.lemma_set_insert_diff_decreases(anc0, nm);
                }
                let ghost mid = rows_of(out@);
                self.collect_children(children, depth + 1, ancestors, out);
                ancestors.remove(name.as_str());
                proof {
                    assert(ancestors@.dom() =~= anc0);
                    assert(rows_of(out@) =~= out0 + self.tree().rows_below(t, depth as nat, anc0));
                }
            } else {
                assert(rows_of(out@) =~= out0 + self.tree().rows_below(t, depth as nat, anc0));
            }
            i = i + 1;
        }
        assert(ns.take(n as int) =~= ns);
    }
}

/// Whether a name passes the search filter, given the lower-case query:
/// with no query every name does; otherwise the lower-case name must
/// contain the query.
pub fn name_matches(query_lower: &Option<String>, name: &str) -> (b: bool)
    ensures
        match query_lower {
            None => b,
            Some(q) => b == occurs_in(lowercase(name@), q@),
        },
{
    match query_lower {
        None => true,
        Some(q) => {
            let lower = to_lowercase(name);
            contains_text(lower.as_str(), q.as_str())
        },
    }
}

impl AppState {
    /// Lower-cases the search query, if there is one.
    fn lower_query(&self) -> (r: Option<String>)
        ensures
            match self.search {
                None => r is None,
                Some(s) => r matches Some(q) && q@ == lowercase(s.query@),
            },
    {
        match &self.search {
            Some(s) => Some(to_lowercase(s.query.as_str())),
            None => None,
        }
    }

    /// Appends the row of a root, and the rows below it when it is expanded.
    fn push_root(&self, name: &String, kind: ItemKind, out: &mut Vec<VisibleItem>)
        requires
            self.expanded@.dom().finite(),
        ensures
            ({
                let kids = self.children_spec(name@);
                let row = RowView {
                    name: name@,
                    depth: 0,
                    kind: kind@,
                    has_children: kids.len() > 0,
                    is_expanded: self.expanded@.contains_key(name@),
                    is_cycle: false,
                };
                rows_of(final(out)@) == if row.is_expanded {
                    rows_of(old(out)@).push(row) + self.tree().rows_below(kids, 1, set![name@])
                } else {
                    rows_of(old(out)@).push(row)
                }
            }),
    {
        let children = self.children_of(name.as_str());
        let is_expanded = self.expanded.contains_key(name.as_str());
        let ghost kind_view = kind@;
        let item = VisibleItem {
            name: name.clone(),
            depth: 0,
            kind,
            has_children: children.len() > 0,
            is_expanded,
            is_cycle: false,
        };
        let ghost before = rows_of(out@);
        out.push(item);
        assert(rows_of(out@) =~= before.push(item@));
        if is_expanded {
            let mut ancestors = NameSet::new();
            ancestors.insert(name.clone(), ());
            assert(ancestors@.dom() =~= set![name@]);
            let _ = ancestors.len();
            let _ = self.expanded.len();
            assert(self.expanded@.dom().difference(set![name@]) =~= self.expanded@.dom().remove(name@));
            self.collect_children(children, 1, &mut ancestors, out);
        }
    }

    /// The rows on screen: the roots of the current mode that pass the
    /// search filter, each followed by its expanded subtree.
    pub fn visible(&self) -> (r: Vec<VisibleItem>)
        ensures
            rows_of(r@) == self.visible_spec(),
    {
        let _ = self.expanded.len();
        let query = self.lower_query();
        let mut out: Vec<VisibleItem> = Vec::new();
        let ghost heads = self.root_heads();
        match self.mode {
            Mode::Updates => {
                let n = self.roots.len();
                let mut i: usize = 0;
                assert(heads.take(0) =~= Seq::<(Seq<char>, KindView)>::empty());
                assert(rows_of(out@) =~= Seq::<RowView>::empty());
                while i < n
                    invariant
                        n == self.roots@.len(),
                        heads == self.root_heads(),
                        self.mode == Mode::Updates,
                        self.expanded@.dom().finite(),
                        i <= n,
                        match self.search {
                            None => query is None,
                            Some(s) => query matches Some(q) && q@ == lowercase(s.query@),
                        },
                        rows_of(out@) == self.tree().rows_from_roots(heads.take(i as int)),
                    decreases n - i,
                {
                    let root = &self.roots[i];
                    let ghost t = heads.take(i + 1);
                    assert(t.drop_last() =~= heads.take(i as int));
                    assert(t.last() == heads[i as int]);
                    if name_matches(&query, root.name.as_str()) {
                        let kind = ItemKind::Root {
                            old_version: root.old_version.clone(),
                            new_version: root.new_version.clone(),
                            impact: self.impact_of(root.name.as_str()),
                        };
                        self.push_root(&root.name, kind, &mut out);
                    }
                    i = i + 1;
                }
                assert(heads.take(n as int) =~= heads);
            },
            Mode::AllPackages => {
                let n = self.all_roots.len();
                let mut i: usize = 0;
                assert(heads.take(0) =~= Seq::<(Seq<char>, KindView)>::empty());
                assert(rows_of(out@) =~= Seq::<RowView>::empty());
                while i < n
                    invariant
                        n == self.all_roots@.len(),
                        heads == self.root_heads(),
                        self.mode == Mode::AllPackages,
                        self.expanded@.dom().finite(),
                        i <= n,
                        match self.search {
                            None => query is None,
                            Some(s) => query matches Some(q) && q@ == lowercase(s.query@),
                        },
                        rows_of(out@) == self.tree().rows_from_roots(heads.take(i as int)),
                    decreases n - i,
                {
                    let pkg = &self.all_roots[i];
                    let ghost t = heads.take(i + 1);
                    assert(t.drop_last() =~= heads.take(i as int));
                    assert(t.last() == heads[i as int]);
                    if name_matches(&query, pkg.name.as_str()) {
                        let kind = ItemKind::AllPkgRoot {
                            version: pkg.version.clone(),
                            impact: self.impact_of(pkg.name.as_str()),
                        };
                        self.push_root(&pkg.name, kind, &mut out);
                    }
                    i = i + 1;
                }
                assert(heads.take(n as int) =~= heads);
            },
        }
        out
    }
}

/// What `expand_current` does: the row under the cursor is expanded when
/// it has children.
pub open spec fn expanded_current(s: AppState, t: AppState) -> bool {
    let row = s.visible_spec()[s.cursor as int];
    &&& t.expanded@ == if row.has_children && !row.is_cycle {
        s.expanded@.insert(row.name, ())
    } else {
        s.expanded@
    }
    &&& t == (AppState { expanded: t.expanded, ..s })
}

/// What `collapse_or_go_to_parent` does: an expanded row under the cursor
/// is collapsed and the cursor kept on the list; otherwise the cursor goes
/// to the nearest row above that is one level less deep.
pub open spec fn collapsed_or_went_to_parent(s: AppState, t: AppState) -> bool {
    let rows = s.visible_spec();
    let row = rows[s.cursor as int];
    if row.is_expanded {
        let collapsed = AppState { expanded: t.expanded, ..s };
        &&& t.expanded@ == s.expanded@.remove(row.name)
        &&& t == (AppState { cursor: clamped(s.cursor, collapsed.visible_spec().len()), ..collapsed })
    } else if row.depth > 0 {
        t == (AppState {
            cursor: match last_at_depth(rows, s.cursor as int, (row.depth - 1) as nat) {
                Some(p) => p as usize,
                None => s.cursor,
            },
            ..s
        })
    } else {
        t == s
    }
}

/// What `toggle_transposed` does: the direction flips, the roots are sorted
/// by the impact in the new direction, nothing stays expanded and the
/// cursor goes to the top.
pub open spec fn transposed_toggled(s: AppState, t: AppState) -> bool {
    &&& t.transposed == !s.transposed
    &&& all_pkg_views(t.all_roots@) == sorted_by_insertion(
        all_pkg_views(s.all_roots@),
        all_roots_order(!s.transposed, s.impacts@, s.dep_impacts@),
    )
    &&& update_views(t.roots@) == sorted_by_insertion(
        update_views(s.roots@),
        roots_order(!s.transposed, s.impacts@, s.dep_impacts@),
    )
    &&& t.expanded@ == Map::<Seq<char>, ()>::empty()
    &&& t == (AppState {
        roots: t.roots,
        all_roots: t.all_roots,
        transposed: t.transposed,
        expanded: t.expanded,
        cursor: 0,
        ..s
    })
}

/// The cursor moved back onto the list when it is past its end.
pub open spec fn clamped(cursor: usize, len: nat) -> usize {
    if cursor >= len {
        if len == 0 {
            0
        } else {
            (len - 1) as usize
        }
    } else {
        cursor
    }
}

/// The last position before `end` with a row at `depth`.
pub open spec fn last_at_depth(rows: Seq<RowView>, end: int, depth: nat) -> Option<int>
    decreases end,
{
    if end <= 0 {
        None
    } else if rows[end - 1].depth == depth {
        Some(end - 1)
    } else {
        last_at_depth(rows, end - 1, depth)
    }
}

/// What `resort` does: both lists of roots are sorted by impact in the
/// current direction, and nothing else changes.
pub open spec fn resorted(s: AppState, t: AppState) -> bool {
    &&& all_pkg_views(t.all_roots@) == sorted_by_insertion(
        all_pkg_views(s.all_roots@),
        all_roots_order(s.transposed, s.impacts@, s.dep_impacts@),
    )
    &&& update_views(t.roots@) == sorted_by_insertion(
        update_views(s.roots@),
        roots_order(s.transposed, s.impacts@, s.dep_impacts@),
    )
    &&& t == (AppState { roots: t.roots, all_roots: t.all_roots, ..s })
}

impl AppState {
    /// Sorts both lists of roots by impact in the current direction.
    pub fn resort(&mut self)
        ensures
            resorted(*old(self), *final(self)),
    {
        let mut all: Vec<AllPkgInfo> = Vec::new();
        std::mem::swap(&mut all, &mut self.all_roots);
        let mut roots: Vec<UpdateInfo> = Vec::new();
        std::mem::swap(&mut roots, &mut self.roots);
        let t = self.transposed;
        let imp = &self.impacts;
        let dep = &self.dep_impacts;
        let ghost all_lt = all_roots_order(t, imp@, dep@);
        let ghost roots_lt = roots_order(t, imp@, dep@);
        let ghost all_exec_lt = |a: AllPkgInfo, b: AllPkgInfo| all_lt(all_pkg_view(a), all_pkg_view(b));
        let ghost roots_exec_lt = |a: UpdateInfo, b: UpdateInfo| roots_lt(update_view(a), update_view(b));
        let ghost all0 = all@;
        let ghost roots0 = roots@;
        let sorted_all = insertion_sort(
            all,
            |a: &AllPkgInfo, b: &AllPkgInfo| -> (r: bool) ensures r == all_roots_order(t, imp@, dep@)(all_pkg_view(*a), all_pkg_view(*b)) { let ia = lookup_impact_by(t, imp, dep, a.name.as_str()); let ib = lookup_impact_by(t, imp, dep, b.name.as_str()); ib < ia || (ia == ib && compare_names(a.name.as_str(), b.name.as_str()) == NameOrder::Less) },
            Ghost(all_exec_lt),
        );
        let sorted_roots = insertion_sort(
            roots,
            |a: &UpdateInfo, b: &UpdateInfo| -> (r: bool) ensures r == roots_order(t, imp@, dep@)(update_view(*a), update_view(*b)) { let ia = lookup_impact_by(t, imp, dep, a.name.as_str()); let ib = lookup_impact_by(t, imp, dep, b.name.as_str()); ib < ia },
            Ghost(roots_exec_lt),
        );
        proof {
            crate::sort::lemma_sorted_map(all0, |r: AllPkgInfo| all_pkg_view(r), all_exec_lt, all_lt);
            crate::sort::lemma_sorted_map(roots0, |r: UpdateInfo| update_view(r), roots_exec_lt, roots_lt);
        }
        self.all_roots = sorted_all;
        self.roots = sorted_roots;
    }

    /// Moves the cursor back onto the list when it is past its end.
    pub fn clamp_cursor(&mut self)
        ensures
            *final(self) == (AppState {
                cursor: clamped(old(self).cursor, old(self).visible_spec().len()),
                ..*old(self)
            }),
    {
        let len = self.visible().len();
        if self.cursor >= len {
            self.cursor = if len == 0 {
                0
            } else {
                len - 1
            };
        }
    }

    /// Moves the cursor one row up, if it is not on the first.
    pub fn move_up(&mut self)
        ensures
            *final(self) == (AppState {
                cursor: if old(self).cursor > 0 {
                    (old(self).cursor - 1) as usize
                } else {
                    old(self).cursor
                },
                ..*old(self)
            }),
    {
        if self.cursor > 0 {
            self.cursor -= 1;
        }
    }

    /// Moves the cursor one row down, if there is a row below it.
    pub fn move_down(&mut self)
        ensures
            *final(self) == (AppState {
                cursor: if old(self).cursor + 1 < old(self).visible_spec().len() {
                    (old(self).cursor + 1) as usize
                } else {
                    old(self).cursor
                },
                ..*old(self)
            }),
    {
        let len = self.visible().len();
        if len > 0 && self.cursor < len - 1 {
            self.cursor += 1;
        }
    }

    /// Expands the row under the cursor when it has children.
    pub fn expand_current(&mut self)
        requires
            old(self).cursor < old(self).visible_spec().len(),
        ensures
            expanded_current(*old(self), *final(self)),
    {
        let vis = self.visible();
        let item = &vis[self.cursor];
        assert(item@ == rows_of(vis@)[self.cursor as int]);
        if item.has_children && !item.is_cycle {
            self.expanded.insert(item.name.clone(), ());
        }
    }

    /// Collapses the row under the cursor when it is expanded; otherwise
    /// moves the cursor to the nearest row above at one level less deep.
    pub fn collapse_or_go_to_parent(&mut self)
        requires
            old(self).cursor < old(self).visible_spec().len(),
        ensures
            collapsed_or_went_to_parent(*old(self), *final(self)),
    {
        let vis = self.visible();
        let ghost rows = rows_of(vis@);
        let item = &vis[self.cursor];
        assert(item@ == rows[self.cursor as int]);
        let depth = item.depth;
        if item.is_expanded {
            self.expanded.remove(item.name.as_str());
            self.clamp_cursor();
        } else if depth > 0 {
            let mut p = self.cursor;
            while p > 0 && vis[p - 1].depth != depth - 1
                invariant
                    p <= old(self).cursor,
                    rows == rows_of(vis@),
                    rows.len() == vis@.len(),
                    old(self).cursor < rows.len(),
                    depth == rows[old(self).cursor as int].depth,
                    depth > 0,
                    last_at_depth(rows, old(self).cursor as int, (depth - 1) as nat)
                        == last_at_depth(rows, p as int, (depth - 1) as nat),
                    *self == *old(self),
                decreases p,
            {
                assert(vis@[p - 1]@ == rows[p - 1]);
                p = p - 1;
            }
            if p > 0 {
                assert(vis@[p - 1]@ == rows[p - 1]);
                self.cursor = p - 1;
            }
        }
    }

    /// Switches between pending updates and all packages; the cursor goes
    /// to the top.
    pub fn toggle_mode(&mut self)
        ensures
            *final(self) == (AppState {
                mode: match old(self).mode {
                    Mode::Updates => Mode::AllPackages,
                    Mode::AllPackages => Mode::Updates,
                },
                cursor: 0,
                ..*old(self)
            }),
    {
        self.mode = match self.mode {
            Mode::Updates => Mode::AllPackages,
            Mode::AllPackages => Mode::Updates,
        };
        self.cursor = 0;
    }
}

/// The impact of every package: the size of its closure.
pub open spec fn impact_map(db: Map<Seq<char>, Package>, deps: bool) -> Map<Seq<char>, usize> {
    Map::new(|k: Seq<char>| db.contains_key(k), |k: Seq<char>| closure(db, deps, k).len() as usize)
}

/// Computes the impact of every package, via `required_by`, or with `deps`
/// via `depends_on`.
pub fn compute_impacts(packages: &PackageDb, deps: bool) -> (r: NameMap<usize>)
    ensures
        r@ == impact_map(packages@, deps),
{
    let n = packages.len();
    let ghost ks = packages.keys();
    let mut m: NameMap<usize> = NameMap::new();
    let mut i: usize = 0;
    assert(m@ =~= Map::new(|k: Seq<char>| ks.take(0).contains(k), |k: Seq<char>| closure(packages@, deps, k).len() as usize));
    while i < n
        invariant
            n == ks.len(),
            ks == packages.keys(),
            packages.listed(),
            i <= n,
            m@ == Map::new(|k: Seq<char>| ks.take(i as int).contains(k), |k: Seq<char>| closure(packages@, deps, k).len() as usize),
        decreases n - i,
    {
        let (k, _) = packages.entry(i);
        let size = if deps {
            dep_dag_size(k.as_str(), packages)
        } else {
            dag_size(k.as_str(), packages)
        };
        let ghost before = m@;
        m.insert(k.clone(), size);
        proof {
            let t0 = ks.take(i as int);
            let t1 = ks.take(i + 1);
            assert(t1 =~= t0.push(ks[i as int]));
            t0.lemma_push_to_set_commute(ks[i as int]);
            assert forall|x: Seq<char>| t1.contains(x) <==> (t0.contains(x) || x == ks[i as int]) by {
                assert(t1.to_set().contains(x) == t1.contains(x));
                assert(t0.to_set().contains(x) == t0.contains(x));
            }
            assert(m@ =~= Map::new(|k: Seq<char>| ks.take(i + 1).contains(k), |k: Seq<char>| closure(packages@, deps, k).len() as usize));
        }
        i = i + 1;
    }
    proof {
        assert(ks.take(n as int) =~= ks);
        assert(m@ =~= impact_map(packages@, deps));
    }
    m
}

/// The installed packages in name order, with their version and impact.
pub open spec fn package_rows(packages: &PackageDb, impacts: Map<Seq<char>, usize>) -> Seq<AllPkgView> {
    Seq::new(
        packages.keys().len(),
        |i: int| (packages.keys()[i], packages.values()[i].version@, impact_in(impacts, packages.keys()[i])),
    )
}

/// The rows of the all-packages list, in name order.
fn all_packages_list(packages: &PackageDb, impacts: &NameMap<usize>) -> (r: Vec<AllPkgInfo>)
    ensures
        all_pkg_views(r@) == package_rows(packages, impacts@),
{
    let n = packages.len();
    let mut out: Vec<AllPkgInfo> = Vec::new();
    let mut i: usize = 0;
    let ghost rows = package_rows(packages, impacts@);
    while i < n
        invariant
            n == packages.keys().len(),
            rows == package_rows(packages, impacts@),
            i <= n,
            all_pkg_views(out@) == rows.take(i as int),
        decreases n - i,
    {
        let (k, p) = packages.entry(i);
        let info = AllPkgInfo {
            name: k.clone(),
            version: p.version.clone(),
            impact: lookup_impact(impacts, k.as_str()),
        };
        let ghost before = all_pkg_views(out@);
        out.push(info);
        assert(all_pkg_views(out@) =~= before.push(all_pkg_view(info)));
        assert(rows.take(i + 1) =~= rows.take(i as int).push(rows[i as int]));
        i = i + 1;
    }
    assert(rows.take(n as int) =~= rows);
    out
}

/// Updates are listed by their impact, highest first; equal impacts keep
/// their order.
pub open spec fn by_update_impact() -> spec_fn(UpdateView, UpdateView) -> bool {
    |a: UpdateView, b: UpdateView| b.3 < a.3
}

/// Installed packages are listed by their impact, highest first, then by name.
pub open spec fn by_package_impact() -> spec_fn(AllPkgView, AllPkgView) -> bool {
    |a: AllPkgView, b: AllPkgView| b.2 < a.2 || (a.2 == b.2 && name_lt(a.0, b.0))
}

/// The pending updates `name old -> new`, with the impact of each.
pub open spec fn update_rows(raw: Seq<(String, String, String)>, impacts: Map<Seq<char>, usize>) -> Seq<UpdateView> {
    raw.map_values(|u: (String, String, String)| (u.0@, u.1@, u.2@, impact_in(impacts, u.0@)))
}

/// The depgraph file: the installed packages by name.
pub struct Depgraph {
    pub packages: PackageDb,
}

/// Which list the viewer opens on: the pending updates when there are any,
/// otherwise all packages when a depgraph was found; with neither there is
/// nothing to show (`None`).
pub fn initial_mode(has_updates: bool, has_depgraph: bool) -> (r: Option<Mode>)
    ensures
        r == (if has_updates {
            Some(Mode::Updates)
        } else if has_depgraph {
            Some(Mode::AllPackages)
        } else {
            None::<Mode>
        }),
{
    if has_updates {
        Some(Mode::Updates)
    } else if has_depgraph {
        Some(Mode::AllPackages)
    } else {
        None
    }
}

/// The state the viewer starts in: updates and packages sorted by impact,
/// nothing expanded, the cursor on the first row.
pub fn build_state(
    updates_raw: Vec<(String, String, String)>,
    depgraph: Option<Depgraph>,
    initial_mode: Mode,
) -> (st: AppState)
    ensures
        st.packages@ == match depgraph {
            Some(d) => d.packages@,
            None => Map::<Seq<char>, Package>::empty(),
        },
        st.impacts@ == impact_map(st.packages@, false),
        st.dep_impacts@ == impact_map(st.packages@, true),
        update_views(st.roots@) == sorted_by_insertion(update_rows(updates_raw@, st.impacts@), by_update_impact()),
        all_pkg_views(st.all_roots@) == sorted_by_insertion(package_rows(&st.packages, st.impacts@), by_package_impact()),
        st.expanded@ == Map::<Seq<char>, ()>::empty(),
        st.cursor == 0,
        st.mode == initial_mode,
        !st.transposed,
        !st.update_succeeded,
        st.info_popup is None,
        st.search is None,
        !st.show_help,
        !st.show_groups,
        forall|x: UpdateView|
            #[trigger] update_views(st.roots@).contains(x) <==> (x.3 == impact_in(impact_map(st.packages@, false), x.0)
                && exists|j: int|
                0 <= j < updates_raw@.len() && (#[trigger] updates_raw@[j]).0@ == x.0 && updates_raw@[j].1@ == x.1
                    && updates_raw@[j].2@ == x.2),
        st.roots@.len() == updates_raw@.len(),
        forall|x: AllPkgView|
            #[trigger] all_pkg_views(st.all_roots@).contains(x) <==> (st.packages@.contains_key(x.0) && x.1
                == st.packages@[x.0].version@ && x.2 == impact_in(impact_map(st.packages@, false), x.0)),
        st.all_roots@.len() == st.packages@.dom().len(),
{
    let packages = match depgraph {
        Some(d) => d.packages,
        None => NameMap::new(),
    };
    let impacts = compute_impacts(&packages, false);
    let ghost raw = updates_raw@;
    let mut rows: Vec<UpdateInfo> = Vec::new();
    let mut raw_left = updates_raw;
    let n = raw_left.len();
    let mut i: usize = 0;
    let ghost target = update_rows(raw, impacts@);
    while i < n
        invariant
            n == raw.len(),
            i <= n,
            raw_left@ == raw.skip(i as int),
            target == update_rows(raw, impacts@),
            update_views(rows@) == target.take(i as int),
        decreases n - i,
    {
        let (name, old_version, new_version) = raw_left.remove(0);
        assert(raw.skip(i as int)[0] == raw[i as int]);
        assert(raw_left@ =~= raw.skip(i + 1));
        let impact = lookup_impact(&impacts, name.as_str());
        let info = UpdateInfo { name, old_version, new_version, impact };
        let ghost before = update_views(rows@);
        rows.push(info);
        assert(update_views(rows@) =~= before.push(update_view(info)));
        assert(target.take(i + 1) =~= target.take(i as int).push(target[i as int]));
        i = i + 1;
    }
    assert(target.take(n as int) =~= target);
    let ghost rows0 = rows@;
    let ghost exec_lt = |a: UpdateInfo, b: UpdateInfo| by_update_impact()(update_view(a), update_view(b));
    let roots = insertion_sort(
        rows,
        |a: &UpdateInfo, b: &UpdateInfo| -> (r: bool) ensures r == by_update_impact()(update_view(*a), update_view(*b)) { b.impact < a.impact },
        Ghost(exec_lt),
    );
    proof {
        crate::sort::lemma_sorted_map(rows0, |r: UpdateInfo| update_view(r), exec_lt, by_update_impact());
    }
    let all = all_packages_list(&packages, &impacts);
    let ghost all0 = all@;
    let ghost all_exec_lt = |a: AllPkgInfo, b: AllPkgInfo| by_package_impact()(all_pkg_view(a), all_pkg_view(b));
    let all_roots = insertion_sort(
        all,
        |a: &AllPkgInfo, b: &AllPkgInfo| -> (r: bool) ensures r == by_package_impact()(all_pkg_view(*a), all_pkg_view(*b)) { b.impact < a.impact || (a.impact == b.impact && compare_names(a.name.as_str(), b.name.as_str()) == NameOrder::Less) },
        Ghost(all_exec_lt),
    );
    proof {
        crate::sort::lemma_sorted_map(all0, |r: AllPkgInfo| all_pkg_view(r), all_exec_lt, by_package_impact());
    }
    let dep_impacts = compute_impacts(&packages, true);
    let _ = packages.len();
    proof {
        let imp = impacts@;
        assert forall|x: UpdateView| #[trigger] update_views(roots@).contains(x) <==> (x.3 == impact_in(imp, x.0)
            && exists|j: int| 0 <= j < raw.len() && (#[trigger] raw[j]).0@ == x.0 && raw[j].1@ == x.1 && raw[j].2@ == x.2) by {
            crate::laws::lemma_start_updates(raw, imp, x);
        }
        crate::laws::lemma_start_updates(raw, imp, (Seq::empty(), Seq::empty(), Seq::empty(), 0));
        lemma_by_package_impact_order();
        assert forall|x: AllPkgView| #[trigger] all_pkg_views(all_roots@).contains(x) <==> (packages@.contains_key(x.0)
            && x.1 == packages@[x.0].version@ && x.2 == impact_in(imp, x.0)) by {
            crate::laws::lemma_package_list(packages, imp, by_package_impact(), x);
        }
        crate::laws::lemma_package_list(packages, imp, by_package_impact(), (Seq::empty(), Seq::empty(), 0));
    }
    AppState {
        roots,
        all_roots,
        packages,
        impacts,
        dep_impacts,
        expanded: NameMap::new(),
        cursor: 0,
        mode: initial_mode,
        transposed: false,
        update_succeeded: false,
        info_popup: None,
        search: None,
        show_help: false,
        show_groups: false,
    }
}

proof fn lemma_by_package_impact_order()
    ensures
        crate::sort::strict_weak_order(by_package_impact()),
{
    crate::laws::lemma_new_packages_by_impact(Seq::empty());
    assert forall|a: AllPkgView, b: AllPkgView, c: AllPkgView|
        #[trigger] by_package_impact()(a, b) && #[trigger] by_package_impact()(b, c) implies by_package_impact()(a, c) by {
        crate::names::lemma_name_order(a.0, b.0, c.0);
    }
    assert forall|a: AllPkgView, b: AllPkgView, c: AllPkgView|
        !#[trigger] by_package_impact()(a, b) && !#[trigger] by_package_impact()(b, c) implies !by_package_impact()(a, c) by {
        crate::names::lemma_name_order(a.0, b.0, c.0);
        crate::names::lemma_name_order(b.0, a.0, c.0);
        crate::names::lemma_name_order(c.0, b.0, a.0);
        crate::names::lemma_name_order(a.0, c.0, b.0);
        crate::names::lemma_name_order(b.0, c.0, a.0);
    }
    assert forall|a: AllPkgView| !#[trigger] by_package_impact()(a, a) by {
        crate::names::lemma_name_order(a.0, a.0, a.0);
    }
}

/// The updates kept when the installed packages change: those still
/// installed, with their impact looked up anew.
pub open spec fn kept_updates(roots: Seq<UpdateView>, db: Map<Seq<char>, Package>, impacts: Map<Seq<char>, usize>) -> Seq<UpdateView> {
    roots.filter(|u: UpdateView| db.contains_key(u.0)).map_values(
        |u: UpdateView| (u.0, u.1, u.2, impact_in(impacts, u.0)),
    )
}

impl AppState {
    /// Switches the tree between `required_by` and `depends_on`: the roots
    /// are sorted by the impact in the new direction, nothing stays
    /// expanded and the cursor goes to the top.
    pub fn toggle_transposed(&mut self)
        ensures
            transposed_toggled(*old(self), *final(self)),
    {
        self.transposed = !self.transposed;
        self.resort();
        self.expanded = NameMap::new();
        self.cursor = 0;
    }

    /// Takes in a new set of installed packages: impacts are computed
    /// anew, updates of packages no longer installed are dropped, names no
    /// longer installed are no longer expanded, the roots are sorted again
    /// and the cursor is moved back onto the list.
    pub fn reload_packages(&mut self, packages: PackageDb)
        ensures
            final(self).packages == packages,
            final(self).impacts@ == impact_map(packages@, false),
            final(self).dep_impacts@ == impact_map(packages@, true),
            final(self).expanded@.dom() == old(self).expanded@.dom().intersect(packages@.dom()),
            all_pkg_views(final(self).all_roots@) == sorted_by_insertion(
                package_rows(&packages, impact_map(packages@, false)),
                all_roots_order(old(self).transposed, impact_map(packages@, false), impact_map(packages@, true)),
            ),
            update_views(final(self).roots@) == sorted_by_insertion(
                kept_updates(update_views(old(self).roots@), packages@, impact_map(packages@, false)),
                roots_order(old(self).transposed, impact_map(packages@, false), impact_map(packages@, true)),
            ),
            final(self).cursor == clamped(old(self).cursor, final(self).visible_spec().len()),
            final(self).mode == old(self).mode,
            final(self).transposed == old(self).transposed,
            final(self).update_succeeded == old(self).update_succeeded,
            final(self).info_popup == old(self).info_popup,
            final(self).search == old(self).search,
            final(self).show_help == old(self).show_help,
            final(self).show_groups == old(self).show_groups,
            forall|x: UpdateView|
                #[trigger] update_views(final(self).roots@).contains(x) <==> (packages@.contains_key(x.0) && x.3
                    == impact_in(impact_map(packages@, false), x.0) && exists|j: int|
                    0 <= j < old(self).roots@.len() && (#[trigger] old(self).roots@[j]).name@ == x.0
                        && old(self).roots@[j].old_version@ == x.1 && old(self).roots@[j].new_version@ == x.2),
            forall|x: AllPkgView|
                #[trigger] all_pkg_views(final(self).all_roots@).contains(x) <==> (packages@.contains_key(x.0) && x.1
                    == packages@[x.0].version@ && x.2 == impact_in(impact_map(packages@, false), x.0)),
            final(self).all_roots@.len() == packages@.dom().len(),
    {
        let ghost old_expanded = self.expanded@.dom();
        let ghost roots0 = self.roots@;
        let impacts = compute_impacts(&packages, false);
        let dep_impacts = compute_impacts(&packages, true);
        let all_roots = all_packages_list(&packages, &impacts);
        let ghost imp = impacts@;
        // Keep the updates of packages that are still installed.
        let mut old_roots: Vec<UpdateInfo> = Vec::new();
        std::mem::swap(&mut old_roots, &mut self.roots);
        let ghost r0 = update_views(old_roots@);
        let ghost keep = |u: UpdateView| packages@.contains_key(u.0);
        let ghost refresh = |u: UpdateView| (u.0, u.1, u.2, impact_in(imp, u.0));
        let n = old_roots.len();
        let mut roots: Vec<UpdateInfo> = Vec::new();
        let mut i: usize = 0;
        assert(r0.take(0) =~= Seq::<UpdateView>::empty());
        assert(update_views(roots@) =~= r0.take(0).filter(keep).map_values(refresh)) by {
            reveal_with_fuel(Seq::filter, 1);
        }
        while i < n
            invariant
                n == old_roots@.len(),
                i <= n,
                r0 == update_views(old_roots@),
                imp == impacts@,
                forall|u: UpdateView| #[trigger] keep(u) == packages@.contains_key(u.0),
                forall|u: UpdateView| #[trigger] refresh(u) == (u.0, u.1, u.2, impact_in(imp, u.0)),
                update_views(roots@) == r0.take(i as int).filter(keep).map_values(refresh),
            decreases n - i,
        {
            let root = &old_roots[i];
            let ghost t = r0.take(i + 1);
            assert(t.drop_last() =~= r0.take(i as int));
            assert(t.last() == update_view(*root));
            let ghost last = t.last();
            assert(last.0 == root.name@);
            assert(keep(last) == packages@.contains_key(root.name@));
            if packages.contains_key(root.name.as_str()) {
                let info = UpdateInfo {
                    name: root.name.clone(),
                    old_version: root.old_version.clone(),
                    new_version: root.new_version.clone(),
                    impact: lookup_impact(&impacts, root.name.as_str()),
                };
                let ghost before = update_views(roots@);
                roots.push(info);
                assert(update_views(roots@) =~= before.push(update_view(info)));
                assert(t.filter(keep) == r0.take(i as int).filter(keep).push(t.last())) by {
                    reveal_with_fuel(Seq::filter, 1);
                    assert(keep(t.last()));
                }
                assert(t.filter(keep).map_values(refresh) =~= r0.take(i as int).filter(keep).map_values(refresh).push(refresh(t.last())));
            } else {
                assert(t.filter(keep) == r0.take(i as int).filter(keep)) by {
                    reveal_with_fuel(Seq::filter, 1);
                    assert(!keep(t.last()));
                }
            }
            i = i + 1;
        }
        assert(r0.take(n as int) =~= r0);
        // Forget expanded names that are no longer installed.
        let m = self.expanded.len();
        let ghost eks = self.expanded.keys();
        let mut kept = NameSet::new();
        let mut j: usize = 0;
        while j < m
            invariant
                m == eks.len(),
                eks == self.expanded.keys(),
                self.expanded.listed(),
                j <= m,
                kept@.dom() == eks.take(j as int).to_set().intersect(packages@.dom()),
            decreases m - j,
        {
            let (k, _) = self.expanded.entry(j);
            let ghost t0 = eks.take(j as int);
            assert(eks.take(j + 1) =~= t0.push(eks[j as int]));
            proof {
                t0.lemma_push_to_set_commute(eks[j as int]);
            }
            if packages.contains_key(k.as_str()) {
                kept.insert(k.clone(), ());
            }
            assert(kept@.dom() =~= eks.take(j + 1).to_set().intersect(packages@.dom()));
            j = j + 1;
        }
        assert(eks.take(m as int) =~= eks);
        assert(kept@.dom() =~= old_expanded.intersect(packages@.dom()));
        self.impacts = impacts;
        self.dep_impacts = dep_impacts;
        self.all_roots = all_roots;
        self.roots = roots;
        self.expanded = kept;
        self.packages = packages;
        self.resort();
        self.clamp_cursor();
        let _ = self.packages.len();
        proof {
            let imp = impact_map(self.packages@, false);
            let al = all_roots_order(self.transposed, imp, impact_map(self.packages@, true));
            crate::laws::lemma_impact_then_name(|a: AllPkgView| impact_by(self.transposed, imp, impact_map(self.packages@, true), a.0), al);
            assert forall|x: AllPkgView| #[trigger] all_pkg_views(self.all_roots@).contains(x) <==> (self.packages@.contains_key(x.0)
                && x.1 == self.packages@[x.0].version@ && x.2 == impact_in(imp, x.0)) by {
                crate::laws::lemma_package_list(self.packages, imp, al, x);
            }
            crate::laws::lemma_package_list(self.packages, imp, al, (Seq::empty(), Seq::empty(), 0));
            let olds = update_views(roots0);
            assert forall|x: UpdateView|
                #[trigger] update_views(self.roots@).contains(x) <==> (packages@.contains_key(x.0) && x.3
                    == impact_in(impact_map(packages@, false), x.0) && exists|j: int|
                    0 <= j < roots0.len() && (#[trigger] roots0[j]).name@ == x.0 && roots0[j].old_version@ == x.1
                        && roots0[j].new_version@ == x.2) by {
                crate::laws::lemma_reload_keeps_updates(olds, packages@, self.transposed, x);
                if exists|j: int| 0 <= j < olds.len() && (#[trigger] olds[j]).0 == x.0 && olds[j].1 == x.1 && olds[j].2 == x.2 {
                    let j = choose|j: int| 0 <= j < olds.len() && (#[trigger] olds[j]).0 == x.0 && olds[j].1 == x.1 && olds[j].2 == x.2;
                    assert(olds[j] == update_view(roots0[j]));
                }
                if exists|j: int| 0 <= j < roots0.len() && (#[trigger] roots0[j]).name@ == x.0 && roots0[j].old_version@ == x.1
                        && roots0[j].new_version@ == x.2 {
                    let j = choose|j: int| 0 <= j < roots0.len() && (#[trigger] roots0[j]).name@ == x.0 && roots0[j].old_version@ == x.1
                        && roots0[j].new_version@ == x.2;
                    assert(olds[j] == update_view(roots0[j]));
                }
            }
        }
    }
}

} // verus!
