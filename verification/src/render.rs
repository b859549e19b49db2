//! The text of the rows on screen.

use vstd::prelude::*;
use crate::state::{VisibleItem, RowView, KindView, ItemKind, UpdateInfo, AllPkgInfo, Mode};
use crate::text::{push_char, chars_of};
use crate::names::name_bytes;
use crate::graph::{Package, PackageDb};
use crate::text::views;

verus! {

/// `n` spaces.
pub open spec fn spaces(n: nat) -> Seq<char> {
    Seq::new(n, |i: int| ' ')
}

/// `s` followed by spaces up to `w` characters, as `{:<w$}` formats it.
pub open spec fn pad_end(s: Seq<char>, w: nat) -> Seq<char> {
    if s.len() >= w {
        s
    } else {
        s + spaces((w - s.len()) as nat)
    }
}

/// `s` after spaces up to `w` characters, as `{:>w$}` formats it.
pub open spec fn pad_start(s: Seq<char>, w: nat) -> Seq<char> {
    if s.len() >= w {
        s
    } else {
        spaces((w - s.len()) as nat) + s
    }
}

/// The character of a decimal digit.
pub open spec fn digit(d: nat) -> char {
    if d == 0 {
        '0'
    } else if d == 1 {
        '1'
    } else if d == 2 {
        '2'
    } else if d == 3 {
        '3'
    } else if d == 4 {
        '4'
    } else if d == 5 {
        '5'
    } else if d == 6 {
        '6'
    } else if d == 7 {
        '7'
    } else if d == 8 {
        '8'
    } else {
        '9'
    }
}

/// The decimal digits of `n`, as `{}` formats a number.
pub open spec fn decimal(n: nat) -> Seq<char>
    decreases n,
{
    if n < 10 {
        seq![digit(n)]
    } else {
        decimal(n / 10).push(digit(n % 10))
    }
}

/// The tree marker of a row: nothing for a leaf or a repeated package, a
/// down arrow for an expanded row, a right arrow otherwise.
pub open spec fn icon(row: RowView) -> Seq<char> {
    if row.is_cycle || !row.has_children {
        " "@
    } else if row.is_expanded {
        "\u{25bc}"@
    } else {
        "\u{25b6}"@
    }
}

/// The mark of a repeated package.
pub open spec fn cycle_suffix(row: RowView) -> Seq<char> {
    if row.is_cycle {
        " (\u{21ba})"@
    } else {
        Seq::empty()
    }
}

/// Two spaces per level of depth.
pub open spec fn indent(depth: nat) -> Seq<char>
    decreases depth,
{
    if depth == 0 {
        Seq::empty()
    } else {
        indent((depth - 1) as nat) + "  "@
    }
}

/// The text of a row. Updates show the name and old version padded to the
/// widths of the longest update name and old version, then the new
/// version; installed packages show the name padded to the width of the
/// longest package name, then the version; dependencies show the name and
/// the installed version, `?` when it is not installed. All rows start
/// with the indentation, the tree marker and the impact right-aligned in
/// four columns.
pub open spec fn row_text(row: RowView, name_w: nat, old_w: nat, all_name_w: nat) -> Seq<char> {
    let head = |impact: usize| indent(row.depth) + icon(row) + " "@ + pad_start(decimal(impact as nat), 4) + "  "@;
    match row.kind {
        KindView::Root { old_version, new_version, impact } => head(impact) + pad_end(row.name, name_w) + "  "@
            + pad_end(old_version, old_w) + "  ->  "@ + new_version + cycle_suffix(row),
        KindView::AllPkgRoot { version, impact } => head(impact) + pad_end(row.name, all_name_w) + "  "@
            + version + cycle_suffix(row),
        KindView::Dep { installed_version, impact } => head(impact) + row.name + cycle_suffix(row) + "  "@
            + match installed_version {
            Some(v) => v,
            None => "?"@,
        },
    }
}

/// Appends `t` to `s`.
pub fn push_str(s: &mut String, t: &str)
    ensures
        final(s)@ == old(s)@ + t@,
{
    let cs = chars_of(t);
    let n = cs.len();
    let ghost s0 = s@;
    let mut i: usize = 0;
    while i < n
        invariant
            n == cs@.len(),
            cs@ == t@,
            i <= n,
            s@ == s0 + cs@.take(i as int),
        decreases n - i,
    {
        push_char(s, cs[i]);
        assert(cs@.take(i + 1) =~= cs@.take(i as int).push(cs@[i as int]));
        assert(s0 + cs@.take(i + 1) =~= (s0 + cs@.take(i as int)).push(cs@[i as int]));
        i = i + 1;
    }
    assert(cs@.take(n as int) =~= cs@);
}

/// Appends `n` spaces.
fn push_spaces(s: &mut String, n: usize)
    ensures
        final(s)@ == old(s)@ + spaces(n as nat),
{
    let ghost s0 = s@;
    let mut i: usize = 0;
    assert(spaces(0) =~= Seq::<char>::empty());
    assert(s0 + spaces(0) =~= s0);
    while i < n
        invariant
            i <= n,
            s@ == s0 + spaces(i as nat),
        decreases n - i,
    {
        push_char(s, ' ');
        assert(s0 + spaces((i + 1) as nat) =~= (s0 + spaces(i as nat)).push(' '));
        i = i + 1;
    }
}

fn digit_char(d: usize) -> (c: char)
    requires
        d < 10,
    ensures
        c == digit(d as nat),
{
    if d == 0 {
        '0'
    } else if d == 1 {
        '1'
    } else if d == 2 {
        '2'
    } else if d == 3 {
        '3'
    } else if d == 4 {
        '4'
    } else if d == 5 {
        '5'
    } else if d == 6 {
        '6'
    } else if d == 7 {
        '7'
    } else if d == 8 {
        '8'
    } else {
        '9'
    }
}

/// The decimal digits of `n`.
pub fn decimal_digits(n: usize) -> (r: Vec<char>)
    ensures
        r@ == decimal(n as nat),
{
    let mut m = n;
    let mut acc: Vec<char> = Vec::new();
    assert(decimal(n as nat) =~= decimal(m as nat) + acc@);
    while m >= 10
        invariant
            decimal(n as nat) == decimal(m as nat) + acc@,
        decreases m,
    {
        let d = m % 10;
        let c = digit_char(d);
        acc.insert(0, c);
        assert(decimal(m as nat) == decimal((m / 10) as nat).push(c));
        assert(decimal((m / 10) as nat) + acc@ =~= decimal((m / 10) as nat).push(c) + acc@.drop_first());
        m = m / 10;
    }
    let c = digit_char(m);
    acc.insert(0, c);
    assert(acc@ =~= seq![c] + acc@.drop_first());
    acc
}

/// Appends `s` padded with spaces at the end to `w` characters.
fn push_padded_end(out: &mut String, s: &str, w: usize)
    ensures
        final(out)@ == old(out)@ + pad_end(s@, w as nat),
{
    let n = chars_of(s).len();
    push_str(out, s);
    if n < w {
        push_spaces(out, w - n);
    }
}

/// The text of a row, as the list on screen shows it.
pub fn format_row(item: &VisibleItem, name_w: usize, old_w: usize, all_name_w: usize) -> (r: String)
    ensures
        r@ == row_text(item@, name_w as nat, old_w as nat, all_name_w as nat),
{
    let ghost row = item@;
    let mut out = String::new();
    let mut d: usize = 0;
    assert(out@ == indent(0));
    while d < item.depth
        invariant
            d <= item.depth,
            out@ == indent(d as nat),
        decreases item.depth - d,
    {
        push_str(&mut out, "  ");
        d = d + 1;
    }
    if item.is_cycle || !item.has_children {
        push_str(&mut out, " ");
    } else if item.is_expanded {
        push_str(&mut out, "\u{25bc}");
    } else {
        push_str(&mut out, "\u{25b6}");
    }
    push_str(&mut out, " ");
    let impact = match &item.kind {
        ItemKind::Root { impact, .. } => *impact,
        ItemKind::AllPkgRoot { impact, .. } => *impact,
        ItemKind::Dep { impact, .. } => *impact,
    };
    let digits = decimal_digits(impact);
    if digits.len() < 4 {
        push_spaces(&mut out, 4 - digits.len());
    }
    let mut k: usize = 0;
    let ghost before_digits = out@;
    while k < digits.len()
        invariant
            k <= digits@.len(),
            out@ == before_digits + digits@.take(k as int),
        decreases digits@.len() - k,
    {
        push_char(&mut out, digits[k]);
        assert(digits@.take(k + 1) =~= digits@.take(k as int).push(digits@[k as int]));
        assert(before_digits + digits@.take(k + 1) =~= (before_digits + digits@.take(k as int)).push(digits@[k as int]));
        k = k + 1;
    }
    assert(digits@.take(digits@.len() as int) =~= digits@);
    push_str(&mut out, "  ");
    let ghost head = out@;
    assert(head =~= indent(row.depth) + icon(row) + " "@ + pad_start(decimal(impact as nat), 4) + "  "@);
    match &item.kind {
        ItemKind::Root { old_version, new_version, .. } => {
            push_padded_end(&mut out, item.name.as_str(), name_w);
            push_str(&mut out, "  ");
            push_padded_end(&mut out, old_version.as_str(), old_w);
            push_str(&mut out, "  ->  ");
            push_str(&mut out, new_version.as_str());
        },
        ItemKind::AllPkgRoot { version, .. } => {
            push_padded_end(&mut out, item.name.as_str(), all_name_w);
            push_str(&mut out, "  ");
            push_str(&mut out, version.as_str());
        },
        ItemKind::Dep { .. } => {
            push_str(&mut out, item.name.as_str());
        },
    }
    if item.is_cycle {
        push_str(&mut out, " (\u{21ba})");
    }
    match &item.kind {
        ItemKind::Dep { installed_version, .. } => {
            push_str(&mut out, "  ");
            match installed_version {
                Some(v) => push_str(&mut out, v.as_str()),
                None => push_str(&mut out, "?"),
            }
        },
        _ => {},
    }
    proof {
        assert(out@ =~= row_text(row, name_w as nat, old_w as nat, all_name_w as nat));
    }
    out
}

/// The largest of some lengths; 10 when there are none.
pub open spec fn widest(lens: Seq<usize>) -> usize
    decreases lens.len(),
{
    if lens.len() == 0 {
        10
    } else if lens.len() == 1 {
        lens[0]
    } else if widest(lens.drop_last()) >= lens.last() {
        widest(lens.drop_last())
    } else {
        lens.last()
    }
}

/// The length in bytes of a string, as `str::len` gives it.
pub open spec fn byte_len(s: Seq<char>) -> usize {
    name_bytes(s).len() as usize
}

/// Names separated by a comma and a space.
pub open spec fn joined(gs: Seq<Seq<char>>) -> Seq<char>
    decreases gs.len(),
{
    if gs.len() == 0 {
        Seq::empty()
    } else if gs.len() == 1 {
        gs[0]
    } else {
        joined(gs.drop_last()) + ", "@ + gs.last()
    }
}

/// The group label of a package: its groups in brackets, after two
/// spaces; nothing for a package in no group or not installed.
pub open spec fn groups_text(db: Map<Seq<char>, Package>, name: Seq<char>) -> Seq<char> {
    if db.contains_key(name) && db[name].groups@.len() > 0 {
        "  ["@ + joined(views(db[name].groups@)) + "]"@
    } else {
        Seq::empty()
    }
}

/// The group label of the package `name`.
pub fn group_label(packages: &PackageDb, name: &str) -> (r: String)
    ensures
        r@ == groups_text(packages@, name@),
{
    let mut out = String::new();
    match packages.get(name) {
        Some(p) => {
            let gs = &p.groups;
            let n = gs.len();
            if n > 0 {
                let ghost v = views(gs@);
                push_str(&mut out, "  [");
                let mut i: usize = 0;
                let ghost start = out@;
                assert(start + joined(v.take(0)) =~= start);
                while i < n
                    invariant
                        n == gs@.len(),
                        v == views(gs@),
                        i <= n,
                        out@ == start + joined(v.take(i as int)),
                    decreases n - i,
                {
                    let ghost before = out@;
                    if i > 0 {
                        push_str(&mut out, ", ");
                    }
                    push_str(&mut out, gs[i].as_str());
                    proof {
                        let t = v.take(i + 1);
                        assert(t.drop_last() =~= v.take(i as int));
                        assert(t.last() == gs@[i as int]@);
                        if i == 0 {
                            assert(v.take(0) =~= Seq::<Seq<char>>::empty());
                            assert(joined(t) == t[0]);
                        }
                    }
                    i = i + 1;
                }
                assert(v.take(n as int) =~= v);
                push_str(&mut out, "]");
            }
        },
        None => {},
    }
    out
}

/// The text of a row, followed by the group label of its package when
/// the labels are shown.
pub fn labelled_row(
    item: &VisibleItem,
    name_w: usize,
    old_w: usize,
    all_name_w: usize,
    packages: &PackageDb,
    show_groups: bool,
) -> (r: String)
    ensures
        r@ == row_text(item@, name_w as nat, old_w as nat, all_name_w as nat) + if show_groups {
            groups_text(packages@, item.name@)
        } else {
            Seq::<char>::empty()
        },
{
    let mut out = format_row(item, name_w, old_w, all_name_w);
    let ghost base = out@;
    if show_groups {
        let label = group_label(packages, item.name.as_str());
        push_str(&mut out, label.as_str());
    } else {
        assert(out@ =~= base + Seq::<char>::empty());
    }
    out
}

/// The widths of the name and old-version columns of the updates, and of
/// the name column of all packages: the longest entry in bytes, or 10 for
/// an empty list.
pub fn column_widths(roots: &Vec<UpdateInfo>, all_roots: &Vec<AllPkgInfo>) -> (r: (usize, usize, usize))
    ensures
        r.0 == widest(roots@.map_values(|u: UpdateInfo| byte_len(u.name@))),
        r.1 == widest(roots@.map_values(|u: UpdateInfo| byte_len(u.old_version@))),
        r.2 == widest(all_roots@.map_values(|p: AllPkgInfo| byte_len(p.name@))),
{
    let ghost names = roots@.map_values(|u: UpdateInfo| byte_len(u.name@));
    let ghost olds = roots@.map_values(|u: UpdateInfo| byte_len(u.old_version@));
    let ghost alls = all_roots@.map_values(|p: AllPkgInfo| byte_len(p.name@));
    let mut wn: usize = 10;
    let mut wo: usize = 10;
    let n = roots.len();
    let mut i: usize = 0;
    assert(names.take(0) =~= Seq::<usize>::empty());
    assert(olds.take(0) =~= Seq::<usize>::empty());
    while i < n
        invariant
            n == roots@.len(),
            i <= n,
            names == roots@.map_values(|u: UpdateInfo| byte_len(u.name@)),
            olds == roots@.map_values(|u: UpdateInfo| byte_len(u.old_version@)),
            wn == widest(names.take(i as int)),
            wo == widest(olds.take(i as int)),
        decreases n - i,
    {
        let ln = roots[i].name.as_str().len();
        let lo = roots[i].old_version.as_str().len();
        assert(names.take(i + 1).drop_last() =~= names.take(i as int));
        assert(olds.take(i + 1).drop_last() =~= olds.take(i as int));
        assert(names.take(i + 1).last() == ln);
        assert(olds.take(i + 1).last() == lo);
        if i == 0 || ln > wn {
            wn = ln;
        }
        if i == 0 || lo > wo {
            wo = lo;
        }
        i = i + 1;
    }
    assert(names.take(n as int) =~= names);
    assert(olds.take(n as int) =~= olds);
    let mut wa: usize = 10;
    let m = all_roots.len();
    let mut j: usize = 0;
    assert(alls.take(0) =~= Seq::<usize>::empty());
    while j < m
        invariant
            m == all_roots@.len(),
            j <= m,
            alls == all_roots@.map_values(|p: AllPkgInfo| byte_len(p.name@)),
            wa == widest(alls.take(j as int)),
        decreases m - j,
    {
        let la = all_roots[j].name.as_str().len();
        assert(alls.take(j + 1).drop_last() =~= alls.take(j as int));
        assert(alls.take(j + 1).last() == la);
        if j == 0 || la > wa {
            wa = la;
        }
        j = j + 1;
    }
    assert(alls.take(m as int) =~= alls);
    (wn, wo, wa)
}

/// The title of the list: which packages it shows, and which way the tree goes.
pub open spec fn title_text(mode: Mode, transposed: bool) -> Seq<char> {
    let dir = if transposed {
        "deps\u{2193}"@
    } else {
        "used-by\u{2191}"@
    };
    match mode {
        Mode::Updates => " Pacman Updates ["@ + dir + "] \u{2014} impact  package  old \u{2192} new "@,
        Mode::AllPackages => " All Packages ["@ + dir + "] \u{2014} impact  package  version "@,
    }
}

/// The title of the list.
pub fn title(mode: Mode, transposed: bool) -> (r: String)
    ensures
        r@ == title_text(mode, transposed),
{
    let mut out = String::new();
    match mode {
        Mode::Updates => push_str(&mut out, " Pacman Updates ["),
        Mode::AllPackages => push_str(&mut out, " All Packages ["),
    }
    if transposed {
        push_str(&mut out, "deps\u{2193}");
    } else {
        push_str(&mut out, "used-by\u{2191}");
    }
    match mode {
        Mode::Updates => push_str(&mut out, "] \u{2014} impact  package  old \u{2192} new "),
        Mode::AllPackages => push_str(&mut out, "] \u{2014} impact  package  version "),
    }
    assert(out@ =~= title_text(mode, transposed));
    out
}

/// The key hints at the bottom of the screen: those of the search line
/// while it is open; otherwise those of the tree, noting a successful update.
pub open spec fn footer_text(searching: bool, mode: Mode, update_succeeded: bool) -> Seq<char> {
    if searching {
        "  \u{2191}\u{2193} navigate   enter confirm   esc cancel"@
    } else {
        let hint = match mode {
            Mode::Updates => "a all pkgs"@,
            Mode::AllPackages => "a updates"@,
        };
        let base = "  \u{2191}\u{2193} navigate   \u{2190}\u{2192} collapse/expand   i info   / search   r update   d remove   "@
            + hint + "   t transpose   h help   q quit"@;
        if update_succeeded {
            base + " (update succeeded)"@
        } else {
            base
        }
    }
}

/// The key hints at the bottom of the screen.
pub fn footer(searching: bool, mode: Mode, update_succeeded: bool) -> (r: String)
    ensures
        r@ == footer_text(searching, mode, update_succeeded),
{
    let mut out = String::new();
    if searching {
        push_str(&mut out, "  \u{2191}\u{2193} navigate   enter confirm   esc cancel");
    } else {
        push_str(&mut out, "  \u{2191}\u{2193} navigate   \u{2190}\u{2192} collapse/expand   i info   / search   r update   d remove   ");
        match mode {
            Mode::Updates => push_str(&mut out, "a all pkgs"),
            Mode::AllPackages => push_str(&mut out, "a updates"),
        }
        push_str(&mut out, "   t transpose   h help   q quit");
        if update_succeeded {
            push_str(&mut out, " (update succeeded)");
        }
    }
    assert(out@ =~= footer_text(searching, mode, update_succeeded));
    out
}

} // verus!
