//! Reading the output of `checkupdates` and of `pacman -Qi`.

use vstd::prelude::*;
use crate::graph::{Package, PackageDb};
use crate::namemap::NameMap;
use crate::names::{NameOrder, compare_names};
use crate::text::{
    views, words, lines, trimmed, first_at, occurs_in, split_lines, split_whitespace, chars_of,
    string_from, trim_range, find_from, contains_text,
};

verus! {

/// The updates that `checkupdates` lists, one per line in the form
/// `name old-version -> new-version`: each line with at least four words
/// gives its first, second and fourth word.
pub open spec fn update_entries(text: Seq<char>) -> Seq<(Seq<char>, Seq<char>, Seq<char>)> {
    lines(text).filter(|l: Seq<char>| words(l).len() >= 4).map_values(
        |l: Seq<char>| (words(l)[0], words(l)[1], words(l)[3]),
    )
}

/// The views of a list of string triples.
pub open spec fn triple_views(v: Seq<(String, String, String)>) -> Seq<(Seq<char>, Seq<char>, Seq<char>)> {
    v.map_values(|t: (String, String, String)| (t.0@, t.1@, t.2@))
}

/// Reads the pending updates from the output of `checkupdates`.
pub fn parse_checkupdates(output: &str) -> (r: Vec<(String, String, String)>)
    ensures
        triple_views(r@) == update_entries(output@),
{
    let ls = split_lines(output);
    let ghost lv = views(ls@);
    let ghost keep = |l: Seq<char>| words(l).len() >= 4;
    let ghost entry = |l: Seq<char>| (words(l)[0], words(l)[1], words(l)[3]);
    let n = ls.len();
    let mut out: Vec<(String, String, String)> = Vec::new();
    let mut i: usize = 0;
    assert(triple_views(out@) =~= lv.take(0).filter(keep).map_values(entry)) by {
        reveal_with_fuel(Seq::filter, 1);
    }
    while i < n
        invariant
            n == ls@.len(),
            lv == views(ls@),
            i <= n,
            forall|l: Seq<char>| #[trigger] keep(l) == (words(l).len() >= 4),
            forall|l: Seq<char>| #[trigger] entry(l) == (words(l)[0], words(l)[1], words(l)[3]),
            triple_views(out@) == lv.take(i as int).filter(keep).map_values(entry),
        decreases n - i,
    {
        let w = split_whitespace(ls[i].as_str());
        let ghost t = lv.take(i + 1);
        let ghost l = lv[i as int];
        assert(t.drop_last() =~= lv.take(i as int));
        assert(t.last() == l);
        assert(views(w@) == words(l));
        if w.len() >= 4 {
            let ghost before = triple_views(out@);
            assert(views(w@)[0] == w@[0]@ && views(w@)[1] == w@[1]@ && views(w@)[3] == w@[3]@);
            out.push((w[0].clone(), w[1].clone(), w[3].clone()));
            assert(t.filter(keep) == lv.take(i as int).filter(keep).push(l)) by {
                reveal_with_fuel(Seq::filter, 1);
                assert(keep(l));
            }
            assert(triple_views(out@) =~= before.push(entry(l)));
            assert(t.filter(keep).map_values(entry) =~= lv.take(i as int).filter(keep).map_values(entry).push(entry(l)));
        } else {
            assert(t.filter(keep) == lv.take(i as int).filter(keep)) by {
                reveal_with_fuel(Seq::filter, 1);
                assert(!keep(l));
            }
        }
        i = i + 1;
    }
    assert(lv.take(n as int) =~= lv);
    out
}

/// What `pacman -Qi` says of one package: its name, version, whether it was
/// installed explicitly, the packages that require it, and the packages it
/// depends on without their version constraints, and its groups.
pub struct QiRecord {
    pub name: String,
    pub version: String,
    pub explicit: bool,
    pub required_by: Vec<String>,
    pub depends_on: Vec<String>,
    pub groups: Vec<String>,
}

/// A record, as values.
pub type QiView = (Seq<char>, Seq<char>, bool, Seq<Seq<char>>, Seq<Seq<char>>, Seq<Seq<char>>);

pub open spec fn qi_view(r: QiRecord) -> QiView {
    (r.name@, r.version@, r.explicit, views(r.required_by@), views(r.depends_on@), views(r.groups@))
}

pub open spec fn qi_views(s: Seq<QiRecord>) -> Seq<QiView> {
    s.map_values(|r: QiRecord| qi_view(r))
}

/// The field that a line `Key : value` sets: the key without surrounding
/// space, and everything after the first ` : `. Lines that start with a
/// space continue a value and set nothing.
pub open spec fn field_of(line: Seq<char>) -> Option<(Seq<char>, Seq<char>)> {
    if line.len() > 0 && line[0] != ' ' {
        match first_at(line, " : "@, 0) {
            Some(i) => Some((trimmed(line.take(i)), line.skip(i + 3))),
            None => None,
        }
    } else {
        None
    }
}

/// A list field: its words, unless it is absent or `None`.
pub open spec fn list_field(f: Map<Seq<char>, Seq<char>>, key: Seq<char>) -> Seq<Seq<char>> {
    if f.contains_key(key) && f[key] != "None"@ {
        words(f[key])
    } else {
        Seq::empty()
    }
}

/// A dependency without its version constraint: what comes before the
/// first `>`, `<` or `=`.
pub open spec fn without_constraint(s: Seq<char>) -> Seq<char>
    decreases s.len(),
{
    if s.len() == 0 {
        s
    } else if s[0] == '>' || s[0] == '<' || s[0] == '=' {
        Seq::empty()
    } else {
        seq![s[0]] + without_constraint(s.drop_first())
    }
}

/// The record that the fields of one package make.
pub open spec fn record_of(f: Map<Seq<char>, Seq<char>>) -> QiView {
    (
        f["Name"@],
        if f.contains_key("Version"@) {
            f["Version"@]
        } else {
            Seq::empty()
        },
        f.contains_key("Install Reason"@) && occurs_in(f["Install Reason"@], "Explicitly"@),
        list_field(f, "Required By"@),
        list_field(f, "Depends On"@).map_values(|d: Seq<char>| without_constraint(d)),
        list_field(f, "Groups"@),
    )
}

/// Reading lines one by one: a field line sets a field; an empty line ends
/// a package, which makes a record when it has a name, and clears the fields.
pub open spec fn qi_fold(ls: Seq<Seq<char>>) -> (Map<Seq<char>, Seq<char>>, Seq<QiView>)
    decreases ls.len(),
{
    if ls.len() == 0 {
        (Map::empty(), Seq::empty())
    } else {
        let (f, r) = qi_fold(ls.drop_last());
        let line = ls.last();
        if line.len() == 0 {
            (Map::empty(), if f.contains_key("Name"@) { r.push(record_of(f)) } else { r })
        } else {
            match field_of(line) {
                Some((k, v)) => (f.insert(k, v), r),
                None => (f, r),
            }
        }
    }
}

/// The packages that the output of `pacman -Qi` describes, in order; the
/// output is read as if it ended with an empty line.
pub open spec fn qi_records(text: Seq<char>) -> Seq<QiView> {
    qi_fold(lines(text).push(Seq::empty())).1
}

/// The values of a map of strings.
pub open spec fn field_views(m: Map<Seq<char>, String>) -> Map<Seq<char>, Seq<char>> {
    Map::new(|k: Seq<char>| m.contains_key(k), |k: Seq<char>| m[k]@)
}

/// A dependency without its version constraint.
pub fn strip_constraint(s: &String) -> (r: String)
    ensures
        r@ == without_constraint(s@),
{
    let cs = chars_of(s.as_str());
    let n = cs.len();
    let mut i: usize = 0;
    assert(cs@.take(0) + cs@.skip(0) =~= cs@);
    assert(cs@.skip(0) =~= cs@);
    while i < n && cs[i] != '>' && cs[i] != '<' && cs[i] != '='
        invariant
            n == cs@.len(),
            i <= n,
            without_constraint(cs@) == cs@.take(i as int) + without_constraint(cs@.skip(i as int)),
        decreases n - i,
    {
        assert(cs@.skip(i as int).drop_first() =~= cs@.skip(i + 1));
        assert(cs@.take(i + 1) =~= cs@.take(i as int) + seq![cs@[i as int]]);
        assert(cs@.skip(i as int)[0] == cs@[i as int]);
        i = i + 1;
    }
    proof {
        if i < n {
            assert(cs@.skip(i as int)[0] == cs@[i as int]);
        } else {
            assert(cs@.skip(i as int).len() == 0);
        }
        assert(cs@.subrange(0, i as int) =~= cs@.take(i as int));
    }
    string_from(&cs, 0, i)
}

/// The words of a list field, unless it is absent or `None`.
fn read_list(fields: &NameMap<String>, key: &str) -> (r: Vec<String>)
    ensures
        views(r@) == list_field(field_views(fields@), key@),
{
    match fields.get(key) {
        Some(v) => {
            if compare_names(v.as_str(), "None") == NameOrder::Equal {
                Vec::new()
            } else {
                split_whitespace(v.as_str())
            }
        },
        None => Vec::new(),
    }
}

/// The record of the fields of one package.
fn make_record(fields: &NameMap<String>) -> (r: QiRecord)
    requires
        fields@.contains_key("Name"@),
    ensures
        qi_view(r) == record_of(field_views(fields@)),
{
    let ghost f = field_views(fields@);
    let name = match fields.get("Name") {
        Some(v) => v.clone(),
        None => String::new(),
    };
    let version = match fields.get("Version") {
        Some(v) => v.clone(),
        None => String::new(),
    };
    let explicit = match fields.get("Install Reason") {
        Some(v) => contains_text(v.as_str(), "Explicitly"),
        None => false,
    };
    let required_by = read_list(fields, "Required By");
    let deps = read_list(fields, "Depends On");
    let mut depends_on: Vec<String> = Vec::new();
    let n = deps.len();
    let mut i: usize = 0;
    let ghost target = views(deps@).map_values(|d: Seq<char>| without_constraint(d));
    while i < n
        invariant
            n == deps@.len(),
            i <= n,
            target == views(deps@).map_values(|d: Seq<char>| without_constraint(d)),
            views(depends_on@) == target.take(i as int),
        decreases n - i,
    {
        let d = strip_constraint(&deps[i]);
        let ghost before = views(depends_on@);
        depends_on.push(d);
        assert(views(depends_on@) =~= before.push(d@));
        assert(target.take(i + 1) =~= target.take(i as int).push(target[i as int]));
        i = i + 1;
    }
    assert(target.take(n as int) =~= target);
    let groups = read_list(fields, "Groups");
    QiRecord { name, version, explicit, required_by, depends_on, groups }
}

/// An empty line: the package read so far makes a record when it has a
/// name, and its fields are cleared.
fn end_package(fields: &mut NameMap<String>, out: &mut Vec<QiRecord>)
    ensures
        field_views(final(fields)@) == Map::<Seq<char>, Seq<char>>::empty(),
        qi_views(final(out)@) == if field_views(old(fields)@).contains_key("Name"@) {
            qi_views(old(out)@).push(record_of(field_views(old(fields)@)))
        } else {
            qi_views(old(out)@)
        },
{
    if fields.contains_key("Name") {
        let rec = make_record(fields);
        let ghost before = qi_views(out@);
        out.push(rec);
        assert(qi_views(out@) =~= before.push(qi_view(rec)));
    }
    *fields = NameMap::new();
    assert(field_views(fields@) =~= Map::<Seq<char>, Seq<char>>::empty());
}

/// Reads the packages from the output of `pacman -Qi`.
pub fn parse_pacman_qi(output: &str) -> (r: Vec<QiRecord>)
    ensures
        qi_views(r@) == qi_records(output@),
{
    let ls = split_lines(output);
    let ghost all = views(ls@);
    let sep = chars_of(" : ");
    let n = ls.len();
    let mut fields: NameMap<String> = NameMap::new();
    let mut out: Vec<QiRecord> = Vec::new();
    let mut i: usize = 0;
    assert(field_views(fields@) =~= Map::<Seq<char>, Seq<char>>::empty());
    assert(all.take(0) =~= Seq::<Seq<char>>::empty());
    while i < n
        invariant
            n == ls@.len(),
            all == views(ls@),
            sep@ == " : "@,
            i <= n,
            (field_views(fields@), qi_views(out@)) == qi_fold(all.take(i as int)),
        decreases n - i,
    {
        let line = chars_of(ls[i].as_str());
        let ghost t = all.take(i + 1);
        assert(t.drop_last() =~= all.take(i as int));
        assert(line@ == all[i as int]);
        assert(t.last() == all[i as int]);
        let ghost f0 = field_views(fields@);
        if line.len() == 0 {
            end_package(&mut fields, &mut out);
        } else if line[0] != ' ' {
            match find_from(&line, &sep, 0) {
                Some(idx) => {
                    proof {
                        crate::text::lemma_first_at_occurs(line@, sep@, 0);
                        reveal_strlit(" : ");
                    }
                    let key = trim_range(&line, 0, idx);
                    let value = string_from(&line, idx + 3, line.len());
                    assert(line@.subrange(0, idx as int) =~= line@.take(idx as int));
                    assert(line@.subrange(idx + 3, line@.len() as int) =~= line@.skip(idx + 3));
                    let ghost kv = key@;
                    let ghost vv = value@;
                    fields.insert(key, value);
                    assert(field_views(fields@) =~= f0.insert(kv, vv));
                },
                None => {},
            }
        }
        i = i + 1;
    }
    assert(all.take(n as int) =~= all);
    let ghost whole = all.push(Seq::<char>::empty());
    assert(whole.drop_last() =~= all);
    end_package(&mut fields, &mut out);
    out
}

/// The record's package, as the depgraph keeps it.
pub open spec fn package_of(r: QiRecord) -> Package {
    Package { version: r.version, required_by: r.required_by, depends_on: r.depends_on, groups: r.groups }
}

/// The packages of a list of records, a later record of the same name
/// replacing an earlier one.
pub open spec fn db_of(rs: Seq<QiRecord>) -> Map<Seq<char>, Package>
    decreases rs.len(),
{
    if rs.len() == 0 {
        Map::empty()
    } else {
        db_of(rs.drop_last()).insert(rs.last().name@, package_of(rs.last()))
    }
}

/// The installed packages that a list of records describes.
pub fn package_db(records: Vec<QiRecord>) -> (db: PackageDb)
    ensures
        db@ == db_of(records@),
        forall|i: int|
            0 <= i < records@.len() && (forall|j: int| i < j < records@.len() ==> records@[j].name@ != records@[i].name@)
                ==> {
                let r = #[trigger] records@[i];
                &&& db@.contains_key(r.name@)
                &&& db@[r.name@].version == r.version
                &&& db@[r.name@].required_by == r.required_by
                &&& db@[r.name@].depends_on == r.depends_on
                &&& db@[r.name@].groups == r.groups
            },
        forall|k: Seq<char>| #[trigger] db@.contains_key(k) ==> exists|i: int| 0 <= i < records@.len() && (#[trigger] records@[i]).name@ == k,
{
    proof {
        let rs = records@;
        assert forall|i: int|
            0 <= i < rs.len() && (forall|j: int| i < j < rs.len() ==> rs[j].name@ != rs[i].name@) implies {
                let r = #[trigger] rs[i];
                &&& db_of(rs).contains_key(r.name@)
                &&& db_of(rs)[r.name@].version == r.version
                &&& db_of(rs)[r.name@].required_by == r.required_by
                &&& db_of(rs)[r.name@].depends_on == r.depends_on
                &&& db_of(rs)[r.name@].groups == r.groups
            } by {
            assert forall|j: int| i < j < rs.len() implies (#[trigger] rs[j]).name@ != rs[i].name@ by {}
            crate::laws::lemma_records_give_packages(rs, i);
        }
        assert forall|k: Seq<char>| #[trigger] db_of(rs).contains_key(k) implies exists|i: int| 0 <= i < rs.len() && (#[trigger] rs[i]).name@ == k by {
            crate::laws::lemma_packages_come_from_records(rs, k);
        }
    }
    let ghost rs = records@;
    let mut rest = records;
    let mut db: PackageDb = NameMap::new();
    let n = rest.len();
    let mut i: usize = 0;
    assert(rs.take(0) =~= Seq::<QiRecord>::empty());
    assert(db@ =~= db_of(rs.take(0)));
    while i < n
        invariant
            n == rs.len(),
            i <= n,
            rest@ == rs.skip(i as int),
            db@ == db_of(rs.take(i as int)),
        decreases n - i,
    {
        let r = rest.remove(0);
        assert(rs.skip(i as int)[0] == rs[i as int]);
        assert(rest@ =~= rs.skip(i + 1));
        assert(rs.take(i + 1).drop_last() =~= rs.take(i as int));
        let QiRecord { name, version, explicit: _, required_by, depends_on, groups } = r;
        db.insert(name, Package { version, required_by, depends_on, groups });
        i = i + 1;
    }
    assert(rs.take(n as int) =~= rs);
    db
}

} // verus!
