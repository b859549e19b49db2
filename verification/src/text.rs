//! Text handling for command output: characters, lines, words.

use vstd::prelude::*;

verus! {

/// Appends `c` to `s` (`String::push`).
#[verifier::external_body]
pub(crate) fn push_char(s: &mut String, c: char)
    ensures
        final(s)@ == old(s)@.push(c),
{
    s.push(c);
}

/// The characters of `s`.
pub fn chars_of(s: &str) -> (r: Vec<char>)
    ensures
        r@ == s@,
{
    let mut r: Vec<char> = Vec::new();
    for c in it: s.chars()
        invariant
            r@ == it.seq().take(it.index() as int),
    {
        r.push(c);
    }
    r
}

/// The string made of `cs[from..to]`.
pub fn string_from(cs: &Vec<char>, from: usize, to: usize) -> (r: String)
    requires
        from <= to <= cs@.len(),
    ensures
        r@ == cs@.subrange(from as int, to as int),
{
    let mut r = String::new();
    let mut i = from;
    while i < to
        invariant
            from <= i <= to <= cs@.len(),
            r@ == cs@.subrange(from as int, i as int),
        decreases to - i,
    {
        push_char(&mut r, cs[i]);
        assert(cs@.subrange(from as int, i + 1) =~= cs@.subrange(from as int, i as int).push(cs@[i as int]));
        i = i + 1;
    }
    r
}

/// The characters with the Unicode `White_Space` property, those for which
/// `char::is_whitespace` holds.
pub open spec fn is_space(c: char) -> bool {
    let u = c as u32;
    ||| 0x09 <= u <= 0x0d
    ||| u == 0x20
    ||| u == 0x85
    ||| u == 0xa0
    ||| u == 0x1680
    ||| 0x2000 <= u <= 0x200a
    ||| u == 0x2028
    ||| u == 0x2029
    ||| u == 0x202f
    ||| u == 0x205f
    ||| u == 0x3000
}

/// Whether `c` is white space.
pub fn is_whitespace(c: char) -> (b: bool)
    ensures
        b == is_space(c),
{
    let u = c as u32;
    (0x09 <= u && u <= 0x0d) || u == 0x20 || u == 0x85 || u == 0xa0 || u == 0x1680 || (0x2000 <= u
        && u <= 0x200a) || u == 0x2028 || u == 0x2029 || u == 0x202f || u == 0x205f || u == 0x3000
}

/// The maximal runs of non-space characters of `s`, in order.
pub open spec fn words(s: Seq<char>) -> Seq<Seq<char>>
    decreases s.len(),
{
    if s.len() == 0 {
        Seq::empty()
    } else {
        let w = words(s.drop_last());
        let c = s.last();
        if is_space(c) {
            w
        } else if s.len() >= 2 && !is_space(s[s.len() - 2]) {
            w.drop_last().push(w.last().push(c))
        } else {
            w.push(seq![c])
        }
    }
}

/// The views of a list of strings.
pub open spec fn views(v: Seq<String>) -> Seq<Seq<char>> {
    v.map_values(|s: String| s@)
}

/// Splits `s` at white space, as `str::split_whitespace` does.
pub fn split_whitespace(s: &str) -> (r: Vec<String>)
    ensures
        views(r@) == words(s@),
{
    let cs = chars_of(s);
    let n = cs.len();
    let mut out: Vec<String> = Vec::new();
    let mut cur = String::new();
    let mut i: usize = 0;
    assert(cs@.take(0) =~= Seq::<char>::empty());
    while i < n
        invariant
            n == cs@.len(),
            cs@ == s@,
            i <= n,
            words(cs@.take(i as int)) == if cur@.len() > 0 {
                views(out@).push(cur@)
            } else {
                views(out@)
            },
            cur@.len() > 0 <==> (i > 0 && !is_space(cs@[i - 1])),
        decreases n - i,
    {
        let c = cs[i];
        let ghost t = cs@.take(i + 1);
        assert(t.drop_last() =~= cs@.take(i as int));
        assert(t.last() == c);
        if is_whitespace(c) {
            if !cur.as_str().is_empty() {
                let ghost before = views(out@);
                let mut w = String::new();
                std::mem::swap(&mut w, &mut cur);
                out.push(w);
                assert(views(out@) =~= before.push(w@));
            }
        } else {
            if i > 0 {
                assert(t[t.len() - 2] == cs@[i - 1]);
            }
            let ghost before = views(out@);
            let ghost old_cur = cur@;
            push_char(&mut cur, c);
            proof {
                if old_cur.len() > 0 {
                    assert(before.push(old_cur).drop_last() =~= before);
                    assert(before.push(old_cur).last() == old_cur);
                } else {
                    assert(cur@ =~= seq![c]);
                }
            }
        }
        i = i + 1;
    }
    if !cur.as_str().is_empty() {
        let ghost before = views(out@);
        out.push(cur);
        assert(views(out@) =~= before.push(cur@));
    }
    assert(cs@.take(n as int) =~= cs@);
    out
}

/// The pieces of `s` between newlines; there is one more piece than newlines.
pub open spec fn pieces(s: Seq<char>) -> Seq<Seq<char>>
    decreases s.len(),
{
    if s.len() == 0 {
        seq![Seq::empty()]
    } else {
        let p = pieces(s.drop_last());
        if s.last() == '\n' {
            p.push(Seq::empty())
        } else {
            p.drop_last().push(p.last().push(s.last()))
        }
    }
}

/// A line without the carriage return of a `\r\n` ending.
pub open spec fn without_cr(l: Seq<char>) -> Seq<char> {
    if l.len() > 0 && l.last() == '\r' {
        l.drop_last()
    } else {
        l
    }
}

/// The lines of `s`, as `str::lines` gives them: split at `\n` or `\r\n`,
/// the line ending not included; a final line ending adds no empty line.
pub open spec fn lines(s: Seq<char>) -> Seq<Seq<char>> {
    let p = pieces(s);
    let ended = p.drop_last().map_values(|l: Seq<char>| without_cr(l));
    if p.last().len() == 0 {
        ended
    } else {
        ended.push(p.last())
    }
}

proof fn lemma_pieces_nonempty(s: Seq<char>)
    ensures
        pieces(s).len() >= 1,
    decreases s.len(),
{
    if s.len() > 0 {
        lemma_pieces_nonempty(s.drop_last());
    }
}

/// Splits `s` into lines, as `str::lines` does.
pub fn split_lines(s: &str) -> (r: Vec<String>)
    ensures
        views(r@) == lines(s@),
{
    let cs = chars_of(s);
    let n = cs.len();
    let mut out: Vec<String> = Vec::new();
    let mut cur = String::new();
    let mut i: usize = 0;
    assert(cs@.take(0) =~= Seq::<char>::empty());
    while i < n
        invariant
            n == cs@.len(),
            cs@ == s@,
            i <= n,
            pieces(cs@.take(i as int)) == views(out@).push(cur@),
        decreases n - i,
    {
        let c = cs[i];
        let ghost t = cs@.take(i + 1);
        assert(t.drop_last() =~= cs@.take(i as int));
        assert(t.last() == c);
        if c == '\n' {
            let ghost before = views(out@);
            let mut w = String::new();
            std::mem::swap(&mut w, &mut cur);
            out.push(w);
            assert(views(out@) =~= before.push(w@));
            assert(views(out@).push(cur@) =~= before.push(w@).push(Seq::<char>::empty()));
        } else {
            let ghost before = views(out@);
            push_char(&mut cur, c);
            assert(views(out@).push(cur@) =~= before.push(cur@));
        }
        i = i + 1;
    }
    assert(cs@.take(n as int) =~= cs@);
    let ghost p = pieces(s@);
    assert(p.drop_last() =~= views(out@));
    let mut r: Vec<String> = Vec::new();
    let m = out.len();
    let mut j: usize = 0;
    while j < m
        invariant
            m == out@.len(),
            j <= m,
            views(r@) == views(out@).take(j as int).map_values(|l: Seq<char>| without_cr(l)),
        decreases m - j,
    {
        let l = chars_of(out[j].as_str());
        let k = l.len();
        let line = if k > 0 && l[k - 1] == '\r' {
            string_from(&l, 0, k - 1)
        } else {
            string_from(&l, 0, k)
        };
        proof {
            assert(l@ == views(out@)[j as int]);
            assert(l@.subrange(0, k as int) =~= l@);
            assert(l@.subrange(0, k - 1) =~= l@.drop_last());
        }
        let ghost before = views(r@);
        r.push(line);
        assert(views(r@) =~= before.push(line@));
        assert(views(out@).take(j + 1) =~= views(out@).take(j as int).push(views(out@)[j as int]));
        j = j + 1;
    }
    assert(views(out@).take(m as int) =~= views(out@));
    if !cur.as_str().is_empty() {
        let ghost before = views(r@);
        r.push(cur);
        assert(views(r@) =~= before.push(p.last()));
    }
    r
}

/// `needle` occurs in `hay` at position `i`.
pub open spec fn occurs_at(hay: Seq<char>, needle: Seq<char>, i: int) -> bool {
    0 <= i && i + needle.len() <= hay.len() && hay.subrange(i, i + needle.len()) == needle
}

/// `needle` occurs somewhere in `hay`.
pub open spec fn occurs_in(hay: Seq<char>, needle: Seq<char>) -> bool {
    exists|i: int| occurs_at(hay, needle, i)
}

/// The first position from `from` on at which `needle` occurs in `hay`.
pub open spec fn first_at(hay: Seq<char>, needle: Seq<char>, from: int) -> Option<int>
    decreases hay.len() + 1 - from,
{
    if from < 0 || from > hay.len() {
        None
    } else if occurs_at(hay, needle, from) {
        Some(from)
    } else {
        first_at(hay, needle, from + 1)
    }
}

proof fn lemma_first_at_none(hay: Seq<char>, needle: Seq<char>, from: int)
    requires
        0 <= from,
        from + needle.len() > hay.len(),
    ensures
        first_at(hay, needle, from) is None,
    decreases hay.len() + 1 - from,
{
    if from <= hay.len() {
        lemma_first_at_none(hay, needle, from + 1);
    }
}

pub proof fn lemma_first_at_occurs(hay: Seq<char>, needle: Seq<char>, from: int)
    requires
        0 <= from,
    ensures
        match first_at(hay, needle, from) {
            Some(i) => from <= i && occurs_at(hay, needle, i),
            None => forall|j: int| from <= j ==> !occurs_at(hay, needle, j),
        },
    decreases hay.len() + 1 - from,
{
    if from <= hay.len() && !occurs_at(hay, needle, from) {
        lemma_first_at_occurs(hay, needle, from + 1);
    }
}

/// The first position from `from` on at which `needle` occurs in `hay`, as
/// `str::find` gives it, in characters.
pub fn find_from(hay: &Vec<char>, needle: &Vec<char>, from: usize) -> (r: Option<usize>)
    requires
        from <= hay@.len(),
    ensures
        match r {
            Some(i) => first_at(hay@, needle@, from as int) == Some(i as int),
            None => first_at(hay@, needle@, from as int) is None,
        },
{
    let n = hay.len();
    let m = needle.len();
    if m > n - from {
        proof {
            lemma_first_at_none(hay@, needle@, from as int);
        }
        return None;
    }
    let mut i = from;
    while i <= n - m
        invariant
            n == hay@.len(),
            m == needle@.len(),
            m <= n,
            from <= i,
            first_at(hay@, needle@, from as int) == first_at(hay@, needle@, i as int),
        decreases n - i,
    {
        let mut k: usize = 0;
        while k < m && hay[i + k] == needle[k]
            invariant
                i + m <= n,
                n == hay@.len(),
                m == needle@.len(),
                k <= m,
                hay@.subrange(i as int, i + k) == needle@.take(k as int),
            decreases m - k,
        {
            assert(hay@.subrange(i as int, i + k + 1) =~= hay@.subrange(i as int, i + k as int).push(hay@[i + k]));
            assert(needle@.take(k + 1) =~= needle@.take(k as int).push(needle@[k as int]));
            k = k + 1;
        }
        if k == m {
            assert(needle@.take(m as int) =~= needle@);
            return Some(i);
        }
        assert(!occurs_at(hay@, needle@, i as int)) by {
            if occurs_at(hay@, needle@, i as int) {
                assert(hay@.subrange(i as int, i + m)[k as int] == hay@[i + k]);
            }
        }
        i = i + 1;
    }
    proof {
        lemma_first_at_none(hay@, needle@, i as int);
    }
    None
}

/// Whether `needle` occurs in `hay`, as `str::contains` tells.
pub fn contains_text(hay: &str, needle: &str) -> (b: bool)
    ensures
        b == occurs_in(hay@, needle@),
{
    let h = chars_of(hay);
    let nd = chars_of(needle);
    proof {
        lemma_first_at_occurs(h@, nd@, 0);
    }
    match find_from(&h, &nd, 0) {
        Some(i) => true,
        None => false,
    }
}

/// `s` without white space at either end.
pub open spec fn trimmed(s: Seq<char>) -> Seq<char>
    decreases s.len(),
{
    if s.len() == 0 {
        s
    } else if is_space(s[0]) {
        trimmed(s.drop_first())
    } else if is_space(s.last()) {
        trimmed(s.drop_last())
    } else {
        s
    }
}

/// `cs[from..to]` without white space at either end, as `str::trim` gives it.
pub fn trim_range(cs: &Vec<char>, from: usize, to: usize) -> (r: String)
    requires
        from <= to <= cs@.len(),
    ensures
        r@ == trimmed(cs@.subrange(from as int, to as int)),
{
    let mut a = from;
    let mut b = to;
    while a < b && (is_whitespace(cs[a]) || is_whitespace(cs[b - 1]))
        invariant
            from <= a <= b <= to <= cs@.len(),
            trimmed(cs@.subrange(from as int, to as int)) == trimmed(cs@.subrange(a as int, b as int)),
        decreases b - a,
    {
        let ghost t = cs@.subrange(a as int, b as int);
        if is_whitespace(cs[a]) {
            assert(t[0] == cs@[a as int]);
            assert(t.drop_first() =~= cs@.subrange(a + 1, b as int));
            a = a + 1;
        } else {
            assert(t[0] == cs@[a as int]);
            assert(t.last() == cs@[b - 1]);
            assert(t.drop_last() =~= cs@.subrange(a as int, b - 1));
            b = b - 1;
        }
    }
    string_from(cs, a, b)
}

/// The lower-case form of `s` under the full Unicode case mapping, as
/// `str::to_lowercase` computes it.
pub uninterp spec fn lowercase(s: Seq<char>) -> Seq<char>;

/// `str::to_lowercase`. The result depends on `s` alone, and the lower
/// case of the empty text is empty; the Unicode case tables that decide
/// the rest are not stated here.
#[verifier::external_body]
pub(crate) fn to_lowercase(s: &str) -> (r: String)
    ensures
        r@ == lowercase(s@),
        s@.len() == 0 ==> r@.len() == 0,
{
    s.to_lowercase()
}

/// A copy of a list of strings.
pub fn clone_strings(v: &Vec<String>) -> (r: Vec<String>)
    ensures
        r@ == v@,
{
    let mut r: Vec<String> = Vec::new();
    let n = v.len();
    let mut i: usize = 0;
    while i < n
        invariant
            n == v@.len(),
            i <= n,
            r@ == v@.take(i as int),
        decreases n - i,
    {
        r.push(v[i].clone());
        assert(v@.take(i + 1) =~= v@.take(i as int).push(v@[i as int]));
        i = i + 1;
    }
    assert(v@.take(n as int) =~= v@);
    r
}

/// `s` without its last character, as `String::pop` leaves it.
pub fn without_last_char(s: &String) -> (r: String)
    ensures
        r@ == if s@.len() > 0 {
            s@.drop_last()
        } else {
            s@
        },
{
    let cs = chars_of(s.as_str());
    let n = cs.len();
    if n > 0 {
        let r = string_from(&cs, 0, n - 1);
        assert(cs@.subrange(0, n - 1) =~= cs@.drop_last());
        r
    } else {
        let r = string_from(&cs, 0, 0);
        assert(cs@.subrange(0, 0) =~= cs@);
        r
    }
}

} // verus!
