//! Source-line lookup: the lines of each loaded file, by path, used to show
//! the code at a trace step's `file:line` location.
use vstd::prelude::*;
use dashmap::DashMap;
use crate::text::{chars_of, string_from_chars, texts_view};

verus! {

/// The lines that `s` splits into: at each `\n`, the text before it, less
/// one trailing `\r`; then the rest, if any.  `cur` is the line begun so far.
pub open spec fn scan_lines(s: Seq<char>, done: Seq<Seq<char>>, cur: Seq<char>) -> Seq<Seq<char>>
    decreases s.len(),
{
    if s.len() == 0 {
        if cur.len() == 0 {
            done
        } else {
            done.push(cur)
        }
    } else if s[0] == '\n' {
        scan_lines(s.drop_first(), done.push(strip_cr(cur)), Seq::empty())
    } else {
        scan_lines(s.drop_first(), done, cur.push(s[0]))
    }
}

pub open spec fn strip_cr(l: Seq<char>) -> Seq<char> {
    if l.len() > 0 && l.last() == '\r' {
        l.drop_last()
    } else {
        l
    }
}

/// The lines of a text, as `str::lines` gives them.
pub open spec fn lines_of(s: Seq<char>) -> Seq<Seq<char>> {
    scan_lines(s, Seq::empty(), Seq::empty())
}

/// The characters with the Unicode `White_Space` property.
pub open spec fn is_white(c: char) -> bool {
    c == '\t' || c == '\n' || c == '\u{0B}' || c == '\u{0C}' || c == '\r' || c == ' ' || c == '\u{85}'
        || c == '\u{A0}' || c == '\u{1680}' || ('\u{2000}' <= c && c <= '\u{200A}') || c == '\u{2028}'
        || c == '\u{2029}' || c == '\u{202F}' || c == '\u{205F}' || c == '\u{3000}'
}

pub open spec fn trim_start(s: Seq<char>) -> Seq<char>
    decreases s.len(),
{
    if s.len() > 0 && is_white(s[0]) {
        trim_start(s.drop_first())
    } else {
        s
    }
}

pub open spec fn trim_end(s: Seq<char>) -> Seq<char>
    decreases s.len(),
{
    if s.len() > 0 && is_white(s.last()) {
        trim_end(s.drop_last())
    } else {
        s
    }
}

/// `s` without leading and trailing white space.
pub open spec fn trimmed(s: Seq<char>) -> Seq<char> {
    trim_end(trim_start(s))
}

/// The first position of `c` in `s`.
pub open spec fn index_of(s: Seq<char>, c: char) -> Option<int>
    decreases s.len(),
{
    if s.len() == 0 {
        None
    } else if s[0] == c {
        Some(0)
    } else {
        match index_of(s.drop_first(), c) {
            Some(j) => Some(j + 1),
            None => None,
        }
    }
}

pub open spec fn all_digits(d: Seq<char>) -> bool {
    forall|i: int| 0 <= i < d.len() ==> '0' <= #[trigger] d[i] <= '9'
}

/// The number that the decimal digits `d` write.
pub open spec fn digits_value(d: Seq<char>) -> int
    decreases d.len(),
{
    if d.len() == 0 {
        0
    } else {
        digits_value(d.drop_last()) * 10 + (d.last() as int - '0' as int)
    }
}

/// `t` without a leading `+`.
pub open spec fn unsigned_part(t: Seq<char>) -> Seq<char> {
    if t.len() > 0 && t[0] == '+' {
        t.drop_first()
    } else {
        t
    }
}

/// `t` read as an unsigned number, as `str::parse::<usize>` reads it: an
/// optional `+`, then one or more decimal digits, of a value that fits.
pub open spec fn parse_usize(t: Seq<char>) -> Option<usize> {
    let u = unsigned_part(t);
    if u.len() > 0 && all_digits(u) && digits_value(u) <= usize::MAX {
        Some(digits_value(u) as usize)
    } else {
        None
    }
}

/// The file and line of a `file:line` location: the text before the first
/// `:`, and the number between it and the next `:`, if any.
pub open spec fn location_of(loc: Seq<char>) -> Option<(Seq<char>, usize)> {
    match index_of(loc, ':') {
        None => None,
        Some(i) => {
            let rest = loc.skip(i + 1);
            let field = match index_of(rest, ':') {
                Some(j) => rest.take(j),
                None => rest,
            };
            match parse_usize(field) {
                Some(n) => Some((loc.take(i), n)),
                None => None,
            }
        },
    }
}

/// The trimmed line `n` (from 1) of file `f`, if both exist.
pub open spec fn snippet_of(m: Map<Seq<char>, Seq<Seq<char>>>, f: Seq<char>, n: usize) -> Option<Seq<char>> {
    if n == 0 || !m.contains_key(f) || n > m[f].len() {
        None
    } else {
        Some(trimmed(m[f][n - 1]))
    }
}

/// The snippet at a `file:line` location.
pub open spec fn location_snippet(m: Map<Seq<char>, Seq<Seq<char>>>, loc: Seq<char>) -> Option<Seq<char>> {
    match location_of(loc) {
        Some((f, n)) => snippet_of(m, f, n),
        None => None,
    }
}

fn white(c: char) -> (r: bool)
    ensures
        r == is_white(c),
{
    c == '\t' || c == '\n' || c == '\u{0B}' || c == '\u{0C}' || c == '\r' || c == ' ' || c == '\u{85}'
        || c == '\u{A0}' || c == '\u{1680}' || ('\u{2000}' <= c && c <= '\u{200A}') || c == '\u{2028}'
        || c == '\u{2029}' || c == '\u{202F}' || c == '\u{205F}' || c == '\u{3000}'
}

/// `s` without leading and trailing white space, see [`trimmed`].
pub fn trim_text(s: &str) -> (r: String)
    ensures
        r@ == trimmed(s@),
{
    let cs = chars_of(s);
    let ghost v = cs@;
    let mut a: usize = 0;
    assert(v.skip(0) =~= v);
    while a < cs.len() && white(cs[a])
        invariant
            a <= cs.len(),
            v == cs@,
            trim_start(v) == trim_start(v.skip(a as int)),
        decreases cs.len() - a,
    {
        assert(v.skip(a as int).drop_first() =~= v.skip(a + 1));
        a = a + 1;
    }
    let mut b: usize = cs.len();
    assert(v.subrange(a as int, b as int) =~= v.skip(a as int));
    while b > a && white(cs[b - 1])
        invariant
            a <= b <= cs.len(),
            v == cs@,
            trim_start(v) == v.skip(a as int),
            trimmed(v) == trim_end(v.subrange(a as int, b as int)),
        decreases b,
    {
        assert(v.subrange(a as int, b as int).drop_last() =~= v.subrange(a as int, b - 1));
        b = b - 1;
    }
    let mut out: Vec<char> = Vec::new();
    let mut i: usize = a;
    while i < b
        invariant
            a <= i <= b <= cs.len(),
            v == cs@,
            out@ == v.subrange(a as int, i as int),
        decreases b - i,
    {
        out.push(cs[i]);
        assert(out@ =~= v.subrange(a as int, i + 1));
        i = i + 1;
    }
    string_from_chars(&out)
}

/// The lines of `content`, see [`lines_of`].
pub fn split_lines(content: &str) -> (r: Vec<String>)
    ensures
        texts_view(r@) == lines_of(content@),
{
    let cs = chars_of(content);
    let ghost v = cs@;
    let mut done: Vec<String> = Vec::new();
    let mut cur: Vec<char> = Vec::new();
    let mut i: usize = 0;
    assert(v.skip(0) =~= v);
    assert(texts_view(done@) =~= Seq::<Seq<char>>::empty());
    while i < cs.len()
        invariant
            i <= cs.len(),
            v == cs@,
            lines_of(v) == scan_lines(v.skip(i as int), texts_view(done@), cur@),
        decreases cs.len() - i,
    {
        assert(v.skip(i as int).drop_first() =~= v.skip(i + 1));
        assert(v.skip(i as int)[0] == cs[i as int]);
        if cs[i] == '\n' {
            if cur.len() > 0 && cur[cur.len() - 1] == '\r' {
                cur.pop();
            }
            let ghost before = texts_view(done@);
            let line = string_from_chars(&cur);
            done.push(line);
            assert(texts_view(done@) =~= before.push(line@));
            cur = Vec::new();
        } else {
            cur.push(cs[i]);
        }
        i = i + 1;
    }
    assert(v.skip(i as int) =~= Seq::<char>::empty());
    if cur.len() > 0 {
        let ghost before = texts_view(done@);
        let line = string_from_chars(&cur);
        done.push(line);
        assert(texts_view(done@) =~= before.push(line@));
    }
    done
}

proof fn lemma_digits_value_grows(d: Seq<char>, k: int)
    requires
        0 <= k <= d.len(),
        all_digits(d),
    ensures
        0 <= digits_value(d.take(k)) <= digits_value(d),
    decreases d.len() - k,
{
    if k < d.len() {
        let t = d.take(k + 1);
        assert(t.drop_last() =~= d.take(k));
        assert(t.last() == d[k]);
        lemma_digits_value_grows(d, k + 1);
    } else {
        assert(d.take(k) =~= d);
        lemma_digits_value_nonneg(d);
    }
}

proof fn lemma_digits_value_nonneg(d: Seq<char>)
    requires
        all_digits(d),
    ensures
        digits_value(d) >= 0,
    decreases d.len(),
{
    if d.len() > 0 {
        assert(all_digits(d.drop_last())) by {
            assert forall|i: int| 0 <= i < d.drop_last().len() implies '0' <= #[trigger] d.drop_last()[i] <= '9' by {
                assert(d.drop_last()[i] == d[i]);
            }
        }
        lemma_digits_value_nonneg(d.drop_last());
        assert('0' <= d[d.len() - 1] <= '9');
    }
}

/// Read an unsigned number, see [`parse_usize`].
pub fn parse_number(t: &Vec<char>) -> (r: Option<usize>)
    ensures
        r == parse_usize(t@),
{
    let start: usize = if t.len() > 0 && t[0] == '+' {
        1
    } else {
        0
    };
    let ghost u = unsigned_part(t@);
    assert(u =~= t@.skip(start as int));
    if start == t.len() {
        return None;
    }
    let mut value: usize = 0;
    let mut i: usize = start;
    assert(u.take(0) =~= Seq::<char>::empty());
    while i < t.len()
        invariant
            start <= i <= t.len(),
            u == t@.skip(start as int),
            u == unsigned_part(t@),
            all_digits(u.take(i - start)),
            value as int == digits_value(u.take(i - start)),
        decreases t.len() - i,
    {
        let c = t[i];
        let ghost k = (i - start) as int;
        assert(u[k] == c);
        assert(u.take(k + 1).drop_last() =~= u.take(k));
        assert(u.take(k + 1).last() == c);
        if c < '0' || c > '9' {
            assert(!all_digits(u)) by {
                assert(!('0' <= u[k] <= '9'));
            }
            assert(parse_usize(t@) is None);
            return None;
        }
        let d = (c as u32 - '0' as u32) as usize;
        assert(all_digits(u.take(k + 1))) by {
            assert forall|x: int| 0 <= x < k + 1 implies '0' <= #[trigger] u.take(k + 1)[x] <= '9' by {
                if x < k {
                    assert(u.take(k + 1)[x] == u.take(k)[x]);
                }
            }
        }
        match value.checked_mul(10) {
            Some(m) => match m.checked_add(d) {
                Some(n) => {
                    value = n;
                },
                None => {
                    proof {
                        if all_digits(u) {
                            lemma_digits_value_grows(u, k + 1);
                            assert(digits_value(u.take(k + 1)) == m + d);
                        }
                    }
                    return None;
                },
            },
            None => {
                proof {
                    if all_digits(u) {
                        lemma_digits_value_grows(u, k + 1);
                        assert(digits_value(u.take(k + 1)) == value * 10 + d);
                    }
                }
                return None;
            },
        }
        i = i + 1;
    }
    assert(u.take(i - start) =~= u);
    Some(value)
}

pub open spec fn offset(o: Option<int>, d: int) -> Option<int> {
    match o {
        Some(j) => Some(j + d),
        None => None,
    }
}

/// The first position from `from` on where `c` stands in `v`.
fn find_char(v: &Vec<char>, from: usize, c: char) -> (r: Option<usize>)
    requires
        from <= v.len(),
    ensures
        match r {
            Some(j) => from <= j < v.len() && index_of(v@.skip(from as int), c) == Some(j - from),
            None => index_of(v@.skip(from as int), c) is None,
        },
{
    let mut i: usize = from;
    assert(offset(index_of(v@.skip(from as int), c), 0) == index_of(v@.skip(from as int), c));
    while i < v.len()
        invariant
            from <= i <= v.len(),
            index_of(v@.skip(from as int), c) == offset(index_of(v@.skip(i as int), c), i - from),
        decreases v.len() - i,
    {
        assert(v@.skip(i as int)[0] == v[i as int]);
        if v[i] == c {
            return Some(i);
        }
        assert(v@.skip(i as int).drop_first() =~= v@.skip(i + 1));
        i = i + 1;
    }
    assert(v@.skip(i as int) =~= Seq::<char>::empty());
    None
}

fn copy_range(v: &Vec<char>, a: usize, b: usize) -> (r: Vec<char>)
    requires
        a <= b <= v.len(),
    ensures
        r@ == v@.subrange(a as int, b as int),
{
    let mut r: Vec<char> = Vec::new();
    let mut i: usize = a;
    while i < b
        invariant
            a <= i <= b <= v.len(),
            r@ == v@.subrange(a as int, i as int),
        decreases b - i,
    {
        r.push(v[i]);
        assert(r@ =~= v@.subrange(a as int, i + 1));
        i = i + 1;
    }
    r
}

/// The file and line of a `file:line` location, see [`location_of`].
pub fn parse_location(loc: &str) -> (r: Option<(String, usize)>)
    ensures
        match r {
            Some((f, n)) => location_of(loc@) == Some((f@, n)),
            None => location_of(loc@) is None,
        },
{
    let v = chars_of(loc);
    assert(v@.skip(0) =~= v@);
    match find_char(&v, 0, ':') {
        None => None,
        Some(i) => {
            let ghost rest = v@.skip(i + 1);
            let end = match find_char(&v, i + 1, ':') {
                Some(j) => j,
                None => v.len(),
            };
            let field = copy_range(&v, i + 1, end);
            proof {
                match index_of(rest, ':') {
                    Some(j) => {
                        assert(field@ =~= rest.take(j));
                    },
                    None => {
                        assert(field@ =~= rest);
                    },
                }
            }
            match parse_number(&field) {
                Some(n) => {
                    let file = copy_range(&v, 0, i);
                    assert(file@ =~= v@.take(i as int));
                    Some((string_from_chars(&file), n))
                },
                None => None,
            }
        },
    }
}

/// dashmap's concurrent map, held opaque; its contents are [`file_lines`].
#[verifier::external_type_specification]
#[verifier::external_body]
#[verifier::reject_recursive_types(K)]
#[verifier::reject_recursive_types(V)]
#[verifier::reject_recursive_types(S)]
pub struct ExDashMap<K, V, S>(DashMap<K, V, S>);

/// The lines stored under each path.
pub uninterp spec fn file_lines(m: DashMap<String, Vec<String>>) -> Map<Seq<char>, Seq<Seq<char>>>;

/// Relies on `DashMap::new`: a map with no entries.
#[verifier::external_body]
fn empty_files() -> (r: DashMap<String, Vec<String>>)
    ensures
        file_lines(r).dom() == Set::<Seq<char>>::empty(),
{
    DashMap::new()
}

/// Relies on `DashMap::insert`: afterwards `key` maps to `value`, and the
/// other entries are unchanged.
#[verifier::external_body]
fn insert_file(m: &mut DashMap<String, Vec<String>>, key: String, value: Vec<String>)
    ensures
        file_lines(*final(m)) == file_lines(*old(m)).insert(key@, texts_view(value@)),
{
    m.insert(key, value);
}

/// Relies on `DashMap::get`: the value stored under `key`, if any (here
/// cloned out of the guard).
#[verifier::external_body]
fn file_of(m: &DashMap<String, Vec<String>>, key: &str) -> (r: Option<Vec<String>>)
    ensures
        match r {
            Some(v) => file_lines(*m).contains_key(key@) && file_lines(*m)[key@] == texts_view(v@),
            None => !file_lines(*m).contains_key(key@),
        },
{
    m.get(key).map(|r| r.value().clone())
}

/// The lines of the loaded `(unit, path, content)` files, by path; a later
/// file replaces an earlier one of the same path.
pub open spec fn loaded_lines(fs: Seq<(String, String, String)>) -> Map<Seq<char>, Seq<Seq<char>>>
    decreases fs.len(),
{
    if fs.len() == 0 {
        Map::empty()
    } else {
        loaded_lines(fs.drop_last()).insert(fs.last().1@, lines_of(fs.last().2@))
    }
}

/// The lines of the loaded source files.
pub struct SourceManager {
    files: DashMap<String, Vec<String>>,
}

impl SourceManager {
    /// The lines of each file, by path.
    pub closed spec fn lines(&self) -> Map<Seq<char>, Seq<Seq<char>>> {
        file_lines(self.files)
    }

    pub fn new(loaded_files: &Vec<(String, String, String)>) -> (sm: SourceManager)
        ensures
            sm.lines() == loaded_lines(loaded_files@),
    {
        let mut files = empty_files();
        assert(file_lines(files) =~= loaded_lines(Seq::empty()));
        let mut i: usize = 0;
        assert(loaded_files@.take(0) =~= Seq::<(String, String, String)>::empty());
        while i < loaded_files.len()
            invariant
                i <= loaded_files.len(),
                file_lines(files) == loaded_lines(loaded_files@.take(i as int)),
            decreases loaded_files.len() - i,
        {
            let (_, path, content) = &loaded_files[i];
            let lines = split_lines(content.as_str());
            insert_file(&mut files, path.clone(), lines);
            assert(loaded_files@.take(i + 1).drop_last() =~= loaded_files@.take(i as int));
            i = i + 1;
        }
        assert(loaded_files@.take(i as int) =~= loaded_files@);
        SourceManager { files }
    }

    /// The trimmed line `line_number` (from 1) of `file_path`, see
    /// [`snippet_of`].
    pub fn get_snippet(&self, file_path: &str, line_number: usize) -> (r: Option<String>)
        ensures
            r.deep_view() == snippet_of(self.lines(), file_path@, line_number),
    {
        if line_number == 0 {
            return None;
        }
        match file_of(&self.files, file_path) {
            Some(lines) => if line_number <= lines.len() {
                Some(trim_text(lines[line_number - 1].as_str()))
            } else {
                None
            },
            None => None,
        }
    }

    /// The snippet at a `file:line` location, see [`location_snippet`].
    pub fn snippet_at(&self, location: &str) -> (r: Option<String>)
        ensures
            r.deep_view() == location_snippet(self.lines(), location@),
    {
        match parse_location(location) {
            Some((f, n)) => self.get_snippet(f.as_str(), n),
            None => None,
        }
    }
}

} // verus!
