use vstd::prelude::*;

verus! {

/// The storage backends a path can belong to.
#[derive(Clone, Copy, Debug, PartialEq, Eq, Structural)]
pub enum StorageLocationEnum {
    BrowserCache,
    HardDrive,
    Web3Storj,
}

impl StorageLocationEnum {
    pub open spec fn spec_name(&self) -> Seq<char> {
        match self {
            StorageLocationEnum::BrowserCache => "BrowserCache"@,
            StorageLocationEnum::HardDrive => "HardDrive"@,
            StorageLocationEnum::Web3Storj => "Web3Storj"@,
        }
    }

    /// The namespace word that prefixes every path of this backend.
    pub fn name(&self) -> (r: String)
        ensures
            r@ == self.spec_name(),
    {
        match self {
            StorageLocationEnum::BrowserCache => String::from_str("BrowserCache"),
            StorageLocationEnum::HardDrive => String::from_str("HardDrive"),
            StorageLocationEnum::Web3Storj => String::from_str("Web3Storj"),
        }
    }
}

/// Relies on `str::chars` collected into a `Vec`: the characters of the string, in order.
#[verifier::external_body]
pub(crate) fn chars_of(s: &str) -> (r: Vec<char>)
    ensures
        r@ == s@,
{
    s.chars().collect()
}

/// Relies on `String: FromIterator<&char>`: the string made of these characters, in order.
#[verifier::external_body]
pub(crate) fn string_of(cs: &Vec<char>) -> (r: String)
    ensures
        r@ == cs@,
{
    cs.iter().collect()
}

/// Every run of consecutive slashes shortened to a single slash.
pub open spec fn collapse_slash_runs(s: Seq<char>) -> Seq<char>
    decreases s.len(),
{
    if s.len() == 0 {
        s
    } else if s.len() >= 2 && s.last() == '/' && s[s.len() - 2] == '/' {
        collapse_slash_runs(s.drop_last())
    } else {
        collapse_slash_runs(s.drop_last()).push(s.last())
    }
}

/// Relies on `regex::Regex::new("/+")` and `Regex::replace_all` with the replacement `/`:
/// each maximal run of slashes is replaced by one slash.
#[verifier::external_body]
fn collapse_slashes(s: &str) -> (r: String)
    ensures
        r@ == collapse_slash_runs(s@),
{
    regex::Regex::new("/+").unwrap().replace_all(s, "/").into_owned()
}

/// `::` starts at index `i` of `s`.
pub open spec fn is_sep_at(s: Seq<char>, i: int) -> bool {
    0 <= i && i + 1 < s.len() && s[i] == ':' && s[i + 1] == ':'
}

/// Index of the first `::` at or after `i`, or -1.
pub open spec fn first_sep_from(s: Seq<char>, i: int) -> int
    decreases s.len() - i,
{
    if i < 0 || i + 1 >= s.len() {
        -1
    } else if s[i] == ':' && s[i + 1] == ':' {
        i
    } else {
        first_sep_from(s, i + 1)
    }
}

pub open spec fn first_sep(s: Seq<char>) -> int {
    first_sep_from(s, 0)
}

/// The colons of a path portion turned into semicolons.
pub open spec fn colons_replaced(s: Seq<char>) -> Seq<char> {
    s.map_values(|c: char| if c == ':' { ';' } else { c })
}

pub open spec fn trim_leading_slashes(s: Seq<char>) -> Seq<char>
    decreases s.len(),
{
    if s.len() > 0 && s[0] == '/' {
        trim_leading_slashes(s.drop_first())
    } else {
        s
    }
}

pub open spec fn trim_trailing_slashes(s: Seq<char>) -> Seq<char>
    decreases s.len(),
{
    if s.len() > 0 && s.last() == '/' {
        trim_trailing_slashes(s.drop_last())
    } else {
        s
    }
}

/// The hierarchical part of a path after sanitation.
pub open spec fn clean_tail(t: Seq<char>) -> Seq<char> {
    trim_trailing_slashes(trim_leading_slashes(collapse_slash_runs(colons_replaced(t))))
}

/// The namespace word of a path: what stands before its first `::`.
pub open spec fn namespace_of(s: Seq<char>) -> Seq<char> {
    s.subrange(0, first_sep(s))
}

/// The sanitized hierarchical part of a path: what follows its first `::`, cleaned.
pub open spec fn tail_of(s: Seq<char>) -> Seq<char> {
    clean_tail(s.subrange(first_sep(s) + 2, s.len() as int))
}

pub open spec fn sep() -> Seq<char> {
    seq![':', ':']
}

/// The canonical form of a path that holds a `::`.
pub open spec fn sanitized(s: Seq<char>) -> Seq<char> {
    namespace_of(s) + sep() + tail_of(s)
}

/// Index of the last `c` in `s`, or -1.
pub open spec fn last_index_of(s: Seq<char>, c: char) -> int
    decreases s.len(),
{
    if s.len() == 0 {
        -1
    } else if s.last() == c {
        s.len() - 1
    } else {
        last_index_of(s.drop_last(), c)
    }
}

/// The folder part of a file's tail: everything up to and including its last slash.
pub open spec fn dir_of(t: Seq<char>) -> Seq<char> {
    t.subrange(0, last_index_of(t, '/') + 1)
}

/// The name part of a file's tail: everything after its last slash.
pub open spec fn name_of(t: Seq<char>) -> Seq<char> {
    t.subrange(last_index_of(t, '/') + 1, t.len() as int)
}

/// What follows the last dot of a file name; empty where there is no dot.
pub open spec fn extension_of(name: Seq<char>) -> Seq<char> {
    if last_index_of(name, '.') < 0 {
        Seq::empty()
    } else {
        name.subrange(last_index_of(name, '.') + 1, name.len() as int)
    }
}

pub proof fn lemma_last_index_of_range(s: Seq<char>, c: char)
    ensures
        -1 <= last_index_of(s, c) < s.len(),
        last_index_of(s, c) >= 0 ==> s[last_index_of(s, c)] == c,
        forall|j: int| last_index_of(s, c) < j < s.len() ==> s[j] != c,
    decreases s.len(),
{
    if s.len() > 0 && s.last() != c {
        lemma_last_index_of_range(s.drop_last(), c);
        assert forall|j: int| last_index_of(s, c) < j < s.len() implies s[j] != c by {
            if j < s.len() - 1 {
                assert(s.drop_last()[j] == s[j]);
            }
        }
    }
}

fn last_index(s: &Vec<char>, c: char) -> (r: usize)
    ensures
        r as int == last_index_of(s@, c) + 1,
{
    let mut i: usize = s.len();
    proof {
        assert(s@.subrange(0, i as int) =~= s@);
    }
    while i > 0
        invariant
            i <= s@.len(),
            last_index_of(s@, c) == last_index_of(s@.subrange(0, i as int), c),
        decreases i,
    {
        proof {
            assert(s@.subrange(0, i as int).drop_last() =~= s@.subrange(0, i - 1));
        }
        if s[i - 1] == c {
            return i;
        }
        i = i - 1;
    }
    proof {
        assert(s@.subrange(0, 0) =~= Seq::<char>::empty());
    }
    0
}

pub(crate) fn copy_range(s: &Vec<char>, from: usize, to: usize) -> (r: Vec<char>)
    requires
        from <= to <= s@.len(),
    ensures
        r@ == s@.subrange(from as int, to as int),
{
    let mut r: Vec<char> = Vec::new();
    let mut i: usize = from;
    while i < to
        invariant
            from <= i <= to <= s@.len(),
            r@ == s@.subrange(from as int, i as int),
        decreases to - i,
    {
        r.push(s[i]);
        proof {
            assert(r@ =~= s@.subrange(from as int, i + 1));
        }
        i = i + 1;
    }
    r
}

/// Splits a file tail into its folder part (ending with a slash, or empty) and its name.
pub fn split_dir_name(t: &Vec<char>) -> (r: (Vec<char>, Vec<char>))
    ensures
        r.0@ == dir_of(t@),
        r.1@ == name_of(t@),
{
    proof {
        lemma_last_index_of_range(t@, '/');
    }
    let k = last_index(t, '/');
    (copy_range(t, 0, k), copy_range(t, k, t.len()))
}

/// The extension of a file name: what follows its last dot, or nothing.
pub fn extension(name: &Vec<char>) -> (r: Vec<char>)
    ensures
        r@ == extension_of(name@),
{
    proof {
        lemma_last_index_of_range(name@, '.');
    }
    let k = last_index(name, '.');
    if k == 0 {
        Vec::new()
    } else {
        copy_range(name, k, name.len())
    }
}

fn replace_colons(s: &Vec<char>) -> (r: Vec<char>)
    ensures
        r@ == colons_replaced(s@),
{
    let mut r: Vec<char> = Vec::new();
    let mut i: usize = 0;
    while i < s.len()
        invariant
            i <= s@.len(),
            r@ == colons_replaced(s@.subrange(0, i as int)),
        decreases s@.len() - i,
    {
        let c = s[i];
        if c == ':' {
            r.push(';');
        } else {
            r.push(c);
        }
        proof {
            assert(r@ =~= colons_replaced(s@.subrange(0, i + 1)));
        }
        i = i + 1;
    }
    proof {
        assert(s@.subrange(0, s@.len() as int) =~= s@);
    }
    r
}

fn trim_slashes(s: &Vec<char>) -> (r: Vec<char>)
    ensures
        r@ == trim_trailing_slashes(trim_leading_slashes(s@)),
{
    let mut a: usize = 0;
    proof {
        assert(s@.subrange(0, s@.len() as int) =~= s@);
    }
    while a < s.len() && s[a] == '/'
        invariant
            a <= s@.len(),
            trim_leading_slashes(s@) == trim_leading_slashes(s@.subrange(a as int, s@.len() as int)),
        decreases s@.len() - a,
    {
        proof {
            assert(s@.subrange(a as int, s@.len() as int).drop_first() =~= s@.subrange(a + 1, s@.len() as int));
        }
        a = a + 1;
    }
    let ghost lead = s@.subrange(a as int, s@.len() as int);
    let mut b: usize = s.len();
    while b > a && s[b - 1] == '/'
        invariant
            a <= b <= s@.len(),
            trim_trailing_slashes(lead) == trim_trailing_slashes(s@.subrange(a as int, b as int)),
        decreases b,
    {
        proof {
            assert(s@.subrange(a as int, b as int).drop_last() =~= s@.subrange(a as int, b - 1));
        }
        b = b - 1;
    }
    proof {
        if a < s@.len() {
            assert(lead[0] == s@[a as int]);
        }
        assert(trim_leading_slashes(lead) == lead);
        let m = s@.subrange(a as int, b as int);
        if b > a {
            assert(m.last() == s@[b - 1]);
        }
        assert(trim_trailing_slashes(m) == m);
    }
    copy_range(s, a, b)
}

pub(crate) fn find_sep(s: &Vec<char>) -> (r: Option<usize>)
    ensures
        match r {
            Some(i) => i as int == first_sep(s@) && is_sep_at(s@, i as int),
            None => first_sep(s@) == -1,
        },
{
    let mut i: usize = 0;
    while i < s.len() && i + 1 < s.len()
        invariant
            first_sep(s@) == first_sep_from(s@, i as int),
        decreases s@.len() - i,
    {
        if s[i] == ':' && s[i + 1] == ':' {
            return Some(i);
        }
        i = i + 1;
    }
    None
}

/// Splits a path into its namespace word and its sanitized hierarchical part:
/// colons become semicolons, runs of slashes become one, leading and trailing
/// slashes go. `None` where the path holds no `::`.
pub fn parse_path(path: &str) -> (r: Option<(Vec<char>, Vec<char>)>)
    ensures
        match r {
            Some((ns, t)) => first_sep(path@) >= 0 && ns@ == namespace_of(path@) && t@ == tail_of(
                path@,
            ),
            None => first_sep(path@) == -1,
        },
{
    let s = chars_of(path);
    match find_sep(&s) {
        None => None,
        Some(i) => {
            let ns = copy_range(&s, 0, i);
            let rest = copy_range(&s, i + 2, s.len());
            let semis = replace_colons(&rest);
            let collapsed = collapse_slashes(string_of(&semis).as_str());
            let t = trim_slashes(&chars_of(collapsed.as_str()));
            Some((ns, t))
        },
    }
}

/// The canonical form of a path: `None` where it holds no `::`.
pub fn sanitize_file_path(file_path: &str) -> (r: Option<String>)
    ensures
        match r {
            Some(p) => first_sep(file_path@) >= 0 && p@ == sanitized(file_path@),
            None => first_sep(file_path@) == -1,
        },
{
    match parse_path(file_path) {
        None => None,
        Some((ns, t)) => {
            let mut full = ns;
            full.push(':');
            full.push(':');
            let mut i: usize = 0;
            let ghost base = full@;
            while i < t.len()
                invariant
                    i <= t@.len(),
                    full@ == base + t@.subrange(0, i as int),
                decreases t@.len() - i,
            {
                full.push(t[i]);
                proof {
                    assert(full@ =~= base + t@.subrange(0, i + 1));
                }
                i = i + 1;
            }
            proof {
                assert(t@.subrange(0, t@.len() as int) =~= t@);
                assert(base =~= namespace_of(file_path@) + sep());
            }
            Some(string_of(&full))
        },
    }
}

pub(crate) fn append_chars(v: &mut Vec<char>, s: &Vec<char>)
    ensures
        final(v)@ == old(v)@ + s@,
{
    let mut i: usize = 0;
    let ghost base = v@;
    while i < s.len()
        invariant
            i <= s@.len(),
            v@ == base + s@.subrange(0, i as int),
        decreases s@.len() - i,
    {
        v.push(s[i]);
        proof {
            assert(v@ =~= base + s@.subrange(0, i + 1));
        }
        i = i + 1;
    }
    proof {
        assert(s@.subrange(0, s@.len() as int) =~= s@);
    }
}

/// The two character sequences are equal.
pub fn same_chars(a: &Vec<char>, b: &Vec<char>) -> (r: bool)
    ensures
        r == (a@ == b@),
{
    if a.len() != b.len() {
        return false;
    }
    let mut i: usize = 0;
    while i < a.len()
        invariant
            a@.len() == b@.len(),
            i <= a@.len(),
            forall|j: int| 0 <= j < i ==> a@[j] == b@[j],
        decreases a@.len() - i,
    {
        if a[i] != b[i] {
            return false;
        }
        i = i + 1;
    }
    proof {
        assert(a@ =~= b@);
    }
    true
}

/// A name that can stand as one path segment: not empty, without `/` or `:`.
pub open spec fn valid_name(n: Seq<char>) -> bool {
    n.len() > 0 && forall|i: int| 0 <= i < n.len() ==> n[i] != '/' && n[i] != ':'
}

pub fn is_valid_name(n: &str) -> (r: bool)
    ensures
        r == valid_name(n@),
{
    let v = chars_of(n);
    if v.len() == 0 {
        return false;
    }
    let mut i: usize = 0;
    while i < v.len()
        invariant
            v@ == n@,
            i <= v@.len(),
            forall|j: int| 0 <= j < i ==> v@[j] != '/' && v@[j] != ':',
        decreases v@.len() - i,
    {
        if v[i] == '/' || v[i] == ':' {
            proof {
                assert(n@[i as int] == v@[i as int]);
                assert(!(n@[i as int] != '/' && n@[i as int] != ':'));
            }
            return false;
        }
        i = i + 1;
    }
    true
}

/// The path `<ns>::<tail>`.
pub fn join_path(ns: &Vec<char>, tail: &Vec<char>) -> (r: Vec<char>)
    ensures
        r@ == ns@ + sep() + tail@,
{
    let mut r: Vec<char> = Vec::new();
    append_chars(&mut r, ns);
    r.push(':');
    r.push(':');
    append_chars(&mut r, tail);
    proof {
        assert(r@ =~= ns@ + sep() + tail@);
    }
    r
}

/// What follows the last `@` of `s`; all of `s` where it holds none.
pub open spec fn after_last_at_of(s: Seq<char>) -> Seq<char> {
    s.subrange(last_index_of(s, '@') + 1, s.len() as int)
}

pub fn after_last_at(s: &String) -> (r: String)
    ensures
        r@ == after_last_at_of(s@),
{
    let v = chars_of(s.as_str());
    proof {
        lemma_last_index_of_range(v@, '@');
    }
    let k = last_index(&v, '@');
    string_of(&copy_range(&v, k, v.len()))
}

} // verus!
