//! Character-level helpers for names and paths.
//!
//! Paths are split at both `/` and `\`, as on Windows.

use vstd::prelude::*;

verus! {

/// What `str::to_lowercase` returns (full Unicode lowercase mapping).
pub uninterp spec fn lowercase_of(s: Seq<char>) -> Seq<char>;

/// `str::to_lowercase`: the Unicode lowercase form of the string; the result is named,
/// not stated.
#[verifier::external_body]
pub(crate) fn to_lowercase(s: &str) -> (r: String)
    ensures
        r@ == lowercase_of(s@),
{
    s.to_lowercase()
}

/// `String::from_iter` over characters: the string made of exactly these characters.
#[verifier::external_body]
pub(crate) fn string_from_chars(cs: &[char]) -> (r: String)
    ensures
        r@ == cs@,
{
    String::from_iter(cs.iter())
}

/// The characters of a string.
pub fn chars_of(s: &str) -> (v: Vec<char>)
    ensures
        v@ == s@,
{
    let mut v: Vec<char> = Vec::new();
    for c in it: s.chars()
        invariant
            v@ == it.seq().take(it.index() as int),
            it.seq() == s@,
    {
        v.push(c);
    }
    v
}

/// A path separator.
pub open spec fn is_separator(c: char) -> bool {
    c == '/' || c == '\\'
}

/// Position of the last separator, or -1.
pub open spec fn last_separator(p: Seq<char>) -> int
    decreases p.len(),
{
    if p.len() == 0 {
        -1
    } else if is_separator(p.last()) {
        p.len() - 1
    } else {
        last_separator(p.drop_last())
    }
}

/// Everything before the last separator (empty when there is none).
pub open spec fn parent_part(p: Seq<char>) -> Seq<char> {
    let i = last_separator(p);
    if i < 0 {
        Seq::empty()
    } else {
        p.subrange(0, i)
    }
}

/// Everything after the last separator (the whole path when there is none).
pub open spec fn name_part(p: Seq<char>) -> Seq<char> {
    p.subrange(last_separator(p) + 1, p.len() as int)
}

/// Position of the last `.`, or -1.
pub open spec fn last_dot(p: Seq<char>) -> int
    decreases p.len(),
{
    if p.len() == 0 {
        -1
    } else if p.last() == '.' {
        p.len() - 1
    } else {
        last_dot(p.drop_last())
    }
}

/// Extension of a file name: the part after the last `.`, unless that `.` starts the
/// name (hidden files) or the name is `..`.
pub open spec fn extension_part(name: Seq<char>) -> Option<Seq<char>> {
    let d = last_dot(name);
    if d <= 0 || name == seq!['.', '.'] {
        None
    } else {
        Some(name.subrange(d + 1, name.len() as int))
    }
}

pub proof fn lemma_last_separator_bounds(p: Seq<char>)
    ensures
        -1 <= last_separator(p) < p.len(),
        last_separator(p) >= 0 ==> is_separator(p[last_separator(p)]),
        forall|k: int| last_separator(p) < k < p.len() ==> !is_separator(#[trigger] p[k]),
    decreases p.len(),
{
    if p.len() > 0 && !is_separator(p.last()) {
        lemma_last_separator_bounds(p.drop_last());
        assert forall|k: int| last_separator(p) < k < p.len() implies !is_separator(#[trigger] p[k]) by {
            if k < p.len() - 1 {
                assert(p[k] == p.drop_last()[k]);
            }
        }
    }
}

pub proof fn lemma_last_dot_bounds(p: Seq<char>)
    ensures
        -1 <= last_dot(p) < p.len(),
        forall|k: int| last_dot(p) < k < p.len() ==> #[trigger] p[k] != '.',
        last_dot(p) >= 0 ==> p[last_dot(p)] == '.',
    decreases p.len(),
{
    if p.len() > 0 && p.last() != '.' {
        lemma_last_dot_bounds(p.drop_last());
        assert forall|k: int| last_dot(p) < k < p.len() implies #[trigger] p[k] != '.' by {
            if k < p.len() - 1 {
                assert(p[k] == p.drop_last()[k]);
            }
        }
    }
}

fn find_last_separator(p: &Vec<char>) -> (r: Option<usize>)
    ensures
        match r {
            Some(i) => i as int == last_separator(p@) && i < p@.len(),
            None => last_separator(p@) == -1,
        },
{
    let mut i = p.len();
    proof {
        assert(p@.subrange(0, p@.len() as int) =~= p@);
    }
    while i > 0
        invariant
            i <= p@.len(),
            forall|k: int| i <= k < p@.len() ==> !is_separator(#[trigger] p@[k]),
            last_separator(p@) == last_separator(p@.subrange(0, i as int)),
        decreases i,
    {
        let c = p[i - 1];
        proof {
            assert(p@.subrange(0, i as int).drop_last() =~= p@.subrange(0, i as int - 1));
        }
        if c == '/' || c == '\\' {
            return Some(i - 1);
        }
        i = i - 1;
    }
    proof {
        assert(p@.subrange(0, 0) =~= Seq::<char>::empty());
    }
    None
}

fn find_last_dot(p: &Vec<char>) -> (r: Option<usize>)
    ensures
        match r {
            Some(i) => i as int == last_dot(p@),
            None => last_dot(p@) == -1,
        },
{
    let mut i = p.len();
    proof {
        assert(p@.subrange(0, p@.len() as int) =~= p@);
    }
    while i > 0
        invariant
            i <= p@.len(),
            last_dot(p@) == last_dot(p@.subrange(0, i as int)),
        decreases i,
    {
        let c = p[i - 1];
        proof {
            assert(p@.subrange(0, i as int).drop_last() =~= p@.subrange(0, i as int - 1));
        }
        if c == '.' {
            return Some(i - 1);
        }
        i = i - 1;
    }
    proof {
        assert(p@.subrange(0, 0) =~= Seq::<char>::empty());
    }
    None
}

fn slice_chars(p: &Vec<char>, from: usize, to: usize) -> (r: Vec<char>)
    requires
        from <= to <= p@.len(),
    ensures
        r@ == p@.subrange(from as int, to as int),
{
    let mut r: Vec<char> = Vec::new();
    let mut i = from;
    while i < to
        invariant
            from <= i <= to,
            to <= p@.len(),
            r@ == p@.subrange(from as int, i as int),
        decreases to - i,
    {
        r.push(p[i]);
        proof {
            assert(p@.subrange(from as int, i as int + 1) =~= p@.subrange(from as int, i as int).push(p@[i as int]));
        }
        i = i + 1;
    }
    r
}

/// The parent folder of a path: everything before its last separator.
pub fn parent_dir(path: &str) -> (r: String)
    ensures
        r@ == parent_part(path@),
{
    let cs = chars_of(path);
    match find_last_separator(&cs) {
        Some(i) => {
            proof {
                lemma_last_separator_bounds(cs@);
            }
            let v = slice_chars(&cs, 0, i);
            string_from_chars(v.as_slice())
        },
        None => string_from_chars(&[]),
    }
}

/// The file name of a path: everything after its last separator.
pub fn base_name(path: &str) -> (r: String)
    ensures
        r@ == name_part(path@),
{
    let cs = chars_of(path);
    proof {
        lemma_last_separator_bounds(cs@);
    }
    let n = cs.len();
    let start = match find_last_separator(&cs) {
        Some(i) => i + 1,
        None => 0,
    };
    let v = slice_chars(&cs, start, cs.len());
    string_from_chars(v.as_slice())
}

/// The extension of the file name of a path, as written (see `extension_part`).
pub fn extension_of(path: &str) -> (r: Option<String>)
    ensures
        match r {
            Some(e) => extension_part(name_part(path@)) == Some(e@),
            None => extension_part(name_part(path@)) is None,
        },
{
    let cs = chars_of(path);
    proof {
        lemma_last_separator_bounds(cs@);
    }
    let n = cs.len();
    let start = match find_last_separator(&cs) {
        Some(i) => i + 1,
        None => 0,
    };
    let name = slice_chars(&cs, start, cs.len());
    let is_dotdot = name.len() == 2 && name[0] == '.' && name[1] == '.';
    proof {
        if is_dotdot {
            assert(name@ =~= seq!['.', '.']);
        } else if name@.len() == 2 {
            assert(name@ != seq!['.', '.'] || (name@[0] == '.' && name@[1] == '.'));
        }
    }
    match find_last_dot(&name) {
        Some(d) => {
            proof {
                lemma_last_dot_bounds(name@);
            }
            if d == 0 || is_dotdot {
                None
            } else {
                let e = slice_chars(&name, d + 1, name.len());
                Some(string_from_chars(e.as_slice()))
            }
        },
        None => None,
    }
}

/// Code of a character with ASCII capitals folded to small letters.
pub open spec fn ascii_fold(c: char) -> int {
    if 'A' <= c <= 'Z' {
        (c as u32) + 32
    } else {
        c as u32 as int
    }
}

/// Two strings are equal when ASCII letter case is ignored (`str::eq_ignore_ascii_case`).
pub open spec fn eq_ignore_ascii_case_spec(a: Seq<char>, b: Seq<char>) -> bool {
    a.len() == b.len() && forall|i: int| 0 <= i < a.len() ==> ascii_fold(#[trigger] a[i]) == ascii_fold(b[i])
}

fn fold_char(c: char) -> (r: u32)
    ensures
        r as int == ascii_fold(c),
{
    if 'A' <= c && c <= 'Z' {
        (c as u32) + 32
    } else {
        c as u32
    }
}

/// Compares two strings ignoring ASCII letter case.
pub fn eq_ignore_ascii_case(a: &str, b: &str) -> (r: bool)
    ensures
        r == eq_ignore_ascii_case_spec(a@, b@),
{
    let ca = chars_of(a);
    let cb = chars_of(b);
    if ca.len() != cb.len() {
        return false;
    }
    let mut i: usize = 0;
    while i < ca.len()
        invariant
            ca@.len() == cb@.len(),
            ca@ == a@,
            cb@ == b@,
            i <= ca@.len(),
            forall|k: int| 0 <= k < i ==> ascii_fold(#[trigger] ca@[k]) == ascii_fold(cb@[k]),
        decreases ca@.len() - i,
    {
        if fold_char(ca[i]) != fold_char(cb[i]) {
            return false;
        }
        i = i + 1;
    }
    true
}

/// Whether a name equals one of the given names, ignoring ASCII letter case.
pub fn matches_any(name: &str, list: &Vec<String>) -> (r: bool)
    ensures
        r == exists|i: int| 0 <= i < list@.len() && eq_ignore_ascii_case_spec(#[trigger] list@[i]@, name@),
{
    let mut i: usize = 0;
    while i < list.len()
        invariant
            i <= list@.len(),
            forall|k: int| 0 <= k < i ==> !eq_ignore_ascii_case_spec(#[trigger] list@[k]@, name@),
        decreases list@.len() - i,
    {
        if eq_ignore_ascii_case(list[i].as_str(), name) {
            return true;
        }
        i = i + 1;
    }
    false
}

/// A name equals one of the listed names, ignoring ASCII letter case.
pub open spec fn listed(list: Seq<&str>, name: Seq<char>) -> bool {
    exists|i: int| 0 <= i < list.len() && eq_ignore_ascii_case_spec(#[trigger] list[i]@, name)
}

/// The characters of an optional string.
pub open spec fn opt_view(s: Option<&str>) -> Option<Seq<char>> {
    match s {
        Some(x) => Some(x@),
        None => None,
    }
}

/// Whether a name equals one of the listed names, ignoring ASCII letter case.
pub fn in_list(name: &str, list: &[&str]) -> (r: bool)
    ensures
        r == listed(list@, name@),
{
    let mut i: usize = 0;
    while i < list.len()
        invariant
            i <= list@.len(),
            forall|k: int| 0 <= k < i ==> !eq_ignore_ascii_case_spec(#[trigger] list@[k]@, name@),
        decreases list@.len() - i,
    {
        if eq_ignore_ascii_case(list[i], name) {
            return true;
        }
        i = i + 1;
    }
    false
}

/// Decimal digits.
pub const DEC_DIGITS: [char; 10] = ['0', '1', '2', '3', '4', '5', '6', '7', '8', '9'];

/// The decimal text of a number, without leading zeros.
pub open spec fn decimal_text(n: nat) -> Seq<char>
    decreases n,
{
    if n < 10 {
        seq![DEC_DIGITS@[n as int]]
    } else {
        decimal_text(n / 10).push(DEC_DIGITS@[(n % 10) as int])
    }
}

/// Writes a number in decimal.
pub fn decimal_string(n: u128) -> (r: Vec<char>)
    ensures
        r@ == decimal_text(n as nat),
{
    let mut tail: Vec<char> = Vec::new();
    let mut x: u128 = n;
    while x >= 10
        invariant
            decimal_text(n as nat) == decimal_text(x as nat) + tail@,
        decreases x,
    {
        let ghost before = tail@;
        let d = DEC_DIGITS[(x % 10) as usize];
        tail.insert(0, d);
        proof {
            assert(tail@ =~= seq![d] + before);
            assert(decimal_text((x / 10) as nat).push(d) + before =~= decimal_text((x / 10) as nat) + tail@);
        }
        x = x / 10;
    }
    let ghost before = tail@;
    tail.insert(0, DEC_DIGITS[x as usize]);
    proof {
        assert(tail@ =~= seq![DEC_DIGITS@[x as int]] + before);
    }
    tail
}

/// Appends characters.
pub fn append_chars(out: &mut Vec<char>, more: &[char])
    ensures
        final(out)@ == old(out)@ + more@,
{
    let mut i: usize = 0;
    while i < more.len()
        invariant
            i <= more@.len(),
            out@ == old(out)@ + more@.subrange(0, i as int),
        decreases more@.len() - i,
    {
        out.push(more[i]);
        proof {
            assert(out@ =~= old(out)@ + more@.subrange(0, i + 1));
        }
        i = i + 1;
    }
    proof {
        assert(more@.subrange(0, more@.len() as int) =~= more@);
    }
}

} // verus!
