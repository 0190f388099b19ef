use vstd::prelude::*;
use crate::csv::{split_from, split_text};
use crate::utils::{chars_of, string_of};

verus! {

/// Whether a character is alphabetic, as `char::is_alphabetic` decides it.
pub uninterp spec fn alphabetic(c: char) -> bool;

/// Relies on `char::is_alphabetic`: the Unicode `Alphabetic` property.
#[verifier::external_body]
fn is_alphabetic(c: char) -> (r: bool)
    ensures
        r == alphabetic(c),
{
    c.is_alphabetic()
}

/// A character that may separate the parts of a date: no decimal digit, no
/// letter, no line break.
pub open spec fn separator_candidate(c: char) -> bool {
    !('0' <= c <= '9') && !alphabetic(c) && c != '\n' && c != '\r'
}

/// How often `c` occurs among the first `n` characters of `s`.
pub open spec fn count_upto(s: Seq<char>, c: char, n: int) -> int
    decreases n,
{
    if n <= 0 {
        0
    } else {
        count_upto(s, c, n - 1) + if s[n - 1] == c { 1int } else { 0int }
    }
}

/// How often `c` occurs in `s`.
pub open spec fn occurrences(s: Seq<char>, c: char) -> int {
    count_upto(s, c, s.len() as int)
}

proof fn lemma_count_upto_bound(s: Seq<char>, c: char, n: int)
    requires
        0 <= n <= s.len(),
    ensures
        0 <= count_upto(s, c, n) <= n,
    decreases n,
{
    if n > 0 {
        lemma_count_upto_bound(s, c, n - 1);
    }
}

fn count_of(v: &Vec<char>, c: char) -> (r: usize)
    ensures
        r == occurrences(v@, c),
{
    let mut n: usize = 0;
    let mut i: usize = 0;
    while i < v.len()
        invariant
            0 <= i <= v@.len(),
            n == count_upto(v@, c, i as int),
        decreases v@.len() - i,
    {
        proof {
            lemma_count_upto_bound(v@, c, i as int);
        }
        if v[i] == c {
            n = n + 1;
        }
        i = i + 1;
    }
    n
}

/// `c` is a separator candidate of `s` that occurs at least as often as any other.
pub open spec fn most_frequent_separator(s: Seq<char>, c: char) -> bool {
    &&& s.contains(c)
    &&& separator_candidate(c)
    &&& forall|i: int|
        0 <= i < s.len() && separator_candidate(#[trigger] s[i]) ==> occurrences(s, s[i]) <= occurrences(s, c)
}

/// The separator of a date: the candidate character that occurs most often,
/// `None` when there is none. Among equally frequent ones, any may be chosen.
pub fn find_separator(date_field: &str) -> (r: Option<char>)
    ensures
        r is None <==> forall|i: int| 0 <= i < date_field@.len() ==> !separator_candidate(#[trigger] date_field@[i]),
        r matches Some(c) ==> most_frequent_separator(date_field@, c),
{
    let v = chars_of(date_field);
    let mut best: Option<(char, usize)> = None;
    let mut i: usize = 0;
    while i < v.len()
        invariant
            v@ == date_field@,
            0 <= i <= v@.len(),
            match best {
                None => forall|k: int| 0 <= k < i ==> !separator_candidate(#[trigger] v@[k]),
                Some((b, n)) => v@.contains(b) && separator_candidate(b) && n == occurrences(v@, b)
                    && forall|k: int| 0 <= k < i && separator_candidate(#[trigger] v@[k])
                        ==> occurrences(v@, v@[k]) <= n,
            },
        decreases v@.len() - i,
    {
        let c = v[i];
        let digit = '0' <= c && c <= '9';
        if !digit && !is_alphabetic(c) && c != '\n' && c != '\r' {
            let n = count_of(&v, c);
            match best {
                None => {
                    best = Some((c, n));
                },
                Some((_, m)) => {
                    if n > m {
                        best = Some((c, n));
                    }
                },
            }
        }
        i = i + 1;
    }
    match best {
        None => None,
        Some((b, _)) => Some(b),
    }
}

/// Why a date could not be read.
#[derive(Debug)]
pub enum DateError {
    UnsupportedFormat,
}

/// The pieces of `s` between occurrences of `c`.
pub open spec fn split_at_char(s: Seq<char>, c: char) -> Seq<Seq<char>> {
    split_text(s, seq![c])
}

fn split_char(v: &Vec<char>, c: char) -> (r: Vec<String>)
    ensures
        r@.map_values(|p: String| p@) == split_at_char(v@, c),
{
    let n = v.len();
    let ghost s = v@;
    let ghost p = seq![c];
    let ghost mut raw: Seq<Seq<char>> = Seq::empty();
    let mut parts: Vec<String> = Vec::new();
    let mut start: usize = 0;
    let mut i: usize = 0;
    while i < n
        invariant
            n == v@.len(),
            s == v@,
            p == seq![c],
            start <= i <= n,
            parts@.len() == raw.len(),
            forall|k: int| 0 <= k < raw.len() ==> #[trigger] parts@[k]@ == raw[k],
            raw + split_from(s, p, start as int, i as int) == split_from(s, p, 0, 0),
        decreases n - i,
    {
        assert(s.subrange(i as int, i + 1) =~= seq![s[i as int]]);
        if v[i] != c {
            assert(s.subrange(i as int, i + 1)[0] != p[0]);
        }
        if v[i] == c {
            assert(s.subrange(i as int, i + 1) =~= p);
            let piece = string_of(&v.as_slice()[start..i]);
            proof {
                let t = s.subrange(start as int, i as int);
                assert(raw + (seq![t] + split_from(s, p, i + 1, i + 1))
                    =~= raw.push(t) + split_from(s, p, i + 1, i + 1));
                raw = raw.push(t);
            }
            parts.push(piece);
            start = i + 1;
        }
        i = i + 1;
    }
    let piece = string_of(&v.as_slice()[start..n]);
    proof {
        let t = s.subrange(start as int, n as int);
        assert(raw + seq![t] =~= raw.push(t));
        raw = raw.push(t);
    }
    parts.push(piece);
    assert(parts@.map_values(|p: String| p@) =~= split_at_char(v@, c));
    parts
}

pub open spec fn holds_piece(o: Option<String>, p: Seq<char>) -> bool {
    match o {
        Some(x) => x@ == p,
        None => false,
    }
}

/// `a` holds the first three of `parts`.
pub open spec fn first_three(parts: Seq<Seq<char>>, a: Seq<Option<String>>) -> bool {
    &&& parts.len() >= 3
    &&& a.len() == 3
    &&& forall|j: int| 0 <= j < 3 ==> holds_piece(#[trigger] a[j], parts[j])
}

/// The first three parts of a date split at its separator; fails when no
/// separator is found or fewer than three parts come out.
pub fn collect_date(field: &str) -> (r: Result<[Option<String>; 3], DateError>)
    ensures
        r matches Ok(a) ==> exists|c: char|
            #[trigger] most_frequent_separator(field@, c) && first_three(split_at_char(field@, c), a@),
        r is Err ==> (forall|i: int| 0 <= i < field@.len() ==> !separator_candidate(#[trigger] field@[i]))
            || exists|c: char| #[trigger] most_frequent_separator(field@, c) && split_at_char(field@, c).len() < 3,
        (exists|i: int| 0 <= i < field@.len() && separator_candidate(#[trigger] field@[i])) && (forall|c: char|
            #[trigger] most_frequent_separator(field@, c) ==> split_at_char(field@, c).len() >= 3) ==> r is Ok,
{
    let sep = match find_separator(field) {
        Some(c) => c,
        None => return Err(DateError::UnsupportedFormat),
    };
    let v = chars_of(field);
    let mut parts = split_char(&v, sep);
    let ghost ps = parts@.map_values(|p: String| p@);
    if parts.len() < 3 {
        assert(most_frequent_separator(field@, sep));
        return Err(DateError::UnsupportedFormat);
    }
    assert(ps[2] == parts@[2]@ && ps[1] == parts@[1]@ && ps[0] == parts@[0]@);
    let c = parts.remove(2);
    let b = parts.remove(1);
    let a = parts.remove(0);
    let r = [Some(a), Some(b), Some(c)];
    assert(holds_piece(r@[0], ps[0]) && holds_piece(r@[1], ps[1]) && holds_piece(r@[2], ps[2]));
    assert(most_frequent_separator(field@, sep) && first_three(split_at_char(field@, sep), r@));
    Ok(r)
}

} // verus!
