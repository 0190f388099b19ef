use vstd::prelude::*;

verus! {

/// Relies on `str::chars` collected into a `Vec`: the characters of `s`, in order.
#[verifier::external_body]
pub(crate) fn chars_of(s: &str) -> (r: Vec<char>)
    ensures
        r@ == s@,
{
    s.chars().collect()
}

/// Relies on collecting `char`s into a `String`: the string made of exactly those characters.
#[verifier::external_body]
pub(crate) fn string_of(v: &[char]) -> (r: String)
    ensures
        r@ == v@,
{
    v.iter().collect()
}

/// Characters that survive cleaning: ASCII, and none of newline, carriage return,
/// backslash or double quote.
pub open spec fn is_kept(c: char) -> bool {
    (c as u32) < 128 && c != '\n' && c != '\r' && c != '\\' && c != '"'
}

/// ASCII whitespace as `char::is_whitespace` classifies it.
pub open spec fn is_space(c: char) -> bool {
    c == ' ' || c == '\t' || c == '\n' || c == '\x0B' || c == '\x0C' || c == '\r'
}

pub open spec fn kept_chars(s: Seq<char>) -> Seq<char>
    decreases s.len(),
{
    if s.len() == 0 {
        s
    } else if is_kept(s.last()) {
        kept_chars(s.drop_last()).push(s.last())
    } else {
        kept_chars(s.drop_last())
    }
}

/// Index of the first non-space character at or after `i`.
pub open spec fn skip_lead(s: Seq<char>, i: int) -> int
    decreases s.len() - i,
{
    if 0 <= i < s.len() && is_space(s[i]) {
        skip_lead(s, i + 1)
    } else {
        i
    }
}

/// End of `s` once trailing spaces down to `lo` are dropped.
pub open spec fn skip_trail(s: Seq<char>, j: int, lo: int) -> int
    decreases j - lo,
{
    if lo < j <= s.len() && is_space(s[j - 1]) {
        skip_trail(s, j - 1, lo)
    } else {
        j
    }
}

/// `s` without its leading and trailing whitespace.
pub open spec fn trimmed(s: Seq<char>) -> Seq<char> {
    let lo = skip_lead(s, 0);
    s.subrange(lo, skip_trail(s, s.len() as int, lo))
}

/// A token once cleaned: unwanted characters removed, then whitespace trimmed.
pub open spec fn cleaned(s: Seq<char>) -> Seq<char> {
    trimmed(kept_chars(s))
}

fn is_kept_char(c: char) -> (r: bool)
    ensures
        r == is_kept(c),
{
    (c as u32) < 128 && c != '\n' && c != '\r' && c != '\\' && c != '"'
}

fn is_space_char(c: char) -> (r: bool)
    ensures
        r == is_space(c),
{
    c == ' ' || c == '\t' || c == '\n' || c == '\x0B' || c == '\x0C' || c == '\r'
}

/// Cleans the characters `v[from..to]`.
pub(crate) fn clean_chars(v: &Vec<char>, from: usize, to: usize) -> (r: String)
    requires
        from <= to <= v@.len(),
    ensures
        r@ == cleaned(v@.subrange(from as int, to as int)),
{
    let ghost src = v@.subrange(from as int, to as int);
    let mut kept: Vec<char> = Vec::new();
    let mut i: usize = from;
    while i < to
        invariant
            from <= i <= to <= v@.len(),
            src == v@.subrange(from as int, to as int),
            kept@ == kept_chars(v@.subrange(from as int, i as int)),
        decreases to - i,
    {
        let c = v[i];
        proof {
            let p = v@.subrange(from as int, i as int + 1);
            assert(p.drop_last() =~= v@.subrange(from as int, i as int));
            assert(p.last() == c);
        }
        if is_kept_char(c) {
            kept.push(c);
        }
        i = i + 1;
    }
    assert(v@.subrange(from as int, i as int) =~= src);
    let ghost k = kept@;
    let mut lo: usize = 0;
    while lo < kept.len() && is_space_char(kept[lo])
        invariant
            0 <= lo <= kept@.len(),
            kept@ == k,
            skip_lead(k, lo as int) == skip_lead(k, 0),
        decreases kept@.len() - lo,
    {
        lo = lo + 1;
    }
    let mut hi: usize = kept.len();
    while hi > lo && is_space_char(kept[hi - 1])
        invariant
            lo <= hi <= kept@.len(),
            kept@ == k,
            lo as int == skip_lead(k, 0),
            skip_trail(k, hi as int, lo as int) == skip_trail(k, k.len() as int, lo as int),
        decreases hi,
    {
        hi = hi - 1;
    }
    string_of(&kept.as_slice()[lo..hi])
}

/// Removes every non-ASCII character, newline, carriage return, backslash and
/// double quote from `line`, then trims the surrounding whitespace.
pub fn clean_line(line: &str) -> (r: String)
    ensures
        r@ == cleaned(line@),
{
    let v = chars_of(line);
    let r = clean_chars(&v, 0, v.len());
    assert(v@.subrange(0, v@.len() as int) =~= line@);
    r
}

} // verus!
