use vstd::prelude::*;
use crate::utils::{chars_of, clean_chars, cleaned, is_kept, is_space, kept_chars, skip_lead, skip_trail};

verus! {

/// Raw tokens of `s`, where `cur` is the token read so far and `quoted` says
/// whether the scan stands inside a quoted segment. Every double quote flips
/// that state and is kept in the token; a delimiter outside quotes ends a token.
pub open spec fn split_quoted(s: Seq<char>, sep: char, cur: Seq<char>, quoted: bool) -> Seq<Seq<char>>
    decreases s.len(),
{
    if s.len() == 0 {
        seq![cur]
    } else if s[0] == '"' {
        split_quoted(s.drop_first(), sep, cur.push(s[0]), !quoted)
    } else if !quoted && s[0] == sep {
        seq![cur] + split_quoted(s.drop_first(), sep, Seq::empty(), quoted)
    } else {
        split_quoted(s.drop_first(), sep, cur.push(s[0]), quoted)
    }
}

/// The raw tokens of a whole line.
pub open spec fn raw_tokens(line: Seq<char>, sep: char) -> Seq<Seq<char>> {
    split_quoted(line, sep, Seq::empty(), false)
}

/// The cleaned fields of a line.
pub open spec fn line_fields(line: Seq<char>, sep: char) -> Seq<Seq<char>> {
    raw_tokens(line, sep).map_values(|t: Seq<char>| cleaned(t))
}

/// Splits `line` at each delimiter that stands outside a quoted segment and
/// cleans every piece. The piece after the last delimiter is always present,
/// so an empty line gives one empty field.
pub fn collect_fields(line: &str, sep: &char) -> (r: Vec<String>)
    ensures
        r@.map_values(|f: String| f@) == line_fields(line@, *sep),
        r@.len() >= 1,
{
    let v = chars_of(line);
    let n = v.len();
    let mut fields: Vec<String> = Vec::new();
    let ghost mut raw: Seq<Seq<char>> = Seq::empty();
    let mut start: usize = 0;
    let mut quoted: bool = false;
    let mut i: usize = 0;
    assert(v@.subrange(0, n as int) =~= line@);
    assert(v@.subrange(0, 0) =~= Seq::<char>::empty());
    assert(raw + raw_tokens(line@, *sep) =~= raw_tokens(line@, *sep));
    while i < n
        invariant
            n == v@.len(),
            v@ == line@,
            start <= i <= n,
            fields@.len() == raw.len(),
            forall|k: int| 0 <= k < raw.len() ==> #[trigger] fields@[k]@ == cleaned(raw[k]),
            raw + split_quoted(v@.subrange(i as int, n as int), *sep, v@.subrange(start as int, i as int), quoted)
                == raw_tokens(line@, *sep),
        decreases n - i,
    {
        let c = v[i];
        let ghost rest = v@.subrange(i as int, n as int);
        proof {
            assert(rest.drop_first() =~= v@.subrange(i as int + 1, n as int));
            assert(rest[0] == c);
            assert(v@.subrange(start as int, i as int).push(c) =~= v@.subrange(start as int, i as int + 1));
        }
        if c == '"' {
            quoted = !quoted;
        } else if !quoted && c == *sep {
            let f = clean_chars(&v, start, i);
            proof {
                let t = v@.subrange(start as int, i as int);
                assert(v@.subrange(i as int + 1, i as int + 1) =~= Seq::<char>::empty());
                assert(raw + (seq![t] + split_quoted(rest.drop_first(), *sep, Seq::empty(), quoted))
                    =~= raw.push(t) + split_quoted(rest.drop_first(), *sep, Seq::empty(), quoted));
                raw = raw.push(t);
            }
            fields.push(f);
            start = i + 1;
        }
        i = i + 1;
    }
    let f = clean_chars(&v, start, n);
    proof {
        let t = v@.subrange(start as int, n as int);
        assert(v@.subrange(n as int, n as int) =~= Seq::<char>::empty());
        assert(raw + seq![t] =~= raw.push(t));
        raw = raw.push(t);
    }
    fields.push(f);
    assert(fields@.map_values(|f: String| f@) =~= line_fields(line@, *sep));
    fields
}

/// A field as cleaning leaves it: only kept characters, no surrounding space.
pub open spec fn is_clean(g: Seq<char>) -> bool {
    &&& forall|i: int| 0 <= i < g.len() ==> is_kept(#[trigger] g[i])
    &&& g.len() > 0 ==> !is_space(g[0]) && !is_space(g.last())
}

/// A field as it is written back: in quotes when it holds the delimiter.
pub open spec fn requote(g: Seq<char>, sep: char) -> Seq<char> {
    if g.contains(sep) {
        seq!['"'] + g + seq!['"']
    } else {
        g
    }
}

/// The fields written back as one line, separated by the delimiter.
pub open spec fn rejoin(fs: Seq<Seq<char>>, sep: char) -> Seq<char>
    decreases fs.len(),
{
    if fs.len() <= 1 {
        if fs.len() == 0 {
            Seq::empty()
        } else {
            requote(fs[0], sep)
        }
    } else {
        requote(fs[0], sep) + seq![sep] + rejoin(fs.drop_first(), sep)
    }
}

proof fn lemma_kept_chars_all_kept(s: Seq<char>)
    ensures
        forall|i: int| 0 <= i < kept_chars(s).len() ==> is_kept(#[trigger] kept_chars(s)[i]),
    decreases s.len(),
{
    if s.len() > 0 {
        lemma_kept_chars_all_kept(s.drop_last());
        let k = kept_chars(s.drop_last());
        if is_kept(s.last()) {
            assert forall|i: int| 0 <= i < k.push(s.last()).len() implies is_kept(
                #[trigger] k.push(s.last())[i],
            ) by {
                if i < k.len() {
                    assert(k.push(s.last())[i] == k[i]);
                }
            }
        }
    }
}

proof fn lemma_kept_chars_concat(a: Seq<char>, b: Seq<char>)
    ensures
        kept_chars(a + b) == kept_chars(a) + kept_chars(b),
    decreases b.len(),
{
    if b.len() == 0 {
        assert(a + b =~= a);
        assert(kept_chars(a) + kept_chars(b) =~= kept_chars(a));
    } else {
        assert((a + b).drop_last() =~= a + b.drop_last());
        assert((a + b).last() == b.last());
        lemma_kept_chars_concat(a, b.drop_last());
        if is_kept(b.last()) {
            assert(kept_chars(a) + kept_chars(b.drop_last()).push(b.last())
                =~= (kept_chars(a) + kept_chars(b.drop_last())).push(b.last()));
        }
    }
}

proof fn lemma_kept_chars_of_kept(g: Seq<char>)
    requires
        forall|i: int| 0 <= i < g.len() ==> is_kept(#[trigger] g[i]),
    ensures
        kept_chars(g) == g,
    decreases g.len(),
{
    if g.len() > 0 {
        lemma_kept_chars_of_kept(g.drop_last());
        assert(g.drop_last().push(g.last()) =~= g);
    }
}

proof fn lemma_skip_lead_stops(s: Seq<char>, i: int)
    requires
        0 <= i <= s.len(),
    ensures
        i <= skip_lead(s, i) <= s.len(),
        skip_lead(s, i) < s.len() ==> !is_space(s[skip_lead(s, i)]),
    decreases s.len() - i,
{
    if i < s.len() && is_space(s[i]) {
        lemma_skip_lead_stops(s, i + 1);
    }
}

proof fn lemma_skip_trail_stops(s: Seq<char>, j: int, lo: int)
    requires
        0 <= lo <= j <= s.len(),
    ensures
        lo <= skip_trail(s, j, lo) <= j,
        skip_trail(s, j, lo) > lo ==> !is_space(s[skip_trail(s, j, lo) - 1]),
    decreases j - lo,
{
    if lo < j && is_space(s[j - 1]) {
        lemma_skip_trail_stops(s, j - 1, lo);
    }
}

/// Cleaning gives a clean field.
pub proof fn lemma_cleaned_is_clean(s: Seq<char>)
    ensures
        is_clean(cleaned(s)),
{
    let k = kept_chars(s);
    lemma_kept_chars_all_kept(s);
    lemma_skip_lead_stops(k, 0);
    let lo = skip_lead(k, 0);
    lemma_skip_trail_stops(k, k.len() as int, lo);
    let hi = skip_trail(k, k.len() as int, lo);
    let g = cleaned(s);
    assert(g == k.subrange(lo, hi));
    assert forall|i: int| 0 <= i < g.len() implies is_kept(#[trigger] g[i]) by {
        assert(g[i] == k[lo + i]);
    }
}

/// A clean field is left as it is by cleaning.
pub proof fn lemma_clean_is_fixed(g: Seq<char>)
    requires
        is_clean(g),
    ensures
        cleaned(g) == g,
{
    lemma_kept_chars_of_kept(g);
    assert(skip_lead(g, 0) == 0);
    assert(skip_trail(g, g.len() as int, 0) == g.len());
    assert(g.subrange(0, g.len() as int) =~= g);
}

proof fn lemma_requote_cleans_back(g: Seq<char>, sep: char)
    requires
        is_clean(g),
    ensures
        cleaned(requote(g, sep)) == g,
{
    lemma_clean_is_fixed(g);
    if g.contains(sep) {
        let q = seq!['"'];
        lemma_kept_chars_concat(q + g, q);
        lemma_kept_chars_concat(q, g);
        assert(kept_chars(q) =~= Seq::<char>::empty()) by {
            assert(q.drop_last() =~= Seq::<char>::empty());
            assert(q.last() == '"');
            assert(kept_chars(Seq::<char>::empty()) == Seq::<char>::empty());
        }
        lemma_kept_chars_of_kept(g);
        assert(kept_chars(requote(g, sep)) =~= g);
    }
}

proof fn lemma_split_plain(a: Seq<char>, b: Seq<char>, sep: char, cur: Seq<char>, quoted: bool)
    requires
        forall|i: int| 0 <= i < a.len() ==> #[trigger] a[i] != '"' && (quoted || a[i] != sep),
    ensures
        split_quoted(a + b, sep, cur, quoted) == split_quoted(b, sep, cur + a, quoted),
    decreases a.len(),
{
    if a.len() == 0 {
        assert(a + b =~= b);
        assert(cur + a =~= cur);
    } else {
        assert((a + b)[0] == a[0]);
        assert((a + b).drop_first() =~= a.drop_first() + b);
        lemma_split_plain(a.drop_first(), b, sep, cur.push(a[0]), quoted);
        assert(cur.push(a[0]) + a.drop_first() =~= cur + a);
    }
}

proof fn lemma_split_field(g: Seq<char>, b: Seq<char>, sep: char)
    requires
        is_clean(g),
    ensures
        split_quoted(requote(g, sep) + b, sep, Seq::empty(), false)
            == split_quoted(b, sep, requote(g, sep), false),
{
    let e = Seq::<char>::empty();
    if g.contains(sep) {
        let w = choose|w: int| 0 <= w < g.len() && g[w] == sep;
        assert(is_kept(g[w]));
        let q = seq!['"'];
        let s = q + g + q + b;
        assert(requote(g, sep) + b =~= s);
        assert(s[0] == '"');
        assert(s.drop_first() =~= g + (q + b));
        lemma_split_plain(g, q + b, sep, e.push('"'), true);
        let c = e.push('"') + g;
        assert((q + b)[0] == '"');
        assert((q + b).drop_first() =~= b);
        assert(c.push('"') =~= requote(g, sep));
    } else {
        assert forall|i: int| 0 <= i < g.len() implies #[trigger] g[i] != '"' && g[i] != sep by {
            assert(is_kept(g[i]));
        }
        lemma_split_plain(g, b, sep, e, false);
        assert(e + g =~= g);
    }
}

proof fn lemma_split_rejoin(fs: Seq<Seq<char>>, sep: char)
    requires
        fs.len() >= 1,
        forall|i: int| 0 <= i < fs.len() ==> is_clean(#[trigger] fs[i]),
        fs.len() == 1 || sep != '"',
    ensures
        raw_tokens(rejoin(fs, sep), sep) == fs.map_values(|g: Seq<char>| requote(g, sep)),
    decreases fs.len(),
{
    let e = Seq::<char>::empty();
    let g = fs[0];
    assert(is_clean(fs[0]));
    if fs.len() == 1 {
        lemma_split_field(g, e, sep);
        assert(requote(g, sep) + e =~= requote(g, sep));
        assert(fs.map_values(|g: Seq<char>| requote(g, sep)) =~= seq![requote(g, sep)]);
    } else {
        let rest = fs.drop_first();
        assert forall|i: int| 0 <= i < rest.len() implies is_clean(#[trigger] rest[i]) by {
            assert(rest[i] == fs[i + 1]);
        }
        lemma_split_rejoin(rest, sep);
        let b = seq![sep] + rejoin(rest, sep);
        assert(rejoin(fs, sep) =~= requote(g, sep) + b);
        lemma_split_field(g, b, sep);
        assert(b[0] == sep);
        assert(b.drop_first() =~= rejoin(rest, sep));
        assert(fs.map_values(|g: Seq<char>| requote(g, sep)) =~= seq![requote(g, sep)]
            + rest.map_values(|g: Seq<char>| requote(g, sep)));
    }
}

proof fn lemma_split_nonempty(s: Seq<char>, sep: char, cur: Seq<char>, quoted: bool)
    ensures
        split_quoted(s, sep, cur, quoted).len() >= 1,
    decreases s.len(),
{
    if s.len() > 0 {
        if s[0] == '"' {
            lemma_split_nonempty(s.drop_first(), sep, cur.push(s[0]), !quoted);
        } else if !quoted && s[0] == sep {
            lemma_split_nonempty(s.drop_first(), sep, Seq::empty(), quoted);
        } else {
            lemma_split_nonempty(s.drop_first(), sep, cur.push(s[0]), quoted);
        }
    }
}

proof fn lemma_quote_delimiter_never_splits(s: Seq<char>, cur: Seq<char>, quoted: bool)
    ensures
        split_quoted(s, '"', cur, quoted).len() == 1,
    decreases s.len(),
{
    if s.len() > 0 {
        if s[0] == '"' {
            lemma_quote_delimiter_never_splits(s.drop_first(), cur.push(s[0]), !quoted);
        } else {
            lemma_quote_delimiter_never_splits(s.drop_first(), cur.push(s[0]), quoted);
        }
    }
}

/// Fields that are already clean, written as one line with the delimiter
/// (each field that holds it in quotes), tokenize back to themselves. A
/// double quote can only serve as delimiter of a single field.
pub proof fn lemma_rejoin_clean_fields(fs: Seq<Seq<char>>, sep: char)
    requires
        fs.len() >= 1,
        forall|i: int| 0 <= i < fs.len() ==> is_clean(#[trigger] fs[i]),
        fs.len() == 1 || sep != '"',
    ensures
        line_fields(rejoin(fs, sep), sep) == fs,
{
    lemma_split_rejoin(fs, sep);
    let back = line_fields(rejoin(fs, sep), sep);
    assert forall|i: int| 0 <= i < fs.len() implies #[trigger] back[i] == fs[i] by {
        lemma_requote_cleans_back(fs[i], sep);
    }
    assert(back =~= fs);
}

/// Writing the fields of a line back with the delimiter, quoting each field
/// that holds it, and tokenizing that text again gives the same fields.
pub proof fn lemma_rejoin_round_trip(line: Seq<char>, sep: char)
    ensures
        line_fields(rejoin(line_fields(line, sep), sep), sep) == line_fields(line, sep),
{
    let fs = line_fields(line, sep);
    lemma_split_nonempty(line, sep, Seq::empty(), false);
    if sep == '"' {
        lemma_quote_delimiter_never_splits(line, Seq::empty(), false);
    }
    assert forall|i: int| 0 <= i < fs.len() implies is_clean(#[trigger] fs[i]) by {
        lemma_cleaned_is_clean(raw_tokens(line, sep)[i]);
    }
    lemma_rejoin_clean_fields(fs, sep);
}

} // verus!
