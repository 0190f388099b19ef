use vstd::prelude::*;
use crate::parser::{agree_before, fallback_outcome, has_name, outcomes_ok, paired, position_ok, record_view, Record, RecordView};
use crate::schema::{lemma_resolve_in_bounds, opt_index, resolve_spec, FieldSpecView, Schema};
use crate::utils::{chars_of, clean_chars, cleaned};
use crate::validate::{
    float_text_ok, is_digit as is_digit_char, is_float_text, parse_i128, signed_text_value,
    chars_equal, opt_view, validate_field, TypedValue, ValueView,
};

verus! {

/// The pieces of `s[start..]` cut at each occurrence of the non-empty `p`,
/// searched from `i` on, leftmost first and without overlap.
pub open spec fn split_from(s: Seq<char>, p: Seq<char>, start: int, i: int) -> Seq<Seq<char>>
    decreases s.len() - i,
{
    if p.len() == 0 || i < start || i + p.len() > s.len() {
        seq![s.subrange(start, s.len() as int)]
    } else if s.subrange(i, i + p.len()) == p {
        seq![s.subrange(start, i)] + split_from(s, p, i + p.len(), i + p.len())
    } else {
        split_from(s, p, start, i + 1)
    }
}

/// The pieces of `s` split at `p`, as `str::split` gives them: an empty
/// pattern matches at both ends and between any two characters.
pub open spec fn split_text(s: Seq<char>, p: Seq<char>) -> Seq<Seq<char>> {
    if p.len() == 0 {
        seq![Seq::empty()] + s.map_values(|c: char| seq![c]) + seq![Seq::empty()]
    } else {
        split_from(s, p, 0, 0)
    }
}

fn matches_at(v: &Vec<char>, p: &Vec<char>, i: usize) -> (r: bool)
    requires
        i + p@.len() <= v@.len(),
    ensures
        r == (v@.subrange(i as int, i + p@.len()) == p@),
{
    let vn = v.len();
    let mut k: usize = 0;
    while k < p.len()
        invariant
            vn == v@.len(),
            i + p@.len() <= v@.len(),
            0 <= k <= p@.len(),
            forall|t: int| 0 <= t < k ==> v@[i + t] == p@[t],
        decreases p@.len() - k,
    {
        assert(i + k < v@.len());
        if v[i + k] != p[k] {
            assert(v@.subrange(i as int, i + p@.len())[k as int] != p@[k as int]);
            return false;
        }
        k = k + 1;
    }
    assert(v@.subrange(i as int, i + p@.len()) =~= p@);
    true
}

/// Splits `line` at every occurrence of `sep` and cleans every piece.
pub fn collect_fields(line: &str, sep: &str) -> (r: Vec<String>)
    ensures
        r@.map_values(|f: String| f@) == split_text(line@, sep@).map_values(|t: Seq<char>| cleaned(t)),
{
    let v = chars_of(line);
    let p = chars_of(sep);
    let n = v.len();
    let mut fields: Vec<String> = Vec::new();
    if p.len() == 0 {
        let ghost parts = split_text(line@, sep@);
        assert(sep@.len() == 0);
        assert(parts =~= seq![Seq::empty()] + line@.map_values(|c: char| seq![c]) + seq![Seq::<char>::empty()]);
        assert(parts.len() == n + 2);
        assert forall|k: int| 0 <= k < n implies #[trigger] parts[k + 1] == seq![line@[k]] by {
            assert(parts[k + 1] == line@.map_values(|c: char| seq![c])[k]);
        }
        fields.push(clean_chars(&v, 0, 0));
        let mut i: usize = 0;
        while i < n
            invariant
                n == v@.len(),
                v@ == line@,
                p@.len() == 0,
                parts == split_text(line@, sep@),
                parts.len() == n + 2,
                parts[0] == Seq::<char>::empty(),
                parts[n + 1] == Seq::<char>::empty(),
                forall|k: int| 0 <= k < n ==> #[trigger] parts[k + 1] == seq![line@[k]],
                0 <= i <= n,
                fields@.len() == i + 1,
                forall|k: int| 0 <= k <= i ==> #[trigger] fields@[k]@ == cleaned(parts[k]),
            decreases n - i,
        {
            assert(parts[i + 1] == seq![line@[i as int]]);
            assert(v@.subrange(i as int, i + 1) =~= parts[i + 1]);
            fields.push(clean_chars(&v, i, i + 1));
            i = i + 1;
        }
        assert(v@.subrange(0, 0) =~= parts[0]);
        assert(v@.subrange(n as int, n as int) =~= parts[n + 1]);
        fields.push(clean_chars(&v, n, n));
        assert(fields@.map_values(|f: String| f@) =~= parts.map_values(|t: Seq<char>| cleaned(t)));
        return fields;
    }
    let m = p.len();
    let ghost s = line@;
    let ghost mut raw: Seq<Seq<char>> = Seq::empty();
    let mut start: usize = 0;
    let mut i: usize = 0;
    while m <= n - i
        invariant
            n == v@.len(),
            v@ == s,
            s == line@,
            p@ == sep@,
            m == p@.len(),
            m >= 1,
            start <= i,
            i <= n,
            fields@.len() == raw.len(),
            forall|k: int| 0 <= k < raw.len() ==> #[trigger] fields@[k]@ == cleaned(raw[k]),
            raw + split_from(s, sep@, start as int, i as int) == split_from(s, sep@, 0, 0),
        decreases n - i,
    {
        if matches_at(&v, &p, i) {
            let f = clean_chars(&v, start, i);
            proof {
                let t = s.subrange(start as int, i as int);
                assert(raw + (seq![t] + split_from(s, sep@, i + m, i + m))
                    =~= raw.push(t) + split_from(s, sep@, i + m, i + m));
                raw = raw.push(t);
            }
            fields.push(f);
            start = i + m;
            i = i + m;
        } else {
            i = i + 1;
        }
    }
    let f = clean_chars(&v, start, n);
    proof {
        let t = s.subrange(start as int, n as int);
        assert(raw + seq![t] =~= raw.push(t));
        raw = raw.push(t);
    }
    fields.push(f);
    assert(fields@.map_values(|f: String| f@) =~= split_text(line@, sep@).map_values(|t: Seq<char>| cleaned(t)));
    fields
}

/// The kind of number a token looks like.
#[derive(Debug, Clone, Copy, PartialEq, Eq, Structural)]
pub enum DigitType {
    Integer,
    Float,
}

/// Position `i` of `t` holds a digit, a point, or a minus sign that leads
/// a token of two or more characters.
pub open spec fn number_char_ok(t: Seq<char>, i: int) -> bool {
    &&& (t[i] == '-' ==> i == 0 && t.len() >= 2)
    &&& (is_digit_char(t[i]) || t[i] == '-' || t[i] == '.')
}

pub open spec fn has_point(t: Seq<char>) -> bool {
    exists|i: int| 0 <= i < t.len() && #[trigger] t[i] == '.'
}

pub open spec fn one_point_at_most(t: Seq<char>) -> bool {
    forall|i: int, j: int| 0 <= i < t.len() && 0 <= j < t.len() && #[trigger] t[i] == '.' && #[trigger] t[j] == '.' ==> i == j
}

/// Digits with at most one point and an optional leading minus: a float
/// when the point is there, an integer otherwise.
pub open spec fn digit_kind(t: Seq<char>) -> Option<DigitType> {
    if t.len() > 0 && (forall|i: int| 0 <= i < t.len() ==> #[trigger] number_char_ok(t, i)) && one_point_at_most(t) {
        if has_point(t) {
            Some(DigitType::Float)
        } else {
            Some(DigitType::Integer)
        }
    } else {
        None
    }
}

/// Whether `text` looks like a number, and which kind.
pub fn is_digit(text: &str) -> (r: Option<DigitType>)
    ensures
        r == digit_kind(text@),
{
    let v = chars_of(text);
    let n = v.len();
    if n == 0 {
        return None;
    }
    let mut point: Option<usize> = None;
    let mut i: usize = 0;
    while i < n
        invariant
            n == v@.len(),
            v@ == text@,
            0 <= i <= n,
            forall|k: int| 0 <= k < i ==> #[trigger] number_char_ok(v@, k),
            match point {
                Some(q) => q < i && v@[q as int] == '.' && forall|k: int| 0 <= k < i && #[trigger] v@[k] == '.' ==> k == q,
                None => forall|k: int| 0 <= k < i ==> #[trigger] v@[k] != '.',
            },
        decreases n - i,
    {
        let c = v[i];
        if c == '-' && (i != 0 || n < 2) {
            assert(!number_char_ok(v@, i as int));
            return None;
        }
        if c == '.' {
            match point {
                Some(q) => {
                    assert(!one_point_at_most(v@)) by {
                        assert(v@[q as int] == '.' && v@[i as int] == '.');
                    }
                    return None;
                },
                None => {
                    point = Some(i);
                },
            }
        } else if !('0' <= c && c <= '9') && c != '-' {
            assert(!number_char_ok(v@, i as int));
            return None;
        }
        i = i + 1;
    }
    match point {
        Some(q) => {
            assert(v@[q as int] == '.');
            Some(DigitType::Float)
        },
        None => Some(DigitType::Integer),
    }
}

/// The value a token stands for without a schema: a number when it looks
/// like one and reads as one, `true` and `false` as booleans, `-`, `null`
/// and the empty token as null, any other token as text.
pub open spec fn plain_value(t: Seq<char>) -> ValueView {
    if digit_kind(t) == Some(DigitType::Float) && is_float_text(t) {
        ValueView::Float(t)
    } else if digit_kind(t) == Some(DigitType::Integer) && signed_text_value(t) is Some && i128::MIN
        <= signed_text_value(t)->0 <= i128::MAX {
        ValueView::Int(signed_text_value(t)->0)
    } else if t == seq!['t', 'r', 'u', 'e'] {
        ValueView::Bool(true)
    } else if t == seq!['f', 'a', 'l', 's', 'e'] {
        ValueView::Bool(false)
    } else if t == seq!['-'] || t == seq!['n', 'u', 'l', 'l'] || t.len() == 0 {
        ValueView::Null
    } else {
        ValueView::Str(t)
    }
}

/// The value of a token read without a schema.
pub fn field_to_value(field: &str) -> (r: TypedValue)
    ensures
        r@ == plain_value(field@),
{
    let v = chars_of(field);
    match is_digit(field) {
        Some(DigitType::Float) => {
            if float_text_ok(v.as_slice()) {
                return TypedValue::Float(String::from_str(field));
            }
        },
        Some(DigitType::Integer) => {
            if let Some(x) = parse_i128(field) {
                return TypedValue::Int(x);
            }
        },
        None => {},
    }
    let t = ['t', 'r', 'u', 'e'];
    let f = ['f', 'a', 'l', 's', 'e'];
    let dash = ['-'];
    let null = ['n', 'u', 'l', 'l'];
    assert(t@ =~= seq!['t', 'r', 'u', 'e']);
    assert(f@ =~= seq!['f', 'a', 'l', 's', 'e']);
    assert(dash@ =~= seq!['-']);
    assert(null@ =~= seq!['n', 'u', 'l', 'l']);
    if chars_equal(v.as_slice(), t.as_slice()) {
        TypedValue::Bool(true)
    } else if chars_equal(v.as_slice(), f.as_slice()) {
        TypedValue::Bool(false)
    } else if chars_equal(v.as_slice(), dash.as_slice()) || chars_equal(v.as_slice(), null.as_slice()) || v.len() == 0 {
        TypedValue::Null
    } else {
        TypedValue::Str(String::from_str(field))
    }
}

/// The position of the first entry named `name`.
pub open spec fn name_index(rec: RecordView, name: Seq<char>) -> int {
    choose|j: int| 0 <= j < rec.len() && rec[j].0 == name && forall|t: int| 0 <= t < j ==> #[trigger] rec[t].0 != name
}

/// `rec` with `name` set to `v`: in place when the name is there, at the end otherwise.
pub open spec fn put(rec: RecordView, name: Seq<char>, v: ValueView) -> RecordView {
    if has_name(rec, name) {
        rec.update(name_index(rec, name), (name, v))
    } else {
        rec.push((name, v))
    }
}

/// The object of a line read without a schema, from position `i` on: each
/// header set to the plain value of the field beside it.
pub open spec fn plain_object(headers: Seq<Seq<char>>, f: Seq<Seq<char>>, i: int, rec: RecordView) -> RecordView
    decreases headers.len() - i,
{
    if i < 0 || i >= headers.len() || i >= f.len() {
        rec
    } else {
        plain_object(headers, f, i + 1, put(rec, headers[i], plain_value(f[i])))
    }
}

fn put_value(rec: &mut Record, name: &String, v: TypedValue)
    ensures
        record_view(*final(rec)) == put(record_view(*old(rec)), name@, v@),
{
    let ghost r0 = record_view(*rec);
    let mut j: usize = 0;
    while j < rec.len()
        invariant
            0 <= j <= rec@.len(),
            r0 == record_view(*rec),
            r0 == record_view(*old(rec)),
            forall|t: int| 0 <= t < j ==> #[trigger] rec@[t].0@ != name@,
        decreases rec@.len() - j,
    {
        if rec[j].0 == *name {
            proof {
                assert(r0[j as int].0 == name@);
                assert(forall|t: int| 0 <= t < j ==> #[trigger] r0[t].0 != name@);
                assert(has_name(r0, name@));
                let jj = j as int;
                assert(0 <= jj < r0.len() && r0[jj].0 == name@ && forall|t: int| 0 <= t < jj ==> #[trigger] r0[t].0 != name@);
                let q = name_index(r0, name@);
                assert(0 <= q < r0.len() && r0[q].0 == name@ && forall|t: int| 0 <= t < q ==> #[trigger] r0[t].0 != name@);
                assert(q == j as int) by {
                    if q < j {
                        assert(r0[q].0 != name@);
                    } else if q > j {
                        assert(r0[j as int].0 != name@);
                    }
                }
            }
            rec.set(j, (name.clone(), v));
            assert(record_view(*rec) =~= r0.update(j as int, (name@, v@)));
            return;
        }
        j = j + 1;
    }
    assert(!has_name(r0, name@)) by {
        if has_name(r0, name@) {
            let t = choose|t: int| 0 <= t < r0.len() && (#[trigger] r0[t]).0 == name@;
            assert(rec@[t].0@ == name@);
        }
    }
    rec.push((name.clone(), v));
    assert(record_view(*rec) =~= r0.push((name@, v@)));
}

/// Reads a line without a schema: each header takes the plain value of the
/// field beside it; a repeated header keeps its first place and its last value.
pub fn csv_line_to_json(line: &str, sep: &str, headers: &Vec<String>) -> (r: Record)
    ensures
        record_view(r) == plain_object(
            headers@.map_values(|h: String| h@),
            split_text(line@, sep@).map_values(|t: Seq<char>| cleaned(t)),
            0,
            Seq::empty(),
        ),
{
    let fields = collect_fields(line, sep);
    let ghost hs = headers@.map_values(|h: String| h@);
    let ghost fs = fields@.map_values(|f: String| f@);
    let mut obj: Record = Vec::new();
    assert(record_view(obj) =~= Seq::empty());
    let mut i: usize = 0;
    while i < headers.len() && i < fields.len()
        invariant
            hs == headers@.map_values(|h: String| h@),
            fs == fields@.map_values(|f: String| f@),
            0 <= i <= headers@.len(),
            plain_object(hs, fs, 0, Seq::empty()) == plain_object(hs, fs, i as int, record_view(obj)),
        decreases headers@.len() - i,
    {
        let v = field_to_value(fields[i].as_str());
        put_value(&mut obj, &headers[i], v);
        i = i + 1;
    }
    obj
}

/// The record of a line checked column by column, from position `i` on:
/// each column whose header names a spec is set to its coercion outcome
/// `outs[i]`, or to null when that is a rejection and the field is optional;
/// a rejected required field gives `None`. A later column of the same field
/// overwrites the earlier one.
pub open spec fn checked_object(
    specs: Seq<FieldSpecView>,
    align: Seq<Option<int>>,
    f: Seq<Seq<char>>,
    outs: Seq<Option<ValueView>>,
    i: int,
    rec: RecordView,
) -> Option<RecordView>
    decreases paired(align, f) - i,
{
    if i < 0 || i >= paired(align, f) {
        Some(rec)
    } else {
        match align[i] {
            Some(k) => if 0 <= k < specs.len() {
                match outs[i] {
                    Some(v) => checked_object(specs, align, f, outs, i + 1, put(rec, specs[k].name, v)),
                    None => if specs[k].optional {
                        checked_object(specs, align, f, outs, i + 1, put(rec, specs[k].name, ValueView::Null))
                    } else {
                        None
                    },
                }
            } else {
                checked_object(specs, align, f, outs, i + 1, rec)
            },
            None => checked_object(specs, align, f, outs, i + 1, rec),
        }
    }
}

pub open spec fn opt_record(r: Option<Record>) -> Option<RecordView> {
    match r {
        Some(rec) => Some(record_view(rec)),
        None => None,
    }
}

/// The cleaned pieces of a line split at `sep`.
pub open spec fn plain_fields(line: Seq<char>, sep: Seq<char>) -> Seq<Seq<char>> {
    split_text(line, sep).map_values(|t: Seq<char>| cleaned(t))
}

/// The spec each header names.
pub open spec fn header_specs(specs: Seq<FieldSpecView>, headers: Seq<String>) -> Seq<Option<int>> {
    Seq::new(headers.len(), |p: int| resolve_spec(specs, headers[p]@))
}

/// Reads a line against a schema, column by column, without defaults and
/// without looking for missing fields; `None` when a required field's token
/// is rejected.
pub fn csv_line_to_payment(line: &str, sep: &str, headers: &Vec<String>, schema: &Schema) -> (r: Option<Record>)
    ensures
        exists|outs: Seq<Option<ValueView>>|
            outcomes_ok(
                schema@,
                header_specs(schema@, headers@),
                plain_fields(line@, sep@),
                outs,
            ) && opt_record(r) == #[trigger] checked_object(
                schema@,
                header_specs(schema@, headers@),
                plain_fields(line@, sep@),
                outs,
                0,
                Seq::empty(),
            ),
{
    let fields = collect_fields(line, sep);
    let ghost specs = schema@;
    let ghost al = header_specs(specs, headers@);
    let ghost f = fields@.map_values(|s: String| s@);
    assert(f == plain_fields(line@, sep@));
    let m = if headers.len() < fields.len() {
        headers.len()
    } else {
        fields.len()
    };
    assert(m == paired(al, f));
    let ghost mut ov: Seq<Option<ValueView>> = Seq::new(m as nat, |p: int| fallback_outcome(specs, al[p], f[p]));
    assert(outcomes_ok(specs, al, f, ov));
    let mut obj: Record = Vec::new();
    assert(record_view(obj) =~= Seq::empty());
    let mut i: usize = 0;
    while i < m
        invariant
            m == paired(al, f),
            al == header_specs(specs, headers@),
            f == fields@.map_values(|s: String| s@),
            f == plain_fields(line@, sep@),
            specs == schema@,
            ov.len() == m,
            outcomes_ok(specs, al, f, ov),
            0 <= i <= m,
            forall|o: Seq<Option<ValueView>>|
                o.len() == m && agree_before(o, ov, i as int) ==> #[trigger] checked_object(specs, al, f, o, 0, Seq::empty())
                    == checked_object(specs, al, f, o, i as int, record_view(obj)),
        decreases m - i,
    {
        let ghost ov0 = ov;
        let a = schema.resolve(&headers[i]);
        assert(opt_index(a) == al[i as int]);
        match a {
            Some(k) => {
                proof {
                    lemma_resolve_in_bounds(specs, headers@[i as int]@, specs.len() as int);
                }
                let spec = &schema.specs[k];
                assert(spec@ == specs[k as int]);
                let o = validate_field(fields[i].as_str(), spec);
                proof {
                    ov = ov.update(i as int, opt_view(o));
                    assert forall|p: int| 0 <= p < paired(al, f) implies position_ok(specs, #[trigger] al[p], f[p], ov[p]) by {
                        if p != i {
                            assert(ov[p] == ov0[p]);
                        }
                    }
                }
                let v = match o {
                    Some(x) => x,
                    None => {
                        if spec.optional {
                            TypedValue::Null
                        } else {
                            assert(agree_before(ov, ov0, i as int));
                            assert(checked_object(specs, al, f, ov, 0, Seq::empty())
                                == checked_object(specs, al, f, ov, i as int, record_view(obj)));
                            assert(checked_object(specs, al, f, ov, i as int, record_view(obj)) is None);
                            return None;
                        }
                    },
                };
                put_value(&mut obj, &spec.name, v);
            },
            None => {},
        }
        proof {
            assert forall|o: Seq<Option<ValueView>>|
                o.len() == m && agree_before(o, ov, i + 1) implies #[trigger] checked_object(specs, al, f, o, 0, Seq::empty())
                    == checked_object(specs, al, f, o, i + 1, record_view(obj)) by {
                assert(agree_before(o, ov0, i as int));
                assert(o[i as int] == ov[i as int]);
            }
        }
        i = i + 1;
    }
    assert(checked_object(specs, al, f, ov, 0, Seq::empty()) == checked_object(specs, al, f, ov, m as int, record_view(obj)));
    Some(obj)
}

} // verus!
