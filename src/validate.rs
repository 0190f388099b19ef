use vstd::prelude::*;
use crate::schema::{DataType, FieldSpec};
use crate::utils::{chars_of, string_of};

verus! {

/// A coerced field value, equivalent to a JSON scalar. A float keeps the
/// text that was accepted as a 64-bit float.
#[derive(Debug, PartialEq)]
pub enum TypedValue {
    Null,
    Bool(bool),
    Int(i128),
    Uint(u128),
    Float(String),
    Str(String),
}

/// The mathematical content of a `TypedValue`.
pub ghost enum ValueView {
    Null,
    Bool(bool),
    Int(int),
    Uint(int),
    Float(Seq<char>),
    Str(Seq<char>),
}

impl View for TypedValue {
    type V = ValueView;

    open spec fn view(&self) -> ValueView {
        match self {
            TypedValue::Null => ValueView::Null,
            TypedValue::Bool(b) => ValueView::Bool(*b),
            TypedValue::Int(i) => ValueView::Int(*i as int),
            TypedValue::Uint(u) => ValueView::Uint(*u as int),
            TypedValue::Float(s) => ValueView::Float(s@),
            TypedValue::Str(s) => ValueView::Str(s@),
        }
    }
}

impl TypedValue {
    /// A copy of this value.
    pub fn duplicate(&self) -> (r: TypedValue)
        ensures
            r@ == self@,
    {
        match self {
            TypedValue::Null => TypedValue::Null,
            TypedValue::Bool(b) => TypedValue::Bool(*b),
            TypedValue::Int(i) => TypedValue::Int(*i),
            TypedValue::Uint(u) => TypedValue::Uint(*u),
            TypedValue::Float(s) => TypedValue::Float(s.clone()),
            TypedValue::Str(s) => TypedValue::Str(s.clone()),
        }
    }
}

pub open spec fn opt_view(v: Option<TypedValue>) -> Option<ValueView> {
    match v {
        Some(x) => Some(x@),
        None => None,
    }
}

pub open spec fn is_digit(c: char) -> bool {
    '0' <= c <= '9'
}

pub open spec fn all_digits(s: Seq<char>) -> bool {
    forall|i: int| 0 <= i < s.len() ==> is_digit(#[trigger] s[i])
}

pub open spec fn is_sign(c: char) -> bool {
    c == '+' || c == '-'
}

/// The number written by a run of decimal digits.
pub open spec fn digits_value(d: Seq<char>) -> int
    decreases d.len(),
{
    if d.len() == 0 {
        0
    } else {
        digits_value(d.drop_last()) * 10 + ((d.last() as u32) - ('0' as u32))
    }
}

/// The integer written as an optional sign followed by one or more digits.
pub open spec fn signed_text_value(s: Seq<char>) -> Option<int> {
    if s.len() >= 2 && s[0] == '-' && all_digits(s.drop_first()) {
        Some(-digits_value(s.drop_first()))
    } else if s.len() >= 2 && s[0] == '+' && all_digits(s.drop_first()) {
        Some(digits_value(s.drop_first()))
    } else if s.len() >= 1 && all_digits(s) {
        Some(digits_value(s))
    } else {
        None
    }
}

/// The integer written as an optional `+` followed by one or more digits.
pub open spec fn unsigned_text_value(s: Seq<char>) -> Option<int> {
    if s.len() >= 2 && s[0] == '+' && all_digits(s.drop_first()) {
        Some(digits_value(s.drop_first()))
    } else if s.len() >= 1 && all_digits(s) {
        Some(digits_value(s))
    } else {
        None
    }
}

/// Relies on `str::parse::<i128>`: an optional sign and at least one digit,
/// nothing else, whose value fits in `i128`.
#[verifier::external_body]
pub(crate) fn parse_i128(s: &str) -> (r: Option<i128>)
    ensures
        r is Some <==> (signed_text_value(s@) is Some && i128::MIN <= signed_text_value(s@)->0
            <= i128::MAX),
        r is Some ==> r->0 as int == signed_text_value(s@)->0,
{
    s.parse::<i128>().ok()
}

/// Relies on `str::parse::<u128>`: an optional `+` and at least one digit,
/// nothing else, whose value fits in `u128`.
#[verifier::external_body]
fn parse_u128(s: &str) -> (r: Option<u128>)
    ensures
        r is Some <==> (unsigned_text_value(s@) is Some && unsigned_text_value(s@)->0
            <= u128::MAX),
        r is Some ==> r->0 as int == unsigned_text_value(s@)->0,
{
    s.parse::<u128>().ok()
}

/// At `i` stands a sign followed by two digits that make an hour of 24 or more.
pub open spec fn offset_too_large_at(s: Seq<char>, i: int) -> bool {
    &&& 0 <= i && i + 2 < s.len()
    &&& is_sign(s[i]) && is_digit(s[i + 1]) && is_digit(s[i + 2])
    &&& (s[i + 1] > '2' || (s[i + 1] == '2' && s[i + 2] >= '4'))
}

/// Every sign followed by two digits gives an hour below 24. A time-zone
/// offset of a day or more is out of range for a fixed offset.
pub open spec fn offsets_in_range(s: Seq<char>) -> bool {
    forall|i: int| !#[trigger] offset_too_large_at(s, i)
}

fn offsets_ok(s: &str) -> (r: bool)
    ensures
        r == offsets_in_range(s@),
{
    let v = chars_of(s);
    let n = v.len();
    let mut i: usize = 0;
    while n >= 3 && i < n - 2
        invariant
            v@ == s@,
            n == v@.len(),
            forall|k: int| k < i ==> !#[trigger] offset_too_large_at(v@, k),
        decreases n - i,
    {
        let c = v[i];
        let d1 = v[i + 1];
        let d2 = v[i + 2];
        if (c == '+' || c == '-') && '0' <= d1 && d1 <= '9' && '0' <= d2 && d2 <= '9' {
            if d1 > '2' || (d1 == '2' && d2 >= '4') {
                assert(offset_too_large_at(v@, i as int));
                return false;
            }
        }
        i = i + 1;
    }
    assert forall|k: int| !#[trigger] offset_too_large_at(v@, k) by {}
    true
}

/// Relies on `dateparser::parse`: the timestamp it reads from the text, printed.
/// The outcome depends on the local time zone and clock, so nothing is claimed of
/// it. A time-zone offset of 24 hours or more makes the crate panic (through
/// `chrono::FixedOffset::east`), hence the `requires`.
#[verifier::external_body]
fn parse_date_text(s: &str) -> (r: Option<String>)
    requires
        offsets_in_range(s@),
{
    dateparser::parse(s).ok().map(|d| d.to_string())
}

/// `c` equals the lower-case ASCII letter `l`, ignoring case.
pub open spec fn same_letter(c: char, l: char) -> bool {
    c == l || (c as u32) + 32 == (l as u32)
}

/// `Digit+ | Digit+ '.' Digit* | Digit* '.' Digit+`
pub open spec fn is_mantissa(m: Seq<char>) -> bool {
    (m.len() >= 1 && all_digits(m)) || (m.len() >= 2 && exists|p: int|
        0 <= p < m.len() && #[trigger] m[p] == '.' && all_digits(m.subrange(0, p))
            && all_digits(m.subrange(p + 1, m.len() as int)))
}

/// `Sign? Digit+`
pub open spec fn is_exponent(x: Seq<char>) -> bool {
    (x.len() >= 1 && all_digits(x)) || (x.len() >= 2 && is_sign(x[0]) && all_digits(x.drop_first()))
}

/// A mantissa, optionally followed by `e` or `E` and an exponent.
pub open spec fn is_decimal(t: Seq<char>) -> bool {
    is_mantissa(t) || exists|p: int|
        0 <= p < t.len() && same_letter(#[trigger] t[p], 'e') && is_mantissa(t.subrange(0, p))
            && is_exponent(t.subrange(p + 1, t.len() as int))
}

/// A decimal number in the syntax of `f64`'s `FromStr`: an optional sign and
/// a decimal with an optional exponent. The words `inf`, `infinity` and `nan`,
/// which that parser also takes, are refused: no JSON number holds them.
pub open spec fn is_float_text(s: Seq<char>) -> bool {
    if s.len() >= 1 && is_sign(s[0]) {
        is_decimal(s.drop_first())
    } else {
        is_decimal(s)
    }
}

fn digits_only(v: &[char]) -> (r: bool)
    ensures
        r == all_digits(v@),
{
    let mut i: usize = 0;
    while i < v.len()
        invariant
            0 <= i <= v@.len(),
            forall|k: int| 0 <= k < i ==> is_digit(#[trigger] v@[k]),
        decreases v@.len() - i,
    {
        if !('0' <= v[i] && v[i] <= '9') {
            return false;
        }
        i = i + 1;
    }
    true
}

fn letter_matches(c: char, l: char) -> (r: bool)
    ensures
        r == same_letter(c, l),
{
    c == l || (c as u32) + 32 == (l as u32)
}

pub(crate) fn chars_equal(v: &[char], w: &[char]) -> (r: bool)
    ensures
        r == (v@ == w@),
{
    if v.len() != w.len() {
        return false;
    }
    let mut i: usize = 0;
    while i < v.len()
        invariant
            v@.len() == w@.len(),
            0 <= i <= v@.len(),
            forall|k: int| 0 <= k < i ==> v@[k] == w@[k],
        decreases v@.len() - i,
    {
        if v[i] != w[i] {
            return false;
        }
        i = i + 1;
    }
    assert(v@ =~= w@);
    true
}

fn mantissa_ok(v: &[char]) -> (r: bool)
    ensures
        r == is_mantissa(v@),
{
    let n = v.len();
    let mut p: usize = 0;
    while p < n && v[p] != '.'
        invariant
            0 <= p <= n == v@.len(),
            forall|k: int| 0 <= k < p ==> v@[k] != '.',
        decreases n - p,
    {
        p = p + 1;
    }
    if p == n {
        let r = n >= 1 && digits_only(v);
        proof {
            if !r && n >= 2 {
                assert forall|q: int| 0 <= q < n implies #[trigger] v@[q] != '.' by {}
            }
        }
        r
    } else {
        let left = digits_only(&v[0..p]);
        let right = digits_only(&v[p + 1..n]);
        let r = n >= 2 && left && right;
        proof {
            assert(!all_digits(v@)) by {
                assert(!is_digit(v@[p as int]));
            }
            if !r && n >= 2 {
                assert forall|q: int|
                    0 <= q < n && #[trigger] v@[q] == '.' && all_digits(v@.subrange(0, q))
                    implies !all_digits(v@.subrange(q + 1, n as int)) by {
                    if q < p {
                    } else if q > p {
                        assert(v@.subrange(0, q)[p as int] == '.');
                    } else {
                    }
                }
            }
        }
        r
    }
}

fn exponent_ok(v: &[char]) -> (r: bool)
    ensures
        r == is_exponent(v@),
{
    let n = v.len();
    if n >= 1 && digits_only(v) {
        return true;
    }
    if n >= 2 && (v[0] == '+' || v[0] == '-') {
        let r = digits_only(&v[1..n]);
        assert(v@.subrange(1, n as int) =~= v@.drop_first());
        r
    } else {
        false
    }
}

fn decimal_ok(v: &[char]) -> (r: bool)
    ensures
        r == is_decimal(v@),
{
    let n = v.len();
    let mut p: usize = 0;
    while p < n && !letter_matches(v[p], 'e')
        invariant
            0 <= p <= n == v@.len(),
            forall|k: int| 0 <= k < p ==> !same_letter(#[trigger] v@[k], 'e'),
        decreases n - p,
    {
        p = p + 1;
    }
    if p == n {
        mantissa_ok(v)
    } else {
        proof {
            assert(!is_mantissa(v@)) by {
                assert(!is_digit(v@[p as int]) && v@[p as int] != '.');
                if exists|q: int| 0 <= q < v@.len() && #[trigger] v@[q] == '.' && all_digits(v@.subrange(0, q))
                    && all_digits(v@.subrange(q + 1, v@.len() as int)) {
                    let q = choose|q: int| 0 <= q < v@.len() && #[trigger] v@[q] == '.' && all_digits(v@.subrange(0, q))
                        && all_digits(v@.subrange(q + 1, v@.len() as int));
                    if p < q {
                        assert(v@.subrange(0, q)[p as int] == v@[p as int]);
                    } else {
                        assert(v@.subrange(q + 1, n as int)[p - q - 1] == v@[p as int]);
                    }
                }
            }
        }
        let m = mantissa_ok(&v[0..p]);
        let x = exponent_ok(&v[p + 1..n]);
        let r = m && x;
        proof {
            if !r {
                assert forall|q: int|
                    0 <= q < n && same_letter(#[trigger] v@[q], 'e') && is_mantissa(v@.subrange(0, q))
                    implies !is_exponent(v@.subrange(q + 1, n as int)) by {
                    if q > p {
                        let mq = v@.subrange(0, q);
                        assert(mq[p as int] == v@[p as int]);
                        assert(!is_digit(mq[p as int]) && mq[p as int] != '.');
                        assert(!all_digits(mq));
                        if exists|s: int| 0 <= s < mq.len() && #[trigger] mq[s] == '.' && all_digits(mq.subrange(0, s))
                            && all_digits(mq.subrange(s + 1, mq.len() as int)) {
                            let s = choose|s: int| 0 <= s < mq.len() && #[trigger] mq[s] == '.' && all_digits(mq.subrange(0, s))
                                && all_digits(mq.subrange(s + 1, mq.len() as int));
                            if p < s {
                                assert(mq.subrange(0, s)[p as int] == v@[p as int]);
                            } else {
                                assert(mq.subrange(s + 1, mq.len() as int)[p - s - 1] == v@[p as int]);
                            }
                        }
                    }
                }
            }
        }
        r
    }
}

/// Whether the characters are a decimal number as `is_float_text` defines it.
pub fn float_text_ok(v: &[char]) -> (r: bool)
    ensures
        r == is_float_text(v@),
{
    let n = v.len();
    if n >= 1 && (v[0] == '+' || v[0] == '-') {
        let r = decimal_ok(&v[1..n]);
        assert(v@.subrange(1, n as int) =~= v@.drop_first());
        r
    } else {
        decimal_ok(v)
    }
}

/// `s` with every `-` turned into `/`.
pub open spec fn dashes_to_slashes(s: Seq<char>) -> Seq<char> {
    s.map_values(|c: char| if c == '-' { '/' } else { c })
}

fn slashes_for_dashes(s: &str) -> (r: String)
    ensures
        r@ == dashes_to_slashes(s@),
{
    let v = chars_of(s);
    let mut out: Vec<char> = Vec::new();
    let mut i: usize = 0;
    while i < v.len()
        invariant
            0 <= i <= v@.len(),
            v@ == s@,
            out@ == dashes_to_slashes(v@.subrange(0, i as int)),
        decreases v@.len() - i,
    {
        let c = if v[i] == '-' { '/' } else { v[i] };
        out.push(c);
        i = i + 1;
        assert(out@ =~= dashes_to_slashes(v@.subrange(0, i as int)));
    }
    assert(v@.subrange(0, i as int) =~= s@);
    string_of(out.as_slice())
}

/// What coercion gives for every type but `Date`, whose outcome comes from
/// an outside date parser. `None` means the token was rejected.
pub open spec fn coerce(tok: Seq<char>, ty: DataType, optional: bool) -> Option<ValueView> {
    match ty {
        DataType::String => if tok.len() > 0 {
            Some(ValueView::Str(tok))
        } else if optional {
            Some(ValueView::Null)
        } else {
            None
        },
        DataType::Float => if is_float_text(tok) {
            Some(ValueView::Float(tok))
        } else {
            None
        },
        DataType::Int => match signed_text_value(tok) {
            Some(v) => if i128::MIN <= v <= i128::MAX {
                Some(ValueView::Int(v))
            } else {
                None
            },
            None => None,
        },
        DataType::Uint => match unsigned_text_value(tok) {
            Some(v) => if v <= u128::MAX {
                Some(ValueView::Uint(v))
            } else {
                None
            },
            None => None,
        },
        DataType::Bool => if tok == seq!['t', 'r', 'u', 'e'] {
            Some(ValueView::Bool(true))
        } else if tok == seq!['f', 'a', 'l', 's', 'e'] {
            Some(ValueView::Bool(false))
        } else {
            None
        },
        // Country codes are kept as written: this library holds no table of country names.
        DataType::Country => Some(ValueView::Str(tok)),
        DataType::Date => None,
    }
}

/// `out` is a possible coercion of `tok`: the exact one for every type but
/// `Date`; for `Date`, a rejection or some text.
pub open spec fn coerced(tok: Seq<char>, ty: DataType, optional: bool, out: Option<ValueView>) -> bool {
    match ty {
        DataType::Date => out is None || out matches Some(ValueView::Str(_)),
        _ => out == coerce(tok, ty, optional),
    }
}

/// Converts a cleaned token to a value of the field's type, or `None` when
/// the token is not one. A country code is kept as written: this library
/// holds no table of country names. A date is read by an outside date parser,
/// after each `-` is turned into `/`; a text with a time-zone offset of 24
/// hours or more is rejected before that call.
pub fn validate_field(field: &str, spec: &FieldSpec) -> (r: Option<TypedValue>)
    ensures
        coerced(field@, spec.field_type, spec.optional, opt_view(r)),
{
    match spec.field_type {
        DataType::String => {
            let n = field.unicode_len();
            if n > 0 {
                Some(TypedValue::Str(String::from_str(field)))
            } else if spec.optional {
                Some(TypedValue::Null)
            } else {
                None
            }
        },
        DataType::Float => {
            let v = chars_of(field);
            if float_text_ok(v.as_slice()) {
                Some(TypedValue::Float(String::from_str(field)))
            } else {
                None
            }
        },
        DataType::Int => match parse_i128(field) {
            Some(i) => Some(TypedValue::Int(i)),
            None => None,
        },
        DataType::Uint => match parse_u128(field) {
            Some(u) => Some(TypedValue::Uint(u)),
            None => None,
        },
        DataType::Bool => {
            let v = chars_of(field);
            let t = ['t', 'r', 'u', 'e'];
            let f = ['f', 'a', 'l', 's', 'e'];
            assert(t@ =~= seq!['t', 'r', 'u', 'e']);
            assert(f@ =~= seq!['f', 'a', 'l', 's', 'e']);
            if chars_equal(v.as_slice(), t.as_slice()) {
                Some(TypedValue::Bool(true))
            } else if chars_equal(v.as_slice(), f.as_slice()) {
                Some(TypedValue::Bool(false))
            } else {
                None
            }
        },
        DataType::Country => Some(TypedValue::Str(String::from_str(field))),
        DataType::Date => {
            let fixed = slashes_for_dashes(field);
            if offsets_ok(fixed.as_str()) {
                date_value(parse_date_text(fixed.as_str()))
            } else {
                None
            }
        },
    }
}

/// The value of a date field from what the date parser gave: the printed
/// timestamp as text, or a rejection when it read no date.
pub fn date_value(parsed: Option<String>) -> (r: Option<TypedValue>)
    ensures
        opt_view(r) == match parsed {
            Some(d) => Some(ValueView::Str(d@)),
            None => None::<ValueView>,
        },
{
    match parsed {
        Some(d) => Some(TypedValue::Str(d)),
        None => None,
    }
}

} // verus!
