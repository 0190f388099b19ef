use vstd::prelude::*;
use crate::field::{collect_fields, line_fields};
use crate::schema::{lemma_resolve_in_bounds, names_unique, opt_index, resolve_spec, DataType, FieldSpecView, Schema};
use crate::validate::{coerce, coerced, opt_view, validate_field, TypedValue, ValueView};

verus! {

/// The field of a `BadField` error: its canonical name, its type and the
/// token that was rejected.
#[derive(Debug)]
pub struct FieldInfo {
    pub field_name: String,
    pub field_type: DataType,
    pub value: String,
}

/// Why a line gave no record.
#[derive(Debug)]
pub enum ParseError {
    /// A present column holds a token that its required field rejects.
    BadField(FieldInfo),
    /// A required field has no column in the line.
    MissingField(String),
    /// No line is left.
    EndOfInput,
}

pub ghost enum ParseErrorView {
    BadField(Seq<char>, DataType, Seq<char>),
    MissingField(Seq<char>),
    EndOfInput,
}

impl View for ParseError {
    type V = ParseErrorView;

    open spec fn view(&self) -> ParseErrorView {
        match self {
            ParseError::BadField(i) => ParseErrorView::BadField(i.field_name@, i.field_type, i.value@),
            ParseError::MissingField(n) => ParseErrorView::MissingField(n@),
            ParseError::EndOfInput => ParseErrorView::EndOfInput,
        }
    }
}

/// One parsed line: canonical field names with their values, in the order
/// they were set.
pub type Record = Vec<(String, TypedValue)>;

pub type RecordView = Seq<(Seq<char>, ValueView)>;

pub open spec fn record_view(r: Record) -> RecordView {
    r@.map_values(|e: (String, TypedValue)| (e.0@, e.1@))
}

pub open spec fn result_view(r: Result<Record, ParseError>) -> Result<RecordView, ParseErrorView> {
    match r {
        Ok(rec) => Ok(record_view(rec)),
        Err(e) => Err(e@),
    }
}

/// The record already holds a value for `name`.
pub open spec fn has_name(rec: RecordView, name: Seq<char>) -> bool {
    exists|j: int| 0 <= j < rec.len() && (#[trigger] rec[j]).0 == name
}

/// The value a present column gives its field, from the coercion outcome
/// `out`: the coerced value, else the default, else null when the field is
/// optional; `None` when the field is required and has no default.
pub open spec fn settle(f: FieldSpecView, out: Option<ValueView>) -> Option<ValueView> {
    match out {
        Some(v) => Some(v),
        None => match f.default_value {
            Some(d) => Some(d),
            None => if f.optional {
                Some(ValueView::Null)
            } else {
                None
            },
        },
    }
}

/// The sweep after the columns: each field not yet set becomes null when
/// optional; the first required one is reported missing.
pub open spec fn sweep(specs: Seq<FieldSpecView>, rec: RecordView, j: int) -> Result<RecordView, ParseErrorView>
    decreases specs.len() - j,
{
    if j < 0 || j >= specs.len() {
        Ok(rec)
    } else if has_name(rec, specs[j].name) {
        sweep(specs, rec, j + 1)
    } else if specs[j].optional {
        sweep(specs, rec.push((specs[j].name, ValueView::Null)), j + 1)
    } else {
        Err(ParseErrorView::MissingField(specs[j].name))
    }
}

/// The number of positions where a header and a token stand together.
pub open spec fn paired(align: Seq<Option<int>>, f: Seq<Seq<char>>) -> int {
    if align.len() < f.len() {
        align.len() as int
    } else {
        f.len() as int
    }
}

/// The outcome of a line from position `i` on, with `rec` built so far:
/// `align[i]` is the spec that header `i` names, `f[i]` the token at `i` and
/// `outs[i]` its coercion outcome. The first field set wins; the first
/// required field with a rejected token and no default ends the line.
pub open spec fn fill(
    specs: Seq<FieldSpecView>,
    align: Seq<Option<int>>,
    f: Seq<Seq<char>>,
    outs: Seq<Option<ValueView>>,
    i: int,
    rec: RecordView,
) -> Result<RecordView, ParseErrorView>
    decreases paired(align, f) - i,
{
    if i < 0 || i >= paired(align, f) {
        sweep(specs, rec, 0)
    } else {
        match align[i] {
            Some(k) => if 0 <= k < specs.len() && !has_name(rec, specs[k].name) {
                match settle(specs[k], outs[i]) {
                    Some(v) => fill(specs, align, f, outs, i + 1, rec.push((specs[k].name, v))),
                    None => Err(ParseErrorView::BadField(specs[k].name, specs[k].field_type, f[i])),
                }
            } else {
                fill(specs, align, f, outs, i + 1, rec)
            },
            None => fill(specs, align, f, outs, i + 1, rec),
        }
    }
}

/// `outs` holds a possible coercion outcome for each paired position whose
/// header names a spec.
pub open spec fn outcomes_ok(
    specs: Seq<FieldSpecView>,
    align: Seq<Option<int>>,
    f: Seq<Seq<char>>,
    outs: Seq<Option<ValueView>>,
) -> bool {
    &&& outs.len() == paired(align, f)
    &&& forall|i: int| 0 <= i < paired(align, f) ==> position_ok(specs, #[trigger] align[i], f[i], outs[i])
}

/// `out` is a possible coercion of `tok` for the spec that `a` names, if any.
pub open spec fn position_ok(specs: Seq<FieldSpecView>, a: Option<int>, tok: Seq<char>, out: Option<ValueView>) -> bool {
    match a {
        Some(k) => 0 <= k < specs.len() ==> coerced(tok, specs[k].field_type, specs[k].optional, out),
        None => true,
    }
}

/// A possible coercion outcome at a position: the exact one for every type
/// but `Date`, a rejection for `Date`.
pub open spec fn fallback_outcome(specs: Seq<FieldSpecView>, a: Option<int>, tok: Seq<char>) -> Option<ValueView> {
    match a {
        Some(k) => if 0 <= k < specs.len() && specs[k].field_type != DataType::Date {
            coerce(tok, specs[k].field_type, specs[k].optional)
        } else {
            None
        },
        None => None,
    }
}

/// `o` and `p` agree before position `i`.
pub open spec fn agree_before(o: Seq<Option<ValueView>>, p: Seq<Option<ValueView>>, i: int) -> bool {
    forall|q: int| 0 <= q < i ==> #[trigger] o[q] == p[q]
}

/// `r` is what a line with fields `f` gives, for some outcome of the coercions.
pub open spec fn line_result(
    specs: Seq<FieldSpecView>,
    align: Seq<Option<int>>,
    f: Seq<Seq<char>>,
    r: Result<RecordView, ParseErrorView>,
) -> bool {
    exists|outs: Seq<Option<ValueView>>|
        outcomes_ok(specs, align, f, outs) && r == #[trigger] fill(specs, align, f, outs, 0, Seq::empty())
}

pub open spec fn align_view(a: Seq<Option<usize>>) -> Seq<Option<int>> {
    a.map_values(|o: Option<usize>| opt_index(o))
}

/// Reads records from a sequence of lines whose first line is the header.
pub struct CSVParser<'a> {
    pub lines: Vec<String>,
    pub pos: usize,
    pub schema: &'a Schema,
    pub headers: Vec<String>,
    pub align: Vec<Option<usize>>,
    pub sep: char,
}

impl<'a> CSVParser<'a> {
    /// The schema is well formed and the alignment holds, for each header,
    /// the spec it names.
    pub open spec fn wf(&self) -> bool {
        &&& self.schema.wf()
        &&& self.align@.len() == self.headers@.len()
        &&& forall|i: int|
            0 <= i < self.align@.len() ==> opt_index(#[trigger] self.align@[i]) == resolve_spec(
                self.schema@,
                self.headers@[i]@,
            )
        &&& 1 <= self.pos <= self.lines@.len()
    }

    pub open spec fn exhausted(&self) -> bool {
        self.pos >= self.lines@.len()
    }

    /// Takes the first line as the header and aligns each of its fields
    /// with the spec it names.
    pub fn new(lines: Vec<String>, schema: &'a Schema, sep: &char) -> (r: Self)
        requires
            lines@.len() >= 1,
            schema.wf(),
        ensures
            r.wf(),
            r.lines == lines,
            r.pos == 1,
            r.schema == schema,
            r.sep == *sep,
            r.headers@.map_values(|h: String| h@) == line_fields(lines@[0]@, *sep),
    {
        let headers = collect_fields(lines[0].as_str(), sep);
        let mut align: Vec<Option<usize>> = Vec::new();
        let mut i: usize = 0;
        while i < headers.len()
            invariant
                0 <= i <= headers@.len(),
                align@.len() == i,
                forall|k: int|
                    0 <= k < i ==> opt_index(#[trigger] align@[k]) == resolve_spec(schema@, headers@[k]@),
            decreases headers@.len() - i,
        {
            let a = schema.resolve(&headers[i]);
            align.push(a);
            i = i + 1;
        }
        CSVParser { lines, pos: 1, schema, headers, align, sep: *sep }
    }

    /// Parses the next line. Every line gives a record or its first error;
    /// once the lines run out, every call gives `EndOfInput`.
    pub fn next(&mut self) -> (r: Result<Record, ParseError>)
        requires
            old(self).wf(),
        ensures
            final(self).wf(),
            old(self).exhausted() ==> (r matches Err(ParseError::EndOfInput)) && *final(self) == *old(self),
            !old(self).exhausted() ==> {
                &&& final(self).pos == old(self).pos + 1
                &&& final(self).lines == old(self).lines
                &&& final(self).schema == old(self).schema
                &&& final(self).headers == old(self).headers
                &&& final(self).align == old(self).align
                &&& final(self).sep == old(self).sep
                &&& line_result(
                    old(self).schema@,
                    align_view(old(self).align@),
                    line_fields(old(self).lines@[old(self).pos as int]@, old(self).sep),
                    result_view(r),
                )
            },
            r matches Err(ParseError::EndOfInput) <==> old(self).exhausted(),
    {
        if self.pos >= self.lines.len() {
            return Err(ParseError::EndOfInput);
        }
        let fields = collect_fields(self.lines[self.pos].as_str(), &self.sep);
        self.pos = self.pos + 1;
        self.parse_fields(&fields)
    }

    /// The outcome of a line whose cleaned fields are `fields`.
    pub fn parse_fields(&self, fields: &Vec<String>) -> (r: Result<Record, ParseError>)
        requires
            self.wf(),
        ensures
            line_result(
                self.schema@,
                align_view(self.align@),
                fields@.map_values(|s: String| s@),
                result_view(r),
            ),
            !(r matches Err(ParseError::EndOfInput)),
    {
        let ghost specs = self.schema@;
        let ghost al = align_view(self.align@);
        let ghost f = fields@.map_values(|s: String| s@);
        let m = if self.align.len() < fields.len() {
            self.align.len()
        } else {
            fields.len()
        };
        assert(m == paired(al, f));
        let ghost mut ov: Seq<Option<ValueView>> = Seq::new(
            m as nat,
            |p: int| fallback_outcome(specs, al[p], f[p]),
        );
        assert(outcomes_ok(specs, al, f, ov));
        let mut rec: Record = Vec::new();
        assert(record_view(rec) =~= Seq::empty());
        let mut i: usize = 0;
        while i < m
            invariant
                self.wf(),
                m == paired(al, f),
                al == align_view(self.align@),
                f == fields@.map_values(|s: String| s@),
                specs == self.schema@,
                ov.len() == m,
                outcomes_ok(specs, al, f, ov),
                0 <= i <= m,
                forall|o: Seq<Option<ValueView>>|
                    o.len() == m && agree_before(o, ov, i as int) ==> #[trigger] fill(specs, al, f, o, 0, Seq::empty())
                        == fill(specs, al, f, o, i as int, record_view(rec)),
            decreases m - i,
        {
            let ghost ov0 = ov;
            let ghost rec0 = record_view(rec);
            match self.align[i] {
                Some(k) => {
                    proof {
                        lemma_resolve_in_bounds(specs, self.headers@[i as int]@, specs.len() as int);
                    }
                    let spec = &self.schema.specs[k];
                    assert(spec@ == specs[k as int]);
                    if !contains_name(&rec, &spec.name) {
                        let o = validate_field(fields[i].as_str(), spec);
                        proof {
                            ov = ov.update(i as int, opt_view(o));
                            assert(outcomes_ok(specs, al, f, ov)) by {
                                assert forall|p: int| 0 <= p < paired(al, f) implies position_ok(
                                    specs,
                                    #[trigger] al[p],
                                    f[p],
                                    ov[p],
                                ) by {
                                    if p != i {
                                        assert(ov[p] == ov0[p]);
                                    }
                                }
                            }
                        }
                        let v = match o {
                            Some(x) => Some(x),
                            None => match &spec.default_value {
                                Some(d) => Some(d.duplicate()),
                                None => if spec.optional {
                                    Some(TypedValue::Null)
                                } else {
                                    None
                                },
                            },
                        };
                        assert(opt_view(v) == settle(specs[k as int], ov[i as int]));
                        match v {
                            Some(x) => {
                                rec.push((spec.name.clone(), x));
                                assert(record_view(rec) =~= rec0.push((specs[k as int].name, x@)));
                            },
                            None => {
                                let r = Err(
                                    ParseError::BadField(
                                        FieldInfo {
                                            field_name: spec.name.clone(),
                                            field_type: spec.field_type,
                                            value: fields[i].clone(),
                                        },
                                    ),
                                );
                                assert(result_view(r) == fill(specs, al, f, ov, i as int, rec0));
                                assert(agree_before(ov, ov0, i as int));
                                assert(fill(specs, al, f, ov, 0, Seq::empty()) == fill(specs, al, f, ov, i as int, rec0));
                                return r;
                            },
                        }
                    }
                },
                None => {},
            }
            proof {
                assert forall|o: Seq<Option<ValueView>>|
                    o.len() == m && agree_before(o, ov, i + 1) implies #[trigger] fill(specs, al, f, o, 0, Seq::empty())
                        == fill(specs, al, f, o, i + 1, record_view(rec)) by {
                    assert(agree_before(o, ov0, i as int));
                    assert(o[i as int] == ov[i as int]);
                }
            }
            i = i + 1;
        }
        let mut j: usize = 0;
        while j < self.schema.specs.len()
            invariant
                self.wf(),
                m == paired(al, f),
                al == align_view(self.align@),
                f == fields@.map_values(|s: String| s@),
                specs == self.schema@,
                ov.len() == m,
                outcomes_ok(specs, al, f, ov),
                0 <= j <= specs.len(),
                fill(specs, al, f, ov, 0, Seq::empty()) == sweep(specs, record_view(rec), j as int),
            decreases specs.len() - j,
        {
            let spec = &self.schema.specs[j];
            assert(spec@ == specs[j as int]);
            if !contains_name(&rec, &spec.name) {
                if spec.optional {
                    let ghost before = record_view(rec);
                    rec.push((spec.name.clone(), TypedValue::Null));
                    assert(record_view(rec) =~= before.push((specs[j as int].name, ValueView::Null)));
                } else {
                    let r = Err(ParseError::MissingField(spec.name.clone()));
                    assert(result_view(r) == sweep(specs, record_view(rec), j as int));
                    return r;
                }
            }
            j = j + 1;
        }
        Ok(rec)
    }
}

/// A present column whose token is rejected takes the default of its field,
/// when the field has one, and the line goes on without an error.
pub proof fn lemma_default_replaces_rejected(
    specs: Seq<FieldSpecView>,
    align: Seq<Option<int>>,
    f: Seq<Seq<char>>,
    outs: Seq<Option<ValueView>>,
    i: int,
    rec: RecordView,
)
    requires
        0 <= i < paired(align, f),
        align[i] matches Some(k) && 0 <= k < specs.len() && !has_name(rec, specs[k].name)
            && specs[k].default_value is Some,
        outs[i] is None,
    ensures
        fill(specs, align, f, outs, i, rec) == fill(
            specs,
            align,
            f,
            outs,
            i + 1,
            rec.push((specs[align[i]->0].name, specs[align[i]->0].default_value->0)),
        ),
{
}

proof fn lemma_push_other_name(rec: RecordView, e: (Seq<char>, ValueView), n: Seq<char>)
    requires
        e.0 != n,
    ensures
        has_name(rec.push(e), n) == has_name(rec, n),
{
    if has_name(rec.push(e), n) {
        let j = choose|j: int| 0 <= j < rec.push(e).len() && (#[trigger] rec.push(e)[j]).0 == n;
        assert(rec[j] == rec.push(e)[j]);
    }
    if has_name(rec, n) {
        let j = choose|j: int| 0 <= j < rec.len() && (#[trigger] rec[j]).0 == n;
        assert(rec.push(e)[j] == rec[j]);
    }
}

proof fn lemma_sweep_keeps(specs: Seq<FieldSpecView>, rec: RecordView, j: int, e: (Seq<char>, ValueView))
    requires
        rec.contains(e),
    ensures
        sweep(specs, rec, j) matches Ok(r) ==> r.contains(e),
    decreases specs.len() - j,
{
    if 0 <= j < specs.len() && !has_name(rec, specs[j].name) && specs[j].optional {
        let x = (specs[j].name, ValueView::Null);
        let k = choose|k: int| 0 <= k < rec.len() && rec[k] == e;
        assert(rec.push(x)[k] == e);
        lemma_sweep_keeps(specs, rec.push(x), j + 1, e);
    } else if 0 <= j < specs.len() && has_name(rec, specs[j].name) {
        lemma_sweep_keeps(specs, rec, j + 1, e);
    }
}

proof fn lemma_sweep_missing_from(specs: Seq<FieldSpecView>, rec: RecordView, j: int)
    requires
        0 <= j,
    ensures
        sweep(specs, rec, j) matches Err(ParseErrorView::MissingField(n)) ==> exists|t: int|
            j <= t < specs.len() && (#[trigger] specs[t]).name == n,
    decreases specs.len() - j,
{
    if 0 <= j < specs.len() {
        if has_name(rec, specs[j].name) {
            lemma_sweep_missing_from(specs, rec, j + 1);
        } else if specs[j].optional {
            lemma_sweep_missing_from(specs, rec.push((specs[j].name, ValueView::Null)), j + 1);
        }
    }
}

proof fn lemma_sweep_sets_null(specs: Seq<FieldSpecView>, rec: RecordView, j: int, k: int)
    requires
        0 <= j <= k < specs.len(),
        specs[k].optional,
        !has_name(rec, specs[k].name),
        names_unique(specs),
    ensures
        sweep(specs, rec, j) matches Ok(r) ==> r.contains((specs[k].name, ValueView::Null)),
        sweep(specs, rec, j) != Err::<RecordView, _>(ParseErrorView::MissingField(specs[k].name)),
    decreases k - j,
{
    let n = specs[k].name;
    if j == k {
        let x = (n, ValueView::Null);
        assert(rec.push(x)[rec.len() as int] == x);
        lemma_sweep_keeps(specs, rec.push(x), j + 1, x);
        lemma_sweep_missing_from(specs, rec.push(x), j + 1);
        match sweep(specs, rec.push(x), j + 1) {
            Err(ParseErrorView::MissingField(m)) => {
                let t = choose|t: int| j + 1 <= t < specs.len() && (#[trigger] specs[t]).name == m;
                assert(specs[t].name != specs[k].name);
            },
            _ => {},
        }
    } else {
        assert(specs[j].name != n);
        if has_name(rec, specs[j].name) {
            lemma_sweep_sets_null(specs, rec, j + 1, k);
        } else if specs[j].optional {
            lemma_push_other_name(rec, (specs[j].name, ValueView::Null), n);
            lemma_sweep_sets_null(specs, rec.push((specs[j].name, ValueView::Null)), j + 1, k);
        }
    }
}

proof fn lemma_fill_sets_null(
    specs: Seq<FieldSpecView>,
    align: Seq<Option<int>>,
    f: Seq<Seq<char>>,
    outs: Seq<Option<ValueView>>,
    i: int,
    rec: RecordView,
    k: int,
)
    requires
        0 <= i,
        0 <= k < specs.len(),
        specs[k].optional,
        !has_name(rec, specs[k].name),
        names_unique(specs),
        forall|p: int| 0 <= p < paired(align, f) ==> #[trigger] align[p] != Some(k),
    ensures
        fill(specs, align, f, outs, i, rec) matches Ok(r) ==> r.contains((specs[k].name, ValueView::Null)),
        fill(specs, align, f, outs, i, rec) != Err::<RecordView, _>(ParseErrorView::MissingField(specs[k].name)),
    decreases paired(align, f) - i,
{
    if i >= paired(align, f) {
        lemma_sweep_sets_null(specs, rec, 0, k);
    } else {
        match align[i] {
            Some(q) => {
                if 0 <= q < specs.len() && !has_name(rec, specs[q].name) {
                    assert(q != k);
                    match settle(specs[q], outs[i]) {
                        Some(v) => {
                            lemma_push_other_name(rec, (specs[q].name, v), specs[k].name);
                            lemma_fill_sets_null(specs, align, f, outs, i + 1, rec.push((specs[q].name, v)), k);
                        },
                        None => {},
                    }
                } else {
                    lemma_fill_sets_null(specs, align, f, outs, i + 1, rec, k);
                }
            },
            None => {
                lemma_fill_sets_null(specs, align, f, outs, i + 1, rec, k);
            },
        }
    }
}

/// An optional field that no header of the line names is never reported
/// missing, and the record of such a line holds null for it.
pub proof fn lemma_optional_without_column_is_null(
    specs: Seq<FieldSpecView>,
    align: Seq<Option<int>>,
    f: Seq<Seq<char>>,
    r: Result<RecordView, ParseErrorView>,
    k: int,
)
    requires
        line_result(specs, align, f, r),
        0 <= k < specs.len(),
        specs[k].optional,
        names_unique(specs),
        forall|p: int| 0 <= p < paired(align, f) ==> #[trigger] align[p] != Some(k),
    ensures
        r matches Ok(rec) ==> rec.contains((specs[k].name, ValueView::Null)),
        r != Err::<RecordView, _>(ParseErrorView::MissingField(specs[k].name)),
{
    let outs = choose|outs: Seq<Option<ValueView>>|
        outcomes_ok(specs, align, f, outs) && r == #[trigger] fill(specs, align, f, outs, 0, Seq::empty());
    lemma_fill_sets_null(specs, align, f, outs, 0, Seq::empty(), k);
}

proof fn lemma_skip_unaligned(
    specs: Seq<FieldSpecView>,
    align: Seq<Option<int>>,
    f: Seq<Seq<char>>,
    outs: Seq<Option<ValueView>>,
    p: int,
    i: int,
    rec: RecordView,
)
    requires
        0 <= p <= i <= paired(align, f),
        forall|q: int| 0 <= q < i ==> #[trigger] align[q] is None,
    ensures
        fill(specs, align, f, outs, p, rec) == fill(specs, align, f, outs, i, rec),
    decreases i - p,
{
    if p < i {
        assert(align[p] is None);
        lemma_skip_unaligned(specs, align, f, outs, p + 1, i, rec);
    }
}

proof fn lemma_push_keeps_names(rec: RecordView, e: (Seq<char>, ValueView), n: Seq<char>)
    requires
        has_name(rec, n),
    ensures
        has_name(rec.push(e), n),
{
    let j = choose|j: int| 0 <= j < rec.len() && (#[trigger] rec[j]).0 == n;
    assert(rec.push(e)[j] == rec[j]);
}

proof fn lemma_push_keeps(rec: RecordView, x: (Seq<char>, ValueView), e: (Seq<char>, ValueView))
    requires
        rec.contains(e),
    ensures
        rec.push(x).contains(e),
{
    let j = choose|j: int| 0 <= j < rec.len() && rec[j] == e;
    assert(rec.push(x)[j] == e);
}

proof fn lemma_fill_keeps(
    specs: Seq<FieldSpecView>,
    align: Seq<Option<int>>,
    f: Seq<Seq<char>>,
    outs: Seq<Option<ValueView>>,
    i: int,
    rec: RecordView,
    e: (Seq<char>, ValueView),
)
    requires
        0 <= i,
        rec.contains(e),
    ensures
        fill(specs, align, f, outs, i, rec) matches Ok(r) ==> r.contains(e),
        fill(specs, align, f, outs, i, rec) matches Err(ParseErrorView::BadField(n, _, _)) ==> !has_name(rec, n),
    decreases paired(align, f) - i,
{
    if i >= paired(align, f) {
        lemma_sweep_keeps(specs, rec, 0, e);
        lemma_sweep_no_bad_field(specs, rec, 0);
    } else {
        match align[i] {
            Some(k) => {
                if 0 <= k < specs.len() && !has_name(rec, specs[k].name) {
                    match settle(specs[k], outs[i]) {
                        Some(v) => {
                            let x = (specs[k].name, v);
                            lemma_push_keeps(rec, x, e);
                            lemma_fill_keeps(specs, align, f, outs, i + 1, rec.push(x), e);
                            match fill(specs, align, f, outs, i + 1, rec.push(x)) {
                                Err(ParseErrorView::BadField(n, _, _)) => {
                                    if has_name(rec, n) {
                                        lemma_push_keeps_names(rec, x, n);
                                    }
                                },
                                _ => {},
                            }
                        },
                        None => {},
                    }
                } else {
                    lemma_fill_keeps(specs, align, f, outs, i + 1, rec, e);
                }
            },
            None => {
                lemma_fill_keeps(specs, align, f, outs, i + 1, rec, e);
            },
        }
    }
}

proof fn lemma_sweep_no_bad_field(specs: Seq<FieldSpecView>, rec: RecordView, j: int)
    ensures
        !(sweep(specs, rec, j) matches Err(ParseErrorView::BadField(_, _, _))),
    decreases specs.len() - j,
{
    if 0 <= j < specs.len() {
        if has_name(rec, specs[j].name) {
            lemma_sweep_no_bad_field(specs, rec, j + 1);
        } else if specs[j].optional {
            lemma_sweep_no_bad_field(specs, rec.push((specs[j].name, ValueView::Null)), j + 1);
        }
    }
}

/// When the first column with a field is a required field of a type other
/// than `Date`, without a default, and its token is not a value of that type,
/// the line gives `BadField` with the field's name and type and the token.
pub proof fn lemma_rejected_required_column_is_bad_field(
    specs: Seq<FieldSpecView>,
    align: Seq<Option<int>>,
    f: Seq<Seq<char>>,
    r: Result<RecordView, ParseErrorView>,
    i: int,
)
    requires
        line_result(specs, align, f, r),
        0 <= i < paired(align, f),
        forall|q: int| 0 <= q < i ==> #[trigger] align[q] is None,
        align[i] matches Some(k) && 0 <= k < specs.len() && specs[k].field_type != DataType::Date
            && !specs[k].optional && specs[k].default_value is None
            && coerce(f[i], specs[k].field_type, false) is None,
    ensures
        r == Err::<RecordView, _>(
            ParseErrorView::BadField(specs[align[i]->0].name, specs[align[i]->0].field_type, f[i]),
        ),
{
    let outs = choose|outs: Seq<Option<ValueView>>|
        outcomes_ok(specs, align, f, outs) && r == #[trigger] fill(specs, align, f, outs, 0, Seq::empty());
    lemma_skip_unaligned(specs, align, f, outs, 0, i, Seq::empty());
    assert(position_ok(specs, align[i], f[i], outs[i]));
}

/// When the first column with a field holds a token that is not a value of
/// the field's type (other than `Date`) and the field has a default, no
/// `BadField` names that field, and the record of the line holds the default.
pub proof fn lemma_default_fills_rejected_column(
    specs: Seq<FieldSpecView>,
    align: Seq<Option<int>>,
    f: Seq<Seq<char>>,
    r: Result<RecordView, ParseErrorView>,
    i: int,
)
    requires
        line_result(specs, align, f, r),
        0 <= i < paired(align, f),
        forall|q: int| 0 <= q < i ==> #[trigger] align[q] is None,
        align[i] matches Some(k) && 0 <= k < specs.len() && specs[k].field_type != DataType::Date
            && specs[k].default_value is Some
            && coerce(f[i], specs[k].field_type, specs[k].optional) is None,
    ensures
        r matches Ok(rec) ==> rec.contains(
            (specs[align[i]->0].name, specs[align[i]->0].default_value->0),
        ),
        r matches Err(ParseErrorView::BadField(n, _, _)) ==> n != specs[align[i]->0].name,
{
    let outs = choose|outs: Seq<Option<ValueView>>|
        outcomes_ok(specs, align, f, outs) && r == #[trigger] fill(specs, align, f, outs, 0, Seq::empty());
    let k = align[i]->0;
    let e = (specs[k].name, specs[k].default_value->0);
    lemma_skip_unaligned(specs, align, f, outs, 0, i, Seq::empty());
    assert(position_ok(specs, align[i], f[i], outs[i]));
    let rec1 = Seq::<(Seq<char>, ValueView)>::empty().push(e);
    assert(rec1[0] == e);
    assert(fill(specs, align, f, outs, i, Seq::empty()) == fill(specs, align, f, outs, i + 1, rec1));
    lemma_fill_keeps(specs, align, f, outs, i + 1, rec1, e);
    assert(has_name(rec1, e.0));
}

fn contains_name(rec: &Record, name: &String) -> (r: bool)
    ensures
        r == has_name(record_view(*rec), name@),
{
    let mut i: usize = 0;
    while i < rec.len()
        invariant
            0 <= i <= rec@.len(),
            forall|k: int| 0 <= k < i ==> rec@[k].0@ != name@,
        decreases rec@.len() - i,
    {
        if rec[i].0 == *name {
            assert(record_view(*rec)[i as int].0 == name@);
            return true;
        }
        i = i + 1;
    }
    assert(!has_name(record_view(*rec), name@)) by {
        if has_name(record_view(*rec), name@) {
            let k = choose|k: int| 0 <= k < record_view(*rec).len() && (#[trigger] record_view(*rec)[k]).0 == name@;
            assert(rec@[k].0@ == name@);
        }
    }
    false
}

} // verus!
