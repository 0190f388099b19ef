use vstd::prelude::*;
use crate::validate::{coerced, opt_view, validate_field, TypedValue, ValueView};

verus! {

/// The declared type of a schema field.
#[derive(Debug, Clone, Copy, PartialEq, Eq, Structural)]
pub enum DataType {
    Float,
    Int,
    Uint,
    String,
    Bool,
    Date,
    Country,
}

/// One column of a schema: its canonical name, type, optionality, declared
/// default (as text and as coerced value) and the header aliases it answers to.
#[derive(Debug)]
pub struct FieldSpec {
    pub name: String,
    pub field_type: DataType,
    pub default: Option<String>,
    pub default_value: Option<TypedValue>,
    pub optional: bool,
    pub aliases: Vec<String>,
}

/// What the parser reads of a field spec.
pub ghost struct FieldSpecView {
    pub name: Seq<char>,
    pub field_type: DataType,
    pub default: Option<Seq<char>>,
    pub default_value: Option<ValueView>,
    pub optional: bool,
    pub aliases: Seq<Seq<char>>,
}

impl View for FieldSpec {
    type V = FieldSpecView;

    open spec fn view(&self) -> FieldSpecView {
        FieldSpecView {
            name: self.name@,
            field_type: self.field_type,
            default: match self.default {
                Some(d) => Some(d@),
                None => None,
            },
            default_value: match self.default_value {
                Some(v) => Some(v@),
                None => None,
            },
            optional: self.optional,
            aliases: self.aliases@.map_values(|a: String| a@),
        }
    }
}

/// A schema that cannot be built.
#[derive(Debug)]
pub enum SchemaError {
    /// The declared default of the named field is not a value of its type.
    InvalidDefault { name: String, default: String, field_type: DataType },
    /// Two fields share this name.
    DuplicateName { name: String },
}

/// The default value is what the declared default coerces to.
pub open spec fn default_ok(f: FieldSpecView) -> bool {
    match f.default {
        None => f.default_value is None,
        Some(d) => f.default_value is Some && coerced(d, f.field_type, f.optional, f.default_value),
    }
}

/// `g` is `f` with its default value settled.
pub open spec fn same_declaration(f: FieldSpecView, g: FieldSpecView) -> bool {
    &&& g.name == f.name
    &&& g.field_type == f.field_type
    &&& g.default == f.default
    &&& g.optional == f.optional
    &&& g.aliases == f.aliases
}

/// The declared default is rejected by coercion (always, for all types but `Date`).
pub open spec fn default_rejected(f: FieldSpecView) -> bool {
    f.default is Some && coerced(f.default->0, f.field_type, f.optional, None)
}

impl FieldSpec {
    /// Settles `default_value` from the declared default: none without one,
    /// its coercion otherwise; fails when the declared default is rejected.
    pub fn init(&mut self) -> (r: Result<(), SchemaError>)
        ensures
            same_declaration(old(self)@, final(self)@),
            r is Ok ==> default_ok(final(self)@),
            !default_rejected(old(self)@) ==> r is Ok,
            r is Err ==> default_rejected(old(self)@),
            match r {
                Err(SchemaError::InvalidDefault { name, default, field_type }) => name@ == old(self)@.name
                    && Some(default@) == old(self)@.default && field_type == old(self).field_type,
                Err(SchemaError::DuplicateName { .. }) => false,
                Ok(()) => true,
            },
    {
        match &self.default {
            None => {
                self.default_value = None;
                Ok(())
            },
            Some(d) => {
                let v = self.get_default(d.as_str());
                match v {
                    Some(x) => {
                        self.default_value = Some(x);
                        Ok(())
                    },
                    None => Err(
                        SchemaError::InvalidDefault {
                            name: self.name.clone(),
                            default: d.clone(),
                            field_type: self.field_type,
                        },
                    ),
                }
            },
        }
    }

    fn get_default(&self, default: &str) -> (r: Option<TypedValue>)
        ensures
            coerced(default@, self.field_type, self.optional, opt_view(r)),
    {
        validate_field(default, self)
    }
}

/// `f` answers to the header `a`: it lists `a` among its aliases.
pub open spec fn answers_to(f: FieldSpecView, a: Seq<char>) -> bool {
    f.aliases.contains(a)
}

/// Every field has a name of its own.
pub open spec fn names_unique(specs: Seq<FieldSpecView>) -> bool {
    forall|a: int, b: int|
        0 <= a < specs.len() && 0 <= b < specs.len() && a != b ==> #[trigger] specs[a].name
            != #[trigger] specs[b].name
}

/// Some two of the specs share a name.
pub open spec fn names_shared(specs: Seq<FieldSpec>) -> bool {
    exists|a: int, b: int| 0 <= a < b < specs.len() && #[trigger] specs[a].name@ == #[trigger] specs[b].name@
}

/// The last of the first `n` specs that answers to `a`.
pub open spec fn resolve_in(specs: Seq<FieldSpecView>, a: Seq<char>, n: int) -> Option<int>
    decreases n,
{
    if n <= 0 {
        None
    } else if answers_to(specs[n - 1], a) {
        Some(n - 1)
    } else {
        resolve_in(specs, a, n - 1)
    }
}

/// The spec that a header names: the last one that answers to it.
pub open spec fn resolve_spec(specs: Seq<FieldSpecView>, a: Seq<char>) -> Option<int> {
    resolve_in(specs, a, specs.len() as int)
}

pub proof fn lemma_resolve_in_bounds(specs: Seq<FieldSpecView>, a: Seq<char>, n: int)
    requires
        n <= specs.len(),
    ensures
        resolve_in(specs, a, n) matches Some(k) ==> 0 <= k < n && answers_to(specs[k], a),
    decreases n,
{
    if n > 0 && !answers_to(specs[n - 1], a) {
        lemma_resolve_in_bounds(specs, a, n - 1);
    }
}

/// The fields of a record format, read-only once built.
pub struct Schema {
    pub specs: Vec<FieldSpec>,
}

impl View for Schema {
    type V = Seq<FieldSpecView>;

    open spec fn view(&self) -> Seq<FieldSpecView> {
        self.specs@.map_values(|f: FieldSpec| f@)
    }
}

impl Schema {
    /// Names are unique, and every default value is what its declared
    /// default coerces to.
    pub open spec fn wf(&self) -> bool {
        &&& names_unique(self@)
        &&& forall|i: int| 0 <= i < self@.len() ==> #[trigger] default_ok(self@[i])
    }

    /// Builds a schema, settling each declared default. Fails on the first
    /// field whose name an earlier field has, or whose declared default is
    /// rejected.
    pub fn new(specs: Vec<FieldSpec>) -> (r: Result<Schema, SchemaError>)
        ensures
            match r {
                Ok(s) => s.wf() && s@.len() == specs@.len() && forall|i: int|
                    0 <= i < specs@.len() ==> #[trigger] same_declaration(specs@[i]@, s@[i]),
                Err(SchemaError::InvalidDefault { name, default, field_type }) => exists|i: int|
                    0 <= i < specs@.len() && #[trigger] default_rejected(specs@[i]@) && name@
                        == specs@[i]@.name && Some(default@) == specs@[i]@.default && field_type
                        == specs@[i].field_type,
                Err(SchemaError::DuplicateName { name }) => names_shared(specs@) && exists|i: int|
                    0 <= i < specs@.len() && #[trigger] specs@[i].name@ == name@,
            },
            r is Err ==> names_shared(specs@) || exists|i: int|
                0 <= i < specs@.len() && #[trigger] default_rejected(specs@[i]@),
            (forall|i: int| 0 <= i < specs@.len() ==> !#[trigger] default_rejected(specs@[i]@))
                && !names_shared(specs@) ==> r is Ok,
    {
        let ghost orig = specs@;
        let mut rest = specs;
        let mut done: Vec<FieldSpec> = Vec::new();
        let mut i: usize = 0;
        let n = rest.len();
        while i < n
            invariant
                n == orig.len(),
                orig == specs@,
                0 <= i <= n,
                rest@ == orig.subrange(i as int, n as int),
                done@.len() == i,
                forall|k: int| 0 <= k < i ==> #[trigger] default_ok(done@[k]@),
                forall|k: int| 0 <= k < i ==> same_declaration(orig[k]@, #[trigger] done@[k]@),
                names_unique(done@.map_values(|f: FieldSpec| f@)),
            decreases n - i,
        {
            let mut f = rest.remove(0);
            let ghost before = f;
            assert(before == orig[i as int]);
            let mut j: usize = 0;
            while j < done.len()
                invariant
                    0 <= j <= done@.len() == i,
                    i < n == orig.len(),
                    orig == specs@,
                    f == before,
                    before == orig[i as int],
                    forall|k: int| 0 <= k < i ==> same_declaration(orig[k]@, #[trigger] done@[k]@),
                    forall|k: int| 0 <= k < j ==> (#[trigger] done@[k]).name@ != f.name@,
                decreases done@.len() - j,
            {
                if done[j].name == f.name {
                    proof {
                        assert(same_declaration(orig[j as int]@, done@[j as int]@));
                        assert(orig[j as int].name@ == orig[i as int].name@);
                        assert(names_shared(orig));
                    }
                    return Err(SchemaError::DuplicateName { name: f.name.clone() });
                }
                j = j + 1;
            }
            let ghost dv = done@.map_values(|f: FieldSpec| f@);
            let res = f.init();
            match res {
                Ok(()) => {
                    done.push(f);
                    proof {
                        let dv2 = done@.map_values(|f: FieldSpec| f@);
                        assert forall|a: int, b: int|
                            0 <= a < dv2.len() && 0 <= b < dv2.len() && a != b implies #[trigger] dv2[a].name
                            != #[trigger] dv2[b].name by {
                            if a < i && b < i {
                                assert(dv2[a] == dv[a] && dv2[b] == dv[b]);
                            } else if a == i {
                                assert(done@[b].name@ != before.name@);
                            } else {
                                assert(done@[a].name@ != before.name@);
                            }
                        }
                    }
                },
                Err(e) => {
                    proof {
                        assert(before == orig[i as int]);
                        assert(default_rejected(orig[i as int]@));
                    }
                    return Err(e);
                },
            }
            i = i + 1;
        }
        let s = Schema { specs: done };
        assert(s@ == done@.map_values(|f: FieldSpec| f@));
        assert forall|k: int| 0 <= k < s@.len() implies #[trigger] default_ok(s@[k]) by {
            assert(default_ok(done@[k]@));
        }
        assert forall|k: int| 0 <= k < orig.len() implies #[trigger] same_declaration(orig[k]@, s@[k]) by {
            assert(same_declaration(orig[k]@, done@[k]@));
        }
        Ok(s)
    }

    /// The index of the spec that the header `alias` names, if any.
    pub fn resolve(&self, alias: &String) -> (r: Option<usize>)
        ensures
            opt_index(r) == resolve_spec(self@, alias@),
    {
        let mut n: usize = self.specs.len();
        while n > 0
            invariant
                n <= self@.len(),
                resolve_in(self@, alias@, n as int) == resolve_spec(self@, alias@),
            decreases n,
        {
            let f = &self.specs[n - 1];
            assert(f@ == self@[n - 1]);
            if answers(f, alias) {
                return Some(n - 1);
            }
            n = n - 1;
        }
        None
    }
}

pub open spec fn opt_index(r: Option<usize>) -> Option<int> {
    match r {
        Some(k) => Some(k as int),
        None => None,
    }
}

fn answers(f: &FieldSpec, a: &String) -> (r: bool)
    ensures
        r == answers_to(f@, a@),
{
    let mut i: usize = 0;
    while i < f.aliases.len()
        invariant
            0 <= i <= f.aliases@.len(),
            forall|k: int| 0 <= k < i ==> f.aliases@[k]@ != a@,
        decreases f.aliases@.len() - i,
    {
        if f.aliases[i] == *a {
            assert(f@.aliases[i as int] == a@);
            return true;
        }
        i = i + 1;
    }
    assert(!f@.aliases.contains(a@)) by {
        if f@.aliases.contains(a@) {
            let k = choose|k: int| 0 <= k < f@.aliases.len() && f@.aliases[k] == a@;
            assert(f.aliases@[k]@ == a@);
        }
    }
    false
}

} // verus!
