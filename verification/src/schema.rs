//! A declarative [`Schema`]: constraints on the fields of a TOML tree,
//! checked without a configuration type.
//!
//! ```text
//! Schema::new()
//!     .field("host").non_empty().done()
//!     .field("port").range_i64(1, 65535).done()
//!     .section("db", Schema::new().field("url").required().done())
//! ```

use vstd::prelude::*;
use crate::text::{owned, push_str, views, int_text, push_int, join, join_strings, str_eq};
use crate::value::{TomlValue, TomlModel, value_wf, is_table, table_of};
use crate::validation::{
    ValidationError, ValidationErrors, ErrorView, ReportView, KindView, SegView, Severity, ErrorKind,
    Loc, LocSegment, seg_views, error_views, copy_string, copy_strings, own_strs, str_views, copy_segments,
};
use crate::toml_io::{parse_toml, toml_parsed};

verus! {

// ---------------------------------------------------------------------------
// Constraints
// ---------------------------------------------------------------------------

/// One rule on the value of a field.
#[derive(Debug)]
pub enum Constraint {
    /// The value is a non-empty string.
    NonEmpty,
    /// The value is an integer in `lo..=hi`.
    RangeI64 { lo: i64, hi: i64 },
    /// The value is one of the allowed strings.
    OneOf { allowed: Vec<String> },
    /// The field is present.
    Required,
}

/// The string a field is read as: its string, or `""` when it is missing or
/// not a string.
pub open spec fn str_or_empty(v: Option<TomlModel>) -> Seq<char> {
    match v {
        Some(TomlModel::Str(s)) => s,
        _ => Seq::empty(),
    }
}

/// The integer a field is read as: its integer, or `0` when it is missing
/// or not an integer.
pub open spec fn int_or_zero(v: Option<TomlModel>) -> int {
    match v {
        Some(TomlModel::Int(n)) => n,
        _ => 0,
    }
}

/// An error of the schema at field `field`, severity `Error`.
pub open spec fn field_error(field: Seq<char>, kind: KindView, input: Option<Seq<char>>, msg: Seq<char>) -> ErrorView {
    ErrorView { loc: seq![SegView::Key(field)], kind, severity: Severity::Error, input, msg }
}

/// The error a constraint gives on field `field` whose value is `v`
/// (`None` when the field is missing), if it fails.
pub open spec fn constraint_error(c: ConstraintView, field: Seq<char>, v: Option<TomlModel>) -> Option<ErrorView> {
    match c {
        ConstraintView::Required => if v is None {
            Some(field_error(field, KindView::Missing, None, "field is required"@))
        } else {
            None
        },
        ConstraintView::NonEmpty => if str_or_empty(v).len() == 0 {
            Some(field_error(field, KindView::Empty, Some(seq!['"', '"']), "must not be empty"@))
        } else {
            None
        },
        ConstraintView::RangeI64 { lo, hi } => {
            let n = int_or_zero(v);
            if n < lo || n > hi {
                Some(
                    field_error(
                        field,
                        KindView::OutOfRange { lower: Some(int_text(lo)), upper: Some(int_text(hi)) },
                        Some(int_text(n)),
                        "input must be in range "@ + int_text(lo) + "..="@ + int_text(hi),
                    ),
                )
            } else {
                None
            }
        },
        ConstraintView::OneOf { allowed } => {
            let s = str_or_empty(v);
            if allowed.contains(s) {
                None
            } else {
                Some(
                    field_error(
                        field,
                        KindView::NotOneOf { allowed },
                        Some(s),
                        "must be one of: "@ + join(allowed, ", "@),
                    ),
                )
            }
        },
    }
}

/// Build the error of field `field` with its key as location.
pub fn make_err(field: &str, kind: ErrorKind, input: Option<String>, msg: String) -> (r: ValidationError)
    ensures
        r@ == field_error(field@, kind@, crate::validation::opt_view(input), msg@),
{
    let mut segs: Vec<LocSegment> = Vec::new();
    segs.push(LocSegment::Key(owned(field)));
    let r = ValidationError { loc: Loc(segs), kind, severity: Severity::Error, input, msg };
    assert(r@.loc =~= seq![SegView::Key(field@)]);
    r
}

fn copy_constraint(c: &Constraint) -> (r: Constraint)
    ensures
        constraint_view(r) == constraint_view(*c),
{
    match c {
        Constraint::NonEmpty => Constraint::NonEmpty,
        Constraint::RangeI64 { lo, hi } => Constraint::RangeI64 { lo: *lo, hi: *hi },
        Constraint::OneOf { allowed } => Constraint::OneOf { allowed: copy_strings(allowed) },
        Constraint::Required => Constraint::Required,
    }
}

/// The model of a constraint.
pub enum ConstraintView {
    NonEmpty,
    RangeI64 { lo: int, hi: int },
    OneOf { allowed: Seq<Seq<char>> },
    Required,
}

/// The model of a constraint.
pub open spec fn constraint_view(c: Constraint) -> ConstraintView {
    match c {
        Constraint::NonEmpty => ConstraintView::NonEmpty,
        Constraint::RangeI64 { lo, hi } => ConstraintView::RangeI64 { lo: lo as int, hi: hi as int },
        Constraint::OneOf { allowed } => ConstraintView::OneOf { allowed: views(allowed@) },
        Constraint::Required => ConstraintView::Required,
    }
}

impl Constraint {
    /// Check this constraint on field `field` whose value is `value`
    /// (`None` when missing): the error when it fails (see
    /// [`constraint_error`]); one more check is counted.
    pub fn check(&self, field: &str, value: Option<&TomlValue>, checks_run: &mut usize) -> (r: Option<ValidationError>)
        requires
            *old(checks_run) < usize::MAX,
        ensures
            *final(checks_run) == *old(checks_run) + 1,
            match constraint_error(constraint_view(*self), field@, opt_model(value)) {
                Some(e) => r matches Some(x) && x@ == e,
                None => r is None,
            },
    {
        *checks_run = *checks_run + 1;
        match self {
            Constraint::Required => {
                if value.is_none() {
                    return Some(make_err(field, ErrorKind::Missing, None, owned("field is required")));
                }
                None
            },
            Constraint::NonEmpty => {
                let empty = match value {
                    Some(v) => match v.as_str() {
                        Some(s) => s.is_empty(),
                        None => true,
                    },
                    None => true,
                };
                if empty {
                    let quoted = owned("\"\"");
                    proof {
                        reveal_strlit("\"\"");
                    }
                    assert(quoted@ =~= seq!['"', '"']);
                    return Some(make_err(field, ErrorKind::Empty, Some(quoted), owned("must not be empty")));
                }
                None
            },
            Constraint::RangeI64 { lo, hi } => {
                let n: i64 = match value {
                    Some(v) => match v.as_integer() {
                        Some(n) => n,
                        None => 0,
                    },
                    None => 0,
                };
                if n < *lo || n > *hi {
                    let mut msg = owned("input must be in range ");
                    push_int(&mut msg, *lo);
                    push_str(&mut msg, "..=");
                    push_int(&mut msg, *hi);
                    let kind = ErrorKind::OutOfRange {
                        lower: Some(crate::text::i64_text(*lo)),
                        upper: Some(crate::text::i64_text(*hi)),
                    };
                    let e = make_err(field, kind, Some(crate::text::i64_text(n)), msg);
                    assert(e@.msg =~= ("input must be in range "@ + int_text(*lo as int) + "..="@ + int_text(*hi as int)));
                    return Some(e);
                }
                None
            },
            Constraint::OneOf { allowed } => {
                let s: &str = match value {
                    Some(v) => match v.as_str() {
                        Some(s) => s,
                        None => "",
                    },
                    None => "",
                };
                proof {
                    reveal_strlit("");
                }
                assert(s@ == str_or_empty(opt_model(value)));
                let mut found = false;
                let mut i: usize = 0;
                while i < allowed.len()
                    invariant
                        i <= allowed@.len(),
                        found == exists|k: int| 0 <= k < i && #[trigger] allowed@[k]@ == s@,
                    decreases allowed@.len() - i,
                {
                    if str_eq(allowed[i].as_str(), s) {
                        found = true;
                    }
                    i = i + 1;
                }
                if found {
                    proof {
                        let k = choose|k: int| 0 <= k < allowed@.len() && #[trigger] allowed@[k]@ == s@;
                        assert(views(allowed@)[k] == s@);
                    }
                    return None;
                }
                assert(!views(allowed@).contains(s@)) by {
                    if views(allowed@).contains(s@) {
                        let k = choose|k: int| 0 <= k < views(allowed@).len() && views(allowed@)[k] == s@;
                        assert(allowed@[k]@ == s@);
                    }
                }
                let mut msg = owned("must be one of: ");
                let list = join_strings(allowed, ", ");
                push_str(&mut msg, list.as_str());
                let kind = ErrorKind::NotOneOf { allowed: copy_strings(allowed) };
                Some(make_err(field, kind, Some(owned(s)), msg))
            },
        }
    }
}

/// The model of an optional value.
pub open spec fn opt_model(v: Option<&TomlValue>) -> Option<TomlModel> {
    match v {
        Some(x) => Some(x@),
        None => None,
    }
}

// ---------------------------------------------------------------------------
// The schema
// ---------------------------------------------------------------------------

/// A declarative schema: constraints on named fields, and nested schemas
/// for named sections.
#[derive(Debug)]
pub struct Schema {
    /// Each field with its constraints, in the order they were first named.
    pub fields: Vec<(String, Vec<Constraint>)>,
    /// Each section with its schema, in order.
    pub sections: Vec<(String, Schema)>,
}

/// The models of a field list.
pub open spec fn fields_view(fs: Seq<(String, Vec<Constraint>)>) -> Seq<(Seq<char>, Seq<ConstraintView>)> {
    Seq::new(fs.len(), |i: int| (fs[i].0@, Seq::new(fs[i].1@.len(), |j: int| constraint_view(fs[i].1@[j]))))
}

/// The models of a constraint list.
pub open spec fn constraints_view(cs: Seq<Constraint>) -> Seq<ConstraintView> {
    Seq::new(cs.len(), |j: int| constraint_view(cs[j]))
}

/// The value of field `name` in `v`: present only when `v` is a table
/// holding the key.
pub open spec fn child(v: Option<TomlModel>, name: Seq<char>) -> Option<TomlModel> {
    match v {
        Some(m) => if is_table(m) && table_of(m).contains_key(name) {
            Some(table_of(m)[name])
        } else {
            None
        },
        None => None,
    }
}

/// An error located below `prefix`.
pub open spec fn prefixed(e: ErrorView, prefix: Seq<SegView>) -> ErrorView {
    ErrorView { loc: prefix + e.loc, ..e }
}

/// The errors of constraints `cs` on field `name` whose value is `v`, in
/// order, located below `prefix`.
pub open spec fn constraints_errors(cs: Seq<ConstraintView>, name: Seq<char>, v: Option<TomlModel>, prefix: Seq<SegView>) -> Seq<ErrorView>
    decreases cs.len(),
{
    if cs.len() == 0 {
        Seq::empty()
    } else {
        constraints_errors(cs.drop_last(), name, v, prefix) + match constraint_error(cs.last(), name, v) {
            Some(e) => seq![prefixed(e, prefix)],
            None => Seq::empty(),
        }
    }
}

/// The errors of the fields `fs` of a table `v` (`None` when the table is
/// missing), field by field, located below `prefix`.
pub open spec fn fields_errors(fs: Seq<(Seq<char>, Seq<ConstraintView>)>, v: Option<TomlModel>, prefix: Seq<SegView>) -> Seq<ErrorView>
    decreases fs.len(),
{
    if fs.len() == 0 {
        Seq::empty()
    } else {
        fields_errors(fs.drop_last(), v, prefix) + constraints_errors(fs.last().1, fs.last().0, child(v, fs.last().0), prefix)
    }
}

/// The number of constraints of the fields `fs`.
pub open spec fn fields_count(fs: Seq<(Seq<char>, Seq<ConstraintView>)>) -> nat
    decreases fs.len(),
{
    if fs.len() == 0 {
        0
    } else {
        fields_count(fs.drop_last()) + fs.last().1.len()
    }
}

/// The errors of schema `s` on table `v` (`None` when the table is
/// missing) below `prefix`, with the first `n` sections: its fields, then
/// each section in order, checked against its table, or, when that table
/// is missing, with every field of the section and of its own sections
/// found missing.
pub open spec fn schema_errors_upto(s: Schema, v: Option<TomlModel>, prefix: Seq<SegView>, n: nat) -> Seq<ErrorView>
    decreases s, n,
{
    if n == 0 || n > s.sections@.len() {
        fields_errors(fields_view(s.fields@), v, prefix)
    } else {
        let name = s.sections@[n - 1].0@;
        let sub = s.sections@[n - 1].1;
        let p = prefix.push(SegView::Key(name));
        proof {
            assert(decreases_to!(s => s.sections));
            assert(decreases_to!(s.sections => s.sections@));
            assert(decreases_to!(s.sections@ => s.sections@[n - 1]));
            assert(decreases_to!(s.sections@[n - 1] => sub));
        }
        schema_errors_upto(s, v, prefix, (n - 1) as nat) + schema_errors_upto(sub, child(v, name), p, sub.sections@.len())
    }
}

/// The errors of schema `s` on table `v` below `prefix`.
pub open spec fn schema_errors(s: Schema, v: TomlModel, prefix: Seq<SegView>) -> Seq<ErrorView> {
    schema_errors_upto(s, Some(v), prefix, s.sections@.len())
}

/// The number of checks run by schema `s` on table `v` (`None` when
/// missing), with the first `n` sections.
pub open spec fn schema_checks_upto(s: Schema, v: Option<TomlModel>, n: nat) -> nat
    decreases s, n,
{
    if n == 0 || n > s.sections@.len() {
        fields_count(fields_view(s.fields@))
    } else {
        let name = s.sections@[n - 1].0@;
        let sub = s.sections@[n - 1].1;
        proof {
            assert(decreases_to!(s => s.sections));
            assert(decreases_to!(s.sections => s.sections@));
            assert(decreases_to!(s.sections@ => s.sections@[n - 1]));
            assert(decreases_to!(s.sections@[n - 1] => sub));
        }
        schema_checks_upto(s, v, (n - 1) as nat) + schema_checks_upto(sub, child(v, name), sub.sections@.len())
    }
}

/// The number of checks run by schema `s` on table `v`.
pub open spec fn schema_checks(s: Schema, v: TomlModel) -> nat {
    schema_checks_upto(s, Some(v), s.sections@.len())
}

/// The number of constraints of `s` and its sections, with the first `n`
/// sections.
pub open spec fn constraint_total_upto(s: Schema, n: nat) -> nat
    decreases s, n,
{
    if n == 0 || n > s.sections@.len() {
        fields_count(fields_view(s.fields@))
    } else {
        let sub = s.sections@[n - 1].1;
        proof {
            assert(decreases_to!(s => s.sections));
            assert(decreases_to!(s.sections => s.sections@));
            assert(decreases_to!(s.sections@ => s.sections@[n - 1]));
            assert(decreases_to!(s.sections@[n - 1] => sub));
        }
        constraint_total_upto(s, (n - 1) as nat) + constraint_total_upto(sub, sub.sections@.len())
    }
}

/// The number of constraints of `s` and all its sections.
pub open spec fn constraint_total(s: Schema) -> nat {
    constraint_total_upto(s, s.sections@.len())
}

/// The number of fields of `fs` that carry at least one constraint.
pub open spec fn constrained_count(fs: Seq<(Seq<char>, Seq<ConstraintView>)>) -> nat
    decreases fs.len(),
{
    if fs.len() == 0 {
        0
    } else {
        constrained_count(fs.drop_last()) + if fs.last().1.len() > 0 {
            1nat
        } else {
            0nat
        }
    }
}

/// The number of fields of `s` and of its first `n` sections (and theirs)
/// that carry constraints.
pub open spec fn field_total_upto(s: Schema, n: nat) -> nat
    decreases s, n,
{
    if n == 0 || n > s.sections@.len() {
        constrained_count(fields_view(s.fields@))
    } else {
        let sub = s.sections@[n - 1].1;
        proof {
            assert(decreases_to!(s => s.sections));
            assert(decreases_to!(s.sections => s.sections@));
            assert(decreases_to!(s.sections@ => s.sections@[n - 1]));
            assert(decreases_to!(s.sections@[n - 1] => sub));
        }
        field_total_upto(s, (n - 1) as nat) + field_total_upto(sub, sub.sections@.len())
    }
}

/// The number of fields, direct and nested, that carry constraints.
pub open spec fn field_total(s: Schema) -> nat {
    field_total_upto(s, s.sections@.len())
}

/// The fields `fs` with constraint `c` added to field `name`: appended to
/// its list when the field is listed, otherwise as a new field at the end.
pub open spec fn with_constraint(fs: Seq<(Seq<char>, Seq<ConstraintView>)>, name: Seq<char>, c: ConstraintView) -> Seq<(Seq<char>, Seq<ConstraintView>)> {
    if exists|i: int| 0 <= i < fs.len() && #[trigger] fs[i].0 == name {
        let i = choose|i: int| 0 <= i < fs.len() && #[trigger] fs[i].0 == name && forall|j: int| 0 <= j < i ==> fs[j].0 != name;
        fs.update(i, (name, fs[i].1.push(c)))
    } else {
        fs.push((name, seq![c]))
    }
}

/// Builder of the constraints of one field of a schema.
#[derive(Debug)]
pub struct FieldBuilder {
    /// The schema being built.
    pub schema: Schema,
    /// The field the constraints go to.
    pub name: String,
}

/// The first position of field `name` in `fields`.
fn field_position(fields: &Vec<(String, Vec<Constraint>)>, name: &str) -> (r: Option<usize>)
    ensures
        match r {
            Some(i) => i < fields@.len() && fields@[i as int].0@ == name@
                && forall|j: int| 0 <= j < i ==> #[trigger] fields@[j].0@ != name@,
            None => forall|j: int| 0 <= j < fields@.len() ==> #[trigger] fields@[j].0@ != name@,
        },
{
    let mut i: usize = 0;
    while i < fields.len()
        invariant
            i <= fields@.len(),
            forall|j: int| 0 <= j < i ==> #[trigger] fields@[j].0@ != name@,
        decreases fields@.len() - i,
    {
        if str_eq(fields[i].0.as_str(), name) {
            return Some(i);
        }
        i = i + 1;
    }
    None
}

impl FieldBuilder {
    fn add(self, c: Constraint) -> (r: FieldBuilder)
        ensures
            r.name@ == self.name@,
            fields_view(r.schema.fields@) == with_constraint(fields_view(self.schema.fields@), self.name@, constraint_view(c)),
            r.schema.sections == self.schema.sections,
    {
        let ghost fv = fields_view(self.schema.fields@);
        let ghost cv = constraint_view(c);
        let mut schema = self.schema;
        let name = self.name;
        let pos = field_position(&schema.fields, name.as_str());
        let found = pos.is_some();
        let idx: usize = match pos {
            Some(i) => i,
            None => 0,
        };
        if found {
            let ghost i0 = idx as int;
            proof {
                assert(fv[i0].0 == name@);
                assert forall|j: int| 0 <= j < i0 implies fv[j].0 != name@ by {
                    assert(fv[j].0 == schema.fields@[j].0@);
                }
                let i = choose|i: int| 0 <= i < fv.len() && #[trigger] fv[i].0 == name@ && forall|j: int| 0 <= j < i ==> fv[j].0 != name@;
                if i < i0 {
                    assert(fv[i].0 != name@);
                } else if i > i0 {
                    assert(fv[i0].0 != name@);
                }
                assert(i == i0);
            }
            let mut entry = (String::new(), Vec::new());
            std::mem::swap(&mut entry, &mut schema.fields[idx]);
            let (key, mut cs) = entry;
            let ghost old_cs = constraints_view(cs@);
            cs.push(c);
            assert(constraints_view(cs@) =~= old_cs.push(cv));
            schema.fields.set(idx, (key, cs));
            assert(fields_view(schema.fields@) =~= fv.update(i0, (name@, fv[i0].1.push(cv))));
        } else {
            let mut cs: Vec<Constraint> = Vec::new();
            cs.push(c);
            assert(constraints_view(cs@) =~= seq![cv]);
            assert forall|j: int| 0 <= j < fv.len() implies #[trigger] fv[j].0 != name@ by {
                assert(fv[j].0 == schema.fields@[j].0@);
            }
            schema.fields.push((copy_string(&name), cs));
            assert(fields_view(schema.fields@) =~= fv.push((name@, seq![cv])));
        }
        FieldBuilder { schema, name }
    }

    /// Fail with `empty` when the value is not a non-empty string.
    pub fn non_empty(self) -> (r: FieldBuilder)
        ensures
            r.name@ == self.name@,
            fields_view(r.schema.fields@) == with_constraint(fields_view(self.schema.fields@), self.name@, ConstraintView::NonEmpty),
            r.schema.sections == self.schema.sections,
    {
        self.add(Constraint::NonEmpty)
    }

    /// Fail with `out_of_range` when the integer value is outside `lo..=hi`.
    pub fn range_i64(self, lo: i64, hi: i64) -> (r: FieldBuilder)
        ensures
            r.name@ == self.name@,
            fields_view(r.schema.fields@) == with_constraint(
                fields_view(self.schema.fields@),
                self.name@,
                ConstraintView::RangeI64 { lo: lo as int, hi: hi as int },
            ),
            r.schema.sections == self.schema.sections,
    {
        self.add(Constraint::RangeI64 { lo, hi })
    }

    /// Fail with `not_one_of` when the string value is not in `allowed`.
    pub fn one_of(self, allowed: &[&str]) -> (r: FieldBuilder)
        ensures
            r.name@ == self.name@,
            fields_view(r.schema.fields@) == with_constraint(
                fields_view(self.schema.fields@),
                self.name@,
                ConstraintView::OneOf { allowed: str_views(allowed@) },
            ),
            r.schema.sections == self.schema.sections,
    {
        self.add(Constraint::OneOf { allowed: own_strs(allowed) })
    }

    /// Fail with `missing` when the field is absent.
    pub fn required(self) -> (r: FieldBuilder)
        ensures
            r.name@ == self.name@,
            fields_view(r.schema.fields@) == with_constraint(fields_view(self.schema.fields@), self.name@, ConstraintView::Required),
            r.schema.sections == self.schema.sections,
    {
        self.add(Constraint::Required)
    }

    /// Finish this field and return to the schema.
    pub fn done(self) -> (r: Schema)
        ensures
            r == self.schema,
    {
        self.schema
    }
}

impl Schema {
    /// An empty schema.
    pub fn new() -> (r: Schema)
        ensures
            r.fields@.len() == 0,
            r.sections@.len() == 0,
    {
        Schema { fields: Vec::new(), sections: Vec::new() }
    }

    /// Start adding constraints to field `name`.
    pub fn field(self, name: &str) -> (r: FieldBuilder)
        ensures
            r.schema == self,
            r.name@ == name@,
    {
        FieldBuilder { schema: self, name: owned(name) }
    }

    /// Add the nested schema `sub` for the table at key `name`; its errors
    /// are located below `name`.
    pub fn section(self, name: &str, sub: Schema) -> (r: Schema)
        ensures
            r.fields == self.fields,
            r.sections@.len() == self.sections@.len() + 1,
            forall|i: int| 0 <= i < self.sections@.len() ==> #[trigger] r.sections@[i] == self.sections@[i],
            r.sections@.last().0@ == name@,
            r.sections@.last().1 == sub,
    {
        let mut s = self;
        s.sections.push((owned(name), sub));
        s
    }

    /// Check the constraints of the fields of table `value` (`None` when
    /// the table is missing).
    fn check_fields(&self, value: Option<&TomlValue>, prefix: &Vec<LocSegment>, errors: &mut Vec<ValidationError>, checks_run: &mut usize)
        requires
            *old(checks_run) + fields_count(fields_view(self.fields@)) <= usize::MAX,
            value matches Some(v) ==> value_wf(*v),
        ensures
            error_views(final(errors)@) == error_views(old(errors)@) + fields_errors(fields_view(self.fields@), opt_model(value), seg_views(prefix@)),
            *final(checks_run) == *old(checks_run) + fields_count(fields_view(self.fields@)),
    {
        let ghost fv = fields_view(self.fields@);
        let ghost pv = seg_views(prefix@);
        let ghost e0 = error_views(errors@);
        let ghost c0 = *checks_run;
        let mut i: usize = 0;
        while i < self.fields.len()
            invariant
                i <= self.fields@.len(),
                fv == fields_view(self.fields@),
                pv == seg_views(prefix@),
                c0 + fields_count(fv) <= usize::MAX,
                value matches Some(v) ==> value_wf(*v),
                error_views(errors@) == e0 + fields_errors(fv.take(i as int), opt_model(value), pv),
                *checks_run == c0 + fields_count(fv.take(i as int)),
            decreases self.fields@.len() - i,
        {
            proof {
                assert(fv.take(i as int + 1).drop_last() =~= fv.take(i as int));
                lemma_fields_count_prefix(fv, i as int + 1);
            }
            let name = &self.fields[i].0;
            let cs = &self.fields[i].1;
            let child_value: Option<&TomlValue> = match value {
                Some(v) => v.get(name.as_str()),
                None => None,
            };
            assert(opt_model(child_value) == child(opt_model(value), name@));
            let ghost cv = fv[i as int].1;
            assert(cv == constraints_view(cs@));
            let ghost eb = error_views(errors@);
            let ghost cb = *checks_run;
            let mut j: usize = 0;
            while j < cs.len()
                invariant
                    j <= cs@.len(),
                    cv == constraints_view(cs@),
                    pv == seg_views(prefix@),
                    cb + cv.len() <= usize::MAX,
                    error_views(errors@) == eb + constraints_errors(cv.take(j as int), name@, opt_model(child_value), pv),
                    *checks_run == cb + j,
                decreases cs@.len() - j,
            {
                assert(cv.take(j as int + 1).drop_last() =~= cv.take(j as int));
                assert(cv.take(j as int + 1).last() == constraint_view(cs@[j as int]));
                let ghost before = error_views(errors@);
                match cs[j].check(name.as_str(), child_value, checks_run) {
                    Some(e) => {
                        let mut segs = copy_segments(prefix);
                        let mut tail = e.loc.0;
                        let ghost tv = seg_views(tail@);
                        segs.append(&mut tail);
                        let located = ValidationError { loc: Loc(segs), kind: e.kind, severity: e.severity, input: e.input, msg: e.msg };
                        assert(located@.loc =~= pv + tv);
                        errors.push(located);
                        assert(error_views(errors@) =~= before.push(located@));
                    },
                    None => {},
                }
                j = j + 1;
            }
            assert(cv.take(cs@.len() as int) =~= cv);
            assert(fv.take(i as int + 1).last() == fv[i as int]);
            i = i + 1;
        }
        assert(fv.take(self.fields@.len() as int) =~= fv);
    }

    /// Check the table `value` (`None` when missing) below `prefix`: the
    /// fields, then each section against its table.
    fn check_value(&self, value: Option<&TomlValue>, prefix: &Vec<LocSegment>, errors: &mut Vec<ValidationError>, checks_run: &mut usize)
        requires
            *old(checks_run) + constraint_total(*self) <= usize::MAX,
            value matches Some(v) ==> value_wf(*v),
        ensures
            error_views(final(errors)@) == error_views(old(errors)@) + schema_errors_upto(*self, opt_model(value), seg_views(prefix@), self.sections@.len()),
            *final(checks_run) == *old(checks_run) + schema_checks_upto(*self, opt_model(value), self.sections@.len()),
            schema_checks_upto(*self, opt_model(value), self.sections@.len()) <= constraint_total(*self),
        decreases *self,
    {
        let ghost pv = seg_views(prefix@);
        let ghost vm = opt_model(value);
        let ghost e0 = error_views(errors@);
        let ghost c0 = *checks_run;
        proof {
            lemma_total_monotone(*self, 0, self.sections@.len());
        }
        self.check_fields(value, prefix, errors, checks_run);
        let mut i: usize = 0;
        while i < self.sections.len()
            invariant
                i <= self.sections@.len(),
                pv == seg_views(prefix@),
                vm == opt_model(value),
                value matches Some(v) ==> value_wf(*v),
                c0 + constraint_total(*self) <= usize::MAX,
                error_views(errors@) == e0 + schema_errors_upto(*self, vm, pv, i as nat),
                *checks_run == c0 + schema_checks_upto(*self, vm, i as nat),
                schema_checks_upto(*self, vm, i as nat) <= constraint_total_upto(*self, i as nat),
            decreases self.sections@.len() - i,
        {
            proof {
                lemma_total_monotone(*self, i as nat + 1, self.sections@.len());
            }
            let name = &self.sections[i].0;
            let sub = &self.sections[i].1;
            let mut sub_prefix = copy_segments(prefix);
            sub_prefix.push(LocSegment::Key(copy_string(name)));
            assert(seg_views(sub_prefix@) =~= pv.push(SegView::Key(name@)));
            let child_value: Option<&TomlValue> = match value {
                Some(v) => v.get(name.as_str()),
                None => None,
            };
            assert(opt_model(child_value) == child(vm, name@));
            proof {
                assert(decreases_to!(*self => self.sections));
                assert(decreases_to!(self.sections => self.sections@));
                assert(decreases_to!(self.sections@ => self.sections@[i as int]));
                assert(decreases_to!(self.sections@[i as int] => *sub));
            }
            sub.check_value(child_value, &sub_prefix, errors, checks_run);
            i = i + 1;
        }
    }

    /// Validate the table `value`: `Ok` when no constraint fails, otherwise
    /// every error (see [`schema_errors`]) with the number of checks run.
    pub fn validate_value(&self, value: &TomlValue) -> (r: Result<(), ValidationErrors>)
        requires
            value_wf(*value),
            constraint_total(*self) <= usize::MAX,
        ensures
            r is Ok <==> schema_errors(*self, value@, Seq::empty()).len() == 0,
            r matches Err(e) ==> e@ == (ReportView {
                errors: schema_errors(*self, value@, Seq::empty()),
                title: None,
                checks_run: schema_checks(*self, value@),
            }),
    {
        let mut errors: Vec<ValidationError> = Vec::new();
        let mut checks_run: usize = 0;
        let prefix: Vec<LocSegment> = Vec::new();
        assert(seg_views(prefix@) =~= Seq::<SegView>::empty());
        assert(error_views(errors@) =~= Seq::<ErrorView>::empty());
        self.check_value(Some(value), &prefix, &mut errors, &mut checks_run);
        assert(error_views(errors@) =~= schema_errors(*self, value@, Seq::empty()));
        if errors.len() == 0 {
            Ok(())
        } else {
            Err(ValidationErrors::from_parts(errors, checks_run))
        }
    }

    /// Parse `text` and validate it; a text that does not parse gives a
    /// single `parse_error` of severity `Fatal` at the root, with the
    /// parser's message, titled `TOML`, with no check run.
    pub fn validate_str(&self, text: &str) -> (r: Result<(), ValidationErrors>)
        requires
            constraint_total(*self) <= usize::MAX,
        ensures
            match toml_parsed(text@) {
                Err(m) => r matches Err(e) && e@ == (ReportView {
                    errors: seq![parse_error_view(m)],
                    title: Some("TOML"@),
                    checks_run: 0,
                }),
                Ok(v) => {
                    &&& (r is Ok <==> schema_errors(*self, v, Seq::empty()).len() == 0)
                    &&& (r matches Err(e) ==> e@ == (ReportView {
                        errors: schema_errors(*self, v, Seq::empty()),
                        title: None,
                        checks_run: schema_checks(*self, v),
                    }))
                },
            },
    {
        match parse_toml(text) {
            Ok(v) => self.validate_value(&v),
            Err(e) => {
                let err = ValidationError {
                    loc: Loc(Vec::new()),
                    kind: ErrorKind::Predicate { code: "parse_error" },
                    severity: Severity::Fatal,
                    input: None,
                    msg: e.message,
                };
                assert(err@.loc =~= Seq::<SegView>::empty());
                let mut errs: Vec<ValidationError> = Vec::new();
                errs.push(err);
                assert(error_views(errs@) =~= seq![err@]);
                let mut report = ValidationErrors::from_parts(errs, 0);
                report.set_title("TOML");
                Err(report)
            },
        }
    }

    /// The total number of fields, direct and nested, that carry
    /// constraints (see [`field_total`]).
    pub fn constraint_count(&self) -> (r: usize)
        requires
            field_total(*self) <= usize::MAX,
        ensures
            r == field_total(*self),
        decreases *self,
    {
        let ghost fv = fields_view(self.fields@);
        let mut direct: usize = 0;
        let mut i: usize = 0;
        proof {
            lemma_field_total_monotone(*self, 0, self.sections@.len());
        }
        while i < self.fields.len()
            invariant
                i <= self.fields@.len(),
                fv == fields_view(self.fields@),
                direct <= i,
                direct == constrained_count(fv.take(i as int)),
            decreases self.fields@.len() - i,
        {
            proof {
                assert(fv.take(i as int + 1).drop_last() =~= fv.take(i as int));
                assert(fv.take(i as int + 1).last() == fv[i as int]);
            }
            if self.fields[i].1.len() > 0 {
                direct = direct + 1;
            }
            i = i + 1;
        }
        assert(fv.take(self.fields@.len() as int) =~= fv);
        let mut total: usize = direct;
        let mut k: usize = 0;
        while k < self.sections.len()
            invariant
                k <= self.sections@.len(),
                field_total(*self) <= usize::MAX,
                total == field_total_upto(*self, k as nat),
            decreases self.sections@.len() - k,
        {
            proof {
                lemma_field_total_monotone(*self, k as nat + 1, self.sections@.len());
                assert(decreases_to!(*self => self.sections));
                assert(decreases_to!(self.sections => self.sections@));
                assert(decreases_to!(self.sections@ => self.sections@[k as int]));
                assert(decreases_to!(self.sections@[k as int] => self.sections@[k as int].1));
            }
            let n = self.sections[k].1.constraint_count();
            total = total + n;
            k = k + 1;
        }
        total
    }
}

/// The synthetic error of a text that does not parse.
pub open spec fn parse_error_view(m: Seq<char>) -> ErrorView {
    ErrorView {
        loc: Seq::empty(),
        kind: KindView::Predicate { code: "parse_error"@ },
        severity: Severity::Fatal,
        input: None,
        msg: m,
    }
}

/// The constraint count of a prefix of fields is at most the whole count.
proof fn lemma_fields_count_prefix(fs: Seq<(Seq<char>, Seq<ConstraintView>)>, n: int)
    requires
        0 <= n <= fs.len(),
    ensures
        fields_count(fs.take(n)) <= fields_count(fs),
    decreases fs.len(),
{
    if n < fs.len() {
        assert(fs.drop_last().take(n) =~= fs.take(n));
        lemma_fields_count_prefix(fs.drop_last(), n);
    } else {
        assert(fs.take(n) =~= fs);
    }
}

/// The constraint total grows with the number of sections counted.
proof fn lemma_total_monotone(s: Schema, m: nat, n: nat)
    requires
        m <= n <= s.sections@.len(),
    ensures
        constraint_total_upto(s, m) <= constraint_total_upto(s, n),
        fields_count(fields_view(s.fields@)) <= constraint_total_upto(s, m),
    decreases n,
{
    if n > m {
        lemma_total_monotone(s, m, (n - 1) as nat);
    } else if m > 0 {
        lemma_total_monotone(s, (m - 1) as nat, (m - 1) as nat);
    }
}

proof fn lemma_field_total_monotone(s: Schema, m: nat, n: nat)
    requires
        m <= n <= s.sections@.len(),
    ensures
        field_total_upto(s, m) <= field_total_upto(s, n),
    decreases n,
{
    if n > m {
        lemma_field_total_monotone(s, m, (n - 1) as nat);
    }
}

} // verus!
