//! Validation of a JSON instance against compiled schemas.

use vstd::prelude::*;
use crate::errors::{CompileError, ErrorKind, InstanceLocation, InstanceToken, ValidationError, same_tokens, same_token};
use crate::json::{
    JsonNumber, JsonValue, Type, clone_number, clone_value, duplicates, equals, is_integer,
    json_eq, obj_contains, obj_get, spec_is_integer, spec_type_of, dup_at,
};
use crate::formats::{BuiltinFormat, spec_value_format_ok};
use crate::outside::{base64_decode, spec_base64_decode, spec_regex_is_match};
use crate::schema::{
    Additional, DecoderCheck, Dependency, FormatCheck, Items, RefKw, Schema, SchemaIndex, Schemas,
};
use crate::text::{chars_of, push_str, str_eq};
use vstd::string::StrSliceExecFns;

verus! {

/// What the validator asks of the code that embeds it: checks that are
/// registered at run time, and the floating-point test of `multipleOf`.
pub trait Hooks {
    /// Whether the format check registered under `id` accepts `v`.
    spec fn format_ok(&self, id: usize, v: JsonValue) -> bool;

    /// Runs the format check registered under `id` on `v`.
    fn check_format(&self, id: usize, v: &JsonValue) -> (r: Result<(), String>)
        ensures
            r is Ok <==> self.format_ok(id, *v),
    ;

    /// Whether `num` divided by `by` has no fractional part, in
    /// floating-point arithmetic.
    fn is_multiple_of(&self, num: &JsonNumber, by: &JsonNumber) -> bool;

    /// Whether the content decoder registered under `id` decodes `s`.
    spec fn decodes(&self, id: usize, s: String) -> bool;

    /// Runs the content decoder registered under `id` on `s`.
    fn decode(&self, id: usize, s: &String) -> (r: Result<Vec<u8>, String>)
        ensures
            r is Ok <==> self.decodes(id, *s),
    ;

    /// Runs the media-type check numbered `id` on `bytes`; when
    /// `deserialize` holds, a success carries the parsed value.
    fn check_media_type(&self, id: usize, bytes: &Vec<u8>, deserialize: bool) -> Result<Option<JsonValue>, String>;
}

// ---------------------------------------------------------------------
// scope

/// One step of the path of schemas that validation went through.
#[derive(Clone, Copy)]
pub struct Frame {
    pub sch: SchemaIndex,
    /// The reference keyword that led here, if it was a jump.
    pub ref_kw: Option<RefKw>,
    /// The number of the instance value validated here; two frames that
    /// validate the same value have the same number.
    pub vid: usize,
}

/// The path of schemas from the schema validation started with.
pub struct Scope {
    pub frames: Vec<Frame>,
}

/// Where the trailing frames that validate the current value begin.
pub open spec fn run_start(f: Seq<Frame>) -> int
    decreases f.len(),
{
    if f.len() <= 1 {
        0
    } else if f[f.len() - 2].vid == f.last().vid {
        run_start(f.drop_last())
    } else {
        f.len() - 1
    }
}

/// Frames of the current run below `upto` name pairwise distinct schemas.
pub open spec fn run_distinct(f: Seq<Frame>, upto: int) -> bool {
    forall|i: int, j: int| run_start(f) <= i < j < upto ==> (#[trigger] f[i]).sch != (#[trigger] f[j]).sch
}

/// The library's own check of the `format` of `s`, where it applies: `s`
/// is not a boolean schema, not a reference that stands for the whole
/// schema (before draft 2019-09), and its format is a built-in one.
pub open spec fn builtin_format_of(s: Schema) -> Option<BuiltinFormat> {
    if s.boolean is None && !(s.ref_ is Some && s.draft_version < 2019) {
        match s.format {
            Some(fm) => match fm.check {
                FormatCheck::Builtin(f) => Some(f),
                _ => None,
            },
            None => None,
        }
    } else {
        None
    }
}

/// The format check registered under a number that `s` runs, where it
/// applies (as for `builtin_format_of`).
pub open spec fn registered_format_of(s: Schema) -> Option<usize> {
    if s.boolean is None && !(s.ref_ is Some && s.draft_version < 2019) {
        match s.format {
            Some(fm) => match fm.check {
                FormatCheck::Registered(id) => Some(id),
                _ => None,
            },
            None => None,
        }
    } else {
        None
    }
}

/// The library decodes the content of strings validated against `s` as
/// base64: `contentEncoding` is `base64` (with content assertions on, as
/// compiled), and `s` is a schema object that checks it (draft 7 on, or
/// draft 4; not a reference standing for the whole schema).
pub open spec fn base64_content(s: Schema) -> bool {
    &&& s.boolean is None
    &&& !(s.ref_ is Some && s.draft_version < 2019)
    &&& s.draft_version != 6
    &&& s.content_encoding matches Some(d) && d.check is Base64
}

/// The content decoder registered under a number that `s` runs on
/// strings, where it applies (as for `base64_content`).
pub open spec fn registered_decoder_of(s: Schema) -> Option<usize> {
    if s.boolean is None && !(s.ref_ is Some && s.draft_version < 2019) && s.draft_version != 6 {
        match s.content_encoding {
            Some(d) => match d.check {
                DecoderCheck::Registered(id) => Some(id),
                _ => None,
            },
            None => None,
        }
    } else {
        None
    }
}

/// Validating `v` against schema `j` in scope `f` succeeds whatever else
/// holds: `j` is the `true` schema, or a shallow schema that `v` surely
/// passes and that is not already entered for `v`.
pub open spec fn surely_ok(list: Seq<Schema>, f: Seq<Frame>, j: SchemaIndex, v: JsonValue) -> bool {
    ||| list[j.0 as int].boolean == Some(true)
    ||| (shallow_ok(list, list[j.0 as int], v)
        && forall|k: int| run_start(f) <= k < f.len() ==> (#[trigger] f[k]).sch != j)
}

/// Validating `v` against schema `j` fails: its own keywords do not hold
/// (the `false` schema among them).
pub open spec fn surely_err(list: Seq<Schema>, j: SchemaIndex, v: JsonValue) -> bool {
    !local_ok(list[j.0 as int], v)
}

/// `s` is a schema object whose keywords all apply (not a reference that
/// stands for the whole schema before draft 2019-09).
pub open spec fn applies_whole(s: Schema) -> bool {
    s.boolean is None && !(s.ref_ is Some && s.draft_version < 2019)
}

/// `not` or `oneOf` of `s` surely rejects `v` in scope `f`: the schema of
/// `not` surely accepts it, two branches of `oneOf` surely accept it, or
/// every branch surely rejects it.
pub open spec fn cond_rejects(list: Seq<Schema>, f: Seq<Frame>, s: Schema, v: JsonValue) -> bool {
    ||| (s.not matches Some(x) && surely_ok(list, f, x, v))
    ||| (exists|p: int, q: int| 0 <= p < q < s.one_of@.len()
        && surely_ok(list, f, #[trigger] s.one_of@[p], v) && surely_ok(list, f, #[trigger] s.one_of@[q], v))
    ||| (s.one_of@.len() > 0 && forall|j: int| 0 <= j < s.one_of@.len() ==> surely_err(list, #[trigger] s.one_of@[j], v))
}

/// Validation that starts at schema `sch` surely rejects `v` through the
/// `not` or `oneOf` of that schema (see `cond_rejects`).
pub open spec fn root_rejects(list: Seq<Schema>, sch: SchemaIndex, v: JsonValue) -> bool {
    applies_whole(list[sch.0 as int])
        && cond_rejects(list, seq![Frame { sch, ref_kw: None, vid: 0 }], list[sch.0 as int], v)
}

/// Branches `p < q` of `os` are the first two that surely accept `v` in
/// scope `f`: every other branch before `q` surely rejects it.
pub open spec fn first_two_ok(list: Seq<Schema>, f: Seq<Frame>, os: Seq<SchemaIndex>, v: JsonValue, p: int, q: int) -> bool {
    &&& 0 <= p < q < os.len()
    &&& surely_ok(list, f, os[p], v)
    &&& surely_ok(list, f, os[q], v)
    &&& forall|j: int| 0 <= j < q && j != p ==> surely_err(list, #[trigger] os[j], v)
}

/// The first two surely accepting branches are unique.
proof fn lemma_first_two_unique(list: Seq<Schema>, f: Seq<Frame>, os: Seq<SchemaIndex>, v: JsonValue,
    p: int, q: int, p2: int, q2: int)
    requires
        first_two_ok(list, f, os, v, p, q),
        first_two_ok(list, f, os, v, p2, q2),
    ensures
        p == p2 && q == q2,
{
    if q < q2 {
        assert(surely_ok(list, f, os[q], v));
        if q != p2 {
            assert(surely_err(list, os[q], v));
        }
        assert(surely_ok(list, f, os[p], v));
        if p != p2 {
            assert(surely_err(list, os[p], v));
        }
    } else if q2 < q {
        assert(surely_ok(list, f, os[q2], v));
        if q2 != p {
            assert(surely_err(list, os[q2], v));
        }
        assert(surely_ok(list, f, os[p2], v));
        if p2 != p {
            assert(surely_err(list, os[p2], v));
        }
    } else {
        if p < p2 {
            assert(surely_ok(list, f, os[p], v));
            assert(surely_err(list, os[p], v));
        } else if p2 < p {
            assert(surely_ok(list, f, os[p2], v));
            assert(surely_err(list, os[p2], v));
        }
    }
}

/// `oneOf` is the only applicator of `s` that `cond_validate` checks.
pub open spec fn one_of_only(s: Schema) -> bool {
    s.not is None && s.all_of@.len() == 0 && s.any_of@.len() == 0 && s.if_ is None
}

/// The innermost schema is not entered already for the same value.
pub open spec fn no_repeat(f: Seq<Frame>) -> bool {
    forall|k: int| run_start(f) <= k < f.len() - 1 ==> (#[trigger] f[k]).sch != f.last().sch
}

/// A scope of schemas below `n` whose value numbers never decrease.
pub open spec fn scope_ok(f: Seq<Frame>, n: nat) -> bool {
    &&& f.len() > 0
    &&& forall|i: int| 0 <= i < f.len() ==> (#[trigger] f[i]).sch.0 < n
    &&& forall|i: int, j: int| 0 <= i < j < f.len() ==> (#[trigger] f[i]).vid <= (#[trigger] f[j]).vid
}

/// How many more frames the current run can take before a schema repeats.
pub open spec fn run_room(f: Seq<Frame>, n: nat) -> nat {
    let k = f.len() - run_start(f);
    if k <= n + 1 { (n + 1 - k) as nat } else { 0 }
}

/// `run_start` marks the run: all later frames share the last number, the
/// one before does not.
pub proof fn lemma_run_start(f: Seq<Frame>)
    requires
        f.len() > 0,
    ensures
        0 <= run_start(f) < f.len(),
        forall|k: int| run_start(f) <= k < f.len() ==> (#[trigger] f[k]).vid == f.last().vid,
        run_start(f) > 0 ==> f[run_start(f) - 1].vid != f.last().vid,
    decreases f.len(),
{
    if f.len() > 1 && f[f.len() - 2].vid == f.last().vid {
        let d = f.drop_last();
        lemma_run_start(d);
        assert forall|k: int| run_start(f) <= k < f.len() implies (#[trigger] f[k]).vid == f.last().vid by {
            if k < f.len() - 1 {
                assert(d[k] == f[k]);
            }
        }
    }
}

/// Pushing a frame for the same value extends the run.
pub proof fn lemma_run_push_same(f: Seq<Frame>, x: Frame)
    requires
        f.len() > 0,
        x.vid == f.last().vid,
    ensures
        run_start(f.push(x)) == run_start(f),
{
    assert(f.push(x).drop_last() =~= f);
}

/// Pushing a frame for another value starts a new run.
pub proof fn lemma_run_push_other(f: Seq<Frame>, x: Frame)
    requires
        f.len() > 0,
        x.vid != f.last().vid,
    ensures
        run_start(f.push(x)) == f.len(),
{
}

/// A run of pairwise distinct schemas below `n` has at most `n` frames.
pub proof fn lemma_run_len(f: Seq<Frame>, n: nat)
    requires
        scope_ok(f, n),
        run_distinct(f, f.len() as int),
    ensures
        f.len() - run_start(f) <= n,
{
    lemma_run_start(f);
    let rs = run_start(f);
    let s = f.subrange(rs, f.len() as int).map_values(|x: Frame| x.sch.0 as int);
    assert(s.no_duplicates()) by {
        assert forall|i: int, j: int| 0 <= i < s.len() && 0 <= j < s.len() && i != j implies s[i] != s[j] by {
            if i < j {
                assert(f[rs + i].sch != f[rs + j].sch);
            } else {
                assert(f[rs + j].sch != f[rs + i].sch);
            }
        }
    }
    s.unique_seq_to_set();
    vstd::set_lib::lemma_int_range(0, n as int);
    assert(s.to_set().subset_of(vstd::set_lib::set_int_range(0, n as int))) by {
        assert forall|v: int| s.to_set().contains(v) implies vstd::set_lib::set_int_range(0, n as int).contains(v) by {
            let k = choose|k: int| 0 <= k < s.len() && s[k] == v;
            assert(f[rs + k].sch.0 < n);
        }
    }
    vstd::set_lib::lemma_len_subset(s.to_set(), vstd::set_lib::set_int_range(0, n as int));
}

impl Scope {
    /// The scope of a validation that starts with `sch`.
    pub fn new(sch: SchemaIndex) -> (r: Scope)
        ensures
            r.frames@ == seq![Frame { sch, ref_kw: None, vid: 0 }],
    {
        let mut frames: Vec<Frame> = Vec::new();
        frames.push(Frame { sch, ref_kw: None, vid: 0 });
        Scope { frames }
    }

    /// Enters `sch`, reached through `ref_kw` if it is a jump, to validate
    /// the value numbered `vid`.
    pub fn child(&mut self, sch: SchemaIndex, ref_kw: Option<RefKw>, vid: usize)
        ensures
            final(self).frames@ == old(self).frames@.push(Frame { sch, ref_kw, vid }),
    {
        self.frames.push(Frame { sch, ref_kw, vid });
    }

    /// Leaves the innermost schema.
    pub fn pop(&mut self)
        requires
            old(self).frames@.len() > 0,
        ensures
            final(self).frames@ == old(self).frames@.drop_last(),
    {
        self.frames.pop();
    }

    /// The innermost frame.
    pub fn top(&self) -> (r: Frame)
        requires
            self.frames@.len() > 0,
        ensures
            r == self.frames@.last(),
    {
        self.frames[self.frames.len() - 1]
    }

    /// The nearest enclosing frame that validates the same value with the
    /// same schema as the innermost one, if any: such a frame means the
    /// references loop without consuming the instance.
    pub fn check_cycle(&self) -> (r: Option<usize>)
        requires
            self.frames@.len() > 0,
        ensures
            r matches Some(i) ==> {
                &&& run_start(self.frames@) <= i < self.frames@.len() - 1
                &&& self.frames@[i as int].sch == self.frames@.last().sch
                &&& forall|k: int| i < k < self.frames@.len() - 1 ==> (#[trigger] self.frames@[k]).sch != self.frames@.last().sch
            },
            r is None ==> forall|k: int| run_start(self.frames@) <= k < self.frames@.len() - 1
                ==> (#[trigger] self.frames@[k]).sch != self.frames@.last().sch,
    {
        proof {
            lemma_run_start(self.frames@);
        }
        let top = self.frames[self.frames.len() - 1];
        let mut i: usize = self.frames.len() - 1;
        while i > 0
            invariant
                top == self.frames@.last(),
                i < self.frames@.len(),
                run_start(self.frames@) <= i,
                0 <= run_start(self.frames@) < self.frames@.len(),
                forall|k: int| run_start(self.frames@) <= k < self.frames@.len() ==> (#[trigger] self.frames@[k]).vid == self.frames@.last().vid,
                run_start(self.frames@) > 0 ==> self.frames@[run_start(self.frames@) - 1].vid != self.frames@.last().vid,
                forall|k: int| i <= k < self.frames@.len() - 1 ==> (#[trigger] self.frames@[k]).sch != top.sch,
            decreases i,
        {
            let p = i - 1;
            if self.frames[p].vid != top.vid {
                return None;
            }
            if self.frames[p].sch == top.sch {
                return Some(p);
            }
            i = p;
        }
        None
    }
}

// ---------------------------------------------------------------------
// unevaluated properties and items

/// Properties and items not yet evaluated, by their position in the
/// instance object or array.
pub struct Uneval {
    pub props: Vec<bool>,
    pub items: Vec<bool>,
}

/// The positions marked in `flags`.
pub open spec fn marked(flags: Seq<bool>) -> Set<int> {
    Set::new(|i: int| 0 <= i < flags.len() && flags[i])
}

/// The flags fit the value they describe.
pub open spec fn uneval_ok(u: Uneval, v: JsonValue) -> bool {
    &&& (v matches JsonValue::Object(o) ==> u.props@.len() <= o@.len())
    &&& (!(v is Object) ==> u.props@.len() == 0)
    &&& (v matches JsonValue::Array(a) ==> u.items@.len() <= a@.len())
    &&& (!(v is Array) ==> u.items@.len() == 0)
}

impl Uneval {
    /// Nothing unevaluated.
    pub fn empty() -> (r: Uneval)
        ensures
            r.props@.len() == 0,
            r.items@.len() == 0,
    {
        Uneval { props: Vec::new(), items: Vec::new() }
    }

    /// Whether nothing is left unevaluated.
    pub fn is_empty(&self) -> (r: bool)
        ensures
            r == (marked(self.props@).is_empty() && marked(self.items@).is_empty()),
    {
        let mut i: usize = 0;
        while i < self.props.len()
            invariant
                i <= self.props@.len(),
                forall|k: int| 0 <= k < i ==> !self.props@[k],
            decreases self.props.len() - i,
        {
            if self.props[i] {
                proof {
                    assert(marked(self.props@).contains(i as int));
                }
                return false;
            }
            i += 1;
        }
        let mut j: usize = 0;
        while j < self.items.len()
            invariant
                j <= self.items@.len(),
                forall|k: int| 0 <= k < self.props@.len() ==> !self.props@[k],
                forall|k: int| 0 <= k < j ==> !self.items@[k],
            decreases self.items.len() - j,
        {
            if self.items[j] {
                proof {
                    assert(marked(self.items@).contains(j as int));
                }
                return false;
            }
            j += 1;
        }
        proof {
            assert(marked(self.props@) =~= Set::empty());
            assert(marked(self.items@) =~= Set::empty());
        }
        true
    }

    /// What is unevaluated in `v` for `sch` when validation starts: every
    /// property, or every item past those `sch` always evaluates, unless
    /// `sch` evaluates all of them or neither it nor the caller needs to
    /// know.
    pub fn from(v: &JsonValue, sch: &Schema, caller_needs: bool) -> (r: Uneval)
        ensures
            uneval_ok(r, *v),
            v matches JsonValue::Object(o) ==> marked(r.props@) == (
                if !sch.all_props_evaluated && (caller_needs || sch.unevaluated_properties is Some) {
                    Set::new(|i: int| 0 <= i < o@.len())
                } else {
                    Set::empty()
                }),
            v matches JsonValue::Array(a) ==> marked(r.items@) == (
                if !sch.all_items_evaluated && (caller_needs || sch.unevaluated_items is Some)
                    && sch.num_items_evaluated < a@.len() {
                    Set::new(|i: int| sch.num_items_evaluated <= i < a@.len())
                } else {
                    Set::empty()
                }),
    {
        let mut u = Uneval::empty();
        match v {
            JsonValue::Object(obj) => {
                if !sch.all_props_evaluated && (caller_needs || sch.unevaluated_properties.is_some()) {
                    let mut i: usize = 0;
                    while i < obj.len()
                        invariant
                            i <= obj@.len(),
                            u.props@.len() == i,
                            u.items@.len() == 0,
                            forall|k: int| 0 <= k < i ==> u.props@[k],
                        decreases obj.len() - i,
                    {
                        u.props.push(true);
                        i += 1;
                    }
                    proof {
                        assert(marked(u.props@) =~= Set::new(|i: int| 0 <= i < obj@.len()));
                    }
                } else {
                    proof {
                        assert(marked(u.props@) =~= Set::empty());
                    }
                }
            },
            JsonValue::Array(arr) => {
                if !sch.all_items_evaluated && (caller_needs || sch.unevaluated_items.is_some())
                    && sch.num_items_evaluated < arr.len() {
                    let mut i: usize = 0;
                    while i < arr.len()
                        invariant
                            i <= arr@.len(),
                            u.items@.len() == i,
                            u.props@.len() == 0,
                            forall|k: int| 0 <= k < i ==> u.items@[k] == (sch.num_items_evaluated <= k),
                        decreases arr.len() - i,
                    {
                        u.items.push(sch.num_items_evaluated <= i);
                        i += 1;
                    }
                    proof {
                        assert(marked(u.items@) =~= Set::new(|i: int| sch.num_items_evaluated <= i < arr@.len()));
                    }
                } else {
                    proof {
                        assert(marked(u.items@) =~= Set::empty());
                    }
                }
            },
            _ => {},
        }
        u
    }

    /// Keeps unevaluated only what `other` also leaves unevaluated.
    pub fn merge(&mut self, other: &Uneval)
        ensures
            final(self).props@.len() == old(self).props@.len(),
            final(self).items@.len() == old(self).items@.len(),
            marked(final(self).props@) == marked(old(self).props@).intersect(marked(other.props@)),
            marked(final(self).items@) == marked(old(self).items@).intersect(marked(other.items@)),
    {
        let ghost p0 = self.props@;
        let ghost i0 = self.items@;
        let mut i: usize = 0;
        while i < self.props.len()
            invariant
                self.props@.len() == p0.len(),
                self.items@ == i0,
                i <= p0.len(),
                forall|k: int| 0 <= k < i ==> #[trigger] self.props@[k] == keep_flag(p0, other.props@, k),
                forall|k: int| i <= k < p0.len() ==> #[trigger] self.props@[k] == p0[k],
            decreases self.props.len() - i,
        {
            let keep = self.props[i] && i < other.props.len() && other.props[i];
            proof {
                assert(keep == keep_flag(p0, other.props@, i as int));
            }
            self.props[i] = keep;
            i += 1;
        }
        let mut j: usize = 0;
        while j < self.items.len()
            invariant
                self.props@.len() == p0.len(),
                forall|k: int| 0 <= k < p0.len() ==> #[trigger] self.props@[k] == keep_flag(p0, other.props@, k),
                self.items@.len() == i0.len(),
                j <= i0.len(),
                forall|k: int| 0 <= k < j ==> #[trigger] self.items@[k] == keep_flag(i0, other.items@, k),
                forall|k: int| j <= k < i0.len() ==> #[trigger] self.items@[k] == i0[k],
            decreases self.items.len() - j,
        {
            let keep = self.items[j] && j < other.items.len() && other.items[j];
            proof {
                assert(keep == keep_flag(i0, other.items@, j as int));
            }
            self.items[j] = keep;
            j += 1;
        }
        proof {
            assert(marked(self.props@) =~= marked(p0).intersect(marked(other.props@)));
            assert(marked(self.items@) =~= marked(i0).intersect(marked(other.items@)));
        }
    }
}

/// The flag at `k` after merging `mine` with `other`.
pub open spec fn keep_flag(mine: Seq<bool>, other: Seq<bool>, k: int) -> bool {
    mine[k] && k < other.len() && other[k]
}

} // verus!

verus! {

// ---------------------------------------------------------------------
// what a successful validation guarantees of the schema's own keywords

/// The schema's `type` admits `v`.
pub open spec fn type_ok(s: Schema, v: JsonValue) -> bool {
    (exists|t: Type| s.types.has(t)) ==> (s.types.has(spec_type_of(v)) || (s.types.has(Type::Integer)
        && spec_is_integer(v)))
}

/// The schema's `const` equals `v`.
pub open spec fn const_ok(s: Schema, v: JsonValue) -> bool {
    s.constant matches Some(c) ==> json_eq(v, c)
}

/// The schema's `enum` holds `v`.
pub open spec fn enum_ok(s: Schema, v: JsonValue) -> bool {
    s.enum_ matches Some(e) ==> e.types.has(spec_type_of(v)) && exists|i: int|
        0 <= i < e.values@.len() && json_eq(#[trigger] e.values@[i], v)
}

/// `o` has a member named `name`.
pub open spec fn has_prop(o: Seq<(String, JsonValue)>, name: Seq<char>) -> bool {
    obj_get(o, name) is Some
}

/// `o` has a member for every name of `names`.
pub open spec fn all_present(o: Seq<(String, JsonValue)>, names: Seq<String>) -> bool {
    forall|i: int| 0 <= i < names.len() ==> has_prop(o, (#[trigger] names[i])@)
}

/// A property named `name` is evaluated by `properties` or
/// `patternProperties`.
pub open spec fn evaluated_by_name(s: Schema, name: Seq<char>) -> bool {
    ||| exists|j: int| 0 <= j < s.properties@.len() && (#[trigger] s.properties@[j]).0@ == name
    ||| exists|j: int| 0 <= j < s.pattern_properties@.len()
        && spec_regex_is_match((#[trigger] s.pattern_properties@[j]).0.source_view(), name)
}

/// A `dependencies` entry that requires properties is satisfied.
pub open spec fn dep_ok(o: Seq<(String, JsonValue)>, d: (String, Dependency)) -> bool {
    d.1 matches Dependency::Props(req) ==> (has_prop(o, d.0@) ==> all_present(o, req@))
}

/// The object keywords of `s` that need no subschema hold of `o`.
pub open spec fn obj_ok(s: Schema, o: Seq<(String, JsonValue)>) -> bool {
    &&& (s.min_properties matches Some(m) ==> o.len() >= m)
    &&& (s.max_properties matches Some(m) ==> o.len() <= m)
    &&& all_present(o, s.required@)
    &&& forall|k: int| 0 <= k < s.dependencies@.len() ==> dep_ok(o, #[trigger] s.dependencies@[k])
    &&& (s.additional_properties matches Some(Additional::Bool(b)) ==> b || forall|i: int|
        0 <= i < o.len() ==> evaluated_by_name(s, (#[trigger] o[i]).0@))
    &&& (s.draft_version != 4 && s.draft_version != 6 ==> forall|k: int|
        0 <= k < s.dependent_required@.len() ==> (has_prop(o, (#[trigger] s.dependent_required@[k]).0@)
        ==> all_present(o, s.dependent_required@[k].1@)))
}

/// How many leading items `items` evaluates before draft 2020-12.
pub open spec fn items_evaluated(s: Schema, len: int) -> int {
    match s.items {
        Some(Items::SchemaRef(_)) => len,
        Some(Items::SchemaRefs(l)) => if l@.len() < len { l@.len() as int } else { len },
        None => 0,
    }
}

/// The array keywords of `s` that need no subschema hold of `a`.
pub open spec fn arr_ok(s: Schema, a: Seq<JsonValue>) -> bool {
    &&& (s.min_items matches Some(m) ==> a.len() >= m)
    &&& (s.max_items matches Some(m) ==> a.len() <= m)
    &&& (s.unique_items && a.len() > 1 ==> forall|i: int, j: int| !dup_at(a, i, j))
    &&& (s.draft_version < 2020 ==> (s.additional_items matches Some(Additional::Bool(b)) ==> b
        || items_evaluated(s, a.len() as int) == a.len()))
}

/// The string keywords of `s` that need no subschema hold of `t`.
pub open spec fn str_ok(s: Schema, t: Seq<char>) -> bool {
    &&& (s.min_length matches Some(m) ==> t.len() >= m)
    &&& (s.max_length matches Some(m) ==> t.len() <= m)
    &&& (s.pattern matches Some(p) ==> spec_regex_is_match(p.source_view(), t))
}

/// The bounds of `s` hold of `n`.
pub open spec fn num_ok(s: Schema, n: JsonNumber) -> bool {
    &&& (s.minimum matches Some(m) ==> n.order_key >= m.order_key)
    &&& (s.maximum matches Some(m) ==> n.order_key <= m.order_key)
    &&& (s.exclusive_minimum matches Some(m) ==> n.order_key > m.order_key)
    &&& (s.exclusive_maximum matches Some(m) ==> n.order_key < m.order_key)
}

/// The keywords of `s` for the kind of `v` that need no subschema hold.
pub open spec fn kind_ok(s: Schema, v: JsonValue) -> bool {
    match v {
        JsonValue::Object(o) => obj_ok(s, o@),
        JsonValue::Array(a) => arr_ok(s, a@),
        JsonValue::String(t) => str_ok(s, t@),
        JsonValue::Number(n) => num_ok(s, n),
        _ => true,
    }
}

/// A schema that decides by its own keywords alone: it names no other
/// schema and asks for no check made outside the library (`format`, the
/// content keywords, `multipleOf`).
pub open spec fn flat(s: Schema) -> bool {
    &&& shallow(s)
    &&& s.format is None
    &&& s.properties@.len() == 0
    &&& s.pattern_properties@.len() == 0
    &&& s.property_names is None
    &&& !(s.additional_properties matches Some(Additional::SchemaRef(_)))
    &&& s.items is None
    &&& !(s.additional_items matches Some(Additional::SchemaRef(_)))
    &&& s.prefix_items@.len() == 0
    &&& s.items2020 is None
}

/// A schema whose only subschemas are those its object members and array
/// items are checked against (`properties`, `patternProperties`,
/// `additionalProperties`, `propertyNames`, `prefixItems`, `items`,
/// `additionalItems`), and
/// that asks for no check made outside the library (its `format`, if any,
/// is a built-in one).
pub open spec fn shallow(s: Schema) -> bool {
    &&& shallow_or_cond(s)
    &&& s.ref_ is None
    &&& s.not is None
    &&& s.all_of@.len() == 0
    &&& s.any_of@.len() == 0
    &&& s.one_of@.len() == 0
    &&& s.if_ is None
}

/// A shallow schema that may also have `$ref`, `not`, `allOf`, `anyOf`,
/// `oneOf` and `if`/`then`/`else`.
pub open spec fn shallow_or_cond(s: Schema) -> bool {
    &&& (s.format matches Some(fm) ==> fm.check is Builtin)
    &&& s.recursive_ref is None
    &&& s.dynamic_ref is None
    &&& s.dependent_schemas@.len() == 0
    &&& forall|k: int| 0 <= k < s.dependencies@.len() ==> (#[trigger] s.dependencies@[k]).1 is Props
    &&& s.unevaluated_properties is None
    &&& s.contains is None
    &&& s.unevaluated_items is None
    &&& s.content_encoding is None
    &&& s.content_media_type is None
    &&& s.content_schema is None
    &&& s.multiple_of is None
}

/// `v` surely passes the shallow schema `s`: its own keywords and its
/// built-in format hold, each member of an object surely passes every
/// schema `properties` of `s` gives for its name, and each item of an
/// array its `items` schema (the `true` schema, or again a shallow one).
pub open spec fn shallow_ok(list: Seq<Schema>, s: Schema, v: JsonValue) -> bool
    decreases v, 1int,
{
    &&& shallow(s)
    &&& local_ok(s, v)
    &&& (s.format matches Some(fm) ==> (fm.check matches FormatCheck::Builtin(f) && spec_value_format_ok(f, v)))
    &&& match v {
        JsonValue::Object(o) => props_ok(list, s, o@),
        JsonValue::Array(a) => items_ok(list, s, a@, 0, a@.len() as int),
        _ => true,
    }
}

/// The `not`, `allOf`, `anyOf`, `oneOf` and `if`/`then`/`else` of `s`
/// surely pass `v` in scope `f`: the schema of `not` surely rejects it,
/// every `allOf` branch and some `anyOf` branch surely accept it, exactly
/// one `oneOf` branch surely accepts it and the others surely reject it,
/// and `if` surely accepts it and `then` (if any) too, or `if` surely
/// rejects it and `else` (if any) surely accepts it.
pub open spec fn conds_ok(list: Seq<Schema>, f: Seq<Frame>, s: Schema, v: JsonValue) -> bool {
    &&& (s.not matches Some(x) ==> surely_err(list, x, v))
    &&& forall|j: int| 0 <= j < s.all_of@.len() ==> surely_ok(list, f, #[trigger] s.all_of@[j], v)
    &&& (s.any_of@.len() > 0 ==> exists|j: int| 0 <= j < s.any_of@.len() && surely_ok(list, f, #[trigger] s.any_of@[j], v))
    &&& (s.one_of@.len() > 0 ==> exists|p: int| 0 <= p < s.one_of@.len()
        && surely_ok(list, f, #[trigger] s.one_of@[p], v)
        && forall|j: int| 0 <= j < s.one_of@.len() && j != p ==> surely_err(list, #[trigger] s.one_of@[j], v))
    &&& (s.if_ matches Some(c) ==> {
        ||| surely_ok(list, f, c, v) && (s.then_ matches Some(t) ==> surely_ok(list, f, t, v))
        ||| surely_err(list, c, v) && (s.else_ matches Some(e) ==> surely_ok(list, f, e, v))
    })
}

/// `v` surely passes `s` in scope `f`: `s` is shallow but for its
/// applicators and `$ref`, its own keywords, format, members and items
/// surely pass (as for `shallow_ok`), so do its applicators (`conds_ok`),
/// and the schema of `$ref` surely accepts it.
pub open spec fn top_ok(list: Seq<Schema>, f: Seq<Frame>, s: Schema, v: JsonValue) -> bool {
    &&& shallow_or_cond(s)
    &&& local_ok(s, v)
    &&& (s.format matches Some(fm) ==> (fm.check matches FormatCheck::Builtin(f) && spec_value_format_ok(f, v)))
    &&& match v {
        JsonValue::Object(o) => props_ok(list, s, o@),
        JsonValue::Array(a) => items_ok(list, s, a@, 0, a@.len() as int),
        _ => true,
    }
    &&& conds_ok(list, f, s, v)
    &&& (s.ref_ matches Some(x) ==> surely_ok(list, f, x, v))
}

/// Validation that starts at schema `sch` surely accepts `v` (`top_ok` in
/// the scope of that schema alone).
pub open spec fn root_ok(list: Seq<Schema>, sch: SchemaIndex, v: JsonValue) -> bool {
    top_ok(list, seq![Frame { sch, ref_kw: None, vid: 0 }], list[sch.0 as int], v)
}

/// How many items of `a` surely pass the schema `x` (`child_ok`).
pub open spec fn count_sure(list: Seq<Schema>, x: SchemaIndex, a: Seq<JsonValue>) -> nat
    decreases a.len(),
{
    if a.len() == 0 {
        0
    } else {
        count_sure(list, x, a.drop_last()) + if child_ok(list, x, a.last()) { 1nat } else { 0nat }
    }
}

/// How many items of `a` the keywords of schema `x` itself allow (an
/// upper bound on the items that pass `x`).
pub open spec fn count_possible(list: Seq<Schema>, x: SchemaIndex, a: Seq<JsonValue>) -> nat
    decreases a.len(),
{
    if a.len() == 0 {
        0
    } else {
        count_possible(list, x, a.drop_last()) + if local_ok(list[x.0 as int], a.last()) { 1nat } else { 0nat }
    }
}

/// Fewer items of the array `v` can pass the `contains` schema of `s` than
/// its `minContains` asks for (one, without `minContains`).
pub open spec fn contains_too_few(list: Seq<Schema>, s: Schema, v: JsonValue) -> bool {
    &&& s.contains is Some
    &&& v matches JsonValue::Array(a)
    &&& count_possible(list, s.contains->0, a@) < match s.min_contains {
        Some(m) => m as nat,
        None => 1nat,
    }
}

/// More items of the array `v` surely pass the `contains` schema of `s`
/// than its `maxContains` allows.
pub open spec fn contains_too_many(list: Seq<Schema>, s: Schema, v: JsonValue) -> bool {
    &&& s.contains matches Some(x)
    &&& s.max_contains matches Some(m)
    &&& v matches JsonValue::Array(a)
    &&& count_sure(list, s.contains->0, a@) > s.max_contains->0
}

/// Each item of `a`, the first at position `k` of an array of `n` items,
/// surely passes the schemas `s` gives it.
pub open spec fn items_ok(list: Seq<Schema>, s: Schema, a: Seq<JsonValue>, k: int, n: int) -> bool
    decreases a, 0int,
{
    if a.len() == 0 {
        true
    } else {
        item_ok(list, s, a[0], k, n) && items_ok(list, s, a.skip(1), k + 1, n)
    }
}

/// The item `v` at position `k` of an array of `n` items surely passes the
/// schemas `s` gives it: the `items` schema or the one at its position,
/// the `additionalItems` schema past those, and from draft 2020-12 on the
/// `prefixItems` schema at its position or else the `items` schema.
pub open spec fn item_ok(list: Seq<Schema>, s: Schema, v: JsonValue, k: int, n: int) -> bool
    decreases v, 3int,
{
    &&& (s.items matches Some(Items::SchemaRef(x)) ==> child_ok(list, x, v))
    &&& (s.items matches Some(Items::SchemaRefs(l)) ==> (k < l@.len() ==> child_ok(list, l@[k], v)))
    &&& (s.additional_items matches Some(Additional::SchemaRef(x)) ==> (k >= items_evaluated(s, n)
        ==> child_ok(list, x, v)))
    &&& (k < s.prefix_items@.len() ==> child_ok(list, s.prefix_items@[k], v))
    &&& (s.items2020 matches Some(x) ==> (k >= s.prefix_items@.len() ==> child_ok(list, x, v)))
}

/// What `items_ok` says of the item at `i`.
pub proof fn lemma_items_ok_at(list: Seq<Schema>, s: Schema, a: Seq<JsonValue>, k: int, n: int, i: int)
    requires
        items_ok(list, s, a, k, n),
        0 <= i < a.len(),
    ensures
        item_ok(list, s, a[i], k + i, n),
    decreases i,
{
    if i > 0 {
        assert(a.skip(1)[i - 1] == a[i]);
        lemma_items_ok_at(list, s, a.skip(1), k + 1, n, i - 1);
    }
}

/// A schema without an `items` schema asks nothing of the items.
pub proof fn lemma_items_ok_none(list: Seq<Schema>, s: Schema, a: Seq<JsonValue>, k: int, n: int)
    requires
        s.items is None,
        !(s.additional_items matches Some(Additional::SchemaRef(_))),
        s.prefix_items@.len() == 0,
        s.items2020 is None,
        k >= 0,
    ensures
        items_ok(list, s, a, k, n),
    decreases a.len(),
{
    if a.len() > 0 {
        lemma_items_ok_none(list, s, a.skip(1), k + 1, n);
        assert(item_ok(list, s, a[0], k, n));
    }
}

/// Each member of `o` surely passes every schema `properties` of `s` gives
/// for its name.
pub open spec fn props_ok(list: Seq<Schema>, s: Schema, o: Seq<(String, JsonValue)>) -> bool
    decreases o, 0int,
{
    if o.len() == 0 {
        true
    } else {
        member_ok(list, s, o[0]) && props_ok(list, s, o.skip(1))
    }
}

/// The member `m` surely passes the schemas `s` gives it: those of
/// `properties` for its name, those of `patternProperties` whose pattern
/// matches its name, else the `additionalProperties` schema; and its name
/// surely passes the `propertyNames` schema (the `true` schema, or a flat
/// one whose keywords hold).
pub open spec fn member_ok(list: Seq<Schema>, s: Schema, m: (String, JsonValue)) -> bool
    decreases m, 3int,
{
    &&& forall|j: int| 0 <= j < s.properties@.len() && (#[trigger] s.properties@[j]).0@ == m.0@
        ==> child_ok(list, s.properties@[j].1, m.1)
    &&& forall|j: int| 0 <= j < s.pattern_properties@.len()
        && spec_regex_is_match((#[trigger] s.pattern_properties@[j]).0.source_view(), m.0@)
        ==> child_ok(list, s.pattern_properties@[j].1, m.1)
    &&& (s.additional_properties matches Some(Additional::SchemaRef(x)) ==> (!evaluated_by_name(s, m.0@)
        ==> child_ok(list, x, m.1)))
    &&& (s.property_names matches Some(x) ==> (list[x.0 as int].boolean == Some(true)
        || (flat(list[x.0 as int]) && local_ok(list[x.0 as int], JsonValue::String(m.0)))))
}

/// Validating the member value `v` against schema `x` surely succeeds:
/// `x` is the `true` schema, or a shallow schema `v` surely passes.
pub open spec fn child_ok(list: Seq<Schema>, x: SchemaIndex, v: JsonValue) -> bool
    decreases v, 2int,
{
    list[x.0 as int].boolean == Some(true) || shallow_ok(list, list[x.0 as int], v)
}

/// A schema that gives members no schema asks nothing of them.
pub proof fn lemma_props_ok_none(list: Seq<Schema>, s: Schema, o: Seq<(String, JsonValue)>)
    requires
        s.properties@.len() == 0,
        s.pattern_properties@.len() == 0,
        s.property_names is None,
        !(s.additional_properties matches Some(Additional::SchemaRef(_))),
    ensures
        props_ok(list, s, o),
    decreases o.len(),
{
    if o.len() > 0 {
        lemma_props_ok_none(list, s, o.skip(1));
        assert(member_ok(list, s, o[0]));
    }
}

/// A flat schema whose keywords hold is surely passed.
pub proof fn lemma_flat_shallow_ok(list: Seq<Schema>, s: Schema, v: JsonValue)
    requires
        flat(s),
        local_ok(s, v),
    ensures
        shallow_ok(list, s, v),
{
    if let JsonValue::Object(o) = v {
        lemma_props_ok_none(list, s, o@);
    }
    if let JsonValue::Array(a) = v {
        lemma_items_ok_none(list, s, a@, 0, a@.len() as int);
    }
}

/// What `props_ok` says of the member at `i`.
pub proof fn lemma_props_ok_at(list: Seq<Schema>, s: Schema, o: Seq<(String, JsonValue)>, i: int)
    requires
        props_ok(list, s, o),
        0 <= i < o.len(),
    ensures
        member_ok(list, s, o[i]),
    decreases i,
{
    if i > 0 {
        assert(o.skip(1)[i - 1] == o[i]);
        lemma_props_ok_at(list, s, o.skip(1), i - 1);
    }
}

/// Every keyword of `s` that needs no subschema holds of `v`: what a
/// successful validation of `v` against `s` guarantees. Before draft
/// 2019-09 a `$ref` stands for the whole schema.
pub open spec fn local_ok(s: Schema, v: JsonValue) -> bool {
    match s.boolean {
        Some(b) => b,
        None => {
            &&& type_ok(s, v)
            &&& const_ok(s, v)
            &&& enum_ok(s, v)
            &&& (!(s.draft_version < 2019 && s.ref_ is Some) ==> kind_ok(s, v))
        },
    }
}

// ---------------------------------------------------------------------
// what a successful validation guarantees of the subschemas

/// Schema `i` of `list` holds of `v` to depth `n`: its own keywords hold,
/// and the subschemas that apply to `v` or to its items and members hold
/// to depth `n - 1` (`not`, `propertyNames`, `contentSchema`, the
/// `unevaluated` keywords and dynamic or recursive references aside).
pub open spec fn holds(list: Seq<Schema>, i: SchemaIndex, v: JsonValue, n: nat) -> bool
    decreases n, 2int,
{
    if n == 0 || i.0 >= list.len() {
        true
    } else {
        &&& local_ok(list[i.0 as int], v)
        &&& (list[i.0 as int].boolean is None ==> sub_holds(list, list[i.0 as int], v, n))
    }
}

/// Schema `i` holds of `v` to every depth.
pub open spec fn always(list: Seq<Schema>, i: SchemaIndex, v: JsonValue) -> bool {
    forall|m: nat| #[trigger] holds(list, i, v, m)
}

/// The subschemas of `s` that apply hold of `v` (and of its items and
/// members) to depth `n - 1`.
pub open spec fn sub_holds(list: Seq<Schema>, s: Schema, v: JsonValue, n: nat) -> bool
    decreases n, 1int,
{
    if n == 0 {
        true
    } else {
        &&& ref_holds(list, s, v, n)
        &&& (!(s.draft_version < 2019 && s.ref_ is Some) ==> {
            &&& cond_holds(list, s, v, n)
            &&& obj_holds(list, s, v, n)
            &&& arr_holds(list, s, v, n)
        })
    }
}

/// The target of `$ref` holds to depth `n - 1`.
pub open spec fn ref_holds(list: Seq<Schema>, s: Schema, v: JsonValue, n: nat) -> bool
    decreases n, 0int,
{
    if n == 0 {
        true
    } else {
        s.ref_ matches Some(r) ==> holds(list, r, v, (n - 1) as nat)
    }
}

/// `allOf`, `anyOf`, `oneOf` and `if`/`then`/`else` of `s` are met to
/// depth `n - 1`: all of `allOf`, one of `anyOf` and of `oneOf`, and
/// either `if` and `then` or `else`.
pub open spec fn cond_holds(list: Seq<Schema>, s: Schema, v: JsonValue, n: nat) -> bool
    decreases n, 0int,
{
    if n == 0 {
        true
    } else {
        let k = (n - 1) as nat;
        &&& forall|j: int| 0 <= j < s.all_of@.len() ==> holds(list, #[trigger] s.all_of@[j], v, k)
        &&& (s.any_of@.len() > 0 ==> exists|j: int| 0 <= j < s.any_of@.len() && holds(list, #[trigger] s.any_of@[j], v, k))
        &&& (s.one_of@.len() > 0 ==> exists|j: int| 0 <= j < s.one_of@.len() && holds(list, #[trigger] s.one_of@[j], v, k))
        &&& (s.if_ matches Some(c) ==> {
            ||| (holds(list, c, v, k) && (s.then_ matches Some(t) ==> holds(list, t, v, k)))
            ||| (s.else_ matches Some(e) ==> holds(list, e, v, k))
        })
    }
}

/// The schema a `dependencies` entry requires, if it names one.
pub open spec fn dep_schema(d: Dependency) -> Option<SchemaIndex> {
    match d {
        Dependency::SchemaRef(x) => Some(x),
        Dependency::Props(_) => None,
    }
}

/// The schema `additionalProperties` or `additionalItems` names, if any.
pub open spec fn additional_schema(a: Option<Additional>) -> Option<SchemaIndex> {
    match a {
        Some(Additional::SchemaRef(x)) => Some(x),
        _ => None,
    }
}

/// The subschemas of `s` for an object `v` hold to depth `n - 1`: those
/// of `properties`, `patternProperties` and `additionalProperties` of each
/// member, and those of `dependencies` and `dependentSchemas` whose
/// property is present.
pub open spec fn obj_holds(list: Seq<Schema>, s: Schema, v: JsonValue, n: nat) -> bool
    decreases n, 0int,
{
    if n == 0 {
        true
    } else {
        let k = (n - 1) as nat;
        match v {
            JsonValue::Object(o) => {
                &&& forall|i: int| 0 <= i < o@.len() && (exists|j: int| 0 <= j < s.properties@.len()
                    && (#[trigger] s.properties@[j]).0@ == (#[trigger] o@[i]).0@) ==> exists|j: int| 0 <= j < s.properties@.len()
                    && (#[trigger] s.properties@[j]).0@ == o@[i].0@ && holds(list, s.properties@[j].1, o@[i].1, k)
                &&& forall|i: int, j: int| 0 <= i < o@.len() && 0 <= j < s.pattern_properties@.len()
                    && spec_regex_is_match((#[trigger] s.pattern_properties@[j]).0.source_view(), (#[trigger] o@[i]).0@)
                    ==> holds(list, s.pattern_properties@[j].1, o@[i].1, k)
                &&& (additional_schema(s.additional_properties) matches Some(x) ==> forall|i: int| 0 <= i < o@.len()
                    && !evaluated_by_name(s, (#[trigger] o@[i]).0@) ==> holds(list, x, o@[i].1, k))
                &&& forall|d: int| 0 <= d < s.dependencies@.len() && has_prop(o@, (#[trigger] s.dependencies@[d]).0@)
                    && dep_schema(s.dependencies@[d].1) is Some ==> holds(list, dep_schema(s.dependencies@[d].1)->0, v, k)
                &&& (s.draft_version >= 2019 ==> forall|d: int| 0 <= d < s.dependent_schemas@.len()
                    && has_prop(o@, (#[trigger] s.dependent_schemas@[d]).0@) ==> holds(list, s.dependent_schemas@[d].1, v, k))
            },
            _ => true,
        }
    }
}

/// The subschemas of `s` for an array `v` hold to depth `n - 1`: those of
/// `items`, `additionalItems` and `prefixItems` of each item, and that of
/// `contains` of some item when at least one must match.
pub open spec fn arr_holds(list: Seq<Schema>, s: Schema, v: JsonValue, n: nat) -> bool
    decreases n, 0int,
{
    if n == 0 {
        true
    } else {
        let k = (n - 1) as nat;
        match v {
            JsonValue::Array(a) => {
                &&& (s.draft_version < 2020 ==> match s.items {
                    Some(Items::SchemaRef(x)) => forall|i: int| 0 <= i < a@.len() ==> holds(list, x, #[trigger] a@[i], k),
                    Some(Items::SchemaRefs(l)) => forall|i: int| 0 <= i < a@.len() && i < l@.len()
                        ==> holds(list, l@[i], #[trigger] a@[i], k),
                    None => true,
                })
                &&& (s.draft_version < 2020 ==> (additional_schema(s.additional_items) matches Some(x) ==> forall|i: int|
                    items_evaluated(s, a@.len() as int) <= i < a@.len() ==> holds(list, x, #[trigger] a@[i], k)))
                &&& (s.draft_version >= 2020 ==> forall|i: int| 0 <= i < a@.len() && i < s.prefix_items@.len()
                    ==> holds(list, s.prefix_items@[i], #[trigger] a@[i], k))
                &&& (s.draft_version >= 2020 ==> (s.items2020 matches Some(x) ==> forall|i: int|
                    s.prefix_items@.len() <= i < a@.len() ==> holds(list, x, #[trigger] a@[i], k)))
                &&& (s.contains is Some && (s.min_contains is None || s.min_contains->0 > 0) ==> exists|i: int|
                    0 <= i < a@.len() && holds(list, s.contains->0, #[trigger] a@[i], k))
            },
            _ => true,
        }
    }
}

/// What a successful check of member `i` of `o` guarantees: the schemas of
/// `properties`, `patternProperties` and `additionalProperties` that apply
/// to it hold to every depth.
spec fn member_always(list: Seq<Schema>, s: Schema, o: Seq<(String, JsonValue)>, i: int) -> bool {
    &&& (exists|j: int| 0 <= j < s.properties@.len() && (#[trigger] s.properties@[j]).0@ == o[i].0@) ==>
        exists|j: int| 0 <= j < s.properties@.len() && (#[trigger] s.properties@[j]).0@ == o[i].0@
            && always(list, s.properties@[j].1, o[i].1)
    &&& forall|j: int| 0 <= j < s.pattern_properties@.len()
        && spec_regex_is_match((#[trigger] s.pattern_properties@[j]).0.source_view(), o[i].0@)
        ==> always(list, s.pattern_properties@[j].1, o[i].1)
    &&& (additional_schema(s.additional_properties) matches Some(x) ==> (!evaluated_by_name(s, o[i].0@)
        ==> always(list, x, o[i].1)))
}

/// The schemas of `dependencies` whose property `v` has hold of `v`, for
/// the first `k` entries.
spec fn deps_always(list: Seq<Schema>, s: Schema, o: Seq<(String, JsonValue)>, v: JsonValue, k: int) -> bool {
    forall|d: int| 0 <= d < k && has_prop(o, (#[trigger] s.dependencies@[d]).0@)
        && dep_schema(s.dependencies@[d].1) is Some ==> always(list, dep_schema(s.dependencies@[d].1)->0, v)
}

/// The schemas of `dependentSchemas` whose property `v` has hold of `v`,
/// for the first `k` entries.
spec fn dep_schemas_always(list: Seq<Schema>, s: Schema, o: Seq<(String, JsonValue)>, v: JsonValue, k: int) -> bool {
    forall|d: int| 0 <= d < k && has_prop(o, (#[trigger] s.dependent_schemas@[d]).0@)
        ==> always(list, s.dependent_schemas@[d].1, v)
}

proof fn lemma_obj_holds(list: Seq<Schema>, s: Schema, o: Seq<(String, JsonValue)>, v: JsonValue)
    requires
        v matches JsonValue::Object(ov) && ov@ == o,
        forall|i: int| 0 <= i < o.len() ==> #[trigger] member_always(list, s, o, i),
        deps_always(list, s, o, v, s.dependencies@.len() as int),
        s.draft_version >= 2019 ==> dep_schemas_always(list, s, o, v, s.dependent_schemas@.len() as int),
    ensures
        forall|n: nat| #[trigger] obj_holds(list, s, v, n),
{
    assert forall|n: nat| #[trigger] obj_holds(list, s, v, n) by {
        if n > 0 {
            let k = (n - 1) as nat;
            assert forall|i: int| 0 <= i < o.len() && (exists|j: int| 0 <= j < s.properties@.len()
                && (#[trigger] s.properties@[j]).0@ == (#[trigger] o[i]).0@) implies exists|j: int| 0 <= j < s.properties@.len()
                && (#[trigger] s.properties@[j]).0@ == o[i].0@ && holds(list, s.properties@[j].1, o[i].1, k) by {
                assert(member_always(list, s, o, i));
                let j = choose|j: int| 0 <= j < s.properties@.len() && (#[trigger] s.properties@[j]).0@ == o[i].0@
                    && always(list, s.properties@[j].1, o[i].1);
                assert(holds(list, s.properties@[j].1, o[i].1, k));
            }
            assert forall|i: int, j: int| 0 <= i < o.len() && 0 <= j < s.pattern_properties@.len()
                && spec_regex_is_match((#[trigger] s.pattern_properties@[j]).0.source_view(), (#[trigger] o[i]).0@)
                implies holds(list, s.pattern_properties@[j].1, o[i].1, k) by {
                assert(member_always(list, s, o, i));
            }
            if let Some(x) = additional_schema(s.additional_properties) {
                assert forall|i: int| 0 <= i < o.len() && !evaluated_by_name(s, (#[trigger] o[i]).0@)
                    implies holds(list, x, o[i].1, k) by {
                    assert(member_always(list, s, o, i));
                }
            }
            assert forall|d: int| 0 <= d < s.dependencies@.len() && has_prop(o, (#[trigger] s.dependencies@[d]).0@)
                && dep_schema(s.dependencies@[d].1) is Some implies holds(list, dep_schema(s.dependencies@[d].1)->0, v, k) by {
                assert(always(list, dep_schema(s.dependencies@[d].1)->0, v));
            }
            if s.draft_version >= 2019 {
                assert forall|d: int| 0 <= d < s.dependent_schemas@.len() && has_prop(o, (#[trigger] s.dependent_schemas@[d]).0@)
                    implies holds(list, s.dependent_schemas@[d].1, v, k) by {
                    assert(always(list, s.dependent_schemas@[d].1, v));
                }
            }
        }
    }
}

/// Schema `x` holds to every depth of the items of `a` from `lo` to `hi`.
spec fn each_always(list: Seq<Schema>, x: SchemaIndex, a: Seq<JsonValue>, lo: int, hi: int) -> bool {
    forall|i: int| lo <= i < hi ==> always(list, x, #[trigger] a[i])
}

/// The schemas of `l` hold to every depth of the items of `a` at the same
/// positions, below `hi`.
spec fn pairwise_always(list: Seq<Schema>, l: Seq<SchemaIndex>, a: Seq<JsonValue>, hi: int) -> bool {
    forall|i: int| 0 <= i < hi ==> always(list, l[i], #[trigger] a[i])
}

/// The schemas of `items` (before draft 2020-12) hold to every depth of
/// the items of `a` they apply to.
spec fn items_kw_always(list: Seq<Schema>, s: Schema, a: Seq<JsonValue>) -> bool {
    match s.items {
        Some(Items::SchemaRef(x)) => each_always(list, x, a, 0, a.len() as int),
        Some(Items::SchemaRefs(l)) => pairwise_always(list, l@, a, items_evaluated(s, a.len() as int)),
        None => true,
    }
}

/// The schemas of `items`, `additionalItems`, `prefixItems` that apply to
/// the items of `a` hold to every depth.
spec fn items_always(list: Seq<Schema>, s: Schema, a: Seq<JsonValue>) -> bool {
    &&& (s.draft_version < 2020 ==> items_kw_always(list, s, a))
    &&& (s.draft_version < 2020 ==> (additional_schema(s.additional_items) matches Some(x)
        ==> each_always(list, x, a, items_evaluated(s, a.len() as int), a.len() as int)))
    &&& (s.draft_version >= 2020 ==> pairwise_always(list, s.prefix_items@, a,
        if s.prefix_items@.len() < a.len() { s.prefix_items@.len() as int } else { a.len() as int }))
    &&& (s.draft_version >= 2020 ==> (s.items2020 matches Some(x)
        ==> each_always(list, x, a, s.prefix_items@.len() as int, a.len() as int)))
}

proof fn lemma_arr_holds(list: Seq<Schema>, s: Schema, a: Seq<JsonValue>, v: JsonValue)
    requires
        v matches JsonValue::Array(av) && av@ == a,
        items_always(list, s, a),
        s.contains is Some && (s.min_contains is None || s.min_contains->0 > 0) ==> exists|i: int|
            0 <= i < a.len() && always(list, s.contains->0, #[trigger] a[i]),
    ensures
        forall|n: nat| #[trigger] arr_holds(list, s, v, n),
{
    assert forall|n: nat| #[trigger] arr_holds(list, s, v, n) by {
        if n > 0 {
            let k = (n - 1) as nat;
            if s.draft_version < 2020 {
                match s.items {
                    Some(Items::SchemaRef(x)) => {
                        assert forall|i: int| 0 <= i < a.len() implies holds(list, x, #[trigger] a[i], k) by {
                            assert(always(list, x, a[i]));
                        }
                    },
                    Some(Items::SchemaRefs(l)) => {
                        assert forall|i: int| 0 <= i < a.len() && i < l@.len() implies holds(list, l@[i], #[trigger] a[i], k) by {
                            assert(always(list, l@[i], a[i]));
                        }
                    },
                    None => {},
                }
                if let Some(x) = additional_schema(s.additional_items) {
                    assert forall|i: int| items_evaluated(s, a.len() as int) <= i < a.len()
                        implies holds(list, x, #[trigger] a[i], k) by {
                        assert(always(list, x, a[i]));
                    }
                }
            } else {
                assert forall|i: int| 0 <= i < a.len() && i < s.prefix_items@.len()
                    implies holds(list, s.prefix_items@[i], #[trigger] a[i], k) by {
                    assert(always(list, s.prefix_items@[i], a[i]));
                }
                if let Some(x) = s.items2020 {
                    assert forall|i: int| s.prefix_items@.len() <= i < a.len()
                        implies holds(list, x, #[trigger] a[i], k) by {
                        assert(always(list, x, a[i]));
                    }
                }
            }
            if s.contains is Some && (s.min_contains is None || s.min_contains->0 > 0) {
                let i = choose|i: int| 0 <= i < a.len() && always(list, s.contains->0, #[trigger] a[i]);
                assert(holds(list, s.contains->0, a[i], k));
            }
        }
    }
}

// ---------------------------------------------------------------------
// the state of one validation step

/// The facts every step of validation relies on.
pub open spec fn step_ok(schemas: Schemas, f: Seq<Frame>, vloc_len: nat) -> bool {
    &&& schemas.wf()
    &&& scope_ok(f, schemas.list@.len())
    &&& run_distinct(f, f.len() as int)
    &&& f.last().vid <= vloc_len
}

/// The facts on entry of a step: the innermost schema may repeat.
pub open spec fn entry_ok(schemas: Schemas, f: Seq<Frame>, vloc_len: nat) -> bool {
    &&& schemas.wf()
    &&& scope_ok(f, schemas.list@.len())
    &&& run_distinct(f, f.len() - 1)
    &&& f.last().vid <= vloc_len
}

/// The schema of the innermost frame.
pub open spec fn cur_schema(schemas: Schemas, f: Seq<Frame>) -> Schema {
    schemas.list@[f.last().sch.0 as int]
}

/// What a step has gathered: what is still unevaluated, and the errors.
pub struct State {
    pub uneval: Uneval,
    pub errors: Vec<ValidationError>,
}

/// The instance location of the value numbered `vid`.
fn instance_location(vloc: &Vec<InstanceToken>, vid: usize) -> (r: InstanceLocation)
    requires
        vid <= vloc@.len(),
    ensures
        same_tokens(r.tokens@, vloc@.take(vid as int)),
{
    let mut tokens: Vec<InstanceToken> = Vec::new();
    let mut i: usize = 0;
    while i < vid
        invariant
            vid <= vloc@.len(),
            i <= vid,
            tokens@.len() == i,
            forall|k: int| 0 <= k < i ==> same_token(#[trigger] tokens@[k], vloc@[k]),
        decreases vid - i,
    {
        tokens.push(vloc[i].clone_token());
        i += 1;
    }
    InstanceLocation { tokens }
}

/// The error of `kind` at the current value; only a bare group when the
/// caller asked for a yes or no.
fn make_error(schema: &Schema, vloc: &Vec<InstanceToken>, vid: usize, bool_result: bool, kind: ErrorKind) -> (r: ValidationError)
    requires
        vid <= vloc@.len(),
    ensures
        r.schema_url@ == schema.loc@,
        r.causes@.len() == 0,
        bool_result ==> r.kind is Group && r.instance_location.tokens@.len() == 0,
        !bool_result ==> r.kind == kind && same_tokens(r.instance_location.tokens@, vloc@.take(vid as int)),
{
    if bool_result {
        return ValidationError {
            schema_url: schema.loc.clone(),
            instance_location: InstanceLocation::new(),
            kind: ErrorKind::Group,
            causes: Vec::new(),
        };
    }
    ValidationError {
        schema_url: schema.loc.clone(),
        instance_location: instance_location(vloc, vid),
        kind,
        causes: Vec::new(),
    }
}

/// Adds the single error of `errors`, or one error of `kind` holding them.
fn add_errors(st: &mut State, schema: &Schema, vloc: &Vec<InstanceToken>, vid: usize, bool_result: bool,
    errors: Vec<ValidationError>, kind: ErrorKind)
    requires
        vid <= vloc@.len(),
    ensures
        final(st).uneval == old(st).uneval,
        final(st).errors@.len() > old(st).errors@.len(),
        errors@.len() == 1 ==> final(st).errors@ == old(st).errors@ + errors@,
        errors@.len() != 1 ==> final(st).errors@ == old(st).errors@.push(final(st).errors@.last())
            && final(st).errors@.last().causes@ == errors@
            && (!bool_result ==> final(st).errors@.last().kind == kind),
{
    let mut errors = errors;
    if errors.len() == 1 {
        st.errors.append(&mut errors);
    } else {
        let mut err = make_error(schema, vloc, vid, bool_result, kind);
        err.causes = errors;
        st.errors.push(err);
    }
}

/// The properties of `required` that `obj` lacks: `None` when none is
/// missing; when the caller asked for a yes or no, an empty list stands
/// for any missing.
fn find_missing(obj: &Vec<(String, JsonValue)>, required: &Vec<String>, bool_result: bool) -> (r: Option<Vec<String>>)
    ensures
        r is None <==> all_present(obj@, required@),
        r matches Some(m) ==> (!bool_result ==> m@.len() > 0),
{
    let mut missing: Vec<String> = Vec::new();
    let mut i: usize = 0;
    while i < required.len()
        invariant
            i <= required@.len(),
            missing@.len() == 0 <==> forall|k: int| 0 <= k < i ==> has_prop(obj@, (#[trigger] required@[k])@),
        decreases required.len() - i,
    {
        if !obj_contains(obj, required[i].as_str()) {
            if bool_result {
                return Some(Vec::new());
            }
            missing.push(required[i].clone());
        }
        i += 1;
    }
    if missing.len() == 0 {
        None
    } else {
        Some(missing)
    }
}

/// The value at position `pos` of an array, or the value of the member at
/// position `pos` of an object.
pub open spec fn child_at(v: JsonValue, pos: int) -> JsonValue {
    match v {
        JsonValue::Array(a) => a@[pos],
        JsonValue::Object(o) => o@[pos].1,
        _ => v,
    }
}

/// `v` has a value at `pos`.
pub open spec fn has_child(v: JsonValue, pos: int) -> bool {
    match v {
        JsonValue::Array(a) => 0 <= pos < a@.len(),
        JsonValue::Object(o) => 0 <= pos < o@.len(),
        _ => false,
    }
}

} // verus!

verus! {

/// The schema that `properties` gives for `name`, if any.
fn lookup_schema(pairs: &Vec<(String, SchemaIndex)>, name: &str) -> (r: Option<SchemaIndex>)
    ensures
        r is Some <==> exists|j: int| 0 <= j < pairs@.len() && (#[trigger] pairs@[j]).0@ == name@,
        r matches Some(s) ==> exists|j: int| 0 <= j < pairs@.len() && (#[trigger] pairs@[j]).0@ == name@ && pairs@[j].1 == s,
{
    let mut i: usize = 0;
    while i < pairs.len()
        invariant
            i <= pairs@.len(),
            forall|j: int| 0 <= j < i ==> (#[trigger] pairs@[j]).0@ != name@,
        decreases pairs.len() - i,
    {
        if str_eq(pairs[i].0.as_str(), name) {
            return Some(pairs[i].1);
        }
        i += 1;
    }
    None
}

/// Whether some value of `values` equals `v`.
fn any_equal(values: &Vec<JsonValue>, v: &JsonValue) -> (r: bool)
    ensures
        r == exists|i: int| 0 <= i < values@.len() && json_eq(#[trigger] values@[i], *v),
{
    let mut i: usize = 0;
    while i < values.len()
        invariant
            i <= values@.len(),
            forall|j: int| 0 <= j < i ==> !json_eq(#[trigger] values@[j], *v),
        decreases values.len() - i,
    {
        if equals(&values[i], v) {
            return true;
        }
        i += 1;
    }
    false
}

/// A copy of each value.
fn clone_values(values: &Vec<JsonValue>) -> (r: Vec<JsonValue>)
    ensures
        r@.len() == values@.len(),
        forall|i: int| 0 <= i < r@.len() ==> crate::json::same_value(#[trigger] r@[i], values@[i]),
{
    let mut r: Vec<JsonValue> = Vec::new();
    let mut i: usize = 0;
    while i < values.len()
        invariant
            i <= values@.len(),
            r@.len() == i,
            forall|j: int| 0 <= j < i ==> crate::json::same_value(#[trigger] r@[j], values@[j]),
        decreases values.len() - i,
    {
        r.push(clone_value(&values[i]));
        i += 1;
    }
    r
}

/// Validates `instance` against the schema of the innermost frame of
/// `scope`; `vloc` holds the tokens of the locations of the values being
/// validated. `caller_needs` says whether the caller wants to know what
/// is left unevaluated, `bool_result` whether it wants only a yes or no.
/// Fresh validations nested through `propertyNames` or `contentSchema`
/// may go `budget` levels deep.
pub fn validate<H: Hooks>(schemas: &Schemas, hooks: &H, instance: &JsonValue, scope: &mut Scope,
    vloc: &mut Vec<InstanceToken>, caller_needs: bool, bool_result: bool, budget: u64)
    -> (r: Result<Uneval, ValidationError>)
    requires
        entry_ok(*schemas, old(scope).frames@, old(vloc)@.len()),
    ensures
        final(scope).frames@ == old(scope).frames@,
        final(vloc)@.len() >= old(vloc)@.len(),
        r is Ok ==> local_ok(cur_schema(*schemas, old(scope).frames@), *instance),
        cur_schema(*schemas, old(scope).frames@).boolean == Some(true) ==> r is Ok,
        cur_schema(*schemas, old(scope).frames@).boolean == Some(false) ==> (r matches Err(e)
            && (!bool_result ==> e.kind is FalseSchema)),
        r matches Ok(u) ==> uneval_ok(u, *instance),
        r is Ok ==> always(schemas.list@, old(scope).frames@.last().sch, *instance),
        cur_schema(*schemas, old(scope).frames@).boolean is None && (exists|k: int| run_start(old(scope).frames@) <= k
            < old(scope).frames@.len() - 1 && (#[trigger] old(scope).frames@[k]).sch == old(scope).frames@.last().sch)
            ==> (r matches Err(e) && (!bool_result ==> e.kind is RefCycle)),
        no_repeat(old(scope).frames@) && shallow_ok(schemas.list@, cur_schema(*schemas, old(scope).frames@), *instance)
            ==> r is Ok,
        no_repeat(old(scope).frames@) && top_ok(schemas.list@, old(scope).frames@, cur_schema(*schemas, old(scope).frames@), *instance)
            ==> r is Ok,
        builtin_format_of(cur_schema(*schemas, old(scope).frames@)) matches Some(f) ==> (r is Ok ==> spec_value_format_ok(f, *instance)),
        builtin_format_of(cur_schema(*schemas, old(scope).frames@)) matches Some(f) ==> (!spec_value_format_ok(f, *instance) ==> r is Err),
        registered_format_of(cur_schema(*schemas, old(scope).frames@)) matches Some(id) ==> (r is Ok ==> hooks.format_ok(id, *instance)),
        registered_format_of(cur_schema(*schemas, old(scope).frames@)) matches Some(id) ==> (!hooks.format_ok(id, *instance) ==> r is Err),
        registered_decoder_of(cur_schema(*schemas, old(scope).frames@)) matches Some(id) ==> (*instance matches JsonValue::String(t)
            ==> (!hooks.decodes(id, t) ==> r is Err)),
        base64_content(cur_schema(*schemas, old(scope).frames@)) ==> (*instance matches JsonValue::String(t)
            ==> (spec_base64_decode(t@) is None ==> r is Err)),
        base64_content(cur_schema(*schemas, old(scope).frames@)) ==> (*instance matches JsonValue::String(t)
            ==> (r is Ok ==> spec_base64_decode(t@) is Some)),
        !bool_result && applies_whole(cur_schema(*schemas, old(scope).frames@))
            && cond_rejects(schemas.list@, old(scope).frames@, cur_schema(*schemas, old(scope).frames@), *instance) ==> r is Err,
        applies_whole(cur_schema(*schemas, old(scope).frames@))
            && contains_too_many(schemas.list@, cur_schema(*schemas, old(scope).frames@), *instance) ==> r is Err,
        applies_whole(cur_schema(*schemas, old(scope).frames@))
            && contains_too_few(schemas.list@, cur_schema(*schemas, old(scope).frames@), *instance) ==> r is Err,
    decreases budget, instance, run_room(old(scope).frames@, schemas.list@.len()), 5nat,
{
    let ghost f0 = scope.frames@;
    let top = scope.top();
    let schema = schemas.get(top.sch);
    let vid = top.vid;

    // boolean --
    if let Some(b) = schema.boolean {
        if b {
            return Ok(Uneval::from(instance, schema, caller_needs));
        } else {
            return Err(make_error(schema, vloc, vid, bool_result, ErrorKind::FalseSchema));
        }
    }

    // check cycle --
    match scope.check_cycle() {
        Some(i) => {
            let kw_loc1 = kw_loc(schemas, scope, scope.frames.len() - 1);
            let kw_loc2 = kw_loc(schemas, scope, i);
            let kind = ErrorKind::RefCycle { url: schema.loc.clone(), kw_loc1, kw_loc2 };
            return Err(make_error(schema, vloc, vid, bool_result, kind));
        },
        None => {},
    }
    proof {
        assert(run_distinct(f0, f0.len() as int));
    }

    let mut st = State { uneval: Uneval::from(instance, schema, caller_needs), errors: Vec::new() };

    // type --
    if !schema.types.is_empty() {
        let v_type = Type::of(instance);
        let matched = schema.types.contains(v_type) || (schema.types.contains(Type::Integer) && is_integer(instance));
        if !matched {
            return Err(make_error(schema, vloc, vid, bool_result, ErrorKind::Type { got: v_type, want: schema.types }));
        }
    }

    // constant --
    if let Some(c) = &schema.constant {
        if !equals(instance, c) {
            return Err(make_error(schema, vloc, vid, bool_result, ErrorKind::Const { want: clone_value(c) }));
        }
    }

    // enum --
    if let Some(e) = &schema.enum_ {
        if !e.types.contains(Type::of(instance)) || !any_equal(&e.values, instance) {
            return Err(make_error(schema, vloc, vid, bool_result, ErrorKind::Enum { want: clone_values(&e.values) }));
        }
    }
    proof {
        assert(type_ok(*schema, *instance));
    }

    // format --
    if let Some(format) = &schema.format {
        let checked = match format.check {
            FormatCheck::Builtin(f) => f.check(instance),
            FormatCheck::Registered(id) => hooks.check_format(id, instance),
        };
        if let Err(err) = checked {
            let kind = ErrorKind::Format { got: clone_value(instance), want: format.name.clone(), err };
            st.errors.push(make_error(schema, vloc, vid, bool_result, kind));
        }
    }
    let ghost fmt_bad = builtin_format_of(*schema) matches Some(f) && !spec_value_format_ok(f, *instance);
    assert(fmt_bad ==> st.errors@.len() > 0);
    let ghost reg_bad = registered_format_of(*schema) matches Some(id) && !hooks.format_ok(id, *instance);
    assert(reg_bad ==> st.errors@.len() > 0);

    // $ref --
    let ghost list = schemas.list@;
    let ghost cur = f0.last().sch;
    if let Some(ref_) = schema.ref_ {
        let result = validate_ref(schemas, hooks, instance, scope, vloc, &mut st, ref_, RefKw::Ref, bool_result, budget);
        if schema.draft_version < 2019 {
            proof {
                if result is Ok {
                    assert forall|m: nat| #[trigger] holds(list, cur, *instance, m) by {
                        if m > 0 {
                            assert(local_ok(*schema, *instance));
                            assert(holds(list, ref_, *instance, (m - 1) as nat));
                            assert(sub_holds(list, *schema, *instance, m));
                        }
                    }
                }
            }
            return match result {
                Ok(()) => Ok(st.uneval),
                Err(e) => Err(e),
            };
        }
        if let Err(e) = result {
            st.errors.push(e);
        }
    }
    let ghost len_at_ref = st.errors@.len();
    assert(len_at_ref == 0 ==> (schema.ref_ matches Some(r) ==> always(list, r, *instance)));

    // type specific validations --
    match instance {
        JsonValue::Object(_) => obj_validate(schemas, hooks, instance, scope, vloc, &mut st, bool_result, budget),
        JsonValue::Array(_) => {
            let ghost before_arr = st.errors@.len();
            arr_validate(schemas, hooks, instance, scope, vloc, &mut st, bool_result, budget);
            assert(contains_too_many(list, *schema, *instance) ==> st.errors@.len() > before_arr);
            assert(contains_too_few(list, *schema, *instance) ==> st.errors@.len() > before_arr);
        },
        JsonValue::String(_) => str_validate(schemas, hooks, instance, scope, vloc, &mut st, bool_result, budget),
        JsonValue::Number(_) => num_validate(schemas, hooks, instance, scope, vloc, &mut st, bool_result),
        _ => {},
    }

    if st.errors.len() == 0 || !bool_result {
        if schema.draft_version >= 2019 {
            refs_validate(schemas, hooks, instance, scope, vloc, &mut st, bool_result, budget);
        }
        let ghost before_cond = st.errors@.len();
        cond_validate(schemas, hooks, instance, scope, vloc, &mut st, bool_result, budget);
        assert(cond_rejects(list, f0, *schema, *instance) ==> st.errors@.len() > before_cond);
        if schema.draft_version >= 2019 {
            uneval_validate(schemas, hooks, instance, scope, vloc, &mut st, bool_result, budget);
        }
    }

    let n = st.errors.len();
    assert(contains_too_many(list, *schema, *instance) ==> n > 0);
    assert(contains_too_few(list, *schema, *instance) ==> n > 0);
    assert(fmt_bad ==> n > 0);
    assert(reg_bad ==> n > 0);
    assert(!bool_result && cond_rejects(list, f0, *schema, *instance) ==> n > 0);
    assert(base64_content(*schema) ==> (*instance matches JsonValue::String(t)
        ==> (spec_base64_decode(t@) is None ==> n > 0)));
    assert(base64_content(*schema) ==> (*instance matches JsonValue::String(t)
        ==> (n == 0 ==> spec_base64_decode(t@) is Some)));
    assert(registered_decoder_of(*schema) matches Some(id) ==> (*instance matches JsonValue::String(t)
        ==> (!hooks.decodes(id, t) ==> n > 0)));
    if n == 0 {
        proof {
            assert(type_ok(*schema, *instance));
            assert(const_ok(*schema, *instance));
            assert(enum_ok(*schema, *instance));
            assert(kind_ok(*schema, *instance));
            assert(local_ok(*schema, *instance));
            assert forall|m: nat| #[trigger] holds(list, cur, *instance, m) by {
                if m > 0 {
                    assert(len_at_ref == 0);
                    if let Some(r) = schema.ref_ {
                        assert(always(list, r, *instance));
                        assert(holds(list, r, *instance, (m - 1) as nat));
                    }
                    assert(ref_holds(list, *schema, *instance, m));
                    assert(cond_holds(list, *schema, *instance, m));
                    assert(obj_holds(list, *schema, *instance, m));
                    assert(arr_holds(list, *schema, *instance, m));
                    assert(sub_holds(list, *schema, *instance, m));
                }
            }
        }
        Ok(st.uneval)
    } else if n == 1 {
        Err(st.errors.remove(0))
    } else {
        let mut e = make_error(schema, vloc, vid, bool_result, ErrorKind::Group);
        e.causes = st.errors;
        Err(e)
    }
}

/// The keyword location of frame `k` relative to the outermost schema:
/// the reference keyword for each jump, else the part of each schema's
/// location past that of the schema before it.
pub fn kw_loc(schemas: &Schemas, scope: &Scope, k: usize) -> (r: String)
    requires
        schemas.wf(),
        k < scope.frames@.len(),
        forall|i: int| 0 <= i < scope.frames@.len() ==> (#[trigger] scope.frames@[i]).sch.0 < schemas.list@.len(),
    ensures
        r@ == kw_loc_text(schemas.list@, scope.frames@, k as int),
{
    let mut loc = String::new();
    let total = scope.frames.len();
    let mut i: usize = 1;
    while i <= k
        invariant
            1 <= i <= k + 1,
            k < total,
            total == scope.frames@.len(),
            schemas.wf(),
            forall|j: int| 0 <= j < scope.frames@.len() ==> (#[trigger] scope.frames@[j]).sch.0 < schemas.list@.len(),
            loc@ == kw_loc_text(schemas.list@, scope.frames@, i - 1),
        decreases k + 1 - i,
    {
        let f = scope.frames[i];
        match f.ref_kw {
            Some(kw) => {
                push_str(&mut loc, "/");
                push_str(&mut loc, kw.name());
                proof {
                    reveal_strlit("/");
                }
            },
            None => {
                let cur = chars_of(schemas.get(f.sch).loc.as_str());
                let parent = chars_of(schemas.get(scope.frames[i - 1].sch).loc.as_str());
                if parent.len() <= cur.len() {
                    let mut j = parent.len();
                    while j < cur.len()
                        invariant
                            parent@.len() <= j <= cur@.len(),
                            loc@ == kw_loc_text(schemas.list@, scope.frames@, i - 1) + cur@.subrange(parent@.len() as int, j as int),
                        decreases cur.len() - j,
                    {
                        crate::text::push_char(&mut loc, cur[j]);
                        proof {
                            assert(cur@.subrange(parent@.len() as int, j + 1) =~= cur@.subrange(parent@.len() as int, j as int).push(cur@[j as int]));
                        }
                        j += 1;
                    }
                    proof {
                        assert(cur@.subrange(parent@.len() as int, cur@.len() as int) =~= cur@.skip(parent@.len() as int));
                    }
                }
            },
        }
        i += 1;
    }
    loc
}

/// The part of `cur` past `parent`, empty when `parent` is longer.
pub open spec fn loc_suffix(cur: Seq<char>, parent: Seq<char>) -> Seq<char> {
    if parent.len() <= cur.len() {
        cur.skip(parent.len() as int)
    } else {
        seq![]
    }
}

/// The keyword location of frame `k` of `f` (see `kw_loc`).
pub open spec fn kw_loc_text(list: Seq<Schema>, f: Seq<Frame>, k: int) -> Seq<char>
    decreases k,
{
    if k <= 0 {
        seq![]
    } else {
        kw_loc_text(list, f, k - 1) + match f[k].ref_kw {
            Some(kw) => seq!['/'] + crate::schema::ref_kw_name(kw),
            None => loc_suffix(list[f[k].sch.0 as int].loc@, list[f[k - 1].sch.0 as int].loc@),
        }
    }
}

} // verus!

verus! {

/// Whether `kind` is `Group`.
fn is_group(kind: &ErrorKind) -> (r: bool)
    ensures
        r == (*kind is Group),
{
    match kind {
        ErrorKind::Group => true,
        _ => false,
    }
}

/// Validates `v` from scratch against `schemas[sch]`, as
/// `Schemas::validate` does, with `budget` levels of nesting left.
pub fn validate_root<H: Hooks>(schemas: &Schemas, hooks: &H, v: &JsonValue, sch: SchemaIndex, budget: u64)
    -> (r: Result<(), ValidationError>)
    requires
        schemas.wf(),
        sch.0 < schemas.list@.len(),
    ensures
        r is Ok ==> local_ok(schemas.list@[sch.0 as int], *v),
        r is Ok ==> always(schemas.list@, sch, *v),
        builtin_format_of(schemas.list@[sch.0 as int]) matches Some(f) ==> (r is Ok ==> spec_value_format_ok(f, *v)),
        builtin_format_of(schemas.list@[sch.0 as int]) matches Some(f) ==> (!spec_value_format_ok(f, *v) ==> r is Err),
        registered_format_of(schemas.list@[sch.0 as int]) matches Some(id) ==> (r is Ok ==> hooks.format_ok(id, *v)),
        registered_format_of(schemas.list@[sch.0 as int]) matches Some(id) ==> (!hooks.format_ok(id, *v) ==> r is Err),
        registered_decoder_of(schemas.list@[sch.0 as int]) matches Some(id) ==> (*v matches JsonValue::String(t)
            ==> (!hooks.decodes(id, t) ==> r is Err)),
        base64_content(schemas.list@[sch.0 as int]) ==> (*v matches JsonValue::String(t)
            ==> (spec_base64_decode(t@) is None ==> r is Err)),
        base64_content(schemas.list@[sch.0 as int]) ==> (*v matches JsonValue::String(t)
            ==> (r is Ok ==> spec_base64_decode(t@) is Some)),
        schemas.list@[sch.0 as int].boolean == Some(true) ==> r is Ok,
        schemas.list@[sch.0 as int].boolean == Some(false) ==> (r matches Err(e) && e.kind is Schema
            && e.causes@.len() == 1 && e.causes@[0].kind is FalseSchema),
        r matches Err(e) ==> (e.kind matches ErrorKind::Schema { url } && url@ == schemas.list@[sch.0 as int].loc@
            && e.schema_url@ == url@ && e.instance_location.tokens@.len() == 0),
        shallow_ok(schemas.list@, schemas.list@[sch.0 as int], *v) ==> r is Ok,
        root_ok(schemas.list@, sch, *v) ==> r is Ok,
        root_rejects(schemas.list@, sch, *v) ==> r is Err,
        applies_whole(schemas.list@[sch.0 as int]) && contains_too_many(schemas.list@, schemas.list@[sch.0 as int], *v)
            ==> r is Err,
        applies_whole(schemas.list@[sch.0 as int]) && contains_too_few(schemas.list@, schemas.list@[sch.0 as int], *v)
            ==> r is Err,
    decreases budget, v, schemas.list@.len(), 6nat,
{
    let mut scope = Scope::new(sch);
    let mut vloc: Vec<InstanceToken> = Vec::new();
    let schema = schemas.get(sch);
    proof {
        let f = scope.frames@;
        assert(run_start(f) == 0);
        assert(run_room(f, schemas.list@.len()) == schemas.list@.len());
    }
    match validate(schemas, hooks, v, &mut scope, &mut vloc, false, false, budget) {
        Ok(_) => Ok(()),
        Err(err) => {
            let mut e = ValidationError {
                schema_url: schema.loc.clone(),
                instance_location: InstanceLocation::new(),
                kind: ErrorKind::Schema { url: schema.loc.clone() },
                causes: Vec::new(),
            };
            if is_group(&err.kind) {
                e.causes = err.causes;
            } else {
                e.causes.push(err);
            }
            Err(e)
        },
    }
}

/// Validates the value at `pos` of `instance` against `sch`, its location
/// extended by `token`.
fn validate_val<H: Hooks>(schemas: &Schemas, hooks: &H, instance: &JsonValue, pos: usize, token: InstanceToken,
    scope: &mut Scope, vloc: &mut Vec<InstanceToken>, sch: SchemaIndex, bool_result: bool, budget: u64)
    -> (r: Result<(), ValidationError>)
    requires
        step_ok(*schemas, old(scope).frames@, old(vloc)@.len()),
        sch.0 < schemas.list@.len(),
        has_child(*instance, pos as int),
    ensures
        final(scope).frames@ == old(scope).frames@,
        final(vloc)@.len() >= old(vloc)@.len(),
        r is Ok ==> always(schemas.list@, sch, child_at(*instance, pos as int)),
        r is Ok ==> local_ok(schemas.list@[sch.0 as int], child_at(*instance, pos as int)),
        schemas.list@[sch.0 as int].boolean == Some(true) ==> r is Ok,
        schemas.list@[sch.0 as int].boolean == Some(false) ==> (r matches Err(e)
            && (!bool_result ==> e.kind is FalseSchema)),
        shallow_ok(schemas.list@, schemas.list@[sch.0 as int], child_at(*instance, pos as int))
            ==> r is Ok,
    decreases budget, instance, run_room(old(scope).frames@, schemas.list@.len()), 1nat,
{
    let ghost f0 = scope.frames@;
    let vid = scope.top().vid;
    if vloc.len() == vid {
        vloc.push(token);
    } else {
        vloc[vid] = token;
    }
    let len = vloc.len();
    let child: &JsonValue = match instance {
        JsonValue::Array(a) => {
            proof {
                assert(decreases_to!(*instance => a@));
                assert(decreases_to!(a@ => a@[pos as int]));
            }
            &a[pos]
        },
        JsonValue::Object(o) => {
            proof {
                assert(decreases_to!(*instance => o@));
                assert(decreases_to!(o@ => o@[pos as int]));
                assert(decreases_to!(o@[pos as int] => o@[pos as int].1));
            }
            &o[pos].1
        },
        _ => {
            return Ok(());
        },
    };
    let next = vid + 1;
    scope.child(sch, None, next);
    proof {
        let x = Frame { sch, ref_kw: None, vid: next };
        lemma_run_start(f0);
        lemma_run_push_other(f0, x);
        let f1 = scope.frames@;
        assert(f1 == f0.push(x));
        assert(no_repeat(f1));
        assert forall|i: int, j: int| 0 <= i < j < f1.len() implies (#[trigger] f1[i]).vid <= (#[trigger] f1[j]).vid by {
            if j == f1.len() - 1 && i < f0.len() {
                assert(f0[i].vid <= f0.last().vid) by {
                    if i < f0.len() - 1 {
                        assert(f0[i].vid <= f0[f0.len() - 1].vid);
                    }
                }
            }
        }
        assert(scope_ok(f1, schemas.list@.len()));
    }
    let result = validate(schemas, hooks, child, scope, vloc, false, bool_result, budget);
    scope.pop();
    proof {
        assert(scope.frames@ =~= f0);
    }
    match result {
        Ok(_) => Ok(()),
        Err(e) => Err(e),
    }
}

/// Validates `instance` against `sch` as part of the current step,
/// reached through `ref_kw` if it is a jump; on success, what `sch`
/// evaluated is no longer unevaluated.
fn validate_self_<H: Hooks>(schemas: &Schemas, hooks: &H, instance: &JsonValue, scope: &mut Scope,
    vloc: &mut Vec<InstanceToken>, uneval: &mut Uneval, sch: SchemaIndex, ref_kw: Option<RefKw>,
    bool_result: bool, budget: u64) -> (r: Result<(), ValidationError>)
    requires
        step_ok(*schemas, old(scope).frames@, old(vloc)@.len()),
        sch.0 < schemas.list@.len(),
        uneval_ok(*old(uneval), *instance),
    ensures
        final(scope).frames@ == old(scope).frames@,
        final(vloc)@.len() >= old(vloc)@.len(),
        uneval_ok(*final(uneval), *instance),
        r is Ok ==> always(schemas.list@, sch, *instance),
        r is Ok ==> local_ok(schemas.list@[sch.0 as int], *instance),
        schemas.list@[sch.0 as int].boolean == Some(true) ==> r is Ok,
        schemas.list@[sch.0 as int].boolean == Some(false) ==> r is Err,
        shallow_ok(schemas.list@, schemas.list@[sch.0 as int], *instance)
            && (forall|k: int| run_start(old(scope).frames@) <= k < old(scope).frames@.len()
                ==> (#[trigger] old(scope).frames@[k]).sch != sch) ==> r is Ok,
    decreases budget, instance, run_room(old(scope).frames@, schemas.list@.len()), 2nat,
{
    let ghost f0 = scope.frames@;
    let vid = scope.top().vid;
    let caller_needs = !uneval.is_empty();
    scope.child(sch, ref_kw, vid);
    proof {
        let n = schemas.list@.len();
        let x = Frame { sch, ref_kw, vid };
        lemma_run_start(f0);
        lemma_run_len(f0, n);
        lemma_run_push_same(f0, x);
        let f1 = scope.frames@;
        assert(f1 == f0.push(x));
        assert((forall|k: int| run_start(f0) <= k < f0.len() ==> (#[trigger] f0[k]).sch != sch) ==> no_repeat(f1)) by {
            if forall|k: int| run_start(f0) <= k < f0.len() ==> (#[trigger] f0[k]).sch != sch {
                assert forall|k: int| run_start(f1) <= k < f1.len() - 1 implies (#[trigger] f1[k]).sch != f1.last().sch by {
                    assert(f1[k] == f0[k]);
                }
            }
        }
        assert forall|i: int, j: int| 0 <= i < j < f1.len() implies (#[trigger] f1[i]).vid <= (#[trigger] f1[j]).vid by {
            if j == f1.len() - 1 && i < f0.len() - 1 {
                assert(f0[i].vid <= f0[f0.len() - 1].vid);
            }
        }
        assert(scope_ok(f1, n));
        assert forall|i: int, j: int| run_start(f1) <= i < j < f1.len() - 1 implies (#[trigger] f1[i]).sch != (#[trigger] f1[j]).sch by {
            assert(f1[i] == f0[i]);
            assert(f1[j] == f0[j]);
        }
        assert(run_room(f1, n) < run_room(f0, n));
    }
    let result = validate(schemas, hooks, instance, scope, vloc, caller_needs, bool_result, budget);
    scope.pop();
    proof {
        assert(scope.frames@ =~= f0);
    }
    match result {
        Ok(reply) => {
            uneval.merge(&reply);
            Ok(())
        },
        Err(e) => Err(e),
    }
}

/// Validates through reference keyword `kw` to `sch`; a failure becomes a
/// `Reference` error holding what went wrong there.
fn validate_ref<H: Hooks>(schemas: &Schemas, hooks: &H, instance: &JsonValue, scope: &mut Scope,
    vloc: &mut Vec<InstanceToken>, st: &mut State, sch: SchemaIndex, kw: RefKw, bool_result: bool, budget: u64)
    -> (r: Result<(), ValidationError>)
    requires
        step_ok(*schemas, old(scope).frames@, old(vloc)@.len()),
        sch.0 < schemas.list@.len(),
        uneval_ok(old(st).uneval, *instance),
    ensures
        final(scope).frames@ == old(scope).frames@,
        final(vloc)@.len() >= old(vloc)@.len(),
        uneval_ok(final(st).uneval, *instance),
        final(st).errors@ == old(st).errors@,
        r is Ok ==> always(schemas.list@, sch, *instance),
        r is Ok ==> local_ok(schemas.list@[sch.0 as int], *instance),
        schemas.list@[sch.0 as int].boolean == Some(true) ==> r is Ok,
        schemas.list@[sch.0 as int].boolean == Some(false) ==> r is Err,
        shallow_ok(schemas.list@, schemas.list@[sch.0 as int], *instance)
            && (forall|k: int| run_start(old(scope).frames@) <= k < old(scope).frames@.len()
                ==> (#[trigger] old(scope).frames@[k]).sch != sch) ==> r is Ok,
        r matches Err(e) ==> (!bool_result ==> e.kind is Reference),
    decreases budget, instance, run_room(old(scope).frames@, schemas.list@.len()), 3nat,
{
    let result = validate_self_(schemas, hooks, instance, scope, vloc, &mut st.uneval, sch, Some(kw), bool_result, budget);
    match result {
        Ok(()) => Ok(()),
        Err(err) => {
            let top = scope.top();
            let schema = schemas.get(top.sch);
            let url = schemas.get(sch).loc.clone();
            let kind = ErrorKind::Reference { kw: kw.name().to_string(), url };
            let mut ref_err = make_error(schema, vloc, top.vid, bool_result, kind);
            if is_group(&err.kind) {
                ref_err.causes = err.causes;
            } else {
                ref_err.causes.push(err);
            }
            Err(ref_err)
        },
    }
}

} // verus!

verus! {

/// Validates the object keywords of the current schema.
#[verifier::loop_isolation(false)]
fn obj_validate<H: Hooks>(schemas: &Schemas, hooks: &H, instance: &JsonValue, scope: &mut Scope,
    vloc: &mut Vec<InstanceToken>, st: &mut State, bool_result: bool, budget: u64)
    requires
        step_ok(*schemas, old(scope).frames@, old(vloc)@.len()),
        uneval_ok(old(st).uneval, *instance),
    ensures
        final(scope).frames@ == old(scope).frames@,
        final(vloc)@.len() >= old(vloc)@.len(),
        uneval_ok(final(st).uneval, *instance),
        final(st).errors@.len() >= old(st).errors@.len(),
        *instance matches JsonValue::Object(o) ==> (final(st).errors@.len() == 0
            ==> obj_ok(cur_schema(*schemas, old(scope).frames@), o@)),
        *instance matches JsonValue::Object(o) ==> (shallow_or_cond(cur_schema(*schemas, old(scope).frames@))
            && props_ok(schemas.list@, cur_schema(*schemas, old(scope).frames@), o@)
            && obj_ok(cur_schema(*schemas, old(scope).frames@), o@) ==> final(st).errors@ == old(st).errors@),
        final(st).errors@.len() == 0 ==> forall|n: nat| #[trigger] obj_holds(schemas.list@,
            cur_schema(*schemas, old(scope).frames@), *instance, n),
    decreases budget, instance, run_room(old(scope).frames@, schemas.list@.len()), 4nat,
{
    let ghost f0 = scope.frames@;
    let ghost n = schemas.list@.len();
    let ghost e0 = st.errors@.len();
    let ghost es0 = st.errors@;
    let obj = match instance {
        JsonValue::Object(o) => o,
        _ => {
            return;
        },
    };
    let top = scope.top();
    let schema = schemas.get(top.sch);
    let vid = top.vid;
    let ghost fl = shallow_or_cond(*schema) && obj_ok(*schema, obj@) && props_ok(schemas.list@, *schema, obj@);
    let ghost list = schemas.list@;
    proof {
        assert(schemas.list@[top.sch.0 as int].refs_below(n));
    }

    // minProperties --
    if let Some(min) = schema.min_properties {
        if obj.len() < min {
            st.errors.push(make_error(schema, vloc, vid, bool_result, ErrorKind::MinProperties { got: obj.len(), want: min }));
        }
    }

    // maxProperties --
    if let Some(max) = schema.max_properties {
        if obj.len() > max {
            st.errors.push(make_error(schema, vloc, vid, bool_result, ErrorKind::MaxProperties { got: obj.len(), want: max }));
        }
    }

    // required --
    if schema.required.len() > 0 {
        if let Some(missing) = find_missing(obj, &schema.required, bool_result) {
            st.errors.push(make_error(schema, vloc, vid, bool_result, ErrorKind::Required { want: missing }));
        }
    }
    let ghost base_ok = (schema.min_properties matches Some(m) ==> obj@.len() >= m)
        && (schema.max_properties matches Some(m) ==> obj@.len() <= m)
        && all_present(obj@, schema.required@);
    assert(st.errors@.len() == 0 ==> base_ok);
    assert(fl ==> st.errors@ == es0);

    if bool_result && st.errors.len() > 0 {
        return;
    }

    // dependencies --
    let mut k: usize = 0;
    while k < schema.dependencies.len()
        invariant
            k <= schema.dependencies@.len(),
            scope.frames@ == f0,
            vloc@.len() >= old(vloc)@.len(),
            step_ok(*schemas, scope.frames@, vloc@.len()),
            uneval_ok(st.uneval, *instance),
            st.errors@.len() >= e0,
            st.errors@.len() == 0 ==> base_ok,
            st.errors@.len() == 0 ==> forall|j: int| 0 <= j < k ==> dep_ok(obj@, #[trigger] schema.dependencies@[j]),
            st.errors@.len() == 0 ==> deps_always(list, *schema, obj@, *instance, k as int),
            fl ==> st.errors@ == es0,
        decreases schema.dependencies.len() - k,
    {
        let prop = &schema.dependencies[k].0;
        if obj_contains(obj, prop.as_str()) {
            match &schema.dependencies[k].1 {
                Dependency::Props(required) => {
                    if let Some(missing) = find_missing(obj, required, bool_result) {
                        proof {
                            if fl {
                                assert(dep_ok(obj@, schema.dependencies@[k as int]));
                            }
                        }
                        let kind = ErrorKind::Dependency { prop: prop.clone(), missing };
                        st.errors.push(make_error(schema, vloc, vid, bool_result, kind));
                    }
                },
                Dependency::SchemaRef(sch) => {
                    proof {
                        assert(crate::schema::dep_below(schema.dependencies@[k as int].1, n));
                        assert(fl ==> schema.dependencies@[k as int].1 is Props);
                    }
                    if let Err(e) = validate_self_(schemas, hooks, instance, scope, vloc, &mut st.uneval, *sch, None, bool_result, budget) {
                        st.errors.push(e);
                    }
                },
            }
        }
        k += 1;
    }

    let mut additional_props: Vec<String> = Vec::new();
    let mut i: usize = 0;
    while i < obj.len()
        invariant
            i <= obj@.len(),
            scope.frames@ == f0,
            vloc@.len() >= old(vloc)@.len(),
            step_ok(*schemas, scope.frames@, vloc@.len()),
            uneval_ok(st.uneval, *instance),
            st.errors@.len() >= e0,
            st.errors@.len() == 0 ==> base_ok,
            st.errors@.len() == 0 ==> forall|j: int| 0 <= j < schema.dependencies@.len() ==> dep_ok(obj@, #[trigger] schema.dependencies@[j]),
            additional_props@.len() == 0 ==> (schema.additional_properties matches Some(Additional::Bool(b)) ==> b
                || forall|j: int| 0 <= j < i ==> evaluated_by_name(*schema, (#[trigger] obj@[j]).0@)),
            fl ==> st.errors@ == es0 && additional_props@.len() == 0,
            st.errors@.len() == 0 ==> deps_always(list, *schema, obj@, *instance, schema.dependencies@.len() as int),
            st.errors@.len() == 0 ==> forall|ii: int| 0 <= ii < i ==> #[trigger] member_always(list, *schema, obj@, ii),
        decreases obj.len() - i,
    {
        if bool_result && st.errors.len() > 0 {
            return;
        }
        let pname = &obj[i].0;
        let mut evaluated = false;

        // properties --
        let found = lookup_schema(&schema.properties, pname.as_str());
        if let Some(sch) = found {
            evaluated = true;
            proof {
                let j = choose|j: int| 0 <= j < schema.properties@.len() && (#[trigger] schema.properties@[j]).0@ == pname@ && schema.properties@[j].1 == sch;
                assert(schema.properties@[j].1.0 < n);
                if fl {
                    assert(schema.properties@[j].0@ == obj@[i as int].0@);
                    lemma_props_ok_at(list, *schema, obj@, i as int);
                    assert(child_ok(list, sch, obj@[i as int].1));
                    assert(child_at(*instance, i as int) == obj@[i as int].1);
                }
            }
            if let Err(e) = validate_val(schemas, hooks, instance, i, InstanceToken::Prop(pname.clone()), scope, vloc, sch, bool_result, budget) {
                st.errors.push(e);
            }
        }
        let ghost prop_fact = (exists|jj: int| 0 <= jj < schema.properties@.len() && (#[trigger] schema.properties@[jj]).0@ == obj@[i as int].0@) ==>
            exists|jj: int| 0 <= jj < schema.properties@.len() && (#[trigger] schema.properties@[jj]).0@ == obj@[i as int].0@
                && always(list, schema.properties@[jj].1, obj@[i as int].1);
        assert(st.errors@.len() == 0 ==> prop_fact);

        // patternProperties --
        let mut j: usize = 0;
        while j < schema.pattern_properties.len()
            invariant
                j <= schema.pattern_properties@.len(),
                scope.frames@ == f0,
                vloc@.len() >= old(vloc)@.len(),
                step_ok(*schemas, scope.frames@, vloc@.len()),
                uneval_ok(st.uneval, *instance),
                st.errors@.len() >= e0,
                st.errors@.len() == 0 ==> base_ok,
                st.errors@.len() == 0 ==> forall|jj: int| 0 <= jj < schema.dependencies@.len() ==> dep_ok(obj@, #[trigger] schema.dependencies@[jj]),
                evaluated == (found is Some || exists|jj: int| 0 <= jj < j
                    && spec_regex_is_match((#[trigger] schema.pattern_properties@[jj]).0.source_view(), pname@)),
                fl ==> st.errors@ == es0 && additional_props@.len() == 0,
                st.errors@.len() == 0 ==> deps_always(list, *schema, obj@, *instance, schema.dependencies@.len() as int),
                st.errors@.len() == 0 ==> forall|ii: int| 0 <= ii < i ==> #[trigger] member_always(list, *schema, obj@, ii),
                st.errors@.len() == 0 ==> prop_fact,
                st.errors@.len() == 0 ==> forall|jj: int| 0 <= jj < j && spec_regex_is_match((#[trigger] schema.pattern_properties@[jj]).0.source_view(), obj@[i as int].0@)
                    ==> always(list, schema.pattern_properties@[jj].1, obj@[i as int].1),
            decreases schema.pattern_properties.len() - j,
        {
            if schema.pattern_properties[j].0.is_match(pname.as_str()) {
                evaluated = true;
                let sch = schema.pattern_properties[j].1;
                proof {
                    if fl {
                        lemma_props_ok_at(list, *schema, obj@, i as int);
                        assert(spec_regex_is_match(schema.pattern_properties@[j as int].0.source_view(), obj@[i as int].0@));
                        assert(child_ok(list, sch, obj@[i as int].1));
                        assert(child_at(*instance, i as int) == obj@[i as int].1);
                    }
                }
                if let Err(e) = validate_val(schemas, hooks, instance, i, InstanceToken::Prop(pname.clone()), scope, vloc, sch, bool_result, budget) {
                    st.errors.push(e);
                }
            }
            j += 1;
        }
        proof {
            assert(evaluated == evaluated_by_name(*schema, pname@));
        }

        if !evaluated {
            // additionalProperties --
            match &schema.additional_properties {
                Some(Additional::Bool(allowed)) => {
                    evaluated = true;
                    if !*allowed {
                        proof {
                            if fl {
                                assert(obj@[i as int].0@ == pname@);
                                assert(evaluated_by_name(*schema, obj@[i as int].0@));
                            }
                        }
                        additional_props.push(pname.clone());
                    }
                },
                Some(Additional::SchemaRef(sch)) => {
                    evaluated = true;
                    proof {
                        if fl {
                            lemma_props_ok_at(list, *schema, obj@, i as int);
                            assert(obj@[i as int].0@ == pname@);
                            assert(child_ok(list, *sch, obj@[i as int].1));
                            assert(child_at(*instance, i as int) == obj@[i as int].1);
                        }
                    }
                    if let Err(e) = validate_val(schemas, hooks, instance, i, InstanceToken::Prop(pname.clone()), scope, vloc, *sch, bool_result, budget) {
                        st.errors.push(e);
                    }
                },
                None => {},
            }
        }

        if evaluated && i < st.uneval.props.len() {
            st.uneval.props[i] = false;
        }
        assert(st.errors@.len() == 0 ==> member_always(list, *schema, obj@, i as int));
        i += 1;
    }
    let ghost mem_ok = (forall|ii: int| 0 <= ii < obj@.len() ==> #[trigger] member_always(list, *schema, obj@, ii))
        && deps_always(list, *schema, obj@, *instance, schema.dependencies@.len() as int);
    assert(st.errors@.len() == 0 ==> mem_ok);
    if additional_props.len() > 0 {
        let kind = ErrorKind::AdditionalProperties { got: additional_props };
        st.errors.push(make_error(schema, vloc, vid, bool_result, kind));
    }

    if schema.draft_version == 4 {
        proof {
            if st.errors@.len() == 0 {
                lemma_obj_holds(list, *schema, obj@, *instance);
            }
        }
        return;
    }

    // propertyNames --
    if let Some(sch) = schema.property_names {
        let mut i: usize = 0;
        while i < obj.len()
            invariant
                i <= obj@.len(),
                scope.frames@ == f0,
                vloc@.len() >= old(vloc)@.len(),
                step_ok(*schemas, scope.frames@, vloc@.len()),
                uneval_ok(st.uneval, *instance),
                st.errors@.len() >= e0,
                st.errors@.len() == 0 ==> obj_ok_upto(*schema, obj@),
                st.errors@.len() == 0 ==> mem_ok,
                fl ==> st.errors@ == es0,
            decreases obj.len() - i,
        {
            if budget > 0 {
                let v = JsonValue::String(obj[i].0.clone());
                proof {
                    if fl {
                        lemma_props_ok_at(list, *schema, obj@, i as int);
                        if flat(list[sch.0 as int]) && local_ok(list[sch.0 as int], v) {
                            lemma_flat_shallow_ok(list, list[sch.0 as int], v);
                        }
                    }
                }
                if let Err(mut e) = validate_root(schemas, hooks, &v, sch, budget - 1) {
                    e.schema_url = schema.loc.clone();
                    e.kind = ErrorKind::PropertyName { prop: obj[i].0.clone() };
                    st.errors.push(e);
                }
            }
            i += 1;
        }
    }

    if schema.draft_version == 6 {
        proof {
            if st.errors@.len() == 0 {
                lemma_obj_holds(list, *schema, obj@, *instance);
            }
        }
        return;
    }

    // dependentSchemas --
    let mut k: usize = 0;
    while k < schema.dependent_schemas.len()
        invariant
            k <= schema.dependent_schemas@.len(),
            scope.frames@ == f0,
            vloc@.len() >= old(vloc)@.len(),
            step_ok(*schemas, scope.frames@, vloc@.len()),
            uneval_ok(st.uneval, *instance),
            st.errors@.len() >= e0,
            st.errors@.len() == 0 ==> obj_ok_upto(*schema, obj@),
            st.errors@.len() == 0 ==> mem_ok,
            st.errors@.len() == 0 ==> dep_schemas_always(list, *schema, obj@, *instance, k as int),
            fl ==> st.errors@ == es0,
        decreases schema.dependent_schemas.len() - k,
    {
        if obj_contains(obj, schema.dependent_schemas[k].0.as_str()) {
            let sch = schema.dependent_schemas[k].1;
            if let Err(e) = validate_self_(schemas, hooks, instance, scope, vloc, &mut st.uneval, sch, None, bool_result, budget) {
                st.errors.push(e);
            }
        }
        k += 1;
    }

    // dependentRequired --
    let mut k: usize = 0;
    while k < schema.dependent_required.len()
        invariant
            k <= schema.dependent_required@.len(),
            uneval_ok(st.uneval, *instance),
            st.errors@.len() >= e0,
            st.errors@.len() == 0 ==> obj_ok_upto(*schema, obj@),
            st.errors@.len() == 0 ==> forall|j: int| 0 <= j < k ==> (has_prop(obj@, (#[trigger] schema.dependent_required@[j]).0@)
                ==> all_present(obj@, schema.dependent_required@[j].1@)),
            fl ==> st.errors@ == es0,
            st.errors@.len() == 0 ==> mem_ok,
            st.errors@.len() == 0 ==> dep_schemas_always(list, *schema, obj@, *instance, schema.dependent_schemas@.len() as int),
            schema.draft_version != 4 && schema.draft_version != 6,
        decreases schema.dependent_required.len() - k,
    {
        let prop = &schema.dependent_required[k].0;
        if obj_contains(obj, prop.as_str()) {
            if let Some(missing) = find_missing(obj, &schema.dependent_required[k].1, bool_result) {
                proof {
                    if fl {
                        assert(has_prop(obj@, schema.dependent_required@[k as int].0@) ==>
                            all_present(obj@, schema.dependent_required@[k as int].1@));
                    }
                }
                let kind = ErrorKind::DependentRequired { prop: prop.clone(), missing };
                st.errors.push(make_error(schema, vloc, vid, bool_result, kind));
            }
        }
        k += 1;
    }
    proof {
        if st.errors@.len() == 0 {
            lemma_obj_holds(list, *schema, obj@, *instance);
        }
    }
}

/// The object keywords of `s` other than `dependentRequired` hold of `o`.
pub open spec fn obj_ok_upto(s: Schema, o: Seq<(String, JsonValue)>) -> bool {
    &&& (s.min_properties matches Some(m) ==> o.len() >= m)
    &&& (s.max_properties matches Some(m) ==> o.len() <= m)
    &&& all_present(o, s.required@)
    &&& forall|k: int| 0 <= k < s.dependencies@.len() ==> dep_ok(o, #[trigger] s.dependencies@[k])
    &&& (s.additional_properties matches Some(Additional::Bool(b)) ==> b || forall|i: int|
        0 <= i < o.len() ==> evaluated_by_name(s, (#[trigger] o[i]).0@))
}

} // verus!

verus! {

/// Validates the array keywords of the current schema.
#[verifier::loop_isolation(false)]
#[verifier::rlimit(100)]
fn arr_validate<H: Hooks>(schemas: &Schemas, hooks: &H, instance: &JsonValue, scope: &mut Scope,
    vloc: &mut Vec<InstanceToken>, st: &mut State, bool_result: bool, budget: u64)
    requires
        step_ok(*schemas, old(scope).frames@, old(vloc)@.len()),
        uneval_ok(old(st).uneval, *instance),
    ensures
        final(scope).frames@ == old(scope).frames@,
        final(vloc)@.len() >= old(vloc)@.len(),
        uneval_ok(final(st).uneval, *instance),
        final(st).errors@.len() >= old(st).errors@.len(),
        *instance matches JsonValue::Array(a) ==> (final(st).errors@.len() == 0
            ==> arr_ok(cur_schema(*schemas, old(scope).frames@), a@)),
        *instance matches JsonValue::Array(a) ==> (shallow_or_cond(cur_schema(*schemas, old(scope).frames@))
            && items_ok(schemas.list@, cur_schema(*schemas, old(scope).frames@), a@, 0, a@.len() as int)
            && arr_ok(cur_schema(*schemas, old(scope).frames@), a@) ==> final(st).errors@ == old(st).errors@),
        final(st).errors@.len() == 0 ==> forall|n: nat| #[trigger] arr_holds(schemas.list@,
            cur_schema(*schemas, old(scope).frames@), *instance, n),
        contains_too_many(schemas.list@, cur_schema(*schemas, old(scope).frames@), *instance)
            ==> final(st).errors@.len() > old(st).errors@.len(),
        !bool_result && contains_too_many(schemas.list@, cur_schema(*schemas, old(scope).frames@), *instance)
            ==> final(st).errors@.last().kind is MaxContains,
        contains_too_few(schemas.list@, cur_schema(*schemas, old(scope).frames@), *instance)
            ==> final(st).errors@.len() > old(st).errors@.len(),
    decreases budget, instance, run_room(old(scope).frames@, schemas.list@.len()), 4nat,
{
    let ghost f0 = scope.frames@;
    let ghost n = schemas.list@.len();
    let ghost e0 = st.errors@.len();
    let ghost es0 = st.errors@;
    let arr = match instance {
        JsonValue::Array(a) => a,
        _ => {
            return;
        },
    };
    let top = scope.top();
    let schema = schemas.get(top.sch);
    let vid = top.vid;
    let len = arr.len();
    proof {
        assert(schemas.list@[top.sch.0 as int].refs_below(n));
    }
    let ghost fl = shallow_or_cond(*schema) && arr_ok(*schema, arr@) && items_ok(schemas.list@, *schema, arr@, 0, arr@.len() as int);
    let ghost list = schemas.list@;

    // minItems --
    if let Some(min) = schema.min_items {
        if len < min {
            st.errors.push(make_error(schema, vloc, vid, bool_result, ErrorKind::MinItems { got: len, want: min }));
        }
    }

    // maxItems --
    if let Some(max) = schema.max_items {
        if len > max {
            st.errors.push(make_error(schema, vloc, vid, bool_result, ErrorKind::MaxItems { got: len, want: max }));
        }
    }

    // uniqueItems --
    if len > 1 && schema.unique_items {
        if let Some((i, j)) = duplicates(arr) {
            proof {
                if fl {
                    assert(!dup_at(arr@, i as int, j as int));
                }
            }
            st.errors.push(make_error(schema, vloc, vid, bool_result, ErrorKind::UniqueItems { got: (i, j) }));
        }
    }
    let ghost base_ok = (schema.min_items matches Some(m) ==> arr@.len() >= m)
        && (schema.max_items matches Some(m) ==> arr@.len() <= m)
        && (schema.unique_items && arr@.len() > 1 ==> forall|i: int, j: int| !dup_at(arr@, i, j));
    assert(st.errors@.len() == 0 ==> base_ok);
    assert(fl ==> st.errors@ == es0);

    if schema.draft_version < 2020 {
        let mut evaluated: usize = 0;

        // items --
        match &schema.items {
            Some(Items::SchemaRef(sch)) => {
                let mut i: usize = 0;
                while i < len
                    invariant
                        i <= len,
                        scope.frames@ == f0,
                        vloc@.len() >= old(vloc)@.len(),
                        step_ok(*schemas, scope.frames@, vloc@.len()),
                        uneval_ok(st.uneval, *instance),
                        st.errors@.len() >= e0,
                        st.errors@.len() == 0 ==> base_ok,
                        fl ==> st.errors@ == es0,
                        st.errors@.len() == 0 ==> each_always(list, *sch, arr@, 0, i as int),
                    decreases len - i,
                {
                    proof {
                        if fl {
                            lemma_items_ok_at(list, *schema, arr@, 0, arr@.len() as int, i as int);
                            assert(child_at(*instance, i as int) == arr@[i as int]);
                        }
                    }
                    if let Err(e) = validate_val(schemas, hooks, instance, i, InstanceToken::Item(i), scope, vloc, *sch, bool_result, budget) {
                        st.errors.push(e);
                    }
                    i += 1;
                }
                evaluated = len;
            },
            Some(Items::SchemaRefs(refs)) => {
                let m = if refs.len() < len { refs.len() } else { len };
                let mut i: usize = 0;
                while i < m
                    invariant
                        i <= m,
                        m <= len,
                        m <= refs@.len(),
                        scope.frames@ == f0,
                        vloc@.len() >= old(vloc)@.len(),
                        step_ok(*schemas, scope.frames@, vloc@.len()),
                        uneval_ok(st.uneval, *instance),
                        st.errors@.len() >= e0,
                        st.errors@.len() == 0 ==> base_ok,
                        fl ==> st.errors@ == es0,
                        st.errors@.len() == 0 ==> pairwise_always(list, refs@, arr@, i as int),
                    decreases m - i,
                {
                    proof {
                        if fl {
                            lemma_items_ok_at(list, *schema, arr@, 0, arr@.len() as int, i as int);
                            assert(child_at(*instance, i as int) == arr@[i as int]);
                        }
                    }
                    if let Err(e) = validate_val(schemas, hooks, instance, i, InstanceToken::Item(i), scope, vloc, refs[i], bool_result, budget) {
                        st.errors.push(e);
                    }
                    i += 1;
                }
                evaluated = m;
            },
            None => {},
        }
        assert(evaluated == items_evaluated(*schema, len as int));
        let ghost items_part = items_kw_always(list, *schema, arr@);
        assert(st.errors@.len() == 0 ==> items_part);

        // additionalItems --
        match &schema.additional_items {
            Some(Additional::Bool(allowed)) => {
                if !*allowed && evaluated != len {
                    proof {
                        assert(fl ==> items_evaluated(*schema, len as int) == len);
                    }
                    st.errors.push(make_error(schema, vloc, vid, bool_result, ErrorKind::AdditionalItems { got: len - evaluated }));
                }
            },
            Some(Additional::SchemaRef(sch)) => {
                let mut i: usize = evaluated;
                while i < len
                    invariant
                        evaluated <= i <= len,
                        scope.frames@ == f0,
                        vloc@.len() >= old(vloc)@.len(),
                        step_ok(*schemas, scope.frames@, vloc@.len()),
                        uneval_ok(st.uneval, *instance),
                        st.errors@.len() >= e0,
                        st.errors@.len() == 0 ==> base_ok,
                        fl ==> st.errors@ == es0,
                        st.errors@.len() == 0 ==> items_part,
                        st.errors@.len() == 0 ==> each_always(list, *sch, arr@, evaluated as int, i as int),
                    decreases len - i,
                {
                    proof {
                        if fl {
                            lemma_items_ok_at(list, *schema, arr@, 0, arr@.len() as int, i as int);
                            assert(child_at(*instance, i as int) == arr@[i as int]);
                        }
                    }
                    if let Err(e) = validate_val(schemas, hooks, instance, i, InstanceToken::Item(i - evaluated), scope, vloc, *sch, bool_result, budget) {
                        st.errors.push(e);
                    }
                    i += 1;
                }
            },
            None => {},
        }
    } else {
        // prefixItems --
        let m = if schema.prefix_items.len() < len { schema.prefix_items.len() } else { len };
        let mut i: usize = 0;
        while i < m
            invariant
                i <= m,
                m <= len,
                m <= schema.prefix_items@.len(),
                scope.frames@ == f0,
                vloc@.len() >= old(vloc)@.len(),
                step_ok(*schemas, scope.frames@, vloc@.len()),
                uneval_ok(st.uneval, *instance),
                st.errors@.len() >= e0,
                st.errors@.len() == 0 ==> base_ok,
                fl ==> st.errors@ == es0,
                st.errors@.len() == 0 ==> pairwise_always(list, schema.prefix_items@, arr@, i as int),
            decreases m - i,
        {
            proof {
                if fl {
                    lemma_items_ok_at(list, *schema, arr@, 0, arr@.len() as int, i as int);
                    assert(child_at(*instance, i as int) == arr@[i as int]);
                }
            }
            if let Err(e) = validate_val(schemas, hooks, instance, i, InstanceToken::Item(i), scope, vloc, schema.prefix_items[i], bool_result, budget) {
                st.errors.push(e);
            }
            i += 1;
        }

        // items --
        if let Some(sch) = schema.items2020 {
            let mut i: usize = m;
            while i < len
                invariant
                    m <= i <= len,
                    scope.frames@ == f0,
                    vloc@.len() >= old(vloc)@.len(),
                    step_ok(*schemas, scope.frames@, vloc@.len()),
                    uneval_ok(st.uneval, *instance),
                    st.errors@.len() >= e0,
                    st.errors@.len() == 0 ==> base_ok,
                    fl ==> st.errors@ == es0,
                    st.errors@.len() == 0 ==> pairwise_always(list, schema.prefix_items@, arr@, m as int),
                    st.errors@.len() == 0 ==> each_always(list, sch, arr@, m as int, i as int),
                decreases len - i,
            {
                proof {
                    if fl {
                        lemma_items_ok_at(list, *schema, arr@, 0, arr@.len() as int, i as int);
                        assert(child_at(*instance, i as int) == arr@[i as int]);
                    }
                }
                if let Err(e) = validate_val(schemas, hooks, instance, i, InstanceToken::Item(i - m), scope, vloc, sch, bool_result, budget) {
                    st.errors.push(e);
                }
                i += 1;
            }
        }
    }
    let ghost kinds_ok = st.errors@.len() == 0 ==> arr_ok(*schema, arr@);
    assert(kinds_ok);
    let ghost items_ok = items_always(list, *schema, arr@);
    assert(st.errors@.len() == 0 ==> items_ok);

    // contains --
    if let Some(sch) = schema.contains {
        proof {
            assert(schemas.list@[top.sch.0 as int].refs_below(n));
        }
        let (matched, errors) = contains_scan(schemas, hooks, instance, scope, vloc, &mut st.uneval, sch,
            schema.draft_version >= 2020, bool_result, budget);
        proof {
            if matched@.len() > 0 {
                assert(always(list, sch, arr@[matched@[0] as int]));
            }
        }
        let ghost some_match = exists|q: int| 0 <= q < arr@.len() && always(list, sch, #[trigger] arr@[q]);
        assert(matched@.len() > 0 ==> some_match);
        // minContains --
        if let Some(min) = schema.min_contains {
            if matched.len() < min {
                let mut e = make_error(schema, vloc, vid, bool_result, ErrorKind::MinContains { got: matched.clone(), want: min });
                e.causes = errors;
                st.errors.push(e);
            }
        } else if matched.len() == 0 {
            let mut e = make_error(schema, vloc, vid, bool_result, ErrorKind::Contains);
            e.causes = errors;
            st.errors.push(e);
        }

        // maxContains --
        if let Some(max) = schema.max_contains {
            if matched.len() > max {
                st.errors.push(make_error(schema, vloc, vid, bool_result, ErrorKind::MaxContains { got: matched, want: max }));
            }
        }
    }
    proof {
        if st.errors@.len() == 0 {
            lemma_arr_holds(list, *schema, arr@, *instance);
        }
    }
}

/// The positions of the items of the array `instance` that pass the
/// `contains` schema `sch`, and the errors of the others; with `mark`,
/// each passing item is no longer unevaluated.
#[verifier::loop_isolation(false)]
fn contains_scan<H: Hooks>(schemas: &Schemas, hooks: &H, instance: &JsonValue, scope: &mut Scope,
    vloc: &mut Vec<InstanceToken>, uneval: &mut Uneval, sch: SchemaIndex, mark: bool, bool_result: bool, budget: u64)
    -> (r: (Vec<usize>, Vec<ValidationError>))
    requires
        step_ok(*schemas, old(scope).frames@, old(vloc)@.len()),
        sch.0 < schemas.list@.len(),
        uneval_ok(*old(uneval), *instance),
        *instance is Array,
    ensures
        final(scope).frames@ == old(scope).frames@,
        final(vloc)@.len() >= old(vloc)@.len(),
        uneval_ok(*final(uneval), *instance),
        *instance matches JsonValue::Array(a) ==> {
            &&& forall|q: int| 0 <= q < r.0@.len() ==> #[trigger] r.0@[q] < a@.len()
                && always(schemas.list@, sch, a@[r.0@[q] as int])
            &&& r.0@.len() >= count_sure(schemas.list@, sch, a@)
            &&& r.0@.len() <= count_possible(schemas.list@, sch, a@)
        },
    decreases budget, instance, run_room(old(scope).frames@, schemas.list@.len()), 3nat,
{
    let arr = match instance {
        JsonValue::Array(a) => a,
        _ => {
            return (Vec::new(), Vec::new());
        },
    };
    let ghost f0 = scope.frames@;
    let ghost list = schemas.list@;
    let len = arr.len();
    let mut matched: Vec<usize> = Vec::new();
    let mut errors: Vec<ValidationError> = Vec::new();
    let mut i: usize = 0;
    while i < len
        invariant
            i <= len,
            len == arr@.len(),
            scope.frames@ == f0,
            vloc@.len() >= old(vloc)@.len(),
            step_ok(*schemas, scope.frames@, vloc@.len()),
            uneval_ok(*uneval, *instance),
            forall|q: int| 0 <= q < matched@.len() ==> #[trigger] matched@[q] < len
                && always(list, sch, arr@[matched@[q] as int]),
            matched@.len() >= count_sure(list, sch, arr@.take(i as int)),
            matched@.len() <= count_possible(list, sch, arr@.take(i as int)),
        decreases len - i,
    {
        proof {
            assert(arr@.take(i + 1).drop_last() =~= arr@.take(i as int));
            assert(arr@.take(i + 1).last() == arr@[i as int]);
            assert(child_at(*instance, i as int) == arr@[i as int]);
        }
        match validate_val(schemas, hooks, instance, i, InstanceToken::Item(i), scope, vloc, sch, bool_result, budget) {
            Err(e) => {
                errors.push(e);
            },
            Ok(()) => {
                matched.push(i);
                if mark && i < uneval.items.len() {
                    uneval.items.set(i, false);
                }
            },
        }
        i += 1;
    }
    proof {
        assert(arr@.take(len as int) =~= arr@);
    }
    (matched, errors)
}

/// Validates the string keywords of the current schema.
fn str_validate<H: Hooks>(schemas: &Schemas, hooks: &H, instance: &JsonValue, scope: &mut Scope,
    vloc: &mut Vec<InstanceToken>, st: &mut State, bool_result: bool, budget: u64)
    requires
        step_ok(*schemas, old(scope).frames@, old(vloc)@.len()),
        uneval_ok(old(st).uneval, *instance),
    ensures
        final(scope).frames@ == old(scope).frames@,
        final(vloc)@ == old(vloc)@,
        final(st).uneval == old(st).uneval,
        final(st).errors@.len() >= old(st).errors@.len(),
        *instance matches JsonValue::String(t) ==> (final(st).errors@.len() == 0
            ==> str_ok(cur_schema(*schemas, old(scope).frames@), t@)),
        *instance matches JsonValue::String(t) ==> (shallow_or_cond(cur_schema(*schemas, old(scope).frames@))
            && str_ok(cur_schema(*schemas, old(scope).frames@), t@) ==> final(st).errors@ == old(st).errors@),
        base64_content(cur_schema(*schemas, old(scope).frames@)) ==> (*instance matches JsonValue::String(t)
            ==> (spec_base64_decode(t@) is None ==> final(st).errors@.len() > old(st).errors@.len())),
        base64_content(cur_schema(*schemas, old(scope).frames@)) ==> (*instance matches JsonValue::String(t)
            ==> (final(st).errors@.len() == old(st).errors@.len() ==> spec_base64_decode(t@) is Some)),
        registered_decoder_of(cur_schema(*schemas, old(scope).frames@)) matches Some(id)
            ==> (*instance matches JsonValue::String(t)
            ==> (!hooks.decodes(id, t) ==> final(st).errors@.len() > old(st).errors@.len())),
    decreases budget, instance, run_room(old(scope).frames@, schemas.list@.len()), 4nat,
{
    let s = match instance {
        JsonValue::String(s) => s,
        _ => {
            return;
        },
    };
    let top = scope.top();
    let schema = schemas.get(top.sch);
    let vid = top.vid;
    let len = s.as_str().unicode_len();

    // minLength --
    if let Some(min) = schema.min_length {
        if len < min {
            st.errors.push(make_error(schema, vloc, vid, bool_result, ErrorKind::MinLength { got: len, want: min }));
        }
    }

    // maxLength --
    if let Some(max) = schema.max_length {
        if len > max {
            st.errors.push(make_error(schema, vloc, vid, bool_result, ErrorKind::MaxLength { got: len, want: max }));
        }
    }

    // pattern --
    if let Some(regex) = &schema.pattern {
        if !regex.is_match(s.as_str()) {
            let kind = ErrorKind::Pattern { got: s.clone(), want: regex.as_str().to_string() };
            st.errors.push(make_error(schema, vloc, vid, bool_result, kind));
        }
    }

    if schema.draft_version == 6 {
        return;
    }

    // contentEncoding --
    let mut decoded: Option<Vec<u8>> = Some(s.as_str().as_bytes_vec());
    if let Some(decoder) = &schema.content_encoding {
        let result = match decoder.check {
            DecoderCheck::Base64 => base64_decode(s.as_str()),
            DecoderCheck::Registered(id) => hooks.decode(id, s),
        };
        match result {
            Ok(bytes) => {
                decoded = Some(bytes);
            },
            Err(err) => {
                decoded = None;
                let kind = ErrorKind::ContentEncoding { want: decoder.name.clone(), err };
                st.errors.push(make_error(schema, vloc, vid, bool_result, kind));
            },
        }
    }

    // contentMediaType --
    let mut deserialized: Option<JsonValue> = None;
    if let Some(mt) = &schema.content_media_type {
        if let Some(bytes) = &decoded {
            match hooks.check_media_type(mt.id, bytes, schema.content_schema.is_some()) {
                Ok(des) => {
                    deserialized = des;
                },
                Err(err) => {
                    let kind = ErrorKind::ContentMediaType { got: bytes.clone(), want: mt.name.clone(), err };
                    st.errors.push(make_error(schema, vloc, vid, bool_result, kind));
                },
            }
        }
    }

    // contentSchema --
    if let Some(sch) = schema.content_schema {
        if let Some(v) = &deserialized {
            if budget > 0 {
                proof {
                    assert(schemas.list@[top.sch.0 as int].refs_below(schemas.list@.len()));
                }
                if let Err(mut e) = validate_root(schemas, hooks, v, sch, budget - 1) {
                    e.schema_url = schema.loc.clone();
                    e.kind = ErrorKind::ContentSchema;
                    st.errors.push(e);
                }
            }
        }
    }
}

/// Validates the number keywords of the current schema.
fn num_validate<H: Hooks>(schemas: &Schemas, hooks: &H, instance: &JsonValue, scope: &mut Scope,
    vloc: &mut Vec<InstanceToken>, st: &mut State, bool_result: bool)
    requires
        step_ok(*schemas, old(scope).frames@, old(vloc)@.len()),
    ensures
        final(scope).frames@ == old(scope).frames@,
        final(vloc)@ == old(vloc)@,
        final(st).uneval == old(st).uneval,
        final(st).errors@.len() >= old(st).errors@.len(),
        *instance matches JsonValue::Number(x) ==> (final(st).errors@.len() == 0
            ==> num_ok(cur_schema(*schemas, old(scope).frames@), x)),
        *instance matches JsonValue::Number(x) ==> (shallow_or_cond(cur_schema(*schemas, old(scope).frames@))
            && num_ok(cur_schema(*schemas, old(scope).frames@), x) ==> final(st).errors@ == old(st).errors@),
{
    let num = match instance {
        JsonValue::Number(x) => x,
        _ => {
            return;
        },
    };
    let top = scope.top();
    let schema = schemas.get(top.sch);
    let vid = top.vid;

    // minimum --
    if let Some(min) = &schema.minimum {
        if num.order_key < min.order_key {
            let kind = ErrorKind::Minimum { got: clone_number(num), want: clone_number(min) };
            st.errors.push(make_error(schema, vloc, vid, bool_result, kind));
        }
    }

    // maximum --
    if let Some(max) = &schema.maximum {
        if num.order_key > max.order_key {
            let kind = ErrorKind::Maximum { got: clone_number(num), want: clone_number(max) };
            st.errors.push(make_error(schema, vloc, vid, bool_result, kind));
        }
    }

    // exclusiveMinimum --
    if let Some(ex_min) = &schema.exclusive_minimum {
        if num.order_key <= ex_min.order_key {
            let kind = ErrorKind::ExclusiveMinimum { got: clone_number(num), want: clone_number(ex_min) };
            st.errors.push(make_error(schema, vloc, vid, bool_result, kind));
        }
    }

    // exclusiveMaximum --
    if let Some(ex_max) = &schema.exclusive_maximum {
        if num.order_key >= ex_max.order_key {
            let kind = ErrorKind::ExclusiveMaximum { got: clone_number(num), want: clone_number(ex_max) };
            st.errors.push(make_error(schema, vloc, vid, bool_result, kind));
        }
    }

    // multipleOf --
    if let Some(mul) = &schema.multiple_of {
        if !hooks.is_multiple_of(num, mul) {
            let kind = ErrorKind::MultipleOf { got: clone_number(num), want: clone_number(mul) };
            st.errors.push(make_error(schema, vloc, vid, bool_result, kind));
        }
    }
}

} // verus!

verus! {

/// The schema whose resource holds the schema of frame `fr`.
pub open spec fn base_of(list: Seq<Schema>, fr: Frame) -> Schema {
    list[list[fr.sch.0 as int].resource.0 as int]
}

/// Where `$recursiveRef` lands: the schema of the outermost frame whose
/// resource has `$recursiveAnchor`, else `fallback`.
pub open spec fn recursive_target(list: Seq<Schema>, f: Seq<Frame>, fallback: SchemaIndex) -> SchemaIndex
    decreases f.len(),
{
    if f.len() == 0 {
        fallback
    } else if base_of(list, f[0]).recursive_anchor {
        f[0].sch
    } else {
        recursive_target(list, f.skip(1), fallback)
    }
}

/// The schema `pairs` lists first under `name`, if any.
pub open spec fn first_named(pairs: Seq<(String, SchemaIndex)>, name: Seq<char>) -> Option<SchemaIndex>
    decreases pairs.len(),
{
    if pairs.len() == 0 {
        None
    } else if pairs[0].0@ == name {
        Some(pairs[0].1)
    } else {
        first_named(pairs.skip(1), name)
    }
}

/// Where `$dynamicRef` to anchor `name` lands: the dynamic anchor `name`
/// of the outermost frame's resource that has one, else `fallback`.
pub open spec fn dynamic_target(list: Seq<Schema>, f: Seq<Frame>, name: Seq<char>, fallback: SchemaIndex) -> SchemaIndex
    decreases f.len(),
{
    if f.len() == 0 {
        fallback
    } else {
        match first_named(base_of(list, f[0]).dynamic_anchors@, name) {
            Some(s) => s,
            None => dynamic_target(list, f.skip(1), name, fallback),
        }
    }
}

/// `first_named` gives a schema listed under the name.
proof fn lemma_first_named(pairs: Seq<(String, SchemaIndex)>, name: Seq<char>)
    ensures
        first_named(pairs, name) matches Some(s) ==> exists|j: int| 0 <= j < pairs.len() && (#[trigger] pairs[j]).1 == s,
    decreases pairs.len(),
{
    if pairs.len() > 0 && pairs[0].0@ != name {
        lemma_first_named(pairs.skip(1), name);
        if first_named(pairs, name) is Some {
            let j = choose|j: int| 0 <= j < pairs.skip(1).len() && (#[trigger] pairs.skip(1)[j]).1 == first_named(pairs, name)->0;
            assert(pairs[j + 1] == pairs.skip(1)[j]);
        }
    } else if pairs.len() > 0 {
        assert(pairs[0].1 == first_named(pairs, name)->0);
    }
}

/// The schema listed under `name`, as `first_named`.
fn lookup_named(pairs: &Vec<(String, SchemaIndex)>, name: &str) -> (r: Option<SchemaIndex>)
    ensures
        r == first_named(pairs@, name@),
{
    let mut i: usize = 0;
    proof {
        assert(pairs@.skip(0) =~= pairs@);
    }
    while i < pairs.len()
        invariant
            i <= pairs@.len(),
            first_named(pairs@, name@) == first_named(pairs@.skip(i as int), name@),
        decreases pairs.len() - i,
    {
        proof {
            assert(pairs@.skip(i as int)[0] == pairs@[i as int]);
            assert(pairs@.skip(i as int).skip(1) =~= pairs@.skip(i + 1));
        }
        if str_eq(pairs[i].0.as_str(), name) {
            return Some(pairs[i].1);
        }
        i += 1;
    }
    None
}

/// The target of `$recursiveRef` with initial target `fallback`.
fn resolve_recursive_anchor(schemas: &Schemas, scope: &Scope, fallback: SchemaIndex) -> (r: SchemaIndex)
    requires
        schemas.wf(),
        scope_ok(scope.frames@, schemas.list@.len()),
        fallback.0 < schemas.list@.len(),
    ensures
        r == recursive_target(schemas.list@, scope.frames@, fallback),
        r.0 < schemas.list@.len(),
{
    let ghost f = scope.frames@;
    let mut i: usize = 0;
    proof {
        assert(f.skip(0) =~= f);
    }
    while i < scope.frames.len()
        invariant
            i <= f.len(),
            f == scope.frames@,
            schemas.wf(),
            scope_ok(f, schemas.list@.len()),
            recursive_target(schemas.list@, f, fallback) == recursive_target(schemas.list@, f.skip(i as int), fallback),
        decreases f.len() - i,
    {
        proof {
            assert(f.skip(i as int)[0] == f[i as int]);
            assert(f.skip(i as int).skip(1) =~= f.skip(i + 1));
            assert(schemas.list@[f[i as int].sch.0 as int].refs_below(schemas.list@.len()));
        }
        let sch = scope.frames[i].sch;
        let base = schemas.get(schemas.get(sch).resource);
        if base.recursive_anchor {
            return sch;
        }
        i += 1;
    }
    fallback
}

/// The target of `$dynamicRef` to anchor `name` with initial target
/// `fallback`.
fn resolve_dynamic_anchor(schemas: &Schemas, scope: &Scope, name: &str, fallback: SchemaIndex) -> (r: SchemaIndex)
    requires
        schemas.wf(),
        scope_ok(scope.frames@, schemas.list@.len()),
        fallback.0 < schemas.list@.len(),
    ensures
        r == dynamic_target(schemas.list@, scope.frames@, name@, fallback),
        r.0 < schemas.list@.len(),
{
    let ghost f = scope.frames@;
    let mut i: usize = 0;
    proof {
        assert(f.skip(0) =~= f);
    }
    while i < scope.frames.len()
        invariant
            i <= f.len(),
            f == scope.frames@,
            schemas.wf(),
            scope_ok(f, schemas.list@.len()),
            dynamic_target(schemas.list@, f, name@, fallback) == dynamic_target(schemas.list@, f.skip(i as int), name@, fallback),
        decreases f.len() - i,
    {
        proof {
            assert(f.skip(i as int)[0] == f[i as int]);
            assert(f.skip(i as int).skip(1) =~= f.skip(i + 1));
            assert(schemas.list@[f[i as int].sch.0 as int].refs_below(schemas.list@.len()));
        }
        let sch = scope.frames[i].sch;
        let base_idx = schemas.get(sch).resource;
        let base = schemas.get(base_idx);
        if let Some(d) = lookup_named(&base.dynamic_anchors, name) {
            proof {
                lemma_first_named(base.dynamic_anchors@, name@);
                assert(schemas.list@[base_idx.0 as int].refs_below(schemas.list@.len()));
            }
            return d;
        }
        i += 1;
    }
    fallback
}

/// Whether two optional strings are equal.
fn opt_str_eq(a: &Option<String>, b: &Option<String>) -> (r: bool)
    ensures
        r == match (*a, *b) {
            (Some(x), Some(y)) => x@ == y@,
            (None, None) => true,
            _ => false,
        },
{
    match (a, b) {
        (Some(x), Some(y)) => str_eq(x.as_str(), y.as_str()),
        (None, None) => true,
        _ => false,
    }
}

/// The schema the `$recursiveRef` of `s` leads to in scope `f`.
pub open spec fn rec_ref_target(list: Seq<Schema>, f: Seq<Frame>, s: Schema) -> Option<SchemaIndex> {
    match s.recursive_ref {
        Some(r) => Some(if list[r.0 as int].recursive_anchor { recursive_target(list, f, r) } else { r }),
        None => None,
    }
}

/// The schema the `$dynamicRef` of `s` leads to in scope `f`.
pub open spec fn dyn_ref_target(list: Seq<Schema>, f: Seq<Frame>, s: Schema) -> Option<SchemaIndex> {
    match s.dynamic_ref {
        Some(d) => Some(match d.anchor {
            Some(a) => if list[d.sch.0 as int].dynamic_anchor matches Some(x) && x@ == a@ {
                dynamic_target(list, f, a@, d.sch)
            } else {
                d.sch
            },
            None => d.sch,
        }),
        None => None,
    }
}

/// No error comes from the reference to `t`, if any: it is absent or the
/// `true` schema.
pub open spec fn target_passes(list: Seq<Schema>, t: Option<SchemaIndex>) -> bool {
    t matches Some(x) ==> list[x.0 as int].boolean == Some(true)
}

/// The reference to `t`, if any, leads to the `false` schema.
pub open spec fn target_fails(list: Seq<Schema>, t: Option<SchemaIndex>) -> bool {
    t matches Some(x) && list[x.0 as int].boolean == Some(false)
}

/// The reference to `t`, if any, holds of `v`.
pub open spec fn target_holds(list: Seq<Schema>, t: Option<SchemaIndex>, v: JsonValue) -> bool {
    t matches Some(x) ==> always(list, x, v)
}

/// Validates `$recursiveRef` and `$dynamicRef` of the current schema: an
/// error for each that fails.
fn refs_validate<H: Hooks>(schemas: &Schemas, hooks: &H, instance: &JsonValue, scope: &mut Scope,
    vloc: &mut Vec<InstanceToken>, st: &mut State, bool_result: bool, budget: u64)
    requires
        step_ok(*schemas, old(scope).frames@, old(vloc)@.len()),
        uneval_ok(old(st).uneval, *instance),
    ensures
        final(scope).frames@ == old(scope).frames@,
        final(vloc)@.len() >= old(vloc)@.len(),
        uneval_ok(final(st).uneval, *instance),
        final(st).errors@.len() >= old(st).errors@.len(),
        shallow_or_cond(cur_schema(*schemas, old(scope).frames@)) ==> final(st).errors@ == old(st).errors@,
        final(st).errors@.take(old(st).errors@.len() as int) == old(st).errors@,
        !bool_result ==> forall|k: int| old(st).errors@.len() <= k < final(st).errors@.len()
            ==> (#[trigger] final(st).errors@[k]).kind is Reference,
        final(st).errors@.len() <= old(st).errors@.len()
            + (if cur_schema(*schemas, old(scope).frames@).recursive_ref is Some { 1int } else { 0int })
            + (if cur_schema(*schemas, old(scope).frames@).dynamic_ref is Some { 1int } else { 0int }),
        target_fails(schemas.list@, rec_ref_target(schemas.list@, old(scope).frames@, cur_schema(*schemas, old(scope).frames@)))
            || target_fails(schemas.list@, dyn_ref_target(schemas.list@, old(scope).frames@, cur_schema(*schemas, old(scope).frames@)))
            ==> final(st).errors@.len() > old(st).errors@.len(),
        target_passes(schemas.list@, rec_ref_target(schemas.list@, old(scope).frames@, cur_schema(*schemas, old(scope).frames@)))
            && target_passes(schemas.list@, dyn_ref_target(schemas.list@, old(scope).frames@, cur_schema(*schemas, old(scope).frames@)))
            ==> final(st).errors@ == old(st).errors@,
        final(st).errors@.len() == old(st).errors@.len() ==> {
            &&& target_holds(schemas.list@, rec_ref_target(schemas.list@, old(scope).frames@, cur_schema(*schemas, old(scope).frames@)), *instance)
            &&& target_holds(schemas.list@, dyn_ref_target(schemas.list@, old(scope).frames@, cur_schema(*schemas, old(scope).frames@)), *instance)
        },
    decreases budget, instance, run_room(old(scope).frames@, schemas.list@.len()), 4nat,
{
    let ghost f0 = scope.frames@;
    let ghost e0 = st.errors@;
    let top = scope.top();
    let schema = schemas.get(top.sch);
    proof {
        assert(schemas.list@[top.sch.0 as int].refs_below(schemas.list@.len()));
    }

    // $recursiveRef --
    if let Some(r) = schema.recursive_ref {
        let mut sch = r;
        if schemas.get(sch).recursive_anchor {
            sch = resolve_recursive_anchor(schemas, scope, sch);
        }
        if let Err(e) = validate_ref(schemas, hooks, instance, scope, vloc, st, sch, RefKw::RecursiveRef, bool_result, budget) {
            st.errors.push(e);
        }
    }
    let ghost e1 = st.errors@;
    assert(e1.take(e0.len() as int) =~= e0);

    // $dynamicRef --
    if let Some(dref) = &schema.dynamic_ref {
        let mut sch = dref.sch;
        if let Some(anchor) = &dref.anchor {
            if opt_str_eq(&schemas.get(sch).dynamic_anchor, &dref.anchor) {
                sch = resolve_dynamic_anchor(schemas, scope, anchor.as_str(), sch);
            }
        }
        if let Err(e) = validate_ref(schemas, hooks, instance, scope, vloc, st, sch, RefKw::DynamicRef, bool_result, budget) {
            st.errors.push(e);
        }
    }
    assert(st.errors@.take(e1.len() as int) =~= e1);
    assert(st.errors@.take(e0.len() as int) =~= e0);
}

/// Validates `not`, `allOf`, `anyOf`, `oneOf` and `if`/`then`/`else` of
/// the current schema.
#[verifier::loop_isolation(false)]
#[verifier::rlimit(40)]
fn cond_validate<H: Hooks>(schemas: &Schemas, hooks: &H, instance: &JsonValue, scope: &mut Scope,
    vloc: &mut Vec<InstanceToken>, st: &mut State, bool_result: bool, budget: u64)
    requires
        step_ok(*schemas, old(scope).frames@, old(vloc)@.len()),
        uneval_ok(old(st).uneval, *instance),
    ensures
        final(scope).frames@ == old(scope).frames@,
        final(vloc)@.len() >= old(vloc)@.len(),
        uneval_ok(final(st).uneval, *instance),
        final(st).errors@.len() >= old(st).errors@.len(),
        shallow(cur_schema(*schemas, old(scope).frames@)) ==> final(st).errors@ == old(st).errors@,
        conds_ok(schemas.list@, old(scope).frames@, cur_schema(*schemas, old(scope).frames@), *instance)
            ==> final(st).errors@ == old(st).errors@,
        final(st).errors@.len() == 0 ==> forall|n: nat| #[trigger] cond_holds(schemas.list@,
            cur_schema(*schemas, old(scope).frames@), *instance, n),
        cur_schema(*schemas, old(scope).frames@).not matches Some(x) ==> (surely_ok(schemas.list@, old(scope).frames@, x, *instance)
            ==> final(st).errors@.len() > old(st).errors@.len()),
        cur_schema(*schemas, old(scope).frames@).not matches Some(x) ==> (surely_err(schemas.list@, x, *instance)
            && cur_schema(*schemas, old(scope).frames@).all_of@.len() == 0
            && cur_schema(*schemas, old(scope).frames@).any_of@.len() == 0
            && cur_schema(*schemas, old(scope).frames@).one_of@.len() == 0
            && cur_schema(*schemas, old(scope).frames@).if_ is None ==> final(st).errors@ == old(st).errors@),
        (exists|p: int, q: int| 0 <= p < q < cur_schema(*schemas, old(scope).frames@).one_of@.len()
            && surely_ok(schemas.list@, old(scope).frames@, #[trigger] cur_schema(*schemas, old(scope).frames@).one_of@[p], *instance)
            && surely_ok(schemas.list@, old(scope).frames@, #[trigger] cur_schema(*schemas, old(scope).frames@).one_of@[q], *instance))
            ==> final(st).errors@.len() > old(st).errors@.len(),
        cur_schema(*schemas, old(scope).frames@).one_of@.len() > 0 && (forall|j: int| 0 <= j < cur_schema(*schemas, old(scope).frames@).one_of@.len()
            ==> surely_err(schemas.list@, #[trigger] cur_schema(*schemas, old(scope).frames@).one_of@[j], *instance))
            ==> final(st).errors@.len() > old(st).errors@.len(),
        one_of_only(cur_schema(*schemas, old(scope).frames@)) && (exists|p: int| 0 <= p < cur_schema(*schemas, old(scope).frames@).one_of@.len()
            && surely_ok(schemas.list@, old(scope).frames@, #[trigger] cur_schema(*schemas, old(scope).frames@).one_of@[p], *instance)
            && forall|j: int| 0 <= j < cur_schema(*schemas, old(scope).frames@).one_of@.len() && j != p
                ==> surely_err(schemas.list@, #[trigger] cur_schema(*schemas, old(scope).frames@).one_of@[j], *instance))
            ==> final(st).errors@ == old(st).errors@,
        forall|p: int, q: int| !bool_result && one_of_only(cur_schema(*schemas, old(scope).frames@))
            && #[trigger] first_two_ok(schemas.list@, old(scope).frames@, cur_schema(*schemas, old(scope).frames@).one_of@,
                *instance, p, q)
            ==> final(st).errors@ == old(st).errors@.push(final(st).errors@.last())
                && final(st).errors@.last().kind == ErrorKind::OneOf(Some((p as usize, q as usize))),
        !bool_result && one_of_only(cur_schema(*schemas, old(scope).frames@))
            && cur_schema(*schemas, old(scope).frames@).one_of@.len() >= 2
            && (forall|j: int| 0 <= j < cur_schema(*schemas, old(scope).frames@).one_of@.len()
                ==> surely_err(schemas.list@, #[trigger] cur_schema(*schemas, old(scope).frames@).one_of@[j], *instance))
            ==> final(st).errors@ == old(st).errors@.push(final(st).errors@.last())
                && final(st).errors@.last().kind == ErrorKind::OneOf(None)
                && final(st).errors@.last().causes@.len() == cur_schema(*schemas, old(scope).frames@).one_of@.len(),
    decreases budget, instance, run_room(old(scope).frames@, schemas.list@.len()), 4nat,
{
    let ghost es0 = st.errors@;
    let ghost f0 = scope.frames@;
    let ghost e0 = st.errors@.len();
    let top = scope.top();
    let schema = schemas.get(top.sch);
    let vid = top.vid;
    let ghost list = schemas.list@;
    proof {
        assert(schemas.list@[top.sch.0 as int].refs_below(schemas.list@.len()));
    }

    // not --
    if let Some(not) = schema.not {
        if validate_self_(schemas, hooks, instance, scope, vloc, &mut st.uneval, not, None, true, budget).is_ok() {
            st.errors.push(make_error(schema, vloc, vid, bool_result, ErrorKind::Not));
        }
    }
    let ghost len_not = st.errors@.len();
    assert(schema.not matches Some(x) ==> (surely_ok(list, f0, x, *instance) ==> len_not > e0));
    assert(schema.not is None || (schema.not matches Some(x) && surely_err(list, x, *instance)) ==> st.errors@ == es0);
    let ghost cok = conds_ok(list, f0, *schema, *instance);
    assert(cok ==> st.errors@ == es0);

    // allOf --
    if schema.all_of.len() > 0 {
        let mut errors: Vec<ValidationError> = Vec::new();
        let mut i: usize = 0;
        while i < schema.all_of.len()
            invariant
                i <= schema.all_of@.len(),
                scope.frames@ == f0,
                vloc@.len() >= old(vloc)@.len(),
                step_ok(*schemas, scope.frames@, vloc@.len()),
                uneval_ok(st.uneval, *instance),
                st.errors@.len() >= e0,
                st.errors@.len() >= len_not,
                errors@.len() == 0 ==> forall|j: int| 0 <= j < i ==> always(list, #[trigger] schema.all_of@[j], *instance),
                cok ==> errors@.len() == 0 && st.errors@ == es0,
            decreases schema.all_of.len() - i,
        {
            if let Err(e) = validate_self_(schemas, hooks, instance, scope, vloc, &mut st.uneval, schema.all_of[i], None, bool_result, budget) {
                errors.push(e);
                if bool_result {
                    break;
                }
            }
            i += 1;
        }
        if errors.len() > 0 {
            add_errors(st, schema, vloc, vid, bool_result, errors, ErrorKind::AllOf);
        }
    }
    assert(cok ==> st.errors@ == es0);
    let ghost len_all = st.errors@.len();
    assert(len_all == e0 ==> forall|j: int| 0 <= j < schema.all_of@.len() ==> always(list, #[trigger] schema.all_of@[j], *instance));

    // anyOf --
    let ghost pa: int = if cok && schema.any_of@.len() > 0 {
        choose|j: int| 0 <= j < schema.any_of@.len() && surely_ok(list, f0, #[trigger] schema.any_of@[j], *instance)
    } else {
        0
    };
    if schema.any_of.len() > 0 {
        let mut matched = false;
        let mut errors: Vec<ValidationError> = Vec::new();
        let mut i: usize = 0;
        while i < schema.any_of.len()
            invariant
                i <= schema.any_of@.len(),
                scope.frames@ == f0,
                vloc@.len() >= old(vloc)@.len(),
                step_ok(*schemas, scope.frames@, vloc@.len()),
                uneval_ok(st.uneval, *instance),
                st.errors@.len() >= e0,
                st.errors@.len() >= len_all,
                matched ==> exists|j: int| 0 <= j < schema.any_of@.len() && always(list, #[trigger] schema.any_of@[j], *instance),
                cok ==> st.errors@ == es0 && (i > pa ==> matched),
            decreases schema.any_of.len() - i,
        {
            match validate_self_(schemas, hooks, instance, scope, vloc, &mut st.uneval, schema.any_of[i], None, bool_result, budget) {
                Ok(()) => {
                    assert(always(list, schema.any_of@[i as int], *instance));
                    matched = true;
                    // for uneval, all schemas must be checked
                    if st.uneval.is_empty() {
                        break;
                    }
                },
                Err(e) => {
                    errors.push(e);
                },
            }
            i += 1;
        }
        if !matched {
            add_errors(st, schema, vloc, vid, bool_result, errors, ErrorKind::AnyOf);
        }
    }
    assert(cok ==> st.errors@ == es0);
    let ghost len_any = st.errors@.len();
    assert(len_any >= len_all);
    assert(len_any == e0 && schema.any_of@.len() > 0 ==> exists|j: int| 0 <= j < schema.any_of@.len()
        && always(list, #[trigger] schema.any_of@[j], *instance));

    // oneOf --
    let ghost es_any = st.errors@;
    let ghost only = !bool_result && one_of_only(*schema);
    assert(only ==> es_any == es0);
    let ghost two = only && exists|p: int, q: int| first_two_ok(list, f0, schema.one_of@, *instance, p, q);
    let ghost (gp, gq) = if two {
        choose|p: int, q: int| first_two_ok(list, f0, schema.one_of@, *instance, p, q)
    } else {
        (0int, 0int)
    };
    let ghost none = only && schema.one_of@.len() >= 2
        && forall|j: int| 0 <= j < schema.one_of@.len() ==> surely_err(list, #[trigger] schema.one_of@[j], *instance);
    let ghost po: int = if cok && schema.one_of@.len() > 0 {
        choose|p: int| 0 <= p < schema.one_of@.len()
            && surely_ok(list, f0, #[trigger] schema.one_of@[p], *instance)
            && forall|j: int| 0 <= j < schema.one_of@.len() && j != p ==> surely_err(list, #[trigger] schema.one_of@[j], *instance)
    } else {
        0
    };
    if schema.one_of.len() > 0 {
        let mut matched: Option<usize> = None;
        let mut errors: Vec<ValidationError> = Vec::new();
        let mut i: usize = 0;
        while i < schema.one_of.len()
            invariant
                st.errors@ == es_any,
                two ==> first_two_ok(list, f0, schema.one_of@, *instance, gp, gq),
                two ==> i <= gq && (i <= gp ==> matched is None) && (gp < i ==> matched == Some(gp as usize)),
                none ==> matched is None && errors@.len() == i,
                cok ==> (i > po ==> matched is Some) && (matched matches Some(q) ==> q == po),
                matched is None ==> forall|j: int| 0 <= j < i ==> !surely_ok(list, f0, #[trigger] schema.one_of@[j], *instance),
                matched matches Some(p) ==> p < i && !surely_err(list, schema.one_of@[p as int], *instance)
                    && forall|j: int| 0 <= j < i && j != p ==> !surely_ok(list, f0, #[trigger] schema.one_of@[j], *instance),
                i <= schema.one_of@.len(),
                scope.frames@ == f0,
                vloc@.len() >= old(vloc)@.len(),
                step_ok(*schemas, scope.frames@, vloc@.len()),
                uneval_ok(st.uneval, *instance),
                st.errors@.len() >= e0,
                st.errors@.len() >= len_any,
                matched matches Some(p) ==> p < schema.one_of@.len() && always(list, schema.one_of@[p as int], *instance),
            decreases schema.one_of.len() - i,
        {
            let one_bool = bool_result || matched.is_some();
            match validate_self_(schemas, hooks, instance, scope, vloc, &mut st.uneval, schema.one_of[i], None, one_bool, budget) {
                Err(e) => {
                    if matched.is_none() {
                        errors.push(e);
                    }
                },
                Ok(()) => {
                    match matched {
                        None => {
                            assert(always(list, schema.one_of@[i as int], *instance));
                            matched = Some(i);
                        },
                        Some(prev) => {
                            st.errors.push(make_error(schema, vloc, vid, bool_result, ErrorKind::OneOf(Some((prev, i)))));
                            break;
                        },
                    }
                },
            }
            i += 1;
        }
        assert(two ==> st.errors@ == es_any.push(st.errors@.last())
            && st.errors@.last().kind == ErrorKind::OneOf(Some((gp as usize, gq as usize))));
        assert(none ==> matched is None && errors@.len() == schema.one_of@.len());
        if matched.is_none() {
            add_errors(st, schema, vloc, vid, bool_result, errors, ErrorKind::OneOf(None));
        }
        proof {
            if exists|p: int, q: int| 0 <= p < q < schema.one_of@.len()
                && surely_ok(list, f0, #[trigger] schema.one_of@[p], *instance)
                && surely_ok(list, f0, #[trigger] schema.one_of@[q], *instance) {
                assert(st.errors@.len() > es_any.len());
            }
        }
        proof {
            if let Some(p) = matched {
                assert(always(list, schema.one_of@[p as int], *instance));
            }
        }
    }
    assert(cok ==> st.errors@ == es0);
    let ghost len_one = st.errors@.len();
    assert(len_one >= len_any);
    assert(two ==> st.errors@ == es0.push(st.errors@.last())
        && st.errors@.last().kind == ErrorKind::OneOf(Some((gp as usize, gq as usize))));
    assert(none ==> st.errors@ == es0.push(st.errors@.last())
        && st.errors@.last().kind == ErrorKind::OneOf(None)
        && st.errors@.last().causes@.len() == schema.one_of@.len());
    proof {
        assert forall|p: int, q: int| only && #[trigger] first_two_ok(list, f0, schema.one_of@, *instance, p, q)
            implies p == gp && q == gq by {
            lemma_first_two_unique(list, f0, schema.one_of@, *instance, p, q, gp, gq);
        }
    }
    assert(len_one == e0 && schema.one_of@.len() > 0 ==> exists|j: int| 0 <= j < schema.one_of@.len()
        && always(list, #[trigger] schema.one_of@[j], *instance));

    // if, then, else --
    let ghost if_fact: bool = true;
    if let Some(if_) = schema.if_ {
        if validate_self_(schemas, hooks, instance, scope, vloc, &mut st.uneval, if_, None, true, budget).is_ok() {
            if let Some(then_) = schema.then_ {
                if let Err(e) = validate_self_(schemas, hooks, instance, scope, vloc, &mut st.uneval, then_, None, bool_result, budget) {
                    st.errors.push(e);
                }
            }
            proof {
                if_fact = always(list, if_, *instance) && (st.errors@.len() == len_one ==> (schema.then_ matches Some(t)
                    ==> always(list, t, *instance)));
            }
        } else if let Some(else_) = schema.else_ {
            if let Err(e) = validate_self_(schemas, hooks, instance, scope, vloc, &mut st.uneval, else_, None, bool_result, budget) {
                st.errors.push(e);
            }
            proof {
                if_fact = st.errors@.len() == len_one ==> always(list, else_, *instance);
            }
        }
        assert(if_fact);
    }
    proof {
        if st.errors@.len() == 0 {
            assert(len_one == 0 && len_any == 0 && len_all == 0);
            assert forall|n: nat| #[trigger] cond_holds(list, *schema, *instance, n) by {
                if n > 0 {
                    let k = (n - 1) as nat;
                    assert forall|j: int| 0 <= j < schema.all_of@.len() implies holds(list, #[trigger] schema.all_of@[j], *instance, k) by {
                        assert(always(list, schema.all_of@[j], *instance));
                    }
                    if schema.any_of@.len() > 0 {
                        let j = choose|j: int| 0 <= j < schema.any_of@.len() && always(list, #[trigger] schema.any_of@[j], *instance);
                        assert(holds(list, schema.any_of@[j], *instance, k));
                    }
                    if schema.one_of@.len() > 0 {
                        let j = choose|j: int| 0 <= j < schema.one_of@.len() && always(list, #[trigger] schema.one_of@[j], *instance);
                        assert(holds(list, schema.one_of@[j], *instance, k));
                    }
                    if let Some(c) = schema.if_ {
                        if always(list, c, *instance) && (schema.then_ matches Some(t) ==> always(list, t, *instance)) {
                            assert(holds(list, c, *instance, k));
                            if let Some(t) = schema.then_ {
                                assert(holds(list, t, *instance, k));
                            }
                        } else {
                            if let Some(e) = schema.else_ {
                                assert(always(list, e, *instance));
                                assert(holds(list, e, *instance, k));
                            }
                        }
                    }
                }
            }
        }
    }
}

/// Validates `unevaluatedProperties` and `unevaluatedItems` of the
/// current schema against what is left unevaluated; afterwards nothing is.
#[verifier::loop_isolation(false)]
fn uneval_validate<H: Hooks>(schemas: &Schemas, hooks: &H, instance: &JsonValue, scope: &mut Scope,
    vloc: &mut Vec<InstanceToken>, st: &mut State, bool_result: bool, budget: u64)
    requires
        step_ok(*schemas, old(scope).frames@, old(vloc)@.len()),
        uneval_ok(old(st).uneval, *instance),
    ensures
        final(scope).frames@ == old(scope).frames@,
        final(vloc)@.len() >= old(vloc)@.len(),
        uneval_ok(final(st).uneval, *instance),
        final(st).errors@.len() >= old(st).errors@.len(),
        shallow_or_cond(cur_schema(*schemas, old(scope).frames@)) ==> final(st).errors@ == old(st).errors@,
        final(st).errors@.take(old(st).errors@.len() as int) == old(st).errors@,
        cur_schema(*schemas, old(scope).frames@).unevaluated_properties is Some && *instance is Object
            ==> final(st).uneval.props@.len() == 0,
        cur_schema(*schemas, old(scope).frames@).unevaluated_properties matches Some(x) ==> *instance matches JsonValue::Object(o)
            ==> (final(st).errors@.len() == old(st).errors@.len() ==> forall|i: int| 0 <= i < old(st).uneval.props@.len()
                && #[trigger] old(st).uneval.props@[i] ==> always(schemas.list@, x, o@[i].1)),
        cur_schema(*schemas, old(scope).frames@).unevaluated_properties matches Some(x) ==> *instance matches JsonValue::Object(_)
            ==> (schemas.list@[x.0 as int].boolean == Some(false) && old(st).uneval.props@.contains(true)
                ==> final(st).errors@.len() > old(st).errors@.len()),
        cur_schema(*schemas, old(scope).frames@).unevaluated_properties matches Some(x) ==> *instance matches JsonValue::Object(_)
            ==> (schemas.list@[x.0 as int].boolean == Some(true) ==> final(st).errors@ == old(st).errors@),
        cur_schema(*schemas, old(scope).frames@).unevaluated_items is Some && *instance is Array
            ==> final(st).uneval.items@.len() == 0,
        cur_schema(*schemas, old(scope).frames@).unevaluated_items matches Some(x) ==> *instance matches JsonValue::Array(a)
            ==> (final(st).errors@.len() == old(st).errors@.len() ==> forall|i: int| 0 <= i < old(st).uneval.items@.len()
                && #[trigger] old(st).uneval.items@[i] ==> always(schemas.list@, x, a@[i])),
        cur_schema(*schemas, old(scope).frames@).unevaluated_items matches Some(x) ==> *instance matches JsonValue::Array(_)
            ==> (schemas.list@[x.0 as int].boolean == Some(false) && old(st).uneval.items@.contains(true)
                ==> final(st).errors@.len() > old(st).errors@.len()),
        cur_schema(*schemas, old(scope).frames@).unevaluated_items matches Some(x) ==> *instance matches JsonValue::Array(_)
            ==> (schemas.list@[x.0 as int].boolean == Some(true) ==> final(st).errors@ == old(st).errors@),
    decreases budget, instance, run_room(old(scope).frames@, schemas.list@.len()), 4nat,
{
    let ghost f0 = scope.frames@;
    let ghost e0 = st.errors@.len();
    let ghost es0 = st.errors@;
    let ghost u0 = st.uneval;
    let top = scope.top();
    let schema = schemas.get(top.sch);
    proof {
        assert(schemas.list@[top.sch.0 as int].refs_below(schemas.list@.len()));
    }

    // unevaluatedProperties --
    if let Some(sch) = schema.unevaluated_properties {
        if let JsonValue::Object(obj) = instance {
            let mut uneval = Uneval::empty();
            std::mem::swap(&mut uneval, &mut st.uneval);
            let mut i: usize = 0;
            while i < uneval.props.len()
                invariant
                    i <= uneval.props@.len(),
                    uneval.props@.len() <= obj@.len(),
                    scope.frames@ == f0,
                    vloc@.len() >= old(vloc)@.len(),
                    step_ok(*schemas, scope.frames@, vloc@.len()),
                    uneval_ok(st.uneval, *instance),
                    st.errors@.len() >= e0,
                    uneval.props == u0.props,
                    st.errors@.take(e0 as int) == es0,
                    st.errors@.len() == e0 ==> forall|j: int| 0 <= j < i && #[trigger] uneval.props@[j]
                        ==> always(schemas.list@, sch, obj@[j].1),
                    schemas.list@[sch.0 as int].boolean == Some(false) && (exists|j: int| 0 <= j < i
                        && #[trigger] uneval.props@[j]) ==> st.errors@.len() > e0,
                    schemas.list@[sch.0 as int].boolean == Some(true) ==> st.errors@ == es0,
                decreases uneval.props.len() - i,
            {
                if uneval.props[i] {
                    let ghost eb = st.errors@;
                    assert(child_at(*instance, i as int) == obj@[i as int].1);
                    if let Err(e) = validate_val(schemas, hooks, instance, i, InstanceToken::Prop(obj[i].0.clone()), scope, vloc, sch, bool_result, budget) {
                        st.errors.push(e);
                        proof {
                            assert(st.errors@.take(e0 as int) =~= eb.take(e0 as int));
                        }
                    }
                }
                i += 1;
            }
            st.uneval.props.clear();
            proof {
                assert(u0.props@.contains(true) ==> exists|j: int| 0 <= j < uneval.props@.len() && #[trigger] uneval.props@[j]);
            }
        }
    }

    // unevaluatedItems --
    if let Some(sch) = schema.unevaluated_items {
        if let JsonValue::Array(arr) = instance {
            let mut uneval = Uneval::empty();
            std::mem::swap(&mut uneval, &mut st.uneval);
            let mut i: usize = 0;
            while i < uneval.items.len()
                invariant
                    i <= uneval.items@.len(),
                    uneval.items@.len() <= arr@.len(),
                    scope.frames@ == f0,
                    vloc@.len() >= old(vloc)@.len(),
                    step_ok(*schemas, scope.frames@, vloc@.len()),
                    uneval_ok(st.uneval, *instance),
                    st.errors@.len() >= e0,
                    uneval.items == u0.items,
                    st.errors@.take(e0 as int) == es0,
                    st.errors@.len() == e0 ==> forall|j: int| 0 <= j < i && #[trigger] uneval.items@[j]
                        ==> always(schemas.list@, sch, arr@[j]),
                    schemas.list@[sch.0 as int].boolean == Some(false) && (exists|j: int| 0 <= j < i
                        && #[trigger] uneval.items@[j]) ==> st.errors@.len() > e0,
                    schemas.list@[sch.0 as int].boolean == Some(true) ==> st.errors@ == es0,
                decreases uneval.items.len() - i,
            {
                if uneval.items[i] {
                    let ghost eb = st.errors@;
                    assert(child_at(*instance, i as int) == arr@[i as int]);
                    if let Err(e) = validate_val(schemas, hooks, instance, i, InstanceToken::Item(i), scope, vloc, sch, bool_result, budget) {
                        st.errors.push(e);
                        proof {
                            assert(st.errors@.take(e0 as int) =~= eb.take(e0 as int));
                        }
                    }
                }
                i += 1;
            }
            st.uneval.items.clear();
            proof {
                assert(u0.items@.contains(true) ==> exists|j: int| 0 <= j < uneval.items@.len() && #[trigger] uneval.items@[j]);
            }
        }
    }
}

} // verus!

verus! {

impl Schemas {
    /// Validates `v` against the schema `sch_index`; the checks registered
    /// with the compiler run through `hooks`. An error is a `Schema` error
    /// for the schema's location holding what failed.
    pub fn validate<H: Hooks>(&self, v: &JsonValue, sch_index: SchemaIndex, hooks: &H) -> (r: Result<(), ValidationError>)
        requires
            self.wf(),
            sch_index.0 < self.list@.len(),
        ensures
            r is Ok ==> local_ok(self.list@[sch_index.0 as int], *v),
            r is Ok ==> always(self.list@, sch_index, *v),
            builtin_format_of(self.list@[sch_index.0 as int]) matches Some(f) ==> (r is Ok ==> spec_value_format_ok(f, *v)),
            builtin_format_of(self.list@[sch_index.0 as int]) matches Some(f) ==> (!spec_value_format_ok(f, *v) ==> r is Err),
            registered_format_of(self.list@[sch_index.0 as int]) matches Some(id) ==> (r is Ok ==> hooks.format_ok(id, *v)),
            registered_format_of(self.list@[sch_index.0 as int]) matches Some(id) ==> (!hooks.format_ok(id, *v) ==> r is Err),
            registered_decoder_of(self.list@[sch_index.0 as int]) matches Some(id) ==> (*v matches JsonValue::String(t)
                ==> (!hooks.decodes(id, t) ==> r is Err)),
            base64_content(self.list@[sch_index.0 as int]) ==> (*v matches JsonValue::String(t)
                ==> (spec_base64_decode(t@) is None ==> r is Err)),
            base64_content(self.list@[sch_index.0 as int]) ==> (*v matches JsonValue::String(t)
                ==> (r is Ok ==> spec_base64_decode(t@) is Some)),
            self.list@[sch_index.0 as int].boolean == Some(true) ==> r is Ok,
            self.list@[sch_index.0 as int].boolean == Some(false) ==> (r matches Err(e) && e.kind is Schema
                && e.causes@.len() == 1 && e.causes@[0].kind is FalseSchema),
            r matches Err(e) ==> (e.kind matches ErrorKind::Schema { url } && url@ == self.list@[sch_index.0 as int].loc@
                && e.schema_url@ == url@ && e.instance_location.tokens@.len() == 0),
            flat(self.list@[sch_index.0 as int]) ==> (r is Ok <==> local_ok(self.list@[sch_index.0 as int], *v)),
            shallow_ok(self.list@, self.list@[sch_index.0 as int], *v) ==> r is Ok,
            root_ok(self.list@, sch_index, *v) ==> r is Ok,
            root_rejects(self.list@, sch_index, *v) ==> r is Err,
            applies_whole(self.list@[sch_index.0 as int])
                && contains_too_many(self.list@, self.list@[sch_index.0 as int], *v) ==> r is Err,
            applies_whole(self.list@[sch_index.0 as int])
                && contains_too_few(self.list@, self.list@[sch_index.0 as int], *v) ==> r is Err,
    {
        proof {
            if flat(self.list@[sch_index.0 as int]) && local_ok(self.list@[sch_index.0 as int], *v) {
                lemma_flat_shallow_ok(self.list@, self.list@[sch_index.0 as int], *v);
            }
        }
        validate_root(self, hooks, v, sch_index, u64::MAX)
    }
}

/// Validates the schema document `doc` found at `url` against the
/// metaschema `meta` of `metas`; a document it rejects is a compile error
/// naming `url` with an empty fragment, holding the validation error.
pub fn validate_against_metaschema<H: Hooks>(metas: &Schemas, url: &str, doc: &JsonValue, meta: SchemaIndex,
    hooks: &H) -> (r: Result<(), CompileError>)
    requires
        metas.wf(),
        meta.0 < metas.list@.len(),
    ensures
        r is Ok ==> local_ok(metas.list@[meta.0 as int], *doc) && always(metas.list@, meta, *doc),
        flat(metas.list@[meta.0 as int]) ==> (r is Ok <==> local_ok(metas.list@[meta.0 as int], *doc)),
        shallow_ok(metas.list@, metas.list@[meta.0 as int], *doc) ==> r is Ok,
        root_ok(metas.list@, meta, *doc) ==> r is Ok,
        root_rejects(metas.list@, meta, *doc) ==> r is Err,
        builtin_format_of(metas.list@[meta.0 as int]) matches Some(f) ==> (r is Ok ==> spec_value_format_ok(f, *doc)),
        builtin_format_of(metas.list@[meta.0 as int]) matches Some(f) ==> (!spec_value_format_ok(f, *doc) ==> r is Err),
        registered_format_of(metas.list@[meta.0 as int]) matches Some(id) ==> (!hooks.format_ok(id, *doc) ==> r is Err),
        metas.list@[meta.0 as int].boolean == Some(true) ==> r is Ok,
        metas.list@[meta.0 as int].boolean == Some(false) ==> r is Err,
        r matches Err(e) ==> {
            &&& e matches CompileError::ValidationError { url: u, src: x }
            &&& u@ == url@ + seq!['#']
            &&& x.kind matches ErrorKind::Schema { url: m }
            &&& m@ == metas.list@[meta.0 as int].loc@
            &&& x.instance_location.tokens@.len() == 0
        },
{
    proof {
        if flat(metas.list@[meta.0 as int]) && local_ok(metas.list@[meta.0 as int], *doc) {
            lemma_flat_shallow_ok(metas.list@, metas.list@[meta.0 as int], *doc);
        }
    }
    match metas.validate(doc, meta, hooks) {
        Ok(()) => Ok(()),
        Err(src) => {
            let mut u = url.to_string();
            push_str(&mut u, "#");
            proof {
                reveal_strlit("#");
            }
            Err(CompileError::ValidationError { url: u, src: src.clone_static() })
        },
    }
}

} // verus!
