//! Compiled schemas and the collection that holds them.

use vstd::prelude::*;
use crate::formats::BuiltinFormat;
use crate::json::{JsonNumber, JsonValue, Type};
use crate::outside::Pattern;
use crate::text::{chars_of, push_char, rfind_char, str_eq};

verus! {

/// Identifier of a compiled schema within its `Schemas`.
#[derive(PartialEq, Eq, Structural, Clone, Copy, Debug, Default)]
pub struct SchemaIndex(pub usize);

/// A set of JSON types, iterated in the declaration order of `Type`.
#[derive(Clone, Copy, Debug)]
pub struct Types {
    pub flags: [bool; 7],
}

/// The position of `t` in the declaration order of `Type`.
pub open spec fn type_rank(t: Type) -> int {
    match t {
        Type::Null => 0,
        Type::Bool => 1,
        Type::Number => 2,
        Type::Integer => 3,
        Type::String => 4,
        Type::Array => 5,
        Type::Object => 6,
    }
}

/// The type at position `i` of the declaration order of `Type`.
pub open spec fn type_at(i: int) -> Type {
    if i == 0 {
        Type::Null
    } else if i == 1 {
        Type::Bool
    } else if i == 2 {
        Type::Number
    } else if i == 3 {
        Type::Integer
    } else if i == 4 {
        Type::String
    } else if i == 5 {
        Type::Array
    } else {
        Type::Object
    }
}

fn type_pos(t: Type) -> (r: usize)
    ensures
        r == type_rank(t),
        type_at(r as int) == t,
{
    match t {
        Type::Null => 0,
        Type::Bool => 1,
        Type::Number => 2,
        Type::Integer => 3,
        Type::String => 4,
        Type::Array => 5,
        Type::Object => 6,
    }
}

impl Types {
    /// Whether `t` is in the set.
    pub open spec fn has(&self, t: Type) -> bool {
        self.flags[type_rank(t)]
    }

    /// The members in declaration order.
    pub open spec fn members(&self) -> Seq<Type> {
        Seq::new(7, |i: int| type_at(i)).filter(|t: Type| self.has(t))
    }

    /// The empty set.
    pub fn new() -> (r: Types)
        ensures
            forall|t: Type| !r.has(t),
    {
        Types { flags: [false; 7] }
    }

    /// Whether `t` is in the set.
    pub fn contains(&self, t: Type) -> (r: bool)
        ensures
            r == self.has(t),
    {
        self.flags[type_pos(t)]
    }

    /// Adds `t` to the set.
    pub fn add(&mut self, t: Type)
        ensures
            forall|u: Type| final(self).has(u) == (old(self).has(u) || u == t),
    {
        let i = type_pos(t);
        self.flags[i] = true;
        proof {
            assert forall|u: Type| final(self).has(u) == (old(self).has(u) || u == t) by {
                if type_rank(u) == type_rank(t) {
                    assert(u == t);
                }
            }
        }
    }

    /// Whether the set is empty.
    pub fn is_empty(&self) -> (r: bool)
        ensures
            r == (forall|t: Type| !self.has(t)),
    {
        let mut i: usize = 0;
        while i < 7
            invariant
                i <= 7,
                forall|j: int| 0 <= j < i ==> !self.flags[j],
            decreases 7 - i,
        {
            if self.flags[i] {
                proof {
                    assert(self.has(type_at(i as int)));
                }
                return false;
            }
            i += 1;
        }
        proof {
            assert forall|t: Type| !self.has(t) by {
                assert(0 <= type_rank(t) < 7);
            }
        }
        true
    }

    /// The members in declaration order.
    pub fn to_vec(&self) -> (r: Vec<Type>)
        ensures
            r@ == self.members(),
    {
        let mut r: Vec<Type> = Vec::new();
        let ghost all = Seq::new(7, |i: int| type_at(i));
        let ghost pred = |t: Type| self.has(t);
        let mut i: usize = 0;
        while i < 7
            invariant
                i <= 7,
                all == Seq::new(7, |i: int| type_at(i)),
                pred == (|t: Type| self.has(t)),
                r@ == all.take(i as int).filter(pred),
            decreases 7 - i,
        {
            let t = type_at_exec(i);
            proof {
                assert(all.take(i + 1).drop_last() =~= all.take(i as int));
                assert(all.take(i + 1).last() == t);
                reveal(Seq::filter);
            }
            if self.flags[i] {
                r.push(t);
            }
            i += 1;
        }
        proof {
            assert(all.take(7) =~= all);
        }
        r
    }
}

fn type_at_exec(i: usize) -> (r: Type)
    requires
        i < 7,
    ensures
        r == type_at(i as int),
        type_rank(r) == i,
{
    if i == 0 {
        Type::Null
    } else if i == 1 {
        Type::Bool
    } else if i == 2 {
        Type::Number
    } else if i == 3 {
        Type::Integer
    } else if i == 4 {
        Type::String
    } else if i == 5 {
        Type::Array
    } else {
        Type::Object
    }
}

/// The `enum` keyword: its values and the set of their types.
pub struct Enum {
    pub types: Types,
    pub values: Vec<JsonValue>,
}

/// The two forms of `items` before draft 2020-12.
pub enum Items {
    SchemaRef(SchemaIndex),
    SchemaRefs(Vec<SchemaIndex>),
}

/// `additionalItems` / `additionalProperties`: a boolean or a schema.
pub enum Additional {
    Bool(bool),
    SchemaRef(SchemaIndex),
}

/// A value of `dependencies`: required properties or a schema.
pub enum Dependency {
    Props(Vec<String>),
    SchemaRef(SchemaIndex),
}

/// `$dynamicRef`: its initial target and the anchor it names, if any.
pub struct DynamicRef {
    pub sch: SchemaIndex,
    pub anchor: Option<String>,
}

/// How a `format` is checked: by the library, or by a check registered
/// with the compiler under the given number.
#[derive(Clone, Copy)]
pub enum FormatCheck {
    Builtin(BuiltinFormat),
    Registered(usize),
}

/// A `format` keyword the compiler knows how to check.
pub struct Format {
    pub name: String,
    pub check: FormatCheck,
}

/// How a `contentEncoding` is decoded: base64 by the library, others by
/// a decoder registered with the compiler under the given number.
#[derive(Clone, Copy)]
pub enum DecoderCheck {
    Base64,
    Registered(usize),
}

/// A `contentEncoding` the compiler knows how to decode.
pub struct Decoder {
    pub name: String,
    pub check: DecoderCheck,
}

/// A `contentMediaType` the compiler knows how to check; `id` is its
/// number among the media types known to the compiler.
pub struct MediaType {
    pub name: String,
    pub json_compatible: bool,
    pub id: usize,
}

/// The keyword through which validation jumped to another schema.
#[derive(PartialEq, Eq, Structural, Clone, Copy, Debug)]
pub enum RefKw {
    Ref,
    RecursiveRef,
    DynamicRef,
}

/// The name of a reference keyword.
pub open spec fn ref_kw_name(kw: RefKw) -> Seq<char> {
    match kw {
        RefKw::Ref => "$ref"@,
        RefKw::RecursiveRef => "$recursiveRef"@,
        RefKw::DynamicRef => "$dynamicRef"@,
    }
}

impl RefKw {
    /// The name of the keyword.
    pub fn name(&self) -> (r: &'static str)
        ensures
            r@ == ref_kw_name(*self),
    {
        proof {
            reveal_strlit("$ref");
            reveal_strlit("$recursiveRef");
            reveal_strlit("$dynamicRef");
        }
        match self {
            RefKw::Ref => "$ref",
            RefKw::RecursiveRef => "$recursiveRef",
            RefKw::DynamicRef => "$dynamicRef",
        }
    }
}

/// A compiled schema.
pub struct Schema {
    pub draft_version: usize,
    pub idx: SchemaIndex,
    pub loc: String,
    pub resource: SchemaIndex,
    pub dynamic_anchors: Vec<(String, SchemaIndex)>,
    pub all_props_evaluated: bool,
    pub all_items_evaluated: bool,
    pub num_items_evaluated: usize,
    // type agnostic --
    pub boolean: Option<bool>,
    pub ref_: Option<SchemaIndex>,
    pub recursive_ref: Option<SchemaIndex>,
    pub recursive_anchor: bool,
    pub dynamic_ref: Option<DynamicRef>,
    pub dynamic_anchor: Option<String>,
    pub types: Types,
    pub enum_: Option<Enum>,
    pub constant: Option<JsonValue>,
    pub not: Option<SchemaIndex>,
    pub all_of: Vec<SchemaIndex>,
    pub any_of: Vec<SchemaIndex>,
    pub one_of: Vec<SchemaIndex>,
    pub if_: Option<SchemaIndex>,
    pub then_: Option<SchemaIndex>,
    pub else_: Option<SchemaIndex>,
    pub format: Option<Format>,
    // object --
    pub min_properties: Option<usize>,
    pub max_properties: Option<usize>,
    pub required: Vec<String>,
    pub properties: Vec<(String, SchemaIndex)>,
    pub pattern_properties: Vec<(Pattern, SchemaIndex)>,
    pub property_names: Option<SchemaIndex>,
    pub additional_properties: Option<Additional>,
    pub dependent_required: Vec<(String, Vec<String>)>,
    pub dependent_schemas: Vec<(String, SchemaIndex)>,
    pub dependencies: Vec<(String, Dependency)>,
    pub unevaluated_properties: Option<SchemaIndex>,
    // array --
    pub min_items: Option<usize>,
    pub max_items: Option<usize>,
    pub unique_items: bool,
    pub min_contains: Option<usize>,
    pub max_contains: Option<usize>,
    pub contains: Option<SchemaIndex>,
    pub items: Option<Items>,
    pub additional_items: Option<Additional>,
    pub prefix_items: Vec<SchemaIndex>,
    pub items2020: Option<SchemaIndex>,
    pub unevaluated_items: Option<SchemaIndex>,
    // string --
    pub min_length: Option<usize>,
    pub max_length: Option<usize>,
    pub pattern: Option<Pattern>,
    pub content_encoding: Option<Decoder>,
    pub content_media_type: Option<MediaType>,
    pub content_schema: Option<SchemaIndex>,
    // number --
    pub minimum: Option<JsonNumber>,
    pub maximum: Option<JsonNumber>,
    pub exclusive_minimum: Option<JsonNumber>,
    pub exclusive_maximum: Option<JsonNumber>,
    pub multiple_of: Option<JsonNumber>,
}

/// `o` is absent or names a schema below `n`.
pub open spec fn opt_below(o: Option<SchemaIndex>, n: nat) -> bool {
    o matches Some(s) ==> s.0 < n
}

/// Every index of `s` is below `n`.
pub open spec fn all_below(s: Seq<SchemaIndex>, n: nat) -> bool {
    forall|i: int| 0 <= i < s.len() ==> (#[trigger] s[i]).0 < n
}

/// Every schema of the pairs is below `n`.
pub open spec fn pairs_below<K>(s: Seq<(K, SchemaIndex)>, n: nat) -> bool {
    forall|i: int| 0 <= i < s.len() ==> (#[trigger] s[i]).1.0 < n
}

/// A dependency names no schema at or above `n`.
pub open spec fn dep_below(d: Dependency, n: nat) -> bool {
    d matches Dependency::SchemaRef(s) ==> s.0 < n
}

/// A schema that names no other schema, but for its resource and
/// dynamic anchors.
pub open spec fn no_refs(s: Schema) -> bool {
    &&& s.ref_ is None
    &&& s.recursive_ref is None
    &&& s.dynamic_ref is None
    &&& s.not is None
    &&& s.all_of@.len() == 0
    &&& s.any_of@.len() == 0
    &&& s.one_of@.len() == 0
    &&& s.if_ is None
    &&& s.then_ is None
    &&& s.else_ is None
    &&& s.properties@.len() == 0
    &&& s.pattern_properties@.len() == 0
    &&& s.property_names is None
    &&& s.additional_properties is None
    &&& s.dependent_schemas@.len() == 0
    &&& s.dependencies@.len() == 0
    &&& s.unevaluated_properties is None
    &&& s.contains is None
    &&& s.items is None
    &&& s.additional_items is None
    &&& s.prefix_items@.len() == 0
    &&& s.items2020 is None
    &&& s.unevaluated_items is None
    &&& s.content_schema is None
}

impl Schema {
    /// A schema at `loc` with no keywords.
    pub fn new(loc: String) -> (r: Schema)
        ensures
            r.loc@ == loc@,
            r.boolean is None,
            r.draft_version == 0,
            r.dynamic_anchors@.len() == 0,
            no_refs(r),
            r.format is None,
            forall|t: Type| !r.types.has(t),
            r.enum_ is None,
            r.exclusive_maximum is None,
            r.exclusive_minimum is None,
            r.required@.len() == 0,
            r.pattern is None,
            r.dependent_required@.len() == 0,
    {
        Schema {
            draft_version: 0,
            idx: SchemaIndex(0),
            loc,
            resource: SchemaIndex(0),
            dynamic_anchors: Vec::new(),
            all_props_evaluated: false,
            all_items_evaluated: false,
            num_items_evaluated: 0,
            boolean: None,
            ref_: None,
            recursive_ref: None,
            recursive_anchor: false,
            dynamic_ref: None,
            dynamic_anchor: None,
            types: Types::new(),
            enum_: None,
            constant: None,
            not: None,
            all_of: Vec::new(),
            any_of: Vec::new(),
            one_of: Vec::new(),
            if_: None,
            then_: None,
            else_: None,
            format: None,
            min_properties: None,
            max_properties: None,
            required: Vec::new(),
            properties: Vec::new(),
            pattern_properties: Vec::new(),
            property_names: None,
            additional_properties: None,
            dependent_required: Vec::new(),
            dependent_schemas: Vec::new(),
            dependencies: Vec::new(),
            unevaluated_properties: None,
            min_items: None,
            max_items: None,
            unique_items: false,
            min_contains: None,
            max_contains: None,
            contains: None,
            items: None,
            additional_items: None,
            prefix_items: Vec::new(),
            items2020: None,
            unevaluated_items: None,
            min_length: None,
            max_length: None,
            pattern: None,
            content_encoding: None,
            content_media_type: None,
            content_schema: None,
            minimum: None,
            maximum: None,
            exclusive_minimum: None,
            exclusive_maximum: None,
            multiple_of: None,
        }
    }

    /// Every schema this schema names is below `n`.
    pub open spec fn refs_below(&self, n: nat) -> bool {
        &&& self.resource.0 < n
        &&& pairs_below(self.dynamic_anchors@, n)
        &&& opt_below(self.ref_, n)
        &&& opt_below(self.recursive_ref, n)
        &&& (self.dynamic_ref matches Some(d) ==> d.sch.0 < n)
        &&& opt_below(self.not, n)
        &&& all_below(self.all_of@, n)
        &&& all_below(self.any_of@, n)
        &&& all_below(self.one_of@, n)
        &&& opt_below(self.if_, n)
        &&& opt_below(self.then_, n)
        &&& opt_below(self.else_, n)
        &&& pairs_below(self.properties@, n)
        &&& pairs_below(self.pattern_properties@, n)
        &&& opt_below(self.property_names, n)
        &&& (self.additional_properties matches Some(Additional::SchemaRef(s)) ==> s.0 < n)
        &&& pairs_below(self.dependent_schemas@, n)
        &&& (forall|i: int| 0 <= i < self.dependencies@.len() ==>
                dep_below(#[trigger] self.dependencies@[i].1, n))
        &&& opt_below(self.unevaluated_properties, n)
        &&& opt_below(self.contains, n)
        &&& (self.items matches Some(Items::SchemaRef(s)) ==> s.0 < n)
        &&& (self.items matches Some(Items::SchemaRefs(l)) ==> all_below(l@, n))
        &&& (self.additional_items matches Some(Additional::SchemaRef(s)) ==> s.0 < n)
        &&& all_below(self.prefix_items@, n)
        &&& opt_below(self.items2020, n)
        &&& opt_below(self.unevaluated_items, n)
        &&& opt_below(self.content_schema, n)
    }
}

/// Naming only schemas below `m` names only schemas below any `n >= m`.
pub proof fn lemma_refs_below_mono(s: Schema, m: nat, n: nat)
    requires
        s.refs_below(m),
        m <= n,
    ensures
        s.refs_below(n),
{
    match s.items {
        Some(Items::SchemaRefs(l)) => {
            assert(all_below(l@, n));
        },
        _ => {},
    }
    assert forall|i: int| 0 <= i < s.dependencies@.len() implies dep_below(#[trigger] s.dependencies@[i].1, n) by {
        assert(dep_below(s.dependencies@[i].1, m));
    }
}

/// Collection of compiled schemas.
pub struct Schemas {
    pub list: Vec<Schema>,
}

/// The location with a fragment separator: `loc` itself when it has a
/// `#`, else `loc` followed by `#`.
pub open spec fn with_hash(loc: Seq<char>) -> Seq<char> {
    if loc.contains('#') {
        loc
    } else {
        loc.push('#')
    }
}

/// What `Schemas::enqueue` gives for `loc` with compiled locations `locs`
/// and queued locations `q`: the index, and the locations then queued.
pub open spec fn enqueue_result(locs: Seq<Seq<char>>, q: Seq<Seq<char>>, loc: Seq<char>) -> (nat, Seq<Seq<char>>) {
    let l = with_hash(loc);
    match first_pos(locs + q, l) {
        Some(p) => (p, q),
        None => ((locs + q).len(), q.push(l)),
    }
}

/// The position of the first location equal to `loc`, if any.
pub open spec fn first_pos(locs: Seq<Seq<char>>, loc: Seq<char>) -> Option<nat>
    decreases locs.len(),
{
    if locs.len() == 0 {
        None
    } else if locs.last() == loc {
        match first_pos(locs.drop_last(), loc) {
            Some(p) => Some(p),
            None => Some((locs.len() - 1) as nat),
        }
    } else {
        first_pos(locs.drop_last(), loc)
    }
}

/// `first_pos` is the least position holding `loc`.
pub proof fn lemma_first_pos(locs: Seq<Seq<char>>, loc: Seq<char>)
    ensures
        match first_pos(locs, loc) {
            Some(p) => p < locs.len() && locs[p as int] == loc
                && forall|j: int| 0 <= j < p ==> locs[j] != loc,
            None => forall|j: int| 0 <= j < locs.len() ==> locs[j] != loc,
        },
    decreases locs.len(),
{
    if locs.len() > 0 {
        let d = locs.drop_last();
        lemma_first_pos(d, loc);
        assert forall|j: int| 0 <= j < d.len() implies d[j] == locs[j] by {}
    }
}

proof fn lemma_first_pos_at(locs: Seq<Seq<char>>, loc: Seq<char>, k: int)
    requires
        0 <= k < locs.len(),
        locs[k] == loc,
        forall|j: int| 0 <= j < k ==> locs[j] != loc,
    ensures
        first_pos(locs, loc) == Some(k as nat),
{
    lemma_first_pos(locs, loc);
}

proof fn lemma_first_pos_none(locs: Seq<Seq<char>>, loc: Seq<char>)
    requires
        forall|j: int| 0 <= j < locs.len() ==> locs[j] != loc,
    ensures
        first_pos(locs, loc) is None,
{
    lemma_first_pos(locs, loc);
}

/// The location of each string.
pub open spec fn views(s: Seq<String>) -> Seq<Seq<char>> {
    s.map_values(|x: String| x@)
}

impl Schemas {
    /// The locations of the schemas, in order.
    pub open spec fn locs(&self) -> Seq<Seq<char>> {
        self.list@.map_values(|s: Schema| s.loc@)
    }

    /// Each schema names only schemas of this collection.
    pub open spec fn wf(&self) -> bool {
        forall|i: int| 0 <= i < self.list@.len() ==> (#[trigger] self.list@[i]).refs_below(self.list@.len())
    }

    /// An empty collection.
    pub fn new() -> (r: Schemas)
        ensures
            r.list@.len() == 0,
            r.wf(),
    {
        Schemas { list: Vec::new() }
    }

    /// The index that `loc` gets: that of a compiled schema at the same
    /// location, else that of a queued request for it, else a new request
    /// appended to `queue`. A location without `#` gets one.
    pub fn enqueue(&self, queue: &mut Vec<String>, location: String) -> (r: SchemaIndex)
        requires
            self.list@.len() + old(queue)@.len() < usize::MAX,
        ensures
            first_pos(self.locs() + views(old(queue)@), with_hash(location@)) matches Some(p) ==> r.0 == p
                && final(queue)@ == old(queue)@,
            first_pos(self.locs() + views(old(queue)@), with_hash(location@)) is None ==> {
                &&& r.0 == self.list@.len() + old(queue)@.len()
                &&& final(queue)@.len() == old(queue)@.len() + 1
                &&& final(queue)@.drop_last() == old(queue)@
                &&& final(queue)@.last()@ == with_hash(location@)
            },
            (r.0 as nat, views(final(queue)@)) == enqueue_result(self.locs(), views(old(queue)@), location@),
            r.0 < self.list@.len() + final(queue)@.len(),
            final(queue)@.len() >= old(queue)@.len(),
            forall|i: int| 0 <= i < old(queue)@.len() ==> final(queue)@[i] == old(queue)@[i],
    {
        let ghost orig = location@;
        let mut key = location;
        let v = chars_of(key.as_str());
        if rfind_char(&v, '#').is_none() {
            push_char(&mut key, '#');
        }
        proof {
            assert(key@ == with_hash(v@));
        }
        let ghost l = key@;
        assert(l == with_hash(orig));
        let ghost all = self.locs() + views(queue@);
        let n = self.list.len();
        proof {
            assert(all.len() == n + queue@.len());
            assert forall|j: int| 0 <= j < n implies all[j] == #[trigger] self.list@[j].loc@ by {}
            assert forall|j: int| 0 <= j < queue@.len() implies all[n + j] == #[trigger] queue@[j]@ by {}
        }
        let mut i: usize = 0;
        while i < n
            invariant
                n == self.list@.len(),
                i <= n,
                l == key@,
                l == with_hash(orig),
                orig == location@,
                queue@ == old(queue)@,
                all == self.locs() + views(queue@),
                all.len() == n + queue@.len(),
                forall|j: int| 0 <= j < n ==> all[j] == #[trigger] self.list@[j].loc@,
                forall|j: int| 0 <= j < i ==> all[j] != l,
            decreases n - i,
        {
            if str_eq(self.list[i].loc.as_str(), key.as_str()) {
                proof {
                    lemma_first_pos_at(all, l, i as int);
                }
                return SchemaIndex(i);
            }
            i += 1;
        }
        let qn = queue.len();
        let mut q: usize = 0;
        while q < qn
            invariant
                qn == queue@.len(),
                n == self.list@.len(),
                n + qn < usize::MAX,
                l == with_hash(orig),
                orig == location@,
                queue@ == old(queue)@,
                all == self.locs() + views(queue@),
                all.len() == n + qn,
                q <= qn,
                l == key@,
                forall|j: int| 0 <= j < qn ==> all[n + j] == #[trigger] queue@[j]@,
                forall|j: int| 0 <= j < n + q ==> all[j] != l,
            decreases qn - q,
        {
            if str_eq(queue[q].as_str(), key.as_str()) {
                proof {
                    lemma_first_pos_at(all, l, n + q);
                }
                return SchemaIndex(n + q);
            }
            proof {
                assert(all[n + q] != l);
            }
            q += 1;
        }
        proof {
            lemma_first_pos_none(all, l);
        }
        queue.push(key);
        SchemaIndex(n + qn)
    }

    /// Appends the compiled schemas, in order.
    pub fn insert(&mut self, compiled: Vec<Schema>)
        ensures
            final(self).list@ == old(self).list@ + compiled@,
            old(self).wf() && (forall|i: int| 0 <= i < compiled@.len()
                ==> (#[trigger] compiled@[i]).refs_below(old(self).list@.len() + compiled@.len())) ==> final(self).wf(),
    {
        let mut compiled = compiled;
        let ghost c = compiled@;
        self.list.append(&mut compiled);
        proof {
            let n = self.list@.len();
            if old(self).wf() && (forall|i: int| 0 <= i < c.len() ==> (#[trigger] c[i]).refs_below(old(self).list@.len() + c.len())) {
                assert forall|i: int| 0 <= i < n implies (#[trigger] self.list@[i]).refs_below(n) by {
                    if i < old(self).list@.len() {
                        assert(self.list@[i] == old(self).list@[i]);
                        lemma_refs_below_mono(self.list@[i], old(self).list@.len(), n);
                    } else {
                        assert(self.list@[i] == c[i - old(self).list@.len()]);
                    }
                }
            }
        }
    }

    /// The schema at `idx`.
    pub fn get(&self, idx: SchemaIndex) -> (r: &Schema)
        requires
            idx.0 < self.list@.len(),
        ensures
            *r == self.list@[idx.0 as int],
    {
        &self.list[idx.0]
    }

    /// The schema at location `loc` (a `#` is added when missing).
    pub fn get_by_loc(&self, loc: &str) -> (r: Option<&Schema>)
        ensures
            match first_pos(self.locs(), with_hash(loc@)) {
                Some(p) => r == Some(&self.list@[p as int]),
                None => r is None,
            },
    {
        let mut l = loc.to_string();
        let v = chars_of(loc);
        if rfind_char(&v, '#').is_none() {
            push_char(&mut l, '#');
        }
        let n = self.list.len();
        let mut i: usize = 0;
        while i < n
            invariant
                n == self.list@.len(),
                i <= n,
                l@ == with_hash(loc@),
                forall|j: int| 0 <= j < i ==> (#[trigger] self.list@[j]).loc@ != l@,
            decreases n - i,
        {
            if str_eq(self.list[i].loc.as_str(), l.as_str()) {
                proof {
                    lemma_first_pos_at(self.locs(), l@, i as int);
                }
                return Some(&self.list[i]);
            }
            i += 1;
        }
        proof {
            lemma_first_pos_none(self.locs(), l@);
        }
        None
    }

    /// Whether `sch_index` names a schema of this collection.
    pub fn contains(&self, sch_index: SchemaIndex) -> (r: bool)
        ensures
            r == (sch_index.0 < self.list@.len()),
    {
        sch_index.0 < self.list.len()
    }
}

/// A registered format check's number raised by `off`; a check of the
/// library stays as it is.
pub open spec fn shifted_format(c: FormatCheck, off: usize) -> FormatCheck {
    match c {
        FormatCheck::Registered(i) => FormatCheck::Registered((i + off) as usize),
        FormatCheck::Builtin(b) => FormatCheck::Builtin(b),
    }
}

/// A registered decoder's number raised by `off`; base64 stays as it is.
pub open spec fn shifted_decoder(c: DecoderCheck, off: usize) -> DecoderCheck {
    match c {
        DecoderCheck::Registered(i) => DecoderCheck::Registered((i + off) as usize),
        DecoderCheck::Base64 => DecoderCheck::Base64,
    }
}

/// The numbers of the registered checks of `s`, raised by `f` (formats),
/// `d` (decoders) and `m` (media types), still fit in `usize`.
pub open spec fn checks_fit(s: Schema, f: usize, d: usize, m: usize) -> bool {
    &&& (s.format matches Some(x) ==> (x.check matches FormatCheck::Registered(i) ==> i + f <= usize::MAX))
    &&& (s.content_encoding matches Some(x) ==> (x.check matches DecoderCheck::Registered(i) ==> i + d <= usize::MAX))
    &&& (s.content_media_type matches Some(x) ==> x.id + m <= usize::MAX)
}

/// The schema `s` with the numbers of its registered checks raised by `f`
/// (formats), `d` (content decoders) and `m` (media types), for checks that
/// now stand after `f`, `d` and `m` others; `None` when a number would not
/// fit in `usize`. Nothing else changes.
pub fn shift_checks(s: Schema, f: usize, d: usize, m: usize) -> (r: Option<Schema>)
    ensures
        r is Some <==> checks_fit(s, f, d, m),
        r matches Some(t) ==> t == (Schema {
            format: t.format,
            content_encoding: t.content_encoding,
            content_media_type: t.content_media_type,
            ..s
        }),
        r matches Some(t) ==> match s.format {
            None => t.format is None,
            Some(x) => t.format matches Some(y) && y.name == x.name && y.check == shifted_format(x.check, f),
        },
        r matches Some(t) ==> match s.content_encoding {
            None => t.content_encoding is None,
            Some(x) => t.content_encoding matches Some(y) && y.name == x.name
                && y.check == shifted_decoder(x.check, d),
        },
        r matches Some(t) ==> match s.content_media_type {
            None => t.content_media_type is None,
            Some(x) => t.content_media_type matches Some(y) && y.name == x.name
                && y.json_compatible == x.json_compatible && y.id == x.id + m,
        },
{
    let mut t = s;
    let format = match t.format {
        Some(x) => match x.check {
            FormatCheck::Registered(i) => {
                if i > usize::MAX - f {
                    return None;
                }
                Some(Format { name: x.name, check: FormatCheck::Registered(i + f) })
            },
            FormatCheck::Builtin(b) => Some(Format { name: x.name, check: FormatCheck::Builtin(b) }),
        },
        None => None,
    };
    t.format = format;
    let decoder = match t.content_encoding {
        Some(x) => match x.check {
            DecoderCheck::Registered(i) => {
                if i > usize::MAX - d {
                    return None;
                }
                Some(Decoder { name: x.name, check: DecoderCheck::Registered(i + d) })
            },
            DecoderCheck::Base64 => Some(Decoder { name: x.name, check: DecoderCheck::Base64 }),
        },
        None => None,
    };
    t.content_encoding = decoder;
    let media = match t.content_media_type {
        Some(x) => {
            if x.id > usize::MAX - m {
                return None;
            }
            Some(MediaType { name: x.name, json_compatible: x.json_compatible, id: x.id + m })
        },
        None => None,
    };
    t.content_media_type = media;
    Some(t)
}

} // verus!
