//! Properties of the library that span several calls or all inputs.

use vstd::prelude::*;
use crate::draft::{Draft, draft_version, spec_draft_from_url, spec_is_subschema, strip_prefix};
use crate::json::{JsonValue, items_eq, json_eq, members_in, num_eq, obj_get};
use crate::schema::{Schema, Schemas, enqueue_result, first_pos, lemma_first_pos, with_hash};
use crate::text::{has_char, starts_with};
use crate::util::{spec_split, spec_unescape};
use crate::formats::{spec_valid_date, spec_valid_json_pointer, spec_valid_time};
use crate::text::spec_parse_digits;
use crate::errors::ErrorKind;
use crate::output::kind_keyword;
use crate::compiler::{counts_compiled, spec_count};
use crate::root::{lemma_seg_end, ptr_tokens, rest_tokens, seg_end};

verus! {

// ---------------------------------------------------------------------
// JSON equality

/// Every object in `v` names each of its members once.
pub open spec fn keys_unique(v: JsonValue) -> bool
    decreases v, 1int,
{
    match v {
        JsonValue::Array(a) => items_unique(a@),
        JsonValue::Object(o) => {
            &&& forall|i: int, j: int| 0 <= i < j < o@.len() ==> (#[trigger] o@[i]).0@ != (#[trigger] o@[j]).0@
            &&& members_unique(o@)
        },
        _ => true,
    }
}

/// Every item of `x` has unique keys throughout.
pub open spec fn items_unique(x: Seq<JsonValue>) -> bool
    decreases x, 0int,
{
    if x.len() == 0 {
        true
    } else {
        keys_unique(x[0]) && items_unique(x.skip(1))
    }
}

/// Every member value of `x` has unique keys throughout.
pub open spec fn members_unique(x: Seq<(String, JsonValue)>) -> bool
    decreases x, 0int,
{
    if x.len() == 0 {
        true
    } else {
        keys_unique(x[0].1) && members_unique(x.skip(1))
    }
}

/// The member of `o` named `o[k]`'s key is `o[k]` when keys are unique.
proof fn lemma_obj_get_unique(o: Seq<(String, JsonValue)>, k: int)
    requires
        0 <= k < o.len(),
        forall|i: int, j: int| 0 <= i < j < o.len() ==> (#[trigger] o[i]).0@ != (#[trigger] o[j]).0@,
    ensures
        obj_get(o, o[k].0@) == Some(o[k].1),
    decreases k,
{
    if k > 0 {
        let t = o.skip(1);
        assert(o[0].0@ != o[k].0@);
        assert(t[k - 1] == o[k]);
        assert forall|i: int, j: int| 0 <= i < j < t.len() implies (#[trigger] t[i]).0@ != (#[trigger] t[j]).0@ by {
            assert(t[i] == o[i + 1]);
            assert(t[j] == o[j + 1]);
        }
        lemma_obj_get_unique(t, k - 1);
    }
}

/// JSON equality is reflexive: every value (whose objects name each
/// member once) equals itself.
pub proof fn law_json_eq_reflexive(v: JsonValue)
    requires
        keys_unique(v),
    ensures
        json_eq(v, v),
    decreases v, 1int,
{
    match v {
        JsonValue::Array(a) => {
            lemma_items_eq_reflexive(a@);
        },
        JsonValue::Object(o) => {
            assert(o@.skip(0) =~= o@);
            lemma_members_in_self(o@, o@, 0);
        },
        _ => {},
    }
}

proof fn lemma_items_eq_reflexive(x: Seq<JsonValue>)
    requires
        items_unique(x),
    ensures
        items_eq(x, x),
    decreases x, 0int,
{
    if x.len() > 0 {
        law_json_eq_reflexive(x[0]);
        lemma_items_eq_reflexive(x.skip(1));
    }
}

/// The members of `o` from `k` on (that is, `s`) are all in `o`.
proof fn lemma_members_in_self(s: Seq<(String, JsonValue)>, o: Seq<(String, JsonValue)>, k: int)
    requires
        0 <= k <= o.len(),
        s == o.skip(k),
        forall|i: int, j: int| 0 <= i < j < o.len() ==> (#[trigger] o[i]).0@ != (#[trigger] o[j]).0@,
        members_unique(s),
    ensures
        members_in(s, o),
    decreases s, 0int,
{
    if s.len() > 0 {
        assert(s[0] == o[k]);
        lemma_obj_get_unique(o, k);
        law_json_eq_reflexive(s[0].1);
        assert(s.skip(1) =~= o.skip(k + 1));
        lemma_members_in_self(s.skip(1), o, k + 1);
    }
}

/// Each member value of `x` has unique keys throughout.
proof fn lemma_members_unique_at(x: Seq<(String, JsonValue)>, j: int)
    requires
        members_unique(x),
        0 <= j < x.len(),
    ensures
        keys_unique(x[j].1),
    decreases j,
{
    if j > 0 {
        assert(x.skip(1)[j - 1] == x[j]);
        lemma_members_unique_at(x.skip(1), j - 1);
    }
}

/// What `members_in` says of each member of `x`.
proof fn lemma_members_in_at(x: Seq<(String, JsonValue)>, y: Seq<(String, JsonValue)>, j: int)
    requires
        members_in(x, y),
        0 <= j < x.len(),
    ensures
        obj_get(y, x[j].0@) matches Some(v) && json_eq(x[j].1, v),
    decreases j,
{
    if j > 0 {
        assert(x.skip(1)[j - 1] == x[j]);
        lemma_members_in_at(x.skip(1), y, j - 1);
    }
}

/// `members_in` holds when every member of `x` has its match in `y`.
proof fn lemma_members_in_intro(x: Seq<(String, JsonValue)>, y: Seq<(String, JsonValue)>)
    requires
        forall|j: int| 0 <= j < x.len() ==> (obj_get(y, (#[trigger] x[j]).0@) matches Some(v) && json_eq(x[j].1, v)),
    ensures
        members_in(x, y),
    decreases x.len(),
{
    if x.len() > 0 {
        let t = x.skip(1);
        assert forall|j: int| 0 <= j < t.len() implies (obj_get(y, (#[trigger] t[j]).0@) matches Some(v) && json_eq(t[j].1, v)) by {
            assert(t[j] == x[j + 1]);
        }
        assert(obj_get(y, x[0].0@) matches Some(v) && json_eq(x[0].1, v));
        lemma_members_in_intro(t, y);
    }
}

/// A key found in `o` is the key of one of its members.
proof fn lemma_obj_get_found(o: Seq<(String, JsonValue)>, k: Seq<char>)
    requires
        obj_get(o, k) is Some,
    ensures
        exists|j: int| 0 <= j < o.len() && (#[trigger] o[j]).0@ == k,
    decreases o.len(),
{
    if o[0].0@ != k {
        lemma_obj_get_found(o.skip(1), k);
        let j = choose|j: int| 0 <= j < o.skip(1).len() && (#[trigger] o.skip(1)[j]).0@ == k;
        assert(o[j + 1] == o.skip(1)[j]);
    } else {
        assert(o[0].0@ == k);
    }
}

/// The keys of the members of `o`.
spec fn keys_of(o: Seq<(String, JsonValue)>) -> Seq<Seq<char>> {
    o.map_values(|m: (String, JsonValue)| m.0@)
}

/// Two objects with the same number of distinct keys, the keys of the
/// first all among those of the second, have the same keys.
proof fn lemma_same_keys(x: Seq<(String, JsonValue)>, y: Seq<(String, JsonValue)>, i: int)
    requires
        x.len() == y.len(),
        forall|a: int, b: int| 0 <= a < b < x.len() ==> (#[trigger] x[a]).0@ != (#[trigger] x[b]).0@,
        forall|a: int, b: int| 0 <= a < b < y.len() ==> (#[trigger] y[a]).0@ != (#[trigger] y[b]).0@,
        forall|j: int| 0 <= j < x.len() ==> obj_get(y, (#[trigger] x[j]).0@) is Some,
        0 <= i < y.len(),
    ensures
        exists|j: int| 0 <= j < x.len() && (#[trigger] x[j]).0@ == y[i].0@,
{
    let kx = keys_of(x);
    let ky = keys_of(y);
    assert(kx.no_duplicates()) by {
        assert forall|a: int, b: int| 0 <= a < kx.len() && 0 <= b < kx.len() && a != b implies kx[a] != kx[b] by {
            if a < b {
                assert(x[a].0@ != x[b].0@);
            } else {
                assert(x[b].0@ != x[a].0@);
            }
        }
    }
    assert(ky.no_duplicates()) by {
        assert forall|a: int, b: int| 0 <= a < ky.len() && 0 <= b < ky.len() && a != b implies ky[a] != ky[b] by {
            if a < b {
                assert(y[a].0@ != y[b].0@);
            } else {
                assert(y[b].0@ != y[a].0@);
            }
        }
    }
    kx.unique_seq_to_set();
    ky.unique_seq_to_set();
    assert(kx.to_set().subset_of(ky.to_set())) by {
        assert forall|k: Seq<char>| kx.to_set().contains(k) implies ky.to_set().contains(k) by {
            let j = choose|j: int| 0 <= j < kx.len() && kx[j] == k;
            assert(x[j].0@ == k);
            lemma_obj_get_found(y, k);
            let m = choose|m: int| 0 <= m < y.len() && (#[trigger] y[m]).0@ == k;
            assert(ky[m] == k);
        }
    }
    vstd::set_lib::lemma_subset_equality(kx.to_set(), ky.to_set());
    assert(ky[i] == y[i].0@);
    assert(ky.to_set().contains(y[i].0@));
    assert(kx.to_set().contains(y[i].0@));
    let j = choose|j: int| 0 <= j < kx.len() && kx[j] == y[i].0@;
    assert(x[j].0@ == y[i].0@);
}

/// JSON equality is symmetric (for values whose objects name each member
/// once).
pub proof fn law_json_eq_symmetric(a: JsonValue, b: JsonValue)
    requires
        keys_unique(a),
        keys_unique(b),
        json_eq(a, b),
    ensures
        json_eq(b, a),
    decreases a, 1int,
{
    match (a, b) {
        (JsonValue::Array(x), JsonValue::Array(y)) => {
            lemma_items_eq_symmetric(x@, y@);
        },
        (JsonValue::Object(x), JsonValue::Object(y)) => {
            lemma_members_symmetric(x@, y@);
        },
        _ => {},
    }
}

proof fn lemma_items_eq_symmetric(x: Seq<JsonValue>, y: Seq<JsonValue>)
    requires
        items_unique(x),
        items_unique(y),
        x.len() == y.len(),
        items_eq(x, y),
    ensures
        items_eq(y, x),
    decreases x, 0int,
{
    if x.len() > 0 {
        law_json_eq_symmetric(x[0], y[0]);
        lemma_items_eq_symmetric(x.skip(1), y.skip(1));
    }
}

proof fn lemma_members_symmetric(x: Seq<(String, JsonValue)>, y: Seq<(String, JsonValue)>)
    requires
        forall|a: int, b: int| 0 <= a < b < x.len() ==> (#[trigger] x[a]).0@ != (#[trigger] x[b]).0@,
        forall|a: int, b: int| 0 <= a < b < y.len() ==> (#[trigger] y[a]).0@ != (#[trigger] y[b]).0@,
        members_unique(x),
        members_unique(y),
        x.len() == y.len(),
        members_in(x, y),
    ensures
        members_in(y, x),
    decreases x, 0int,
{
    assert forall|j: int| 0 <= j < x.len() implies obj_get(y, (#[trigger] x[j]).0@) is Some by {
        lemma_members_in_at(x, y, j);
    }
    assert forall|i: int| 0 <= i < y.len() implies (obj_get(x, (#[trigger] y[i]).0@) matches Some(u)
        && json_eq(y[i].1, u)) by {
        lemma_same_keys(x, y, i);
        let j = choose|j: int| 0 <= j < x.len() && (#[trigger] x[j]).0@ == y[i].0@;
        lemma_obj_get_unique(x, j);
        lemma_obj_get_unique(y, i);
        lemma_members_in_at(x, y, j);
        lemma_members_unique_at(x, j);
        lemma_members_unique_at(y, i);
        law_json_eq_symmetric(x[j].1, y[i].1);
    }
    lemma_members_in_intro(y, x);
}

// ---------------------------------------------------------------------
// compiled schemas

/// Asking for the same location twice gives the same index, and the
/// second request queues nothing.
pub proof fn law_enqueue_idempotent(locs: Seq<Seq<char>>, q: Seq<Seq<char>>, loc: Seq<char>)
    ensures
        ({
            let (i1, q1) = enqueue_result(locs, q, loc);
            enqueue_result(locs, q1, loc) == (i1, q1)
        }),
{
    let l = with_hash(loc);
    let all = locs + q;
    lemma_first_pos(all, l);
    match first_pos(all, l) {
        Some(p) => {},
        None => {
            let all1 = locs + q.push(l);
            assert(all1 =~= all.push(l));
            lemma_first_pos(all1, l);
            assert forall|j: int| 0 <= j < all.len() implies all1[j] != l by {
                assert(all1[j] == all[j]);
            }
            assert(all1[all.len() as int] == l);
        },
    }
}

/// Compiling a location that is already compiled gives the index it was
/// compiled under and queues nothing.
pub proof fn law_compiled_location_reused(locs: Seq<Seq<char>>, loc: Seq<char>)
    requires
        first_pos(locs, with_hash(loc)) is Some,
    ensures
        enqueue_result(locs, seq![], loc) == (first_pos(locs, with_hash(loc))->0, Seq::<Seq<char>>::empty()),
{
    assert(locs + Seq::<Seq<char>>::empty() =~= locs);
}

/// A location gets a `#` at most once: adding it is idempotent.
pub proof fn law_with_hash_idempotent(loc: Seq<char>)
    ensures
        with_hash(with_hash(loc)) == with_hash(loc),
{
    if !loc.contains('#') {
        assert(loc.push('#')[loc.len() as int] == '#');
    }
}

// ---------------------------------------------------------------------
// drafts

/// The whole document is a subschema position in every draft.
pub proof fn law_root_is_subschema(d: Draft)
    ensures
        spec_is_subschema(draft_version(d), seq![]),
{
}

/// `i` is the position of the first `#` in `s`.
spec fn first_hash_at(s: Seq<char>, i: int) -> bool {
    0 <= i < s.len() && s[i] == '#' && forall|j: int| 0 <= j < i ==> s[j] != '#'
}

/// A `#` at `j` means there is a first one, at or before `j`.
proof fn lemma_first_hash_exists(s: Seq<char>, j: int)
    requires
        0 <= j < s.len(),
        s[j] == '#',
    ensures
        exists|i: int| first_hash_at(s, i),
    decreases j,
{
    if exists|m: int| 0 <= m < j && s[m] == '#' {
        let m = choose|m: int| 0 <= m < j && s[m] == '#';
        lemma_first_hash_exists(s, m);
    } else {
        assert(first_hash_at(s, j));
    }
}

/// Splitting cuts at the first `#`.
proof fn lemma_split_at(s: Seq<char>, i: int)
    requires
        first_hash_at(s, i),
    ensures
        spec_split(s) == (s.take(i), s.skip(i + 1)),
{
    assert(has_char(s, '#'));
    let c = choose|c: int| 0 <= c < s.len() && s[c] == '#' && forall|j: int| 0 <= j < c ==> s[j] != '#';
    assert(first_hash_at(s, c));
    if c < i {
        assert(s[c] == '#');
    } else if c > i {
        assert(s[i] == '#');
    }
}

/// Splitting at the first `#` skips a prefix without `#`.
proof fn lemma_split_prefix(p: Seq<char>, r: Seq<char>)
    requires
        !has_char(p, '#'),
    ensures
        spec_split(p + r).0 == p + spec_split(r).0,
        spec_split(p + r).1 == spec_split(r).1,
{
    let s = p + r;
    if has_char(r, '#') {
        let j = choose|j: int| 0 <= j < r.len() && r[j] == '#';
        lemma_first_hash_exists(r, j);
        let k = choose|k: int| first_hash_at(r, k);
        lemma_split_at(r, k);
        assert(s[p.len() + k] == r[k]);
        assert forall|m: int| 0 <= m < p.len() + k implies s[m] != '#' by {
            if m < p.len() {
                assert(s[m] == p[m]);
                if s[m] == '#' {
                    assert(has_char(p, '#'));
                }
            } else {
                assert(s[m] == r[m - p.len()]);
            }
        }
        assert(first_hash_at(s, p.len() + k));
        lemma_split_at(s, p.len() + k);
        assert(s.take(p.len() + k) =~= p + r.take(k));
        assert(s.skip(p.len() + k + 1) =~= r.skip(k + 1));
    } else {
        assert(!has_char(s, '#')) by {
            if has_char(s, '#') {
                let i = choose|i: int| 0 <= i < s.len() && s[i] == '#';
                if i < p.len() {
                    assert(s[i] == p[i]);
                    assert(has_char(p, '#'));
                } else {
                    assert(s[i] == r[i - p.len()]);
                    assert(has_char(r, '#'));
                }
            }
        }
    }
}

/// The parts of the url that name the draft are the same for `http://`
/// and `https://` in front of `rest`.
proof fn lemma_scheme_parts(rest: Seq<char>)
    requires
        !starts_with(rest, "https://"@),
    ensures
        spec_split("http://"@ + rest).1 == spec_split("https://"@ + rest).1,
        strip_prefix(strip_prefix(spec_split("http://"@ + rest).0, "http://"@), "https://"@)
            == strip_prefix(strip_prefix(spec_split("https://"@ + rest).0, "http://"@), "https://"@),
{
    reveal_strlit("http://");
    reveal_strlit("https://");
    let h = "http://"@;
    let hs = "https://"@;
    assert(!has_char(h, '#')) by {
        if has_char(h, '#') {
            let i = choose|i: int| 0 <= i < h.len() && h[i] == '#';
        }
    }
    assert(!has_char(hs, '#')) by {
        if has_char(hs, '#') {
            let i = choose|i: int| 0 <= i < hs.len() && hs[i] == '#';
        }
    }
    lemma_split_prefix(h, rest);
    lemma_split_prefix(hs, rest);
    let u = spec_split(rest).0;
    assert((h + u).take(7) =~= h);
    assert((h + u).skip(7) =~= u);
    assert(strip_prefix(h + u, h) == u);
    assert((hs + u).take(7) != h) by {
        assert((hs + u).take(7)[4] == 's');
        assert(h[4] == ':');
    }
    assert(strip_prefix(hs + u, h) == hs + u);
    assert((hs + u).take(8) =~= hs);
    assert((hs + u).skip(8) =~= u);
    assert(strip_prefix(hs + u, hs) == u);
    assert(strip_prefix(u, hs) == u) by {
        if hs.len() <= u.len() && u.take(8) == hs {
            if has_char(rest, '#') {
                let j = choose|j: int| 0 <= j < rest.len() && rest[j] == '#';
                lemma_first_hash_exists(rest, j);
                let k = choose|k: int| first_hash_at(rest, k);
                lemma_split_at(rest, k);
                assert(u == rest.take(k));
                assert(rest.take(8) =~= u.take(8));
            } else {
                assert(u == rest);
            }
            assert(starts_with(rest, hs));
        }
    }
}

/// The draft a metaschema url names does not depend on its fragment.
pub proof fn law_from_url_ignores_fragment(u: Seq<char>, f: Seq<char>)
    requires
        !has_char(u, '#'),
    ensures
        spec_draft_from_url(u + seq!['#'] + f) == spec_draft_from_url(u),
{
    let s = u + seq!['#'] + f;
    assert(s[u.len() as int] == '#');
    assert forall|j: int| 0 <= j < u.len() implies s[j] != '#' by {
        assert(s[j] == u[j]);
        if s[j] == '#' {
            assert(has_char(u, '#'));
        }
    }
    assert(first_hash_at(s, u.len() as int));
    lemma_split_at(s, u.len() as int);
    assert(s.take(u.len() as int) =~= u);
}

/// A metaschema url names the same draft whether it starts with
/// `http://` or with `https://` (unless what follows is itself an
/// `https://` url).
pub proof fn law_from_url_scheme(rest: Seq<char>)
    requires
        !starts_with(rest, "https://"@),
    ensures
        spec_draft_from_url("http://"@ + rest) == spec_draft_from_url("https://"@ + rest),
{
    lemma_scheme_parts(rest);
}

// ---------------------------------------------------------------------
// json-pointers

/// Every `~` in `t` is followed by `0` or `1`.
pub open spec fn tildes_escaped(t: Seq<char>) -> bool {
    forall|i: int| 0 <= i < t.len() && #[trigger] t[i] == '~' ==> i + 1 < t.len() && (t[i + 1] == '0' || t[i + 1] == '1')
}

/// A token unescapes exactly when its every `~` is followed by `0` or `1`.
pub proof fn lemma_unescape_ok(t: Seq<char>)
    ensures
        spec_unescape(t) is Some <==> tildes_escaped(t),
    decreases t.len(),
{
    if t.len() == 0 {
    } else if t[0] == '~' {
        if t.len() >= 2 && (t[1] == '0' || t[1] == '1') {
            let r = t.skip(2);
            lemma_unescape_ok(r);
            if tildes_escaped(r) {
                assert forall|i: int| 0 <= i < t.len() && #[trigger] t[i] == '~' implies i + 1 < t.len()
                    && (t[i + 1] == '0' || t[i + 1] == '1') by {
                    if i >= 2 {
                        assert(r[i - 2] == t[i]);
                    }
                }
            }
            if tildes_escaped(t) {
                assert forall|i: int| 0 <= i < r.len() && #[trigger] r[i] == '~' implies i + 1 < r.len()
                    && (r[i + 1] == '0' || r[i + 1] == '1') by {
                    assert(t[i + 2] == r[i]);
                }
            }
        } else {
            assert(t[0] == '~');
        }
    } else {
        let r = t.skip(1);
        lemma_unescape_ok(r);
        if tildes_escaped(r) {
            assert forall|i: int| 0 <= i < t.len() && #[trigger] t[i] == '~' implies i + 1 < t.len()
                && (t[i + 1] == '0' || t[i + 1] == '1') by {
                assert(r[i - 1] == t[i]);
            }
        }
        if tildes_escaped(t) {
            assert forall|i: int| 0 <= i < r.len() && #[trigger] r[i] == '~' implies i + 1 < r.len()
                && (r[i + 1] == '0' || r[i + 1] == '1') by {
                assert(t[i + 1] == r[i]);
            }
        }
    }
}

/// Every `~` of `p` after position `i` is followed by `0` or `1`.
pub open spec fn tildes_escaped_after(p: Seq<char>, i: int) -> bool {
    forall|j: int| i < j < p.len() && #[trigger] p[j] == '~' ==> j + 1 < p.len() && (p[j + 1] == '0' || p[j + 1] == '1')
}

/// The tokens after the `/` at `i` all unescape exactly when every `~`
/// after `i` is followed by `0` or `1`.
pub proof fn lemma_rest_tokens_ok(p: Seq<char>, i: int)
    requires
        0 <= i,
        i < p.len() ==> p[i] == '/',
    ensures
        (forall|k: int| 0 <= k < rest_tokens(p, i).len() ==> (#[trigger] spec_unescape(rest_tokens(p, i)[k])) is Some)
            <==> tildes_escaped_after(p, i),
    decreases p.len() - i,
{
    if i >= p.len() {
        return;
    }
    let e = seg_end(p, i + 1);
    lemma_seg_end(p, i + 1);
    let t = p.subrange(i + 1, e);
    let rest = rest_tokens(p, e);
    assert(rest_tokens(p, i) == seq![t] + rest);
    lemma_rest_tokens_ok(p, e);
    lemma_unescape_ok(t);
    let toks = rest_tokens(p, i);
    if tildes_escaped_after(p, i) {
        assert forall|j: int| 0 <= j < t.len() && #[trigger] t[j] == '~' implies j + 1 < t.len()
            && (t[j + 1] == '0' || t[j + 1] == '1') by {
            assert(t[j] == p[i + 1 + j]);
            if i + 1 + j + 1 == e {
                assert(p[e] == '/');
            } else {
                assert(t[j + 1] == p[i + 1 + j + 1]);
            }
        }
        assert(tildes_escaped_after(p, e));
        assert forall|k: int| 0 <= k < toks.len() implies (#[trigger] spec_unescape(toks[k])) is Some by {
            if k == 0 {
                assert(toks[0] == t);
            } else {
                assert(toks[k] == rest[k - 1]);
            }
        }
    }
    if forall|k: int| 0 <= k < toks.len() ==> (#[trigger] spec_unescape(toks[k])) is Some {
        assert(spec_unescape(toks[0]) is Some);
        assert(toks[0] == t);
        assert forall|k: int| 0 <= k < rest.len() implies (#[trigger] spec_unescape(rest[k])) is Some by {
            assert(toks[k + 1] == rest[k]);
            assert(spec_unescape(toks[k + 1]) is Some);
        }
        assert forall|j: int| i < j < p.len() && #[trigger] p[j] == '~' implies j + 1 < p.len()
            && (p[j + 1] == '0' || p[j + 1] == '1') by {
            if j < e {
                assert(t[j - i - 1] == p[j]);
                assert(t[j - i - 1 + 1] == p[j + 1]);
            }
        }
    }
}

/// A json-pointer is valid exactly when it is empty, or starts with `/`
/// and each of its tokens unescapes (every `~` followed by `0` or `1`).
pub proof fn law_json_pointer_tokens(s: Seq<char>)
    ensures
        spec_valid_json_pointer(s) <==> (s.len() == 0 || (s[0] == '/'
            && forall|k: int| 0 <= k < ptr_tokens(s).len() ==> (#[trigger] spec_unescape(ptr_tokens(s)[k])) is Some)),
{
    if s.len() > 0 && s[0] == '/' {
        assert(seg_end(s, 0) == 0);
        lemma_rest_tokens_ok(s, 0);
        if tildes_escaped_after(s, 0) {
            assert forall|i: int| 0 <= i < s.len() && #[trigger] s[i] == '~' implies i + 1 < s.len()
                && (s[i + 1] == '0' || s[i + 1] == '1') by {
                assert(i != 0);
            }
        }
    }
}

// ---------------------------------------------------------------------
// listing

/// `Indent::post` after `Indent::pre` restores the depth (below the
/// saturation point).
pub proof fn law_indent_post_undoes_pre(n: usize)
    requires
        n < usize::MAX,
    ensures
        crate::output::pre_depth(n) > 0,
        crate::output::post_depth(crate::output::pre_depth(n)) == n,
{
}

// ---------------------------------------------------------------------
// compiling into a collection

/// Compiling a location already compiled into `target` again: `start`
/// gives the index it has and queues nothing, so no step compiles
/// anything (`compile_next` gives `Done` with nothing compiled), and the
/// collection after inserting that empty result is the one before, with
/// the index in it.
pub proof fn law_recompile_keeps_schemas(target: Schemas, loc: Seq<char>, compiled: Seq<Schema>)
    requires
        first_pos(target.locs(), with_hash(loc)) is Some,
        compiled.len() <= enqueue_result(target.locs(), seq![], loc).1.len(),
    ensures
        enqueue_result(target.locs(), seq![], loc).1.len() == 0,
        compiled.len() == 0,
        target.list@ + compiled == target.list@,
        enqueue_result(target.locs(), seq![], loc).0 < (target.list@ + compiled).len(),
{
    law_compiled_location_reused(target.locs(), loc);
    lemma_first_pos(target.locs(), with_hash(loc));
    assert(target.list@ + compiled =~= target.list@);
}

/// The index `start` gives is below the schemas of `target` and those it
/// queued; once every queued location is compiled (`Done`), inserting them
/// makes the index one the collection contains.
pub proof fn law_started_index_contained(target: Schemas, queued: nat, compiled: Seq<Schema>, idx: nat)
    requires
        idx < target.list@.len() + queued,
        compiled.len() == queued,
    ensures
        idx < (target.list@ + compiled).len(),
{
}


// ---------------------------------------------------------------------
// dates

/// A valid date `yyyy-mm-dd` keeps to the Gregorian calendar: April, June,
/// September and November have 30 days, February 28, or 29 in a year
/// divisible by 4 but not by 100 unless by 400, the other months 31.
pub proof fn law_date_within_calendar(s: Seq<char>)
    requires
        spec_valid_date(s),
    ensures
        match (spec_parse_digits(s.subrange(0, 4)), spec_parse_digits(s.subrange(5, 7)),
            spec_parse_digits(s.subrange(8, 10))) {
            (Some(y), Some(m), Some(d)) => {
                &&& 1 <= m <= 12
                &&& 1 <= d <= 31
                &&& (m == 4 || m == 6 || m == 9 || m == 11 ==> d <= 30)
                &&& (m == 2 ==> d <= 29)
                &&& (m == 2 && d == 29 ==> y % 4 == 0 && (y % 100 != 0 || y % 400 == 0))
            },
            _ => false,
        },
{
}

/// Every day the Gregorian calendar has is a valid date: the 1st to the
/// 30th of every month but February, the 31st of January, March, May,
/// July, August, October and December, the 1st to the 28th of February,
/// and its 29th in a leap year.
pub proof fn law_calendar_days_are_dates(s: Seq<char>, y: nat, m: nat, d: nat)
    requires
        s.len() == 10,
        s[4] == '-',
        s[7] == '-',
        spec_parse_digits(s.subrange(0, 4)) == Some(y),
        spec_parse_digits(s.subrange(5, 7)) == Some(m),
        spec_parse_digits(s.subrange(8, 10)) == Some(d),
        1 <= m <= 12,
        1 <= d,
        d <= 28
            || (d <= 30 && m != 2)
            || (d == 31 && (m == 1 || m == 3 || m == 5 || m == 7 || m == 8 || m == 10 || m == 12))
            || (m == 2 && d == 29 && y % 4 == 0 && (y % 100 != 0 || y % 400 == 0)),
    ensures
        spec_valid_date(s),
{
}

// ---------------------------------------------------------------------
// JSON equality of plain values

/// JSON equality tells plain values apart by their content: booleans by
/// their truth, strings by their characters, `null` equals `null`, and
/// values of different kinds are never equal.
pub proof fn law_json_eq_plain(a: JsonValue, b: JsonValue)
    ensures
        a matches JsonValue::Bool(x) ==> (b matches JsonValue::Bool(y) ==> (json_eq(a, b) <==> x == y)),
        a matches JsonValue::String(x) ==> (b matches JsonValue::String(y) ==> (json_eq(a, b) <==> x@ == y@)),
        (a is Null && b is Null) ==> json_eq(a, b),
        json_eq(a, b) ==> ((a is Null) == (b is Null) && (a is Bool) == (b is Bool) && (a is String) == (b is String)
            && (a is Number) == (b is Number) && (a is Array) == (b is Array) && (a is Object) == (b is Object)),
        a matches JsonValue::Number(x) ==> (b matches JsonValue::Number(y) ==> (x.as_u64 is Some && y.as_u64 is Some
            ==> (json_eq(a, b) <==> x.as_u64 == y.as_u64))),
{
}

/// Two arrays are JSON-equal exactly when they are equally long and equal
/// item by item.
pub proof fn law_json_eq_arrays(x: Seq<JsonValue>, y: Seq<JsonValue>)
    requires
        x.len() == y.len(),
    ensures
        items_eq(x, y) <==> forall|i: int| 0 <= i < x.len() ==> json_eq(#[trigger] x[i], y[i]),
    decreases x.len(),
{
    if x.len() > 0 {
        law_json_eq_arrays(x.skip(1), y.skip(1));
        if forall|i: int| 0 <= i < x.len() ==> json_eq(#[trigger] x[i], y[i]) {
            assert forall|i: int| 0 <= i < x.skip(1).len() implies json_eq(#[trigger] x.skip(1)[i], y.skip(1)[i]) by {
                assert(x.skip(1)[i] == x[i + 1]);
                assert(json_eq(x[i + 1], y[i + 1]));
            }
            assert(json_eq(x[0], y[0]));
        }
        if items_eq(x, y) {
            assert forall|i: int| 0 <= i < x.len() implies json_eq(#[trigger] x[i], y[i]) by {
                if i > 0 {
                    assert(x.skip(1)[i - 1] == x[i]);
                    assert(y.skip(1)[i - 1] == y[i]);
                }
            }
        }
    }
}

// ---------------------------------------------------------------------
// keywords of errors

/// The keyword the output names for a count error is the member of the
/// schema object that holds the bound the error reports: for a schema
/// compiled from `o`, the bound `want` of a `minLength`, `maxLength`,
/// `minItems`, `maxItems`, `minProperties` or `maxProperties` error is the
/// count `o` holds under the keyword of that error.
pub proof fn law_count_error_keyword(o: Seq<(String, JsonValue)>, s: Schema, got: usize, want: usize)
    requires
        counts_compiled(o, s),
    ensures
        s.min_length == Some(want) ==> (kind_keyword(ErrorKind::MinLength { got, want }) matches Some(k)
            && spec_count(obj_get(o, k)) == Some(want)),
        s.max_length == Some(want) ==> (kind_keyword(ErrorKind::MaxLength { got, want }) matches Some(k)
            && spec_count(obj_get(o, k)) == Some(want)),
        s.min_items == Some(want) ==> (kind_keyword(ErrorKind::MinItems { got, want }) matches Some(k)
            && spec_count(obj_get(o, k)) == Some(want)),
        s.max_items == Some(want) ==> (kind_keyword(ErrorKind::MaxItems { got, want }) matches Some(k)
            && spec_count(obj_get(o, k)) == Some(want)),
        s.min_properties == Some(want) ==> (kind_keyword(ErrorKind::MinProperties { got, want }) matches Some(k)
            && spec_count(obj_get(o, k)) == Some(want)),
        s.max_properties == Some(want) ==> (kind_keyword(ErrorKind::MaxProperties { got, want }) matches Some(k)
            && spec_count(obj_get(o, k)) == Some(want)),
{
}

/// Each kind of error names the schema keyword whose check raises it.
pub proof fn law_error_keywords(k: ErrorKind)
    ensures
        kind_keyword(k) == match k {
            ErrorKind::Group | ErrorKind::Schema { .. } | ErrorKind::RefCycle { .. } | ErrorKind::FalseSchema => None,
            ErrorKind::ContentSchema => Some("contentSchema"@),
            ErrorKind::PropertyName { .. } => Some("propertyNames"@),
            ErrorKind::Reference { kw, .. } => Some(kw@),
            ErrorKind::Type { .. } => Some("type"@),
            ErrorKind::Enum { .. } => Some("enum"@),
            ErrorKind::Const { .. } => Some("const"@),
            ErrorKind::Format { .. } => Some("format"@),
            ErrorKind::MinProperties { .. } => Some("minProperties"@),
            ErrorKind::MaxProperties { .. } => Some("maxProperties"@),
            ErrorKind::AdditionalProperties { .. } => Some("additionalProperties"@),
            ErrorKind::Required { .. } => Some("required"@),
            ErrorKind::Dependency { .. } => Some("dependencies"@),
            ErrorKind::DependentRequired { .. } => Some("dependentRequired"@),
            ErrorKind::MinItems { .. } => Some("minItems"@),
            ErrorKind::MaxItems { .. } => Some("maxItems"@),
            ErrorKind::Contains => Some("contains"@),
            ErrorKind::MinContains { .. } => Some("minContains"@),
            ErrorKind::MaxContains { .. } => Some("maxContains"@),
            ErrorKind::UniqueItems { .. } => Some("uniqueItems"@),
            ErrorKind::AdditionalItems { .. } => Some("additionalItems"@),
            ErrorKind::MinLength { .. } => Some("minLength"@),
            ErrorKind::MaxLength { .. } => Some("maxLength"@),
            ErrorKind::Pattern { .. } => Some("pattern"@),
            ErrorKind::ContentEncoding { .. } => Some("contentEncoding"@),
            ErrorKind::ContentMediaType { .. } => Some("contentMediaType"@),
            ErrorKind::Minimum { .. } => Some("minimum"@),
            ErrorKind::Maximum { .. } => Some("maximum"@),
            ErrorKind::ExclusiveMinimum { .. } => Some("exclusiveMinimum"@),
            ErrorKind::ExclusiveMaximum { .. } => Some("exclusiveMaximum"@),
            ErrorKind::MultipleOf { .. } => Some("multipleOf"@),
            ErrorKind::Not => Some("not"@),
            ErrorKind::AllOf => Some("allOf"@),
            ErrorKind::AnyOf => Some("anyOf"@),
            ErrorKind::OneOf(_) => Some("oneOf"@),
        },
{
}

// ---------------------------------------------------------------------
// times

/// A valid time keeps to the clock: hours up to 23, minutes up to 59,
/// seconds up to 60, and a leap second in UTC only at 23:59.
pub proof fn law_time_within_clock(s: Seq<char>)
    requires
        spec_valid_time(s),
    ensures
        match (spec_parse_digits(s.subrange(0, 2)), spec_parse_digits(s.subrange(3, 5)),
            spec_parse_digits(s.subrange(6, 8))) {
            (Some(h), Some(m), Some(sec)) => {
                &&& h <= 23
                &&& m <= 59
                &&& sec <= 60
                &&& (s.len() == 9 && s[8] == 'Z' && sec == 60 ==> h == 23 && m == 59)
            },
            _ => false,
        },
{
    if s.len() == 9 && s[8] == 'Z' {
        assert(s.skip(8) =~= seq!['Z']);
    }
}

/// Every time of the clock without a leap second, in UTC, is valid.
pub proof fn law_clock_times_are_times(s: Seq<char>, h: nat, m: nat, sec: nat)
    requires
        s.len() == 9,
        s[2] == ':',
        s[5] == ':',
        s[8] == 'Z',
        spec_parse_digits(s.subrange(0, 2)) == Some(h),
        spec_parse_digits(s.subrange(3, 5)) == Some(m),
        spec_parse_digits(s.subrange(6, 8)) == Some(sec),
        h <= 23,
        m <= 59,
        sec <= 59,
    ensures
        spec_valid_time(s),
{
    assert(s.skip(8) =~= seq!['Z']);
}

// ---------------------------------------------------------------------
// JSON equality of numbers and objects

/// Numbers are JSON-equal by their integer value when both have one of
/// the same kind, else by their order.
pub proof fn law_json_eq_numbers(x: crate::json::JsonNumber, y: crate::json::JsonNumber)
    ensures
        x.as_u64 is Some && y.as_u64 is Some
            ==> (json_eq(JsonValue::Number(x), JsonValue::Number(y)) <==> x.as_u64 == y.as_u64),
        !(x.as_u64 is Some && y.as_u64 is Some) && x.as_i64 is Some && y.as_i64 is Some
            ==> (json_eq(JsonValue::Number(x), JsonValue::Number(y)) <==> x.as_i64 == y.as_i64),
        !(x.as_u64 is Some && y.as_u64 is Some) && !(x.as_i64 is Some && y.as_i64 is Some)
            ==> (json_eq(JsonValue::Number(x), JsonValue::Number(y)) <==> x.order_key == y.order_key),
{
}

/// Every member of `x` is in `y` with a JSON-equal value exactly when
/// `members_in` holds; two objects are JSON-equal exactly when they have
/// equally many members and every member of the first is so in the second.
pub proof fn law_json_eq_members(x: Seq<(String, JsonValue)>, y: Seq<(String, JsonValue)>)
    ensures
        members_in(x, y) <==> forall|i: int| 0 <= i < x.len()
            ==> (obj_get(y, (#[trigger] x[i]).0@) matches Some(v) && json_eq(x[i].1, v)),
    decreases x.len(),
{
    if x.len() > 0 {
        law_json_eq_members(x.skip(1), y);
        if forall|i: int| 0 <= i < x.len() ==> (obj_get(y, (#[trigger] x[i]).0@) matches Some(v) && json_eq(x[i].1, v)) {
            assert forall|i: int| 0 <= i < x.skip(1).len() implies
                (obj_get(y, (#[trigger] x.skip(1)[i]).0@) matches Some(v) && json_eq(x.skip(1)[i].1, v)) by {
                assert(x.skip(1)[i] == x[i + 1]);
            }
            assert(obj_get(y, x[0].0@) matches Some(v) && json_eq(x[0].1, v));
        }
        if members_in(x, y) {
            assert forall|i: int| 0 <= i < x.len() implies
                (obj_get(y, (#[trigger] x[i]).0@) matches Some(v) && json_eq(x[i].1, v)) by {
                if i > 0 {
                    assert(x.skip(1)[i - 1] == x[i]);
                }
            }
        }
    }
}

/// Two objects are JSON-equal exactly when they have equally many members
/// and each member of the first is in the second with a JSON-equal value.
pub proof fn law_json_eq_objects(x: Seq<(String, JsonValue)>, y: Seq<(String, JsonValue)>,
    a: JsonValue, b: JsonValue)
    requires
        a matches JsonValue::Object(xo) && xo@ == x,
        b matches JsonValue::Object(yo) && yo@ == y,
    ensures
        json_eq(a, b) <==> x.len() == y.len() && forall|i: int| 0 <= i < x.len()
            ==> (obj_get(y, (#[trigger] x[i]).0@) matches Some(v) && json_eq(x[i].1, v)),
{
    law_json_eq_members(x, y);
}

/// Two arrays are JSON-equal exactly when they are equally long and equal
/// item by item (the array values themselves).
pub proof fn law_json_eq_array_values(a: JsonValue, b: JsonValue, x: Seq<JsonValue>, y: Seq<JsonValue>)
    requires
        a matches JsonValue::Array(xa) && xa@ == x,
        b matches JsonValue::Array(ya) && ya@ == y,
    ensures
        json_eq(a, b) <==> x.len() == y.len() && forall|i: int| 0 <= i < x.len() ==> json_eq(#[trigger] x[i], y[i]),
{
    if x.len() == y.len() {
        law_json_eq_arrays(x, y);
    }
}

} // verus!
