//! Combinable, domain-agnostic metadata filters shared by `search` and `grep`.
//!
//! Documents and segments carry free-form metadata (a JSON object). A hit is
//! filtered against its *effective* metadata: the document's entries overlaid
//! by the segment's, the segment winning on a shared key.
//!
//! A filter has four optional, ANDed parts, parsed from the request's
//! `filter` object: `all` (every `key: value` holds), `any` (at least one
//! holds), `tags_all` (every tag is in the `tags` array) and `tags_any` (at
//! least one is). A constraint whose value is an array means "one of"; a
//! metadata value that is an array matches a scalar constraint by membership.

use vstd::prelude::*;

use crate::json::{entry_of, jarr, jget, json_eq, json_same, jv, lemma_seq_jv, oget, seq_jv, Json, JsonMap, JsonV};
use crate::text::{copy_str, str_eq};

verus! {

broadcast use vstd::seq_lib::group_seq_properties;

/// A parsed set of metadata filters. An all-empty filter matches everything.
pub struct MetaFilter {
    all: Vec<(String, Json)>,
    any: Vec<(String, Json)>,
    tags_all: Vec<String>,
    tags_any: Vec<String>,
}

/// The mathematical content of a filter.
pub struct FilterV {
    pub all: Seq<(Seq<char>, JsonV)>,
    pub any: Seq<(Seq<char>, JsonV)>,
    pub tags_all: Seq<Seq<char>>,
    pub tags_any: Seq<Seq<char>>,
}

/// Key/value constraints as values.
pub open spec fn kv_view(v: Seq<(String, Json)>) -> Seq<(Seq<char>, JsonV)> {
    v.map_values(|e: (String, Json)| (e.0@, jv(e.1)))
}

/// Strings as character sequences.
pub open spec fn str_view(v: Seq<String>) -> Seq<Seq<char>> {
    v.map_values(|t: String| t@)
}

proof fn lemma_kv_view_push(v: Seq<(String, Json)>, e: (String, Json))
    ensures
        kv_view(v.push(e)) == kv_view(v).push((e.0@, jv(e.1))),
{
    assert(kv_view(v.push(e)) =~= kv_view(v).push((e.0@, jv(e.1))));
}

proof fn lemma_str_view_push(v: Seq<String>, e: String)
    ensures
        str_view(v.push(e)) == str_view(v).push(e@),
{
    assert(str_view(v.push(e)) =~= str_view(v).push(e@));
}

impl View for MetaFilter {
    type V = FilterV;

    closed spec fn view(&self) -> FilterV {
        FilterV {
            all: kv_view(self.all@),
            any: kv_view(self.any@),
            tags_all: str_view(self.tags_all@),
            tags_any: str_view(self.tags_any@),
        }
    }
}

/// Metadata as a map from key to value: the entries of an object, nothing
/// for any other value.
pub open spec fn meta_map(v: JsonV) -> Map<Seq<char>, JsonV> {
    Map::new(|k: Seq<char>| jget(v, k) is Some, |k: Seq<char>| jget(v, k)->0)
}

/// The effective metadata of a segment: the document's entries overlaid by
/// the segment's.
pub open spec fn effective(doc: JsonV, seg: JsonV) -> Map<Seq<char>, JsonV> {
    meta_map(doc).union_prefer_right(meta_map(seg))
}

/// `have` equals `want`, or is an array holding an element equal to
/// `want` (equal as JSON values: `0.0 == -0.0`).
pub open spec fn eq_or_member(have: JsonV, want: JsonV) -> bool {
    ||| json_same(have, want)
    ||| (have matches JsonV::Array(a) && exists|k: int| 0 <= k < a.len() && json_same(#[trigger] a[k], want))
}

/// One `key: want` constraint holds of the metadata.
pub open spec fn constraint_holds(m: Map<Seq<char>, JsonV>, key: Seq<char>, want: JsonV) -> bool {
    m.contains_key(key) && match want {
        JsonV::Array(opts) => one_of(m[key], opts),
        _ => eq_or_member(m[key], want),
    }
}

/// `have` matches one of the options.
pub open spec fn one_of(have: JsonV, opts: Seq<JsonV>) -> bool {
    exists|i: int| 0 <= i < opts.len() && #[trigger] eq_or_member(have, opts[i])
}

/// The strings among some values, in order (non-strings skipped).
pub open spec fn str_elems(a: Seq<JsonV>) -> Seq<Seq<char>>
    decreases a.len(),
{
    if a.len() == 0 {
        Seq::empty()
    } else {
        let rest = str_elems(a.drop_last());
        match a.last() {
            JsonV::Str(s) => rest.push(s),
            _ => rest,
        }
    }
}

/// The tags of the metadata: the strings of its `tags` array.
pub open spec fn tags_of(m: Map<Seq<char>, JsonV>) -> Seq<Seq<char>> {
    if m.contains_key("tags"@) {
        match m["tags"@] {
            JsonV::Array(a) => str_elems(a),
            _ => Seq::empty(),
        }
    } else {
        Seq::empty()
    }
}

/// The filter admits the metadata.
pub open spec fn admits(f: FilterV, m: Map<Seq<char>, JsonV>) -> bool {
    &&& forall|i: int| 0 <= i < f.all.len() ==> constraint_holds(m, f.all[i].0, f.all[i].1)
    &&& f.any.len() > 0 ==> exists|i: int|
        0 <= i < f.any.len() && constraint_holds(m, f.any[i].0, f.any[i].1)
    &&& forall|i: int| 0 <= i < f.tags_all.len() ==> tags_of(m).contains(f.tags_all[i])
    &&& f.tags_any.len() > 0 ==> exists|i: int|
        0 <= i < f.tags_any.len() && tags_of(m).contains(f.tags_any[i])
}

/// The filter sets no constraint.
pub open spec fn filter_empty(f: FilterV) -> bool {
    f.all.len() == 0 && f.any.len() == 0 && f.tags_all.len() == 0 && f.tags_any.len() == 0
}

/// The `filter` object of a payload, when it is an object.
pub open spec fn filter_obj(p: JsonV) -> Option<JsonV> {
    match jget(p, "filter"@) {
        Some(JsonV::Object(s)) => Some(JsonV::Object(s)),
        _ => None,
    }
}

/// The entries of an optional object value (none for anything else).
pub open spec fn kv_of(v: Option<JsonV>) -> Seq<(Seq<char>, JsonV)> {
    match v {
        Some(JsonV::Object(s)) => s,
        _ => Seq::empty(),
    }
}

/// The strings of an optional array value (none for anything else).
pub open spec fn strs_of(v: Option<JsonV>) -> Seq<Seq<char>> {
    match v {
        Some(JsonV::Array(a)) => str_elems(a),
        _ => Seq::empty(),
    }
}

/// The filter a request payload describes.
pub open spec fn parsed_filter(p: JsonV) -> FilterV {
    let f = filter_obj(p);
    FilterV {
        all: kv_of(oget(f, "all"@)),
        any: kv_of(oget(f, "any"@)),
        tags_all: strs_of(oget(f, "tags_all"@)),
        tags_any: strs_of(oget(f, "tags_any"@)),
    }
}

impl Default for MetaFilter {
    /// The filter that matches everything.
    fn default() -> (f: MetaFilter)
        ensures
            filter_empty(f@),
    {
        MetaFilter { all: Vec::new(), any: Vec::new(), tags_all: Vec::new(), tags_any: Vec::new() }
    }
}

/// The entries of an object value, copied (none for anything else).
fn parse_kv_object(v: Option<&Json>) -> (r: Vec<(String, Json)>)
    ensures
        kv_view(r@) == kv_of(
            match v {
                Some(x) => Some(jv(*x)),
                None => None,
            },
        ),
{
    let mut out: Vec<(String, Json)> = Vec::new();
    if let Some(Json::Object(m)) = v {
        let n = m.len();
        let mut i: usize = 0;
        while i < n
            invariant
                n == m.entries_v().len(),
                0 <= i <= n,
                kv_view(out@) =~= m.entries_v().take(i as int),
            decreases n - i,
        {
            let k = copy_str(m.key_at(i).as_str());
            let val = m.value_at(i).deep_copy();
            proof {
                lemma_kv_view_push(out@, (k, val));
                assert(m.entries_v().take(i + 1) =~= m.entries_v().take(i as int).push(
                    m.entries_v()[i as int],
                ));
            }
            out.push((k, val));
            i = i + 1;
        }
        assert(m.entries_v().take(n as int) =~= m.entries_v());
    }
    out
}

proof fn lemma_str_elems_push(a: Seq<JsonV>, x: JsonV)
    ensures
        str_elems(a.push(x)) == match x {
            JsonV::Str(s) => str_elems(a).push(s),
            _ => str_elems(a),
        },
{
    assert(a.push(x).drop_last() =~= a);
}

/// The strings of an array value, copied (none for anything else).
fn parse_string_array(v: Option<&Json>) -> (r: Vec<String>)
    ensures
        str_view(r@) == strs_of(
            match v {
                Some(x) => Some(jv(*x)),
                None => None,
            },
        ),
{
    let mut out: Vec<String> = Vec::new();
    if let Some(Json::Array(a)) = v {
        proof {
            lemma_seq_jv(a@);
        }
        let mut i: usize = 0;
        while i < a.len()
            invariant
                0 <= i <= a@.len(),
                seq_jv(a@).len() == a@.len(),
                forall|k: int| 0 <= k < a@.len() ==> #[trigger] seq_jv(a@)[k] == jv(a@[k]),
                str_view(out@) =~= str_elems(seq_jv(a@).take(i as int)),
            decreases a@.len() - i,
        {
            proof {
                assert(seq_jv(a@).take(i + 1) =~= seq_jv(a@).take(i as int).push(seq_jv(a@)[i as int]));
                lemma_str_elems_push(seq_jv(a@).take(i as int), seq_jv(a@)[i as int]);
            }
            if let Some(s) = a[i].as_str() {
                let c = copy_str(s.as_str());
                proof {
                    lemma_str_view_push(out@, c);
                }
                out.push(c);
            }
            i = i + 1;
        }
        assert(seq_jv(a@).take(a@.len() as int) =~= seq_jv(a@));
    }
    out
}

/// `have == want`, or `have` is an array with an element equal to `want`.
fn value_eq_or_member(have: &Json, want: &Json) -> (r: bool)
    ensures
        r == eq_or_member(jv(*have), jv(*want)),
{
    if json_eq(have, want) {
        return true;
    }
    if let Some(arr) = have.as_array() {
        proof {
            lemma_seq_jv(arr@);
        }
        let mut i: usize = 0;
        while i < arr.len()
            invariant
                jarr(jv(*have)) == Some(seq_jv(arr@)),
                0 <= i <= arr@.len(),
                seq_jv(arr@).len() == arr@.len(),
                forall|k: int| 0 <= k < arr@.len() ==> #[trigger] seq_jv(arr@)[k] == jv(arr@[k]),
                forall|k: int| 0 <= k < i ==> !json_same(#[trigger] seq_jv(arr@)[k], jv(*want)),
            decreases arr@.len() - i,
        {
            if json_eq(&arr[i], want) {
                proof {
                    assert(json_same(seq_jv(arr@)[i as int], jv(*want)));
                }
                return true;
            }
            i = i + 1;
        }
    }
    false
}

proof fn lemma_holds_one_of(m: Map<Seq<char>, JsonV>, key: Seq<char>, opts: Seq<JsonV>, i: int)
    requires
        m.contains_key(key),
        0 <= i < opts.len(),
        eq_or_member(m[key], opts[i]),
    ensures
        constraint_holds(m, key, JsonV::Array(opts)),
{
}

/// Whether the effective metadata satisfies one `key: want` constraint.
fn constraint_matches(effective: &Json, key: &str, want: &Json) -> (r: bool)
    ensures
        r == constraint_holds(meta_map(jv(*effective)), key@, jv(*want)),
{
    let ghost mm = meta_map(jv(*effective));
    let have = match effective.get(key) {
        Some(v) => v,
        None => {
            assert(!mm.contains_key(key@));
            return false;
        },
    };
    assert(mm.contains_key(key@) && mm[key@] == jv(*have));
    match want {
        Json::Array(opts) => {
            proof {
                lemma_seq_jv(opts@);
            }
            let mut i: usize = 0;
            while i < opts.len()
                invariant
                    mm == meta_map(jv(*effective)),
                    mm.contains_key(key@) && mm[key@] == jv(*have),
                    jv(*want) == JsonV::Array(seq_jv(opts@)),
                    0 <= i <= opts@.len(),
                    seq_jv(opts@).len() == opts@.len(),
                    forall|k: int| 0 <= k < opts@.len() ==> #[trigger] seq_jv(opts@)[k] == jv(opts@[k]),
                    forall|k: int| 0 <= k < i ==> !eq_or_member(jv(*have), #[trigger] seq_jv(opts@)[k]),
                decreases opts@.len() - i,
            {
                if value_eq_or_member(have, &opts[i]) {
                    proof {
                        lemma_holds_one_of(mm, key@, seq_jv(opts@), i as int);
                    }
                    return true;
                }
                i = i + 1;
            }
            false
        },
        _ => value_eq_or_member(have, want),
    }
}

/// The tags of the effective metadata.
fn effective_tags(effective: &Json) -> (r: Vec<String>)
    ensures
        str_view(r@) == tags_of(meta_map(jv(*effective))),
{
    let t = effective.get("tags");
    let r = parse_string_array(t);
    r
}

/// Whether `tags` holds `t`.
fn has_tag(tags: &Vec<String>, t: &str) -> (r: bool)
    ensures
        r == str_view(tags@).contains(t@),
{
    let mut i: usize = 0;
    while i < tags.len()
        invariant
            0 <= i <= tags@.len(),
            forall|k: int| 0 <= k < i ==> tags@[k]@ != t@,
        decreases tags@.len() - i,
    {
        if str_eq(tags[i].as_str(), t) {
            proof {
                assert(str_view(tags@)[i as int] == t@);
            }
            return true;
        }
        i = i + 1;
    }
    proof {
        if str_view(tags@).contains(t@) {
            let k = choose|k: int| 0 <= k < str_view(tags@).len() && str_view(tags@)[k] == t@;
            assert(tags@[k]@ == t@);
        }
    }
    false
}

impl MetaFilter {
    /// Whether no part of the filter is set (so it matches everything).
    pub fn is_empty(&self) -> (r: bool)
        ensures
            r == filter_empty(self@),
    {
        self.all.len() == 0 && self.any.len() == 0 && self.tags_all.len() == 0
            && self.tags_any.len() == 0
    }

    /// The filter of a request payload's `filter` object; an absent or
    /// non-object `filter` gives the empty filter. Unknown keys are ignored.
    pub fn parse(payload: &Json) -> (f: MetaFilter)
        ensures
            f@ == parsed_filter(jv(*payload)),
    {
        let filter = match payload.get("filter") {
            Some(f) => f,
            None => {
                return MetaFilter::default();
            },
        };
        if !filter.is_object() {
            return MetaFilter::default();
        }
        let f = MetaFilter {
            all: parse_kv_object(filter.get("all")),
            any: parse_kv_object(filter.get("any")),
            tags_all: parse_string_array(filter.get("tags_all")),
            tags_any: parse_string_array(filter.get("tags_any")),
        };
        proof {
            assert(filter_obj(jv(*payload)) == Some(jv(*filter)));
        }
        f
    }

    /// Whether the filter admits an effective metadata value.
    pub fn matches(&self, effective: &Json) -> (r: bool)
        ensures
            r == admits(self@, meta_map(jv(*effective))),
    {
        let ghost m = meta_map(jv(*effective));
        let ghost fv = self@;
        if self.is_empty() {
            return true;
        }
        let mut i: usize = 0;
        while i < self.all.len()
            invariant
                fv == self@,
                m == meta_map(jv(*effective)),
                0 <= i <= self.all@.len(),
                forall|k: int| 0 <= k < i ==> constraint_holds(m, fv.all[k].0, fv.all[k].1),
            decreases self.all@.len() - i,
        {
            assert(fv.all[i as int] == (self.all@[i as int].0@, jv(self.all@[i as int].1)));
            if !constraint_matches(effective, self.all[i].0.as_str(), &self.all[i].1) {
                return false;
            }
            i = i + 1;
        }
        if self.any.len() > 0 {
            let mut found = false;
            let mut j: usize = 0;
            while j < self.any.len() && !found
                invariant
                    fv == self@,
                    m == meta_map(jv(*effective)),
                    0 <= j <= self.any@.len(),
                    found ==> exists|k: int|
                        0 <= k < fv.any.len() && constraint_holds(m, fv.any[k].0, fv.any[k].1),
                    !found ==> forall|k: int|
                        0 <= k < j ==> !constraint_holds(m, fv.any[k].0, fv.any[k].1),
                decreases self.any@.len() - j,
            {
                assert(fv.any[j as int] == (self.any@[j as int].0@, jv(self.any@[j as int].1)));
                if constraint_matches(effective, self.any[j].0.as_str(), &self.any[j].1) {
                    found = true;
                    assert(constraint_holds(m, fv.any[j as int].0, fv.any[j as int].1));
                }
                j = j + 1;
            }
            if !found {
                return false;
            }
        }
        if self.tags_all.len() > 0 || self.tags_any.len() > 0 {
            let tags = effective_tags(effective);
            let mut i: usize = 0;
            while i < self.tags_all.len()
                invariant
                    fv == self@,
                    m == meta_map(jv(*effective)),
                    str_view(tags@) == tags_of(m),
                    0 <= i <= self.tags_all@.len(),
                    forall|k: int| 0 <= k < i ==> tags_of(m).contains(fv.tags_all[k]),
                decreases self.tags_all@.len() - i,
            {
                assert(fv.tags_all[i as int] == self.tags_all@[i as int]@);
                if !has_tag(&tags, self.tags_all[i].as_str()) {
                    return false;
                }
                i = i + 1;
            }
            if self.tags_any.len() > 0 {
                let mut found = false;
                let mut j: usize = 0;
                while j < self.tags_any.len() && !found
                    invariant
                        fv == self@,
                        m == meta_map(jv(*effective)),
                        str_view(tags@) == tags_of(m),
                        0 <= j <= self.tags_any@.len(),
                        found ==> exists|k: int|
                            0 <= k < fv.tags_any.len() && tags_of(m).contains(fv.tags_any[k]),
                        !found ==> forall|k: int|
                            0 <= k < j ==> !tags_of(m).contains(fv.tags_any[k]),
                    decreases self.tags_any@.len() - j,
                {
                    assert(fv.tags_any[j as int] == self.tags_any@[j as int]@);
                    if has_tag(&tags, self.tags_any[j].as_str()) {
                        found = true;
                        assert(tags_of(m).contains(fv.tags_any[j as int]));
                    }
                    j = j + 1;
                }
                if !found {
                    return false;
                }
            }
        }
        true
    }

    /// Whether the filter admits a segment, by the effective metadata of its
    /// document's and its own metadata.
    pub fn matches_doc_seg(&self, doc_meta: &Json, seg_meta: &Json) -> (r: bool)
        ensures
            r == admits(self@, effective(jv(*doc_meta), jv(*seg_meta))),
    {
        if self.is_empty() {
            return true;
        }
        let eff = effective_meta(doc_meta, seg_meta);
        self.matches(&eff)
    }
}

/// Inserts every entry of an object into `out`, in order.
fn overlay(out: &mut JsonMap, src: &JsonMap)
    requires
        old(out).wf(),
    ensures
        final(out).wf(),
        forall|k: Seq<char>|
            #[trigger] entry_of(final(out).entries_v(), k) == match entry_of(src.entries_v(), k) {
                Some(v) => Some(v),
                None => entry_of(old(out).entries_v(), k),
            },
{
    let n = src.len();
    let mut i: usize = 0;
    while i < n
        invariant
            n == src.entries_v().len(),
            0 <= i <= n,
            out.wf(),
            forall|k: Seq<char>|
                #[trigger] entry_of(out.entries_v(), k) == match entry_of(
                    src.entries_v().take(i as int),
                    k,
                ) {
                    Some(v) => Some(v),
                    None => entry_of(old(out).entries_v(), k),
                },
        decreases n - i,
    {
        let key = copy_str(src.key_at(i).as_str());
        let val = src.value_at(i).deep_copy();
        let ghost pre = src.entries_v().take(i as int);
        let ghost post = src.entries_v().take(i + 1);
        proof {
            assert(post.drop_last() =~= pre);
        }
        out.insert(key, val);
        i = i + 1;
    }
    assert(src.entries_v().take(n as int) =~= src.entries_v());
}

/// The effective metadata of a segment: an object holding the document's
/// entries overlaid by the segment's, the segment winning on a shared key.
/// Values that are not objects contribute nothing.
pub fn effective_meta(doc_meta: &Json, seg_meta: &Json) -> (r: Json)
    ensures
        r matches Json::Object(m) && m.wf(),
        meta_map(jv(r)) == effective(jv(*doc_meta), jv(*seg_meta)),
{
    let mut out = JsonMap::new();
    if let Json::Object(d) = doc_meta {
        overlay(&mut out, d);
    }
    if let Json::Object(s) = seg_meta {
        overlay(&mut out, s);
    }
    let r = Json::Object(out);
    proof {
        assert(meta_map(jv(r)) =~= effective(jv(*doc_meta), jv(*seg_meta)));
    }
    r
}

} // verus!
