//! Variable metadata: the user's overrides, the values inferred from the data,
//! and the variable descriptions shown in the Variable View.
use vstd::prelude::*;
use vstd::string::*;
use crate::json::{Json, JsonNumber, json_get, json_text};
use crate::text::compare_text;

verus! {

/// Per-column metadata overrides; `None` leaves the inferred value.
#[derive(Debug)]
pub struct VarMeta {
    pub label: Option<String>,
    pub var_type: Option<String>,
    pub width: Option<u32>,
    pub decimals: Option<u32>,
    pub columns: Option<u32>,
    pub align: Option<String>,
    pub value_labels: Option<Vec<(String, String)>>,
    pub measure_level: Option<String>,
    pub role: Option<String>,
}

pub open spec fn opt_text(o: Option<String>) -> Option<Seq<char>> {
    match o {
        Some(s) => Some(s@),
        None => None,
    }
}

pub open spec fn labels_view(v: Seq<(String, String)>) -> Seq<(Seq<char>, Seq<char>)> {
    v.map_values(|p: (String, String)| (p.0@, p.1@))
}

/// Metadata by the values of its fields.
pub struct VarMetaView {
    pub label: Option<Seq<char>>,
    pub var_type: Option<Seq<char>>,
    pub width: Option<u32>,
    pub decimals: Option<u32>,
    pub columns: Option<u32>,
    pub align: Option<Seq<char>>,
    pub value_labels: Option<Seq<(Seq<char>, Seq<char>)>>,
    pub measure_level: Option<Seq<char>>,
    pub role: Option<Seq<char>>,
}

impl View for VarMeta {
    type V = VarMetaView;

    open spec fn view(&self) -> VarMetaView {
        VarMetaView {
            label: opt_text(self.label),
            var_type: opt_text(self.var_type),
            width: self.width,
            decimals: self.decimals,
            columns: self.columns,
            align: opt_text(self.align),
            value_labels: match self.value_labels {
                Some(v) => Some(labels_view(v@)),
                None => None,
            },
            measure_level: opt_text(self.measure_level),
            role: opt_text(self.role),
        }
    }
}

/// Metadata with no overrides.
pub open spec fn no_overrides() -> VarMetaView {
    VarMetaView {
        label: None,
        var_type: None,
        width: None,
        decimals: None,
        columns: None,
        align: None,
        value_labels: None,
        measure_level: None,
        role: None,
    }
}

impl Default for VarMeta {
    fn default() -> (m: VarMeta)
        ensures
            m@ == no_overrides(),
    {
        VarMeta {
            label: None,
            var_type: None,
            width: None,
            decimals: None,
            columns: None,
            align: None,
            value_labels: None,
            measure_level: None,
            role: None,
        }
    }
}

/// The label of the first value-label entry for `value`.
pub open spec fn label_for(labels: Seq<(Seq<char>, Seq<char>)>, value: Seq<char>) -> Option<Seq<char>>
    decreases labels.len(),
{
    if labels.len() == 0 {
        None
    } else if labels[0].0 == value {
        Some(labels[0].1)
    } else {
        label_for(labels.drop_first(), value)
    }
}

impl VarMeta {
    /// The value label of `value`, when the metadata has value labels and one
    /// of them is for `value`.
    pub fn value_label(&self, value: &str) -> (r: Option<String>)
        ensures
            opt_text(r) == (match self@.value_labels {
                Some(l) => label_for(l, value@),
                None => None,
            }),
    {
        match &self.value_labels {
            None => None,
            Some(v) => {
                let ghost l = labels_view(v@);
                let mut i: usize = 0;
                assert(l.skip(0) =~= l);
                while i < v.len()
                    invariant
                        i <= v.len(),
                        l == labels_view(v@),
                        self@.value_labels == Some(l),
                        label_for(l, value@) == label_for(l.skip(i as int), value@),
                    decreases v.len() - i,
                {
                    assert(l.skip(i as int)[0] == l[i as int]);
                    assert(l.skip(i as int).drop_first() =~= l.skip(i + 1));
                    assert(l[i as int] == (v@[i as int].0@, v@[i as int].1@));
                    if compare_text(v[i].0.as_str(), value) == 0 {
                        return Some(v[i].1.clone());
                    }
                    i = i + 1;
                }
                None
            },
        }
    }
}

fn clone_text(o: &Option<String>) -> (r: Option<String>)
    ensures
        opt_text(r) == opt_text(*o),
{
    match o {
        Some(s) => Some(s.clone()),
        None => None,
    }
}

fn clone_labels(v: &Vec<(String, String)>) -> (r: Vec<(String, String)>)
    ensures
        labels_view(r@) == labels_view(v@),
{
    let mut r: Vec<(String, String)> = Vec::new();
    let mut i: usize = 0;
    while i < v.len()
        invariant
            i <= v.len(),
            r.len() == i,
            forall|k: int| 0 <= k < i ==> (#[trigger] r@[k]).0@ == v@[k].0@ && r@[k].1@ == v@[k].1@,
        decreases v.len() - i,
    {
        r.push((v[i].0.clone(), v[i].1.clone()));
        i = i + 1;
    }
    assert(labels_view(r@) =~= labels_view(v@));
    r
}

impl VarMeta {
    /// A copy with the same field values.
    pub fn copy(&self) -> (r: VarMeta)
        ensures
            r@ == self@,
    {
        VarMeta {
            label: clone_text(&self.label),
            var_type: clone_text(&self.var_type),
            width: self.width,
            decimals: self.decimals,
            columns: self.columns,
            align: clone_text(&self.align),
            value_labels: match &self.value_labels {
                Some(v) => Some(clone_labels(v)),
                None => None,
            },
            measure_level: clone_text(&self.measure_level),
            role: clone_text(&self.role),
        }
    }
}

/// The number of a JSON value as a `u64`, if any.
pub open spec fn json_u64(j: Option<Json>) -> Option<u64> {
    match j {
        Some(Json::Number(n)) => n.as_u64,
        _ => None,
    }
}

/// The string-valued entries of a JSON object, in order.
pub open spec fn text_entries(o: Seq<(String, Json)>) -> Seq<(Seq<char>, Seq<char>)>
    decreases o.len(),
{
    if o.len() == 0 {
        Seq::empty()
    } else {
        let rest = text_entries(o.drop_last());
        match o.last().1 {
            Json::Text(s) => rest.push((o.last().0@, s@)),
            _ => rest,
        }
    }
}

pub open spec fn patch_text(old: Option<Seq<char>>, meta: Json, key: Seq<char>) -> Option<Seq<char>> {
    match json_text(json_get(meta, key)) {
        Some(s) => Some(s),
        None => old,
    }
}

/// A count from a patch: a `u64` number, cut to its low 32 bits (as `as u32`).
pub open spec fn patch_count(old: Option<u32>, meta: Json, key: Seq<char>) -> Option<u32> {
    match json_u64(json_get(meta, key)) {
        Some(v) => Some(v as u32),
        None => old,
    }
}

/// The metadata after a patch from the user interface: each field present in
/// the patch with the right JSON type replaces the old value.
pub open spec fn patched(m: VarMetaView, meta: Json) -> VarMetaView {
    VarMetaView {
        label: patch_text(m.label, meta, "label"@),
        var_type: patch_text(m.var_type, meta, "type"@),
        width: patch_count(m.width, meta, "width"@),
        decimals: patch_count(m.decimals, meta, "decimals"@),
        columns: patch_count(m.columns, meta, "columns"@),
        align: patch_text(m.align, meta, "align"@),
        value_labels: match json_get(meta, "valueLabels"@) {
            Some(Json::Object(o)) => Some(text_entries(o@)),
            _ => m.value_labels,
        },
        measure_level: patch_text(m.measure_level, meta, "measureLevel"@),
        role: patch_text(m.role, meta, "role"@),
    }
}

fn patch_text_field(field: &mut Option<String>, meta: &Json, key: &str)
    ensures
        opt_text(*final(field)) == patch_text(opt_text(*old(field)), *meta, key@),
{
    match meta.get(key) {
        Some(v) => match v.as_text() {
            Some(s) => {
                *field = Some(s.clone());
            },
            None => {},
        },
        None => {},
    }
}

fn patch_count_field(field: &mut Option<u32>, meta: &Json, key: &str)
    ensures
        *final(field) == patch_count(*old(field), *meta, key@),
{
    match meta.get(key) {
        Some(v) => match v.as_u64() {
            Some(n) => {
                *field = Some(#[verifier::truncate] (n as u32));
            },
            None => {},
        },
        None => {},
    }
}

impl VarMeta {
    /// Applies a metadata patch sent by the user interface.
    pub fn apply_patch(&mut self, meta: &Json)
        ensures
            final(self)@ == patched(old(self)@, *meta),
    {
        patch_text_field(&mut self.label, meta, "label");
        patch_text_field(&mut self.var_type, meta, "type");
        patch_count_field(&mut self.width, meta, "width");
        patch_count_field(&mut self.decimals, meta, "decimals");
        patch_count_field(&mut self.columns, meta, "columns");
        patch_text_field(&mut self.align, meta, "align");
        patch_text_field(&mut self.measure_level, meta, "measureLevel");
        patch_text_field(&mut self.role, meta, "role");
        match meta.get("valueLabels") {
            Some(v) => match v.as_object() {
                Some(o) => {
                    let mut map: Vec<(String, String)> = Vec::new();
                    let mut i: usize = 0;
                    while i < o.len()
                        invariant
                            i <= o.len(),
                            labels_view(map@) == text_entries(o@.take(i as int)),
                        decreases o.len() - i,
                    {
                        assert(o@.take(i + 1).drop_last() =~= o@.take(i as int));
                        match o[i].1.as_text() {
                            Some(s) => {
                                map.push((o[i].0.clone(), s.clone()));
                                assert(labels_view(map@) =~= text_entries(o@.take(i as int)).push((o@[i as int].0@, s@)));
                            },
                            None => {},
                        }
                        i = i + 1;
                    }
                    assert(o@.take(o.len() as int) =~= o@);
                    self.value_labels = Some(map);
                },
                None => {},
            },
            None => {},
        }
    }
}

/// Patching twice with the same patch is patching once.
pub proof fn lemma_patch_idempotent(m: VarMetaView, meta: Json)
    ensures
        patched(patched(m, meta), meta) == patched(m, meta),
{
}

/// A patch with none of the metadata fields changes nothing.
pub proof fn lemma_patch_without_fields(m: VarMetaView, meta: Json)
    requires
        json_get(meta, "label"@) is None,
        json_get(meta, "type"@) is None,
        json_get(meta, "width"@) is None,
        json_get(meta, "decimals"@) is None,
        json_get(meta, "columns"@) is None,
        json_get(meta, "align"@) is None,
        json_get(meta, "valueLabels"@) is None,
        json_get(meta, "measureLevel"@) is None,
        json_get(meta, "role"@) is None,
    ensures
        patched(m, meta) == m,
{
}


/// A patch sets each field from the entry under its own key ("label", "type",
/// "width", "decimals", "columns", "align", "valueLabels", "measureLevel",
/// "role") when that entry has the field's JSON type: a string; a
/// non-negative integer, kept to its low 32 bits, for the counts; an object,
/// whose string entries become the value labels. Otherwise the field keeps
/// its value; no key changes another field.
pub proof fn lemma_patch_fields(m: VarMetaView, meta: Json)
    ensures
        patched(m, meta).label == (match json_get(meta, "label"@) {
            Some(Json::Text(s)) => Some(s@),
            _ => m.label,
        }),
        patched(m, meta).var_type == (match json_get(meta, "type"@) {
            Some(Json::Text(s)) => Some(s@),
            _ => m.var_type,
        }),
        patched(m, meta).width == (match json_get(meta, "width"@) {
            Some(Json::Number(n)) => match n.as_u64 {
                Some(v) => Some(v as u32),
                None => m.width,
            },
            _ => m.width,
        }),
        patched(m, meta).decimals == (match json_get(meta, "decimals"@) {
            Some(Json::Number(n)) => match n.as_u64 {
                Some(v) => Some(v as u32),
                None => m.decimals,
            },
            _ => m.decimals,
        }),
        patched(m, meta).columns == (match json_get(meta, "columns"@) {
            Some(Json::Number(n)) => match n.as_u64 {
                Some(v) => Some(v as u32),
                None => m.columns,
            },
            _ => m.columns,
        }),
        patched(m, meta).align == (match json_get(meta, "align"@) {
            Some(Json::Text(s)) => Some(s@),
            _ => m.align,
        }),
        patched(m, meta).value_labels == (match json_get(meta, "valueLabels"@) {
            Some(Json::Object(o)) => Some(text_entries(o@)),
            _ => m.value_labels,
        }),
        patched(m, meta).measure_level == (match json_get(meta, "measureLevel"@) {
            Some(Json::Text(s)) => Some(s@),
            _ => m.measure_level,
        }),
        patched(m, meta).role == (match json_get(meta, "role"@) {
            Some(Json::Text(s)) => Some(s@),
            _ => m.role,
        }),
{
}

/// The value labels of an object are its string-valued entries, in order:
/// each adds its key and its text, and entries of other types are skipped.
pub proof fn lemma_text_entries(o: Seq<(String, Json)>, k: String, v: Json)
    ensures
        text_entries(Seq::<(String, Json)>::empty()) == Seq::<(Seq<char>, Seq<char>)>::empty(),
        v matches Json::Text(t) ==> text_entries(o.push((k, v))) == text_entries(o).push((k@, t@)),
        !(v is Text) ==> text_entries(o.push((k, v))) == text_entries(o),
{
    assert(o.push((k, v)).drop_last() =~= o);
}


/// A value's label is the label of the first entry for that value, and there
/// is none when no entry is for it.
pub proof fn lemma_label_for_first(labels: Seq<(Seq<char>, Seq<char>)>, value: Seq<char>)
    ensures
        label_for(labels, value) is None <==> forall|i: int| 0 <= i < labels.len() ==> (#[trigger] labels[i]).0 != value,
        label_for(labels, value) is Some ==> exists|i: int| 0 <= i < labels.len() && (#[trigger] labels[i]).0 == value
            && label_for(labels, value) == Some(labels[i].1)
            && forall|j: int| 0 <= j < i ==> (#[trigger] labels[j]).0 != value,
    decreases labels.len(),
{
    if labels.len() > 0 {
        let rest = labels.drop_first();
        lemma_label_for_first(rest, value);
        assert forall|i: int| 0 <= i < rest.len() implies rest[i] == labels[i + 1] by {}
        if labels[0].0 == value {
            assert(labels[0].0 == value);
        } else if label_for(rest, value) is Some {
            let i = choose|i: int| 0 <= i < rest.len() && (#[trigger] rest[i]).0 == value
                && label_for(rest, value) == Some(rest[i].1)
                && forall|j: int| 0 <= j < i ==> (#[trigger] rest[j]).0 != value;
            assert(labels[i + 1] == rest[i]);
            assert forall|j: int| 0 <= j < i + 1 implies (#[trigger] labels[j]).0 != value by {
                if j > 0 {
                    assert(labels[j] == rest[j - 1]);
                }
            }
        } else {
            assert forall|i: int| 0 <= i < labels.len() implies (#[trigger] labels[i]).0 != value by {
                if i > 0 {
                    assert(labels[i] == rest[i - 1]);
                }
            }
        }
    }
}

} // verus!
