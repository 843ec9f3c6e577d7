//! The description of each column shown in the Variable View: the user's
//! overrides where set, else values inferred from the column.
use vstd::prelude::*;
use vstd::string::*;
use crate::meta::{VarMeta, VarMetaView, opt_text, labels_view};
use crate::text::compare_text;

verus! {

/// What a column's data type says for the logic that reads it.
#[derive(Debug, Clone, Copy, PartialEq, Eq, Structural)]
pub enum ColumnKind {
    /// Dates and times.
    Temporal,
    /// Integers of any width.
    Integer,
    /// 32- or 64-bit floating point.
    Float,
    /// Other numbers (decimals).
    OtherNumeric,
    /// Anything else: text, booleans, ...
    Other,
}

/// The facts about a column that the inference reads. The samples are the
/// first rows of the column (at most 10,000).
#[derive(Debug)]
pub struct ColumnInfo {
    pub name: String,
    pub kind: ColumnKind,
    /// Number of distinct values in the sample, when it could be counted.
    pub sample_distinct: Option<usize>,
    /// For a 64-bit float column: whether every present value of the sample is
    /// a whole number. `None` for other columns.
    pub sample_integral: Option<bool>,
}

pub open spec fn is_numeric(k: ColumnKind) -> bool {
    k is Integer || k is Float || k is OtherNumeric
}

/// The type shown for a column: "date", "numeric" or "string".
pub open spec fn spec_series_type(k: ColumnKind) -> Seq<char> {
    if k is Temporal {
        "date"@
    } else if is_numeric(k) {
        "numeric"@
    } else {
        "string"@
    }
}

/// The measurement level inferred from a column: text is nominal; a number with
/// at most 10 distinct sampled values is ordinal; other numbers are scale.
pub open spec fn spec_infer_measure(c: ColumnInfo) -> Seq<char> {
    if !is_numeric(c.kind) {
        "nominal"@
    } else {
        match c.sample_distinct {
            Some(n) => if n <= 10 { "ordinal"@ } else { "scale"@ },
            None => "scale"@,
        }
    }
}

/// The decimals inferred from a column: none for text and integers, none for a
/// float column whose sample is all whole numbers, else two.
pub open spec fn spec_infer_decimals(c: ColumnInfo) -> u32 {
    if !is_numeric(c.kind) {
        0
    } else if c.kind is Integer {
        0
    } else {
        match c.sample_integral {
            Some(true) => 0,
            _ => 2,
        }
    }
}

pub fn series_type(k: &ColumnKind) -> (s: &'static str)
    ensures
        s@ == spec_series_type(*k),
{
    match k {
        ColumnKind::Temporal => "date",
        ColumnKind::Integer | ColumnKind::Float | ColumnKind::OtherNumeric => "numeric",
        ColumnKind::Other => "string",
    }
}

pub fn infer_measure(c: &ColumnInfo) -> (s: &'static str)
    ensures
        s@ == spec_infer_measure(*c),
{
    match c.kind {
        ColumnKind::Integer | ColumnKind::Float | ColumnKind::OtherNumeric => match c.sample_distinct {
            Some(n) => if n <= 10 { "ordinal" } else { "scale" },
            None => "scale",
        },
        _ => "nominal",
    }
}

pub fn infer_decimals(c: &ColumnInfo) -> (d: u32)
    ensures
        d == spec_infer_decimals(*c),
{
    match c.kind {
        ColumnKind::Integer => 0,
        ColumnKind::Float | ColumnKind::OtherNumeric => match c.sample_integral {
            Some(true) => 0,
            _ => 2,
        },
        _ => 0,
    }
}

/// A variable as shown in the Variable View.
#[derive(Debug)]
pub struct Variable {
    pub name: String,
    pub label: String,
    pub var_type: String,
    pub width: u32,
    pub decimals: u32,
    pub columns: u32,
    pub align: String,
    pub value_labels: Vec<(String, String)>,
    pub measure_level: String,
    pub role: String,
}

pub struct VariableView {
    pub name: Seq<char>,
    pub label: Seq<char>,
    pub var_type: Seq<char>,
    pub width: u32,
    pub decimals: u32,
    pub columns: u32,
    pub align: Seq<char>,
    pub value_labels: Seq<(Seq<char>, Seq<char>)>,
    pub measure_level: Seq<char>,
    pub role: Seq<char>,
}

impl View for Variable {
    type V = VariableView;

    open spec fn view(&self) -> VariableView {
        VariableView {
            name: self.name@,
            label: self.label@,
            var_type: self.var_type@,
            width: self.width,
            decimals: self.decimals,
            columns: self.columns,
            align: self.align@,
            value_labels: labels_view(self.value_labels@),
            measure_level: self.measure_level@,
            role: self.role@,
        }
    }
}

pub open spec fn or_else<T>(o: Option<T>, d: T) -> T {
    match o {
        Some(v) => v,
        None => d,
    }
}

/// The variable for a column: each override where the metadata sets one, else
/// the inferred or default value (label empty, width and columns 8, left
/// alignment, no value labels, role "input"). Decimals are inferred only for a
/// numeric type.
pub open spec fn spec_variable(c: ColumnInfo, m: Option<VarMetaView>) -> VariableView {
    let mm = or_else(m, crate::meta::no_overrides());
    let var_type = or_else(mm.var_type, spec_series_type(c.kind));
    VariableView {
        name: c.name@,
        label: or_else(mm.label, Seq::empty()),
        var_type,
        width: or_else(mm.width, 8),
        decimals: or_else(
            mm.decimals,
            if var_type == "numeric"@ { spec_infer_decimals(c) } else { 0 },
        ),
        columns: or_else(mm.columns, 8),
        align: or_else(mm.align, "left"@),
        value_labels: or_else(mm.value_labels, Seq::empty()),
        measure_level: or_else(mm.measure_level, spec_infer_measure(c)),
        role: or_else(mm.role, "input"@),
    }
}

pub open spec fn meta_view(m: Option<&VarMeta>) -> Option<VarMetaView> {
    match m {
        Some(x) => Some(x@),
        None => None,
    }
}

fn text_or(o: Option<&String>, d: &str) -> (s: String)
    ensures
        s@ == (match o {
            Some(x) => x@,
            None => d@,
        }),
{
    match o {
        Some(x) => x.clone(),
        None => String::from_str(d),
    }
}

/// Describes a column, from its inferred facts and the user's overrides.
pub fn describe_variable(c: &ColumnInfo, m: Option<&VarMeta>) -> (v: Variable)
    ensures
        v@ == spec_variable(*c, meta_view(m)),
{
    let var_type = match m {
        Some(x) => text_or(x.var_type.as_ref(), series_type(&c.kind)),
        None => String::from_str(series_type(&c.kind)),
    };
    let decimals = match m {
        Some(x) if x.decimals.is_some() => x.decimals.unwrap(),
        _ => if compare_text(var_type.as_str(), "numeric") == 0 { infer_decimals(c) } else { 0 },
    };
    let label = match m {
        Some(x) => match &x.label {
            Some(s) => s.clone(),
            None => String::new(),
        },
        None => String::new(),
    };
    let width = match m {
        Some(x) => match x.width { Some(w) => w, None => 8 },
        None => 8,
    };
    let columns = match m {
        Some(x) => match x.columns { Some(w) => w, None => 8 },
        None => 8,
    };
    let align = match m {
        Some(x) => text_or(x.align.as_ref(), "left"),
        None => String::from_str("left"),
    };
    let value_labels = match m {
        Some(x) => match &x.value_labels {
            Some(v) => {
                let mut r: Vec<(String, String)> = Vec::new();
                let mut i: usize = 0;
                while i < v.len()
                    invariant
                        i <= v.len(),
                        r.len() == i,
                        forall|k: int| 0 <= k < i ==> (#[trigger] r@[k]).0@ == v@[k].0@ && r@[k].1@ == v@[k].1@,
                    decreases v.len() - i,
                {
                    r.push((v[i].0.clone(), v[i].1.clone()));
                    i = i + 1;
                }
                assert(labels_view(r@) =~= labels_view(v@));
                r
            },
            None => Vec::new(),
        },
        None => Vec::new(),
    };
    let measure_level = match m {
        Some(x) => text_or(x.measure_level.as_ref(), infer_measure(c)),
        None => String::from_str(infer_measure(c)),
    };
    let role = match m {
        Some(x) => text_or(x.role.as_ref(), "input"),
        None => String::from_str("input"),
    };
    let v = Variable {
        name: c.name.clone(),
        label,
        var_type,
        width,
        decimals,
        columns,
        align,
        value_labels,
        measure_level,
        role,
    };
    assert(labels_view(Seq::<(String, String)>::empty()) =~= Seq::empty());
    v
}


/// A column described without overrides: dates are "date", every number
/// (integers included) is "numeric", anything else is "string"; the label is
/// empty, width and columns are 8, the alignment is "left", the role "input",
/// there are no value labels; integers and text take no decimals, other
/// numbers two unless every sampled value is whole; text is nominal, a number
/// with at most ten distinct sampled values ordinal, any other number scale.
pub proof fn lemma_described_without_overrides(c: ColumnInfo)
    ensures
        spec_variable(c, None).name == c.name@,
        spec_variable(c, None).var_type == (if c.kind is Temporal {
            "date"@
        } else if c.kind is Integer || c.kind is Float || c.kind is OtherNumeric {
            "numeric"@
        } else {
            "string"@
        }),
        spec_variable(c, None).label == Seq::<char>::empty(),
        spec_variable(c, None).width == 8,
        spec_variable(c, None).columns == 8,
        spec_variable(c, None).align == "left"@,
        spec_variable(c, None).role == "input"@,
        spec_variable(c, None).value_labels == Seq::<(Seq<char>, Seq<char>)>::empty(),
        spec_variable(c, None).decimals == (if (c.kind is Float || c.kind is OtherNumeric)
            && c.sample_integral != Some(true) { 2u32 } else { 0u32 }),
        spec_variable(c, None).measure_level == (if !(c.kind is Integer || c.kind is Float || c.kind is OtherNumeric) {
            "nominal"@
        } else if c.sample_distinct matches Some(n) && n <= 10 {
            "ordinal"@
        } else {
            "scale"@
        }),
{
    reveal_strlit("numeric");
    reveal_strlit("date");
    reveal_strlit("string");
}

/// An override, where set, is what the Variable View shows; decimals are
/// inferred only while the shown type is "numeric".
pub proof fn lemma_overrides_win(c: ColumnInfo, m: VarMetaView)
    ensures
        m.label matches Some(l) ==> spec_variable(c, Some(m)).label == l,
        m.var_type matches Some(t) ==> spec_variable(c, Some(m)).var_type == t,
        m.width matches Some(w) ==> spec_variable(c, Some(m)).width == w,
        m.decimals matches Some(d) ==> spec_variable(c, Some(m)).decimals == d,
        m.columns matches Some(w) ==> spec_variable(c, Some(m)).columns == w,
        m.align matches Some(a) ==> spec_variable(c, Some(m)).align == a,
        m.value_labels matches Some(v) ==> spec_variable(c, Some(m)).value_labels == v,
        m.measure_level matches Some(l) ==> spec_variable(c, Some(m)).measure_level == l,
        m.role matches Some(r) ==> spec_variable(c, Some(m)).role == r,
        m.decimals is None && spec_variable(c, Some(m)).var_type != "numeric"@ ==> spec_variable(c, Some(m)).decimals == 0,
{
}

} // verus!
