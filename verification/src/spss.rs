//! Metadata of SPSS system files: the overrides they carry for each variable.
use vstd::prelude::*;
use vstd::string::*;
use crate::meta::{VarMeta, VarMetaView, labels_view};

verus! {

/// The measurement level recorded in an SPSS file.
#[derive(Debug, Clone, Copy, PartialEq, Eq, Structural)]
pub enum Measure {
    Nominal,
    Ordinal,
    Scale,
    Unknown,
}

/// The column alignment recorded in an SPSS file.
#[derive(Debug, Clone, Copy, PartialEq, Eq, Structural)]
pub enum Alignment {
    Left,
    Right,
    Center,
    Unknown,
}

pub open spec fn spec_measure_str(m: Measure) -> Option<Seq<char>> {
    match m {
        Measure::Nominal => Some("nominal"@),
        Measure::Ordinal => Some("ordinal"@),
        Measure::Scale => Some("scale"@),
        Measure::Unknown => None,
    }
}

pub open spec fn spec_align_str(a: Alignment) -> Option<Seq<char>> {
    match a {
        Alignment::Left => Some("left"@),
        Alignment::Right => Some("right"@),
        Alignment::Center => Some("center"@),
        Alignment::Unknown => None,
    }
}

/// The measurement level's name; none for an unknown level, so that it is
/// inferred instead.
pub fn measure_str(m: &Measure) -> (r: Option<&'static str>)
    ensures
        match r {
            Some(s) => spec_measure_str(*m) == Some(s@),
            None => spec_measure_str(*m) is None,
        },
{
    match m {
        Measure::Nominal => Some("nominal"),
        Measure::Ordinal => Some("ordinal"),
        Measure::Scale => Some("scale"),
        Measure::Unknown => None,
    }
}

/// The alignment's name; none when unknown.
pub fn align_str(a: &Alignment) -> (r: Option<&'static str>)
    ensures
        match r {
            Some(s) => spec_align_str(*a) == Some(s@),
            None => spec_align_str(*a) is None,
        },
{
    match a {
        Alignment::Left => Some("left"),
        Alignment::Right => Some("right"),
        Alignment::Center => Some("center"),
        Alignment::Unknown => None,
    }
}

/// What an SPSS file records about one variable. Value-label keys are the
/// values as the grid shows them.
#[derive(Debug)]
pub struct SavVariable {
    pub name: String,
    pub label: Option<String>,
    pub value_labels: Option<Vec<(String, String)>>,
    pub measure: Option<Measure>,
    pub alignment: Option<Alignment>,
    pub display_width: Option<u32>,
}

pub open spec fn known<T>(o: Option<T>, f: spec_fn(T) -> Option<Seq<char>>) -> Option<Seq<char>> {
    match o {
        Some(x) => f(x),
        None => None,
    }
}

/// The overrides an SPSS variable gives: its label when not empty, its value
/// labels when there are any, its known measure and alignment, and its display
/// width as the column width.
pub open spec fn spec_sav_meta(v: SavVariable) -> VarMetaView {
    VarMetaView {
        label: match v.label {
            Some(l) => if l@.len() > 0 { Some(l@) } else { None },
            None => None,
        },
        var_type: None,
        width: None,
        decimals: None,
        columns: v.display_width,
        align: known(v.alignment, |a: Alignment| spec_align_str(a)),
        value_labels: match v.value_labels {
            Some(m) => if m@.len() > 0 { Some(labels_view(m@)) } else { None },
            None => None,
        },
        measure_level: known(v.measure, |m: Measure| spec_measure_str(m)),
        role: None,
    }
}

/// The metadata entries of the variables of an SPSS file, one per variable, in
/// order.
pub fn sav_var_meta(vars: &Vec<SavVariable>) -> (r: Vec<(String, VarMeta)>)
    ensures
        r.len() == vars.len(),
        forall|i: int| 0 <= i < vars.len() ==> (#[trigger] r@[i]).0@ == vars@[i].name@ && r@[i].1@ == spec_sav_meta(vars@[i]),
{
    let mut r: Vec<(String, VarMeta)> = Vec::new();
    let mut i: usize = 0;
    while i < vars.len()
        invariant
            i <= vars.len(),
            r.len() == i,
            forall|k: int| 0 <= k < i ==> (#[trigger] r@[k]).0@ == vars@[k].name@ && r@[k].1@ == spec_sav_meta(vars@[k]),
        decreases vars.len() - i,
    {
        let v = &vars[i];
        let mut m = VarMeta::default();
        match &v.label {
            Some(l) => {
                if !l.as_str().is_empty() {
                    m.label = Some(l.clone());
                }
            },
            None => {},
        }
        match &v.value_labels {
            Some(labels) => {
                if labels.len() > 0 {
                    let mut copy: Vec<(String, String)> = Vec::new();
                    let mut k: usize = 0;
                    while k < labels.len()
                        invariant
                            k <= labels.len(),
                            copy.len() == k,
                            forall|j: int| 0 <= j < k ==> (#[trigger] copy@[j]).0@ == labels@[j].0@ && copy@[j].1@ == labels@[j].1@,
                        decreases labels.len() - k,
                    {
                        copy.push((labels[k].0.clone(), labels[k].1.clone()));
                        k = k + 1;
                    }
                    assert(labels_view(copy@) =~= labels_view(labels@));
                    m.value_labels = Some(copy);
                }
            },
            None => {},
        }
        match &v.measure {
            Some(ms) => match measure_str(ms) {
                Some(s) => {
                    m.measure_level = Some(String::from_str(s));
                },
                None => {},
            },
            None => {},
        }
        match &v.alignment {
            Some(a) => match align_str(a) {
                Some(s) => {
                    m.align = Some(String::from_str(s));
                },
                None => {},
            },
            None => {},
        }
        m.columns = v.display_width;
        r.push((v.name.clone(), m));
        i = i + 1;
    }
    r
}


/// What an SPSS variable restores: its label unless empty; its value labels,
/// every pair in order, unless there are none; its measurement level and
/// alignment by name unless unknown; its display width as the column width.
/// It sets no type, width, decimals or role.
pub proof fn lemma_sav_meta_restores(v: SavVariable)
    ensures
        match v.label {
            Some(l) => spec_sav_meta(v).label == (if l@.len() > 0 { Some(l@) } else { None }),
            None => spec_sav_meta(v).label is None,
        },
        match v.value_labels {
            Some(m) => if m@.len() > 0 {
                spec_sav_meta(v).value_labels matches Some(l) && l.len() == m@.len()
                    && forall|k: int| 0 <= k < l.len() ==> #[trigger] l[k] == (m@[k].0@, m@[k].1@)
            } else {
                spec_sav_meta(v).value_labels is None
            },
            None => spec_sav_meta(v).value_labels is None,
        },
        spec_sav_meta(v).measure_level == (match v.measure {
            Some(Measure::Nominal) => Some("nominal"@),
            Some(Measure::Ordinal) => Some("ordinal"@),
            Some(Measure::Scale) => Some("scale"@),
            _ => None,
        }),
        spec_sav_meta(v).align == (match v.alignment {
            Some(Alignment::Left) => Some("left"@),
            Some(Alignment::Right) => Some("right"@),
            Some(Alignment::Center) => Some("center"@),
            _ => None,
        }),
        spec_sav_meta(v).columns == v.display_width,
        spec_sav_meta(v).var_type is None && spec_sav_meta(v).width is None,
        spec_sav_meta(v).decimals is None && spec_sav_meta(v).role is None,
{
}

} // verus!
