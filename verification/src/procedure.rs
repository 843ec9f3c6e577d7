//! Choosing a statistical procedure by name and reading its parameters.
use vstd::prelude::*;
use vstd::string::*;
use crate::json::{Json, json_get, json_text};
use crate::params::{texts_in, pair_of, pairs_of};
use crate::params::{
    p_str, p_strs, p_str_opt, p_strs_opt, pairs, spec_p_str, spec_p_strs, spec_p_strs_opt, spec_pairs,
    strs_view, pairs_view,
};
use crate::text::{compare_text, eq_ignore_ascii_case, ascii_ci_eq};

verus! {

/// A statistical procedure with its parameters read.
#[derive(Debug)]
pub enum Procedure {
    Descriptives { vars: Vec<String> },
    Frequencies { vars: Vec<String> },
    /// The test value is a number, read by the caller.
    TTestOneSample { vars: Vec<String> },
    TTestIndependent { vars: Vec<String>, group: String, group1: String, group2: String },
    TTestPaired { pairs: Vec<(String, String)> },
    AnovaOneway { vars: Vec<String>, factor: String },
    Correlate { vars: Vec<String>, spearman: bool },
    RegressionLinear { dependent: String, independents: Vec<String> },
    MannWhitney { vars: Vec<String>, group: String, group1: String, group2: String },
    Wilcoxon { pairs: Vec<(String, String)> },
    KruskalWallis { vars: Vec<String>, factor: String },
    ChiSquare { vars: Vec<String> },
    /// A two-way table of a row and a column variable.
    Crosstabs { row: String, column: String },
    /// A univariate general linear model: factors and optional covariates.
    GlmUnivariate { dependent: String, factors: Vec<String>, covariates: Vec<String> },
    /// A one-way multivariate analysis of variance.
    GlmMultivariate { dependents: Vec<String>, factor: String },
    /// A repeated-measures analysis: one variable per level of the within factor.
    GlmRepeated { vars: Vec<String> },
    /// A linear mixed model with a random intercept per group and optional fixed effects.
    MixedModel { dependent: String, group: String, fixed: Vec<String> },
    /// A factor analysis of the variables.
    Factor { vars: Vec<String> },
    /// A reliability analysis of the variables as items of one scale.
    Reliability { vars: Vec<String> },
    /// Kaplan-Meier survival curves, by the levels of an optional factor.
    SurvivalKm { time: String, status: String, factor: Option<String> },
    /// A Cox proportional-hazards regression.
    CoxRegression { time: String, status: String, covariates: Vec<String> },
}

/// A procedure by the values of its parameters.
pub enum ProcedureView {
    Descriptives(Seq<Seq<char>>),
    Frequencies(Seq<Seq<char>>),
    TTestOneSample(Seq<Seq<char>>),
    TTestIndependent(Seq<Seq<char>>, Seq<char>, Seq<char>, Seq<char>),
    TTestPaired(Seq<(Seq<char>, Seq<char>)>),
    AnovaOneway(Seq<Seq<char>>, Seq<char>),
    Correlate(Seq<Seq<char>>, bool),
    RegressionLinear(Seq<char>, Seq<Seq<char>>),
    MannWhitney(Seq<Seq<char>>, Seq<char>, Seq<char>, Seq<char>),
    Wilcoxon(Seq<(Seq<char>, Seq<char>)>),
    KruskalWallis(Seq<Seq<char>>, Seq<char>),
    ChiSquare(Seq<Seq<char>>),
    Crosstabs(Seq<char>, Seq<char>),
    GlmUnivariate(Seq<char>, Seq<Seq<char>>, Seq<Seq<char>>),
    GlmMultivariate(Seq<Seq<char>>, Seq<char>),
    GlmRepeated(Seq<Seq<char>>),
    MixedModel(Seq<char>, Seq<char>, Seq<Seq<char>>),
    Factor(Seq<Seq<char>>),
    Reliability(Seq<Seq<char>>),
    SurvivalKm(Seq<char>, Seq<char>, Option<Seq<char>>),
    CoxRegression(Seq<char>, Seq<char>, Seq<Seq<char>>),
}

impl View for Procedure {
    type V = ProcedureView;

    open spec fn view(&self) -> ProcedureView {
        match self {
            Procedure::Descriptives { vars } => ProcedureView::Descriptives(strs_view(vars@)),
            Procedure::Frequencies { vars } => ProcedureView::Frequencies(strs_view(vars@)),
            Procedure::TTestOneSample { vars } => ProcedureView::TTestOneSample(strs_view(vars@)),
            Procedure::TTestIndependent { vars, group, group1, group2 } => ProcedureView::TTestIndependent(
                strs_view(vars@),
                group@,
                group1@,
                group2@,
            ),
            Procedure::TTestPaired { pairs } => ProcedureView::TTestPaired(pairs_view(pairs@)),
            Procedure::AnovaOneway { vars, factor } => ProcedureView::AnovaOneway(strs_view(vars@), factor@),
            Procedure::Correlate { vars, spearman } => ProcedureView::Correlate(strs_view(vars@), *spearman),
            Procedure::RegressionLinear { dependent, independents } => ProcedureView::RegressionLinear(
                dependent@,
                strs_view(independents@),
            ),
            Procedure::MannWhitney { vars, group, group1, group2 } => ProcedureView::MannWhitney(
                strs_view(vars@),
                group@,
                group1@,
                group2@,
            ),
            Procedure::Wilcoxon { pairs } => ProcedureView::Wilcoxon(pairs_view(pairs@)),
            Procedure::KruskalWallis { vars, factor } => ProcedureView::KruskalWallis(strs_view(vars@), factor@),
            Procedure::ChiSquare { vars } => ProcedureView::ChiSquare(strs_view(vars@)),
            Procedure::Crosstabs { row, column } => ProcedureView::Crosstabs(row@, column@),
            Procedure::GlmUnivariate { dependent, factors, covariates } => ProcedureView::GlmUnivariate(
                dependent@,
                strs_view(factors@),
                strs_view(covariates@),
            ),
            Procedure::GlmMultivariate { dependents, factor } => ProcedureView::GlmMultivariate(
                strs_view(dependents@),
                factor@,
            ),
            Procedure::GlmRepeated { vars } => ProcedureView::GlmRepeated(strs_view(vars@)),
            Procedure::MixedModel { dependent, group, fixed } => ProcedureView::MixedModel(
                dependent@,
                group@,
                strs_view(fixed@),
            ),
            Procedure::Factor { vars } => ProcedureView::Factor(strs_view(vars@)),
            Procedure::Reliability { vars } => ProcedureView::Reliability(strs_view(vars@)),
            Procedure::SurvivalKm { time, status, factor } => ProcedureView::SurvivalKm(
                time@,
                status@,
                match factor {
                    Some(f) => Some(f@),
                    None => None,
                },
            ),
            Procedure::CoxRegression { time, status, covariates } => ProcedureView::CoxRegression(
                time@,
                status@,
                strs_view(covariates@),
            ),
        }
    }
}

/// Whether the correlation is Spearman's: the `method` parameter, "pearson"
/// when absent, matched against "spearman" without ASCII case.
pub open spec fn spec_spearman(params: Json) -> bool {
    match json_text(json_get(params, "method"@)) {
        Some(m) => ascii_ci_eq(m, "spearman"@),
        None => false,
    }
}

/// Names and parameters read with a grouping variable and two groups.
pub open spec fn spec_grouped(params: Json) -> Result<(Seq<Seq<char>>, Seq<char>, Seq<char>, Seq<char>), Seq<char>> {
    match spec_p_strs(params, "vars"@) {
        Err(e) => Err(e),
        Ok(v) => match spec_p_str(params, "group"@) {
            Err(e) => Err(e),
            Ok(g) => match spec_p_str(params, "group1"@) {
                Err(e) => Err(e),
                Ok(g1) => match spec_p_str(params, "group2"@) {
                    Err(e) => Err(e),
                    Ok(g2) => Ok((v, g, g1, g2)),
                },
            },
        },
    }
}

/// Variables and a factor.
pub open spec fn spec_factored(params: Json) -> Result<(Seq<Seq<char>>, Seq<char>), Seq<char>> {
    match spec_p_strs(params, "vars"@) {
        Err(e) => Err(e),
        Ok(v) => match spec_p_str(params, "factor"@) {
            Err(e) => Err(e),
            Ok(f) => Ok((v, f)),
        },
    }
}

/// A required string and a required list of names.
pub open spec fn spec_str_strs(params: Json, k1: Seq<char>, k2: Seq<char>) -> Result<(Seq<char>, Seq<Seq<char>>), Seq<char>> {
    match spec_p_str(params, k1) {
        Err(e) => Err(e),
        Ok(a) => match spec_p_strs(params, k2) {
            Err(e) => Err(e),
            Ok(b) => Ok((a, b)),
        },
    }
}

/// Two required strings.
pub open spec fn spec_two_strs(params: Json, k1: Seq<char>, k2: Seq<char>) -> Result<(Seq<char>, Seq<char>), Seq<char>> {
    match spec_p_str(params, k1) {
        Err(e) => Err(e),
        Ok(a) => match spec_p_str(params, k2) {
            Err(e) => Err(e),
            Ok(b) => Ok((a, b)),
        },
    }
}

/// "Unknown procedure: <name>"
pub open spec fn unknown_procedure(name: Seq<char>) -> Seq<char> {
    "Unknown procedure: "@ + name
}

/// The procedure that `name` and `params` ask for, or the error the user is shown.
pub open spec fn spec_procedure(has_data: bool, name: Seq<char>, params: Json) -> Result<ProcedureView, Seq<char>> {
    if !has_data {
        Err("No dataset loaded"@)
    } else if name == "descriptives"@ {
        match spec_p_strs(params, "vars"@) { Ok(v) => Ok(ProcedureView::Descriptives(v)), Err(e) => Err(e) }
    } else if name == "frequencies"@ {
        match spec_p_strs(params, "vars"@) { Ok(v) => Ok(ProcedureView::Frequencies(v)), Err(e) => Err(e) }
    } else if name == "ttest_one_sample"@ {
        match spec_p_strs(params, "vars"@) { Ok(v) => Ok(ProcedureView::TTestOneSample(v)), Err(e) => Err(e) }
    } else if name == "ttest_independent"@ {
        match spec_grouped(params) { Ok(t) => Ok(ProcedureView::TTestIndependent(t.0, t.1, t.2, t.3)), Err(e) => Err(e) }
    } else if name == "ttest_paired"@ {
        match spec_pairs(params) { Ok(p) => Ok(ProcedureView::TTestPaired(p)), Err(e) => Err(e) }
    } else if name == "anova_oneway"@ {
        match spec_factored(params) { Ok(t) => Ok(ProcedureView::AnovaOneway(t.0, t.1)), Err(e) => Err(e) }
    } else if name == "correlate"@ {
        match spec_p_strs(params, "vars"@) { Ok(v) => Ok(ProcedureView::Correlate(v, spec_spearman(params))), Err(e) => Err(e) }
    } else if name == "regression_linear"@ {
        match spec_p_str(params, "dependent"@) {
            Err(e) => Err(e),
            Ok(d) => match spec_p_strs(params, "independents"@) {
                Err(e) => Err(e),
                Ok(i) => Ok(ProcedureView::RegressionLinear(d, i)),
            },
        }
    } else if name == "mann_whitney"@ {
        match spec_grouped(params) { Ok(t) => Ok(ProcedureView::MannWhitney(t.0, t.1, t.2, t.3)), Err(e) => Err(e) }
    } else if name == "wilcoxon"@ {
        match spec_pairs(params) { Ok(p) => Ok(ProcedureView::Wilcoxon(p)), Err(e) => Err(e) }
    } else if name == "kruskal_wallis"@ {
        match spec_factored(params) { Ok(t) => Ok(ProcedureView::KruskalWallis(t.0, t.1)), Err(e) => Err(e) }
    } else if name == "chi_square"@ {
        match spec_p_strs(params, "vars"@) { Ok(v) => Ok(ProcedureView::ChiSquare(v)), Err(e) => Err(e) }
    } else if name == "crosstabs"@ {
        match spec_two_strs(params, "row"@, "column"@) { Ok(t) => Ok(ProcedureView::Crosstabs(t.0, t.1)), Err(e) => Err(e) }
    } else if name == "glm_univariate"@ {
        match spec_str_strs(params, "dependent"@, "factors"@) {
            Ok(t) => Ok(ProcedureView::GlmUnivariate(t.0, t.1, spec_p_strs_opt(params, "covariates"@))),
            Err(e) => Err(e),
        }
    } else if name == "glm_multivariate"@ {
        match spec_p_strs(params, "dependents"@) {
            Err(e) => Err(e),
            Ok(d) => match spec_p_str(params, "factor"@) {
                Err(e) => Err(e),
                Ok(f) => Ok(ProcedureView::GlmMultivariate(d, f)),
            },
        }
    } else if name == "glm_repeated"@ {
        match spec_p_strs(params, "vars"@) { Ok(v) => Ok(ProcedureView::GlmRepeated(v)), Err(e) => Err(e) }
    } else if name == "mixed_model"@ {
        match spec_two_strs(params, "dependent"@, "group"@) {
            Ok(t) => Ok(ProcedureView::MixedModel(t.0, t.1, spec_p_strs_opt(params, "fixed"@))),
            Err(e) => Err(e),
        }
    } else if name == "factor"@ {
        match spec_p_strs(params, "vars"@) { Ok(v) => Ok(ProcedureView::Factor(v)), Err(e) => Err(e) }
    } else if name == "reliability"@ {
        match spec_p_strs(params, "vars"@) { Ok(v) => Ok(ProcedureView::Reliability(v)), Err(e) => Err(e) }
    } else if name == "survival_km"@ {
        match spec_two_strs(params, "time"@, "status"@) {
            Ok(t) => Ok(ProcedureView::SurvivalKm(t.0, t.1, json_text(json_get(params, "factor"@)))),
            Err(e) => Err(e),
        }
    } else if name == "cox_regression"@ {
        match spec_two_strs(params, "time"@, "status"@) {
            Err(e) => Err(e),
            Ok(t) => match spec_p_strs(params, "covariates"@) {
                Err(e) => Err(e),
                Ok(c) => Ok(ProcedureView::CoxRegression(t.0, t.1, c)),
            },
        }
    } else {
        Err(unknown_procedure(name))
    }
}

fn read_grouped(params: &Json) -> (r: Result<(Vec<String>, String, String, String), String>)
    ensures
        r matches Ok(t) ==> spec_grouped(*params) == Ok::<_, Seq<char>>((strs_view(t.0@), t.1@, t.2@, t.3@)),
        r matches Err(e) ==> spec_grouped(*params) == Err::<(Seq<Seq<char>>, Seq<char>, Seq<char>, Seq<char>), Seq<char>>(e@),
{
    let vars = p_strs(params, "vars")?;
    let group = p_str(params, "group")?;
    let group1 = p_str(params, "group1")?;
    let group2 = p_str(params, "group2")?;
    Ok((vars, group, group1, group2))
}

fn read_factored(params: &Json) -> (r: Result<(Vec<String>, String), String>)
    ensures
        r matches Ok(t) ==> spec_factored(*params) == Ok::<_, Seq<char>>((strs_view(t.0@), t.1@)),
        r matches Err(e) ==> spec_factored(*params) == Err::<(Seq<Seq<char>>, Seq<char>), Seq<char>>(e@),
{
    let vars = p_strs(params, "vars")?;
    let factor = p_str(params, "factor")?;
    Ok((vars, factor))
}

fn is_name(name: &str, lit: &str) -> (r: bool)
    ensures
        r == (name@ == lit@),
{
    compare_text(name, lit) == 0
}

/// Chooses the procedure named `name` and reads its parameters; the first
/// missing or malformed parameter, or an unknown name, is an error.
pub fn choose_procedure(has_data: bool, name: &str, params: &Json) -> (r: Result<Procedure, String>)
    ensures
        r matches Ok(p) ==> spec_procedure(has_data, name@, *params) == Ok::<ProcedureView, Seq<char>>(p@),
        r matches Err(e) ==> spec_procedure(has_data, name@, *params) == Err::<ProcedureView, Seq<char>>(e@),
{
    if !has_data {
        return Err(String::from_str("No dataset loaded"));
    }
    if is_name(name, "descriptives") {
        Ok(Procedure::Descriptives { vars: p_strs(params, "vars")? })
    } else if is_name(name, "frequencies") {
        Ok(Procedure::Frequencies { vars: p_strs(params, "vars")? })
    } else if is_name(name, "ttest_one_sample") {
        Ok(Procedure::TTestOneSample { vars: p_strs(params, "vars")? })
    } else if is_name(name, "ttest_independent") {
        let (vars, group, group1, group2) = read_grouped(params)?;
        Ok(Procedure::TTestIndependent { vars, group, group1, group2 })
    } else if is_name(name, "ttest_paired") {
        Ok(Procedure::TTestPaired { pairs: pairs(params)? })
    } else if is_name(name, "anova_oneway") {
        let (vars, factor) = read_factored(params)?;
        Ok(Procedure::AnovaOneway { vars, factor })
    } else if is_name(name, "correlate") {
        let vars = p_strs(params, "vars")?;
        let spearman = match p_str_opt(params, "method") {
            Some(m) => eq_ignore_ascii_case(m.as_str(), "spearman"),
            None => false,
        };
        Ok(Procedure::Correlate { vars, spearman })
    } else if is_name(name, "regression_linear") {
        let dependent = p_str(params, "dependent")?;
        let independents = p_strs(params, "independents")?;
        Ok(Procedure::RegressionLinear { dependent, independents })
    } else if is_name(name, "mann_whitney") {
        let (vars, group, group1, group2) = read_grouped(params)?;
        Ok(Procedure::MannWhitney { vars, group, group1, group2 })
    } else if is_name(name, "wilcoxon") {
        Ok(Procedure::Wilcoxon { pairs: pairs(params)? })
    } else if is_name(name, "kruskal_wallis") {
        let (vars, factor) = read_factored(params)?;
        Ok(Procedure::KruskalWallis { vars, factor })
    } else if is_name(name, "chi_square") {
        Ok(Procedure::ChiSquare { vars: p_strs(params, "vars")? })
    } else if is_name(name, "crosstabs") {
        let row = p_str(params, "row")?;
        let column = p_str(params, "column")?;
        Ok(Procedure::Crosstabs { row, column })
    } else if is_name(name, "glm_univariate") {
        let dependent = p_str(params, "dependent")?;
        let factors = p_strs(params, "factors")?;
        let covariates = p_strs_opt(params, "covariates");
        Ok(Procedure::GlmUnivariate { dependent, factors, covariates })
    } else if is_name(name, "glm_multivariate") {
        let dependents = p_strs(params, "dependents")?;
        let factor = p_str(params, "factor")?;
        Ok(Procedure::GlmMultivariate { dependents, factor })
    } else if is_name(name, "glm_repeated") {
        Ok(Procedure::GlmRepeated { vars: p_strs(params, "vars")? })
    } else if is_name(name, "mixed_model") {
        let dependent = p_str(params, "dependent")?;
        let group = p_str(params, "group")?;
        let fixed = p_strs_opt(params, "fixed");
        Ok(Procedure::MixedModel { dependent, group, fixed })
    } else if is_name(name, "factor") {
        Ok(Procedure::Factor { vars: p_strs(params, "vars")? })
    } else if is_name(name, "reliability") {
        Ok(Procedure::Reliability { vars: p_strs(params, "vars")? })
    } else if is_name(name, "survival_km") {
        let time = p_str(params, "time")?;
        let status = p_str(params, "status")?;
        let factor = p_str_opt(params, "factor");
        Ok(Procedure::SurvivalKm { time, status, factor })
    } else if is_name(name, "cox_regression") {
        let time = p_str(params, "time")?;
        let status = p_str(params, "status")?;
        let covariates = p_strs(params, "covariates")?;
        Ok(Procedure::CoxRegression { time, status, covariates })
    } else {
        let mut e = String::from_str("Unknown procedure: ");
        e.append(name);
        Err(e)
    }
}


/// `v` is the strings of the array under `key`, in order, and there is one at least.
pub open spec fn names_under(params: Json, key: Seq<char>, v: Seq<Seq<char>>) -> bool {
    &&& json_get(params, key) matches Some(Json::Array(a)) && v == texts_in(a@)
    &&& v.len() > 0
}

/// `t` is the string under `key`.
pub open spec fn text_under(params: Json, key: Seq<char>, t: Seq<char>) -> bool {
    json_get(params, key) matches Some(Json::Text(s)) && s@ == t
}

/// The strings of the array under `key`; none when there is no array.
pub open spec fn optional_names(params: Json, key: Seq<char>) -> Seq<Seq<char>> {
    match json_get(params, key) {
        Some(Json::Array(a)) => texts_in(a@),
        _ => Seq::empty(),
    }
}

/// `p` is the pairs of the array under "pairs": one per element, each a
/// two-element array of strings, and there is one at least.
pub open spec fn pairs_under(params: Json, p: Seq<(Seq<char>, Seq<char>)>) -> bool {
    &&& json_get(params, "pairs"@) matches Some(Json::Array(a)) && p.len() == a@.len()
        && forall|k: int| 0 <= k < p.len() ==> pair_of(#[trigger] a@[k]) == Some(p[k])
    &&& p.len() > 0
}

proof fn lemma_pairs_of(s: Seq<Json>)
    ensures
        pairs_of(s) matches Some(p) ==> p.len() == s.len() && forall|k: int| 0 <= k < p.len() ==> pair_of(#[trigger] s[k]) == Some(p[k]),
    decreases s.len(),
{
    if s.len() > 0 {
        lemma_pairs_of(s.drop_last());
        if let Some(p) = pairs_of(s) {
            let rest = pairs_of(s.drop_last()).unwrap();
            assert forall|k: int| 0 <= k < p.len() implies pair_of(#[trigger] s[k]) == Some(p[k]) by {
                if k < p.len() - 1 {
                    assert(s.drop_last()[k] == s[k]);
                    assert(p[k] == rest[k]);
                }
            }
        }
    }
}

/// A procedure is chosen only with a dataset open and by its own name, and it
/// carries exactly the parameters the request holds: each name is the string
/// under its key, each list is the strings of the array under its key, in
/// order and not empty (an optional list may be empty), each pair is a
/// two-string array of "pairs", and a correlation is Spearman's exactly when
/// "method" is the text "spearman" up to ASCII case.
pub proof fn lemma_procedure_reads_parameters(has_data: bool, name: Seq<char>, params: Json)
    ensures
        spec_procedure(has_data, name, params) is Ok ==> has_data,
        match spec_procedure(has_data, name, params) {
            Ok(ProcedureView::Descriptives(v)) => name == "descriptives"@ && names_under(params, "vars"@, v),
            Ok(ProcedureView::Frequencies(v)) => name == "frequencies"@ && names_under(params, "vars"@, v),
            Ok(ProcedureView::TTestOneSample(v)) => name == "ttest_one_sample"@ && names_under(params, "vars"@, v),
            Ok(ProcedureView::TTestIndependent(v, g, g1, g2)) => name == "ttest_independent"@
                && names_under(params, "vars"@, v) && text_under(params, "group"@, g)
                && text_under(params, "group1"@, g1) && text_under(params, "group2"@, g2),
            Ok(ProcedureView::TTestPaired(p)) => name == "ttest_paired"@ && pairs_under(params, p),
            Ok(ProcedureView::AnovaOneway(v, f)) => name == "anova_oneway"@ && names_under(params, "vars"@, v)
                && text_under(params, "factor"@, f),
            Ok(ProcedureView::Correlate(v, sp)) => name == "correlate"@ && names_under(params, "vars"@, v)
                && sp == (json_get(params, "method"@) matches Some(Json::Text(m)) && ascii_ci_eq(m@, "spearman"@)),
            Ok(ProcedureView::RegressionLinear(d, i)) => name == "regression_linear"@
                && text_under(params, "dependent"@, d) && names_under(params, "independents"@, i),
            Ok(ProcedureView::MannWhitney(v, g, g1, g2)) => name == "mann_whitney"@
                && names_under(params, "vars"@, v) && text_under(params, "group"@, g)
                && text_under(params, "group1"@, g1) && text_under(params, "group2"@, g2),
            Ok(ProcedureView::Wilcoxon(p)) => name == "wilcoxon"@ && pairs_under(params, p),
            Ok(ProcedureView::KruskalWallis(v, f)) => name == "kruskal_wallis"@ && names_under(params, "vars"@, v)
                && text_under(params, "factor"@, f),
            Ok(ProcedureView::ChiSquare(v)) => name == "chi_square"@ && names_under(params, "vars"@, v),
            Ok(ProcedureView::Crosstabs(r, c)) => name == "crosstabs"@ && text_under(params, "row"@, r)
                && text_under(params, "column"@, c),
            Ok(ProcedureView::GlmUnivariate(d, f, c)) => name == "glm_univariate"@
                && text_under(params, "dependent"@, d) && names_under(params, "factors"@, f)
                && c == optional_names(params, "covariates"@),
            Ok(ProcedureView::GlmMultivariate(d, f)) => name == "glm_multivariate"@
                && names_under(params, "dependents"@, d) && text_under(params, "factor"@, f),
            Ok(ProcedureView::GlmRepeated(v)) => name == "glm_repeated"@ && names_under(params, "vars"@, v),
            Ok(ProcedureView::MixedModel(d, g, f)) => name == "mixed_model"@ && text_under(params, "dependent"@, d)
                && text_under(params, "group"@, g) && f == optional_names(params, "fixed"@),
            Ok(ProcedureView::Factor(v)) => name == "factor"@ && names_under(params, "vars"@, v),
            Ok(ProcedureView::Reliability(v)) => name == "reliability"@ && names_under(params, "vars"@, v),
            Ok(ProcedureView::SurvivalKm(t, st, f)) => name == "survival_km"@ && text_under(params, "time"@, t)
                && text_under(params, "status"@, st) && f == json_text(json_get(params, "factor"@)),
            Ok(ProcedureView::CoxRegression(t, st, c)) => name == "cox_regression"@
                && text_under(params, "time"@, t) && text_under(params, "status"@, st)
                && names_under(params, "covariates"@, c),
            Err(_) => true,
        },
{
    if let Some(Json::Array(a)) = json_get(params, "pairs"@) {
        lemma_pairs_of(a@);
    }
}

} // verus!
