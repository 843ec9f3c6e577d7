use freestati::json::{Json, JsonNumber};
use freestati::params::{p_str, p_str_opt, p_strs, pairs};
use freestati::procedure::{choose_procedure, Procedure};
use freestati::text::{compare_text, decimal_text, eq_ignore_ascii_case};

fn text(x: &str) -> Json {
    Json::Text(x.to_string())
}

fn arr(xs: Vec<Json>) -> Json {
    Json::Array(xs)
}

fn obj(entries: Vec<(&str, Json)>) -> Json {
    Json::Object(entries.into_iter().map(|(k, v)| (k.to_string(), v)).collect())
}

fn names(xs: &[&str]) -> Json {
    arr(xs.iter().map(|x| text(x)).collect())
}

#[test]
fn string_parameters() {
    let p = obj(vec![("group", text("g")), ("n", Json::Number(JsonNumber { as_u64: Some(3), as_i64: Some(3) }))]);
    assert_eq!(p_str(&p, "group"), Ok("g".to_string()));
    assert_eq!(p_str(&p, "n"), Err("Missing parameter 'n'".to_string()));
    assert_eq!(p_str(&p, "other"), Err("Missing parameter 'other'".to_string()));
    assert_eq!(p_str(&text("x"), "group"), Err("Missing parameter 'group'".to_string()));
    assert_eq!(p_str_opt(&p, "group"), Some("g".to_string()));
    assert_eq!(p_str_opt(&p, "n"), None);
}

#[test]
fn name_lists_keep_strings_only() {
    let p = obj(vec![
        ("vars", arr(vec![text("a"), Json::Null, text("b"), Json::Bool(true)])),
        ("none", arr(vec![Json::Null])),
        ("scalar", text("a")),
    ]);
    assert_eq!(p_strs(&p, "vars"), Ok(vec!["a".to_string(), "b".to_string()]));
    assert_eq!(p_strs(&p, "none"), Err("Select at least one variable for 'none'".to_string()));
    assert_eq!(p_strs(&p, "scalar"), Err("Missing parameter 'scalar'".to_string()));
    assert_eq!(p_strs(&p, "absent"), Err("Missing parameter 'absent'".to_string()));
}

#[test]
fn pairs_parameter() {
    let good = obj(vec![("pairs", arr(vec![names(&["y", "x"]), names(&["a", "b"])]))]);
    assert_eq!(
        pairs(&good),
        Ok(vec![("y".to_string(), "x".to_string()), ("a".to_string(), "b".to_string())])
    );
    let bad = obj(vec![("pairs", arr(vec![names(&["y", "x"]), names(&["a"])]))]);
    assert_eq!(pairs(&bad), Err("Each pair must be a [first, second] array".to_string()));
    let bad2 = obj(vec![("pairs", arr(vec![arr(vec![text("y"), Json::Null])]))]);
    assert_eq!(pairs(&bad2), Err("Each pair must be a [first, second] array".to_string()));
    let empty = obj(vec![("pairs", arr(vec![]))]);
    assert_eq!(pairs(&empty), Err("Add at least one pair".to_string()));
    assert_eq!(pairs(&obj(vec![])), Err("Missing parameter 'pairs'".to_string()));
}

#[test]
fn choosing_procedures() {
    let vars = names(&["y", "x"]);
    let grouped = obj(vec![
        ("vars", names(&["y"])),
        ("group", text("grp")),
        ("group1", text("1")),
        ("group2", text("2")),
    ]);
    let ok = |name: &str, p: &Json| choose_procedure(true, name, p).unwrap_or_else(|e| panic!("{name} failed: {e}"));
    assert!(matches!(ok("descriptives", &obj(vec![("vars", vars.clone_json())])), Procedure::Descriptives { vars } if vars.len() == 2));
    assert!(matches!(ok("frequencies", &obj(vec![("vars", names(&["grp"]))])), Procedure::Frequencies { .. }));
    assert!(matches!(ok("ttest_one_sample", &obj(vec![("vars", names(&["y"]))])), Procedure::TTestOneSample { .. }));
    assert!(matches!(ok("ttest_independent", &grouped), Procedure::TTestIndependent { group1, group2, .. } if group1 == "1" && group2 == "2"));
    assert!(matches!(ok("ttest_paired", &obj(vec![("pairs", arr(vec![names(&["y", "x"])]))])), Procedure::TTestPaired { pairs } if pairs.len() == 1));
    assert!(matches!(ok("anova_oneway", &obj(vec![("vars", names(&["y"])), ("factor", text("grp"))])), Procedure::AnovaOneway { factor, .. } if factor == "grp"));
    assert!(matches!(ok("correlate", &obj(vec![("vars", names(&["y", "x"])), ("method", text("pearson"))])), Procedure::Correlate { spearman: false, .. }));
    assert!(matches!(ok("correlate", &obj(vec![("vars", names(&["y", "x"])), ("method", text("SpearMan"))])), Procedure::Correlate { spearman: true, .. }));
    assert!(matches!(ok("correlate", &obj(vec![("vars", names(&["y", "x"]))])), Procedure::Correlate { spearman: false, .. }));
    assert!(matches!(ok("regression_linear", &obj(vec![("dependent", text("y")), ("independents", names(&["x"]))])), Procedure::RegressionLinear { dependent, .. } if dependent == "y"));
    assert!(matches!(ok("mann_whitney", &grouped), Procedure::MannWhitney { .. }));
    assert!(matches!(ok("wilcoxon", &obj(vec![("pairs", arr(vec![names(&["y", "x"])]))])), Procedure::Wilcoxon { .. }));
    assert!(matches!(ok("kruskal_wallis", &obj(vec![("vars", names(&["y"])), ("factor", text("grp"))])), Procedure::KruskalWallis { .. }));
    assert!(matches!(ok("chi_square", &obj(vec![("vars", names(&["grp"]))])), Procedure::ChiSquare { .. }));
}

#[test]
fn procedure_errors() {
    let p = obj(vec![("vars", names(&["y"]))]);
    assert_eq!(choose_procedure(false, "descriptives", &p).unwrap_err(), "No dataset loaded");
    assert_eq!(choose_procedure(true, "bogus", &p).unwrap_err(), "Unknown procedure: bogus");
    assert_eq!(choose_procedure(true, "anova_oneway", &p).unwrap_err(), "Missing parameter 'factor'");
    let g = obj(vec![("vars", names(&["y"])), ("group", text("g")), ("group2", text("2"))]);
    assert_eq!(choose_procedure(true, "ttest_independent", &g).unwrap_err(), "Missing parameter 'group1'");
    let r = obj(vec![("independents", names(&["x"]))]);
    assert_eq!(choose_procedure(true, "regression_linear", &r).unwrap_err(), "Missing parameter 'dependent'");
    assert_eq!(choose_procedure(true, "Descriptives", &p).unwrap_err(), "Unknown procedure: Descriptives");
}

#[test]
fn text_helpers() {
    assert_eq!(decimal_text(0), "0");
    assert_eq!(decimal_text(7), "7");
    assert_eq!(decimal_text(1203), "1203");
    assert!(eq_ignore_ascii_case("SPEARMAN", "spearman"));
    assert!(!eq_ignore_ascii_case("spearmän", "spearman"));
    assert!(!eq_ignore_ascii_case("spear", "spearman"));
    assert_eq!(compare_text("a", "b"), -1);
    assert_eq!(compare_text("ab", "a"), 1);
    assert_eq!(compare_text("é", "é"), 0);
    assert_eq!(compare_text("Z", "a"), -1);
}

trait CloneJson {
    fn clone_json(&self) -> Json;
}

impl CloneJson for Json {
    fn clone_json(&self) -> Json {
        match self {
            Json::Null => Json::Null,
            Json::Bool(b) => Json::Bool(*b),
            Json::Number(n) => Json::Number(JsonNumber { as_u64: n.as_u64, as_i64: n.as_i64 }),
            Json::Text(s) => Json::Text(s.clone()),
            Json::Array(a) => Json::Array(a.iter().map(|x| x.clone_json()).collect()),
            Json::Object(o) => Json::Object(o.iter().map(|(k, v)| (k.clone(), v.clone_json())).collect()),
        }
    }
}

#[test]
fn choosing_model_procedures() {
    let ok = |name: &str, p: &Json| choose_procedure(true, name, p).unwrap_or_else(|e| panic!("{name} failed: {e}"));
    let p = obj(vec![("row", text("sex")), ("column", text("group"))]);
    assert!(matches!(ok("crosstabs", &p), Procedure::Crosstabs { row, column } if row == "sex" && column == "group"));
    let p = obj(vec![("dependent", text("y")), ("factors", names(&["a", "b"])), ("covariates", names(&["age"]))]);
    assert!(matches!(ok("glm_univariate", &p),
        Procedure::GlmUnivariate { dependent, factors, covariates } if dependent == "y" && factors.len() == 2 && covariates == vec!["age".to_string()]));
    let p = obj(vec![("dependent", text("y")), ("factors", names(&["a"]))]);
    assert!(matches!(ok("glm_univariate", &p), Procedure::GlmUnivariate { covariates, .. } if covariates.is_empty()));
    let p = obj(vec![("dependents", names(&["y", "x"])), ("factor", text("g"))]);
    assert!(matches!(ok("glm_multivariate", &p), Procedure::GlmMultivariate { dependents, factor } if dependents.len() == 2 && factor == "g"));
    assert!(matches!(ok("glm_repeated", &obj(vec![("vars", names(&["t1", "t2", "t3"]))])), Procedure::GlmRepeated { vars } if vars.len() == 3));
    let p = obj(vec![("dependent", text("y")), ("group", text("school")), ("fixed", names(&["x"]))]);
    assert!(matches!(ok("mixed_model", &p), Procedure::MixedModel { group, fixed, .. } if group == "school" && fixed.len() == 1));
    assert!(matches!(ok("factor", &obj(vec![("vars", names(&["a", "b", "c"]))])), Procedure::Factor { vars } if vars.len() == 3));
    assert!(matches!(ok("reliability", &obj(vec![("vars", names(&["i1", "i2"]))])), Procedure::Reliability { vars } if vars.len() == 2));
    let p = obj(vec![("time", text("t")), ("status", text("dead"))]);
    assert!(matches!(ok("survival_km", &p), Procedure::SurvivalKm { factor: None, .. }));
    let p = obj(vec![("time", text("t")), ("status", text("dead")), ("factor", text("arm"))]);
    assert!(matches!(ok("survival_km", &p), Procedure::SurvivalKm { factor: Some(f), .. } if f == "arm"));
    let p = obj(vec![("time", text("t")), ("status", text("dead")), ("covariates", names(&["age"]))]);
    assert!(matches!(ok("cox_regression", &p), Procedure::CoxRegression { covariates, .. } if covariates.len() == 1));
}

#[test]
fn model_procedure_errors() {
    let e = |name: &str, p: &Json| choose_procedure(true, name, p).unwrap_err();
    assert_eq!(e("crosstabs", &obj(vec![("row", text("a"))])), "Missing parameter 'column'");
    assert_eq!(e("glm_univariate", &obj(vec![("dependent", text("y"))])), "Missing parameter 'factors'");
    assert_eq!(e("glm_multivariate", &obj(vec![("dependents", names(&[]))])), "Select at least one variable for 'dependents'");
    assert_eq!(e("mixed_model", &obj(vec![("dependent", text("y"))])), "Missing parameter 'group'");
    assert_eq!(e("survival_km", &obj(vec![("status", text("d"))])), "Missing parameter 'time'");
    assert_eq!(e("cox_regression", &obj(vec![("time", text("t")), ("status", text("d"))])), "Missing parameter 'covariates'");
    assert_eq!(choose_procedure(false, "crosstabs", &obj(vec![])).unwrap_err(), "No dataset loaded");
}
