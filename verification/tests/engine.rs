use freestati::engine::{Engine, PagePlan};
use freestati::files::{
    file_name_of, list_directory, load_source, lower_extension, menu_action, opener_program,
    platform_name, save_separator, DirItem, LoadSource, MenuAction,
};
use freestati::json::{Json, JsonNumber};
use freestati::meta::VarMeta;
use freestati::spss::{align_str, measure_str, sav_var_meta, Alignment, Measure, SavVariable};
use freestati::variables::{
    describe_variable, infer_decimals, infer_measure, series_type, ColumnInfo, ColumnKind,
};

fn obj(entries: Vec<(&str, Json)>) -> Json {
    Json::Object(entries.into_iter().map(|(k, v)| (k.to_string(), v)).collect())
}

fn text(x: &str) -> Json {
    Json::Text(x.to_string())
}

fn number(n: u64) -> Json {
    Json::Number(JsonNumber { as_u64: Some(n), as_i64: i64::try_from(n).ok() })
}

fn column(name: &str, kind: ColumnKind, distinct: Option<usize>, integral: Option<bool>) -> ColumnInfo {
    ColumnInfo { name: name.to_string(), kind, sample_distinct: distinct, sample_integral: integral }
}

fn sample_columns() -> Vec<ColumnInfo> {
    vec![
        column("y", ColumnKind::Float, Some(8), Some(true)),
        column("x", ColumnKind::Float, Some(12), Some(false)),
        column("grp", ColumnKind::Integer, Some(2), None),
        column("name", ColumnKind::Other, Some(3), None),
        column("when", ColumnKind::Temporal, Some(3), None),
    ]
}

#[test]
fn inference_from_column_facts() {
    assert_eq!(series_type(&ColumnKind::Temporal), "date");
    assert_eq!(series_type(&ColumnKind::Float), "numeric");
    assert_eq!(series_type(&ColumnKind::OtherNumeric), "numeric");
    assert_eq!(series_type(&ColumnKind::Other), "string");
    let c = sample_columns();
    assert_eq!(infer_measure(&c[0]), "ordinal");
    assert_eq!(infer_measure(&c[1]), "scale");
    assert_eq!(infer_measure(&c[3]), "nominal");
    assert_eq!(infer_measure(&column("z", ColumnKind::Integer, None, None)), "scale");
    assert_eq!(infer_measure(&column("z", ColumnKind::Integer, Some(10), None)), "ordinal");
    assert_eq!(infer_measure(&column("z", ColumnKind::Integer, Some(11), None)), "scale");
    assert_eq!(infer_decimals(&c[0]), 0);
    assert_eq!(infer_decimals(&c[1]), 2);
    assert_eq!(infer_decimals(&c[2]), 0);
    assert_eq!(infer_decimals(&c[3]), 0);
    assert_eq!(infer_decimals(&column("f32", ColumnKind::Float, Some(3), None)), 2);
}

#[test]
fn variable_defaults_and_overrides() {
    let c = sample_columns();
    let v = describe_variable(&c[1], None);
    assert_eq!(v.name, "x");
    assert_eq!(v.label, "");
    assert_eq!(v.var_type, "numeric");
    assert_eq!((v.width, v.decimals, v.columns), (8, 2, 8));
    assert_eq!(v.align, "left");
    assert_eq!(v.measure_level, "scale");
    assert_eq!(v.role, "input");
    assert!(v.value_labels.is_empty());

    let mut m = VarMeta::default();
    m.var_type = Some("string".to_string());
    m.label = Some("Income".to_string());
    m.value_labels = Some(vec![("1".to_string(), "low".to_string())]);
    let v = describe_variable(&c[1], Some(&m));
    assert_eq!(v.var_type, "string");
    assert_eq!(v.decimals, 0);
    assert_eq!(v.label, "Income");
    assert_eq!(v.value_labels, vec![("1".to_string(), "low".to_string())]);
}

#[test]
fn metadata_patches() {
    let mut e = Engine::new();
    e.set_variable_meta(
        "y",
        &obj(vec![
            ("label", text("Outcome")),
            ("width", number(12)),
            ("decimals", number((1u64 << 32) + 3)),
            ("measureLevel", text("scale")),
            ("valueLabels", obj(vec![("1", text("one")), ("2", number(2)), ("3", text("three"))])),
            ("role", Json::Null),
        ]),
    );
    let m = e.meta("y").unwrap();
    assert_eq!(m.label.as_deref(), Some("Outcome"));
    assert_eq!(m.width, Some(12));
    assert_eq!(m.decimals, Some(3));
    assert_eq!(m.measure_level.as_deref(), Some("scale"));
    assert_eq!(m.role, None);
    assert_eq!(
        m.value_labels,
        Some(vec![("1".to_string(), "one".to_string()), ("3".to_string(), "three".to_string())])
    );
    // a second patch changes only its own fields
    e.set_variable_meta("y", &obj(vec![("label", text(""))]));
    let m = e.meta("y").unwrap();
    assert_eq!(m.label.as_deref(), Some(""));
    assert_eq!(m.width, Some(12));
    assert!(e.meta("x").is_none());
    // an empty label falls back to the name for display
    assert_eq!(e.display("y"), "y");
    e.set_variable_meta("x", &obj(vec![("label", text("Predictor"))]));
    assert_eq!(e.display("x"), "Predictor");
    assert_eq!(e.display("z"), "z");
}

#[test]
fn variables_are_cached_until_metadata_changes() {
    let mut e = Engine::new();
    assert!(e.variables(&sample_columns()).is_empty());
    assert!(e.begin_load("data.csv").is_ok());
    let r = e.finish_load("/tmp/data.csv", 8, &sample_columns(), &vec![]);
    assert_eq!(r.row_count, 8);
    assert_eq!(r.col_count, 5);
    assert_eq!(r.filename, "data.csv");
    assert_eq!(r.path, "/tmp/data.csv");
    assert_eq!(r.variables.len(), 5);
    assert_eq!(e.float_cols, vec!["y".to_string(), "x".to_string()]);
    // the cache answers even for other column facts
    let again = e.variables(&vec![]);
    assert_eq!(again.len(), 5);
    e.set_variable_meta("grp", &obj(vec![("type", text("string"))]));
    assert!(e.cached_variables.is_none());
    let fresh = e.variables(&sample_columns());
    assert_eq!(fresh[2].var_type, "string");
    assert_eq!(fresh[2].decimals, 0);
}

#[test]
fn loading_spss_metadata() {
    let vars = vec![
        SavVariable {
            name: "q1".to_string(),
            label: Some("Question 1".to_string()),
            value_labels: Some(vec![("1".to_string(), "Yes".to_string())]),
            measure: Some(Measure::Ordinal),
            alignment: Some(Alignment::Right),
            display_width: Some(10),
        },
        SavVariable {
            name: "q2".to_string(),
            label: Some(String::new()),
            value_labels: Some(vec![]),
            measure: Some(Measure::Unknown),
            alignment: Some(Alignment::Unknown),
            display_width: None,
        },
    ];
    let meta = sav_var_meta(&vars);
    assert_eq!(meta.len(), 2);
    assert_eq!(meta[0].1.label.as_deref(), Some("Question 1"));
    assert_eq!(meta[0].1.measure_level.as_deref(), Some("ordinal"));
    assert_eq!(meta[0].1.align.as_deref(), Some("right"));
    assert_eq!(meta[0].1.columns, Some(10));
    assert_eq!(meta[1].1.label, None);
    assert_eq!(meta[1].1.value_labels, None);
    assert_eq!(meta[1].1.measure_level, None);
    assert_eq!(meta[1].1.align, None);
    assert_eq!(measure_str(&Measure::Scale), Some("scale"));
    assert_eq!(align_str(&Alignment::Center), Some("center"));

    let mut e = Engine::new();
    assert_eq!(e.begin_load("survey.SAV").unwrap(), LoadSource::Spss);
    let cols = vec![column("q1", ColumnKind::Float, Some(2), Some(true))];
    let r = e.finish_load("survey.SAV", 3, &cols, &meta);
    assert_eq!(r.variables[0].label, "Question 1");
    assert_eq!(r.variables[0].measure_level, "ordinal");
    assert_eq!(r.variables[0].columns, 10);
}

#[test]
fn later_metadata_entries_win() {
    let mut first = VarMeta::default();
    first.label = Some("first".to_string());
    let mut second = VarMeta::default();
    second.label = Some("second".to_string());
    let mut e = Engine::new();
    let _ = e.begin_load("a.tab");
    e.finish_load("a.tab", 0, &vec![], &vec![("v".to_string(), first), ("v".to_string(), second)]);
    assert_eq!(e.meta("v").unwrap().label.as_deref(), Some("second"));
}

#[test]
fn pages_of_rows() {
    let mut e = Engine::new();
    assert!(matches!(e.get_page(0, 10), PagePlan::Empty { total: 0 }));
    let _ = e.begin_load("a.csv");
    e.finish_load("a.csv", 25, &vec![], &vec![]);
    match e.get_page(20, 10) {
        PagePlan::Rows { total, offset, len, case_numbers } => {
            assert_eq!((total, offset, len), (25, 20, 5));
            assert_eq!(case_numbers, vec![21, 22, 23, 24, 25]);
        },
        other => panic!("unexpected {other:?}"),
    }
    match e.get_page(0, 3) {
        PagePlan::Rows { len, case_numbers, .. } => {
            assert_eq!(len, 3);
            assert_eq!(case_numbers, vec![1, 2, 3]);
        },
        other => panic!("unexpected {other:?}"),
    }
    assert!(matches!(e.get_page(25, 10), PagePlan::Empty { total: 25 }));
}

#[test]
fn cell_edits() {
    let mut e = Engine::new();
    assert_eq!(e.cell_row(1, Ok(5)), Err("No dataset loaded".to_string()));
    let _ = e.new_dataset();
    assert_eq!(e.cell_row(0, Ok(5)), Err("Invalid row number".to_string()));
    assert_eq!(e.cell_row(3, Err("not found: q".to_string())), Err("not found: q".to_string()));
    assert_eq!(e.cell_row(6, Ok(5)), Err("Row out of range".to_string()));
    assert_eq!(e.cell_row(5, Ok(5)), Ok(4));
}

#[test]
fn new_dataset_is_empty() {
    let mut e = Engine::new();
    e.set_variable_meta("y", &obj(vec![("label", text("L"))]));
    let r = e.new_dataset();
    assert_eq!((r.row_count, r.col_count, r.variables.len()), (0, 0, 0));
    assert_eq!(r.filename, "");
    assert!(e.meta("y").is_none());
    assert_eq!(e.rows, Some(0));
}

#[test]
fn file_formats() {
    assert_eq!(lower_extension("/data/Survey.TSV"), "tsv");
    assert_eq!(lower_extension("/data/noext"), "");
    assert_eq!(lower_extension("/data/.hidden"), "");
    assert_eq!(file_name_of("/data/Survey.TSV"), "Survey.TSV");
    assert_eq!(load_source("tab").unwrap(), LoadSource::Delimited(b'\t'));
    assert_eq!(load_source("csv").unwrap(), LoadSource::Delimited(b','));
    assert_eq!(load_source("zsav").unwrap(), LoadSource::Spss);
    assert_eq!(
        load_source("xlsx").unwrap_err(),
        ".xlsx is not yet supported by the native engine (only .tab/.tsv/.csv). This format will be restored in a later release."
    );
    assert_eq!(load_source("json").unwrap_err(), "Unsupported file type: .json");
    assert_eq!(load_source("").unwrap_err(), "Unsupported file type: .");
    assert_eq!(save_separator("tsv").unwrap(), b'\t');
    assert_eq!(
        save_separator("sav").unwrap_err(),
        "Saving .sav is not yet supported by the native engine (use .tab/.tsv/.csv)."
    );
    let mut e = Engine::new();
    assert_eq!(e.begin_load("x/DATA.CsV").unwrap(), LoadSource::Delimited(b','));
    assert_eq!(e.begin_load("x/book.XLS").unwrap_err(), ".xls is not yet supported by the native engine (only .tab/.tsv/.csv). This format will be restored in a later release.");
    assert_eq!(e.save_plan("out.csv"), Err("No dataset loaded".to_string()));
    let _ = e.new_dataset();
    assert_eq!(e.save_plan("out.CSV"), Ok(b','));
    assert_eq!(e.save_plan("out.txt"), Err("Saving .txt is not yet supported by the native engine (use .tab/.tsv/.csv).".to_string()));
}

#[test]
fn folder_listing() {
    let item = |name: &str, is_dir: bool| DirItem { name: name.to_string(), path: format!("/d/{name}"), is_dir };
    let items = vec![
        item("zeta.csv", false),
        item("notes.txt", false),
        item("Alpha.SAV", false),
        item("beta", true),
        item("Archive", true),
        item("alpha.tab", false),
        item("x.sas7bdat", false),
    ];
    let out = list_directory(&items);
    let names: Vec<&str> = out.iter().map(|e| e.name.as_str()).collect();
    assert_eq!(names, vec!["Archive", "beta", "Alpha.SAV", "alpha.tab", "x.sas7bdat", "zeta.csv"]);
    assert_eq!(out[0].ext, "");
    assert!(out[0].is_directory);
    assert_eq!(out[2].ext, ".sav");
    assert_eq!(out[5].path, "/d/zeta.csv");
}

#[test]
fn platform_and_menu() {
    assert_eq!(platform_name("macos"), "darwin");
    assert_eq!(platform_name("windows"), "win32");
    assert_eq!(platform_name("linux"), "linux");
    assert_eq!(opener_program("macos"), "open");
    assert_eq!(opener_program("windows"), "explorer");
    assert_eq!(opener_program("freebsd"), "xdg-open");
    assert_eq!(menu_action("menu:view:reload"), MenuAction::Reload);
    assert_eq!(menu_action("menu:view:devtools"), MenuAction::ToggleDevtools);
    assert_eq!(menu_action("menu:file:open"), MenuAction::Forward);
}

#[test]
fn saved_formats_load_back() {
    for path in ["out.tab", "out.TSV", "dir/out.csv"] {
        let ext = lower_extension(path);
        let sep = save_separator(&ext).unwrap();
        assert_eq!(load_source(&ext).unwrap(), LoadSource::Delimited(sep));
    }
}

#[test]
fn page_case_numbers_lead_back_to_rows() {
    let mut e = Engine::new();
    let _ = e.begin_load("a.csv");
    e.finish_load("a.csv", 12, &vec![], &vec![]);
    match e.get_page(7, 4) {
        PagePlan::Rows { offset, len, case_numbers, .. } => {
            for k in 0..len {
                assert_eq!(e.cell_row(case_numbers[k] as usize, Ok(12)), Ok(offset + k));
            }
        },
        other => panic!("unexpected {other:?}"),
    }
}

#[test]
fn value_labels_of_values() {
    let mut m = VarMeta::default();
    assert_eq!(m.value_label("1"), None);
    m.value_labels = Some(vec![("1".to_string(), "low".to_string()), ("2".to_string(), "high".to_string())]);
    assert_eq!(m.value_label("2"), Some("high".to_string()));
    assert_eq!(m.value_label("3"), None);
}

#[test]
fn patching_twice_is_patching_once() {
    let patch = obj(vec![("label", text("Age")), ("columns", number(4)), ("align", text("right"))]);
    let mut once = VarMeta::default();
    once.apply_patch(&patch);
    let mut twice = VarMeta::default();
    twice.apply_patch(&patch);
    twice.apply_patch(&patch);
    assert_eq!(format!("{once:?}"), format!("{twice:?}"));
    let mut untouched = once.copy();
    untouched.apply_patch(&obj(vec![("other", text("x"))]));
    assert_eq!(format!("{once:?}"), format!("{untouched:?}"));
}

#[test]
fn folder_listing_keeps_folder_order_among_ties() {
    let item = |name: &str, dir: &str| DirItem { name: name.to_string(), path: format!("/{dir}/{name}"), is_dir: false };
    let out = list_directory(&vec![item("b.csv", "one"), item("B.csv", "two"), item("a.csv", "three")]);
    let paths: Vec<&str> = out.iter().map(|e| e.path.as_str()).collect();
    assert_eq!(paths, vec!["/three/a.csv", "/one/b.csv", "/two/B.csv"]);
    let out = list_directory(&vec![item("B.csv", "two"), item("b.csv", "one")]);
    let paths: Vec<&str> = out.iter().map(|e| e.path.as_str()).collect();
    assert_eq!(paths, vec!["/two/B.csv", "/one/b.csv"]);
}

#[test]
fn extensions_follow_the_file_name() {
    assert_eq!(lower_extension("x/.profile"), "");
    assert_eq!(lower_extension("x/.data.CSV"), "csv");
    assert_eq!(lower_extension("x/name."), "");
    assert_eq!(lower_extension("x/archive.tar.GZ"), "gz");
    assert_eq!(lower_extension("x.dir/file"), "");
    assert_eq!(file_name_of("a/b/"), "b");
    assert_eq!(file_name_of("a/.."), "");
}

#[test]
fn a_metadata_change_touches_only_its_variable() {
    let mut e = Engine::new();
    let _ = e.begin_load("a.csv");
    let before = e.finish_load("a.csv", 8, &sample_columns(), &vec![]).variables;
    e.put_meta("x", VarMeta::default());
    assert!(e.cached_variables.is_none());
    e.set_variable_meta("x", &obj(vec![("label", text("L"))]));
    let after = e.variables(&sample_columns());
    assert_eq!(after.len(), before.len());
    for (a, b) in after.iter().zip(&before) {
        if a.name == "x" {
            assert_eq!(a.label, "L");
        } else {
            assert_eq!(format!("{a:?}"), format!("{b:?}"));
        }
    }
}

#[test]
fn listing_variables_twice_gives_the_same_list() {
    let mut e = Engine::new();
    let _ = e.begin_load("a.csv");
    let _ = e.finish_load("a.csv", 8, &sample_columns(), &vec![]);
    let first = e.variables(&sample_columns());
    let second = e.variables(&vec![]);
    assert_eq!(format!("{first:?}"), format!("{second:?}"));
}
