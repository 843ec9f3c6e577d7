//! The engine state that outlives a single request: the open dataset's shape,
//! the metadata overrides, and the cached variable descriptions. The data
//! itself is held by the caller.
use vstd::prelude::*;
use vstd::string::*;
use crate::files::{
    LoadSource, spec_load_source, spec_lower_extension, spec_save_separator, spec_file_name,
    text_or_empty, load_source, lower_extension, save_separator, file_name_of,
};
use crate::json::Json;
use crate::meta::{VarMeta, VarMetaView, no_overrides, patched};
use crate::procedure::{Procedure, ProcedureView, spec_procedure, choose_procedure};
use crate::text::compare_text;
use crate::variables::{ColumnInfo, ColumnKind, Variable, VariableView, spec_variable, describe_variable, or_else};

verus! {

/// The metadata of the first entry named `name`.
pub open spec fn meta_of(table: Seq<(String, VarMeta)>, name: Seq<char>) -> Option<VarMetaView>
    decreases table.len(),
{
    if table.len() == 0 {
        None
    } else if table[0].0@ == name {
        Some(table[0].1@)
    } else {
        meta_of(table.drop_first(), name)
    }
}

/// The metadata of the last entry named `name`.
pub open spec fn last_meta(list: Seq<(String, VarMeta)>, name: Seq<char>) -> Option<VarMetaView>
    decreases list.len(),
{
    if list.len() == 0 {
        None
    } else if list.last().0@ == name {
        Some(list.last().1@)
    } else {
        last_meta(list.drop_last(), name)
    }
}

/// The first entry named `name` is at `j`.
pub open spec fn first_named(table: Seq<(String, VarMeta)>, name: Seq<char>, j: int) -> bool {
    0 <= j < table.len() && table[j].0@ == name && forall|k: int| 0 <= k < j ==> (#[trigger] table[k]).0@ != name
}

proof fn lemma_meta_of_first(table: Seq<(String, VarMeta)>, name: Seq<char>, j: int)
    requires
        first_named(table, name, j),
    ensures
        meta_of(table, name) == Some(table[j].1@),
    decreases j,
{
    if j > 0 {
        assert(table[0].0@ != name);
        assert forall|k: int| 0 <= k < j - 1 implies (#[trigger] table.drop_first()[k]).0@ != name by {
            assert(table.drop_first()[k] == table[k + 1]);
        }
        lemma_meta_of_first(table.drop_first(), name, j - 1);
    }
}

proof fn lemma_meta_of_absent(table: Seq<(String, VarMeta)>, name: Seq<char>)
    requires
        forall|k: int| 0 <= k < table.len() ==> (#[trigger] table[k]).0@ != name,
    ensures
        meta_of(table, name) is None,
    decreases table.len(),
{
    if table.len() > 0 {
        assert(table[0].0@ != name);
        assert forall|k: int| 0 <= k < table.len() - 1 implies (#[trigger] table.drop_first()[k]).0@ != name by {
            assert(table.drop_first()[k] == table[k + 1]);
        }
        lemma_meta_of_absent(table.drop_first(), name);
    }
}

/// Replacing the metadata of the first entry named `name` changes the metadata
/// of that name only.
proof fn lemma_meta_of_update(table: Seq<(String, VarMeta)>, name: Seq<char>, j: int, e: (String, VarMeta), other: Seq<char>)
    requires
        first_named(table, name, j),
        e.0@ == name,
        other != name,
    ensures
        meta_of(table.update(j, e), other) == meta_of(table, other),
    decreases table.len(),
{
    if j > 0 {
        let t = table.update(j, e);
        assert(t[0] == table[0]);
        assert(t.drop_first() =~= table.drop_first().update(j - 1, e));
        assert forall|k: int| 0 <= k < j - 1 implies (#[trigger] table.drop_first()[k]).0@ != name by {
            assert(table.drop_first()[k] == table[k + 1]);
        }
        lemma_meta_of_update(table.drop_first(), name, j - 1, e, other);
    } else {
        let t = table.update(j, e);
        assert(t.drop_first() =~= table.drop_first());
    }
}

/// Appending an entry changes the metadata of its name only, when the name
/// was absent.
proof fn lemma_meta_of_push(table: Seq<(String, VarMeta)>, e: (String, VarMeta), other: Seq<char>)
    requires
        forall|k: int| 0 <= k < table.len() ==> (#[trigger] table[k]).0@ != e.0@,
    ensures
        meta_of(table.push(e), other) == if other == e.0@ { Some(e.1@) } else { meta_of(table, other) },
    decreases table.len(),
{
    let t = table.push(e);
    if table.len() > 0 {
        assert(t[0] == table[0]);
        assert(t.drop_first() =~= table.drop_first().push(e));
        assert(table[0].0@ != e.0@);
        assert forall|k: int| 0 <= k < table.len() - 1 implies (#[trigger] table.drop_first()[k]).0@ != e.0@ by {
            assert(table.drop_first()[k] == table[k + 1]);
        }
        lemma_meta_of_push(table.drop_first(), e, other);
        if table[0].0@ == other {
            assert(meta_of(t, other) == Some(table[0].1@));
            assert(meta_of(table, other) == Some(table[0].1@));
        } else {
            assert(meta_of(t, other) == meta_of(t.drop_first(), other));
            assert(meta_of(table, other) == meta_of(table.drop_first(), other));
        }
    } else {
        assert(t.drop_first() =~= Seq::<(String, VarMeta)>::empty());
        assert(t[0] == e);
        if other != e.0@ {
            assert(meta_of(t, other) == meta_of(t.drop_first(), other));
        }
    }
}

/// The result of opening a dataset.
#[derive(Debug)]
pub struct LoadResult {
    pub row_count: usize,
    pub col_count: usize,
    pub variables: Vec<Variable>,
    pub filename: String,
    pub path: String,
}

/// A page of rows: the rows as a JSON array, and the number of rows in all.
#[derive(Debug)]
pub struct PageResult {
    pub rows_raw: String,
    pub total: usize,
}

/// Which rows a page shows.
#[derive(Debug)]
pub enum PagePlan {
    /// No rows: the page is the empty JSON array.
    Empty { total: usize },
    /// `len` rows from row `offset`, numbered from 1 as cases `case_numbers`.
    Rows { total: usize, offset: usize, len: usize, case_numbers: Vec<u64> },
}

pub open spec fn variables_view(v: Seq<Variable>) -> Seq<VariableView> {
    v.map_values(|x: Variable| x@)
}

pub open spec fn described(columns: Seq<ColumnInfo>, table: Seq<(String, VarMeta)>) -> Seq<VariableView> {
    columns.map_values(|c: ColumnInfo| spec_variable(c, meta_of(table, c.name@)))
}

/// The engine state. `rows` is the number of rows of the open dataset, `None`
/// when no dataset is open.
pub struct Engine {
    pub rows: Option<usize>,
    pub var_meta: Vec<(String, VarMeta)>,
    pub path: Option<String>,
    pub float_cols: Vec<String>,
    pub cached_variables: Option<Vec<Variable>>,
}

/// The state of an engine with no dataset and no metadata.
pub open spec fn is_empty_engine(e: Engine) -> bool {
    &&& e.rows is None
    &&& e.var_meta@.len() == 0
    &&& e.path is None
    &&& e.float_cols@.len() == 0
    &&& e.cached_variables is None
}

fn copy_variable(v: &Variable) -> (r: Variable)
    ensures
        r@ == v@,
{
    let mut labels: Vec<(String, String)> = Vec::new();
    let mut i: usize = 0;
    while i < v.value_labels.len()
        invariant
            i <= v.value_labels.len(),
            labels.len() == i,
            forall|k: int| 0 <= k < i ==> (#[trigger] labels@[k]).0@ == v.value_labels@[k].0@ && labels@[k].1@ == v.value_labels@[k].1@,
        decreases v.value_labels.len() - i,
    {
        labels.push((v.value_labels[i].0.clone(), v.value_labels[i].1.clone()));
        i = i + 1;
    }
    assert(crate::meta::labels_view(labels@) =~= crate::meta::labels_view(v.value_labels@));
    Variable {
        name: v.name.clone(),
        label: v.label.clone(),
        var_type: v.var_type.clone(),
        width: v.width,
        decimals: v.decimals,
        columns: v.columns,
        align: v.align.clone(),
        value_labels: labels,
        measure_level: v.measure_level.clone(),
        role: v.role.clone(),
    }
}

fn copy_variables(v: &Vec<Variable>) -> (r: Vec<Variable>)
    ensures
        variables_view(r@) == variables_view(v@),
{
    let mut r: Vec<Variable> = Vec::new();
    let mut i: usize = 0;
    while i < v.len()
        invariant
            i <= v.len(),
            r.len() == i,
            forall|k: int| 0 <= k < i ==> (#[trigger] r@[k])@ == v@[k]@,
        decreases v.len() - i,
    {
        r.push(copy_variable(&v[i]));
        i = i + 1;
    }
    assert(variables_view(r@) =~= variables_view(v@));
    r
}

impl Engine {
    /// An engine with no dataset open.
    pub fn new() -> (e: Engine)
        ensures
            is_empty_engine(e),
    {
        Engine { rows: None, var_meta: Vec::new(), path: None, float_cols: Vec::new(), cached_variables: None }
    }

    fn reset(&mut self)
        ensures
            is_empty_engine(*final(self)),
    {
        self.rows = None;
        self.var_meta = Vec::new();
        self.path = None;
        self.float_cols = Vec::new();
        self.cached_variables = None;
    }

    /// Starts an empty dataset: no rows, no columns, no metadata.
    pub fn new_dataset(&mut self) -> (r: LoadResult)
        ensures
            final(self).rows == Some(0usize),
            final(self).var_meta@.len() == 0,
            final(self).path is None,
            final(self).float_cols@.len() == 0,
            final(self).cached_variables is None,
            r.row_count == 0,
            r.col_count == 0,
            r.variables@.len() == 0,
            r.filename@ == Seq::<char>::empty(),
            r.path@ == Seq::<char>::empty(),
    {
        self.reset();
        self.rows = Some(0);
        LoadResult { row_count: 0, col_count: 0, variables: Vec::new(), filename: String::new(), path: String::new() }
    }

    /// Closes the current dataset and chooses the reader for `path` by its
    /// lowercased extension.
    pub fn begin_load(&mut self, path: &str) -> (r: Result<LoadSource, String>)
        ensures
            is_empty_engine(*final(self)),
            r matches Ok(s) ==> spec_load_source(spec_lower_extension(path@)) == Ok::<LoadSource, Seq<char>>(s),
            r matches Err(e) ==> spec_load_source(spec_lower_extension(path@)) == Err::<LoadSource, Seq<char>>(e@),
    {
        self.reset();
        let ext = lower_extension(path);
        load_source(ext.as_str())
    }

    /// Sets the metadata of `name`, replacing what it had, and drops the cached
    /// variable descriptions.
    pub fn put_meta(&mut self, name: &str, m: VarMeta)
        ensures
            final(self).rows == old(self).rows,
            final(self).path == old(self).path,
            final(self).float_cols == old(self).float_cols,
            final(self).cached_variables is None,
            meta_of(final(self).var_meta@, name@) == Some(m@),
            forall|n: Seq<char>| n != name@ ==> meta_of(#[trigger] final(self).var_meta@, n) == meta_of(old(self).var_meta@, n),
    {
        let ghost t = self.var_meta@;
        match self.find_meta(name) {
            Some(j) => {
                let e = (self.var_meta[j].0.clone(), m);
                self.var_meta.set(j, e);
                proof {
                    assert(self.var_meta@ == t.update(j as int, e));
                    lemma_meta_of_first(self.var_meta@, name@, j as int);
                    assert forall|n: Seq<char>| n != name@ implies meta_of(#[trigger] self.var_meta@, n) == meta_of(t, n) by {
                        lemma_meta_of_update(t, name@, j as int, e, n);
                    }
                }
            },
            None => {
                let e = (String::from_str(name), m);
                self.var_meta.push(e);
                proof {
                    assert(self.var_meta@ == t.push(e));
                    lemma_meta_of_push(t, e, name@);
                    assert forall|n: Seq<char>| n != name@ implies meta_of(#[trigger] self.var_meta@, n) == meta_of(t, n) by {
                        lemma_meta_of_push(t, e, n);
                    }
                }
            },
        }
        self.cached_variables = None;
    }

    fn find_meta(&self, name: &str) -> (r: Option<usize>)
        ensures
            r matches Some(j) ==> first_named(self.var_meta@, name@, j as int),
            r is None ==> forall|k: int| 0 <= k < self.var_meta@.len() ==> (#[trigger] self.var_meta@[k]).0@ != name@,
    {
        let mut i: usize = 0;
        while i < self.var_meta.len()
            invariant
                i <= self.var_meta.len(),
                forall|k: int| 0 <= k < i ==> (#[trigger] self.var_meta@[k]).0@ != name@,
            decreases self.var_meta.len() - i,
        {
            if compare_text(self.var_meta[i].0.as_str(), name) == 0 {
                return Some(i);
            }
            i = i + 1;
        }
        None
    }

    /// The metadata overrides of the variable `name`.
    pub fn meta(&self, name: &str) -> (r: Option<&VarMeta>)
        ensures
            r is Some == meta_of(self.var_meta@, name@) is Some,
            r matches Some(m) ==> meta_of(self.var_meta@, name@) == Some(m@),
    {
        match self.find_meta(name) {
            Some(j) => {
                proof {
                    lemma_meta_of_first(self.var_meta@, name@, j as int);
                }
                Some(&self.var_meta[j].1)
            },
            None => {
                proof {
                    lemma_meta_of_absent(self.var_meta@, name@);
                }
                None
            },
        }
    }

    /// Records a dataset that was read: its path, its number of rows, the facts
    /// about its columns, and the metadata that came with the file (a later entry
    /// for a name wins). Returns the dataset's description.
    pub fn finish_load(&mut self, path: &str, rows: usize, columns: &Vec<ColumnInfo>, meta: &Vec<(String, VarMeta)>) -> (r: LoadResult)
        requires
            is_empty_engine(*old(self)),
        ensures
            final(self).rows == Some(rows),
            opt_path(final(self).path) == Some(path@),
            forall|n: Seq<char>| #[trigger] meta_of(final(self).var_meta@, n) == last_meta(meta@, n),
            final(self).float_cols@.map_values(|s: String| s@) == float_names(columns@),
            r.row_count == rows,
            r.col_count == columns.len(),
            variables_view(r.variables@) == described(columns@, final(self).var_meta@),
            (final(self).cached_variables matches Some(c) && variables_view(c@) == variables_view(r.variables@)),
            r.filename@ == text_or_empty(spec_file_name(path@)),
            r.path@ == path@,
    {
        let mut i: usize = 0;
        while i < meta.len()
            invariant
                i <= meta.len(),
                self.rows is None,
                self.cached_variables is None,
                forall|n: Seq<char>| #[trigger] meta_of(self.var_meta@, n) == last_meta(meta@.take(i as int), n),
            decreases meta.len() - i,
        {
            let ghost before = self.var_meta@;
            self.put_meta(meta[i].0.as_str(), meta[i].1.copy());
            proof {
                assert(meta@.take(i + 1).drop_last() =~= meta@.take(i as int));
                assert(meta@.take(i + 1).last() == meta@[i as int]);
                assert forall|n: Seq<char>| #[trigger] meta_of(self.var_meta@, n) == last_meta(meta@.take(i + 1), n) by {
                    if n != meta@[i as int].0@ {
                        assert(meta_of(self.var_meta@, n) == meta_of(before, n));
                    }
                }
            }
            i = i + 1;
        }
        proof {
            assert(meta@.take(meta.len() as int) =~= meta@);
        }
        let mut floats: Vec<String> = Vec::new();
        let mut c: usize = 0;
        while c < columns.len()
            invariant
                c <= columns.len(),
                floats@.map_values(|s: String| s@) == float_names(columns@.take(c as int)),
            decreases columns.len() - c,
        {
            proof {
                assert(columns@.take(c + 1).drop_last() =~= columns@.take(c as int));
                assert(columns@.take(c + 1).last() == columns@[c as int]);
            }
            match columns[c].kind {
                ColumnKind::Float => {
                    floats.push(columns[c].name.clone());
                    assert(floats@.map_values(|s: String| s@) =~= float_names(columns@.take(c as int)).push(columns@[c as int].name@));
                },
                _ => {},
            }
            c = c + 1;
        }
        proof {
            assert(columns@.take(columns.len() as int) =~= columns@);
        }
        self.float_cols = floats;
        self.rows = Some(rows);
        self.path = Some(String::from_str(path));
        let variables = self.variables(columns);
        LoadResult {
            row_count: rows,
            col_count: columns.len(),
            variables,
            filename: file_name_of(path),
            path: String::from_str(path),
        }
    }

    /// The variable descriptions: the cached ones when there are, none without a
    /// dataset, else one per column (and they are cached).
    pub fn variables(&mut self, columns: &Vec<ColumnInfo>) -> (r: Vec<Variable>)
        ensures
            final(self).rows == old(self).rows,
            final(self).var_meta == old(self).var_meta,
            final(self).path == old(self).path,
            final(self).float_cols == old(self).float_cols,
            old(self).cached_variables matches Some(c) ==> variables_view(r@) == variables_view(c@)
                && final(self).cached_variables == old(self).cached_variables,
            old(self).cached_variables is None && old(self).rows is None ==> r@.len() == 0
                && final(self).cached_variables is None,
            old(self).cached_variables is None && old(self).rows is Some ==> variables_view(r@)
                == described(columns@, old(self).var_meta@) && (final(self).cached_variables matches Some(c)
                && variables_view(c@) == variables_view(r@)),
            variables_view(r@) == served(*old(self), columns@),
            cache_view(final(self).cached_variables) == cached_after(*old(self), columns@),
    {
        match &self.cached_variables {
            Some(c) => {
                return copy_variables(c);
            },
            None => {},
        }
        if self.rows.is_none() {
            return Vec::new();
        }
        let mut out: Vec<Variable> = Vec::new();
        let mut i: usize = 0;
        while i < columns.len()
            invariant
                i <= columns.len(),
                out.len() == i,
                forall|k: int| 0 <= k < i ==> (#[trigger] out@[k])@ == spec_variable(columns@[k], meta_of(self.var_meta@, columns@[k].name@)),
            decreases columns.len() - i,
        {
            let m = self.meta(columns[i].name.as_str());
            let v = describe_variable(&columns[i], m);
            proof {
                match m {
                    Some(x) => {},
                    None => {},
                }
            }
            out.push(v);
            i = i + 1;
        }
        assert(variables_view(out@) =~= described(columns@, self.var_meta@));
        self.cached_variables = Some(copy_variables(&out));
        out
    }

    /// The rows of a page: none without a dataset or from past the last row;
    /// otherwise at most `limit` rows from `offset`, numbered from 1.
    pub fn get_page(&self, offset: usize, limit: usize) -> (p: PagePlan)
        ensures
            match self.rows {
                None => p == (PagePlan::Empty { total: 0 }),
                Some(total) => if offset >= total {
                    p == (PagePlan::Empty { total })
                } else {
                    page_rows(p, total, offset, limit)
                },
            },
    {
        match self.rows {
            None => PagePlan::Empty { total: 0 },
            Some(total) => {
                if offset >= total {
                    PagePlan::Empty { total }
                } else {
                    let len = if limit <= total - offset { limit } else { total - offset };
                    let mut nums: Vec<u64> = Vec::new();
                    let mut i: usize = 0;
                    while i < len
                        invariant
                            len <= total - offset,
                            offset < total,
                            i <= len,
                            nums.len() == i,
                            forall|k: int| 0 <= k < i ==> nums@[k] == offset + 1 + k,
                        decreases len - i,
                    {
                        nums.push(offset as u64 + 1 + i as u64);
                        i = i + 1;
                    }
                    PagePlan::Rows { total, offset, len, case_numbers: nums }
                }
            },
        }
    }

    /// Applies a metadata patch from the user interface to the variable `name`
    /// (creating its entry if needed) and drops the cached descriptions.
    pub fn set_variable_meta(&mut self, name: &str, meta: &Json)
        ensures
            final(self).rows == old(self).rows,
            final(self).path == old(self).path,
            final(self).float_cols == old(self).float_cols,
            final(self).cached_variables is None,
            meta_of(final(self).var_meta@, name@) == Some(patched(or_else(meta_of(old(self).var_meta@, name@), no_overrides()), *meta)),
            forall|n: Seq<char>| n != name@ ==> meta_of(#[trigger] final(self).var_meta@, n) == meta_of(old(self).var_meta@, n),
    {
        let mut m = match self.meta(name) {
            Some(x) => x.copy(),
            None => VarMeta::default(),
        };
        m.apply_patch(meta);
        self.put_meta(name, m);
        self.cached_variables = None;
    }

    /// The 0-based row of the cell with 1-based case number `case_num`, given
    /// what looking up the column gave (its length, or the lookup's error).
    pub fn cell_row(&self, case_num: usize, column: Result<usize, String>) -> (r: Result<usize, String>)
        ensures
            r matches Ok(i) ==> cell_index(self.rows is Some, case_num, lookup_view(column)) == Ok::<usize, Seq<char>>(i),
            r matches Err(e) ==> cell_index(self.rows is Some, case_num, lookup_view(column)) == Err::<usize, Seq<char>>(e@),
    {
        if self.rows.is_none() {
            return Err(String::from_str("No dataset loaded"));
        }
        if case_num == 0 {
            return Err(String::from_str("Invalid row number"));
        }
        let row = case_num - 1;
        match column {
            Err(e) => Err(e),
            Ok(len) => if row >= len {
                Err(String::from_str("Row out of range"))
            } else {
                Ok(row)
            },
        }
    }

    /// The separator for saving the dataset to `path`.
    pub fn save_plan(&self, path: &str) -> (r: Result<u8, String>)
        ensures
            self.rows is None ==> (r matches Err(e) && e@ == "No dataset loaded"@),
            self.rows is Some ==> (r matches Ok(s) ==> spec_save_separator(spec_lower_extension(path@)) == Ok::<u8, Seq<char>>(s)),
            self.rows is Some ==> (r matches Err(e) ==> spec_save_separator(spec_lower_extension(path@)) == Err::<u8, Seq<char>>(e@)),
    {
        if self.rows.is_none() {
            return Err(String::from_str("No dataset loaded"));
        }
        let ext = lower_extension(path);
        save_separator(ext.as_str())
    }

    /// Chooses the statistical procedure named `name` with its parameters.
    pub fn run_analysis(&self, name: &str, params: &Json) -> (r: Result<Procedure, String>)
        ensures
            r matches Ok(p) ==> spec_procedure(self.rows is Some, name@, *params) == Ok::<ProcedureView, Seq<char>>(p@),
            r matches Err(e) ==> spec_procedure(self.rows is Some, name@, *params) == Err::<ProcedureView, Seq<char>>(e@),
    {
        choose_procedure(self.rows.is_some(), name, params)
    }

    /// A column's display label: its variable label if set and not empty, else
    /// its name.
    pub fn display(&self, name: &str) -> (r: String)
        ensures
            r@ == (match meta_of(self.var_meta@, name@) {
                Some(m) => match m.label {
                    Some(l) => if l.len() > 0 { l } else { name@ },
                    None => name@,
                },
                None => name@,
            }),
    {
        match self.meta(name) {
            Some(m) => match &m.label {
                Some(l) => if l.as_str().is_empty() { String::from_str(name) } else { l.clone() },
                None => String::from_str(name),
            },
            None => String::from_str(name),
        }
    }
}

/// After the metadata of `name` changes, and that of no other name, the
/// described variables change only at the columns named `name`, which are
/// described from the new metadata.
pub proof fn lemma_described_after_meta_change(
    columns: Seq<ColumnInfo>,
    before: Seq<(String, VarMeta)>,
    after: Seq<(String, VarMeta)>,
    name: Seq<char>,
)
    requires
        forall|n: Seq<char>| n != name ==> #[trigger] meta_of(after, n) == meta_of(before, n),
    ensures
        described(columns, after).len() == described(columns, before).len(),
        forall|i: int| 0 <= i < columns.len() && columns[i].name@ != name
            ==> #[trigger] described(columns, after)[i] == described(columns, before)[i],
        forall|i: int| 0 <= i < columns.len() && columns[i].name@ == name
            ==> #[trigger] described(columns, after)[i] == spec_variable(columns[i], meta_of(after, name)),
{
    assert forall|i: int| 0 <= i < columns.len() && columns[i].name@ != name
        implies #[trigger] described(columns, after)[i] == described(columns, before)[i] by {
        assert(meta_of(after, columns[i].name@) == meta_of(before, columns[i].name@));
    }
}

/// The cached variable descriptions, by value.
pub open spec fn cache_view(c: Option<Vec<Variable>>) -> Option<Seq<VariableView>> {
    match c {
        Some(v) => Some(variables_view(v@)),
        None => None,
    }
}

/// What `variables` gives in state `e` for the columns `columns`: the cached
/// descriptions when there are, none without a dataset, else the columns
/// described with the engine's metadata.
pub open spec fn served(e: Engine, columns: Seq<ColumnInfo>) -> Seq<VariableView> {
    match e.cached_variables {
        Some(c) => variables_view(c@),
        None => if e.rows is None {
            Seq::empty()
        } else {
            described(columns, e.var_meta@)
        },
    }
}

/// The cache that `variables` leaves in state `e`.
pub open spec fn cached_after(e: Engine, columns: Seq<ColumnInfo>) -> Option<Seq<VariableView>> {
    match e.cached_variables {
        Some(c) => Some(variables_view(c@)),
        None => if e.rows is None {
            None
        } else {
            Some(described(columns, e.var_meta@))
        },
    }
}

/// Asking for the variables twice, with nothing in between, gives the same
/// list the second time, whatever columns the second call is handed.
pub proof fn lemma_variables_twice(
    first: Engine,
    second: Engine,
    columns: Seq<ColumnInfo>,
    later_columns: Seq<ColumnInfo>,
)
    requires
        second.rows == first.rows,
        second.var_meta == first.var_meta,
        cache_view(second.cached_variables) == cached_after(first, columns),
    ensures
        served(second, later_columns) == served(first, columns),
{
}

/// After the variables were listed and the metadata of `name` was then set
/// from a patch, the next list differs from the earlier one only at the
/// columns named `name`, which are described with the patched metadata: the
/// earlier list is not served stale.
pub proof fn lemma_variables_after_set_meta(
    listed: Engine,
    changed: Engine,
    columns: Seq<ColumnInfo>,
    name: Seq<char>,
    meta: Json,
)
    requires
        listed.rows is Some,
        cache_view(listed.cached_variables) == Some(described(columns, listed.var_meta@)),
        changed.rows == listed.rows,
        changed.cached_variables is None,
        meta_of(changed.var_meta@, name) == Some(patched(or_else(meta_of(listed.var_meta@, name), no_overrides()), meta)),
        forall|n: Seq<char>| n != name ==> #[trigger] meta_of(changed.var_meta@, n) == meta_of(listed.var_meta@, n),
    ensures
        served(changed, columns).len() == served(listed, columns).len(),
        forall|i: int| 0 <= i < columns.len() && columns[i].name@ != name
            ==> #[trigger] served(changed, columns)[i] == served(listed, columns)[i],
        forall|i: int| 0 <= i < columns.len() && columns[i].name@ == name
            ==> #[trigger] served(changed, columns)[i] == spec_variable(
                columns[i],
                Some(patched(or_else(meta_of(listed.var_meta@, name), no_overrides()), meta)),
            ),
{
    lemma_described_after_meta_change(columns, listed.var_meta@, changed.var_meta@, name);
}

/// What looking up a column gave, by value.
pub open spec fn lookup_view(column: Result<usize, String>) -> Result<usize, Seq<char>> {
    match column {
        Ok(len) => Ok(len),
        Err(e) => Err(e@),
    }
}

/// The 0-based row of a 1-based case number: an error without a dataset, for
/// case number 0, when the column lookup failed, or past the column's end.
pub open spec fn cell_index(open: bool, case_num: usize, column: Result<usize, Seq<char>>) -> Result<usize, Seq<char>> {
    if !open {
        Err("No dataset loaded"@)
    } else if case_num == 0 {
        Err("Invalid row number"@)
    } else {
        match column {
            Err(e) => Err(e),
            Ok(len) => if case_num - 1 >= len {
                Err("Row out of range"@)
            } else {
                Ok((case_num - 1) as usize)
            },
        }
    }
}

/// The case numbers a page shows lead an edit back to the rows they number:
/// case number `k` of a page from `offset` is row `offset + k` of a column as
/// long as the dataset.
pub proof fn lemma_page_case_numbers_find_rows(p: PagePlan, total: usize, offset: usize, limit: usize)
    requires
        page_rows(p, total, offset, limit),
    ensures
        match p {
            PagePlan::Rows { len, case_numbers, .. } => forall|k: int|
                0 <= k < len ==> cell_index(true, #[trigger] case_numbers@[k] as usize, Ok(total))
                    == Ok::<usize, Seq<char>>((offset + k) as usize),
            _ => false,
        },
{
}

/// A page of rows from `offset`: `limit` rows, or fewer at the end, numbered
/// from `offset + 1`.
pub open spec fn page_rows(p: PagePlan, total: usize, offset: usize, limit: usize) -> bool {
    match p {
        PagePlan::Rows { total: t, offset: o, len, case_numbers } => {
            &&& t == total
            &&& o == offset
            &&& len == (if limit <= total - offset { limit as int } else { total - offset })
            &&& case_numbers@.len() == len
            &&& forall|i: int| 0 <= i < len ==> case_numbers@[i] == offset + 1 + i
        },
        _ => false,
    }
}

pub open spec fn opt_path(p: Option<String>) -> Option<Seq<char>> {
    match p {
        Some(s) => Some(s@),
        None => None,
    }
}

/// The names of the floating-point columns, in order.
pub open spec fn float_names(columns: Seq<ColumnInfo>) -> Seq<Seq<char>>
    decreases columns.len(),
{
    if columns.len() == 0 {
        Seq::empty()
    } else {
        let rest = float_names(columns.drop_last());
        if columns.last().kind is Float {
            rest.push(columns.last().name@)
        } else {
            rest
        }
    }
}


/// A page from `offset` numbers its rows as cases `offset + 1`, `offset + 2`, ...
/// and holds `limit` of them, or all the rows that are left when fewer are.
pub proof fn lemma_page_numbering(p: PagePlan, total: usize, offset: usize, limit: usize)
    requires
        page_rows(p, total, offset, limit),
    ensures
        p matches PagePlan::Rows { len, case_numbers, .. } && len <= limit && offset + len <= total
            && (len == limit || offset + len == total)
            && forall|k: int| 0 <= k < len ==> #[trigger] case_numbers@[k] == offset + 1 + k,
{
}


/// The metadata table answers a name with its first entry of that name, and
/// with nothing when no entry has it.
pub proof fn lemma_meta_of_first_entry(table: Seq<(String, VarMeta)>, name: Seq<char>)
    ensures
        meta_of(table, name) is None <==> forall|i: int| 0 <= i < table.len() ==> (#[trigger] table[i]).0@ != name,
        meta_of(table, name) is Some ==> exists|i: int| 0 <= i < table.len() && (#[trigger] table[i]).0@ == name
            && meta_of(table, name) == Some(table[i].1@)
            && forall|j: int| 0 <= j < i ==> (#[trigger] table[j]).0@ != name,
    decreases table.len(),
{
    if table.len() > 0 {
        let rest = table.drop_first();
        lemma_meta_of_first_entry(rest, name);
        assert forall|i: int| 0 <= i < rest.len() implies rest[i] == table[i + 1] by {}
        if table[0].0@ == name {
            assert(table[0].0@ == name);
        } else if meta_of(rest, name) is Some {
            let i = choose|i: int| 0 <= i < rest.len() && (#[trigger] rest[i]).0@ == name
                && meta_of(rest, name) == Some(rest[i].1@)
                && forall|j: int| 0 <= j < i ==> (#[trigger] rest[j]).0@ != name;
            assert(table[i + 1] == rest[i]);
            assert forall|j: int| 0 <= j < i + 1 implies (#[trigger] table[j]).0@ != name by {
                if j > 0 {
                    assert(table[j] == rest[j - 1]);
                }
            }
        } else {
            assert forall|i: int| 0 <= i < table.len() implies (#[trigger] table[i]).0@ != name by {
                if i > 0 {
                    assert(table[i] == rest[i - 1]);
                }
            }
        }
    }
}

/// Among metadata entries that come with a file, the last entry of a name is
/// the one that counts, and a name without entries has none.
pub proof fn lemma_last_meta_last_entry(list: Seq<(String, VarMeta)>, name: Seq<char>)
    ensures
        last_meta(list, name) is None <==> forall|i: int| 0 <= i < list.len() ==> (#[trigger] list[i]).0@ != name,
        last_meta(list, name) is Some ==> exists|i: int| 0 <= i < list.len() && (#[trigger] list[i]).0@ == name
            && last_meta(list, name) == Some(list[i].1@)
            && forall|j: int| i < j < list.len() ==> (#[trigger] list[j]).0@ != name,
    decreases list.len(),
{
    if list.len() > 0 {
        let rest = list.drop_last();
        lemma_last_meta_last_entry(rest, name);
        assert forall|i: int| 0 <= i < rest.len() implies rest[i] == list[i] by {}
        if list.last().0@ == name {
            assert(list[list.len() - 1].0@ == name);
        } else if last_meta(rest, name) is Some {
            let i = choose|i: int| 0 <= i < rest.len() && (#[trigger] rest[i]).0@ == name
                && last_meta(rest, name) == Some(rest[i].1@)
                && forall|j: int| i < j < rest.len() ==> (#[trigger] rest[j]).0@ != name;
            assert(list[i] == rest[i]);
            assert forall|j: int| i < j < list.len() implies (#[trigger] list[j]).0@ != name by {
                if j < list.len() - 1 {
                    assert(list[j] == rest[j]);
                }
            }
        } else {
            assert forall|i: int| 0 <= i < list.len() implies (#[trigger] list[i]).0@ != name by {
                if i < list.len() - 1 {
                    assert(list[i] == rest[i]);
                }
            }
        }
    }
}

} // verus!
