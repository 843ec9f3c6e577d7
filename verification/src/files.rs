//! File names and formats: which reader or writer a path calls for, and the
//! listing of a folder in the File Explorer.
use vstd::prelude::*;
use vstd::string::*;
use crate::meta::opt_text;
use crate::order::{
    SortRecord, sort_records, records_sorted, record_le, record_lt, record_same, text_lt, indexed,
    permuted_rows, lemma_permuted_rows, lemma_map_permutation, sum_of, lemma_sum_of_split,
    lemma_sum_of_const, lemma_sum_of_permutation, lemma_sum_of_pointwise, lemma_text_lt_ne,
    lemma_text_antisymmetric, has_row,
};
use crate::text::compare_text;

verus! {

/// What `Path::file_name` of std gives for a path, as text.
pub uninterp spec fn spec_file_name(path: Seq<char>) -> Option<Seq<char>>;

/// What `str::to_lowercase` of std gives for a text.
pub uninterp spec fn spec_lowercase(s: Seq<char>) -> Seq<char>;

/// The position of the last dot of a name.
pub open spec fn last_dot(name: Seq<char>) -> Option<int>
    decreases name.len(),
{
    if name.len() == 0 {
        None
    } else if name.last() == '.' {
        Some(name.len() - 1)
    } else {
        last_dot(name.drop_last())
    }
}

/// The extension of a file name as `Path::extension` documents it: none without
/// a file name, without a dot, or when the only dot begins the name; otherwise
/// the text after the last dot.
pub open spec fn name_extension(name: Option<Seq<char>>) -> Option<Seq<char>> {
    match name {
        None => None,
        Some(n) => if n == ".."@ {
            None
        } else {
            match last_dot(n) {
                None => None,
                Some(i) => if i == 0 { None } else { Some(n.skip(i + 1)) },
            }
        },
    }
}

/// Calls `Path::extension` of std, which takes the extension of the path's
/// file name (`Path::file_name`, the name `spec_file_name`) by the rules of
/// `name_extension`.
#[verifier::external_body]
fn path_extension(path: &str) -> (r: Option<String>)
    ensures
        opt_text(r) == name_extension(spec_file_name(path@)),
{
    match std::path::Path::new(path).extension() {
        Some(e) => Some(e.to_string_lossy().into_owned()),
        None => None,
    }
}

/// Calls `Path::file_name` of std: the last component of the path; the rules
/// are left to the name `spec_file_name`.
#[verifier::external_body]
fn path_file_name(path: &str) -> (r: Option<String>)
    ensures
        opt_text(r) == spec_file_name(path@),
{
    match std::path::Path::new(path).file_name() {
        Some(e) => Some(e.to_string_lossy().into_owned()),
        None => None,
    }
}

/// ASCII lowercase of a character; other characters are unchanged.
pub open spec fn ascii_lower_char(c: char) -> char {
    if 'A' <= c <= 'Z' {
        ((c as u32) + 32) as char
    } else {
        c
    }
}

/// Calls `str::to_lowercase` of std: the Unicode lowercase of a text. On ASCII
/// text it lowercases the ASCII letters and keeps the rest; beyond ASCII the
/// mapping is left to the name `spec_lowercase`.
#[verifier::external_body]
fn lowercase(s: &str) -> (r: String)
    ensures
        r@ == spec_lowercase(s@),
        (forall|i: int| 0 <= i < s@.len() ==> (#[trigger] s@[i] as u32) < 128)
            ==> r@ == s@.map_values(|c: char| ascii_lower_char(c)),
{
    s.to_lowercase()
}

pub open spec fn text_or_empty(o: Option<Seq<char>>) -> Seq<char> {
    match o {
        Some(t) => t,
        None => Seq::empty(),
    }
}

/// The lowercased extension of a path, empty when it has none.
pub open spec fn spec_lower_extension(path: Seq<char>) -> Seq<char> {
    spec_lowercase(text_or_empty(name_extension(spec_file_name(path))))
}

/// The lowercased extension of a path, empty when it has none.
pub fn lower_extension(path: &str) -> (r: String)
    ensures
        r@ == spec_lower_extension(path@),
{
    match path_extension(path) {
        Some(e) => lowercase(e.as_str()),
        None => lowercase(String::new().as_str()),
    }
}

/// The file name of a path, empty when it has none.
pub fn file_name_of(path: &str) -> (r: String)
    ensures
        r@ == text_or_empty(spec_file_name(path@)),
{
    match path_file_name(path) {
        Some(n) => n,
        None => String::new(),
    }
}

/// How a data file is read.
#[derive(Debug, Clone, Copy, PartialEq, Eq, Structural)]
pub enum LoadSource {
    /// Delimited text with a header row; the separator byte.
    Delimited(u8),
    /// An SPSS system file (.sav / .zsav).
    Spss,
}

pub open spec fn not_yet_supported(ext: Seq<char>) -> Seq<char> {
    "."@ + ext + " is not yet supported by the native engine (only .tab/.tsv/.csv). This format will be restored in a later release."@
}

pub open spec fn unsupported_type(ext: Seq<char>) -> Seq<char> {
    "Unsupported file type: ."@ + ext
}

/// The reader for a lowercased extension: tab-separated for .tab and .tsv,
/// comma-separated for .csv, SPSS for .sav and .zsav; other spreadsheet and
/// statistics formats are not supported yet, anything else is unknown.
pub open spec fn spec_load_source(ext: Seq<char>) -> Result<LoadSource, Seq<char>> {
    if ext == "tab"@ || ext == "tsv"@ {
        Ok(LoadSource::Delimited(9))
    } else if ext == "csv"@ {
        Ok(LoadSource::Delimited(44))
    } else if ext == "sav"@ || ext == "zsav"@ {
        Ok(LoadSource::Spss)
    } else if ext == "xlsx"@ || ext == "xls"@ || ext == "dta"@ || ext == "sas7bdat"@ {
        Err(not_yet_supported(ext))
    } else {
        Err(unsupported_type(ext))
    }
}

fn is(ext: &str, lit: &str) -> (r: bool)
    ensures
        r == (ext@ == lit@),
{
    compare_text(ext, lit) == 0
}

/// The reader for a lowercased extension.
pub fn load_source(ext: &str) -> (r: Result<LoadSource, String>)
    ensures
        r matches Ok(s) ==> spec_load_source(ext@) == Ok::<LoadSource, Seq<char>>(s),
        r matches Err(e) ==> spec_load_source(ext@) == Err::<LoadSource, Seq<char>>(e@),
{
    if is(ext, "tab") || is(ext, "tsv") {
        Ok(LoadSource::Delimited(9))
    } else if is(ext, "csv") {
        Ok(LoadSource::Delimited(44))
    } else if is(ext, "sav") || is(ext, "zsav") {
        Ok(LoadSource::Spss)
    } else if is(ext, "xlsx") || is(ext, "xls") || is(ext, "dta") || is(ext, "sas7bdat") {
        let mut e = String::from_str(".");
        e.append(ext);
        e.append(" is not yet supported by the native engine (only .tab/.tsv/.csv). This format will be restored in a later release.");
        Err(e)
    } else {
        let mut e = String::from_str("Unsupported file type: .");
        e.append(ext);
        Err(e)
    }
}

pub open spec fn cannot_save(ext: Seq<char>) -> Seq<char> {
    "Saving ."@ + ext + " is not yet supported by the native engine (use .tab/.tsv/.csv)."@
}

/// The separator for writing a lowercased extension: tab for .tab and .tsv,
/// comma for .csv; other formats cannot be written yet.
pub open spec fn spec_save_separator(ext: Seq<char>) -> Result<u8, Seq<char>> {
    if ext == "tab"@ || ext == "tsv"@ {
        Ok(9)
    } else if ext == "csv"@ {
        Ok(44)
    } else {
        Err(cannot_save(ext))
    }
}

/// The separator for writing a lowercased extension.
pub fn save_separator(ext: &str) -> (r: Result<u8, String>)
    ensures
        r matches Ok(s) ==> spec_save_separator(ext@) == Ok::<u8, Seq<char>>(s),
        r matches Err(e) ==> spec_save_separator(ext@) == Err::<u8, Seq<char>>(e@),
{
    if is(ext, "tab") || is(ext, "tsv") {
        Ok(9)
    } else if is(ext, "csv") {
        Ok(44)
    } else {
        let mut e = String::from_str("Saving .");
        e.append(ext);
        e.append(" is not yet supported by the native engine (use .tab/.tsv/.csv).");
        Err(e)
    }
}

/// A file saved to a path is read back from that path as the same delimited
/// format: whenever saving picks a separator, loading picks it too.
pub proof fn lemma_saved_file_reloads(path: Seq<char>)
    ensures
        spec_save_separator(spec_lower_extension(path)) matches Ok(s) ==> spec_load_source(spec_lower_extension(path))
            == Ok::<LoadSource, Seq<char>>(LoadSource::Delimited(s)),
{
}

/// An entry of a folder as read from disk.
#[derive(Debug)]
pub struct DirItem {
    pub name: String,
    pub path: String,
    pub is_dir: bool,
}

/// An entry shown in the File Explorer.
#[derive(Debug)]
pub struct DirEntry {
    pub name: String,
    pub path: String,
    pub is_directory: bool,
    /// The lowercased extension with its dot, or empty.
    pub ext: String,
}

pub struct DirEntryView {
    pub name: Seq<char>,
    pub path: Seq<char>,
    pub is_directory: bool,
    pub ext: Seq<char>,
}

impl View for DirEntry {
    type V = DirEntryView;

    open spec fn view(&self) -> DirEntryView {
        DirEntryView { name: self.name@, path: self.path@, is_directory: self.is_directory, ext: self.ext@ }
    }
}

/// The extensions of data files that the File Explorer shows.
pub open spec fn is_data_ext(e: Seq<char>) -> bool {
    e == "tab"@ || e == "tsv"@ || e == "csv"@ || e == "xlsx"@ || e == "xls"@ || e == "sav"@ || e == "dta"@
        || e == "sas7bdat"@
}

/// The entry shown for an item: folders and data files only.
pub open spec fn shown_entry(item: DirItem) -> Option<DirEntryView> {
    let ext = spec_lower_extension(item.path@);
    if !item.is_dir && !is_data_ext(ext) {
        None
    } else {
        Some(DirEntryView {
            name: item.name@,
            path: item.path@,
            is_directory: item.is_dir,
            ext: if ext.len() == 0 { Seq::empty() } else { "."@ + ext },
        })
    }
}

/// The entries shown, in the order of the items.
pub open spec fn shown_entries(items: Seq<DirItem>) -> Seq<DirEntryView>
    decreases items.len(),
{
    if items.len() == 0 {
        Seq::empty()
    } else {
        let rest = shown_entries(items.drop_last());
        match shown_entry(items.last()) {
            Some(e) => rest.push(e),
            None => rest,
        }
    }
}

/// Order of the listing: folders first, then by lowercased name.
pub open spec fn listing_le(a: DirEntryView, b: DirEntryView) -> bool {
    ||| a.is_directory && !b.is_directory
    ||| a.is_directory == b.is_directory && (text_lt(spec_lowercase(a.name), spec_lowercase(b.name))
        || spec_lowercase(a.name) == spec_lowercase(b.name))
}

pub open spec fn entries_view(v: Seq<DirEntry>) -> Seq<DirEntryView> {
    v.map_values(|e: DirEntry| e@)
}

/// Entry `j` comes before entry `i` in the listing: folders first, then by
/// lowercased name, and in folder order where those tie.
pub open spec fn listed_before(s: Seq<DirEntryView>, j: int, i: int) -> bool {
    ||| s[j].is_directory && !s[i].is_directory
    ||| s[j].is_directory == s[i].is_directory && text_lt(spec_lowercase(s[j].name), spec_lowercase(s[i].name))
    ||| s[j].is_directory == s[i].is_directory && spec_lowercase(s[j].name) == spec_lowercase(s[i].name) && j < i
}

pub open spec fn before_ind(s: Seq<DirEntryView>, i: int) -> spec_fn(int) -> int {
    |j: int| if listed_before(s, j, i) { 1int } else { 0int }
}

/// The place of entry `i` in the listing: the number of entries listed before it.
pub open spec fn listing_place(s: Seq<DirEntryView>, i: int) -> int {
    sum_of(Seq::new(s.len(), |j: int| j), before_ind(s, i))
}

/// The sort record of entry `m`: folders before files, the lowercased name, the row.
pub open spec fn listing_record(s: Seq<DirEntryView>, m: int, r: SortRecord) -> bool {
    &&& r.0 == (if s[m].is_directory { 0u64 } else { 1u64 })
    &&& r.1 == 0
    &&& r.2@ == spec_lowercase(s[m].name)
    &&& r.3 == m
}

proof fn lemma_record_le_not_lt(a: SortRecord, b: SortRecord)
    requires
        record_le(a, b),
    ensures
        !record_lt(b, a),
{
    if a.0 == b.0 && a.1 == b.1 {
        if text_lt(b.2@, a.2@) {
            if a.2@ == b.2@ {
                lemma_text_lt_ne(b.2@, a.2@);
            } else if text_lt(a.2@, b.2@) {
                lemma_text_antisymmetric(a.2@, b.2@);
            }
        }
    }
}

/// A record at place `p` of the sorted records is preceded by exactly the
/// entries listed before its own.
proof fn lemma_listing_place(s: Seq<DirEntryView>, orig: Seq<SortRecord>, recs: Seq<SortRecord>, p: int)
    requires
        orig.len() == s.len(),
        forall|m: int| 0 <= m < s.len() ==> listing_record(s, m, #[trigger] orig[m]),
        permuted_rows(orig, recs),
        recs.to_multiset() == orig.to_multiset(),
        records_sorted(recs),
        0 <= p < recs.len(),
    ensures
        listing_place(s, recs[p].3 as int) == p,
{
    let i = recs[p].3 as int;
    let r = recs[p];
    assert(orig[i] == r);
    let f = |x: SortRecord| if record_lt(x, r) { 1int } else { 0int };
    lemma_sum_of_split(recs, p, f);
    let pre = recs.take(p);
    let post = recs.skip(p);
    assert forall|k: int| 0 <= k < pre.len() implies f(#[trigger] pre[k]) == 1 by {
        assert(pre[k] == recs[k]);
        assert(record_le(recs[k], recs[p]));
        assert(recs[k].3 != recs[p].3);
    }
    lemma_sum_of_const(pre, f, 1);
    assert forall|k: int| 0 <= k < post.len() implies f(#[trigger] post[k]) == 0 by {
        assert(post[k] == recs[p + k]);
        if k == 0 {
            assert(record_le(r, r)) by {
                assert(record_same(r, r));
            }
        } else {
            assert(record_le(recs[p], recs[p + k]));
        }
        lemma_record_le_not_lt(r, recs[p + k]);
    }
    lemma_sum_of_const(post, f, 0);
    lemma_sum_of_permutation(recs, orig, f);
    let idx = Seq::new(s.len(), |j: int| j);
    assert forall|j: int| 0 <= j < orig.len() implies f(#[trigger] orig[j]) == (before_ind(s, i))(idx[j]) by {
        assert(listing_record(s, j, orig[j]));
        assert(listing_record(s, i, orig[i]));
    }
    lemma_sum_of_pointwise(orig, idx, f, before_ind(s, i));
}

fn is_data_extension(e: &str) -> (r: bool)
    ensures
        r == is_data_ext(e@),
{
    is(e, "tab") || is(e, "tsv") || is(e, "csv") || is(e, "xlsx") || is(e, "xls") || is(e, "sav")
        || is(e, "dta") || is(e, "sas7bdat")
}

fn copy_entry(e: &DirEntry) -> (r: DirEntry)
    ensures
        r@ == e@,
{
    DirEntry { name: e.name.clone(), path: e.path.clone(), is_directory: e.is_directory, ext: e.ext.clone() }
}

/// The entries of a folder as the File Explorer lists them: folders and data
/// files only, folders first, then by lowercased name, entries that tie in the
/// order of the folder. Each shown entry is at its listing place.
pub fn list_directory(items: &Vec<DirItem>) -> (out: Vec<DirEntry>)
    ensures
        entries_view(out@).to_multiset() == shown_entries(items@).to_multiset(),
        forall|a: int, b: int| 0 <= a < b < out.len() ==> listing_le(#[trigger] out@[a]@, #[trigger] out@[b]@),
        out.len() == shown_entries(items@).len(),
        forall|i: int| 0 <= i < out.len() ==> 0 <= #[trigger] listing_place(shown_entries(items@), i) < out.len()
            && out@[listing_place(shown_entries(items@), i)]@ == shown_entries(items@)[i],
{
    let mut kept: Vec<DirEntry> = Vec::new();
    let mut i: usize = 0;
    while i < items.len()
        invariant
            i <= items.len(),
            entries_view(kept@) == shown_entries(items@.take(i as int)),
        decreases items.len() - i,
    {
        assert(items@.take(i + 1).drop_last() =~= items@.take(i as int));
        assert(items@.take(i + 1).last() == items@[i as int]);
        let item = &items[i];
        let ext = lower_extension(item.path.as_str());
        if item.is_dir || is_data_extension(ext.as_str()) {
            let shown_ext = if ext.as_str().is_empty() {
                String::new()
            } else {
                let mut d = String::from_str(".");
                d.append(ext.as_str());
                d
            };
            kept.push(DirEntry {
                name: item.name.clone(),
                path: item.path.clone(),
                is_directory: item.is_dir,
                ext: shown_ext,
            });
            assert(entries_view(kept@) =~= entries_view(kept@.drop_last()).push(kept@.last()@));
        }
        i = i + 1;
    }
    assert(items@.take(items.len() as int) =~= items@);
    let ghost shown = entries_view(kept@);
    let n = kept.len();
    let mut recs: Vec<SortRecord> = Vec::new();
    let mut k: usize = 0;
    while k < n
        invariant
            n == kept.len(),
            k <= n,
            recs.len() == k,
            forall|m: int|
                0 <= m < k ==> (#[trigger] recs@[m]).3 == m && recs@[m].1 == 0 && recs@[m].0 == (if kept@[m].is_directory { 0u64 } else { 1u64 })
                    && recs@[m].2@ == spec_lowercase(kept@[m].name@),
        decreases n - k,
    {
        let key = lowercase(kept[k].name.as_str());
        let tag: u64 = if kept[k].is_directory { 0 } else { 1 };
        recs.push((tag, 0u64, key, k));
        k = k + 1;
    }
    let ghost orig = recs@;
    sort_records(&mut recs);
    proof {
        lemma_permuted_rows(orig, recs@);
    }
    let mut out: Vec<DirEntry> = Vec::new();
    let mut k: usize = 0;
    while k < n
        invariant
            n == kept.len(),
            n == recs.len(),
            permuted_rows(orig, recs@),
            k <= n,
            out.len() == k,
            forall|m: int| 0 <= m < k ==> (#[trigger] out@[m])@ == kept@[recs@[m].3 as int]@,
        decreases n - k,
    {
        let row = recs[k].3;
        out.push(copy_entry(&kept[row]));
        k = k + 1;
    }
    proof {
        let f = |r: SortRecord| shown[r.3 as int];
        assert(orig.map_values(f) =~= shown);
        assert(recs@.map_values(f) =~= entries_view(out@));
        lemma_map_permutation(recs@, orig, f);
        assert forall|a: int, b: int| 0 <= a < b < out.len() implies listing_le(#[trigger] out@[a]@, #[trigger] out@[b]@) by {
            let ra = recs@[a];
            let rb = recs@[b];
            assert(record_le(ra, rb));
            assert(orig[ra.3 as int] == ra);
            assert(orig[rb.3 as int] == rb);
        }
        assert forall|m: int| 0 <= m < n implies listing_record(shown, m, #[trigger] orig[m]) by {
            assert(shown[m] == kept@[m]@);
        }
        assert forall|i: int| 0 <= i < out.len() implies 0 <= #[trigger] listing_place(shown, i) < out.len()
            && out@[listing_place(shown, i)]@ == shown[i] by {
            assert(has_row(recs@, i));
            let k = choose|k: int| 0 <= k < recs.len() && (#[trigger] recs@[k]).3 == i;
            lemma_listing_place(shown, orig, recs@, k);
        }
    }
    out
}

/// The platform name the user interface understands (as Node's
/// `process.platform`): "darwin" for macOS, "win32" for Windows, else the name.
pub fn platform_name(os: &str) -> (r: String)
    ensures
        r@ == (if os@ == "macos"@ { "darwin"@ } else if os@ == "windows"@ { "win32"@ } else { os@ }),
{
    if is(os, "macos") {
        String::from_str("darwin")
    } else if is(os, "windows") {
        String::from_str("win32")
    } else {
        String::from_str(os)
    }
}

/// The program that opens a URL on the platform.
pub fn opener_program(os: &str) -> (r: &'static str)
    ensures
        r@ == (if os@ == "macos"@ { "open"@ } else if os@ == "windows"@ { "explorer"@ } else { "xdg-open"@ }),
{
    if is(os, "macos") {
        "open"
    } else if is(os, "windows") {
        "explorer"
    } else {
        "xdg-open"
    }
}

/// What a native menu item does.
#[derive(Debug, Clone, Copy, PartialEq, Eq, Structural)]
pub enum MenuAction {
    /// Reload the web view.
    Reload,
    /// Open or close the developer tools.
    ToggleDevtools,
    /// Pass the event on to the user interface under the item's id.
    Forward,
}

/// The action for a menu item id.
pub fn menu_action(id: &str) -> (r: MenuAction)
    ensures
        r == (if id@ == "menu:view:reload"@ {
            MenuAction::Reload
        } else if id@ == "menu:view:devtools"@ {
            MenuAction::ToggleDevtools
        } else {
            MenuAction::Forward
        }),
{
    if is(id, "menu:view:reload") {
        MenuAction::Reload
    } else if is(id, "menu:view:devtools") {
        MenuAction::ToggleDevtools
    } else {
        MenuAction::Forward
    }
}


/// The File Explorer shows every folder, and a file exactly when its lowercased
/// extension is that of a data format: tab, tsv, csv, xlsx, xls, sav, dta or
/// sas7bdat; in particular every file the engine reads as delimited text. A
/// shown entry keeps the item's name, path and kind, with the extension after
/// a dot.
pub proof fn lemma_listing_shows_data_files(item: DirItem)
    ensures
        shown_entry(item) is Some <==> (item.is_dir || ({
            let e = spec_lower_extension(item.path@);
            e == "tab"@ || e == "tsv"@ || e == "csv"@ || e == "xlsx"@ || e == "xls"@ || e == "sav"@
                || e == "dta"@ || e == "sas7bdat"@
        })),
        spec_load_source(spec_lower_extension(item.path@)) matches Ok(LoadSource::Delimited(_)) ==> shown_entry(item) is Some,
        shown_entry(item) matches Some(x) ==> x.name == item.name@ && x.path == item.path@ && x.is_directory == item.is_dir
            && x.ext == (if spec_lower_extension(item.path@).len() == 0 {
                Seq::<char>::empty()
            } else {
                "."@ + spec_lower_extension(item.path@)
            }),
{
}

/// Every shown item of a folder is among the entries listed.
pub proof fn lemma_shown_items_listed(items: Seq<DirItem>, i: int)
    requires
        0 <= i < items.len(),
        shown_entry(items[i]) is Some,
    ensures
        shown_entries(items).contains(shown_entry(items[i]).unwrap()),
    decreases items.len(),
{
    if i < items.len() - 1 {
        lemma_shown_items_listed(items.drop_last(), i);
        let rest = shown_entries(items.drop_last());
        let k = choose|k: int| 0 <= k < rest.len() && rest[k] == shown_entry(items[i]).unwrap();
        assert(items.drop_last()[i] == items[i]);
        match shown_entry(items.last()) {
            Some(e) => assert(rest.push(e)[k] == rest[k]),
            None => {},
        }
    } else {
        let rest = shown_entries(items.drop_last());
        assert(rest.push(shown_entry(items[i]).unwrap())[rest.len() as int] == shown_entry(items[i]).unwrap());
    }
}

/// Reading and writing by extension: .tab and .tsv are tab-separated, .csv is
/// comma-separated, .sav and .zsav are SPSS files, for reading and (the
/// delimited ones only) for writing; every other extension is refused.
pub proof fn lemma_formats(ext: Seq<char>)
    ensures
        spec_load_source(ext) == Ok::<LoadSource, Seq<char>>(LoadSource::Delimited(9)) <==> (ext == "tab"@ || ext == "tsv"@),
        spec_load_source(ext) == Ok::<LoadSource, Seq<char>>(LoadSource::Delimited(44)) <==> ext == "csv"@,
        spec_load_source(ext) == Ok::<LoadSource, Seq<char>>(LoadSource::Spss) <==> (ext == "sav"@ || ext == "zsav"@),
        spec_load_source(ext) is Ok <==> (ext == "tab"@ || ext == "tsv"@ || ext == "csv"@ || ext == "sav"@ || ext == "zsav"@),
        spec_save_separator(ext) == Ok::<u8, Seq<char>>(9) <==> (ext == "tab"@ || ext == "tsv"@),
        spec_save_separator(ext) == Ok::<u8, Seq<char>>(44) <==> ext == "csv"@,
        spec_save_separator(ext) is Ok <==> (ext == "tab"@ || ext == "tsv"@ || ext == "csv"@),
{
    reveal_strlit("tab");
    reveal_strlit("tsv");
    reveal_strlit("csv");
    reveal_strlit("sav");
    reveal_strlit("zsav");
    assert("csv"@ != "tab"@ && "csv"@ != "tsv"@) by {
        assert("csv"@[0] != "tab"@[0] && "csv"@[0] != "tsv"@[0]);
    }
    assert("sav"@ != "tab"@ && "sav"@ != "tsv"@ && "sav"@ != "csv"@) by {
        assert("sav"@[0] != "tab"@[0] && "sav"@[0] != "tsv"@[0] && "sav"@[0] != "csv"@[0]);
    }
    assert("zsav"@ != "tab"@ && "zsav"@ != "tsv"@ && "zsav"@ != "csv"@) by {
        assert("zsav"@.len() != "tab"@.len() && "zsav"@.len() != "tsv"@.len() && "zsav"@.len() != "csv"@.len());
    }
}


/// In a listing ordered by `listing_le`, folders come before files, and within
/// folders and within files the lowercased names never decrease.
pub proof fn lemma_listing_order(out: Seq<DirEntryView>, a: int, b: int)
    requires
        forall|i: int, j: int| 0 <= i < j < out.len() ==> listing_le(#[trigger] out[i], #[trigger] out[j]),
        0 <= a < b < out.len(),
    ensures
        out[b].is_directory ==> out[a].is_directory,
        out[a].is_directory == out[b].is_directory ==> !text_lt(spec_lowercase(out[b].name), spec_lowercase(out[a].name)),
{
    assert(listing_le(out[a], out[b]));
    let x = spec_lowercase(out[a].name);
    let y = spec_lowercase(out[b].name);
    if text_lt(y, x) {
        if text_lt(x, y) {
            lemma_text_antisymmetric(x, y);
            lemma_text_lt_ne(x, y);
        } else if x == y {
            lemma_text_lt_ne(y, x);
        }
    }
}

} // verus!
