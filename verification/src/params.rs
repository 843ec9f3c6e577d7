//! Reading the parameters of a statistical procedure, and choosing the
//! procedure from its name.
use vstd::prelude::*;
use vstd::string::*;
use crate::json::{Json, json_get, json_text, lookup};
use crate::text::compare_text;

verus! {

pub open spec fn strs_view(v: Seq<String>) -> Seq<Seq<char>> {
    v.map_values(|s: String| s@)
}

pub open spec fn pairs_view(v: Seq<(String, String)>) -> Seq<(Seq<char>, Seq<char>)> {
    v.map_values(|p: (String, String)| (p.0@, p.1@))
}

/// "Missing parameter '<key>'"
pub open spec fn missing_param(key: Seq<char>) -> Seq<char> {
    "Missing parameter '"@ + key + "'"@
}

/// "Select at least one variable for '<key>'"
pub open spec fn select_one(key: Seq<char>) -> Seq<char> {
    "Select at least one variable for '"@ + key + "'"@
}

/// A required string parameter.
pub open spec fn spec_p_str(params: Json, key: Seq<char>) -> Result<Seq<char>, Seq<char>> {
    match json_text(json_get(params, key)) {
        Some(s) => Ok(s),
        None => Err(missing_param(key)),
    }
}

/// The strings among the elements of an array, in order.
pub open spec fn texts_in(s: Seq<Json>) -> Seq<Seq<char>>
    decreases s.len(),
{
    if s.len() == 0 {
        Seq::empty()
    } else {
        let rest = texts_in(s.drop_last());
        match s.last() {
            Json::Text(t) => rest.push(t@),
            _ => rest,
        }
    }
}

/// A required list of variable names: the strings of an array, at least one.
pub open spec fn spec_p_strs(params: Json, key: Seq<char>) -> Result<Seq<Seq<char>>, Seq<char>> {
    match json_get(params, key) {
        Some(Json::Array(a)) => if texts_in(a@).len() == 0 {
            Err(select_one(key))
        } else {
            Ok(texts_in(a@))
        },
        _ => Err(missing_param(key)),
    }
}

/// One pair: a two-element array of strings.
pub open spec fn pair_of(j: Json) -> Option<(Seq<char>, Seq<char>)> {
    match j {
        Json::Array(a) => if a@.len() == 2 {
            match (a@[0], a@[1]) {
                (Json::Text(x), Json::Text(y)) => Some((x@, y@)),
                _ => None,
            }
        } else {
            None
        },
        _ => None,
    }
}

pub open spec fn pairs_of(s: Seq<Json>) -> Option<Seq<(Seq<char>, Seq<char>)>>
    decreases s.len(),
{
    if s.len() == 0 {
        Some(Seq::empty())
    } else {
        match pairs_of(s.drop_last()) {
            Some(rest) => match pair_of(s.last()) {
                Some(p) => Some(rest.push(p)),
                None => None,
            },
            None => None,
        }
    }
}

/// The `pairs` parameter: an array of `[first, second]` arrays, at least one.
pub open spec fn spec_pairs(params: Json) -> Result<Seq<(Seq<char>, Seq<char>)>, Seq<char>> {
    match json_get(params, "pairs"@) {
        Some(Json::Array(a)) => match pairs_of(a@) {
            Some(ps) => if ps.len() == 0 {
                Err("Add at least one pair"@)
            } else {
                Ok(ps)
            },
            None => Err("Each pair must be a [first, second] array"@),
        },
        _ => Err(missing_param("pairs"@)),
    }
}

fn missing_param_text(key: &str) -> (s: String)
    ensures
        s@ == missing_param(key@),
{
    let mut s = String::from_str("Missing parameter '");
    s.append(key);
    s.append("'");
    s
}

/// A required string parameter.
pub fn p_str(params: &Json, key: &str) -> (r: Result<String, String>)
    ensures
        r matches Ok(s) ==> spec_p_str(*params, key@) == Ok::<Seq<char>, Seq<char>>(s@),
        r matches Err(e) ==> spec_p_str(*params, key@) == Err::<Seq<char>, Seq<char>>(e@),
{
    match params.get(key) {
        Some(v) => match v.as_text() {
            Some(s) => Ok(s.clone()),
            None => Err(missing_param_text(key)),
        },
        None => Err(missing_param_text(key)),
    }
}

/// An optional string parameter.
pub fn p_str_opt(params: &Json, key: &str) -> (r: Option<String>)
    ensures
        r matches Some(s) ==> json_text(json_get(*params, key@)) == Some(s@),
        r is None ==> json_text(json_get(*params, key@)) is None,
{
    match params.get(key) {
        Some(v) => match v.as_text() {
            Some(s) => Some(s.clone()),
            None => None,
        },
        None => None,
    }
}

/// The strings among the elements of an array, in order.
fn texts_of_array(arr: &Vec<Json>) -> (out: Vec<String>)
    ensures
        strs_view(out@) == texts_in(arr@),
{
    let mut out: Vec<String> = Vec::new();
    let mut i: usize = 0;
    while i < arr.len()
        invariant
            i <= arr.len(),
            strs_view(out@) == texts_in(arr@.take(i as int)),
        decreases arr.len() - i,
    {
        assert(arr@.take(i + 1).drop_last() =~= arr@.take(i as int));
        match arr[i].as_text() {
            Some(s) => {
                out.push(s.clone());
                assert(strs_view(out@) =~= texts_in(arr@.take(i as int)).push(s@));
            },
            None => {},
        }
        i = i + 1;
    }
    assert(arr@.take(arr.len() as int) =~= arr@);
    out
}

/// An optional list of variable names: the strings of an array, none when the
/// parameter is absent or not an array.
pub open spec fn spec_p_strs_opt(params: Json, key: Seq<char>) -> Seq<Seq<char>> {
    match json_get(params, key) {
        Some(Json::Array(a)) => texts_in(a@),
        _ => Seq::empty(),
    }
}

/// An optional list of variable names.
pub fn p_strs_opt(params: &Json, key: &str) -> (r: Vec<String>)
    ensures
        strs_view(r@) == spec_p_strs_opt(*params, key@),
{
    match params.get(key) {
        Some(v) => match v.as_array() {
            Some(a) => texts_of_array(a),
            None => Vec::new(),
        },
        None => Vec::new(),
    }
}

/// A required, non-empty list of variable names.
pub fn p_strs(params: &Json, key: &str) -> (r: Result<Vec<String>, String>)
    ensures
        r matches Ok(v) ==> spec_p_strs(*params, key@) == Ok::<Seq<Seq<char>>, Seq<char>>(strs_view(v@)),
        r matches Err(e) ==> spec_p_strs(*params, key@) == Err::<Seq<Seq<char>>, Seq<char>>(e@),
{
    let arr = match params.get(key) {
        Some(v) => match v.as_array() {
            Some(a) => a,
            None => {
                return Err(missing_param_text(key));
            },
        },
        None => {
            return Err(missing_param_text(key));
        },
    };
    let out = texts_of_array(arr);
    if out.len() == 0 {
        let mut s = String::from_str("Select at least one variable for '");
        s.append(key);
        s.append("'");
        return Err(s);
    }
    Ok(out)
}

/// The `pairs` parameter: a non-empty array of `[first, second]` arrays of names.
pub fn pairs(params: &Json) -> (r: Result<Vec<(String, String)>, String>)
    ensures
        r matches Ok(v) ==> spec_pairs(*params) == Ok::<Seq<(Seq<char>, Seq<char>)>, Seq<char>>(pairs_view(v@)),
        r matches Err(e) ==> spec_pairs(*params) == Err::<Seq<(Seq<char>, Seq<char>)>, Seq<char>>(e@),
{
    let arr = match params.get("pairs") {
        Some(v) => match v.as_array() {
            Some(a) => a,
            None => {
                return Err(missing_param_text("pairs"));
            },
        },
        None => {
            return Err(missing_param_text("pairs"));
        },
    };
    let mut out: Vec<(String, String)> = Vec::new();
    let mut i: usize = 0;
    while i < arr.len()
        invariant
            i <= arr.len(),
            pairs_of(arr@.take(i as int)) == Some(pairs_view(out@)),
            json_get(*params, "pairs"@) == Some(Json::Array(*arr)),
        decreases arr.len() - i,
    {
        assert(arr@.take(i + 1).drop_last() =~= arr@.take(i as int));
        let p = &arr[i];
        let mut pair: Option<(String, String)> = None;
        match p.as_array() {
            Some(a) => {
                if a.len() == 2 {
                    match (a[0].as_text(), a[1].as_text()) {
                        (Some(x), Some(y)) => {
                            pair = Some((x.clone(), y.clone()));
                        },
                        _ => {},
                    }
                }
            },
            None => {},
        }
        match pair {
            Some(pr) => {
                out.push(pr);
                assert(pairs_view(out@) =~= pairs_view(out@.drop_last()).push((out@.last().0@, out@.last().1@)));
            },
            None => {
                assert(arr@.take(i + 1).last() == arr@[i as int]);
                assert(pair_of(arr@[i as int]) is None);
                assert(pairs_of(arr@.take(i + 1)) is None);
                let ghost all = arr@;
                proof {
                    lemma_pairs_of_prefix_none(all, (i + 1) as int);
                    assert(all.take(all.len() as int) =~= all);
                }
                return Err(String::from_str("Each pair must be a [first, second] array"));
            },
        }
        i = i + 1;
    }
    assert(arr@.take(arr.len() as int) =~= arr@);
    if out.len() == 0 {
        return Err(String::from_str("Add at least one pair"));
    }
    Ok(out)
}

/// Once a prefix has a malformed pair, so has every longer prefix.
proof fn lemma_pairs_of_prefix_none(s: Seq<Json>, i: int)
    requires
        0 <= i <= s.len(),
        pairs_of(s.take(i)) is None,
    ensures
        pairs_of(s) is None,
    decreases s.len() - i,
{
    if i < s.len() {
        assert(s.take(i + 1).drop_last() =~= s.take(i));
        lemma_pairs_of_prefix_none(s, i + 1);
    } else {
        assert(s.take(i) =~= s);
    }
}


/// The strings of an array are read in order, one per string element, and
/// other elements are skipped.
pub proof fn lemma_texts_in(s: Seq<Json>, x: Json)
    ensures
        texts_in(Seq::<Json>::empty()) == Seq::<Seq<char>>::empty(),
        x matches Json::Text(t) ==> texts_in(s.push(x)) == texts_in(s).push(t@),
        !(x is Text) ==> texts_in(s.push(x)) == texts_in(s),
{
    assert(s.push(x).drop_last() =~= s);
}

} // verus!
