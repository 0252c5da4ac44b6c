//! Inputs of the read endpoints: the application and date named in a request
//! path, and the record identifiers listed by the external substring search.
use vstd::prelude::*;

use crate::error::ServiceError;
use crate::text::{chars_of, lowercase_of, sanitize_segment, string_of, strip_path_chars};
use crate::wire::{lines_of, lines_view, split_lines};

verus! {

/// Index just past the last `/` among the first `i` characters of `l`, or 0.
pub open spec fn name_start(l: Seq<char>, i: int) -> int
    decreases i,
{
    if i <= 0 {
        0
    } else if l[i - 1] == '/' {
        i
    } else {
        name_start(l, i - 1)
    }
}

/// The last component of a path.
pub open spec fn base_name(l: Seq<char>) -> Seq<char> {
    l.subrange(name_start(l, l.len() as int), l.len() as int)
}

/// The last component of each non-empty line, in order.
pub open spec fn listed_names(ls: Seq<Seq<char>>) -> Seq<Seq<char>>
    decreases ls.len(),
{
    if ls.len() == 0 {
        Seq::empty()
    } else {
        let rest = listed_names(ls.drop_last());
        if ls.last().len() == 0 {
            rest
        } else {
            rest.push(base_name(ls.last()))
        }
    }
}

pub open spec fn strings_of(v: Seq<String>) -> Seq<Seq<char>> {
    v.map_values(|s: String| s@)
}

/// The application and the date that a read request's path names, each
/// lower-cased and stripped of `.` and `/` so that it stays inside its
/// directory. `ValidationError` when either is left empty.
pub fn read_target(app: &str, file: &str) -> (r: Result<(String, String), ServiceError>)
    ensures
        ({
            let a = strip_path_chars(lowercase_of(app@));
            let f = strip_path_chars(lowercase_of(file@));
            if a.len() == 0 || f.len() == 0 {
                r == Err::<(String, String), ServiceError>(ServiceError::ValidationError)
            } else {
                r matches Ok(p) && p.0@ == a && p.1@ == f
            }
        }),
{
    let a = sanitize_segment(app);
    let f = sanitize_segment(file);
    if a.as_str().is_empty() || f.as_str().is_empty() {
        return Err(ServiceError::ValidationError);
    }
    Ok((a, f))
}

/// The record identifiers in a listing of matching files, one path per line:
/// the last component of each non-empty line.
pub fn record_ids_from_listing(listing: &str) -> (r: Vec<String>)
    ensures
        strings_of(r@) == listed_names(lines_of(listing@)),
{
    let cs = chars_of(listing);
    let lines = split_lines(cs.as_slice());
    let ghost lv = lines_view(lines@);
    let mut out: Vec<String> = Vec::new();
    let mut i: usize = 0;
    while i < lines.len()
        invariant
            lv == lines_view(lines@),
            lv == lines_of(listing@),
            i <= lines@.len(),
            strings_of(out@) == listed_names(lv.subrange(0, i as int)),
        decreases lines@.len() - i,
    {
        let l = lines[i].as_slice();
        let ghost pre = lv.subrange(0, i + 1);
        assert(pre.drop_last() =~= lv.subrange(0, i as int));
        assert(pre.last() == l@);
        if l.len() > 0 {
            let mut k: usize = l.len();
            while k > 0 && l[k - 1] != '/'
                invariant
                    k <= l@.len(),
                    name_start(l@, l@.len() as int) == name_start(l@, k as int),
                decreases k,
            {
                k = k - 1;
            }
            let ghost before = out@;
            out.push(string_of(l, k, l.len()));
            assert(strings_of(out@) =~= strings_of(before).push(base_name(l@)));
        }
        i = i + 1;
    }
    assert(lv.subrange(0, i as int) =~= lv);
    out
}

} // verus!
