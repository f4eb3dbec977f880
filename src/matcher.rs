//! The query matcher: ordered, non-overlapping keyword search in a path,
//! plus a check that the last keyword falls in the path's final segment.

use vstd::prelude::*;
use vstd::string::StrSliceExecFns;

verus! {

/// What `str::to_lowercase` returns for a string.
pub uninterp spec fn lower_of(s: Seq<char>) -> Seq<char>;

/// What `Path::file_name` gives for a path, as text.
pub uninterp spec fn file_name_of(s: Seq<char>) -> Option<Seq<char>>;

/// Relies on `str::to_lowercase`: the result depends on the characters alone.
#[verifier::external_body]
pub(crate) fn lowercase(s: &str) -> (r: String)
    ensures
        r@ == lower_of(s@),
{
    s.to_lowercase()
}

/// Relies on `std::path::Path::file_name`: the final normal component of a
/// path, if any. A component of a `str` path is itself valid UTF-8, so the
/// conversion back to `str` never fails.
#[verifier::external_body]
fn final_segment(s: &str) -> (r: Option<String>)
    ensures
        (match r {
            Some(x) => Some(x@),
            None => None,
        }) == file_name_of(s@),
{
    std::path::Path::new(s).file_name().and_then(|n| n.to_str()).map(|n| n.to_owned())
}

/// The characters of a string, in order.
fn chars_of(s: &str) -> (r: Vec<char>)
    ensures
        r@ == s@,
{
    let n = s.unicode_len();
    let mut out: Vec<char> = Vec::with_capacity(n);
    let mut i: usize = 0;
    while i < n
        invariant
            i <= n,
            n == s@.len(),
            out@ == s@.take(i as int),
        decreases n - i,
    {
        out.push(s.get_char(i));
        i = i + 1;
        assert(out@ =~= s@.take(i as int));
    }
    assert(s@.take(n as int) =~= s@);
    out
}

/// `needle` stands in `hay` at position `i`.
pub open spec fn occurs_at(hay: Seq<char>, needle: Seq<char>, i: int) -> bool {
    0 <= i && i + needle.len() <= hay.len() && hay.subrange(i, i + needle.len()) == needle
}

/// The first position at or after `start` where `needle` stands in `hay`.
pub open spec fn find_from(hay: Seq<char>, needle: Seq<char>, start: int) -> Option<int>
    decreases hay.len() + 1 - start,
{
    if start < 0 || start + needle.len() > hay.len() {
        None
    } else if occurs_at(hay, needle, start) {
        Some(start)
    } else {
        find_from(hay, needle, start + 1)
    }
}

/// A position that `find_from` returns lies at or after `start`, with the
/// whole needle inside `hay`.
pub proof fn lemma_find_from_bounds(hay: Seq<char>, needle: Seq<char>, start: int)
    ensures
        find_from(hay, needle, start) matches Some(i) ==> start <= i && occurs_at(hay, needle, i),
    decreases hay.len() + 1 - start,
{
    if start >= 0 && start + needle.len() <= hay.len() && !occurs_at(hay, needle, start) {
        lemma_find_from_bounds(hay, needle, start + 1);
    }
}

/// Each keyword is found in `hay` after the end of the previous one,
/// the search starting at `start`.
pub open spec fn ordered_match(hay: Seq<char>, kws: Seq<Seq<char>>, start: int) -> bool
    decreases kws.len(),
{
    if kws.len() == 0 {
        true
    } else {
        match find_from(hay, kws[0], start) {
            Some(i) => ordered_match(hay, kws.drop_first(), i + kws[0].len()),
            None => false,
        }
    }
}

/// The last keyword lies within the final segment of the path; where either
/// has no final segment, this check passes.
pub open spec fn name_affinity(path: Seq<char>, kws: Seq<Seq<char>>) -> bool {
    if kws.len() == 0 {
        true
    } else {
        match (file_name_of(kws.last()), file_name_of(path)) {
            (Some(q), Some(d)) => find_from(d, q, 0) is Some,
            _ => true,
        }
    }
}

/// A path matches keywords (already lower case) when its lower-case form
/// passes both checks.
pub open spec fn path_matches(path: Seq<char>, kws: Seq<Seq<char>>) -> bool {
    name_affinity(lower_of(path), kws) && ordered_match(lower_of(path), kws, 0)
}

/// The views of a sequence of strings.
pub open spec fn views_of(ss: Seq<String>) -> Seq<Seq<char>> {
    ss.map_values(|s: String| s@)
}

/// The first position at or after `start` where `needle` stands in `hay`.
pub fn find_at_or_after(hay: &Vec<char>, needle: &Vec<char>, start: usize) -> (r: Option<usize>)
    ensures
        (match r {
            Some(i) => Some(i as int),
            None => None,
        }) == find_from(hay@, needle@, start as int),
{
    let n = needle.len();
    let len = hay.len();
    if start > len || n > len - start {
        return None;
    }
    let mut i: usize = start;
    while i <= len - n
        invariant
            start <= i,
            n == needle@.len(),
            len == hay@.len(),
            n <= len,
            find_from(hay@, needle@, start as int) == find_from(hay@, needle@, i as int),
        decreases len - i,
    {
        let mut j: usize = 0;
        let mut same = true;
        while j < n
            invariant
                i + n <= len,
                n == needle@.len(),
                len == hay@.len(),
                j <= n,
                same == (forall|k: int| 0 <= k < j ==> hay@[i + k] == needle@[k]),
            decreases n - j,
        {
            if hay[i + j] != needle[j] {
                same = false;
            }
            j = j + 1;
        }
        if same {
            assert(hay@.subrange(i as int, i + n) =~= needle@);
            return Some(i);
        }
        assert(!occurs_at(hay@, needle@, i as int)) by {
            if hay@.subrange(i as int, i + n) == needle@ {
                let k = choose|k: int| 0 <= k < n && hay@[i + k] != needle@[k];
                assert(hay@.subrange(i as int, i + n)[k] == hay@[i + k]);
            }
        }
        if i == len - n {
            assert(find_from(hay@, needle@, i + 1) == None::<int>);
            return None;
        }
        i = i + 1;
    }
    None
}

/// Whether keywords, in order and without overlap, all occur in `hay`.
pub fn matches_in_order(hay: &Vec<char>, kws: &Vec<Vec<char>>) -> (r: bool)
    ensures
        r == ordered_match(hay@, kws@.map_values(|k: Vec<char>| k@), 0),
{
    let ghost all = kws@.map_values(|k: Vec<char>| k@);
    let mut pos: usize = 0;
    let mut j: usize = 0;
    assert(all.skip(0) =~= all);
    while j < kws.len()
        invariant
            j <= kws@.len(),
            pos <= hay@.len(),
            all == kws@.map_values(|k: Vec<char>| k@),
            ordered_match(hay@, all, 0) == ordered_match(hay@, all.skip(j as int), pos as int),
        decreases kws@.len() - j,
    {
        let kw = &kws[j];
        assert(all.skip(j as int)[0] == kw@);
        assert(all.skip(j as int).drop_first() =~= all.skip(j + 1));
        let found = find_at_or_after(hay, kw, pos);
        proof {
            lemma_find_from_bounds(hay@, kw@, pos as int);
        }
        match found {
            Some(i) => {
                assert(find_from(hay@, kw@, pos as int) == Some(i as int));
                assert(occurs_at(hay@, kw@, i as int));
                assert(i + kw@.len() <= hay.len());
                pos = i + kw.len();
            },
            None => {
                return false;
            },
        }
        j = j + 1;
    }
    assert(all.skip(j as int).len() == 0);
    true
}

/// Whether a path matches keywords that are already lower case.
pub fn path_matches_keywords(path: &str, kws: &[String]) -> (r: bool)
    ensures
        r == path_matches(path@, views_of(kws@)),
{
    let lower = lowercase(path);
    let ghost all = views_of(kws@);
    if kws.len() > 0 {
        let last = &kws[kws.len() - 1];
        assert(all.last() == last@);
        let q = final_segment(last.as_str());
        let d = final_segment(lower.as_str());
        match (q, d) {
            (Some(q), Some(d)) => {
                let qc = chars_of(q.as_str());
                let dc = chars_of(d.as_str());
                if find_at_or_after(&dc, &qc, 0).is_none() {
                    return false;
                }
            },
            _ => {},
        }
    }
    let hay = chars_of(lower.as_str());
    let mut kcs: Vec<Vec<char>> = Vec::new();
    let mut j: usize = 0;
    while j < kws.len()
        invariant
            j <= kws@.len(),
            kcs@.len() == j,
            forall|k: int| 0 <= k < j ==> #[trigger] kcs@[k]@ == kws@[k]@,
        decreases kws@.len() - j,
    {
        kcs.push(chars_of(kws[j].as_str()));
        j = j + 1;
    }
    assert(kcs@.map_values(|k: Vec<char>| k@) =~= all);
    matches_in_order(&hay, &kcs)
}

} // verus!
