//! Plain, first-occurrence, case-sensitive substring extraction between
//! literal markers.

use vstd::prelude::*;

verus! {

/// Why an extraction found nothing to return.
#[derive(Debug, Clone, Copy, PartialEq, Eq, Structural)]
pub enum ExtractionError {
    /// The start marker does not occur in the content.
    StartNotFound,
    /// The end marker does not occur after the start marker.
    EndNotFound,
    /// The markers delimit an empty span.
    EmptyResult,
}

/// `p` occurs in `s` starting at position `i`.
pub open spec fn occurs_at(s: Seq<char>, p: Seq<char>, i: int) -> bool {
    0 <= i && i + p.len() <= s.len() && s.subrange(i, i + p.len()) == p
}

/// The first position, at `from` or later, at which `p` occurs in `s`.
pub open spec fn find_from(s: Seq<char>, p: Seq<char>, from: int) -> Option<int>
    decreases s.len() + 1 - from,
{
    if from < 0 || from + p.len() > s.len() {
        None
    } else if occurs_at(s, p, from) {
        Some(from)
    } else {
        find_from(s, p, from + 1)
    }
}

/// The first position at which `p` occurs in `s`.
pub open spec fn find(s: Seq<char>, p: Seq<char>) -> Option<int> {
    find_from(s, p, 0)
}

/// What lies after the first `start` in `content`: up to the first `end`
/// that follows it, or to the end of `content` when no `end` is given.
pub open spec fn extracted(content: Seq<char>, start: Seq<char>, end: Option<Seq<char>>) -> Result<
    Seq<char>,
    ExtractionError,
> {
    match find(content, start) {
        None => Err(ExtractionError::StartNotFound),
        Some(i) => {
            let rest = content.subrange(i + start.len(), content.len() as int);
            match end {
                None => if rest.len() == 0 {
                    Err(ExtractionError::EmptyResult)
                } else {
                    Ok(rest)
                },
                Some(e) => match find(rest, e) {
                    None => Err(ExtractionError::EndNotFound),
                    Some(j) => if j == 0 {
                        Err(ExtractionError::EmptyResult)
                    } else {
                        Ok(rest.subrange(0, j))
                    },
                },
            }
        },
    }
}

/// The characters of an optional marker.
pub open spec fn marker_view(m: Option<&str>) -> Option<Seq<char>> {
    match m {
        Some(e) => Some(e@),
        None => None,
    }
}

/// `find_from` finds an occurrence, and none lies between `from` and it.
pub proof fn lemma_find_from_is_first(s: Seq<char>, p: Seq<char>, from: int)
    requires
        0 <= from,
    ensures
        match find_from(s, p, from) {
            Some(i) => from <= i && occurs_at(s, p, i) && forall|j: int|
                from <= j < i ==> !occurs_at(s, p, j),
            None => forall|j: int| from <= j ==> !occurs_at(s, p, j),
        },
    decreases s.len() + 1 - from,
{
    if from + p.len() > s.len() {
    } else if occurs_at(s, p, from) {
    } else {
        lemma_find_from_is_first(s, p, from + 1);
    }
}

/// An occurrence with none before it, from `from` on, is what `find_from`
/// finds.
pub proof fn lemma_find_from_first(s: Seq<char>, p: Seq<char>, from: int, k: int)
    requires
        0 <= from <= k,
        occurs_at(s, p, k),
        forall|j: int| from <= j < k ==> !occurs_at(s, p, j),
    ensures
        find_from(s, p, from) == Some(k),
    decreases k - from,
{
    if from < k {
        lemma_find_from_first(s, p, from + 1, k);
    }
}

/// The first occurrence of `p` in `s` stays the first when text is
/// appended to `s`.
pub proof fn lemma_find_extend(s: Seq<char>, t: Seq<char>, p: Seq<char>)
    requires
        find(s, p) is Some,
    ensures
        find(s + t, p) == find(s, p),
{
    lemma_find_from_is_first(s, p, 0);
    let k = find(s, p)->Some_0;
    assert(occurs_at(s + t, p, k)) by {
        assert((s + t).subrange(k, k + p.len()) =~= s.subrange(k, k + p.len()));
    }
    assert forall|j: int| 0 <= j < k implies !occurs_at(s + t, p, j) by {
        assert(!occurs_at(s, p, j));
        assert((s + t).subrange(j, j + p.len()) =~= s.subrange(j, j + p.len()));
    }
    lemma_find_from_first(s + t, p, 0, k);
}

/// The characters of `s`, one per element.
pub(crate) fn chars_of(s: &str) -> (v: Vec<char>)
    ensures
        v@ == s@,
{
    let n = s.unicode_len();
    let mut v: Vec<char> = Vec::new();
    let mut i: usize = 0;
    while i < n
        invariant
            n == s@.len(),
            i <= n,
            v@ == s@.subrange(0, i as int),
        decreases n - i,
    {
        v.push(s.get_char(i));
        i = i + 1;
    }
    v
}

/// Whether `p` occurs in `s` at position `i`.
fn matches_at(s: &Vec<char>, p: &Vec<char>, i: usize) -> (r: bool)
    requires
        i + p@.len() <= s@.len(),
    ensures
        r == occurs_at(s@, p@, i as int),
{
    let n = s.len();
    let mut k: usize = 0;
    while k < p.len()
        invariant
            n == s@.len(),
            i + p@.len() <= s@.len(),
            k <= p@.len(),
            forall|m: int| 0 <= m < k ==> s@[i + m] == p@[m],
        decreases p@.len() - k,
    {
        if s[i + k] != p[k] {
            assert(s@.subrange(i as int, i + p@.len())[k as int] != p@[k as int]);
            return false;
        }
        k = k + 1;
    }
    assert(s@.subrange(i as int, i + p@.len()) =~= p@);
    true
}

/// The first position, at `from` or later, at which `p` occurs in `s`.
pub(crate) fn find_in(s: &Vec<char>, p: &Vec<char>, from: usize) -> (r: Option<usize>)
    ensures
        r matches Some(i) ==> find_from(s@, p@, from as int) == Some(i as int) && i + p@.len()
            <= s@.len(),
        r is None ==> find_from(s@, p@, from as int) is None,
{
    if p.len() > s.len() {
        return None;
    }
    let last = s.len() - p.len();
    let mut i = from;
    while i <= last
        invariant
            last == s@.len() - p@.len(),
            from <= i,
            find_from(s@, p@, from as int) == find_from(s@, p@, i as int),
        decreases last + 1 - i,
    {
        if matches_at(s, p, i) {
            return Some(i);
        }
        if i == last {
            assert(find_from(s@, p@, i + 1) is None);
            return None;
        }
        i = i + 1;
    }
    assert(find_from(s@, p@, i as int) is None);
    None
}

/// Where the body that `extracted` describes lies in `content`, in
/// characters: it starts right after the first `start`.
pub(crate) fn locate(content: &Vec<char>, start: &Vec<char>, end: Option<&str>) -> (r: Result<
    (usize, usize),
    ExtractionError,
>)
    ensures
        match (r, extracted(content@, start@, marker_view(end))) {
            (Ok((a, b)), Ok(t)) => find(content@, start@) == Some(a - start@.len()) && a < b
                <= content@.len() && t == content@.subrange(a as int, b as int),
            (Err(e), Err(f)) => e == f,
            _ => false,
        },
{
    let n = content.len();
    let i = match find_in(content, start, 0) {
        None => return Err(ExtractionError::StartNotFound),
        Some(i) => i,
    };
    let a = i + start.len();
    let ghost rest = content@.subrange(a as int, n as int);
    match end {
        None => {
            if a == n {
                Err(ExtractionError::EmptyResult)
            } else {
                Ok((a, n))
            }
        },
        Some(e) => {
            let mut rest_chars: Vec<char> = Vec::new();
            let mut k: usize = a;
            while k < n
                invariant
                    n == content@.len(),
                    a <= k <= n,
                    rest_chars@ == content@.subrange(a as int, k as int),
                decreases n - k,
            {
                rest_chars.push(content[k]);
                k = k + 1;
            }
            let end_chars = chars_of(e);
            match find_in(&rest_chars, &end_chars, 0) {
                None => Err(ExtractionError::EndNotFound),
                Some(j) => {
                    if j == 0 {
                        Err(ExtractionError::EmptyResult)
                    } else {
                        assert(rest.subrange(0, j as int) =~= content@.subrange(
                            a as int,
                            a + j,
                        ));
                        Ok((a, a + j))
                    }
                },
            }
        },
    }
}

/// Returns what follows the first occurrence of `start` in `content`: up
/// to the first occurrence of `end` after it when `end` is given, else up
/// to the end of `content`. An empty result is an error.
pub fn get_content<'a>(content: &'a str, start: &str, end: Option<&str>) -> (r: Result<
    &'a str,
    ExtractionError,
>)
    ensures
        match (r, extracted(content@, start@, marker_view(end))) {
            (Ok(s), Ok(t)) => s@ == t,
            (Err(e), Err(f)) => e == f,
            _ => false,
        },
{
    let text = chars_of(content);
    let start_chars = chars_of(start);
    match locate(&text, &start_chars, end) {
        Ok((a, b)) => Ok(content.substring_char(a, b)),
        Err(e) => Err(e),
    }
}

} // verus!
