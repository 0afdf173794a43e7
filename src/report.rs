use vstd::prelude::*;
use vstd::string::StringExecFns;

verus! {

/// The result of lowercasing a string with `str::to_lowercase`.
pub uninterp spec fn lower_of(s: Seq<char>) -> Seq<char>;

/// Relies on `str::to_lowercase`: the result depends on the characters alone, and the empty
/// string stays empty.
#[verifier::external_body]
fn lowercase(s: &str) -> (r: String)
    ensures
        r@ == lower_of(s@),
        s@.len() == 0 ==> r@.len() == 0,
{
    s.to_lowercase()
}

/// `needle` occurs in `hay` at position `i`.
pub open spec fn occurs_at(hay: Seq<char>, needle: Seq<char>, i: int) -> bool {
    0 <= i && i + needle.len() <= hay.len() && hay.subrange(i, i + needle.len()) == needle
}

/// `needle` occurs somewhere in `hay`.
pub open spec fn occurs_in(hay: Seq<char>, needle: Seq<char>) -> bool {
    exists|i: int| occurs_at(hay, needle, i)
}

/// Whether `needle` occurs in `hay`.
pub fn contains_text(hay: &str, needle: &str) -> (r: bool)
    ensures
        r == occurs_in(hay@, needle@),
{
    let h = hay.unicode_len();
    let n = needle.unicode_len();
    if n > h {
        assert forall|i: int| !occurs_at(hay@, needle@, i) by {}
        return false;
    }
    let mut i: usize = 0;
    while i <= h - n
        invariant
            h == hay@.len(),
            n == needle@.len(),
            n <= h,
            forall|k: int| 0 <= k < i ==> !occurs_at(hay@, needle@, k),
        decreases h - n + 1 - i,
    {
        let mut j: usize = 0;
        let mut same = true;
        while j < n
            invariant
                h == hay@.len(),
                n == needle@.len(),
                i + n <= h,
                j <= n,
                same == (forall|k: int| 0 <= k < j ==> hay@[i + k] == needle@[k]),
            decreases n - j,
        {
            if hay.get_char(i + j) != needle.get_char(j) {
                same = false;
            }
            j = j + 1;
        }
        if same {
            assert(hay@.subrange(i as int, i + n) =~= needle@);
            assert(occurs_at(hay@, needle@, i as int));
            return true;
        }
        assert(!occurs_at(hay@, needle@, i as int)) by {
            if hay@.subrange(i as int, i + n) == needle@ {
                assert forall|k: int| 0 <= k < n implies hay@[i + k] == needle@[k] by {
                    assert(hay@.subrange(i as int, i + n)[k] == hay@[i + k]);
                }
            }
        }
        i = i + 1;
    }
    assert forall|k: int| !occurs_at(hay@, needle@, k) by {}
    false
}

/// Whether an author passes the filter, given the lowercased author name and the lowercased
/// filter text.
pub fn matches_folded(author_lower: &str, filter_lower: Option<&str>) -> (r: bool)
    ensures
        r == match filter_lower {
            None => true,
            Some(f) => occurs_in(author_lower@, f@),
        },
{
    match filter_lower {
        None => true,
        Some(f) => contains_text(author_lower, f),
    }
}

/// Whether an author passes the filter: no filter, or the filter text occurs in the author's
/// name, both lowercased.
pub fn matches_author_filter(author_name: &str, filter: &Option<String>) -> (r: bool)
    ensures
        r == match filter {
            None => true,
            Some(f) => occurs_in(lower_of(author_name@), lower_of(f@)),
        },
{
    match filter {
        None => true,
        Some(f) => {
            let a = lowercase(author_name);
            let b = lowercase(f.as_str());
            matches_folded(a.as_str(), Some(b.as_str()))
        },
    }
}

/// `checked / elapsed` rounded to the nearest integer, halves away from zero.
pub open spec fn rounded_rate(checked: int, elapsed: int) -> int {
    (2 * checked + elapsed) / (2 * elapsed)
}

/// The counts shown in progress reports: identifiers checked, rate limits met, and the mean
/// number checked per second (the count itself when no whole second has passed).
pub fn get_statistics(checked_count: usize, ratelimited_count: usize, elapsed: u64) -> (r: (
    usize,
    usize,
    usize,
))
    ensures
        r.0 == checked_count,
        r.1 == ratelimited_count,
        r.2 == if elapsed == 0 {
            checked_count as int
        } else {
            rounded_rate(checked_count as int, elapsed as int)
        },
{
    if elapsed == 0 {
        return (checked_count, ratelimited_count, checked_count);
    }
    let c = checked_count as u128;
    let e = elapsed as u128;
    let avg = (2 * c + e) / (2 * e);
    assert(avg <= c) by (nonlinear_arith)
        requires
            avg == (2 * c + e) / (2 * e),
            e >= 1,
    ;
    (checked_count, ratelimited_count, avg as usize)
}

/// A terminal hyperlink (OSC 8) showing `text` and pointing at `url`.
pub fn terminal_link(url: &str, text: &str) -> (r: String)
    ensures
        r@ == "\x1B]8;;"@ + url@ + "\x1B\\"@ + text@ + "\x1B]8;;\x1B\\"@,
{
    let mut r = String::from_str("\x1B]8;;");
    r.append(url);
    r.append("\x1B\\");
    r.append(text);
    r.append("\x1B]8;;\x1B\\");
    r
}

} // verus!
