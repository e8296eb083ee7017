//! Line search: splitting text into lines and selecting the lines that
//! contain a query, case-sensitively or case-insensitively.

use vstd::prelude::*;
use vstd::string::StrSliceExecFns;

verus! {

/// A search configuration: the query, the file to search, and whether
/// case is ignored. Assembling one from program arguments and the
/// environment is the caller's business.
pub struct Config {
    pub query: String,
    pub file_path: String,
    pub ignore_case: bool,
}

/// The needle stands at position `i` of the haystack.
pub open spec fn contains_at(hay: Seq<char>, needle: Seq<char>, i: int) -> bool {
    &&& 0 <= i
    &&& i + needle.len() <= hay.len()
    &&& hay.subrange(i, i + needle.len()) == needle
}

/// The haystack holds the needle somewhere.
pub open spec fn spec_contains_sub(hay: Seq<char>, needle: Seq<char>) -> bool {
    exists|i: int| contains_at(hay, needle, i)
}

/// A closed line with a carriage return immediately before its newline
/// loses that carriage return: line endings are a newline or a carriage
/// return followed by a newline.
pub open spec fn strip_cr(l: Seq<char>) -> Seq<char> {
    if l.len() > 0 && l.last() == '\r' {
        l.drop_last()
    } else {
        l
    }
}

/// The lines of `s` from position `i` on, with the current line open
/// since position `start`: lines end at a newline (a carriage return
/// just before it is not part of the line), and a final newline closes
/// the last line without opening an empty one. A final line without a
/// newline is kept as it stands.
pub open spec fn lines_tail(s: Seq<char>, start: int, i: int) -> Seq<Seq<char>>
    recommends
        0 <= start <= i <= s.len(),
    decreases s.len() - i,
{
    if i < 0 || i >= s.len() {
        if start < s.len() {
            seq![s.subrange(start, s.len() as int)]
        } else {
            Seq::<Seq<char>>::empty()
        }
    } else if s[i] == '\n' {
        seq![strip_cr(s.subrange(start, i))] + lines_tail(s, i + 1, i + 1)
    } else {
        lines_tail(s, start, i + 1)
    }
}

/// The lines of `s`, split at newline or carriage-return-newline
/// endings.
pub open spec fn spec_str_lines(s: Seq<char>) -> Seq<Seq<char>> {
    lines_tail(s, 0, 0)
}

/// The views of a sequence of borrowed string slices.
pub open spec fn views_of(s: Seq<&str>) -> Seq<Seq<char>> {
    s.map_values(|x: &str| x@)
}

/// Selects the lines that contain `q`.
pub open spec fn has_query(q: Seq<char>) -> spec_fn(Seq<char>) -> bool {
    |l: Seq<char>| spec_contains_sub(l, q)
}

/// Selects the lines that contain `q` once both are folded to lower
/// case.
pub open spec fn has_query_ci(q: Seq<char>) -> spec_fn(Seq<char>) -> bool {
    |l: Seq<char>| spec_contains_sub(lower_of(l), lower_of(q))
}

/// What the standard library's lowercase folding returns for a given
/// sequence of characters: a function of the characters alone.
pub uninterp spec fn lower_of(s: Seq<char>) -> Seq<char>;

/// Relies on str::to_lowercase: the result depends on the input
/// characters alone.
#[verifier::external_body]
fn lowercase(s: &str) -> (r: String)
    ensures
        r@ == lower_of(s@),
{
    s.to_lowercase()
}

/// Whether `needle` stands at position `i` of `hay`.
fn matches_at(hay: &str, needle: &str, i: usize) -> (r: bool)
    requires
        hay@.len() <= usize::MAX,
        i + needle@.len() <= hay@.len(),
    ensures
        r == contains_at(hay@, needle@, i as int),
{
    let nlen = needle.unicode_len();
    let mut j: usize = 0;
    while j < nlen
        invariant
            j <= nlen,
            nlen == needle@.len(),
            hay@.len() <= usize::MAX,
            i + nlen <= hay@.len(),
            forall|k: int| 0 <= k < j ==> hay@[i + k] == needle@[k],
        decreases nlen - j,
    {
        if hay.get_char(i + j) != needle.get_char(j) {
            proof {
                assert(hay@.subrange(i as int, i + needle@.len()) != needle@) by {
                    assert(hay@.subrange(i as int, i + needle@.len())[j as int] == hay@[i + j]);
                }
            }
            return false;
        }
        j += 1;
    }
    proof {
        assert(hay@.subrange(i as int, i + needle@.len()) =~= needle@);
    }
    true
}

/// Whether `hay` holds `needle` anywhere.
fn contains_sub(hay: &str, needle: &str) -> (r: bool)
    ensures
        r == spec_contains_sub(hay@, needle@),
{
    let hlen = hay.unicode_len();
    let nlen = needle.unicode_len();
    if nlen > hlen {
        proof {
            assert(forall|i: int| !contains_at(hay@, needle@, i));
        }
        return false;
    }
    if nlen == 0 {
        proof {
            assert(hay@.subrange(0, 0) =~= needle@);
            assert(contains_at(hay@, needle@, 0));
        }
        return true;
    }
    let mut i: usize = 0;
    while i <= hlen - nlen
        invariant
            hlen == hay@.len(),
            nlen == needle@.len(),
            1 <= nlen <= hlen,
            i <= hlen - nlen + 1,
            forall|k: int| 0 <= k < i ==> !contains_at(hay@, needle@, k),
        decreases hlen - nlen - i + 1,
    {
        if matches_at(hay, needle, i) {
            return true;
        }
        i += 1;
    }
    proof {
        assert(forall|k: int| contains_at(hay@, needle@, k) ==> 0 <= k <= hlen - nlen);
    }
    false
}

/// The lines of `contents` that contain `query`, in order.
pub fn search<'a>(query: &str, contents: &'a str) -> (r: Vec<&'a str>)
    ensures
        views_of(r@) == spec_str_lines(contents@).filter(has_query(query@)),
{
    let len = contents.unicode_len();
    let mut r: Vec<&'a str> = Vec::new();
    let ghost mut done: Seq<Seq<char>> = Seq::<Seq<char>>::empty();
    let mut start: usize = 0;
    let mut i: usize = 0;
    while i < len
        invariant
            len == contents@.len(),
            0 <= start <= i <= len,
            spec_str_lines(contents@) == done + lines_tail(contents@, start as int, i as int),
            views_of(r@) == done.filter(has_query(query@)),
        decreases len - i,
    {
        if contents.get_char(i) == '\n' {
            let end = if i > start && contents.get_char(i - 1) == '\r' {
                i - 1
            } else {
                i
            };
            let line = contents.substring_char(start, end);
            proof {
                let full = contents@.subrange(start as int, i as int);
                if i > start && contents@[i as int - 1] == '\r' {
                    assert(full.last() == contents@[i as int - 1]);
                    assert(full.drop_last() =~= contents@.subrange(start as int, i as int - 1));
                }
                assert(line@ == strip_cr(full));
            }
            if contains_sub(line, query) {
                r.push(line);
            }
            proof {
                crate::tree::lemma_filter_push(done, has_query(query@), line@);
                assert(views_of(r@) =~= done.push(line@).filter(has_query(query@)));
                assert(done.push(line@) + lines_tail(contents@, i as int + 1, i as int + 1)
                    =~= done + lines_tail(contents@, start as int, i as int));
                done = done.push(line@);
            }
            start = i + 1;
        }
        i += 1;
    }
    if start < len {
        let line = contents.substring_char(start, len);
        if contains_sub(line, query) {
            r.push(line);
        }
        proof {
            crate::tree::lemma_filter_push(done, has_query(query@), line@);
            assert(views_of(r@) =~= done.push(line@).filter(has_query(query@)));
            assert(done.push(line@) =~= done + lines_tail(contents@, start as int, len as int));
            done = done.push(line@);
        }
    } else {
        proof {
            assert(done =~= done + lines_tail(contents@, start as int, len as int));
        }
    }
    proof {
        assert(spec_str_lines(contents@) == done);
    }
    r
}

/// The lines of `contents` that contain `query` once both are folded
/// to lower case, in order. The folding is the standard library's.
pub fn search_case_insensitive<'a>(query: &str, contents: &'a str) -> (r: Vec<&'a str>)
    ensures
        views_of(r@) == spec_str_lines(contents@).filter(has_query_ci(query@)),
{
    let query_lower = lowercase(query);
    let len = contents.unicode_len();
    let mut r: Vec<&'a str> = Vec::new();
    let ghost mut done: Seq<Seq<char>> = Seq::<Seq<char>>::empty();
    let mut start: usize = 0;
    let mut i: usize = 0;
    while i < len
        invariant
            len == contents@.len(),
            0 <= start <= i <= len,
            query_lower@ == lower_of(query@),
            spec_str_lines(contents@) == done + lines_tail(contents@, start as int, i as int),
            views_of(r@) == done.filter(has_query_ci(query@)),
        decreases len - i,
    {
        if contents.get_char(i) == '\n' {
            let end = if i > start && contents.get_char(i - 1) == '\r' {
                i - 1
            } else {
                i
            };
            let line = contents.substring_char(start, end);
            proof {
                let full = contents@.subrange(start as int, i as int);
                if i > start && contents@[i as int - 1] == '\r' {
                    assert(full.last() == contents@[i as int - 1]);
                    assert(full.drop_last() =~= contents@.subrange(start as int, i as int - 1));
                }
                assert(line@ == strip_cr(full));
            }
            let line_lower = lowercase(line);
            if contains_sub(line_lower.as_str(), query_lower.as_str()) {
                r.push(line);
            }
            proof {
                crate::tree::lemma_filter_push(done, has_query_ci(query@), line@);
                assert(views_of(r@) =~= done.push(line@).filter(has_query_ci(query@)));
                assert(done.push(line@) + lines_tail(contents@, i as int + 1, i as int + 1)
                    =~= done + lines_tail(contents@, start as int, i as int));
                done = done.push(line@);
            }
            start = i + 1;
        }
        i += 1;
    }
    if start < len {
        let line = contents.substring_char(start, len);
        let line_lower = lowercase(line);
        if contains_sub(line_lower.as_str(), query_lower.as_str()) {
            r.push(line);
        }
        proof {
            crate::tree::lemma_filter_push(done, has_query_ci(query@), line@);
            assert(views_of(r@) =~= done.push(line@).filter(has_query_ci(query@)));
            assert(done.push(line@) =~= done + lines_tail(contents@, start as int, len as int));
            done = done.push(line@);
        }
    } else {
        proof {
            assert(done =~= done + lines_tail(contents@, start as int, len as int));
        }
    }
    proof {
        assert(spec_str_lines(contents@) == done);
    }
    r
}

} // verus!
