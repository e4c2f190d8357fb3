//! The last-known-username lookup: picking the configured name out of the
//! greeter's user file.
//!
//! The file is scanned line by line; the first line that starts with `name`
//! and contains an `=` yields the text between the first and second `=`
//! (or the line's end), with surrounding whitespace trimmed. Reading the
//! file itself is the caller's concern; only its text arrives here.

use vstd::prelude::*;
use vstd::string::*;
use crate::decode::{match_lit, parse_lit};

verus! {

/// Relies on char::is_whitespace: whether the character has the Unicode
/// whitespace property. The result depends on the character alone.
pub uninterp spec fn is_space_char(c: char) -> bool;

#[verifier::external_body]
fn is_space(c: char) -> (r: bool)
    ensures
        r == is_space_char(c),
{
    c.is_whitespace()
}

/// The characters before the first occurrence of `stop` (all of them when it
/// does not occur).
pub open spec fn take_until(s: Seq<char>, stop: char) -> Seq<char>
    decreases s.len(),
{
    if s.len() == 0 {
        Seq::empty()
    } else if s[0] == stop {
        Seq::empty()
    } else {
        seq![s[0]] + take_until(s.drop_first(), stop)
    }
}

/// The characters after the first occurrence of `stop`, if it occurs.
pub open spec fn after_first(s: Seq<char>, stop: char) -> Option<Seq<char>>
    decreases s.len(),
{
    if s.len() == 0 {
        None
    } else if s[0] == stop {
        Some(s.drop_first())
    } else {
        after_first(s.drop_first(), stop)
    }
}

/// The string without its leading whitespace.
pub open spec fn trim_start_spaces(s: Seq<char>) -> Seq<char>
    decreases s.len(),
{
    if s.len() > 0 && is_space_char(s[0]) {
        trim_start_spaces(s.drop_first())
    } else {
        s
    }
}

/// The string without its trailing whitespace.
pub open spec fn trim_end_spaces(s: Seq<char>) -> Seq<char>
    decreases s.len(),
{
    if s.len() > 0 && is_space_char(s.last()) {
        trim_end_spaces(s.drop_last())
    } else {
        s
    }
}

/// The string without leading and trailing whitespace.
pub open spec fn spec_trim(s: Seq<char>) -> Seq<char> {
    trim_end_spaces(trim_start_spaces(s))
}

/// The value a single line contributes: for a line starting with `name` and
/// containing an `=`, the trimmed text between the first and second `=`.
pub open spec fn name_value_of_line(line: Seq<char>) -> Option<Seq<char>> {
    if line.len() >= 4 && line.take(4) == "name"@ {
        match after_first(line.skip(4), '=') {
            Some(afe) => Some(spec_trim(take_until(afe, '='))),
            None => None,
        }
    } else {
        None
    }
}

/// The username configured in the file's text: the value of the first line
/// that yields one. Lines end at `\n`; a `\r` just before the `\n` belongs
/// to the line ending.
pub open spec fn spec_username_from_config(content: Seq<char>) -> Option<Seq<char>>
    decreases content.len(),
{
    let raw = take_until(content, '\n');
    let has_more = raw.len() < content.len();
    let line = if has_more && raw.len() > 0 && raw.last() == '\r' {
        raw.drop_last()
    } else {
        raw
    };
    match name_value_of_line(line) {
        Some(v) => Some(v),
        None => if has_more {
            spec_username_from_config(content.skip(raw.len() as int + 1))
        } else {
            None
        },
    }
}

/// Scanning up to the first stop character takes exactly the scanned prefix.
proof fn lemma_take_until_at(s: Seq<char>, stop: char, k: int)
    requires
        0 <= k <= s.len(),
        forall|q: int| 0 <= q < k ==> s[q] != stop,
        k < s.len() ==> s[k] == stop,
    ensures
        take_until(s, stop) == s.take(k),
    decreases k,
{
    if k == 0 {
        assert(s.take(0) =~= Seq::<char>::empty());
    } else {
        assert(s[0] != stop);
        assert(forall|q: int| 0 <= q < k - 1 ==> s.drop_first()[q] == s[q + 1]);
        lemma_take_until_at(s.drop_first(), stop, k - 1);
        assert(seq![s[0]] + s.drop_first().take(k - 1) =~= s.take(k));
    }
}

/// The first stop character splits the string where the scan found it.
proof fn lemma_after_first_at(s: Seq<char>, stop: char, k: int)
    requires
        0 <= k <= s.len(),
        forall|q: int| 0 <= q < k ==> s[q] != stop,
    ensures
        k < s.len() && s[k] == stop ==> after_first(s, stop) == Some(s.skip(k + 1)),
        k == s.len() ==> after_first(s, stop) is None,
    decreases k,
{
    if k == 0 {
        if 0 < s.len() && s[0] == stop {
            assert(s.drop_first() =~= s.skip(1));
        }
    } else {
        assert(s[0] != stop);
        assert(forall|q: int| 0 <= q < k - 1 ==> s.drop_first()[q] == s[q + 1]);
        lemma_after_first_at(s.drop_first(), stop, k - 1);
        if k < s.len() && s[k] == stop {
            assert(s.drop_first()[k - 1] == stop);
            assert(s.drop_first().skip(k) =~= s.skip(k + 1));
        }
    }
}

/// Finds the first occurrence of a character at or after a position, or the
/// text's end.
fn find_char(s: &str, start: usize, stop: char) -> (j: usize)
    requires
        start <= s@.len(),
    ensures
        start <= j <= s@.len(),
        take_until(s@.skip(start as int), stop) == s@.subrange(start as int, j as int),
        forall|q: int| start <= q < j ==> s@[q] != stop,
        j < s@.len() ==> s@[j as int] == stop,
{
    let n: usize = s.unicode_len();
    let mut i: usize = start;
    loop
        invariant
            start <= i <= n,
            n == s@.len(),
            forall|q: int| start <= q < i ==> s@[q] != stop,
        decreases n - i,
    {
        if i == n {
            proof {
                assert(forall|q: int|
                    0 <= q < i - start ==> s@.skip(start as int)[q] == s@[q + start]);
                lemma_take_until_at(s@.skip(start as int), stop, i as int - start as int);
                assert(s@.skip(start as int).take(i as int - start as int) =~= s@.subrange(
                    start as int,
                    i as int,
                ));
            }
            return n;
        }
        if s.get_char(i) == stop {
            proof {
                assert(forall|q: int|
                    0 <= q < i - start ==> s@.skip(start as int)[q] == s@[q + start]);
                assert(s@.skip(start as int)[i as int - start as int] == s@[i as int]);
                lemma_take_until_at(s@.skip(start as int), stop, i as int - start as int);
                assert(s@.skip(start as int).take(i as int - start as int) =~= s@.subrange(
                    start as int,
                    i as int,
                ));
            }
            return i;
        }
        i = i + 1;
    }
}

/// Picks the configured username out of the user file's text.
#[verifier::loop_isolation(false)]
#[verifier::rlimit(80)]
pub fn parse_username_config(content: &str) -> (r: Option<String>)
    ensures
        match r {
            Some(u) => spec_username_from_config(content@) == Some(u@),
            None => spec_username_from_config(content@) is None,
        },
{
    let n: usize = content.unicode_len();
    let mut p: usize = 0;
    proof {
        assert(content@.skip(0) =~= content@);
    }
    loop
        invariant
            p <= n,
            spec_username_from_config(content@) == spec_username_from_config(
                content@.skip(p as int),
            ),
        decreases n - p,
    {
        let ghost srem = content@.skip(p as int);
        if p == n {
            proof {
                assert(srem =~= Seq::<char>::empty());
            }
            return None;
        }
        let j = find_char(content, p, '\n');
        let has_more = j < n;
        let ghost raw = content@.subrange(p as int, j as int);
        proof {
            assert(forall|q: int| 0 <= q < srem.len() ==> srem[q] == content@[q + p]);
            assert(take_until(srem, '\n') == raw);
            assert(srem.len() == n - p);
            assert((raw.len() < srem.len()) == has_more);
        }
        let jr: usize = if has_more && j > p && content.get_char(j - 1) == '\r' {
            j - 1
        } else {
            j
        };
        let ghost line = content@.subrange(p as int, jr as int);
        proof {
            if has_more && j > p && content@[j - 1] == '\r' {
                assert(raw.len() > 0);
                assert(raw.last() == content@[j - 1]);
                assert(raw.drop_last() =~= line);
            } else {
                if has_more && raw.len() > 0 && raw.last() == '\r' {
                    assert(content@[j - 1] == raw.last());
                }
                assert(line =~= raw);
            }
        }
        let prefix_end = match_lit(content, p, "name");
        if let Some(p4) = prefix_end {
            proof {
                reveal_strlit("name");
                assert(p4 == p + 4);
                assert(forall|q: int| 0 <= q < 4 ==> srem[q] == content@[q + p]);
                assert(parse_lit(srem, "name"@) is Some);
                assert(srem.take(4) == "name"@);
                assert(srem.take(4)[0] == srem[0] && srem.take(4)[1] == srem[1] && srem.take(
                    4,
                )[2] == srem[2] && srem.take(4)[3] == srem[3]);
                assert(srem[0] != '\n' && srem[1] != '\n' && srem[2] != '\n' && srem[3] != '\n');
                assert(j >= p + 4);
                assert(srem[3] != '\r');
                assert(jr >= p + 4);
                assert(line.len() >= 4);
                assert(line.take(4) =~= srem.take(4));
            }
            let e1 = find_char(content, p4, '=');
            let ghost rest4 = line.skip(4);
            proof {
                assert(rest4.len() == jr - p - 4);
                assert(forall|q: int| 0 <= q < rest4.len() ==> rest4[q] == content@[q + p + 4]);
            }
            if e1 >= jr {
                proof {
                    lemma_after_first_at(rest4, '=', rest4.len() as int);
                    assert(name_value_of_line(line) is None);
                }
            } else {
                let e2 = find_char(content, e1 + 1, '=');
                let seg_end: usize = if e2 < jr {
                    e2
                } else {
                    jr
                };
                let ghost afe = content@.subrange(e1 as int + 1, jr as int);
                proof {
                    lemma_after_first_at(rest4, '=', e1 as int - p - 4);
                    assert(rest4[e1 as int - p - 4] == content@[e1 as int]);
                    assert(content@[e1 as int] == '=');
                    assert(rest4.skip(e1 as int - p - 3) =~= afe);
                    assert(after_first(rest4, '=') == Some(afe));
                    assert(forall|q: int| 0 <= q < afe.len() ==> afe[q] == content@[q + e1 + 1]);
                    lemma_take_until_at(afe, '=', seg_end as int - e1 - 1);
                    assert(afe.take(seg_end as int - e1 - 1) =~= content@.subrange(
                        e1 as int + 1,
                        seg_end as int,
                    ));
                    assert(take_until(afe, '=') == content@.subrange(
                        e1 as int + 1,
                        seg_end as int,
                    ));
                }
                let mut lo: usize = e1 + 1;
                let mut hi: usize = seg_end;
                while lo < hi && is_space(content.get_char(lo))
                    invariant
                        e1 + 1 <= lo <= hi,
                        hi == seg_end,
                        trim_start_spaces(content@.subrange(e1 as int + 1, seg_end as int))
                            == trim_start_spaces(content@.subrange(lo as int, hi as int)),
                    decreases hi - lo,
                {
                    proof {
                        assert(content@.subrange(lo as int, hi as int)[0] == content@[lo as int]);
                        assert(content@.subrange(lo as int, hi as int).drop_first()
                            =~= content@.subrange(lo as int + 1, hi as int));
                    }
                    lo = lo + 1;
                }
                proof {
                    assert(trim_start_spaces(content@.subrange(e1 as int + 1, seg_end as int))
                        == content@.subrange(lo as int, hi as int));
                }
                while lo < hi && is_space(content.get_char(hi - 1))
                    invariant
                        lo <= hi,
                        hi <= seg_end,
                        trim_end_spaces(
                            trim_start_spaces(
                                content@.subrange(e1 as int + 1, seg_end as int),
                            ),
                        ) == trim_end_spaces(content@.subrange(lo as int, hi as int)),
                    decreases hi - lo,
                {
                    proof {
                        let cur = content@.subrange(lo as int, hi as int);
                        assert(cur.last() == content@[hi - 1]);
                        assert(cur.drop_last() =~= content@.subrange(lo as int, hi as int - 1));
                    }
                    hi = hi - 1;
                }
                proof {
                    assert(spec_trim(content@.subrange(e1 as int + 1, seg_end as int))
                        == content@.subrange(lo as int, hi as int));
                    assert(name_value_of_line(line) == Some(
                        content@.subrange(lo as int, hi as int),
                    ));
                }
                let found = content.substring_char(lo, hi).to_owned();
                proof {
                    assert(spec_username_from_config(srem) == Some(found@));
                }
                return Some(found);
            }
        } else {
            proof {
                reveal_strlit("name");
                if line.len() >= 4 && line.take(4) == "name"@ {
                    assert(forall|q: int| 0 <= q < 4 ==> line[q] == content@[q + p]);
                    assert(forall|q: int| 0 <= q < 4 ==> srem[q] == content@[q + p]);
                    assert(srem.len() >= 4);
                    assert(srem.take(4) =~= line.take(4));
                    assert(parse_lit(srem, "name"@) is Some);
                    assert(false);
                }
                assert(name_value_of_line(line) is None);
            }
        }
        proof {
            assert(name_value_of_line(line) is None);
        }
        if has_more {
            proof {
                assert(srem.skip(raw.len() as int + 1) =~= content@.skip(j as int + 1));
                assert(spec_username_from_config(srem) == spec_username_from_config(
                    content@.skip(j as int + 1),
                ));
            }
            p = j + 1;
        } else {
            proof {
                assert(spec_username_from_config(srem) is None);
            }
            return None;
        }
    }
}

} // verus!
