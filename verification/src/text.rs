use vstd::prelude::*;
use vstd::pervasive::VecAdditionalExecFns;
use vstd::string::StrSliceExecFns;
use vstd::string::StringExecFns;

verus! {

/// The character sequences of a sequence of strings.
pub open spec fn views_of(ss: Seq<String>) -> Seq<Seq<char>> {
    ss.map_values(|s: String| s@)
}

/// `pat` occurs in `hay` as the contiguous part starting at position `i`.
pub open spec fn occurs_at(hay: Seq<char>, pat: Seq<char>, i: int) -> bool {
    0 <= i && i + pat.len() <= hay.len() && hay.subrange(i, i + pat.len() as int) == pat
}

/// `hay` has `pat` somewhere as a contiguous part; what `str::contains`
/// means for the keyword tests of the line filter and the reconciliation.
pub open spec fn has_part(hay: Seq<char>, pat: Seq<char>) -> bool {
    exists|i: int| occurs_at(hay, pat, i)
}

/// Whether `pat` occurs contiguously in `hay`.
pub fn contains_part(hay: &str, pat: &str) -> (r: bool)
    ensures
        r == has_part(hay@, pat@),
{
    let n = hay.unicode_len();
    let m = pat.unicode_len();
    if m > n {
        assert(forall|i: int| !occurs_at(hay@, pat@, i));
        return false;
    }
    if m == 0 {
        proof {
            assert(hay@.subrange(0, 0) =~= pat@);
            assert(occurs_at(hay@, pat@, 0));
        }
        return true;
    }
    let mut i: usize = 0;
    while i <= n - m
        invariant
            1 <= m <= n,
            n == hay@.len(),
            m == pat@.len(),
            i <= n - m + 1,
            forall|k: int| 0 <= k < i ==> !occurs_at(hay@, pat@, k),
        decreases n - m - i + 1,
    {
        let mut j: usize = 0;
        let mut matched = true;
        while j < m && matched
            invariant
                m <= n,
                n == hay@.len(),
                m == pat@.len(),
                i + m <= n,
                j <= m,
                matched ==> forall|t: int| 0 <= t < j ==> hay@[i + t] == pat@[t],
                !matched ==> !occurs_at(hay@, pat@, i as int),
            decreases m - j,
        {
            if hay.get_char(i + j) != pat.get_char(j) {
                proof {
                    assert(hay@.subrange(i as int, i + m as int) != pat@) by {
                        assert(hay@.subrange(i as int, i + m as int)[j as int] != pat@[j as int]);
                    }
                }
                matched = false;
            }
            j += 1;
        }
        if matched {
            proof {
                assert(hay@.subrange(i as int, i + m as int) =~= pat@);
                assert(occurs_at(hay@, pat@, i as int));
            }
            return true;
        }
        i += 1;
    }
    proof {
        assert(forall|k: int| occurs_at(hay@, pat@, k) ==> 0 <= k <= n - m);
    }
    false
}

/// The pieces of `s` between occurrences of `sep`, in order: what
/// `str::split` yields on a single-character separator.  A sequence with
/// no separator is one piece; each separator ends a piece, so the result
/// always holds one piece more than there are separators.
pub open spec fn split_parts(s: Seq<char>, sep: char) -> Seq<Seq<char>>
    decreases s.len(),
{
    if s.len() == 0 {
        seq![Seq::<char>::empty()]
    } else if s[0] == sep {
        seq![Seq::<char>::empty()] + split_parts(s.drop_first(), sep)
    } else {
        let rest = split_parts(s.drop_first(), sep);
        seq![seq![s[0]] + rest[0]] + rest.drop_first()
    }
}

/// Splits `s` at every occurrence of `sep`, as `str::split` does.
pub fn split_on(s: &str, sep: char) -> (r: Vec<String>)
    ensures
        views_of(r@) == split_parts(s@, sep),
        r@.len() >= 1,
    decreases s@.len(),
{
    let n = s.unicode_len();
    if n == 0 {
        let mut r: Vec<String> = Vec::new();
        r.push(String::new());
        proof {
            assert(views_of(r@) =~= split_parts(s@, sep));
        }
        r
    } else if s.get_char(0) == sep {
        let rest = s.substring_char(1, n);
        proof {
            assert(rest@ =~= s@.drop_first());
        }
        let mut r = split_on(rest, sep);
        r.insert(0, String::new());
        proof {
            assert(views_of(r@) =~= split_parts(s@, sep));
        }
        r
    } else {
        let rest = s.substring_char(1, n);
        proof {
            assert(rest@ =~= s@.drop_first());
        }
        let mut r = split_on(rest, sep);
        let head = s.substring_char(0, 1);
        let first = String::from_str(head);
        let joined = first.concat(r[0].as_str());
        proof {
            assert(joined@ =~= seq![s@[0]] + views_of(r@)[0]);
        }
        r.set(0, joined);
        proof {
            assert(views_of(r@) =~= split_parts(s@, sep));
        }
        r
    }
}

} // verus!
