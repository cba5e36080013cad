use vstd::prelude::*;
use vstd::string::StrSliceExecFns;
use crate::chars::numeric;
use crate::text::contains_part;
use crate::text::has_part;
use crate::text::split_on;
use crate::text::split_parts;
use crate::text::views_of;

verus! {

/// A line the filter discards entirely: rebate and promotion lines.
pub open spec fn excluded_line(l: Seq<char>) -> bool {
    has_part(l, "sie sparen"@) || has_part(l, "/"@) || has_part(l, "abatt"@)
}

/// A line whose keywords open the item block.
pub open spec fn start_line(l: Seq<char>) -> bool {
    has_part(l, "eur"@) || has_part(l, "fur"@) || has_part(l, "real"@)
}

/// The printed grand-total line, which ends the filter's work.
pub open spec fn total_line(l: Seq<char>) -> bool {
    has_part(l, "sum"@)
}

/// A card-payment or cash-change line.
pub open spec fn payment_line(l: Seq<char>) -> bool {
    has_part(l, "kartenzahlung"@) || has_part(l, "rückgeld"@)
}

/// The line holds at least one numeric character.
pub open spec fn numeric_line(l: Seq<char>) -> bool {
    exists|i: int| 0 <= i < l.len() && numeric(l[i])
}

/// The lines the filter emits from `lines` onward, entering with the item
/// block open (`keeping`), one payment line already counted (`card_seen`),
/// and `prev` remembered as the body line a later price line may pair
/// with.  Excluded lines are dropped and touch nothing; a start keyword
/// opens the block for its own line onward; a total line is emitted and
/// ends the run; a payment line is emitted, the second one terminally; a
/// body line inside the block is emitted behind `prev` when it holds a
/// numeric character, and becomes `prev` either way.
pub open spec fn filter_from(
    lines: Seq<Seq<char>>,
    keeping: bool,
    card_seen: bool,
    prev: Seq<char>,
) -> Seq<Seq<char>>
    decreases lines.len(),
{
    if lines.len() == 0 {
        Seq::empty()
    } else {
        let l = lines[0];
        let rest = lines.drop_first();
        if excluded_line(l) {
            filter_from(rest, keeping, card_seen, prev)
        } else {
            let k = keeping || start_line(l);
            if total_line(l) {
                seq![l]
            } else if payment_line(l) {
                if card_seen {
                    seq![l]
                } else {
                    seq![l] + filter_from(rest, k, true, prev)
                }
            } else if k {
                if numeric_line(l) {
                    seq![prev, l] + filter_from(rest, k, card_seen, l)
                } else {
                    filter_from(rest, k, card_seen, l)
                }
            } else {
                filter_from(rest, k, card_seen, prev)
            }
        }
    }
}

/// The lines the filter keeps out of the raw text: the filter starts
/// seeking, with no payment line counted and an empty pairing memory.
pub open spec fn filtered_lines(raw: Seq<char>) -> Seq<Seq<char>> {
    filter_from(split_parts(raw, '\n'), false, false, Seq::<char>::empty())
}

/// Whether the line holds a numeric character.
pub fn has_numeric_char(l: &str) -> (r: bool)
    ensures
        r == numeric_line(l@),
{
    let n = l.unicode_len();
    let mut i: usize = 0;
    while i < n
        invariant
            n == l@.len(),
            i <= n,
            forall|k: int| 0 <= k < i ==> !numeric(l@[k]),
        decreases n - i,
    {
        let c = l.get_char(i);
        if c.is_numeric() {
            proof {
                assert(numeric(l@[i as int]));
            }
            return true;
        }
        i += 1;
    }
    false
}

/// Keeps the interesting lines of the raw receipt text, in order: the
/// item block between a start keyword and the total line, with at most
/// one extra payment line, each price-bearing line preceded by the body
/// line remembered for pairing.
pub fn sort_lines(raw: &str) -> (r: Vec<String>)
    ensures
        views_of(r@) == filtered_lines(raw@),
{
    let lines = split_on(raw, '\n');
    let n = lines.len();
    let mut kept: Vec<String> = Vec::new();
    let mut keeping = false;
    let mut card_seen = false;
    let mut done = false;
    let mut prev = String::new();
    let mut i: usize = 0;
    proof {
        assert(views_of(lines@).skip(0) =~= views_of(lines@));
        assert(views_of(kept@) =~= Seq::<Seq<char>>::empty());
        assert(views_of(kept@) + filter_from(views_of(lines@), false, false, prev@) =~= filter_from(
            views_of(lines@),
            false,
            false,
            prev@,
        ));
    }
    while i < n && !done
        invariant
            n == lines.len(),
            i <= n,
            views_of(lines@) == split_parts(raw@, '\n'),
            done ==> views_of(kept@) == filtered_lines(raw@),
            !done ==> filtered_lines(raw@) == views_of(kept@) + filter_from(
                views_of(lines@).skip(i as int),
                keeping,
                card_seen,
                prev@,
            ),
        decreases n - i + (if done { 0int } else { 1int }),
    {
        proof {
            assert(views_of(lines@).skip(i as int)[0] == lines@[i as int]@);
            assert(views_of(lines@).skip(i as int).drop_first() =~= views_of(lines@).skip(i + 1));
        }
        let ghost pre_kept = kept@;
        let ghost pre_prev = prev@;
        let ghost suffix = views_of(lines@).skip(i as int);
        let line = &lines[i];
        if contains_part(line.as_str(), "sie sparen") || contains_part(line.as_str(), "/")
            || contains_part(line.as_str(), "abatt") {
            proof {
                assert(filter_from(suffix, keeping, card_seen, prev@) == filter_from(
                    suffix.drop_first(),
                    keeping,
                    card_seen,
                    prev@,
                ));
            }
        } else {
            if contains_part(line.as_str(), "eur") || contains_part(line.as_str(), "fur")
                || contains_part(line.as_str(), "real") {
                keeping = true;
            }
            if contains_part(line.as_str(), "sum") {
                kept.push(line.clone());
                done = true;
                proof {
                    assert(filter_from(suffix, keeping, card_seen, prev@) == seq![line@]);
                    assert(views_of(kept@) =~= views_of(pre_kept).push(line@));
                    assert(views_of(kept@) =~= views_of(pre_kept) + seq![line@]);
                }
            } else if contains_part(line.as_str(), "kartenzahlung") || contains_part(
                line.as_str(),
                "rückgeld",
            ) {
                kept.push(line.clone());
                proof {
                    assert(views_of(kept@) =~= views_of(pre_kept).push(line@));
                    assert(views_of(kept@) =~= views_of(pre_kept) + seq![line@]);
                }
                if !card_seen {
                    card_seen = true;
                    proof {
                        assert(filter_from(suffix, keeping, false, prev@) == seq![line@]
                            + filter_from(suffix.drop_first(), keeping, true, prev@));
                        assert(views_of(pre_kept) + (seq![line@] + filter_from(
                            suffix.drop_first(),
                            keeping,
                            true,
                            prev@,
                        )) =~= views_of(kept@) + filter_from(
                            suffix.drop_first(),
                            keeping,
                            true,
                            prev@,
                        ));
                    }
                } else {
                    done = true;
                    proof {
                        assert(filter_from(suffix, keeping, card_seen, prev@) == seq![line@]);
                    }
                }
            } else if keeping {
                if has_numeric_char(line.as_str()) {
                    kept.push(prev.clone());
                    kept.push(line.clone());
                    proof {
                        assert(filter_from(suffix, keeping, card_seen, pre_prev) == seq![
                            pre_prev,
                            line@,
                        ] + filter_from(suffix.drop_first(), keeping, card_seen, line@));
                        assert(views_of(kept@) =~= views_of(pre_kept) + seq![pre_prev, line@]);
                        assert(views_of(pre_kept) + (seq![pre_prev, line@] + filter_from(
                            suffix.drop_first(),
                            keeping,
                            card_seen,
                            line@,
                        )) =~= views_of(kept@) + filter_from(
                            suffix.drop_first(),
                            keeping,
                            card_seen,
                            line@,
                        ));
                    }
                } else {
                    proof {
                        assert(filter_from(suffix, keeping, card_seen, pre_prev) == filter_from(
                            suffix.drop_first(),
                            keeping,
                            card_seen,
                            line@,
                        ));
                    }
                }
                prev = line.clone();
            } else {
                proof {
                    assert(filter_from(suffix, keeping, card_seen, prev@) == filter_from(
                        suffix.drop_first(),
                        keeping,
                        card_seen,
                        prev@,
                    ));
                }
            }
        }
        i += 1;
    }
    proof {
        if !done {
            assert(views_of(lines@).skip(i as int) =~= Seq::<Seq<char>>::empty());
            assert(filtered_lines(raw@) =~= views_of(kept@));
        }
    }
    kept
}

} // verus!
