use vstd::prelude::*;
use crate::extract::any_marker;
use crate::extract::appended_name;
use crate::extract::extract_from;
use crate::extract::initial_state;
use crate::extract::items_model;
use crate::extract::payments_total;
use crate::extract::proc_line;
use crate::extract::proc_tokens;
use crate::extract::resolved_token;
use crate::extract::ExtractState;
use crate::extract::ItemModel;
use crate::extract::TokenKind;
use crate::extract::first_kind;
use crate::extract::any_alpha;
use crate::filter::excluded_line;
use crate::filter::filter_from;
use crate::filter::filtered_lines;
use crate::filter::numeric_line;
use crate::filter::payment_line;
use crate::filter::start_line;
use crate::filter::total_line;
use crate::price::ExtractError;
use crate::text::split_parts;

verus! {

/// No walk over one line's tokens emits an item with an empty name:
/// emission is guarded on a non-empty gathered name.
pub proof fn lemma_proc_tokens_named(
    tokens: Seq<Seq<char>>,
    k: int,
    name: Seq<char>,
    appended: bool,
    price_set: bool,
)
    ensures
        match proc_tokens(tokens, k, name, appended, price_set) {
            Ok((n2, ps2, em)) => em is Some ==> em->Some_0.name.len() > 0,
            Err(_) => true,
        },
    decreases tokens.len() - k,
{
    if 0 <= k < tokens.len() {
        let tok = tokens[k];
        match first_kind(tok) {
            TokenKind::Appending => {
                lemma_proc_tokens_named(
                    tokens,
                    k + 1,
                    appended_name(name, appended, tok),
                    true,
                    price_set,
                );
            },
            TokenKind::Pricing => {
                if resolved_token(tokens) is None {
                    if any_alpha(tok) {
                        lemma_proc_tokens_named(
                            tokens,
                            k + 1,
                            appended_name(name, appended, tok),
                            true,
                            price_set,
                        );
                    } else {
                        lemma_proc_tokens_named(tokens, k + 1, name, appended, price_set);
                    }
                }
            },
            TokenKind::Inert => {
                lemma_proc_tokens_named(tokens, k + 1, name, appended, price_set);
            },
        }
    }
}

/// No extracted item carries an empty name.
pub proof fn lemma_extract_named(lines: Seq<Seq<char>>, st: ExtractState)
    ensures
        match extract_from(lines, st) {
            Ok(items) => forall|i: int| 0 <= i < items.len() ==> items[i].name.len() > 0,
            Err(_) => true,
        },
    decreases lines.len(),
{
    if lines.len() > 0 {
        let st0 = if st.price_set && st.name.len() > 0 {
            initial_state()
        } else {
            st
        };
        lemma_proc_tokens_named(split_parts(lines[0], ' '), 0, st0.name, false, st0.price_set);
        match proc_line(lines[0], st) {
            Err(_) => {},
            Ok((st2, em)) => {
                lemma_extract_named(lines.drop_first(), st2);
                match extract_from(lines.drop_first(), st2) {
                    Err(_) => {},
                    Ok(items) => {
                        match em {
                            Some(it) => {
                                assert(forall|i: int|
                                    0 <= i < (seq![it] + items).len() ==> (seq![it]
                                        + items)[i].name.len() > 0);
                            },
                            None => {},
                        }
                    },
                }
            },
        }
    }
}

/// The extractor never emits an item with an empty name: not from a
/// line, whose emission is guarded on a gathered name, and not in
/// reconciliation, whose synthesized total is named by the total marker.
pub proof fn lemma_no_item_unnamed(lines: Seq<Seq<char>>, items: Seq<ItemModel>)
    requires
        items_model(lines) == Ok::<Seq<ItemModel>, ExtractError>(items),
    ensures
        forall|i: int| 0 <= i < items.len() ==> items[i].name.len() > 0,
{
    lemma_extract_named(lines, initial_state());
    reveal_strlit("summe");
    let extracted = extract_from(lines, initial_state())->Ok_0;
    if !any_marker(extracted) {
        assert(items =~= extracted.push(
            ItemModel { name: "summe"@, cents: payments_total(extracted) },
        ));
    }
}

/// Exactly one synthesized total item is appended when and only when no
/// extracted item's name holds the total marker, and it is priced at the
/// sum of the captured payment amounts; when a marker item was extracted,
/// the items pass through reconciliation unchanged.
pub proof fn lemma_total_synthesized(lines: Seq<Seq<char>>, extracted: Seq<ItemModel>)
    requires
        extract_from(lines, initial_state()) == Ok::<Seq<ItemModel>, ExtractError>(extracted),
    ensures
        any_marker(extracted) ==> items_model(lines) == Ok::<Seq<ItemModel>, ExtractError>(
            extracted,
        ),
        !any_marker(extracted) && payments_total(extracted) <= u64::MAX ==> items_model(lines)
            == Ok::<Seq<ItemModel>, ExtractError>(
            extracted.push(ItemModel { name: "summe"@, cents: payments_total(extracted) }),
        ),
        !any_marker(extracted) && payments_total(extracted) > u64::MAX ==> items_model(lines)
            == Err::<Seq<ItemModel>, ExtractError>(ExtractError::PriceOutOfRange),
{
}

/// Extraction is a function of the filtered lines alone: two runs over
/// the same lines yield identical outcomes, with no state carried from
/// one run into the next.
pub proof fn lemma_extraction_repeatable(
    lines: Seq<Seq<char>>,
    first: Result<Seq<ItemModel>, ExtractError>,
    second: Result<Seq<ItemModel>, ExtractError>,
)
    requires
        first == items_model(lines),
        second == items_model(lines),
    ensures
        first == second,
{
}

/// The filter reaches a stop before the end of these lines: a total line,
/// or a payment line beyond the one already counted.
pub open spec fn filter_halts(lines: Seq<Seq<char>>, keeping: bool, card_seen: bool) -> bool
    decreases lines.len(),
{
    if lines.len() == 0 {
        false
    } else {
        let l = lines[0];
        let rest = lines.drop_first();
        if excluded_line(l) {
            filter_halts(rest, keeping, card_seen)
        } else {
            let k = keeping || start_line(l);
            if total_line(l) {
                true
            } else if payment_line(l) {
                card_seen || filter_halts(rest, k, true)
            } else {
                filter_halts(rest, k, card_seen)
            }
        }
    }
}

/// The filter's output ends at the earliest stop: once a total line or a
/// second payment line is reached, whatever follows in the input leaves
/// the output untouched.
pub proof fn lemma_filter_stops(
    lines: Seq<Seq<char>>,
    extra: Seq<Seq<char>>,
    keeping: bool,
    card_seen: bool,
    prev: Seq<char>,
)
    requires
        filter_halts(lines, keeping, card_seen),
    ensures
        filter_from(lines + extra, keeping, card_seen, prev) == filter_from(
            lines,
            keeping,
            card_seen,
            prev,
        ),
    decreases lines.len(),
{
    assert(lines.len() > 0);
    let l = lines[0];
    let rest = lines.drop_first();
    assert((lines + extra)[0] == l);
    assert((lines + extra).drop_first() =~= rest + extra);
    if excluded_line(l) {
        lemma_filter_stops(rest, extra, keeping, card_seen, prev);
    } else {
        let k = keeping || start_line(l);
        if total_line(l) {
        } else if payment_line(l) {
            if !card_seen {
                lemma_filter_stops(rest, extra, k, true, prev);
            }
        } else if k {
            if numeric_line(l) {
                lemma_filter_stops(rest, extra, k, card_seen, l);
            } else {
                lemma_filter_stops(rest, extra, k, card_seen, l);
            }
        } else {
            lemma_filter_stops(rest, extra, k, card_seen, prev);
        }
    }
}

/// No line of the filter's output matches the exclusion set, provided the
/// remembered pairing line does not (the filter never remembers one that
/// does).
pub proof fn lemma_filter_no_excluded(
    lines: Seq<Seq<char>>,
    keeping: bool,
    card_seen: bool,
    prev: Seq<char>,
)
    requires
        !excluded_line(prev),
    ensures
        forall|j: int|
            0 <= j < filter_from(lines, keeping, card_seen, prev).len() ==> !excluded_line(
                filter_from(lines, keeping, card_seen, prev)[j],
            ),
    decreases lines.len(),
{
    if lines.len() > 0 {
        let out = filter_from(lines, keeping, card_seen, prev);
        let l = lines[0];
        let rest = lines.drop_first();
        if excluded_line(l) {
            lemma_filter_no_excluded(rest, keeping, card_seen, prev);
            assert(out == filter_from(rest, keeping, card_seen, prev));
        } else {
            let k = keeping || start_line(l);
            if total_line(l) {
                assert forall|j: int| 0 <= j < out.len() implies !excluded_line(out[j]) by {
                    assert(out[j] == l);
                }
            } else if payment_line(l) {
                if !card_seen {
                    lemma_filter_no_excluded(rest, k, true, prev);
                    let tail = filter_from(rest, k, true, prev);
                    assert forall|j: int| 0 <= j < out.len() implies !excluded_line(out[j]) by {
                        if j == 0 {
                            assert(out[j] == l);
                        } else {
                            assert(out[j] == tail[j - 1]);
                            assert(!excluded_line(tail[j - 1]));
                        }
                    }
                } else {
                    assert forall|j: int| 0 <= j < out.len() implies !excluded_line(out[j]) by {
                        assert(out[j] == l);
                    }
                }
            } else if k {
                if numeric_line(l) {
                    lemma_filter_no_excluded(rest, k, card_seen, l);
                    let tail = filter_from(rest, k, card_seen, l);
                    assert forall|j: int| 0 <= j < out.len() implies !excluded_line(out[j]) by {
                        if j == 0 {
                            assert(out[j] == prev);
                        } else if j == 1 {
                            assert(out[j] == l);
                        } else {
                            assert(out[j] == tail[j - 2]);
                            assert(!excluded_line(tail[j - 2]));
                        }
                    }
                } else {
                    lemma_filter_no_excluded(rest, k, card_seen, l);
                    assert(out == filter_from(rest, k, card_seen, l));
                }
            } else {
                lemma_filter_no_excluded(rest, k, card_seen, prev);
                assert(out == filter_from(rest, k, card_seen, prev));
            }
        }
    }
}

/// An excluded line is inert: dropping it from the input leaves the
/// filter's output unchanged, wherever it stands — it is never emitted
/// and never becomes the remembered pairing line.
pub proof fn lemma_excluded_inert(
    lines: Seq<Seq<char>>,
    at: int,
    e: Seq<char>,
    keeping: bool,
    card_seen: bool,
    prev: Seq<char>,
)
    requires
        excluded_line(e),
        0 <= at <= lines.len(),
    ensures
        filter_from(lines.insert(at, e), keeping, card_seen, prev) == filter_from(
            lines,
            keeping,
            card_seen,
            prev,
        ),
    decreases lines.len(),
{
    let with = lines.insert(at, e);
    if at == 0 {
        assert(with[0] == e);
        assert(with.drop_first() =~= lines);
    } else {
        let l = lines[0];
        let rest = lines.drop_first();
        assert(with[0] == l);
        assert(with.drop_first() =~= rest.insert(at - 1, e));
        if excluded_line(l) {
            lemma_excluded_inert(rest, at - 1, e, keeping, card_seen, prev);
        } else {
            let k = keeping || start_line(l);
            if total_line(l) {
            } else if payment_line(l) {
                if !card_seen {
                    lemma_excluded_inert(rest, at - 1, e, k, true, prev);
                }
            } else if k {
                if numeric_line(l) {
                    lemma_excluded_inert(rest, at - 1, e, k, card_seen, l);
                } else {
                    lemma_excluded_inert(rest, at - 1, e, k, card_seen, l);
                }
            } else {
                lemma_excluded_inert(rest, at - 1, e, k, card_seen, prev);
            }
        }
    }
}

/// `xs` is a subsequence of `ys`: the elements of `xs` appear in `ys`,
/// in the same order.
pub open spec fn subsequence_of<T>(xs: Seq<T>, ys: Seq<T>) -> bool
    decreases xs.len() + ys.len(),
{
    if xs.len() == 0 {
        true
    } else if ys.len() == 0 {
        false
    } else {
        (xs[0] == ys[0] && subsequence_of(xs.drop_first(), ys.drop_first())) || subsequence_of(
            xs,
            ys.drop_first(),
        )
    }
}

pub proof fn lemma_subseq_refl<T>(xs: Seq<T>)
    ensures
        subsequence_of(xs, xs),
    decreases xs.len(),
{
    if xs.len() > 0 {
        lemma_subseq_refl(xs.drop_first());
    }
}

pub proof fn lemma_subseq_cons_weaken<T>(xs: Seq<T>, ys: Seq<T>, y: T)
    requires
        subsequence_of(xs, ys),
    ensures
        subsequence_of(xs, seq![y] + ys),
{
    if xs.len() > 0 {
        assert((seq![y] + ys).drop_first() =~= ys);
    }
}

pub proof fn lemma_subseq_prepend<T>(xs: Seq<T>, ys: Seq<T>, front: Seq<T>)
    requires
        subsequence_of(xs, ys),
    ensures
        subsequence_of(xs, front + ys),
    decreases front.len(),
{
    if front.len() == 0 {
        assert(front + ys =~= ys);
    } else {
        lemma_subseq_prepend(xs, ys, front.drop_first());
        lemma_subseq_cons_weaken(xs, front.drop_first() + ys, front[0]);
        assert(seq![front[0]] + (front.drop_first() + ys) =~= front + ys);
    }
}

pub proof fn lemma_subseq_concat<T>(a: Seq<T>, b: Seq<T>, c: Seq<T>, d: Seq<T>)
    requires
        subsequence_of(a, c),
        subsequence_of(b, d),
    ensures
        subsequence_of(a + b, c + d),
    decreases a.len() + c.len(),
{
    if a.len() == 0 {
        assert(a + b =~= b);
        lemma_subseq_prepend(b, d, c);
    } else {
        assert(c.len() > 0);
        if a[0] == c[0] && subsequence_of(a.drop_first(), c.drop_first()) {
            lemma_subseq_concat(a.drop_first(), b, c.drop_first(), d);
            assert((a + b).drop_first() =~= a.drop_first() + b);
            assert((c + d).drop_first() =~= c.drop_first() + d);
            assert((a + b)[0] == (c + d)[0]);
        } else {
            assert(subsequence_of(a, c.drop_first()));
            lemma_subseq_concat(a, b, c.drop_first(), d);
            assert((c + d).drop_first() =~= c.drop_first() + d);
        }
    }
}

pub proof fn lemma_subseq_skip_mid<T>(xs: Seq<T>, front: Seq<T>, e: T, back: Seq<T>)
    requires
        subsequence_of(xs, front + back),
    ensures
        subsequence_of(xs, front + (seq![e] + back)),
    decreases front.len(),
{
    if front.len() == 0 {
        assert(front + back =~= back);
        lemma_subseq_cons_weaken(xs, back, e);
        assert(front + (seq![e] + back) =~= seq![e] + back);
    } else if xs.len() == 0 {
    } else {
        assert((front + back).drop_first() =~= front.drop_first() + back);
        assert((front + (seq![e] + back)).drop_first() =~= front.drop_first() + (seq![e] + back));
        if xs[0] == (front + back)[0] && subsequence_of(xs.drop_first(), front.drop_first() + back) {
            lemma_subseq_skip_mid(xs.drop_first(), front.drop_first(), e, back);
            assert(xs[0] == (front + (seq![e] + back))[0]);
        } else {
            assert(subsequence_of(xs, front.drop_first() + back));
            lemma_subseq_skip_mid(xs, front.drop_first(), e, back);
        }
    }
}

/// Inputs on which the filter's pairing memory is never re-emitted: each
/// price-bearing body line is reached just after the body line it pairs
/// with, so the remembered line is emitted at most once, right before its
/// price line.
pub open spec fn pairing_fresh(
    lines: Seq<Seq<char>>,
    keeping: bool,
    card_seen: bool,
    fresh: bool,
) -> bool
    decreases lines.len(),
{
    if lines.len() == 0 {
        true
    } else {
        let l = lines[0];
        let rest = lines.drop_first();
        if excluded_line(l) {
            pairing_fresh(rest, keeping, card_seen, fresh)
        } else {
            let k = keeping || start_line(l);
            if total_line(l) {
                true
            } else if payment_line(l) {
                card_seen || pairing_fresh(rest, k, true, false)
            } else if k {
                if numeric_line(l) {
                    fresh && pairing_fresh(rest, k, card_seen, false)
                } else {
                    pairing_fresh(rest, k, card_seen, true)
                }
            } else {
                pairing_fresh(rest, k, card_seen, fresh)
            }
        }
    }
}

/// On a run whose pairing memory stays fresh, the filter's output is a
/// subsequence of the remembered line followed by the input lines; when
/// the memory is not re-emittable, of the input lines alone.
pub proof fn lemma_filter_subseq_from(
    lines: Seq<Seq<char>>,
    keeping: bool,
    card_seen: bool,
    prev: Seq<char>,
    fresh: bool,
)
    requires
        pairing_fresh(lines, keeping, card_seen, fresh),
    ensures
        fresh ==> subsequence_of(
            filter_from(lines, keeping, card_seen, prev),
            seq![prev] + lines,
        ),
        !fresh ==> subsequence_of(filter_from(lines, keeping, card_seen, prev), lines),
    decreases lines.len(),
{
    let out = filter_from(lines, keeping, card_seen, prev);
    if lines.len() == 0 {
        assert(subsequence_of(out, lines));
        assert(subsequence_of(out, seq![prev] + lines));
    } else {
        let l = lines[0];
        let rest = lines.drop_first();
        assert(lines =~= seq![l] + rest);
        if excluded_line(l) {
            lemma_filter_subseq_from(rest, keeping, card_seen, prev, fresh);
            if fresh {
                lemma_subseq_skip_mid(out, seq![prev], l, rest);
                assert(seq![prev] + (seq![l] + rest) =~= seq![prev] + lines);
            } else {
                lemma_subseq_cons_weaken(out, rest, l);
            }
        } else {
            let k = keeping || start_line(l);
            if total_line(l) || (payment_line(l) && card_seen) {
                assert(out == seq![l]);
                assert(out.drop_first() =~= Seq::<Seq<char>>::empty());
                assert(subsequence_of(out.drop_first(), rest));
                assert(subsequence_of(out, lines));
                if fresh {
                    lemma_subseq_cons_weaken(out, lines, prev);
                }
            } else if payment_line(l) {
                lemma_filter_subseq_from(rest, k, true, prev, false);
                let tail = filter_from(rest, k, true, prev);
                assert(out == seq![l] + tail);
                lemma_subseq_refl(seq![l]);
                lemma_subseq_concat(seq![l], tail, seq![l], rest);
                assert(subsequence_of(out, lines));
                if fresh {
                    lemma_subseq_cons_weaken(out, lines, prev);
                }
            } else if k {
                if numeric_line(l) {
                    assert(fresh);
                    lemma_filter_subseq_from(rest, k, card_seen, l, false);
                    let tail = filter_from(rest, k, card_seen, l);
                    assert(out == seq![prev, l] + tail);
                    lemma_subseq_refl(seq![prev, l]);
                    lemma_subseq_concat(seq![prev, l], tail, seq![prev, l], rest);
                    assert(seq![prev, l] + rest =~= seq![prev] + lines);
                } else {
                    lemma_filter_subseq_from(rest, k, card_seen, l, true);
                    assert(seq![l] + rest =~= lines);
                    assert(subsequence_of(out, lines));
                    if fresh {
                        lemma_subseq_cons_weaken(out, lines, prev);
                    }
                }
            } else {
                lemma_filter_subseq_from(rest, k, card_seen, prev, fresh);
                if fresh {
                    lemma_subseq_skip_mid(out, seq![prev], l, rest);
                    assert(seq![prev] + (seq![l] + rest) =~= seq![prev] + lines);
                } else {
                    lemma_subseq_cons_weaken(out, rest, l);
                }
            }
        }
    }
}

/// The filter's output is a subsequence of the input lines, on every
/// input whose price-bearing body lines each follow directly on the body
/// line they pair with.
pub proof fn lemma_filter_subsequence(raw: Seq<char>)
    requires
        pairing_fresh(split_parts(raw, '\n'), false, false, false),
    ensures
        subsequence_of(filtered_lines(raw), split_parts(raw, '\n')),
{
    lemma_filter_subseq_from(split_parts(raw, '\n'), false, false, Seq::<char>::empty(), false);
}

/// No line of the whole filter's output matches the exclusion set.
pub proof fn lemma_no_excluded_output(raw: Seq<char>)
    ensures
        forall|j: int|
            0 <= j < filtered_lines(raw).len() ==> !excluded_line(filtered_lines(raw)[j]),
{
    reveal_strlit("sie sparen");
    reveal_strlit("/");
    reveal_strlit("abatt");
    assert(!excluded_line(Seq::<char>::empty()));
    lemma_filter_no_excluded(split_parts(raw, '\n'), false, false, Seq::<char>::empty());
}

} // verus!
