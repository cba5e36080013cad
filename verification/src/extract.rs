use vstd::prelude::*;
use vstd::string::StrSliceExecFns;
use vstd::string::StringExecFns;
use crate::chars::alphabetic;
use crate::chars::numeric;
use crate::price::numeral_cents;
use crate::price::parse_price;
use crate::price::ExtractError;
use crate::text::contains_part;
use crate::text::has_part;
use crate::text::split_on;
use crate::text::split_parts;
use crate::text::views_of;

verus! {

/// One purchased item as recovered from the receipt: the word tokens
/// judged textual, each with a trailing space, and the price in
/// hundredths.
#[derive(Debug)]
pub struct Item {
    pub name: String,
    pub price_cents: u64,
}

/// The mathematical content of an [`Item`].
pub ghost struct ItemModel {
    pub name: Seq<char>,
    pub cents: int,
}

impl View for Item {
    type V = ItemModel;

    open spec fn view(&self) -> ItemModel {
        ItemModel { name: self.name@, cents: self.price_cents as int }
    }
}

/// The models of a sequence of items.
pub open spec fn models_of(items: Seq<Item>) -> Seq<ItemModel> {
    items.map_values(|it: Item| it@)
}

/// The accumulator the extractor carries from line to line: the name
/// gathered so far and whether a price has been resolved since the last
/// reset.
pub ghost struct ExtractState {
    pub name: Seq<char>,
    pub price_set: bool,
}

/// The extractor's state before the first line.
pub open spec fn initial_state() -> ExtractState {
    ExtractState { name: Seq::empty(), price_set: false }
}

/// What the first alphabetic or numeric character of a token decides:
/// an alphabetic character first makes the token part of a name, a
/// numeric character first calls for a price resolution, a token with
/// neither is passed over.
pub enum TokenKind {
    Appending,
    Pricing,
    Inert,
}

/// The first decision a token's characters force, read left to right.
pub open spec fn first_kind(tok: Seq<char>) -> TokenKind
    decreases tok.len(),
{
    if tok.len() == 0 {
        TokenKind::Inert
    } else if alphabetic(tok[0]) {
        TokenKind::Appending
    } else if numeric(tok[0]) {
        TokenKind::Pricing
    } else {
        first_kind(tok.drop_first())
    }
}

/// The token holds at least one alphabetic character.
pub open spec fn any_alpha(tok: Seq<char>) -> bool {
    exists|i: int| 0 <= i < tok.len() && alphabetic(tok[i])
}

/// The token a price is read from, if any: the second-to-last token when
/// it starts with a numeric character, else the last token when it does.
pub open spec fn resolved_token(tokens: Seq<Seq<char>>) -> Option<Seq<char>> {
    let n = tokens.len();
    if n >= 2 && tokens[n - 2].len() >= 1 && numeric(tokens[n - 2][0]) {
        Some(tokens[n - 2])
    } else if n >= 1 && tokens[n - 1].len() >= 1 && numeric(tokens[n - 1][0]) {
        Some(tokens[n - 1])
    } else {
        None
    }
}

/// A token joins the name with one trailing space; the first token
/// appended on a line starts the name afresh.
pub open spec fn appended_name(name: Seq<char>, appended: bool, tok: Seq<char>) -> Seq<char> {
    (if appended {
        name
    } else {
        Seq::empty()
    }) + tok + " "@
}

/// The extractor's walk over one line's tokens from position `k` on:
/// `name` and `appended` are the name gathered and whether this line
/// already appended to it; `price_set` is carried from earlier lines.
/// The result is the name and price flag the line leaves behind and the
/// item it emits, if any; a price token that denotes no amount within
/// machine bounds aborts the whole extraction.
pub open spec fn proc_tokens(
    tokens: Seq<Seq<char>>,
    k: int,
    name: Seq<char>,
    appended: bool,
    price_set: bool,
) -> Result<(Seq<char>, bool, Option<ItemModel>), ExtractError>
    decreases tokens.len() - k,
{
    if k < 0 || k >= tokens.len() {
        Ok((name, price_set, None))
    } else {
        let tok = tokens[k];
        match first_kind(tok) {
            TokenKind::Appending => proc_tokens(
                tokens,
                k + 1,
                appended_name(name, appended, tok),
                true,
                price_set,
            ),
            TokenKind::Pricing => match resolved_token(tokens) {
                Some(ptok) => match numeral_cents(ptok) {
                    None => Err(ExtractError::MalformedPrice),
                    Some(v) => if v > u64::MAX {
                        Err(ExtractError::PriceOutOfRange)
                    } else {
                        Ok(
                            (
                                name,
                                true,
                                if name.len() > 0 {
                                    Some(ItemModel { name: name, cents: v })
                                } else {
                                    None
                                },
                            ),
                        )
                    },
                },
                None => if any_alpha(tok) {
                    proc_tokens(tokens, k + 1, appended_name(name, appended, tok), true, price_set)
                } else {
                    proc_tokens(tokens, k + 1, name, appended, price_set)
                },
            },
            TokenKind::Inert => proc_tokens(tokens, k + 1, name, appended, price_set),
        }
    }
}

/// One line of the extractor: a completed pair is cleared first, then the
/// line's whitespace tokens are walked.
pub open spec fn proc_line(line: Seq<char>, st: ExtractState) -> Result<
    (ExtractState, Option<ItemModel>),
    ExtractError,
> {
    let st0 = if st.price_set && st.name.len() > 0 {
        initial_state()
    } else {
        st
    };
    match proc_tokens(split_parts(line, ' '), 0, st0.name, false, st0.price_set) {
        Ok((name, ps, em)) => Ok((ExtractState { name: name, price_set: ps }, em)),
        Err(e) => Err(e),
    }
}

/// The items the extractor emits from `lines` onward, in order, starting
/// in state `st`; the first fatal line aborts the run.
pub open spec fn extract_from(lines: Seq<Seq<char>>, st: ExtractState) -> Result<
    Seq<ItemModel>,
    ExtractError,
>
    decreases lines.len(),
{
    if lines.len() == 0 {
        Ok(Seq::empty())
    } else {
        match proc_line(lines[0], st) {
            Err(e) => Err(e),
            Ok((st2, em)) => match extract_from(lines.drop_first(), st2) {
                Err(e) => Err(e),
                Ok(items) => Ok(
                    match em {
                        Some(it) => seq![it] + items,
                        None => items,
                    },
                ),
            },
        }
    }
}

/// An item whose name holds the total marker.
pub open spec fn marker_item(it: ItemModel) -> bool {
    has_part(it.name, "summe"@)
}

/// An item whose name holds a card-payment or cash-change marker.
pub open spec fn payment_item(it: ItemModel) -> bool {
    has_part(it.name, "kartenzahlung"@) || has_part(it.name, "rückgeld"@)
}

/// Some item of the sequence holds the total marker.
pub open spec fn any_marker(items: Seq<ItemModel>) -> bool {
    exists|i: int| 0 <= i < items.len() && marker_item(items[i])
}

/// The sum of the prices of the payment items of the sequence.
pub open spec fn payments_total(items: Seq<ItemModel>) -> int
    decreases items.len(),
{
    if items.len() == 0 {
        0
    } else {
        payments_total(items.drop_last()) + if payment_item(items.last()) {
            items.last().cents
        } else {
            0
        }
    }
}

/// The reconciliation pass: when no extracted item names the total
/// marker, exactly one synthesized total is appended, priced at the sum
/// of the captured payment amounts; a sum beyond the machine word is out
/// of range.
pub open spec fn reconciled(items: Seq<ItemModel>) -> Result<Seq<ItemModel>, ExtractError> {
    if any_marker(items) {
        Ok(items)
    } else if payments_total(items) > u64::MAX {
        Err(ExtractError::PriceOutOfRange)
    } else {
        Ok(items.push(ItemModel { name: "summe"@, cents: payments_total(items) }))
    }
}

/// The whole extraction: the items of the lines, then reconciliation.
pub open spec fn items_model(lines: Seq<Seq<char>>) -> Result<Seq<ItemModel>, ExtractError> {
    match extract_from(lines, initial_state()) {
        Ok(items) => reconciled(items),
        Err(e) => Err(e),
    }
}

/// The first decision the token's characters force, read left to right.
pub fn token_kind(tok: &str) -> (k: TokenKind)
    ensures
        k == first_kind(tok@),
{
    let n = tok.unicode_len();
    let mut i: usize = 0;
    proof {
        assert(tok@.skip(0) =~= tok@);
    }
    while i < n
        invariant
            n == tok@.len(),
            i <= n,
            first_kind(tok@) == first_kind(tok@.skip(i as int)),
        decreases n - i,
    {
        let c = tok.get_char(i);
        proof {
            assert(tok@.skip(i as int)[0] == tok@[i as int]);
        }
        if c.is_alphabetic() {
            return TokenKind::Appending;
        }
        if c.is_numeric() {
            return TokenKind::Pricing;
        }
        proof {
            assert(tok@.skip(i as int).drop_first() =~= tok@.skip(i + 1));
        }
        i += 1;
    }
    proof {
        assert(tok@.skip(n as int) =~= Seq::<char>::empty());
    }
    TokenKind::Inert
}

/// Whether the token holds an alphabetic character.
pub fn any_alpha_check(tok: &str) -> (r: bool)
    ensures
        r == any_alpha(tok@),
{
    let n = tok.unicode_len();
    let mut i: usize = 0;
    while i < n
        invariant
            n == tok@.len(),
            i <= n,
            forall|k: int| 0 <= k < i ==> !alphabetic(tok@[k]),
        decreases n - i,
    {
        let c = tok.get_char(i);
        if c.is_alphabetic() {
            proof {
                assert(alphabetic(tok@[i as int]));
            }
            return true;
        }
        i += 1;
    }
    false
}

/// Reads the filtered lines into items: names gathered from textual
/// tokens, prices resolved from the line's trailing numeric token, and a
/// reconciled total appended when no line carried the total marker.
pub fn sort_items(lines: Vec<String>) -> (r: Result<Vec<Item>, ExtractError>)
    ensures
        match r {
            Ok(items) => items_model(views_of(lines@)) == Ok::<Seq<ItemModel>, ExtractError>(
                models_of(items@),
            ),
            Err(e) => items_model(views_of(lines@)) == Err::<Seq<ItemModel>, ExtractError>(e),
        },
{
    let ghost lv = views_of(lines@);
    let n = lines.len();
    let mut items: Vec<Item> = Vec::new();
    let mut name = String::new();
    let mut price_set = false;
    let mut i: usize = 0;
    proof {
        assert(lv.skip(0) =~= lv);
        assert(models_of(items@) =~= Seq::<ItemModel>::empty());
        if extract_from(lv, initial_state()) is Ok {
            assert(models_of(items@) + extract_from(lv, initial_state())->Ok_0 =~= extract_from(
                lv,
                initial_state(),
            )->Ok_0);
        }
    }
    while i < n
        invariant
            n == lines.len(),
            i <= n,
            lv == views_of(lines@),
            lv.len() == n,
            match extract_from(lv.skip(i as int), ExtractState { name: name@, price_set }) {
                Ok(tail) => extract_from(lv, initial_state()) == Ok::<
                    Seq<ItemModel>,
                    ExtractError,
                >(models_of(items@) + tail),
                Err(e) => extract_from(lv, initial_state()) == Err::<
                    Seq<ItemModel>,
                    ExtractError,
                >(e),
            },
        decreases n - i,
    {
        let ghost st_in = ExtractState { name: name@, price_set };
        let ghost pre_items = items@;
        proof {
            assert(lv.skip(i as int)[0] == lines@[i as int]@);
            assert(lv.skip(i as int).drop_first() =~= lv.skip(i + 1));
        }
        let line = &lines[i];
        if price_set && !name.as_str().is_empty() {
            name = String::new();
            price_set = false;
        }
        let ghost n0 = name@;
        let ghost ps0 = price_set;
        let tokens = split_on(line.as_str(), ' ');
        let ghost tv = views_of(tokens@);
        let tn = tokens.len();
        let mut res_idx: Option<usize> = None;
        if tn >= 2 {
            let t2 = tokens[tn - 2].as_str();
            if !t2.is_empty() && t2.get_char(0).is_numeric() {
                res_idx = Some(tn - 2);
            }
        }
        if res_idx.is_none() {
            let t1 = tokens[tn - 1].as_str();
            if !t1.is_empty() && t1.get_char(0).is_numeric() {
                res_idx = Some(tn - 1);
            }
        }
        proof {
            match res_idx {
                Some(j) => assert(resolved_token(tv) == Some(tv[j as int])),
                None => assert(resolved_token(tv) is None),
            }
        }
        let mut appended = false;
        let mut ended = false;
        let ghost mut line_em: Option<ItemModel> = None;
        let mut k: usize = 0;
        #[verifier::loop_isolation(false)]
        while k < tn && !ended
            invariant
                tn == tokens.len(),
                k <= tn,
                tv == views_of(tokens@),
                match res_idx {
                    Some(j) => j < tn && resolved_token(tv) == Some(tv[j as int]),
                    None => resolved_token(tv) is None,
                },
                !ended ==> items@ == pre_items && line_em is None && proc_tokens(
                    tv,
                    0,
                    n0,
                    false,
                    ps0,
                ) == proc_tokens(tv, k as int, name@, appended, price_set),
                ended ==> proc_tokens(tv, 0, n0, false, ps0) == Ok::<
                    (Seq<char>, bool, Option<ItemModel>),
                    ExtractError,
                >((name@, price_set, line_em)) && models_of(items@) == models_of(pre_items) + (
                match line_em {
                    Some(m) => seq![m],
                    None => Seq::<ItemModel>::empty(),
                }),
            decreases tn - k,
        {
            proof {
                assert(tv[k as int] == tokens@[k as int]@);
            }
            let ghost pre_name = name@;
            let ghost pre_appended = appended;
            let ghost pre_ps = price_set;
            let tok = tokens[k].as_str();
            let kind = token_kind(tok);
            match kind {
                TokenKind::Appending => {
                    if !appended {
                        name = String::new();
                    }
                    name.append(tok);
                    name.append(" ");
                    appended = true;
                    proof {
                        assert(name@ =~= appended_name(pre_name, pre_appended, tok@));
                        assert(proc_tokens(tv, k as int, pre_name, pre_appended, pre_ps)
                            == proc_tokens(
                            tv,
                            k + 1,
                            appended_name(pre_name, pre_appended, tv[k as int]),
                            true,
                            pre_ps,
                        ));
                    }
                },
                TokenKind::Pricing => {
                    match res_idx {
                        Some(j) => {
                            let ptok = tokens[j].as_str();
                            match parse_price(ptok) {
                                Err(e) => {
                                    proof {
                                        assert(proc_tokens(tv, k as int, name@, appended, price_set)
                                            == Err::<
                                            (Seq<char>, bool, Option<ItemModel>),
                                            ExtractError,
                                        >(e));
                                        assert(lv[i as int] == lines@[i as int]@);
                                        assert(split_parts(lv[i as int], ' ') == tv);
                                        assert(proc_line(lv[i as int], st_in) == Err::<
                                            (ExtractState, Option<ItemModel>),
                                            ExtractError,
                                        >(e));
                                        assert(extract_from(lv.skip(i as int), st_in) == Err::<
                                            Seq<ItemModel>,
                                            ExtractError,
                                        >(e));
                                    }
                                    return Err(e);
                                },
                                Ok(v) => {
                                    proof {
                                        crate::price::lemma_numeral_cents_nonneg(tv[j as int]);
                                        assert(numeral_cents(tv[j as int]) == Some(v as int));
                                    }
                                    if !name.as_str().is_empty() {
                                        items.push(
                                            Item { name: name.clone(), price_cents: v },
                                        );
                                        proof {
                                            line_em = Some(
                                                ItemModel { name: name@, cents: v as int },
                                            );
                                            assert(models_of(items@) =~= models_of(pre_items) + seq![
                                                ItemModel { name: name@, cents: v as int },
                                            ]);
                                        }
                                    } else {
                                        proof {
                                            assert(models_of(items@) =~= models_of(pre_items)
                                                + Seq::<ItemModel>::empty());
                                        }
                                    }
                                    price_set = true;
                                    ended = true;
                                    proof {
                                        assert(proc_tokens(tv, k as int, pre_name, pre_appended, pre_ps)
                                            == Ok::<
                                            (Seq<char>, bool, Option<ItemModel>),
                                            ExtractError,
                                        >((pre_name, true, line_em)));
                                    }
                                },
                            }
                        },
                        None => {
                            if any_alpha_check(tok) {
                                if !appended {
                                    name = String::new();
                                }
                                name.append(tok);
                                name.append(" ");
                                appended = true;
                                proof {
                                    assert(name@ =~= appended_name(pre_name, pre_appended, tok@));
                                    assert(proc_tokens(tv, k as int, pre_name, pre_appended, pre_ps)
                                        == proc_tokens(
                                        tv,
                                        k + 1,
                                        appended_name(pre_name, pre_appended, tv[k as int]),
                                        true,
                                        pre_ps,
                                    ));
                                }
                            } else {
                                proof {
                                    assert(proc_tokens(tv, k as int, pre_name, pre_appended, pre_ps)
                                        == proc_tokens(tv, k + 1, pre_name, pre_appended, pre_ps));
                                }
                            }
                        },
                    }
                },
                TokenKind::Inert => {
                    proof {
                        assert(proc_tokens(tv, k as int, pre_name, pre_appended, pre_ps)
                            == proc_tokens(tv, k + 1, pre_name, pre_appended, pre_ps));
                    }
                },
            }
            k += 1;
        }
        if !ended {
            proof {
                assert(proc_tokens(tv, tn as int, name@, appended, price_set) == Ok::<
                    (Seq<char>, bool, Option<ItemModel>),
                    ExtractError,
                >((name@, price_set, None)));
            }
        }
        proof {
            let st2 = ExtractState { name: name@, price_set };
            assert(lv[i as int] == lines@[i as int]@);
            assert(split_parts(lv[i as int], ' ') == tv);
            assert(proc_line(lv[i as int], st_in) == Ok::<
                (ExtractState, Option<ItemModel>),
                ExtractError,
            >((st2, line_em)));
            let em_seq = match line_em {
                Some(m) => seq![m],
                None => Seq::<ItemModel>::empty(),
            };
            match extract_from(lv.skip(i + 1), st2) {
                Ok(tail2) => {
                    assert(extract_from(lv.skip(i as int), st_in) == Ok::<
                        Seq<ItemModel>,
                        ExtractError,
                    >(
                        match line_em {
                            Some(m) => seq![m] + tail2,
                            None => tail2,
                        },
                    ));
                    assert(models_of(pre_items) + (em_seq + tail2) =~= models_of(items@) + tail2);
                    assert(match line_em {
                        Some(m) => seq![m] + tail2,
                        None => tail2,
                    } =~= em_seq + tail2);
                },
                Err(_) => {
                    assert(extract_from(lv.skip(i as int), st_in) == extract_from(
                        lv.skip(i + 1),
                        st2,
                    ));
                },
            }
        }
        i += 1;
    }
    proof {
        assert(lv.skip(n as int) =~= Seq::<Seq<char>>::empty());
        assert(extract_from(lv, initial_state()) == Ok::<Seq<ItemModel>, ExtractError>(
            models_of(items@) + Seq::<ItemModel>::empty(),
        ));
        assert(models_of(items@) + Seq::<ItemModel>::empty() =~= models_of(items@));
    }
    let m = items.len();
    let mut j: usize = 0;
    while j < m
        invariant
            m == items.len(),
            forall|t: int| 0 <= t < j ==> !marker_item(models_of(items@)[t]),
            extract_from(lv, initial_state()) == Ok::<Seq<ItemModel>, ExtractError>(
                models_of(items@),
            ),
            lv == views_of(lines@),
        decreases m - j,
    {
        if contains_part(items[j].name.as_str(), "summe") {
            proof {
                assert(marker_item(models_of(items@)[j as int]));
                assert(any_marker(models_of(items@)));
            }
            return Ok(items);
        }
        j += 1;
    }
    proof {
        assert(!any_marker(models_of(items@)));
    }
    let mut total: u64 = 0;
    let mut t: usize = 0;
    while t < m
        invariant
            m == items.len(),
            t <= m,
            total as int == payments_total(models_of(items@).take(t as int)),
            !any_marker(models_of(items@)),
            extract_from(lv, initial_state()) == Ok::<Seq<ItemModel>, ExtractError>(
                models_of(items@),
            ),
            lv == views_of(lines@),
        decreases m - t,
    {
        proof {
            assert(models_of(items@).take(t + 1).drop_last() =~= models_of(items@).take(t as int));
            assert(models_of(items@).take(t + 1).last() == models_of(items@)[t as int]);
        }
        if contains_part(items[t].name.as_str(), "kartenzahlung") || contains_part(
            items[t].name.as_str(),
            "rückgeld",
        ) {
            match total.checked_add(items[t].price_cents) {
                Some(tot) => {
                    total = tot;
                },
                None => {
                    proof {
                        lemma_payments_total_take(models_of(items@), t + 1);
                    }
                    return Err(ExtractError::PriceOutOfRange);
                },
            }
        }
        t += 1;
    }
    proof {
        assert(models_of(items@).take(m as int) =~= models_of(items@));
    }
    let ghost pre_items = items@;
    let marker = String::from_str("summe");
    items.push(Item { name: marker, price_cents: total });
    proof {
        assert(models_of(items@) =~= models_of(pre_items).push(
            ItemModel { name: "summe"@, cents: total as int },
        ));
    }
    Ok(items)
}

/// Adding further items never lowers the payment total, whose terms are
/// machine prices and so never negative.
pub proof fn lemma_payments_total_take(items: Seq<ItemModel>, k: int)
    requires
        0 <= k <= items.len(),
        forall|t: int| 0 <= t < items.len() ==> items[t].cents >= 0,
    ensures
        payments_total(items.take(k)) <= payments_total(items),
    decreases items.len(),
{
    if k == items.len() {
        assert(items.take(k) =~= items);
    } else {
        assert(items.drop_last().take(k) =~= items.take(k));
        assert(forall|t: int| 0 <= t < items.drop_last().len() ==> items.drop_last()[t].cents >= 0);
        lemma_payments_total_take(items.drop_last(), k);
        lemma_payments_total_nonneg(items.drop_last());
    }
}

/// The payment total of non-negative prices is never negative.
pub proof fn lemma_payments_total_nonneg(items: Seq<ItemModel>)
    requires
        forall|t: int| 0 <= t < items.len() ==> items[t].cents >= 0,
    ensures
        payments_total(items) >= 0,
    decreases items.len(),
{
    if items.len() != 0 {
        assert(forall|t: int| 0 <= t < items.drop_last().len() ==> items.drop_last()[t].cents >= 0);
        lemma_payments_total_nonneg(items.drop_last());
    }
}

} // verus!
