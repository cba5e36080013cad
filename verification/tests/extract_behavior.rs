use receipt_read::sort_items;
use receipt_read::sort_lines;
use receipt_read::ExtractError;
use receipt_read::Item;

fn strings(lines: &[&str]) -> Vec<String> {
    lines.iter().map(|l| l.to_string()).collect()
}

fn pairs(items: &[Item]) -> Vec<(String, u64)> {
    items.iter().map(|it| (it.name.clone(), it.price_cents)).collect()
}

#[test]
fn name_and_price_lines_with_explicit_total() {
    let items = sort_items(strings(&["apfel", "apfel 1,99", "summe 1,99"])).unwrap();
    assert_eq!(
        pairs(&items),
        vec![("apfel ".to_string(), 199), ("summe ".to_string(), 199)]
    );
}

#[test]
fn missing_total_is_synthesized_from_the_card_payment() {
    let items = sort_items(strings(&["brot 2,50", "kartenzahlung 2,50"])).unwrap();
    assert_eq!(
        pairs(&items),
        vec![
            ("brot ".to_string(), 250),
            ("kartenzahlung ".to_string(), 250),
            ("summe".to_string(), 250),
        ]
    );
}

#[test]
fn synthesized_total_sums_card_payment_and_cash_change() {
    let items = sort_items(strings(&["kartenzahlung 2,50", "rückgeld 0,50"])).unwrap();
    assert_eq!(
        pairs(&items),
        vec![
            ("kartenzahlung ".to_string(), 250),
            ("rückgeld ".to_string(), 50),
            ("summe".to_string(), 300),
        ]
    );
}

#[test]
fn empty_input_yields_a_zero_total() {
    let items = sort_items(Vec::new()).unwrap();
    assert_eq!(pairs(&items), vec![("summe".to_string(), 0)]);
}

#[test]
fn no_item_gets_an_empty_name() {
    let items = sort_items(strings(&["5 5", "x 1,00", "summe 1,00"])).unwrap();
    assert_eq!(
        pairs(&items),
        vec![("x ".to_string(), 100), ("summe ".to_string(), 100)]
    );
    for it in &items {
        assert!(!it.name.is_empty());
    }
}

#[test]
fn name_carries_over_to_a_price_only_line() {
    let items = sort_items(strings(&["apfel", "1,99"])).unwrap();
    assert_eq!(
        pairs(&items),
        vec![("apfel ".to_string(), 199), ("summe".to_string(), 0)]
    );
}

#[test]
fn second_to_last_token_outranks_the_last() {
    let items = sort_items(strings(&["a 2,22 1,11", "summe 3,33"])).unwrap();
    assert_eq!(
        pairs(&items),
        vec![("a ".to_string(), 222), ("summe ".to_string(), 333)]
    );
}

#[test]
fn plain_integer_and_one_fraction_digit_numerals() {
    let items = sort_items(strings(&["a 500", "b 2,5", "summe 505"])).unwrap();
    assert_eq!(
        pairs(&items),
        vec![
            ("a ".to_string(), 50000),
            ("b ".to_string(), 250),
            ("summe ".to_string(), 50500),
        ]
    );
}

#[test]
fn malformed_numeral_is_fatal() {
    assert_eq!(
        sort_items(strings(&["a 1,2,3"])).unwrap_err(),
        ExtractError::MalformedPrice
    );
}

#[test]
fn trailing_comma_is_fatal() {
    assert_eq!(
        sort_items(strings(&["a 1,"])).unwrap_err(),
        ExtractError::MalformedPrice
    );
}

#[test]
fn three_fraction_digits_are_fatal() {
    assert_eq!(
        sort_items(strings(&["a 1,999"])).unwrap_err(),
        ExtractError::MalformedPrice
    );
}

#[test]
fn amount_beyond_the_machine_word_is_fatal() {
    assert_eq!(
        sort_items(strings(&["a 99999999999999999999"])).unwrap_err(),
        ExtractError::PriceOutOfRange
    );
}

#[test]
fn extraction_is_repeatable() {
    let lines = strings(&["brot 2,50", "kartenzahlung 2,50"]);
    let first = sort_items(lines.clone()).unwrap();
    let second = sort_items(lines).unwrap();
    assert_eq!(pairs(&first), pairs(&second));
}

#[test]
fn whole_pipeline_on_a_receipt() {
    let raw = "real markt gmbh\neur\napfel\n1,99 a\nbrot 2,50\nsie sparen 10%\nsumme 4,49\nkartenzahlung 4,49";
    let lines = sort_lines(raw);
    assert_eq!(
        lines,
        strings(&["apfel", "1,99 a", "1,99 a", "brot 2,50", "summe 4,49"])
    );
    let items = sort_items(lines).unwrap();
    assert_eq!(
        pairs(&items),
        vec![
            ("apfel ".to_string(), 199),
            ("brot ".to_string(), 250),
            ("summe ".to_string(), 449),
        ]
    );
}
