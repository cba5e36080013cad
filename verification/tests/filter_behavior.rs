use receipt_read::sort_lines;

fn strings(lines: &[&str]) -> Vec<String> {
    lines.iter().map(|l| l.to_string()).collect()
}

#[test]
fn empty_text_keeps_nothing() {
    assert_eq!(sort_lines(""), Vec::<String>::new());
}

#[test]
fn nothing_kept_before_a_start_keyword() {
    assert_eq!(sort_lines("brot\n1,99"), Vec::<String>::new());
}

#[test]
fn body_line_pairs_with_the_previous_line() {
    let out = sort_lines("eur kasse\nbrot\n1,99 a\nsumme 1,99");
    assert_eq!(out, strings(&["brot", "1,99 a", "summe 1,99"]));
}

#[test]
fn start_line_itself_can_become_pairing_memory() {
    let out = sort_lines("eur kasse\nbrot 1,99\nsumme");
    assert_eq!(out, strings(&["eur kasse", "brot 1,99", "summe"]));
}

#[test]
fn excluded_line_never_appears_and_never_pairs() {
    let out = sort_lines("eur markt\nsie sparen 10%\nbrot\n1,99 a\nsumme 1,99");
    assert_eq!(out, strings(&["brot", "1,99 a", "summe 1,99"]));
    for line in &out {
        assert!(!line.contains("sie sparen"));
    }
}

#[test]
fn excluded_line_does_not_open_the_item_block() {
    assert_eq!(sort_lines("eur / markt\nbrot 1,99"), Vec::<String>::new());
}

#[test]
fn rebate_keyword_is_excluded() {
    assert_eq!(sort_lines("eur kasse\nrabatt 0,50\nsumme"), strings(&["summe"]));
}

#[test]
fn total_line_ends_the_run() {
    let out = sort_lines("eur kasse\nbrot 1,99\nsumme\nrest 9,99");
    assert_eq!(out, strings(&["eur kasse", "brot 1,99", "summe"]));
}

#[test]
fn second_payment_line_ends_the_run() {
    let out = sort_lines("kartenzahlung 2,50\nrückgeld 0,50\nbrot 1,99");
    assert_eq!(out, strings(&["kartenzahlung 2,50", "rückgeld 0,50"]));
}

#[test]
fn one_payment_line_does_not_end_the_run() {
    let out = sort_lines("eur kasse\nkartenzahlung 2,50\nsumme 2,50");
    assert_eq!(out, strings(&["kartenzahlung 2,50", "summe 2,50"]));
}

#[test]
fn back_to_back_price_lines_reuse_the_memory() {
    let out = sort_lines("fur\nbrot\n1,99 a\n2,50 b\nsumme");
    assert_eq!(out, strings(&["brot", "1,99 a", "1,99 a", "2,50 b", "summe"]));
}

#[test]
fn first_price_line_without_memory_emits_an_empty_line() {
    let out = sort_lines("eur 1,99");
    assert_eq!(out, strings(&["", "eur 1,99"]));
}
