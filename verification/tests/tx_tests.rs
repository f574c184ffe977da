use merkle_block::tx::filter_large_txs;
use merkle_block::tx::parse_tx;
use merkle_block::tx::parse_txs;
use merkle_block::tx::parse_u64;
use merkle_block::tx::total_amount;
use merkle_block::tx::trim_str;
use merkle_block::tx::u64_to_dec_string;
use merkle_block::tx::AmountList;
use merkle_block::tx::HasAmount;
use merkle_block::tx::ParseTxError;
use merkle_block::tx::Tx;

#[test]
fn parse_valid_line() {
    let line = "Alice,Bob,100";
    let tx = parse_tx(line).unwrap();
    assert_eq!(tx.from, "Alice");
    assert_eq!(tx.to, "Bob");
    assert_eq!(tx.amount, 100);
}

#[test]
fn parse_not_enough_parts() {
    let line = "Alice,Bob";
    let result = parse_tx(line);
    assert!(result.is_err());
    assert_eq!(matches!(result.unwrap_err(), ParseTxError::NotEnoughParts), true);
}

#[test]
fn parse_invalid_amount() {
    let line = "Alice,Bob,abc";
    let result = parse_tx(line);
    assert!(result.is_err());
    assert_eq!(matches!(result.unwrap_err(), ParseTxError::InvalidAmount), true);
}

#[test]
fn parse_empty_line_fails() {
    let result = parse_tx("");
    assert!(matches!(result.unwrap_err(), ParseTxError::NotEnoughParts));
}

#[test]
fn parse_accepts_leading_plus() {
    let tx = parse_tx("A,B,+10").unwrap();
    assert_eq!(tx.amount, 10);
}

#[test]
fn parse_rejects_empty_amount() {
    let result = parse_tx("A,B,");
    assert!(matches!(result.unwrap_err(), ParseTxError::InvalidAmount));
}

#[test]
fn parse_rejects_negative_amount() {
    let result = parse_tx("A,B,-5");
    assert!(matches!(result.unwrap_err(), ParseTxError::InvalidAmount));
}

#[test]
fn parse_amount_at_limit() {
    let tx = parse_tx("A,B,18446744073709551615").unwrap();
    assert_eq!(tx.amount, u64::MAX);
}

#[test]
fn parse_amount_over_limit_fails() {
    let result = parse_tx("A,B,18446744073709551616");
    assert!(matches!(result.unwrap_err(), ParseTxError::InvalidAmount));
}

#[test]
fn parse_ignores_extra_parts() {
    let tx = parse_tx("A,B,5,junk").unwrap();
    assert_eq!(tx.from, "A");
    assert_eq!(tx.to, "B");
    assert_eq!(tx.amount, 5);
}

#[test]
fn parse_keeps_empty_names() {
    let tx = parse_tx(",,0").unwrap();
    assert_eq!(tx.from, "");
    assert_eq!(tx.to, "");
    assert_eq!(tx.amount, 0);
}

#[test]
fn parse_via_from_str() {
    let tx: Tx = "A,B,3".parse().unwrap();
    assert_eq!(tx.from, "A");
    assert_eq!(tx.amount, 3);
}

#[test]
fn parse_u64_plain() {
    assert_eq!(parse_u64("0"), Some(0));
    assert_eq!(parse_u64("42"), Some(42));
    assert_eq!(parse_u64("007"), Some(7));
    assert_eq!(parse_u64(""), None);
    assert_eq!(parse_u64("+"), None);
    assert_eq!(parse_u64("++1"), None);
    assert_eq!(parse_u64("4 2"), None);
}

#[test]
fn parse_txs_several_lines() {
    let input = "A,B,1\n\n  C,D,2  \r\nE,F,3";
    let txs = parse_txs(input).unwrap();
    assert_eq!(txs.len(), 3);
    assert_eq!(txs[0].from, "A");
    assert_eq!(txs[1].to, "D");
    assert_eq!(txs[1].amount, 2);
    assert_eq!(txs[2].amount, 3);
}

#[test]
fn parse_txs_empty_input() {
    let txs = parse_txs("").unwrap();
    assert_eq!(txs.len(), 0);
    let txs = parse_txs(" \n \n ").unwrap();
    assert_eq!(txs.len(), 0);
}

#[test]
fn parse_txs_stops_at_first_error() {
    let result = parse_txs("A,B,1\nbad line\nC,D,2");
    assert!(matches!(result.unwrap_err(), ParseTxError::NotEnoughParts));
    let result = parse_txs("A,B,1\nC,D,x");
    assert!(matches!(result.unwrap_err(), ParseTxError::InvalidAmount));
}

#[test]
fn decimal_rendering() {
    assert_eq!(u64_to_dec_string(0), "0");
    assert_eq!(u64_to_dec_string(9), "9");
    assert_eq!(u64_to_dec_string(10), "10");
    assert_eq!(u64_to_dec_string(1234567890), "1234567890");
    assert_eq!(u64_to_dec_string(u64::MAX), "18446744073709551615");
}

#[test]
fn trim_removes_surrounding_whitespace() {
    assert_eq!(trim_str("  x y  "), "x y");
    assert_eq!(trim_str("\t a \r\n"), "a");
    assert_eq!(trim_str(""), "");
    assert_eq!(trim_str(" \t "), "");
    assert_eq!(trim_str("none"), "none");
}

fn tx(from: &str, to: &str, amount: u64) -> Tx {
    Tx {
        from: from.to_string(),
        to: to.to_string(),
        amount,
    }
}

#[test]
fn amounts_are_summed() {
    let txs = vec![tx("A", "B", 1), tx("C", "D", 2), tx("E", "F", 39)];
    assert_eq!(total_amount(&txs), 42);
    let none: Vec<Tx> = Vec::new();
    assert_eq!(total_amount(&none), 0);
}

#[test]
fn amount_is_read_through_capability() {
    let t = tx("A", "B", 5);
    assert_eq!(t.amount(), 5);
}

#[test]
fn amount_list_totals_and_counts() {
    let list = AmountList {
        items: vec![tx("A", "B", 10), tx("C", "D", 20)],
    };
    assert_eq!(list.total(), 30);
    assert_eq!(list.len(), 2);
}

#[test]
fn amount_list_push_drops_the_item() {
    let mut list = AmountList {
        items: vec![tx("A", "B", 10)],
    };
    list.push(tx("C", "D", 20));
    assert_eq!(list.len(), 1);
    assert_eq!(list.total(), 10);
    list.print_all();
}

#[test]
fn filtering_keeps_large_transactions_in_order() {
    let txs = vec![tx("A", "B", 5), tx("C", "D", 50), tx("E", "F", 7), tx("G", "H", 100)];
    let large = filter_large_txs(&txs, 7);
    assert_eq!(large.len(), 3);
    assert_eq!(large[0].from, "C");
    assert_eq!(large[1].from, "E");
    assert_eq!(large[2].from, "G");
    let none = filter_large_txs(&txs, 1000);
    assert_eq!(none.len(), 0);
}
