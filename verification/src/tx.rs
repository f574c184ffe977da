//! Transactions: the data they carry, the digest they hash to, and a
//! small comma-separated text parser that builds them.

use vstd::prelude::*;
use vstd::string::StringExecFns;

verus! {

/// A transfer of some amount from one party to another.
#[derive(Debug)]
pub struct Tx {
    pub from: String,
    pub to: String,
    pub amount: u64,
}

/// The field values of a transaction, at the specification level.
pub struct TxView {
    pub from: Seq<char>,
    pub to: Seq<char>,
    pub amount: nat,
}

impl View for Tx {
    type V = TxView;

    open spec fn view(&self) -> TxView {
        TxView { from: self.from@, to: self.to@, amount: self.amount as nat }
    }
}

/// Why a line of text failed to parse as a transaction.
#[derive(Debug)]
pub enum ParseTxError {
    /// The line has fewer than three comma-separated parts.
    NotEnoughParts,
    /// The third part is not a decimal number that fits in a `u64`.
    InvalidAmount,
}

/// The decimal digit character for a value below ten.
pub open spec fn spec_digit(d: nat) -> char
    recommends
        d < 10,
{
    if d == 0 {
        '0'
    } else if d == 1 {
        '1'
    } else if d == 2 {
        '2'
    } else if d == 3 {
        '3'
    } else if d == 4 {
        '4'
    } else if d == 5 {
        '5'
    } else if d == 6 {
        '6'
    } else if d == 7 {
        '7'
    } else if d == 8 {
        '8'
    } else {
        '9'
    }
}

/// The decimal representation of a number: its digits in order, most
/// significant first, with no leading zero except for zero itself.
pub open spec fn spec_u64_dec(n: nat) -> Seq<char>
    decreases n,
{
    if n < 10 {
        seq![spec_digit(n)]
    } else {
        spec_u64_dec(n / 10).push(spec_digit(n % 10))
    }
}

/// The decimal representation of a number is non-empty, consists of
/// digits, and reads back as the number itself.
pub proof fn lemma_u64_dec_val(n: nat)
    ensures
        spec_u64_dec(n).len() > 0,
        spec_all_digits(spec_u64_dec(n)),
        spec_digits_val(spec_u64_dec(n)) == n,
    decreases n,
{
    if n < 10 {
        let s = spec_u64_dec(n);
        assert(s.drop_last() =~= Seq::<char>::empty());
        assert(spec_digits_val(Seq::<char>::empty()) == 0);
        assert(spec_is_digit(spec_digit(n)));
        assert(spec_digit_val(spec_digit(n)) == n);
    } else {
        lemma_u64_dec_val(n / 10);
        let prefix = spec_u64_dec(n / 10);
        let s = prefix.push(spec_digit(n % 10));
        assert(s.drop_last() =~= prefix);
        assert(spec_is_digit(spec_digit(n % 10)));
        assert(spec_digit_val(spec_digit(n % 10)) == n % 10);
        assert(spec_digits_val(s) == spec_digits_val(prefix) * 10 + n % 10);
        assert forall|i: int| 0 <= i < s.len() implies spec_is_digit(s[i]) by {
            if i < prefix.len() {
                assert(spec_is_digit(prefix[i]));
            }
        }
    }
}

/// Two different numbers never share a decimal representation.
pub proof fn lemma_u64_dec_injective(m: nat, n: nat)
    ensures
        spec_u64_dec(m) == spec_u64_dec(n) ==> m == n,
{
    lemma_u64_dec_val(m);
    lemma_u64_dec_val(n);
}

/// The one-character string slice for a decimal digit value.
fn digit_str(d: u64) -> (r: &'static str)
    requires
        d < 10,
    ensures
        r@ == seq![spec_digit(d as nat)],
{
    proof {
        reveal_strlit("0");
        reveal_strlit("1");
        reveal_strlit("2");
        reveal_strlit("3");
        reveal_strlit("4");
        reveal_strlit("5");
        reveal_strlit("6");
        reveal_strlit("7");
        reveal_strlit("8");
        reveal_strlit("9");
    }
    let r = match d {
        0 => "0",
        1 => "1",
        2 => "2",
        3 => "3",
        4 => "4",
        5 => "5",
        6 => "6",
        7 => "7",
        8 => "8",
        _ => "9",
    };
    proof {
        assert(r@ =~= seq![spec_digit(d as nat)]);
    }
    r
}

/// Renders a number in decimal.
pub fn u64_to_dec_string(n: u64) -> (r: String)
    ensures
        r@ == spec_u64_dec(n as nat),
    decreases n,
{
    if n < 10 {
        String::from_str(digit_str(n))
    } else {
        let mut s = u64_to_dec_string(n / 10);
        s.append(digit_str(n % 10));
        proof {
            assert(s@ =~= spec_u64_dec(n as nat));
        }
        s
    }
}

/// The first index at or after `from` where `c` occurs in `s`, or -1 if
/// it does not occur there.
pub open spec fn spec_find(s: Seq<char>, c: char, from: int) -> int
    decreases s.len() - from,
{
    if from >= s.len() {
        -1
    } else if s[from] == c {
        from
    } else {
        spec_find(s, c, from + 1)
    }
}

/// Finds the first occurrence of `c` in `s` at or after index `from`
/// (indices count characters).
fn find_char(s: &str, c: char, from: usize) -> (r: Option<usize>)
    requires
        from <= s@.len(),
    ensures
        match r {
            Some(i) => from <= i < s@.len() && s@[i as int] == c && spec_find(s@, c, from as int)
                == i as int,
            None => spec_find(s@, c, from as int) == -1,
        },
{
    let n = s.unicode_len();
    let mut i = from;
    while i < n
        invariant
            from <= i <= n,
            n == s@.len(),
            spec_find(s@, c, from as int) == spec_find(s@, c, i as int),
        decreases n - i,
    {
        if s.get_char(i) == c {
            return Some(i);
        }
        i = i + 1;
    }
    None
}

/// Whether `c` is a decimal digit.
pub open spec fn spec_is_digit(c: char) -> bool {
    '0' as int <= c as int && c as int <= '9' as int
}

/// The numeric value of a decimal digit character.
pub open spec fn spec_digit_val(c: char) -> nat
    recommends
        spec_is_digit(c),
{
    (c as int - '0' as int) as nat
}

/// The value of a sequence of decimal digit characters, most significant
/// first. An empty sequence has value zero.
pub open spec fn spec_digits_val(s: Seq<char>) -> nat
    decreases s.len(),
{
    if s.len() == 0 {
        0
    } else {
        spec_digits_val(s.drop_last()) * 10 + spec_digit_val(s.last())
    }
}

/// Whether every character of `s` is a decimal digit.
pub open spec fn spec_all_digits(s: Seq<char>) -> bool {
    forall|i: int| 0 <= i < s.len() ==> spec_is_digit(s[i])
}

/// The digits of a number as written, after an optional leading plus
/// sign.
pub open spec fn spec_u64_body(s: Seq<char>) -> Seq<char> {
    if s.len() > 0 && s[0] == '+' {
        s.drop_first()
    } else {
        s
    }
}

/// Whether `s` is a decimal `u64`: an optional leading plus sign, then
/// at least one digit and nothing else, with a value that fits.
pub open spec fn spec_valid_u64(s: Seq<char>) -> bool {
    let body = spec_u64_body(s);
    body.len() > 0 && spec_all_digits(body) && spec_digits_val(body) <= u64::MAX
}

/// The value written in `s`, when `spec_valid_u64(s)` holds.
pub open spec fn spec_u64_val(s: Seq<char>) -> nat {
    spec_digits_val(spec_u64_body(s))
}

/// Extending a digit sequence can only increase its value.
proof fn lemma_digits_val_prefix(s: Seq<char>, k: int)
    requires
        0 <= k <= s.len(),
    ensures
        spec_digits_val(s) >= spec_digits_val(s.take(k)),
    decreases s.len() - k,
{
    if k == s.len() {
        assert(s.take(k) =~= s);
    } else {
        lemma_digits_val_prefix(s.drop_last(), k);
        assert(s.drop_last().take(k) =~= s.take(k));
    }
}

/// Parses a decimal `u64`: an optional leading plus sign, then at least
/// one digit and nothing else. Returns `None` on any other text, and on
/// a value too large for a `u64`.
pub fn parse_u64(s: &str) -> (r: Option<u64>)
    ensures
        match r {
            Some(v) => spec_valid_u64(s@) && v as nat == spec_u64_val(s@),
            None => !spec_valid_u64(s@),
        },
{
    let n = s.unicode_len();
    let start: usize = if n > 0 && s.get_char(0) == '+' {
        1
    } else {
        0
    };
    let ghost body = spec_u64_body(s@);
    proof {
        assert(body =~= s@.subrange(start as int, n as int));
    }
    if start >= n {
        return None;
    }
    let mut acc: u64 = 0;
    let mut i = start;
    while i < n
        invariant
            start <= i <= n,
            n == s@.len(),
            start == 1 ==> n > 0 && s@[0] == '+',
            start == 0 ==> !(n > 0 && s@[0] == '+'),
            body == spec_u64_body(s@),
            body =~= s@.subrange(start as int, n as int),
            spec_all_digits(s@.subrange(start as int, i as int)),
            acc as nat == spec_digits_val(s@.subrange(start as int, i as int)),
        decreases n - i,
    {
        let c = s.get_char(i);
        let u = c as u32;
        if u < 48 || u > 57 {
            assert(!spec_is_digit(s@[i as int]));
            assert(body[i - start] == s@[i as int]);
            return None;
        }
        let d = (u - 48) as u64;
        let ghost prefix = s@.subrange(start as int, i as int);
        let ghost prefix1 = s@.subrange(start as int, i + 1);
        proof {
            assert(prefix1.drop_last() =~= prefix);
            assert(prefix1.last() == s@[i as int]);
            assert(spec_digits_val(prefix1) == acc as nat * 10 + d as nat);
        }
        let next = match acc.checked_mul(10) {
            Some(x) => x.checked_add(d),
            None => None,
        };
        match next {
            Some(y) => {
                acc = y;
            },
            None => {
                proof {
                    assert(spec_digits_val(prefix1) > u64::MAX);
                    lemma_digits_val_prefix(body, i + 1 - start);
                    assert(body.take(i + 1 - start) =~= prefix1);
                }
                return None;
            },
        }
        i = i + 1;
        proof {
            assert(s@.subrange(start as int, i as int) == prefix1);
        }
    }
    proof {
        assert(s@.subrange(start as int, n as int) == body);
    }
    Some(acc)
}

/// The index of the first comma of a line, or -1.
pub open spec fn spec_comma1(s: Seq<char>) -> int {
    spec_find(s, ',', 0)
}

/// The index of the second comma of a line, or -1.
pub open spec fn spec_comma2(s: Seq<char>) -> int {
    spec_find(s, ',', spec_comma1(s) + 1)
}

/// Whether the line has at least three comma-separated parts.
pub open spec fn spec_has_three_parts(s: Seq<char>) -> bool {
    spec_comma1(s) >= 0 && spec_comma2(s) >= 0
}

/// The first comma-separated part of the line.
pub open spec fn spec_part1(s: Seq<char>) -> Seq<char>
    recommends
        spec_has_three_parts(s),
{
    s.subrange(0, spec_comma1(s))
}

/// The second comma-separated part of the line.
pub open spec fn spec_part2(s: Seq<char>) -> Seq<char>
    recommends
        spec_has_three_parts(s),
{
    s.subrange(spec_comma1(s) + 1, spec_comma2(s))
}

/// The third comma-separated part of the line; anything after a third
/// comma is ignored.
pub open spec fn spec_part3(s: Seq<char>) -> Seq<char>
    recommends
        spec_has_three_parts(s),
{
    let c3 = spec_find(s, ',', spec_comma2(s) + 1);
    s.subrange(spec_comma2(s) + 1, if c3 == -1 { s.len() as int } else { c3 })
}

/// What parsing a line yields: the first two parts name the parties, the
/// third is the amount in decimal. Fewer than three parts is an error,
/// as is an amount that is not a decimal `u64`; parts past the third are
/// ignored.
pub open spec fn spec_parse_tx(s: Seq<char>) -> Result<TxView, ParseTxError> {
    if !spec_has_three_parts(s) {
        Err(ParseTxError::NotEnoughParts)
    } else if !spec_valid_u64(spec_part3(s)) {
        Err(ParseTxError::InvalidAmount)
    } else {
        Ok(
            TxView {
                from: spec_part1(s),
                to: spec_part2(s),
                amount: spec_u64_val(spec_part3(s)),
            },
        )
    }
}

/// Parses a line of the form `from,to,amount` into a transaction.
pub fn parse_tx(line: &str) -> (r: Result<Tx, ParseTxError>)
    ensures
        match r {
            Ok(tx) => spec_parse_tx(line@) == Ok::<TxView, ParseTxError>(tx@),
            Err(e) => spec_parse_tx(line@) == Err::<TxView, ParseTxError>(e),
        },
{
    let n = s_len(line);
    let c1 = match find_char(line, ',', 0) {
        None => {
            return Err(ParseTxError::NotEnoughParts);
        },
        Some(i) => i,
    };
    let c2 = match find_char(line, ',', c1 + 1) {
        None => {
            return Err(ParseTxError::NotEnoughParts);
        },
        Some(i) => i,
    };
    let end3 = match find_char(line, ',', c2 + 1) {
        None => n,
        Some(i) => i,
    };
    let from = String::from_str(line.substring_char(0, c1));
    let to = String::from_str(line.substring_char(c1 + 1, c2));
    let amount_part = line.substring_char(c2 + 1, end3);
    match parse_u64(amount_part) {
        None => Err(ParseTxError::InvalidAmount),
        Some(amount) => Ok(Tx { from, to, amount }),
    }
}

/// The length of a string slice in characters.
fn s_len(s: &str) -> (n: usize)
    ensures
        n == s@.len(),
{
    s.unicode_len()
}

/// Whether `c` is whitespace: a space, tab, line break, carriage
/// return, vertical tab or form feed.
pub open spec fn spec_is_space(c: char) -> bool {
    c == ' ' || c == '\t' || c == '\n' || c == '\r' || c == '\u{b}' || c == '\u{c}'
}

/// Whether `c` is whitespace.
pub fn is_space(c: char) -> (r: bool)
    ensures
        r == spec_is_space(c),
{
    c == ' ' || c == '\t' || c == '\n' || c == '\r' || c == '\u{b}' || c == '\u{c}'
}

/// `s` without its leading whitespace.
pub open spec fn spec_trim_start(s: Seq<char>) -> Seq<char>
    decreases s.len(),
{
    if s.len() > 0 && spec_is_space(s[0]) {
        spec_trim_start(s.drop_first())
    } else {
        s
    }
}

/// `s` without its trailing whitespace.
pub open spec fn spec_trim_end(s: Seq<char>) -> Seq<char>
    decreases s.len(),
{
    if s.len() > 0 && spec_is_space(s.last()) {
        spec_trim_end(s.drop_last())
    } else {
        s
    }
}

/// `s` without its leading and trailing whitespace.
pub open spec fn spec_trim(s: Seq<char>) -> Seq<char> {
    spec_trim_end(spec_trim_start(s))
}

/// Removes leading and trailing whitespace.
pub fn trim_str<'a>(s: &'a str) -> (r: &'a str)
    ensures
        r@ == spec_trim(s@),
{
    let n = s.unicode_len();
    proof {
        assert(s@.subrange(0, n as int) =~= s@);
    }
    let mut start: usize = 0;
    while start < n && is_space(s.get_char(start))
        invariant
            0 <= start <= n,
            n == s@.len(),
            spec_trim_start(s@) == spec_trim_start(s@.subrange(start as int, n as int)),
        decreases n - start,
    {
        proof {
            assert(s@.subrange(start as int, n as int).drop_first() =~= s@.subrange(
                start + 1,
                n as int,
            ));
        }
        start = start + 1;
    }
    proof {
        assert(spec_trim_start(s@) == s@.subrange(start as int, n as int));
    }
    let mut end: usize = n;
    while end > start && is_space(s.get_char(end - 1))
        invariant
            start <= end <= n,
            n == s@.len(),
            spec_trim_start(s@) == s@.subrange(start as int, n as int),
            spec_trim_end(s@.subrange(start as int, n as int)) == spec_trim_end(
                s@.subrange(start as int, end as int),
            ),
        decreases end,
    {
        proof {
            assert(s@.subrange(start as int, end as int).drop_last() =~= s@.subrange(
                start as int,
                end - 1,
            ));
        }
        end = end - 1;
    }
    proof {
        assert(spec_trim(s@) == s@.subrange(start as int, end as int));
    }
    s.substring_char(start, end)
}

/// What parsing a whole text yields: the text is split at line breaks,
/// each piece is trimmed of whitespace, empty pieces are skipped, and
/// the remaining pieces are parsed in order. The first piece that fails
/// to parse decides the error; otherwise all parsed transactions are
/// returned in text order.
pub open spec fn spec_parse_txs_from(s: Seq<char>) -> Result<Seq<TxView>, ParseTxError>
    decreases s.len(),
{
    let i = spec_find(s, '\n', 0);
    if !(0 <= i < s.len()) {
        let t = spec_trim(s);
        if t.len() == 0 {
            Ok(Seq::empty())
        } else {
            match spec_parse_tx(t) {
                Err(e) => Err(e),
                Ok(tv) => Ok(seq![tv]),
            }
        }
    } else {
        let t = spec_trim(s.subrange(0, i));
        let rest = spec_parse_txs_from(s.subrange(i + 1, s.len() as int));
        if t.len() == 0 {
            rest
        } else {
            match spec_parse_tx(t) {
                Err(e) => Err(e),
                Ok(tv) => match rest {
                    Err(e) => Err(e),
                    Ok(rs) => Ok(seq![tv] + rs),
                },
            }
        }
    }
}

/// The field values of a sequence of transactions, in order.
pub open spec fn spec_views(txs: Seq<Tx>) -> Seq<TxView> {
    Seq::new(txs.len(), |i: int| txs[i]@)
}

/// Searching from `q` in `s` finds the same occurrence as searching
/// from `q - p` in the suffix of `s` that starts at `p`.
proof fn lemma_find_shift(s: Seq<char>, c: char, p: int, q: int)
    requires
        0 <= p <= q <= s.len(),
    ensures
        spec_find(s, c, q) == -1 ==> spec_find(s.subrange(p, s.len() as int), c, q - p) == -1,
        spec_find(s, c, q) >= 0 ==> spec_find(s.subrange(p, s.len() as int), c, q - p)
            == spec_find(s, c, q) - p,
    decreases s.len() - q,
{
    if q < s.len() && s[q] != c {
        lemma_find_shift(s, c, p, q + 1);
    }
}

/// Parses a text with one transaction per line. Lines are trimmed of
/// whitespace; empty lines are skipped. The first line that fails to
/// parse decides the error.
pub fn parse_txs(input: &str) -> (r: Result<Vec<Tx>, ParseTxError>)
    ensures
        match r {
            Ok(txs) => spec_parse_txs_from(input@) == Ok::<Seq<TxView>, ParseTxError>(
                spec_views(txs@),
            ),
            Err(e) => spec_parse_txs_from(input@) == Err::<Seq<TxView>, ParseTxError>(e),
        },
{
    let n = s_len(input);
    let mut txs: Vec<Tx> = Vec::new();
    proof {
        assert(input@.subrange(0, n as int) =~= input@);
        match spec_parse_txs_from(input@) {
            Ok(rs) => {
                assert(spec_views(txs@) + rs =~= rs);
            },
            Err(_) => {},
        }
    }
    let mut pos: usize = 0;
    loop
        invariant
            pos <= n,
            n == input@.len(),
            (match spec_parse_txs_from(input@.subrange(pos as int, n as int)) {
                Ok(rs) => spec_parse_txs_from(input@) == Ok::<Seq<TxView>, ParseTxError>(
                    spec_views(txs@) + rs,
                ),
                Err(e) => spec_parse_txs_from(input@) == Err::<Seq<TxView>, ParseTxError>(e),
            }),
        decreases n - pos,
    {
        let ghost rem = input@.subrange(pos as int, n as int);
        let j_opt = find_char(input, '\n', pos);
        let end = match j_opt {
            Some(j) => j,
            None => n,
        };
        proof {
            lemma_find_shift(input@, '\n', pos as int, pos as int);
            assert(match j_opt {
                Some(j) => spec_find(rem, '\n', 0) == j - pos,
                None => spec_find(rem, '\n', 0) == -1,
            });
            assert(rem.subrange(0, end - pos) =~= input@.subrange(pos as int, end as int));
        }
        let seg = input.substring_char(pos, end);
        let t = trim_str(seg);
        if s_len(t) > 0 {
            match parse_tx(t) {
                Err(e) => {
                    return Err(e);
                },
                Ok(tx) => {
                    let ghost old_txs = txs@;
                    txs.push(tx);
                    proof {
                        assert(spec_views(txs@) =~= spec_views(old_txs).push(tx@));
                        assert forall|rs: Seq<TxView>|
                            spec_views(old_txs) + (seq![tx@] + rs) =~= spec_views(txs@) + rs by {
                        }
                    }
                },
            }
        }
        match j_opt {
            Some(_j) => {
                proof {
                    assert(rem.subrange(end - pos + 1, rem.len() as int) =~= input@.subrange(
                        end + 1,
                        n as int,
                    ));
                }
                pos = end + 1;
            },
            None => {
                proof {
                    assert(spec_views(txs@) + Seq::<TxView>::empty() =~= spec_views(txs@));
                }
                return Ok(txs);
            },
        }
    }
}

impl core::str::FromStr for Tx {
    type Err = ParseTxError;

    fn from_str(s: &str) -> Result<Tx, ParseTxError> {
        parse_tx(s)
    }
}

/// The capability of carrying an amount.
pub trait HasAmount {
    spec fn spec_amount(&self) -> u64;

    fn amount(&self) -> (r: u64)
        ensures
            r == self.spec_amount(),
    ;
}

impl HasAmount for Tx {
    open spec fn spec_amount(&self) -> u64 {
        self.amount
    }

    fn amount(&self) -> (r: u64) {
        self.amount
    }
}

/// The sum of the amounts of a sequence of items.
pub open spec fn spec_total<T: HasAmount>(s: Seq<T>) -> int
    decreases s.len(),
{
    if s.len() == 0 {
        0
    } else {
        spec_total(s.drop_last()) + s.last().spec_amount()
    }
}

/// A sum of amounts is never negative.
proof fn lemma_total_nonneg<T: HasAmount>(s: Seq<T>)
    ensures
        spec_total(s) >= 0,
    decreases s.len(),
{
    if s.len() > 0 {
        lemma_total_nonneg(s.drop_last());
    }
}

/// A sum over more items is never smaller.
proof fn lemma_total_prefix<T: HasAmount>(s: Seq<T>, k: int)
    requires
        0 <= k <= s.len(),
    ensures
        spec_total(s) >= spec_total(s.take(k)) >= 0,
    decreases s.len() - k,
{
    lemma_total_nonneg(s.take(k));
    if k == s.len() {
        assert(s.take(k) =~= s);
    } else {
        lemma_total_prefix(s.drop_last(), k);
        assert(s.drop_last().take(k) =~= s.take(k));
    }
}

/// Sums the amounts of the items.
pub fn total_amount<T: HasAmount>(items: &[T]) -> (r: u64)
    requires
        spec_total(items@) <= u64::MAX,
    ensures
        r == spec_total(items@),
{
    let mut sum: u64 = 0;
    let mut i: usize = 0;
    while i < items.len()
        invariant
            i <= items@.len(),
            spec_total(items@) <= u64::MAX,
            sum == spec_total(items@.take(i as int)),
        decreases items@.len() - i,
    {
        let a = items[i].amount();
        proof {
            assert(items@.take(i + 1).drop_last() =~= items@.take(i as int));
            assert(items@.take(i + 1).last() == items@[i as int]);
            lemma_total_prefix(items@, i + 1);
            lemma_total_prefix(items@.take(i + 1), i as int);
            assert(items@.take(i + 1).take(i as int) =~= items@.take(i as int));
        }
        sum = sum + a;
        i = i + 1;
    }
    proof {
        assert(items@.take(i as int) =~= items@);
    }
    sum
}

/// A list of items that carry amounts.
pub struct AmountList<T> {
    pub items: Vec<T>,
}

impl<T> AmountList<T> where T: HasAmount {
    /// Sums the amounts of the items held.
    pub fn total(&self) -> (r: u64)
        requires
            spec_total(self.items@) <= u64::MAX,
        ensures
            r == spec_total(self.items@),
    {
        total_amount(self.items.as_slice())
    }
}

impl<T> AmountList<T> {
    /// Accepts an item and drops it, leaving the list unchanged.
    pub fn push(&mut self, item: T)
        ensures
            final(self).items@ == old(self).items@,
    {
    }

    /// The number of items held.
    pub fn len(&self) -> (r: usize)
        ensures
            r == self.items@.len(),
    {
        self.items.len()
    }

    /// Does nothing.
    pub fn print_all(&self) where T: core::fmt::Debug {
    }
}

/// The items with an amount of at least `min`, in order.
pub open spec fn spec_filter_large(s: Seq<Tx>, min: u64) -> Seq<Tx>
    decreases s.len(),
{
    if s.len() == 0 {
        Seq::empty()
    } else if s.last().amount >= min {
        spec_filter_large(s.drop_last(), min).push(s.last())
    } else {
        spec_filter_large(s.drop_last(), min)
    }
}

/// Keeps the transactions whose amount is at least `min`, in order.
pub fn filter_large_txs<'a>(txs: &'a [Tx], min: u64) -> (r: Vec<&'a Tx>)
    ensures
        r@.map_values(|t: &Tx| *t) == spec_filter_large(txs@, min),
{
    let mut r: Vec<&'a Tx> = Vec::new();
    let mut i: usize = 0;
    while i < txs.len()
        invariant
            i <= txs@.len(),
            r@.map_values(|t: &Tx| *t) == spec_filter_large(txs@.take(i as int), min),
        decreases txs@.len() - i,
    {
        let tx: &'a Tx = &txs[i];
        proof {
            assert(txs@.take(i + 1).drop_last() =~= txs@.take(i as int));
            assert(txs@.take(i + 1).last() == txs@[i as int]);
        }
        if tx.amount >= min {
            let ghost prev = r@;
            r.push(tx);
            proof {
                assert(r@.map_values(|t: &Tx| *t) =~= prev.map_values(|t: &Tx| *t).push(*tx));
            }
        }
        i = i + 1;
    }
    proof {
        assert(txs@.take(i as int) =~= txs@);
    }
    r
}

} // verus!
