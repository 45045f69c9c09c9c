//! Transactions: one line of a bank statement each.

use crate::date::{
    chrono_parse_date, date_exists, iso_date, iso_shape, iso_text, lemma_iso_reads_back,
    statement_date_format, ymd_before, Date,
};
use crate::decimal::{amount_shape, decimal_cents, first_index_of, read_cents};
use crate::dollar::{display_text, fits, lemma_display_reads_back, lenient_cents, Dollar};
use crate::error::LedgerError;
use crate::text::{all_digits, chars_of, is_digit, is_digit_char, push_chars, string_of};
use core::cmp::Ordering;
use vstd::prelude::*;
use vstd::string::StringExecFns;

verus! {

/// A transaction as the contracts see it.
pub struct TransactionView {
    /// Year, month and day.
    pub date: (int, int, int),
    pub desc: Seq<char>,
    /// The amount in cents.
    pub cents: int,
}

/// One line of a bank statement: a day, a description and an amount.
///
/// Two transactions are the same (`==`) where day and description are the
/// same, whatever the amounts. They are ordered by day, then description,
/// then amount.
#[derive(Debug, Eq, Ord)]
pub struct Transaction {
    pub date: Date,
    pub desc: String,
    pub charge: Dollar,
}

impl View for Transaction {
    type V = TransactionView;

    open spec fn view(&self) -> TransactionView {
        TransactionView { date: self.date@, desc: self.desc@, cents: self.charge.cents as int }
    }
}

impl DeepView for Transaction {
    type V = TransactionView;

    open spec fn deep_view(&self) -> TransactionView {
        self@
    }
}

/// Whether two transactions are the same line of a statement: the same
/// day and the same description.
pub open spec fn same_identity(a: TransactionView, b: TransactionView) -> bool {
    a.date == b.date && a.desc == b.desc
}

/// The lexicographic order on texts, character by character.
pub open spec fn text_before(a: Seq<char>, b: Seq<char>) -> bool
    decreases a.len(),
{
    if b.len() == 0 {
        false
    } else if a.len() == 0 {
        true
    } else if a[0] != b[0] {
        a[0] < b[0]
    } else {
        text_before(a.drop_first(), b.drop_first())
    }
}

/// The order of transactions: by day, then by description, then by
/// amount.
pub open spec fn sorts_before(a: TransactionView, b: TransactionView) -> bool {
    ymd_before(a.date, b.date) || (a.date == b.date && (text_before(a.desc, b.desc) || (a.desc
        == b.desc && a.cents < b.cents)))
}

/// Past a common prefix the order of two texts is the order of what
/// follows the prefix.
proof fn lemma_text_before_skip(a: Seq<char>, b: Seq<char>, i: int)
    requires
        0 <= i <= a.len(),
        i <= b.len(),
        a.take(i) == b.take(i),
    ensures
        text_before(a, b) == text_before(a.skip(i), b.skip(i)),
    decreases i,
{
    if i == 0 {
        assert(a.skip(0) =~= a);
        assert(b.skip(0) =~= b);
    } else {
        assert(a[0] == a.take(i)[0]);
        assert(b[0] == b.take(i)[0]);
        let a1 = a.drop_first();
        let b1 = b.drop_first();
        let a2 = a1.take(i - 1);
        let b2 = b1.take(i - 1);
        assert(a2 =~= b2) by {
            assert forall|k: int| 0 <= k < i - 1 implies #[trigger] a2[k] == b2[k] by {
                assert(a2[k] == a[k + 1] && a[k + 1] == a.take(i)[k + 1]);
                assert(b2[k] == b[k + 1] && b[k + 1] == b.take(i)[k + 1]);
            }
        }
        lemma_text_before_skip(a1, b1, i - 1);
        assert(a1.skip(i - 1) =~= a.skip(i));
        assert(b1.skip(i - 1) =~= b.skip(i));
    }
}

/// Whether text `a` comes before text `b`.
pub fn text_comes_before(a: &Vec<char>, b: &Vec<char>) -> (r: bool)
    ensures
        r == text_before(a@, b@),
{
    let mut i: usize = 0;
    while i < a.len() && i < b.len()
        invariant
            i <= a.len(),
            i <= b.len(),
            a@.take(i as int) == b@.take(i as int),
        decreases a.len() - i,
    {
        if a[i] != b[i] {
            proof {
                lemma_text_before_skip(a@, b@, i as int);
            }
            return a[i] < b[i];
        }
        proof {
            assert(a@.take(i + 1) =~= a@.take(i as int).push(a@[i as int]));
            assert(b@.take(i + 1) =~= b@.take(i as int).push(b@[i as int]));
        }
        i += 1;
    }
    proof {
        lemma_text_before_skip(a@, b@, i as int);
    }
    i < b.len()
}

/// No text comes before itself; of two different texts one comes before
/// the other; and the order is transitive.
pub proof fn lemma_text_order(a: Seq<char>, b: Seq<char>, c: Seq<char>)
    ensures
        !text_before(a, a),
        a != b ==> (text_before(a, b) || text_before(b, a)),
        !(text_before(a, b) && text_before(b, a)),
        text_before(a, b) && text_before(b, c) ==> text_before(a, c),
    decreases a.len(),
{
    if a.len() > 0 {
        lemma_text_order(a.drop_first(), a.drop_first(), a.drop_first());
    }
    if a.len() > 0 && b.len() > 0 {
        if a[0] == b[0] {
            if c.len() > 0 {
                lemma_text_order(a.drop_first(), b.drop_first(), c.drop_first());
            } else {
                lemma_text_order(a.drop_first(), b.drop_first(), b.drop_first());
            }
            if a.drop_first() == b.drop_first() {
                assert(a =~= seq![a[0]] + a.drop_first());
                assert(b =~= seq![b[0]] + b.drop_first());
            }
        }
    } else if a.len() == 0 && b.len() == 0 {
        assert(a =~= b);
    }
}

/// The order of transactions is a strict total order on what the
/// contracts see of them.
pub proof fn lemma_transaction_order(a: TransactionView, b: TransactionView, c: TransactionView)
    ensures
        !sorts_before(a, a),
        a != b ==> (sorts_before(a, b) || sorts_before(b, a)),
        !(sorts_before(a, b) && sorts_before(b, a)),
        sorts_before(a, b) && sorts_before(b, c) ==> sorts_before(a, c),
{
    lemma_text_order(a.desc, b.desc, c.desc);
    lemma_text_order(b.desc, a.desc, c.desc);
    lemma_text_order(b.desc, c.desc, a.desc);
}

impl Clone for Transaction {
    fn clone(&self) -> (r: Transaction)
        ensures
            r == *self,
    {
        Transaction { date: self.date, desc: self.desc.clone(), charge: self.charge }
    }
}

impl PartialEq for Transaction {
    fn eq(&self, other: &Transaction) -> (r: bool) {
        self.date.same_day(&other.date) && self.desc == other.desc
    }
}

impl vstd::std_specs::cmp::PartialEqSpecImpl for Transaction {
    open spec fn obeys_eq_spec() -> bool {
        true
    }

    open spec fn eq_spec(&self, other: &Transaction) -> bool {
        same_identity(self@, other@)
    }
}

impl PartialOrd for Transaction {
    fn partial_cmp(&self, other: &Transaction) -> (r: Option<Ordering>) {
        if self.comes_before(other) {
            Some(Ordering::Less)
        } else if other.comes_before(self) {
            Some(Ordering::Greater)
        } else {
            Some(Ordering::Equal)
        }
    }
}

impl vstd::std_specs::cmp::PartialOrdSpecImpl for Transaction {
    open spec fn obeys_partial_cmp_spec() -> bool {
        true
    }

    open spec fn partial_cmp_spec(&self, other: &Transaction) -> Option<Ordering> {
        if sorts_before(self@, other@) {
            Some(Ordering::Less)
        } else if sorts_before(other@, self@) {
            Some(Ordering::Greater)
        } else {
            Some(Ordering::Equal)
        }
    }
}

impl Transaction {
    /// The transaction of a day, a description and an amount.
    pub fn new(date: Date, desc: String, charge: Dollar) -> (t: Transaction)
        ensures
            t.date == date,
            t.desc == desc,
            t.charge == charge,
    {
        Transaction { date, desc, charge }
    }

    /// What makes the transaction the line of a statement that it is: its
    /// day and its description. Transactions are the same where these are
    /// equal, so this is the key to find a transaction by, in a hash map
    /// as well as by comparing.
    pub fn identity(&self) -> (key: (Date, String))
        ensures
            key.0 == self.date,
            key.1@ == self.desc@,
    {
        (self.date, self.desc.clone())
    }

    /// Whether both are the same line of a statement.
    pub fn same_as(&self, other: &Transaction) -> (r: bool)
        ensures
            r == same_identity(self@, other@),
    {
        self.date.same_day(&other.date) && self.desc == other.desc
    }

    /// Whether this transaction comes before the other in the order of
    /// transactions.
    pub fn comes_before(&self, other: &Transaction) -> (r: bool)
        ensures
            r == sorts_before(self@, other@),
    {
        if self.date.before(&other.date) {
            return true;
        }
        if !self.date.same_day(&other.date) {
            return false;
        }
        let a = chars_of(self.desc.as_str());
        let b = chars_of(other.desc.as_str());
        if text_comes_before(&a, &b) {
            return true;
        }
        self.desc == other.desc && self.charge.cents < other.charge.cents
    }
}

/// The three parts of a token.
pub struct TokenParts {
    pub date: Seq<char>,
    pub desc: Seq<char>,
    pub amount: Seq<char>,
}

/// The parts of a text that has the form of a token: a date of ten
/// characters, ` | `, a description of at least one character and without
/// `|`, ` | $`, and an amount.
pub open spec fn token_parts(s: Seq<char>) -> Option<TokenParts> {
    if s.len() < 13 {
        None
    } else {
        let rest = s.skip(13);
        let bar = first_index_of(rest, '|');
        if iso_shape(s.take(10)) && s[10] == ' ' && s[11] == '|' && s[12] == ' ' && 2 <= bar && bar
            + 2 < rest.len() && rest[bar - 1] == ' ' && rest[bar + 1] == ' ' && rest[bar + 2]
            == '$' && amount_shape(rest.skip(bar + 3)) {
            Some(
                TokenParts {
                    date: s.take(10),
                    desc: rest.take(bar - 1),
                    amount: rest.skip(bar + 3),
                },
            )
        } else {
            None
        }
    }
}

/// The transaction that a token stands for.
pub open spec fn token_value(s: Seq<char>) -> Result<TransactionView, LedgerError> {
    match token_parts(s) {
        None => Err(LedgerError::MalformedTransactionToken),
        Some(parts) => match (iso_date(parts.date), decimal_cents(parts.amount)) {
            (Some(ymd), Some(cents)) => if fits(cents) {
                Ok(TransactionView { date: ymd, desc: parts.desc, cents })
            } else {
                Err(LedgerError::ParseFailure)
            },
            _ => Err(LedgerError::ParseFailure),
        },
    }
}

/// The token of a transaction: date, description and amount as they are
/// shown, with ` | ` between them.
pub open spec fn token_text(t: TransactionView) -> Seq<char> {
    iso_text(t.date) + seq![' ', '|', ' '] + t.desc + seq![' ', '|', ' '] + display_text(t.cents)
}

/// Whether `v[from..to]` has the shape of an amount in a token.
fn has_amount_shape(v: &Vec<char>, from: usize, to: usize) -> (ok: bool)
    requires
        from <= to <= v.len(),
    ensures
        ok == amount_shape(v@.subrange(from as int, to as int)),
{
    let ghost a = v@.subrange(from as int, to as int);
    let start: usize = if from < to && v[from] == '-' {
        from + 1
    } else {
        from
    };
    let ghost body = v@.subrange(start as int, to as int);
    proof {
        if a.len() > 0 {
            assert(a[0] == v@[from as int]);
        }
        if start > from {
            assert(a.skip(1) =~= body);
        } else {
            assert(a =~= body);
        }
    }
    let mut i: usize = start;
    while i < to && is_digit_char(v[i])
        invariant
            start <= i <= to <= v.len(),
            body == v@.subrange(start as int, to as int),
            all_digits(body.subrange(0, i - start)),
        decreases to - i,
    {
        proof {
            let p = body.subrange(0, i - start);
            let q = body.subrange(0, i + 1 - start);
            assert forall|k: int| 0 <= k < q.len() implies is_digit(#[trigger] q[k]) by {
                if k < p.len() {
                    assert(q[k] == p[k]);
                } else {
                    assert(q[k] == v@[i as int]);
                }
            }
        }
        i += 1;
    }
    let ghost dot: int = i - start;
    proof {
        crate::decimal::lemma_first_index_of_bounds(body, '.');
        let fi = first_index_of(body, '.');
        if fi < dot {
            assert(body.subrange(0, dot)[fi] == '.');
        }
        if i < to {
            assert(body[dot] == v@[i as int]);
            if v@[i as int] == '.' {
                crate::decimal::lemma_first_index_of(body, '.', dot);
            } else {
                assert(fi > dot);
                assert(body.subrange(0, fi)[dot] == body[dot]);
            }
        } else {
            assert(fi == body.len());
        }
    }
    if i == start || i >= to || v[i] != '.' || i + 1 >= to {
        return false;
    }
    let frac_start: usize = i + 1;
    let ghost frac = body.subrange(dot + 1, body.len() as int);
    let mut j: usize = frac_start;
    while j < to
        invariant
            frac_start <= j <= to <= v.len(),
            frac_start == start + dot + 1,
            0 <= dot,
            dot + 1 < body.len(),
            first_index_of(body, '.') == dot,
            a == v@.subrange(from as int, to as int),
            body == (if a.len() > 0 && a[0] == '-' {
                a.skip(1)
            } else {
                a
            }),
            body == v@.subrange(start as int, to as int),
            frac == body.subrange(dot + 1, body.len() as int),
            all_digits(frac.subrange(0, j - frac_start)),
        decreases to - j,
    {
        proof {
            assert(frac[j - frac_start] == v@[j as int]);
        }
        if !is_digit_char(v[j]) {
            return false;
        }
        proof {
            let p = frac.subrange(0, j - frac_start);
            let q = frac.subrange(0, j + 1 - frac_start);
            assert forall|k: int| 0 <= k < q.len() implies is_digit(#[trigger] q[k]) by {
                if k < p.len() {
                    assert(q[k] == p[k]);
                }
            }
        }
        j += 1;
    }
    proof {
        assert(frac.subrange(0, j - frac_start) =~= frac);
    }
    true
}

impl Transaction {
    /// The token that stands for this transaction where it is stored,
    /// such as `2024-03-15 | Coffee Shop | $-4.50`.
    pub fn to_token(&self) -> (s: String)
        ensures
            s@ == token_text(self@),
    {
        let mut s = String::new();
        self.date.push_to(&mut s);
        s.push(' ');
        s.push('|');
        s.push(' ');
        let desc = chars_of(self.desc.as_str());
        push_chars(&mut s, &desc);
        s.push(' ');
        s.push('|');
        s.push(' ');
        let amount = self.charge.to_string();
        let amount_chars = chars_of(amount.as_str());
        push_chars(&mut s, &amount_chars);
        proof {
            assert(s@ =~= token_text(self@));
        }
        s
    }

    /// Reads a transaction from its token. A text that does not have the
    /// form of a token is malformed; a token whose day the calendar does
    /// not have, or whose amount is more than an amount can hold, fails to
    /// parse.
    pub fn from_token(token: &str) -> (r: Result<Transaction, LedgerError>)
        ensures
            match token_value(token@) {
                Ok(t) => r matches Ok(tx) && tx@ == t,
                Err(e) => r matches Err(err) && err == e,
            },
    {
        let v = chars_of(token);
        let n: usize = v.len();
        if n < 13 {
            return Err(LedgerError::MalformedTransactionToken);
        }
        let ghost s = v@;
        let ghost rest = s.skip(13);
        proof {
            assert(s.take(10) =~= v@.subrange(0, 10));
        }
        if !Date::has_iso_shape(&v, 0) || v[10] != ' ' || v[11] != '|' || v[12] != ' ' {
            return Err(LedgerError::MalformedTransactionToken);
        }
        let mut j: usize = 13;
        while j < n && v[j] != '|'
            invariant
                13 <= j <= n,
                n == v.len(),
                forall|k: int| 13 <= k < j ==> v@[k] != '|',
            decreases n - j,
        {
            j += 1;
        }
        let ghost bar: int = j - 13;
        proof {
            assert forall|k: int| 0 <= k < bar implies rest[k] != '|' by {
                assert(rest[k] == v@[k + 13]);
            }
            if j < n {
                assert(rest[bar] == v@[j as int]);
            }
            crate::decimal::lemma_first_index_of(rest, '|', bar);
        }
        if j < 15 || n - j <= 2 {
            return Err(LedgerError::MalformedTransactionToken);
        }
        proof {
            assert(rest[bar - 1] == v@[j - 1]);
            assert(rest[bar + 1] == v@[j + 1]);
            assert(rest[bar + 2] == v@[j + 2]);
            assert(rest.skip(bar + 3) =~= v@.subrange(j + 3, n as int));
            assert(rest.take(bar - 1) =~= v@.subrange(13, j - 1));
        }
        if v[j - 1] != ' ' || v[j + 1] != ' ' || v[j + 2] != '$' || !has_amount_shape(
            &v,
            j + 3,
            n,
        ) {
            return Err(LedgerError::MalformedTransactionToken);
        }
        let date = match Date::read_iso(&v, 0) {
            Some(d) => d,
            None => {
                return Err(LedgerError::ParseFailure);
            },
        };
        let cents: i64 = match read_cents(&v, j + 3, n) {
            Some(c) => c,
            None => {
                return Err(LedgerError::ParseFailure);
            },
        };
        let desc = string_of(&v, 13, j - 1);
        Ok(Transaction { date, desc, charge: Dollar { cents } })
    }
}

/// The transaction that one row of a bank's statement stands for: its
/// date in the form month/day/year as `chrono` reads it, its description,
/// and its amount as hand-typed text, which counts as zero where it holds
/// no amount.
pub open spec fn record_value(date: Seq<char>, desc: Seq<char>, amount: Seq<char>) -> Result<
    TransactionView,
    LedgerError,
> {
    match chrono_parse_date(date, statement_date_format()) {
        Some(ymd) => if date_exists(ymd.0, ymd.1, ymd.2) {
            Ok(TransactionView { date: ymd, desc, cents: lenient_cents(amount) })
        } else {
            Err(LedgerError::ParseFailure)
        },
        None => Err(LedgerError::ParseFailure),
    }
}

impl Transaction {
    /// The transaction of a date that was read, a description and an
    /// amount as hand-typed text. Without a date there is none.
    pub fn with_date(date: Option<Date>, desc: &str, amount: &str) -> (r: Result<
        Transaction,
        LedgerError,
    >)
        ensures
            match date {
                Some(d) => r matches Ok(t) && t.date == d && t.desc@ == desc@ && t.charge.cents
                    == lenient_cents(amount@),
                None => r matches Err(e) && e == LedgerError::ParseFailure,
            },
    {
        match date {
            Some(d) => Ok(
                Transaction { date: d, desc: String::from_str(desc), charge: Dollar::from(amount) },
            ),
            None => Err(LedgerError::ParseFailure),
        }
    }

    /// Reads one row of a bank's statement: a date in the form
    /// month/day/year, a description and an amount.
    pub fn from_record(date: &str, desc: &str, amount: &str) -> (r: Result<
        Transaction,
        LedgerError,
    >)
        ensures
            match record_value(date@, desc@, amount@) {
                Ok(t) => r matches Ok(tx) && tx@ == t,
                Err(e) => r matches Err(err) && err == e,
            },
    {
        Transaction::with_date(Date::read_statement_date(date), desc, amount)
    }
}

/// Reads the rows of a bank's statement, each a date in the form
/// month/day/year, a description and an amount. One row whose date cannot
/// be read fails the whole.
pub fn parse_transactions(rows: &Vec<(String, String, String)>) -> (r: Result<
    Vec<Transaction>,
    LedgerError,
>)
    ensures
        match r {
            Ok(list) => list.len() == rows.len() && forall|k: int|
                0 <= k < rows.len() ==> record_value(
                    (#[trigger] rows@[k]).0@,
                    rows@[k].1@,
                    rows@[k].2@,
                ) == Ok::<TransactionView, LedgerError>(list@[k]@),
            Err(e) => e == LedgerError::ParseFailure && exists|k: int|
                0 <= k < rows.len() && record_value(
                    (#[trigger] rows@[k]).0@,
                    rows@[k].1@,
                    rows@[k].2@,
                ) is Err,
        },
{
    let mut list: Vec<Transaction> = Vec::new();
    let mut i: usize = 0;
    while i < rows.len()
        invariant
            i <= rows.len(),
            list.len() == i,
            forall|k: int|
                0 <= k < i ==> record_value((#[trigger] rows@[k]).0@, rows@[k].1@, rows@[k].2@)
                    == Ok::<TransactionView, LedgerError>(list@[k]@),
        decreases rows.len() - i,
    {
        let row = &rows[i];
        match Transaction::from_record(row.0.as_str(), row.1.as_str(), row.2.as_str()) {
            Ok(t) => {
                list.push(t);
            },
            Err(e) => {
                proof {
                    assert(record_value(rows@[i as int].0@, rows@[i as int].1@, rows@[i as int].2@)
                        is Err);
                }
                return Err(e);
            },
        }
        i += 1;
    }
    Ok(list)
}

/// A transaction is read back from its token: the same day, the same
/// description and the same amount. This holds of the years 0 to 9999 and
/// of descriptions that have at least one character and no `|`.
pub proof fn law_token_round_trip(t: TransactionView)
    requires
        date_exists(t.date.0, t.date.1, t.date.2),
        0 <= t.date.0 <= 9999,
        t.desc.len() > 0,
        !t.desc.contains('|'),
        fits(t.cents),
    ensures
        token_value(token_text(t)) == Ok::<TransactionView, LedgerError>(t),
{
    let date = iso_text(t.date);
    let shown = display_text(t.cents);
    let bars = seq![' ', '|', ' '];
    let s = token_text(t);
    lemma_iso_reads_back(t.date);
    lemma_display_reads_back(t.cents);
    assert(s.len() == 10 + 3 + t.desc.len() + 3 + shown.len());
    assert(s.take(10) =~= date);
    assert(s[10] == ' ' && s[11] == '|' && s[12] == ' ');
    let rest = s.skip(13);
    assert(rest =~= t.desc + bars + shown);
    let bar: int = t.desc.len() as int + 1;
    assert forall|k: int| 0 <= k < bar implies rest[k] != '|' by {
        if k < t.desc.len() {
            assert(rest[k] == t.desc[k]);
            assert(t.desc.contains(t.desc[k]));
        }
    }
    assert(rest[bar] == '|');
    crate::decimal::lemma_first_index_of(rest, '|', bar);
    assert(rest[bar - 1] == ' ');
    assert(rest[bar + 1] == ' ');
    assert(rest[bar + 2] == shown[0]);
    assert(rest.skip(bar + 3) =~= shown.skip(1));
    assert(rest.take(bar - 1) =~= t.desc);
}

} // verus!
