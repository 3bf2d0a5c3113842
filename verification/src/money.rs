//! Exact money amounts: an optional currency symbol and a whole number of cents.

use vstd::prelude::*;

verus! {

/// An amount of money, held as a whole number of cents under an optional
/// currency symbol. Amounts under different symbols cannot be combined.
#[derive(Clone, Copy, Debug, PartialEq, Eq)]
pub struct Money {
    pub symbol: Option<char>,
    pub cents: i64,
}

/// Why a textual amount gave no `Money`.
#[derive(Clone, Copy, Debug, PartialEq, Eq)]
pub enum ParseMoneyError {
    /// The text is longer, or its fraction more precise, than the parser takes.
    Unsupported,
    /// The text is not an amount.
    Malformed,
    /// The amount does not fit in a signed 64-bit number of cents.
    OutOfRange,
}

/// The longest run of fraction digits that a literal may end with.
pub const MAX_FRACTION_DIGITS: usize = 11;

/// The longest literal, in characters, that is handed to the parser.
pub const MAX_LITERAL_CHARS: usize = 0xffff_ffff;

/// The ten digits.
pub open spec fn is_digit(c: char) -> bool {
    '0' <= c <= '9'
}

/// `.` and `,` separate groups of digits and mark the fraction.
pub open spec fn is_delimiter(c: char) -> bool {
    c == '.' || c == ','
}

/// Any character that is no digit, sign or delimiter can serve as a symbol.
pub open spec fn is_symbol(c: char) -> bool {
    !is_digit(c) && c != '-' && !is_delimiter(c)
}

/// Whether `s` holds a delimiter.
pub open spec fn has_delimiter(s: Seq<char>) -> bool {
    exists|i: int| 0 <= i < s.len() && is_delimiter(#[trigger] s[i])
}

/// The number of digits behind the last delimiter of `s` (all its digits,
/// where it has no delimiter).
pub open spec fn trailing_digits(s: Seq<char>) -> nat
    decreases s.len(),
{
    if s.len() == 0 {
        0
    } else if is_delimiter(s.last()) {
        0
    } else if is_digit(s.last()) {
        trailing_digits(s.drop_last()) + 1
    } else {
        trailing_digits(s.drop_last())
    }
}

/// The literals that the parser is asked about: of bounded length, and with
/// at most `MAX_FRACTION_DIGITS` digits behind their last delimiter.
pub open spec fn literal_supported(s: Seq<char>) -> bool {
    &&& s.len() <= MAX_LITERAL_CHARS
    &&& has_delimiter(s) ==> trailing_digits(s) <= MAX_FRACTION_DIGITS
}

/// Whether the text starts with a minus sign.
pub open spec fn text_negative(t: Seq<char>) -> bool {
    t.len() > 0 && t[0] == '-'
}

/// The symbol of a written amount: the character behind the sign, where it
/// is no digit, sign or delimiter.
pub open spec fn text_symbol(t: Seq<char>) -> Option<char> {
    let i: int = if text_negative(t) { 1 } else { 0 };
    if i < t.len() && is_symbol(t[i]) {
        Some(t[i])
    } else {
        None
    }
}

/// What follows the sign and the symbol.
pub open spec fn text_body(t: Seq<char>) -> Seq<char> {
    let i: int = if text_negative(t) { 1 } else { 0 };
    if text_symbol(t) is Some {
        t.skip(i + 1)
    } else {
        t.skip(i)
    }
}

/// A body is digits and group separators, at least one digit among them,
/// then a point and exactly two digits. Where the separators stand is not
/// looked at: a text may start with one.
pub open spec fn is_amount_body(b: Seq<char>) -> bool {
    &&& b.len() >= 4
    &&& b[b.len() - 3] == '.'
    &&& is_digit(b[b.len() - 2])
    &&& is_digit(b[b.len() - 1])
    &&& forall|i: int| 0 <= i < b.len() - 3 ==> is_digit(#[trigger] b[i]) || b[i] == ','
    &&& exists|i: int| 0 <= i < b.len() - 3 && is_digit(#[trigger] b[i])
}

/// What a digit counts for.
pub open spec fn digit_value(c: char) -> nat {
    (c as int - '0' as int) as nat
}

/// The number that the digits of `b` spell in base ten, its other characters
/// passed over.
pub open spec fn decimal_value(b: Seq<char>) -> nat
    decreases b.len(),
{
    if b.len() == 0 {
        0
    } else if is_digit(b.last()) {
        decimal_value(b.drop_last()) * 10 + digit_value(b.last())
    } else {
        decimal_value(b.drop_last())
    }
}

/// The symbol and the signed number of cents that a written amount stands
/// for; `None` where the text is no written amount.
pub open spec fn text_amount(t: Seq<char>) -> Option<(Option<char>, int)> {
    if is_amount_body(text_body(t)) {
        let v: int = decimal_value(text_body(t)) as int;
        Some((text_symbol(t), if text_negative(t) { -v } else { v }))
    } else {
        None
    }
}

/// The money that a written amount stands for, where its cents fit.
pub open spec fn text_money(t: Seq<char>) -> Option<Money> {
    match text_amount(t) {
        Some((symbol, v)) => if i64::MIN <= v <= i64::MAX {
            Some(Money { symbol, cents: v as i64 })
        } else {
            None
        },
        None => None,
    }
}

/// A longer prefix of a body never spells a smaller number.
pub proof fn lemma_decimal_value_grows(b: Seq<char>, k: int)
    requires
        0 <= k <= b.len(),
    ensures
        decimal_value(b.take(k)) <= decimal_value(b),
    decreases b.len() - k,
{
    if k == b.len() {
        assert(b.take(k) =~= b);
    } else {
        lemma_decimal_value_grows(b, k + 1);
        assert(b.take(k + 1).drop_last() =~= b.take(k));
    }
}

fn char_is_digit(c: char) -> (b: bool)
    ensures
        b == is_digit(c),
{
    '0' <= c && c <= '9'
}

fn char_is_delimiter(c: char) -> (b: bool)
    ensures
        b == is_delimiter(c),
{
    c == '.' || c == ','
}

fn char_is_symbol(c: char) -> (b: bool)
    ensures
        b == is_symbol(c),
{
    !char_is_digit(c) && c != '-' && !char_is_delimiter(c)
}

/// The characters of `s`, in order.
fn chars_of(s: &str) -> (v: Vec<char>)
    ensures
        v@ == s@,
{
    let mut v: Vec<char> = Vec::new();
    for c in it: s.chars()
        invariant
            it.seq() == s@,
            v@ == s@.take(it.index() as int),
    {
        v.push(c);
        assert(s@.take(it.index() + 1) =~= s@.take(it.index() as int).push(c));
    }
    assert(s@.take(s@.len() as int) =~= s@);
    v
}

/// Decides `literal_supported`.
pub fn is_literal_supported(s: &str) -> (b: bool)
    ensures
        b == literal_supported(s@),
{
    let n: usize = s.unicode_len();
    if n > MAX_LITERAL_CHARS {
        return false;
    }
    let mut seen: bool = false;
    let mut run: usize = 0;
    for c in it: s.chars()
        invariant
            it.seq() == s@,
            n == s@.len(),
            seen == has_delimiter(s@.take(it.index() as int)),
            run == trailing_digits(s@.take(it.index() as int)),
            run <= it.index(),
    {
        proof {
            let i = it.index() as int;
            let p = s@.take(i);
            let q = s@.take(i + 1);
            assert(q.drop_last() =~= p);
            assert(q.last() == c);
            if has_delimiter(p) {
                let k = choose|k: int| 0 <= k < p.len() && is_delimiter(#[trigger] p[k]);
                assert(is_delimiter(q[k]));
            }
            if has_delimiter(q) && !is_delimiter(c) {
                let k = choose|k: int| 0 <= k < q.len() && is_delimiter(#[trigger] q[k]);
                assert(is_delimiter(p[k]));
            }
            if is_delimiter(c) {
                assert(is_delimiter(q[i]));
            }
        }
        if char_is_delimiter(c) {
            seen = true;
            run = 0;
        } else if char_is_digit(c) {
            run = run + 1;
        }
    }
    proof {
        assert(s@.take(n as int) =~= s@);
    }
    !seen || run <= MAX_FRACTION_DIGITS
}

/// The error of `currency::Currency::from_str`, carried through unread.
#[verifier::external_type_specification]
#[verifier::external_body]
pub struct ExParseCurrencyError(currency::ParseCurrencyError);

/// The text in which the `currency` crate renders the amount that it reads
/// from the literal `s`; `None` where it reads no amount from `s`.
pub uninterp spec fn currency_text(s: Seq<char>) -> Option<Seq<char>>;

/// Hands a literal to `currency::Currency::from_str` and renders what was
/// read through the `Display` of `currency::Currency`, the one public way to
/// read an amount and its symbol back. The contract claims that the outcome
/// is a function of the literal alone. It claims nothing of the rendered
/// text itself: `Money::from_text` reads it, and is verified. The literals
/// left out by `requires` are those on which `from_str` may overflow its
/// 32-bit counters.
#[verifier::external_body]
fn currency_render(s: &str) -> (r: Result<String, currency::ParseCurrencyError>)
    requires
        literal_supported(s@),
    ensures
        r is Ok <==> currency_text(s@) is Some,
        r matches Ok(t) ==> currency_text(s@) == Some(t@),
{
    match currency::Currency::from_str(s) {
        Ok(amount) => Ok(amount.to_string()),
        Err(e) => Err(e),
    }
}

/// What `Money::parse` makes of a literal.
pub open spec fn parsed_money(s: Seq<char>) -> Result<Money, ParseMoneyError> {
    if !literal_supported(s) {
        Err(ParseMoneyError::Unsupported)
    } else {
        match currency_text(s) {
            None => Err(ParseMoneyError::Malformed),
            Some(t) => match text_money(t) {
                Some(m) => Ok(m),
                None => Err(ParseMoneyError::OutOfRange),
            },
        }
    }
}

/// The character of a digit.
pub open spec fn digit_char(d: nat) -> char
    recommends
        d <= 9,
{
    ('0' as nat + d) as char
}

/// The digits of `n` in base ten, without leading zeros.
pub open spec fn digits_text(n: nat) -> Seq<char>
    decreases n,
{
    if n < 10 {
        seq![digit_char(n)]
    } else {
        digits_text(n / 10).push(digit_char(n % 10))
    }
}

/// The digits of `n` in groups of three, the groups parted by commas.
pub open spec fn grouped_text(n: nat) -> Seq<char>
    decreases n,
{
    if n < 1000 {
        digits_text(n)
    } else {
        grouped_text(n / 1000).push(',').push(digit_char(n % 1000 / 100)).push(
            digit_char(n % 100 / 10),
        ).push(digit_char(n % 10))
    }
}

/// How an amount is written: a minus sign if it is negative, its symbol if
/// it has one, the whole units in groups of three, a point, and two digits
/// of cents.
pub open spec fn money_text(m: Money) -> Seq<char> {
    let size: nat = if m.cents < 0 { (-m.cents) as nat } else { m.cents as nat };
    let sign: Seq<char> = if m.cents < 0 { seq!['-'] } else { Seq::empty() };
    let symbol: Seq<char> = match m.symbol {
        Some(c) => seq![c],
        None => Seq::empty(),
    };
    (sign + symbol + grouped_text(size / 100)).push('.').push(digit_char(size % 100 / 10)).push(
        digit_char(size % 10),
    )
}

/// An amount whose symbol, if it has one, can be told from a digit, a sign
/// and a delimiter. Every amount that was parsed or read is such.
pub open spec fn has_plain_symbol(m: Money) -> bool {
    m.symbol is Some ==> is_symbol(m.symbol->0)
}

/// What is read has a plain symbol or none, so it can be written and read
/// back.
pub proof fn lemma_read_symbol_is_plain(t: Seq<char>)
    requires
        text_money(t) is Some,
    ensures
        has_plain_symbol(text_money(t)->0),
        text_money(money_text(text_money(t)->0)) == text_money(t),
{
    lemma_text_reads_back(text_money(t)->0);
}

/// A digit at the end of a text counts as the last place of its number.
pub proof fn lemma_value_with_digit(s: Seq<char>, d: nat)
    requires
        d <= 9,
    ensures
        is_digit(digit_char(d)),
        digit_value(digit_char(d)) == d,
        decimal_value(s.push(digit_char(d))) == decimal_value(s) * 10 + d,
{
    assert(s.push(digit_char(d)).drop_last() =~= s);
}

/// A delimiter at the end of a text counts for nothing.
pub proof fn lemma_value_with_delimiter(s: Seq<char>, c: char)
    requires
        is_delimiter(c),
    ensures
        decimal_value(s.push(c)) == decimal_value(s),
{
    assert(s.push(c).drop_last() =~= s);
}

/// The digits of a number spell that number.
pub proof fn lemma_digits_text(n: nat)
    ensures
        digits_text(n).len() >= 1,
        forall|i: int| 0 <= i < digits_text(n).len() ==> is_digit(#[trigger] digits_text(n)[i]),
        decimal_value(digits_text(n)) == n,
    decreases n,
{
    if n < 10 {
        lemma_value_with_digit(Seq::empty(), n);
        assert(digits_text(n) =~= Seq::<char>::empty().push(digit_char(n)));
    } else {
        lemma_digits_text(n / 10);
        lemma_value_with_digit(digits_text(n / 10), n % 10);
    }
}

/// Grouping leaves the number that the digits spell as it is, and puts
/// nothing but digits and commas, a digit first.
pub proof fn lemma_grouped_text(n: nat)
    ensures
        grouped_text(n).len() >= 1,
        is_digit(grouped_text(n)[0]),
        forall|i: int|
            0 <= i < grouped_text(n).len() ==> is_digit(#[trigger] grouped_text(n)[i])
                || grouped_text(n)[i] == ',',
        decimal_value(grouped_text(n)) == n,
    decreases n,
{
    if n < 1000 {
        lemma_digits_text(n);
    } else {
        let g = grouped_text(n / 1000);
        let a = g.push(',');
        let b = a.push(digit_char(n % 1000 / 100));
        let c = b.push(digit_char(n % 100 / 10));
        lemma_grouped_text(n / 1000);
        lemma_value_with_delimiter(g, ',');
        lemma_value_with_digit(a, n % 1000 / 100);
        lemma_value_with_digit(b, n % 100 / 10);
        lemma_value_with_digit(c, n % 10);
        assert(grouped_text(n)[0] == g[0]);
    }
}

/// What is written can be read back: the text of an amount stands for that
/// amount and for no other.
pub proof fn lemma_text_reads_back(m: Money)
    requires
        has_plain_symbol(m),
    ensures
        text_money(money_text(m)) == Some(m),
{
    let size: nat = if m.cents < 0 { (-m.cents) as nat } else { m.cents as nat };
    let sign: Seq<char> = if m.cents < 0 { seq!['-'] } else { Seq::empty() };
    let symbol: Seq<char> = match m.symbol {
        Some(c) => seq![c],
        None => Seq::empty(),
    };
    let g = grouped_text(size / 100);
    let a = g.push('.');
    let b = a.push(digit_char(size % 100 / 10));
    let body = b.push(digit_char(size % 10));
    let t = money_text(m);
    lemma_grouped_text(size / 100);
    lemma_value_with_delimiter(g, '.');
    lemma_value_with_digit(a, size % 100 / 10);
    lemma_value_with_digit(b, size % 10);
    assert(decimal_value(body) == size);
    assert(body[0] == g[0]);
    assert(is_amount_body(body));
    assert(t =~= sign + symbol + body);
    assert(text_negative(t) == (m.cents < 0));
    assert(text_symbol(t) == m.symbol);
    assert(text_body(t) =~= body);
}

/// The value of a digit character.
fn char_digit_value(c: char) -> (d: u8)
    requires
        is_digit(c),
    ensures
        d == digit_value(c),
        d <= 9,
{
    ((c as u32) - ('0' as u32)) as u8
}

/// The character of a digit.
fn digit_to_char(d: u8) -> (c: char)
    requires
        d <= 9,
    ensures
        c == digit_char(d as nat),
{
    (('0' as u8) + d) as char
}

/// Writes the digits of `n` behind `out`.
fn push_digits(out: &mut Vec<char>, n: u64)
    ensures
        final(out)@ == old(out)@ + digits_text(n as nat),
    decreases n,
{
    if n >= 10 {
        push_digits(out, n / 10);
    }
    out.push(digit_to_char((n % 10) as u8));
    assert(final(out)@ =~= old(out)@ + digits_text(n as nat));
}

/// Writes the digits of `n`, in groups of three, behind `out`.
fn push_grouped(out: &mut Vec<char>, n: u64)
    ensures
        final(out)@ == old(out)@ + grouped_text(n as nat),
    decreases n,
{
    if n < 1000 {
        push_digits(out, n);
    } else {
        push_grouped(out, n / 1000);
        out.push(',');
        out.push(digit_to_char((n % 1000 / 100) as u8));
        out.push(digit_to_char((n % 100 / 10) as u8));
        out.push(digit_to_char((n % 10) as u8));
        assert(final(out)@ =~= old(out)@ + grouped_text(n as nat));
    }
}

/// Makes a `String` of characters with `String::from_iter` of std. The
/// contract claims that the string holds those characters, in their order.
#[verifier::external_body]
fn string_of(chars: &Vec<char>) -> (s: String)
    ensures
        s@ == chars@,
{
    String::from_iter(chars.iter())
}

impl Money {
    /// Writes the amount out, as in `$1,000.42` or `-12.50`.
    pub fn to_text(&self) -> (s: String)
        ensures
            s@ == money_text(*self),
    {
        let mut out: Vec<char> = Vec::new();
        let size: u64 = if self.cents >= 0 {
            self.cents as u64
        } else if self.cents == i64::MIN {
            0x8000_0000_0000_0000
        } else {
            (-self.cents) as u64
        };
        if self.cents < 0 {
            out.push('-');
        }
        if let Some(c) = self.symbol {
            out.push(c);
        }
        push_grouped(&mut out, size / 100);
        out.push('.');
        out.push(digit_to_char((size % 100 / 10) as u8));
        out.push(digit_to_char((size % 10) as u8));
        assert(out@ =~= money_text(*self));
        string_of(&out)
    }

    /// The amount of `cents` under `symbol`.
    pub fn new(symbol: Option<char>, cents: i64) -> (m: Money)
        ensures
            m == (Money { symbol, cents }),
    {
        Money { symbol, cents }
    }

    /// Parses a literal such as `$1,000.42` or `-12.5`.
    ///
    /// A literal that is not supported is refused unread. Any other is
    /// given to the `currency` crate, and the amount it reads comes back as
    /// plain cents: `Malformed` where the crate reads none, `OutOfRange`
    /// where the cents do not fit.
    pub fn parse(s: &str) -> (r: Result<Money, ParseMoneyError>)
        ensures
            r == parsed_money(s@),
    {
        if !is_literal_supported(s) {
            return Err(ParseMoneyError::Unsupported);
        }
        match currency_render(s) {
            Err(_) => Err(ParseMoneyError::Malformed),
            Ok(text) => match Money::from_text(text.as_str()) {
                Some(m) => Ok(m),
                None => Err(ParseMoneyError::OutOfRange),
            },
        }
    }

    /// Reads a written amount: an optional minus sign, an optional symbol,
    /// digits and group separators, a point and two digits of cents. `None`
    /// where the text has another shape or its cents do not fit.
    pub fn from_text(text: &str) -> (r: Option<Money>)
        ensures
            r == text_money(text@),
    {
        let t = chars_of(text);
        let n: usize = t.len();
        let negative: bool = n > 0 && t[0] == '-';
        let mut start: usize = if negative { 1 } else { 0 };
        let mut symbol: Option<char> = None;
        if start < n && char_is_symbol(t[start]) {
            symbol = Some(t[start]);
            start = start + 1;
        }
        let ghost body = text_body(text@);
        assert(body =~= t@.skip(start as int));
        assert(symbol == text_symbol(text@));
        if n - start < 4 {
            return None;
        }
        if t[n - 3] != '.' || !char_is_digit(t[n - 2]) || !char_is_digit(t[n - 1]) {
            return None;
        }
        let limit: u128 = 0x8000_0000_0000_0000;
        let mut acc: u128 = 0;
        let mut whole: bool = false;
        let mut k: usize = start;
        while k < n
            invariant
                start <= k <= n,
                n == t@.len(),
                n - start >= 4,
                body == t@.skip(start as int),
                body == text_body(text@),
                acc == decimal_value(body.take(k - start)),
                acc <= limit,
                limit == 0x8000_0000_0000_0000,
                forall|j: int|
                    0 <= j < k - start && j < body.len() - 3 ==> is_digit(#[trigger] body[j])
                        || body[j] == ',',
                whole == exists|j: int|
                    0 <= j < k - start && j < body.len() - 3 && is_digit(#[trigger] body[j]),
            decreases n - k,
        {
            let c = t[k];
            proof {
                let i = k - start;
                assert(body.take(i + 1).drop_last() =~= body.take(i));
                assert(body.take(i + 1).last() == c);
                assert(body[i] == c);
            }
            if char_is_digit(c) {
                let d = char_digit_value(c);
                let next: u128 = acc * 10 + (d as u128);
                if next > limit {
                    proof {
                        lemma_decimal_value_grows(body, k - start + 1);
                        assert(decimal_value(body) > i64::MAX + 1);
                    }
                    return None;
                }
                acc = next;
                if k < n - 3 {
                    whole = true;
                }
            } else if k < n - 3 && c != ',' {
                assert(!is_amount_body(body));
                return None;
            }
            k = k + 1;
        }
        assert(body.take(body.len() as int) =~= body);
        if !whole {
            return None;
        }
        assert(is_amount_body(body));
        if negative {
            if acc == limit {
                Some(Money { symbol, cents: i64::MIN })
            } else {
                Some(Money { symbol, cents: -(acc as i64) })
            }
        } else if acc == limit {
            None
        } else {
            Some(Money { symbol, cents: acc as i64 })
        }
    }

    /// The sum of two amounts under one symbol; `None` where the symbols
    /// differ or the sum does not fit.
    pub fn checked_add(self, other: Money) -> (r: Option<Money>)
        ensures
            r == money_sum(self, other),
    {
        if !same_symbol(self.symbol, other.symbol) {
            return None;
        }
        match self.cents.checked_add(other.cents) {
            Some(cents) => Some(Money { symbol: self.symbol, cents }),
            None => None,
        }
    }
}

/// The sum of two amounts: defined where they share their symbol and the
/// cents fit.
pub open spec fn money_sum(a: Money, b: Money) -> Option<Money> {
    if a.symbol == b.symbol && i64::MIN <= a.cents + b.cents <= i64::MAX {
        Some(Money { symbol: a.symbol, cents: (a.cents + b.cents) as i64 })
    } else {
        None
    }
}

/// Whether two symbols are the same.
pub fn same_symbol(a: Option<char>, b: Option<char>) -> (r: bool)
    ensures
        r == (a == b),
{
    match (a, b) {
        (Some(x), Some(y)) => x == y,
        (None, None) => true,
        _ => false,
    }
}

} // verus!
