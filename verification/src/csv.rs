//! The payment records as text: one record on each line, its amounts in
//! decimal digits with commas between them.

use vstd::prelude::*;

verus! {

/// The byte of a comma.
pub const COMMA: u8 = 0x2c;

/// The byte of a line feed.
pub const LINE_FEED: u8 = 0x0a;

/// The byte of a carriage return.
pub const CARRIAGE_RETURN: u8 = 0x0d;

/// The byte of a plus sign.
pub const PLUS: u8 = 0x2b;

/// The byte of the digit zero.
pub const ZERO: u8 = 0x30;

/// Whether a byte is a decimal digit.
pub open spec fn is_digit(b: u8) -> bool {
    0x30 <= b <= 0x39
}

/// Whether every byte is a decimal digit.
pub open spec fn all_digits(s: Seq<u8>) -> bool {
    forall|i: int| 0 <= i < s.len() ==> is_digit(#[trigger] s[i])
}

/// The number that decimal digits spell.
pub open spec fn digits_value(s: Seq<u8>) -> nat
    decreases s.len(),
{
    if s.len() == 0 {
        0
    } else {
        digits_value(s.drop_last()) * 10 + (s.last() - 0x30) as nat
    }
}

/// The digits of a field: what follows a leading plus sign, or all of it.
pub open spec fn digits_of(field: Seq<u8>) -> Seq<u8> {
    if field.len() > 0 && field[0] == PLUS {
        field.skip(1)
    } else {
        field
    }
}

/// The amount that a field spells: one or more decimal digits, after a plus
/// sign or without one, whose value fits in 32 bits.
pub open spec fn number_of(field: Seq<u8>) -> Option<u32> {
    let digits = digits_of(field);
    if digits.len() > 0 && all_digits(digits) && digits_value(digits) <= u32::MAX {
        Some(digits_value(digits) as u32)
    } else {
        None
    }
}

/// Where `b` first occurs in `s`; the length of `s` where it does not.
pub open spec fn first_of(s: Seq<u8>, b: u8) -> int
    decreases s.len(),
{
    if s.len() == 0 {
        0
    } else if s[0] == b {
        0
    } else {
        1 + first_of(s.skip(1), b)
    }
}

/// The record that a line spells: its fields are what the commas part, and
/// each of them is an amount. A line without a comma is one field.
pub open spec fn record_of(line: Seq<u8>) -> Option<Seq<u32>>
    decreases line.len(),
{
    let k = first_of(line, COMMA);
    if 0 <= k < line.len() {
        match (number_of(line.take(k)), record_of(line.skip(k + 1))) {
            (Some(amount), Some(rest)) => Some(seq![amount] + rest),
            _ => None,
        }
    } else {
        match number_of(line) {
            Some(amount) => Some(seq![amount]),
            None => None,
        }
    }
}

/// A line without the carriage return that ends it, if one does.
pub open spec fn strip_cr(line: Seq<u8>) -> Seq<u8> {
    if line.len() > 0 && line.last() == CARRIAGE_RETURN {
        line.drop_last()
    } else {
        line
    }
}

/// The records that a text spells. Each line feed ends a line, and a
/// carriage return just before it belongs to the line ending. What follows
/// the last line feed is a line too unless it is empty. Every line must
/// spell a record.
pub open spec fn prices_of(text: Seq<u8>) -> Option<Seq<Seq<u32>>>
    decreases text.len(),
{
    let k = first_of(text, LINE_FEED);
    if text.len() == 0 {
        Some(Seq::empty())
    } else if 0 <= k < text.len() {
        match (record_of(strip_cr(text.take(k))), prices_of(text.skip(k + 1))) {
            (Some(record), Some(rest)) => Some(seq![record] + rest),
            _ => None,
        }
    } else {
        match record_of(text) {
            Some(record) => Some(seq![record]),
            None => None,
        }
    }
}

/// The records of a list of lists, as sequences.
pub open spec fn records_view(prices: Seq<Vec<u32>>) -> Seq<Seq<u32>> {
    Seq::new(prices.len(), |i: int| prices[i]@)
}

/// In a run of bytes without `b` that `b` or the end follows, `b` first
/// occurs at the end of the run.
pub proof fn lemma_first_of(s: Seq<u8>, b: u8, k: int)
    requires
        0 <= k <= s.len(),
        forall|j: int| 0 <= j < k ==> s[j] != b,
        k < s.len() ==> s[k] == b,
    ensures
        first_of(s, b) == k,
    decreases k,
{
    if k > 0 {
        let rest = s.skip(1);
        assert forall|j: int| 0 <= j < k - 1 implies rest[j] != b by {
            assert(rest[j] == s[j + 1]);
        }
        lemma_first_of(rest, b, k - 1);
    }
}

/// More digits do not spell less.
pub proof fn lemma_digits_value_grows(s: Seq<u8>, k: int)
    requires
        all_digits(s),
        0 <= k <= s.len(),
    ensures
        digits_value(s.take(k)) <= digits_value(s),
    decreases s.len(),
{
    if k < s.len() {
        let front = s.drop_last();
        assert(front.take(k) =~= s.take(k));
        assert forall|i: int| 0 <= i < front.len() implies is_digit(#[trigger] front[i]) by {
            assert(front[i] == s[i]);
        }
        lemma_digits_value_grows(front, k);
        assert(is_digit(s[s.len() - 1]));
    } else {
        assert(s.take(k) =~= s);
    }
}

/// The number below `bound` that a field spells: one or more decimal
/// digits, after a plus sign or without one.
pub open spec fn number_below(field: Seq<u8>, bound: nat) -> Option<nat> {
    let digits = digits_of(field);
    if digits.len() > 0 && all_digits(digits) && digits_value(digits) < bound {
        Some(digits_value(digits))
    } else {
        None
    }
}

/// Reads the number below `bound` that the bytes from `start` up to `end`
/// spell.
pub fn parse_below(buf: &[u8], start: usize, end: usize, bound: u64) -> (number: Option<u64>)
    requires
        start <= end <= buf@.len(),
    ensures
        number is Some <==> number_below(buf@.subrange(start as int, end as int), bound as nat)
            is Some,
        number matches Some(n) ==> number_below(
            buf@.subrange(start as int, end as int),
            bound as nat,
        ) == Some(n as nat),
{
    let ghost field = buf@.subrange(start as int, end as int);
    let first: usize = if start < end && buf[start] == PLUS {
        start + 1
    } else {
        start
    };
    let ghost digits = buf@.subrange(first as int, end as int);
    proof {
        assert(digits =~= digits_of(field));
    }
    if first == end {
        return None;
    }
    let mut acc: u64 = 0;
    let mut i: usize = first;
    proof {
        assert(digits.take(0) =~= Seq::<u8>::empty());
    }
    while i < end
        invariant
            start <= first <= i <= end <= buf@.len(),
            field == buf@.subrange(start as int, end as int),
            digits == buf@.subrange(first as int, end as int),
            digits == digits_of(field),
            all_digits(digits.take(i - first)),
            acc == digits_value(digits.take(i - first)),
            i > first ==> acc < bound,
        decreases end - i,
    {
        let b: u8 = buf[i];
        let ghost seen = digits.take(i - first);
        let ghost more = digits.take(i - first + 1);
        proof {
            assert(more.drop_last() =~= seen);
            assert(more.last() == b);
            assert(digits[i - first] == b);
        }
        if b < 0x30 || b > 0x39 {
            assert(!is_digit(digits[i - first]));
            return None;
        }
        let next: u128 = acc as u128 * 10 + (b - 0x30) as u128;
        proof {
            assert forall|j: int| 0 <= j < more.len() implies is_digit(#[trigger] more[j]) by {
                if j < seen.len() {
                    assert(seen[j] == more[j]);
                }
            }
        }
        if next >= bound as u128 {
            proof {
                if all_digits(digits) {
                    lemma_digits_value_grows(digits, i - first + 1);
                }
            }
            return None;
        }
        acc = next as u64;
        i = i + 1;
    }
    proof {
        assert(digits.take(end - first) =~= digits);
    }
    Some(acc)
}

/// Reads the amount that the bytes from `start` up to `end` spell.
pub fn parse_number(buf: &[u8], start: usize, end: usize) -> (amount: Option<u32>)
    requires
        start <= end <= buf@.len(),
    ensures
        amount == number_of(buf@.subrange(start as int, end as int)),
{
    match parse_below(buf, start, end, 0x1_0000_0000) {
        Some(number) => Some(number as u32),
        None => None,
    }
}

/// Puts a number before a list that may be missing.
pub open spec fn join(amounts: Seq<u32>, rest: Option<Seq<u32>>) -> Option<Seq<u32>> {
    match rest {
        Some(rest) => Some(amounts + rest),
        None => None,
    }
}

/// Reads the record that the bytes from `start` up to `end` spell.
pub fn parse_record(buf: &[u8], start: usize, end: usize) -> (record: Option<Vec<u32>>)
    requires
        start <= end <= buf@.len(),
    ensures
        record is Some <==> record_of(buf@.subrange(start as int, end as int)) is Some,
        record matches Some(amounts) ==> record_of(buf@.subrange(start as int, end as int))
            == Some(amounts@),
{
    let ghost line = buf@.subrange(start as int, end as int);
    let mut amounts: Vec<u32> = Vec::new();
    let mut field_start: usize = start;
    let mut i: usize = start;
    proof {
        assert(buf@.subrange(start as int, end as int) =~= line);
        assert(Seq::<u32>::empty() + record_of(line)->0 =~= record_of(line)->0);
    }
    while i < end
        invariant
            start <= field_start <= i <= end <= buf@.len(),
            line == buf@.subrange(start as int, end as int),
            forall|j: int| field_start <= j < i ==> buf@[j] != COMMA,
            record_of(line) == join(
                amounts@,
                record_of(buf@.subrange(field_start as int, end as int)),
            ),
        decreases end - i,
    {
        if buf[i] == COMMA {
            let ghost rest = buf@.subrange(field_start as int, end as int);
            proof {
                assert forall|j: int| 0 <= j < i - field_start implies rest[j] != COMMA by {
                    assert(rest[j] == buf@[field_start + j]);
                }
                lemma_first_of(rest, COMMA, i - field_start);
                assert(rest.take(i - field_start) =~= buf@.subrange(
                    field_start as int,
                    i as int,
                ));
                assert(rest.skip(i - field_start + 1) =~= buf@.subrange(i + 1, end as int));
            }
            match parse_number(buf, field_start, i) {
                Some(amount) => {
                    let ghost before = amounts@;
                    amounts.push(amount);
                    proof {
                        let after = record_of(buf@.subrange(i + 1, end as int));
                        if after is Some {
                            assert(before + (seq![amount] + after->0) =~= amounts@ + after->0);
                        }
                    }
                },
                None => {
                    return None;
                },
            }
            field_start = i + 1;
        }
        i = i + 1;
    }
    let ghost rest = buf@.subrange(field_start as int, end as int);
    proof {
        assert forall|j: int| 0 <= j < rest.len() implies rest[j] != COMMA by {
            assert(rest[j] == buf@[field_start + j]);
        }
        lemma_first_of(rest, COMMA, rest.len() as int);
    }
    match parse_number(buf, field_start, end) {
        Some(amount) => {
            let ghost before = amounts@;
            amounts.push(amount);
            proof {
                assert(before + seq![amount] =~= amounts@);
            }
            Some(amounts)
        },
        None => None,
    }
}

/// Puts records before a list that may be missing.
pub open spec fn join_records(records: Seq<Seq<u32>>, rest: Option<Seq<Seq<u32>>>) -> Option<
    Seq<Seq<u32>>,
> {
    match rest {
        Some(rest) => Some(records + rest),
        None => None,
    }
}

/// Reads the payment records from the text of a prices file.
pub fn csv_to_prices(contents: &[u8]) -> (prices: Option<Vec<Vec<u32>>>)
    ensures
        prices is Some <==> prices_of(contents@) is Some,
        prices matches Some(records) ==> prices_of(contents@) == Some(records_view(records@)),
{
    let end: usize = contents.len();
    let mut records: Vec<Vec<u32>> = Vec::new();
    let mut line_start: usize = 0;
    let mut i: usize = 0;
    proof {
        assert(contents@.subrange(0, end as int) =~= contents@);
        assert(records_view(records@) =~= Seq::<Seq<u32>>::empty());
        assert(Seq::<Seq<u32>>::empty() + prices_of(contents@)->0 =~= prices_of(contents@)->0);
    }
    while i < end
        invariant
            line_start <= i <= end,
            end == contents@.len(),
            forall|j: int| line_start <= j < i ==> contents@[j] != LINE_FEED,
            prices_of(contents@) == join_records(
                records_view(records@),
                prices_of(contents@.subrange(line_start as int, end as int)),
            ),
        decreases end - i,
    {
        if contents[i] == LINE_FEED {
            let ghost rest = contents@.subrange(line_start as int, end as int);
            let line_end: usize = if line_start < i && contents[i - 1] == CARRIAGE_RETURN {
                i - 1
            } else {
                i
            };
            proof {
                assert forall|j: int| 0 <= j < i - line_start implies rest[j] != LINE_FEED by {
                    assert(rest[j] == contents@[line_start + j]);
                }
                lemma_first_of(rest, LINE_FEED, i - line_start);
                let line = rest.take(i - line_start);
                assert(line =~= contents@.subrange(line_start as int, i as int));
                assert(strip_cr(line) =~= contents@.subrange(line_start as int, line_end as int));
                assert(rest.skip(i - line_start + 1) =~= contents@.subrange(i + 1, end as int));
            }
            match parse_record(contents, line_start, line_end) {
                Some(record) => {
                    let ghost before = records_view(records@);
                    let ghost amounts = record@;
                    records.push(record);
                    proof {
                        assert(records_view(records@) =~= before + seq![amounts]);
                        let after = prices_of(contents@.subrange(i + 1, end as int));
                        if after is Some {
                            assert(before + (seq![amounts] + after->0) =~= records_view(records@)
                                + after->0);
                        }
                    }
                },
                None => {
                    return None;
                },
            }
            line_start = i + 1;
        }
        i = i + 1;
    }
    if line_start == end {
        proof {
            assert(contents@.subrange(line_start as int, end as int) =~= Seq::<u8>::empty());
            assert(records_view(records@) + Seq::<Seq<u32>>::empty() =~= records_view(records@));
        }
        return Some(records);
    }
    let ghost rest = contents@.subrange(line_start as int, end as int);
    proof {
        assert forall|j: int| 0 <= j < rest.len() implies rest[j] != LINE_FEED by {
            assert(rest[j] == contents@[line_start + j]);
        }
        lemma_first_of(rest, LINE_FEED, rest.len() as int);
    }
    match parse_record(contents, line_start, end) {
        Some(record) => {
            let ghost before = records_view(records@);
            let ghost amounts = record@;
            records.push(record);
            proof {
                assert(records_view(records@) =~= before + seq![amounts]);
            }
            Some(records)
        },
        None => None,
    }
}

/// The decimal digits of a number, without leading zeros.
pub open spec fn decimal(n: nat) -> Seq<u8>
    decreases n,
{
    if n < 10 {
        seq![(0x30 + n) as u8]
    } else {
        decimal(n / 10).push((0x30 + n % 10) as u8)
    }
}

/// The amounts of a record in decimal digits, with commas between them.
pub open spec fn joined(numbers: Seq<u32>) -> Seq<u8>
    decreases numbers.len(),
{
    if numbers.len() == 0 {
        Seq::empty()
    } else if numbers.len() == 1 {
        decimal(numbers[0] as nat)
    } else {
        decimal(numbers[0] as nat) + seq![COMMA] + joined(numbers.skip(1))
    }
}

/// The line that a record makes: its amounts, and a line feed.
pub open spec fn csv_line(numbers: Seq<u32>) -> Seq<u8> {
    joined(numbers) + seq![LINE_FEED]
}

/// Appends the decimal digits of `n` to `out`.
pub fn push_decimal(out: &mut Vec<u8>, n: u32)
    ensures
        final(out)@ == old(out)@ + decimal(n as nat),
{
    let mut low_first: Vec<u8> = Vec::new();
    let mut rest: u32 = n;
    proof {
        assert(decimal(rest as nat) + low_first@.reverse() =~= decimal(n as nat));
    }
    while rest >= 10
        invariant
            decimal(n as nat) == decimal(rest as nat) + low_first@.reverse(),
        decreases rest,
    {
        let ghost before = low_first@;
        let digit: u8 = (0x30 + rest % 10) as u8;
        low_first.push(digit);
        proof {
            assert(low_first@.reverse() =~= seq![digit] + before.reverse());
            assert(decimal((rest / 10) as nat).push(digit) + before.reverse() =~= decimal(
                (rest / 10) as nat,
            ) + low_first@.reverse());
        }
        rest = rest / 10;
    }
    let ghost before = low_first@;
    let digit: u8 = (0x30 + rest) as u8;
    low_first.push(digit);
    proof {
        assert(low_first@.reverse() =~= seq![digit] + before.reverse());
        assert(decimal(n as nat) =~= low_first@.reverse());
    }
    let mut i: usize = low_first.len();
    let ghost start = out@;
    proof {
        assert(start + low_first@.reverse().take(0) =~= start);
    }
    while i > 0
        invariant
            i <= low_first@.len(),
            out@ == start + low_first@.reverse().take(low_first@.len() - i),
        decreases i,
    {
        i = i - 1;
        out.push(low_first[i]);
        proof {
            assert(out@ =~= start + low_first@.reverse().take(low_first@.len() - i));
        }
    }
    proof {
        assert(low_first@.reverse().take(low_first@.len() as int) =~= low_first@.reverse());
    }
}

/// The line that a record makes in the retry file.
pub fn write_to_csv(numbers: &[u32]) -> (line: Vec<u8>)
    ensures
        line@ == csv_line(numbers@),
{
    let mut line: Vec<u8> = Vec::new();
    let mut i: usize = 0;
    proof {
        assert(numbers@.skip(0) =~= numbers@);
        assert(line@ + joined(numbers@) =~= joined(numbers@));
    }
    while i < numbers.len()
        invariant
            i <= numbers@.len(),
            joined(numbers@) == line@ + joined(numbers@.skip(i as int)),
        decreases numbers@.len() - i,
    {
        let ghost before = line@;
        let ghost rest = numbers@.skip(i as int);
        proof {
            assert(rest[0] == numbers@[i as int]);
            assert(rest.skip(1) =~= numbers@.skip(i + 1));
        }
        push_decimal(&mut line, numbers[i]);
        if i + 1 < numbers.len() {
            line.push(COMMA);
            proof {
                assert(before + (decimal(rest[0] as nat) + seq![COMMA] + joined(rest.skip(1)))
                    =~= line@ + joined(rest.skip(1)));
            }
        } else {
            proof {
                assert(rest.len() == 1);
                assert(joined(rest.skip(1)) =~= Seq::<u8>::empty());
                assert(before + decimal(rest[0] as nat) =~= line@ + joined(rest.skip(1)));
            }
        }
        i = i + 1;
    }
    proof {
        assert(joined(numbers@.skip(numbers@.len() as int)) =~= Seq::<u8>::empty());
        assert(line@ + Seq::<u8>::empty() =~= line@);
    }
    line.push(LINE_FEED);
    line
}

/// The decimal digits of a number are digits, at least one, and spell the
/// number.
pub proof fn lemma_decimal(n: nat)
    ensures
        decimal(n).len() > 0,
        all_digits(decimal(n)),
        digits_value(decimal(n)) == n,
    decreases n,
{
    if n < 10 {
        let s = decimal(n);
        assert(s.drop_last() =~= Seq::<u8>::empty());
        assert(digits_value(s.drop_last()) == 0);
    } else {
        lemma_decimal(n / 10);
        let front = decimal(n / 10);
        let s = decimal(n);
        assert(s.drop_last() =~= front);
        assert forall|i: int| 0 <= i < s.len() implies is_digit(#[trigger] s[i]) by {
            if i < front.len() {
                assert(s[i] == front[i]);
            }
        }
    }
}

/// The decimal digits of an amount are read as that amount.
pub proof fn lemma_number_of_decimal(amount: u32)
    ensures
        number_of(decimal(amount as nat)) == Some(amount),
{
    lemma_decimal(amount as nat);
    let s = decimal(amount as nat);
    assert(is_digit(s[0]));
}

/// The amounts of a record, written with commas between them, are read as
/// the record.
pub proof fn lemma_record_of_joined(numbers: Seq<u32>)
    requires
        numbers.len() > 0,
    ensures
        joined(numbers).len() > 0,
        forall|i: int|
            0 <= i < joined(numbers).len() ==> is_digit(#[trigger] joined(numbers)[i]) || joined(
                numbers,
            )[i] == COMMA,
        is_digit(joined(numbers).last()),
        record_of(joined(numbers)) == Some(numbers),
    decreases numbers.len(),
{
    let first = decimal(numbers[0] as nat);
    let line = joined(numbers);
    lemma_decimal(numbers[0] as nat);
    lemma_number_of_decimal(numbers[0]);
    if numbers.len() == 1 {
        assert forall|j: int| 0 <= j < line.len() implies line[j] != COMMA by {
            assert(is_digit(line[j]));
        }
        lemma_first_of(line, COMMA, line.len() as int);
        assert(seq![numbers[0]] =~= numbers);
    } else {
        let rest = joined(numbers.skip(1));
        lemma_record_of_joined(numbers.skip(1));
        assert forall|j: int| 0 <= j < first.len() implies line[j] != COMMA by {
            assert(line[j] == first[j]);
            assert(is_digit(first[j]));
        }
        assert(line[first.len() as int] == COMMA);
        lemma_first_of(line, COMMA, first.len() as int);
        assert(line.take(first.len() as int) =~= first);
        assert(line.skip(first.len() as int + 1) =~= rest);
        assert(seq![numbers[0]] + numbers.skip(1) =~= numbers);
        assert forall|i: int| 0 <= i < line.len() implies is_digit(#[trigger] line[i]) || line[i]
            == COMMA by {
            if i < first.len() {
                assert(line[i] == first[i]);
            } else if i > first.len() {
                assert(line[i] == rest[i - first.len() - 1]);
            }
        }
        assert(line.last() == rest.last());
    }
}

/// A line that was written for a record, with any text after it, is read
/// as that record, followed by what the text holds.
pub proof fn lemma_written_line_is_read(numbers: Seq<u32>, text: Seq<u8>)
    requires
        numbers.len() > 0,
    ensures
        prices_of(csv_line(numbers) + text) == join_records(seq![numbers], prices_of(text)),
{
    let line = joined(numbers);
    let all = csv_line(numbers) + text;
    lemma_record_of_joined(numbers);
    assert forall|j: int| 0 <= j < line.len() implies all[j] != LINE_FEED by {
        assert(all[j] == line[j]);
        assert(is_digit(line[j]) || line[j] == COMMA);
    }
    assert(all[line.len() as int] == LINE_FEED);
    lemma_first_of(all, LINE_FEED, line.len() as int);
    assert(all.take(line.len() as int) =~= line);
    assert(all.skip(line.len() as int + 1) =~= text);
    assert(strip_cr(line) == line);
}

} // verus!
