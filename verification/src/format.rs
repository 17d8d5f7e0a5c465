//! The text in which a history is kept between runs: one line per record,
//! the name as it is written in a line, a tab, the count in decimal digits,
//! a line feed.

use crate::decay::{decay, decayed, lemma_decay_bounded, lemma_decay_monotonic};
use crate::escape::{
    escape, escaped, lemma_escaped_unbroken, lemma_unescape_escaped, unescape, unescaped,
};
use crate::history::{
    count_of, has_name, lemma_position_unique, names_distinct, History, Record,
};
use crate::text::to_chars;
use vstd::prelude::*;
use vstd::string::*;

verus! {

/// Whether `c` is a decimal digit.
pub open spec fn is_digit(c: char) -> bool {
    '0' <= c <= '9'
}

/// The value of a decimal digit.
pub open spec fn digit_value(c: char) -> nat {
    (c as u32 - 48) as nat
}

/// The digit for a value below ten.
pub open spec fn digit_char(d: nat) -> char {
    if d == 0 {
        '0'
    } else if d == 1 {
        '1'
    } else if d == 2 {
        '2'
    } else if d == 3 {
        '3'
    } else if d == 4 {
        '4'
    } else if d == 5 {
        '5'
    } else if d == 6 {
        '6'
    } else if d == 7 {
        '7'
    } else if d == 8 {
        '8'
    } else {
        '9'
    }
}

/// The decimal digits of `n`, without leading zeros.
pub open spec fn decimal(n: nat) -> Seq<char>
    decreases n,
{
    if n < 10 {
        seq![digit_char(n)]
    } else {
        decimal(n / 10).push(digit_char(n % 10))
    }
}

/// The number that a run of decimal digits stands for.
pub open spec fn number_of(digits: Seq<char>) -> nat
    decreases digits.len(),
{
    if digits.len() == 0 {
        0
    } else {
        10 * number_of(digits.drop_last()) + digit_value(digits.last())
    }
}

/// Whether every character of `digits` is a decimal digit.
pub open spec fn all_digits(digits: Seq<char>) -> bool {
    forall|i: int| 0 <= i < digits.len() ==> is_digit(#[trigger] digits[i])
}

/// The count that a field of a line stands for: at least one digit, digits
/// only, and a number that a count can hold.
pub open spec fn parse_number(digits: Seq<char>) -> Option<usize> {
    if digits.len() > 0 && all_digits(digits) && number_of(digits) <= usize::MAX {
        Some(number_of(digits) as usize)
    } else {
        None
    }
}

/// The digits of a number stand for that number.
pub proof fn lemma_decimal(n: nat)
    ensures
        decimal(n).len() > 0,
        all_digits(decimal(n)),
        number_of(decimal(n)) == n,
    decreases n,
{
    if n < 10 {
        assert(decimal(n).drop_last() =~= Seq::<char>::empty());
        assert(number_of(decimal(n).drop_last()) == 0);
    } else {
        lemma_decimal(n / 10);
        assert(decimal(n).drop_last() =~= decimal(n / 10));
        assert(decimal(n).last() == digit_char(n % 10));
    }
}

/// A number is at least the number that any of its leading digits stand for.
pub proof fn lemma_number_grows(digits: Seq<char>, k: int)
    requires
        0 <= k <= digits.len(),
    ensures
        number_of(digits.take(k)) <= number_of(digits),
    decreases digits.len() - k,
{
    if k < digits.len() {
        lemma_number_grows(digits, k + 1);
        assert(digits.take(k + 1).drop_last() =~= digits.take(k));
    } else {
        assert(digits.take(k) =~= digits);
    }
}

/// The count written in `chars` from `from` up to `to`.
pub fn number(chars: &Vec<char>, from: usize, to: usize) -> (count: Option<usize>)
    requires
        from <= to <= chars@.len(),
    ensures
        count == parse_number(chars@.subrange(from as int, to as int)),
{
    let ghost digits = chars@.subrange(from as int, to as int);
    if from == to {
        return None;
    }
    let mut value: usize = 0;
    let mut i: usize = from;
    assert(digits.take(0) =~= Seq::<char>::empty());
    while i < to
        invariant
            from <= i <= to <= chars@.len(),
            digits == chars@.subrange(from as int, to as int),
            all_digits(digits.take(i - from)),
            value == number_of(digits.take(i - from)),
        decreases to - i,
    {
        let c = chars[i];
        let ghost upto = digits.take(i - from + 1);
        proof {
            assert(upto.drop_last() =~= digits.take(i - from));
            assert(upto.last() == c);
            assert(digits[i - from] == c);
        }
        if c < '0' || c > '9' {
            return None;
        }
        let d: usize = (c as u32 - 48) as usize;
        proof {
            lemma_number_grows(digits, i - from + 1);
        }
        if value > (usize::MAX - d) / 10 {
            return None;
        }
        value = value * 10 + d;
        proof {
            assert forall|k: int| 0 <= k < upto.len() implies is_digit(#[trigger] upto[k]) by {
                if k < i - from {
                    assert(digits.take(i - from)[k] == upto[k]);
                }
            }
        }
        i = i + 1;
    }
    assert(digits.take(to - from) =~= digits);
    Some(value)
}

/// The place of the first `c` in `s`, or the length of `s` if there is none.
pub open spec fn first_index(s: Seq<char>, c: char) -> int
    decreases s.len(),
{
    if s.len() == 0 {
        0
    } else if s[0] == c {
        0
    } else {
        1 + first_index(s.drop_first(), c)
    }
}

/// A place before which no `c` stands, and which is the end or holds a `c`,
/// is the place of the first `c`.
pub proof fn lemma_first_index(s: Seq<char>, c: char, i: int)
    requires
        0 <= i <= s.len(),
        forall|k: int| 0 <= k < i ==> s[k] != c,
        i == s.len() || s[i] == c,
    ensures
        first_index(s, c) == i,
    decreases s.len(),
{
    if s.len() > 0 && i > 0 {
        let rest = s.drop_first();
        assert forall|k: int| 0 <= k < i - 1 implies rest[k] != c by {
            assert(rest[k] == s[k + 1]);
        }
        lemma_first_index(rest, c, i - 1);
    }
}

/// The record that one line (without its line feed) stands for: the name
/// that is written up to the first tab, and the count behind it.
pub open spec fn parse_line(line: Seq<char>) -> Option<Record> {
    let tab = first_index(line, '\t');
    if tab == line.len() {
        None
    } else {
        match (unescaped(line.take(tab)), parse_number(line.skip(tab + 1))) {
            (Some(name), Some(count)) => Some((name, count)),
            _ => None,
        }
    }
}

/// The records that the lines of `text` stand for, in their order; `None`
/// if a line is not a record or the last line has no line feed.
pub open spec fn lines(text: Seq<char>) -> Option<Seq<Record>>
    decreases text.len(),
{
    if text.len() == 0 {
        Some(Seq::empty())
    } else {
        let end = first_index(text, '\n');
        if !(0 <= end < text.len()) {
            None
        } else {
            match (parse_line(text.take(end)), lines(text.skip(end + 1))) {
                (Some(record), Some(rest)) => Some(seq![record] + rest),
                _ => None,
            }
        }
    }
}

/// The records that `text` stands for; `None` for a text that is no history:
/// one with a line that is not a record, or with a name on two lines.
pub open spec fn parsed(text: Seq<char>) -> Option<Seq<Record>> {
    match lines(text) {
        Some(records) => if names_distinct(records) {
            Some(records)
        } else {
            None
        },
        None => None,
    }
}

/// `records` followed by what `rest` holds, if it holds anything.
pub open spec fn followed_by(records: Seq<Record>, rest: Option<Seq<Record>>) -> Option<
    Seq<Record>,
> {
    match rest {
        Some(more) => Some(records + more),
        None => None,
    }
}

/// The first place from `from` up to `to` that holds `c`, or `to`.
pub fn find_char(chars: &Vec<char>, from: usize, to: usize, c: char) -> (at: usize)
    requires
        from <= to <= chars@.len(),
    ensures
        from <= at <= to,
        at - from == first_index(chars@.subrange(from as int, to as int), c),
{
    let mut at: usize = from;
    while at < to && chars[at] != c
        invariant
            from <= at <= to <= chars@.len(),
            forall|k: int| from <= k < at ==> chars@[k] != c,
        decreases to - at,
    {
        at = at + 1;
    }
    proof {
        lemma_first_index(chars@.subrange(from as int, to as int), c, at - from);
    }
    at
}

impl History {
    /// Reads a history from its text. `None` for a text that is no history.
    pub fn parse(text: &str) -> (outcome: Option<History>)
        ensures
            match outcome {
                Some(history) => history.wf() && parsed(text@) == Some(history.records()),
                None => parsed(text@) is None,
            },
    {
        let chars = to_chars(text);
        let total = chars.len();
        let mut history = History::new();
        let mut pos: usize = 0;
        assert(text@.skip(0) =~= text@);
        assert(Seq::<Record>::empty() + lines(text@)->0 =~= lines(text@)->0);
        while pos < total
            invariant
                chars@ == text@,
                total == chars@.len(),
                pos <= total,
                history.wf(),
                lines(text@) == followed_by(history.records(), lines(text@.skip(pos as int))),
            decreases total - pos,
        {
            let ghost tail = text@.skip(pos as int);
            let ghost before = history.records();
            let end = find_char(&chars, pos, total, '\n');
            assert(chars@.subrange(pos as int, total as int) =~= tail);
            if end == total {
                return None;
            }
            let ghost line = tail.take(end - pos);
            let tab = find_char(&chars, pos, end, '\t');
            assert(chars@.subrange(pos as int, end as int) =~= line);
            if tab == end {
                return None;
            }
            assert(chars@.subrange(tab + 1, end as int) =~= line.skip(tab - pos + 1));
            let count = match number(&chars, tab + 1, end) {
                Some(count) => count,
                None => {
                    return None;
                },
            };
            let field = text.substring_char(pos, tab);
            assert(field@ =~= line.take(tab - pos));
            let name = match unescape(field) {
                Some(name) => name,
                None => {
                    return None;
                },
            };
            assert(parse_line(line) == Some((name@, count)));
            assert(tail.skip(end - pos + 1) =~= text@.skip(end + 1));
            let ghost rest = lines(text@.skip(end + 1));
            assert(lines(tail) == match rest {
                Some(more) => Some(seq![(name@, count)] + more),
                None => None,
            });
            if history.get(name.as_str()).is_some() {
                proof {
                    if rest is Some {
                        let all = before + (seq![(name@, count)] + rest->0);
                        let p = crate::history::position(before, name@);
                        assert(all[p] == before[p]);
                        assert(all[before.len() as int] == (name@, count));
                        assert(!names_distinct(all));
                    }
                }
                return None;
            }
            history.insert(name.as_str(), count);
            proof {
                if rest is Some {
                    assert(before + (seq![(name@, count)] + rest->0) =~= before.push((name@, count))
                        + rest->0);
                }
            }
            pos = end + 1;
        }
        proof {
            assert(text@.skip(pos as int) =~= Seq::<char>::empty());
            assert(history.records() + Seq::<Record>::empty() =~= history.records());
            history.lemma_view();
        }
        Some(history)
    }
}

/// The line for one record, line feed included.
pub open spec fn line_of(record: Record) -> Seq<char> {
    escaped(record.0) + seq!['\t'] + decimal(record.1 as nat) + seq!['\n']
}

/// The text for `records`: their lines, one after the other.
pub open spec fn rendered(records: Seq<Record>) -> Seq<char>
    decreases records.len(),
{
    if records.len() == 0 {
        Seq::empty()
    } else {
        line_of(records[0]) + rendered(records.drop_first())
    }
}

/// The records after a decay: each count faded by the time that has
/// passed, and the records whose count has reached zero left out.
pub open spec fn faded(records: Seq<Record>, elapsed: nat, interval: nat) -> Seq<Record>
    decreases records.len(),
{
    if records.len() == 0 {
        Seq::empty()
    } else {
        let before = faded(records.drop_last(), elapsed, interval);
        let count = decayed(records.last().1 as nat, elapsed, interval);
        if count > 0 {
            before.push((records.last().0, count as usize))
        } else {
            before
        }
    }
}

/// The text for a list of records with one more record at its end is the
/// text for the list with one more line at its end.
pub proof fn lemma_rendered_push(records: Seq<Record>, record: Record)
    ensures
        rendered(records.push(record)) == rendered(records) + line_of(record),
    decreases records.len(),
{
    let longer = records.push(record);
    if records.len() == 0 {
        assert(longer.drop_first() =~= Seq::<Record>::empty());
        assert(longer[0] == record);
        assert(rendered(longer.drop_first()) =~= Seq::<char>::empty());
        assert(rendered(records) =~= Seq::<char>::empty());
        assert(rendered(longer) =~= line_of(record) + Seq::<char>::empty());
        assert(rendered(longer) =~= rendered(records) + line_of(record));
    } else {
        assert(longer.drop_first() =~= records.drop_first().push(record));
        lemma_rendered_push(records.drop_first(), record);
        assert(rendered(longer) =~= rendered(records) + line_of(record));
    }
}

/// A line in front of a text is read back as its record, and what follows
/// the line is the rest of the text.
pub proof fn lemma_line_read_back(record: Record, tail: Seq<char>)
    ensures
        ({
            let text = line_of(record) + tail;
            let end = first_index(text, '\n');
            &&& end == line_of(record).len() - 1
            &&& parse_line(text.take(end)) == Some(record)
            &&& text.skip(end + 1) == tail
        }),
{
    let name = escaped(record.0);
    let digits = decimal(record.1 as nat);
    lemma_decimal(record.1 as nat);
    lemma_escaped_unbroken(record.0);
    lemma_unescape_escaped(record.0);
    let text = line_of(record) + tail;
    let end: int = (name.len() + 1 + digits.len()) as int;
    assert forall|k: int| 0 <= k < end implies text[k] != '\n' by {
        if k < name.len() {
            assert(text[k] == name[k]);
        } else if k == name.len() {
            assert(text[k] == '\t');
        } else {
            assert(text[k] == digits[k - name.len() - 1]);
            assert(is_digit(digits[k - name.len() - 1]));
        }
    }
    assert(text[end] == '\n');
    lemma_first_index(text, '\n', end);
    let line = text.take(end);
    assert(line =~= name + seq!['\t'] + digits);
    assert forall|k: int| 0 <= k < name.len() implies line[k] != '\t' by {
        assert(line[k] == name[k]);
    }
    assert(line[name.len() as int] == '\t');
    lemma_first_index(line, '\t', name.len() as int);
    assert(line.skip(name.len() as int + 1) =~= digits);
    assert(line.take(name.len() as int) =~= name);
    assert(text.skip(end + 1) =~= tail);
}

/// The lines written for records are read back as these records.
pub proof fn lemma_lines_read_back(records: Seq<Record>)
    ensures
        lines(rendered(records)) == Some(records),
    decreases records.len(),
{
    if records.len() > 0 {
        let rest = records.drop_first();
        lemma_lines_read_back(rest);
        lemma_line_read_back(records[0], rendered(rest));
        assert(seq![records[0]] + rest =~= records);
    }
}

/// Writing a history and reading the text back gives the history again:
/// the same records in the same order, whatever characters the names hold.
pub proof fn lemma_write_then_read(records: Seq<Record>)
    requires
        names_distinct(records),
    ensures
        parsed(rendered(records)) == Some(records),
{
    lemma_lines_read_back(records);
}

/// What is left of a list of records after a decay has its names from the list.
pub proof fn lemma_kept_names(records: Seq<Record>, elapsed: nat, interval: nat, name: Seq<char>)
    ensures
        has_name(faded(records, elapsed, interval), name) ==> has_name(records, name),
    decreases records.len(),
{
    if records.len() > 0 {
        let front = records.drop_last();
        lemma_kept_names(front, elapsed, interval, name);
        let left = faded(records, elapsed, interval);
        if has_name(left, name) {
            let p = choose|p: int| 0 <= p < left.len() && (#[trigger] left[p]).0 == name;
            if p < faded(front, elapsed, interval).len() {
                assert(faded(front, elapsed, interval)[p] == left[p]);
                let q = choose|q: int| 0 <= q < front.len() && (#[trigger] front[q]).0 == name;
                assert(records[q] == front[q]);
            } else {
                assert(records[records.len() - 1].0 == name);
            }
        }
    }
}

/// The count of `name` among `records`, 0 where the name does not occur.
pub open spec fn count_or_zero(records: Seq<Record>, name: Seq<char>) -> nat {
    match count_of(records, name) {
        Some(count) => count as nat,
        None => 0,
    }
}

/// With distinct names, the count of a name is the count at the one place
/// where the name occurs, and 0 if it occurs nowhere.
proof fn lemma_count_at(records: Seq<Record>, name: Seq<char>)
    requires
        names_distinct(records),
    ensures
        forall|i: int|
            0 <= i < records.len() && (#[trigger] records[i]).0 == name ==> count_or_zero(
                records,
                name,
            ) == records[i].1,
        !has_name(records, name) ==> count_or_zero(records, name) == 0,
{
    assert forall|i: int| 0 <= i < records.len() && (#[trigger] records[i]).0
        == name implies count_or_zero(records, name) == records[i].1 by {
        lemma_position_unique(records, i);
    }
}

/// A decay keeps the names distinct and fades each count on its own: the
/// count of a name after the decay is the decayed count of that name, a
/// name that was not there or has faded to nothing counting as 0.
pub proof fn lemma_faded_count(records: Seq<Record>, elapsed: nat, interval: nat, name: Seq<char>)
    requires
        names_distinct(records),
    ensures
        names_distinct(faded(records, elapsed, interval)),
        count_or_zero(faded(records, elapsed, interval), name) == decayed(
            count_or_zero(records, name),
            elapsed,
            interval,
        ),
    decreases records.len(),
{
    let left = faded(records, elapsed, interval);
    lemma_decay_bounded(0, elapsed, interval);
    if records.len() == 0 {
        assert(!has_name(records, name));
        assert(!has_name(left, name));
    } else {
        let front = records.drop_last();
        let last = records.last();
        let before = faded(front, elapsed, interval);
        let count = decayed(last.1 as nat, elapsed, interval);
        assert forall|i: int, j: int| 0 <= i < j < front.len() implies (#[trigger] front[i]).0 != (
        #[trigger] front[j]).0 by {
            assert(front[i] == records[i] && front[j] == records[j]);
        }
        lemma_faded_count(front, elapsed, interval, name);
        lemma_kept_names(front, elapsed, interval, last.0);
        lemma_kept_names(front, elapsed, interval, name);
        lemma_decay_bounded(last.1 as nat, elapsed, interval);
        assert(!has_name(front, last.0)) by {
            if has_name(front, last.0) {
                let q = choose|q: int| 0 <= q < front.len() && (#[trigger] front[q]).0 == last.0;
                assert(records[q] == front[q]);
                assert(records[records.len() - 1] == last);
            }
        }
        assert(names_distinct(left)) by {
            assert forall|i: int, j: int| 0 <= i < j < left.len() implies (#[trigger] left[i]).0
                != (#[trigger] left[j]).0 by {
                assert(left[i] == before[i]);
                if j < before.len() {
                    assert(left[j] == before[j]);
                }
            }
        }
        lemma_count_at(records, name);
        lemma_count_at(front, name);
        lemma_count_at(left, name);
        lemma_count_at(before, name);
        if name == last.0 {
            assert(records[records.len() - 1].0 == name);
            if count > 0 {
                assert(left[left.len() - 1].0 == name);
            } else {
                assert(left == before);
            }
        } else {
            if has_name(front, name) {
                let q = choose|q: int| 0 <= q < front.len() && (#[trigger] front[q]).0 == name;
                assert(records[q] == front[q]);
            } else {
                assert(!has_name(records, name)) by {
                    if has_name(records, name) {
                        let q = choose|q: int|
                            0 <= q < records.len() && (#[trigger] records[q]).0 == name;
                        assert(front[q] == records[q]);
                    }
                }
            }
            if has_name(before, name) {
                let q = choose|q: int| 0 <= q < before.len() && (#[trigger] before[q]).0 == name;
                assert(left[q] == before[q]);
            } else {
                assert(!has_name(left, name)) by {
                    if has_name(left, name) {
                        let q = choose|q: int|
                            0 <= q < left.len() && (#[trigger] left[q]).0 == name;
                        assert(before[q] == left[q]);
                    }
                }
            }
        }
    }
}

/// The decay of a history is monotone: the longer ago the history was
/// written, the smaller (or equal) the count of every name after loading,
/// and no count is negative.
pub proof fn lemma_fade_monotonic(
    records: Seq<Record>,
    d1: nat,
    d2: nat,
    interval: nat,
    name: Seq<char>,
)
    requires
        names_distinct(records),
        d1 < d2,
    ensures
        count_or_zero(faded(records, d1, interval), name) >= count_or_zero(
            faded(records, d2, interval),
            name,
        ) >= 0,
{
    lemma_faded_count(records, d1, interval, name);
    lemma_faded_count(records, d2, interval, name);
    lemma_decay_monotonic(count_or_zero(records, name), d1, d2, interval);
}

/// The digit for a value below ten, as text.
pub fn digit_str(d: usize) -> (text: &'static str)
    requires
        d < 10,
    ensures
        text@ == seq![digit_char(d as nat)],
{
    proof {
        reveal_strlit("0");
        reveal_strlit("1");
        reveal_strlit("2");
        reveal_strlit("3");
        reveal_strlit("4");
        reveal_strlit("5");
        reveal_strlit("6");
        reveal_strlit("7");
        reveal_strlit("8");
        reveal_strlit("9");
    }
    let text = if d == 0 {
        "0"
    } else if d == 1 {
        "1"
    } else if d == 2 {
        "2"
    } else if d == 3 {
        "3"
    } else if d == 4 {
        "4"
    } else if d == 5 {
        "5"
    } else if d == 6 {
        "6"
    } else if d == 7 {
        "7"
    } else if d == 8 {
        "8"
    } else {
        "9"
    };
    assert(text@ =~= seq![digit_char(d as nat)]);
    text
}

/// A count in decimal digits.
pub fn decimal_string(n: usize) -> (text: String)
    ensures
        text@ == decimal(n as nat),
    decreases n,
{
    if n < 10 {
        digit_str(n).to_owned()
    } else {
        let mut text = decimal_string(n / 10);
        text.append(digit_str(n % 10));
        assert(text@ =~= decimal((n / 10) as nat).push(digit_char((n % 10) as nat)));
        text
    }
}

impl History {
    /// The text of the history, as it is written to its file: every record
    /// in its line, so that reading the text gives the same history again.
    pub fn render(&self) -> (text: String)
        requires
            self.wf(),
        ensures
            text@ == rendered(self.records()),
            parsed(text@) == Some(self.records()),
    {
        proof {
            reveal_strlit("\t");
            reveal_strlit("\n");
        }
        let mut text = String::new();
        let mut i: usize = 0;
        let ghost records = self.records();
        assert(records.take(0) =~= Seq::<Record>::empty());
        while i < self.len()
            invariant
                self.wf(),
                records == self.records(),
                i <= records.len(),
                text@ == rendered(records.take(i as int)),
                "\t"@ == seq!['\t'],
                "\n"@ == seq!['\n'],
            decreases records.len() - i,
        {
            let name = self.name_at(i);
            let count = self.count_at(i);
            let ghost before = text@;
            proof {
                assert(records.take(i + 1) =~= records.take(i as int).push(records[i as int]));
                lemma_rendered_push(records.take(i as int), records[i as int]);
            }
            text.append(escape(name.as_str()).as_str());
            text.append("\t");
            text.append(decimal_string(count).as_str());
            text.append("\n");
            assert(text@ =~= before + line_of(records[i as int]));
            i = i + 1;
        }
        proof {
            assert(records.take(records.len() as int) =~= records);
            self.lemma_view();
            lemma_write_then_read(records);
        }
        text
    }

    /// The history after a decay: every count faded by the time that has
    /// passed since the history was written, and the names whose count has
    /// reached zero forgotten.
    pub fn fade(&self, elapsed: u64, interval: u64) -> (left: History)
        requires
            self.wf(),
        ensures
            left.wf(),
            left.records() == faded(self.records(), elapsed as nat, interval as nat),
    {
        let mut left = History::new();
        let mut i: usize = 0;
        let ghost records = self.records();
        assert(records.take(0) =~= Seq::<Record>::empty());
        while i < self.len()
            invariant
                self.wf(),
                left.wf(),
                records == self.records(),
                i <= records.len(),
                left.records() == faded(records.take(i as int), elapsed as nat, interval as nat),
            decreases records.len() - i,
        {
            let name = self.name_at(i);
            let count = decay(self.count_at(i), elapsed, interval);
            proof {
                assert(records.take(i + 1).drop_last() =~= records.take(i as int));
                assert(records.take(i + 1).last() == records[i as int]);
                lemma_kept_names(records.take(i as int), elapsed as nat, interval as nat, name@);
                self.lemma_view();
                if has_name(records.take(i as int), name@) {
                    let q = choose|q: int|
                        0 <= q < i && (#[trigger] records.take(i as int)[q]).0 == name@;
                    assert(records[q].0 == records[i as int].0);
                }
            }
            if count > 0 {
                left.insert(name.as_str(), count);
            }
            i = i + 1;
        }
        assert(records.take(records.len() as int) =~= records);
        left
    }

    /// Loads a history from the text of its file, `elapsed` after the file
    /// was written: the records of the text, decayed. A text that is no
    /// history, the empty text of a missing file among them, gives the
    /// empty history: what is lost is a convenience, never a reason to fail.
    pub fn load(text: &str, elapsed: u64, interval: u64) -> (history: History)
        ensures
            history.wf(),
            history.records() == match parsed(text@) {
                Some(records) => faded(records, elapsed as nat, interval as nat),
                None => Seq::<Record>::empty(),
            },
    {
        match History::parse(text) {
            Some(stored) => stored.fade(elapsed, interval),
            None => History::new(),
        }
    }
}

} // verus!
