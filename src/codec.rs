//! The flat-file format of a store: one record per line, each written as
//! `KEY-BOOL-MESSAGE`, where KEY is a decimal integer and BOOL is `true` or
//! `false`. Lines are separated by `'\n'`.
use crate::todo::{view_entries, Todo, TodoV};
use vstd::prelude::*;

verus! {

/// Why a key field could not be read as a 32-bit unsigned integer.
#[derive(Clone, Copy, Debug, PartialEq, Eq, Structural)]
pub enum IntErrorKind {
    /// The field holds no character.
    Empty,
    /// The field holds a character that is not an ASCII digit.
    InvalidDigit,
    /// The digits denote a number above `u32::MAX`.
    PosOverflow,
}

/// Why a line could not be read as a record.
#[derive(Clone, Copy, Debug, PartialEq, Eq, Structural)]
pub enum LineFault {
    /// The line lacks one of the two `-` separators.
    MissingField,
    /// The key field is not a valid key.
    BadKey(IntErrorKind),
}

pub open spec fn is_digit(c: char) -> bool {
    '0' <= c && c <= '9'
}

pub open spec fn digit_value(c: char) -> nat {
    (c as nat - '0' as nat) as nat
}

pub open spec fn digit_char(d: nat) -> char {
    (('0' as nat) + d) as char
}

pub open spec fn all_digits(s: Seq<char>) -> bool {
    forall|i: int| 0 <= i < s.len() ==> is_digit(#[trigger] s[i])
}

/// The number that a sequence of decimal digits denotes (most significant first).
pub open spec fn digits_value(s: Seq<char>) -> nat
    decreases s.len(),
{
    if s.len() == 0 {
        0
    } else {
        digits_value(s.drop_last()) * 10 + digit_value(s.last())
    }
}

/// What reading `s` as a key gives: one or more ASCII digits whose value fits in a `u32`.
pub open spec fn key_result(s: Seq<char>) -> Result<u32, IntErrorKind> {
    if s.len() == 0 {
        Err(IntErrorKind::Empty)
    } else if !all_digits(s) {
        Err(IntErrorKind::InvalidDigit)
    } else if digits_value(s) > u32::MAX {
        Err(IntErrorKind::PosOverflow)
    } else {
        Ok(digits_value(s) as u32)
    }
}

/// The shortest decimal writing of `n` ("0" for zero).
pub open spec fn decimal(n: nat) -> Seq<char>
    decreases n,
{
    if n < 10 {
        seq![digit_char(n)]
    } else {
        decimal(n / 10).push(digit_char(n % 10))
    }
}

/// Relies on `String::push`: it appends one character to the end of the string.
#[verifier::external_body]
fn push_char(s: &mut String, c: char)
    ensures
        final(s)@ == old(s)@.push(c),
{
    s.push(c);
}

/// Appends the decimal writing of `n` to `out`.
pub fn push_decimal(out: &mut String, n: u32)
    ensures
        final(out)@ == old(out)@ + decimal(n as nat),
    decreases n,
{
    if n >= 10 {
        push_decimal(out, n / 10);
    }
    let d: u8 = (n % 10) as u8;
    let c = (48u8 + d) as char;
    assert(c == digit_char((n % 10) as nat));
    push_char(out, c);
    assert(final(out)@ =~= old(out)@ + decimal(n as nat));
}

/// The decimal writing of a number is a non-empty run of digits that reads back as the number.
pub proof fn lemma_decimal_reads_back(n: nat)
    ensures
        decimal(n).len() >= 1,
        all_digits(decimal(n)),
        digits_value(decimal(n)) == n,
    decreases n,
{
    if n >= 10 {
        lemma_decimal_reads_back(n / 10);
        assert(decimal(n).drop_last() =~= decimal(n / 10));
        assert((n / 10) * 10 + n % 10 == n) by (nonlinear_arith);
        assert(digit_value(digit_char(n % 10)) == n % 10);
        let d = decimal(n);
        assert(d.last() == digit_char(n % 10));
        assert(digits_value(d) == digits_value(d.drop_last()) * 10 + digit_value(d.last()));
    } else {
        assert(decimal(n).drop_last() =~= Seq::<char>::empty());
        assert(digit_value(digit_char(n)) == n);
        let d = decimal(n);
        assert(digits_value(d.drop_last()) == 0);
        assert(digits_value(d) == digits_value(d.drop_last()) * 10 + digit_value(d.last()));
    }
}

/// The characters of `s`, in order.
pub fn chars_of(s: &str) -> (r: Vec<char>)
    ensures
        r@ == s@,
{
    let mut r: Vec<char> = Vec::new();
    for c in it: s.chars()
        invariant
            r@ == it.seq().take(it.index() as int),
            it.seq() == s@,
    {
        r.push(c);
    }
    r
}

/// Reads `s[from..to]` as a key.
pub fn parse_key(s: &Vec<char>, from: usize, to: usize) -> (r: Result<u32, IntErrorKind>)
    requires
        from <= to <= s.len(),
    ensures
        r == key_result(s@.subrange(from as int, to as int)),
{
    let ghost t = s@.subrange(from as int, to as int);
    if from == to {
        return Err(IntErrorKind::Empty);
    }
    let mut i: usize = from;
    while i < to
        invariant
            from <= i <= to <= s.len(),
            t == s@.subrange(from as int, to as int),
            all_digits(s@.subrange(from as int, i as int)),
        decreases to - i,
    {
        if !('0' <= s[i] && s[i] <= '9') {
            assert(!all_digits(t)) by {
                assert(t[i - from] == s@[i as int]);
            }
            return Err(IntErrorKind::InvalidDigit);
        }
        assert(s@.subrange(from as int, i + 1) =~= s@.subrange(from as int, i as int).push(s@[i as int]));
        i = i + 1;
    }
    assert(s@.subrange(from as int, to as int) =~= t);
    let mut value: u64 = 0;
    let mut j: usize = from;
    while j < to
        invariant
            from <= j <= to <= s.len(),
            t == s@.subrange(from as int, to as int),
            all_digits(t),
            value == digits_value(s@.subrange(from as int, j as int)),
            value <= u32::MAX,
        decreases to - j,
    {
        let ghost prefix = s@.subrange(from as int, j as int);
        assert(s@.subrange(from as int, j + 1) =~= prefix.push(s@[j as int]));
        assert(s@.subrange(from as int, j + 1).drop_last() =~= prefix);
        assert(is_digit(t[j - from]));
        let d = (s[j] as u32 - '0' as u32) as u64;
        value = value * 10 + d;
        if value > u32::MAX as u64 {
            proof {
                lemma_digits_value_prefix(t, j + 1 - from);
                assert(t.subrange(0, j + 1 - from) =~= s@.subrange(from as int, j + 1));
            }
            return Err(IntErrorKind::PosOverflow);
        }
        j = j + 1;
    }
    assert(s@.subrange(from as int, j as int) =~= t);
    Ok(value as u32)
}

/// Reads all of `s` as a key.
pub fn parse_key_text(s: &str) -> (r: Result<u32, IntErrorKind>)
    ensures
        r == key_result(s@),
{
    let chars = chars_of(s);
    assert(chars@.subrange(0, chars.len() as int) =~= s@);
    parse_key(&chars, 0, chars.len())
}

/// The value of a digit sequence is at least that of any of its prefixes.
proof fn lemma_digits_value_prefix(s: Seq<char>, n: int)
    requires
        0 <= n <= s.len(),
        all_digits(s),
    ensures
        digits_value(s.subrange(0, n)) <= digits_value(s),
    decreases s.len(),
{
    if n < s.len() {
        assert(s.drop_last() =~= s.subrange(0, s.len() - 1));
        assert(s.subrange(0, s.len() - 1).subrange(0, n) =~= s.subrange(0, n));
        lemma_digits_value_prefix(s.drop_last(), n);
    } else {
        assert(s.subrange(0, n) =~= s);
    }
}

/// The pieces of `s` between occurrences of `sep`, in order; there is always at
/// least one piece, and `sep` itself belongs to none.
pub open spec fn split_on(s: Seq<char>, sep: char) -> Seq<Seq<char>>
    decreases s.len(),
{
    if s.len() == 0 {
        seq![Seq::empty()]
    } else {
        let init = split_on(s.drop_last(), sep);
        if s.last() == sep {
            init.push(Seq::empty())
        } else {
            init.update(init.len() - 1, init.last().push(s.last()))
        }
    }
}

pub open spec fn true_text() -> Seq<char> {
    seq!['t', 'r', 'u', 'e']
}

pub open spec fn false_text() -> Seq<char> {
    seq!['f', 'a', 'l', 's', 'e']
}

/// What reading one line as a record gives. The key is the text before the first
/// `-`; the flag is the text between the first and the second `-`, true exactly
/// when it reads `true`; the message is all that follows the second `-`, further
/// `-` included. A bad key is reported before a missing separator.
pub open spec fn record_result(line: Seq<char>) -> Result<(u32, TodoV), LineFault> {
    let first = line.index_of_first('-');
    let key_text = match first {
        Some(a) => line.take(a),
        None => line,
    };
    match key_result(key_text) {
        Err(k) => Err(LineFault::BadKey(k)),
        Ok(key) => match first {
            None => Err(LineFault::MissingField),
            Some(a) => {
                let rest = line.skip(a + 1);
                match rest.index_of_first('-') {
                    None => Err(LineFault::MissingField),
                    Some(b) => Ok((key, (rest.skip(b + 1), rest.take(b) == true_text()))),
                }
            },
        },
    }
}

/// A first occurrence found by scanning is the one that `index_of_first` names.
proof fn lemma_first_index(s: Seq<char>, c: char, i: int)
    requires
        0 <= i <= s.len(),
        forall|j: int| 0 <= j < i ==> s[j] != c,
        i < s.len() ==> s[i] == c,
    ensures
        s.index_of_first(c) == (if i < s.len() { Some(i) } else { None::<int> }),
{
    s.index_of_first_ensures(c);
    match s.index_of_first(c) {
        Some(k) => {
            assert(s[k] == c);
        },
        None => {
            if i < s.len() {
                assert(s.contains(c));
            }
        },
    }
}

/// The first index at or after `from` where `s` holds `c`, or `s.len()` if none.
fn find_char(s: &Vec<char>, from: usize, c: char) -> (r: usize)
    requires
        from <= s.len(),
    ensures
        from <= r <= s.len(),
        r < s.len() ==> s@[r as int] == c,
        forall|j: int| from <= j < r ==> s@[j] != c,
{
    let mut i: usize = from;
    while i < s.len()
        invariant
            from <= i <= s.len(),
            forall|j: int| from <= j < i ==> s@[j] != c,
        decreases s.len() - i,
    {
        if s[i] == c {
            return i;
        }
        i = i + 1;
    }
    i
}

/// The characters `s[from..]` as a string.
fn string_from(s: &Vec<char>, from: usize) -> (r: String)
    requires
        from <= s.len(),
    ensures
        r@ == s@.skip(from as int),
{
    let mut r = String::new();
    let mut i: usize = from;
    while i < s.len()
        invariant
            from <= i <= s.len(),
            r@ == s@.subrange(from as int, i as int),
        decreases s.len() - i,
    {
        push_char(&mut r, s[i]);
        assert(r@ =~= s@.subrange(from as int, i + 1));
        i = i + 1;
    }
    assert(r@ =~= s@.skip(from as int));
    r
}

/// Reads one line as a record.
pub fn parse_record(line: &Vec<char>) -> (r: Result<(u32, Todo), LineFault>)
    ensures
        match record_result(line@) {
            Ok((key, t)) => r matches Ok((k, todo)) && k == key && todo@ == t,
            Err(e) => r == Err::<(u32, Todo), LineFault>(e),
        },
{
    let a = find_char(line, 0, '-');
    proof {
        lemma_first_index(line@, '-', a as int);
        assert(line@.take(a as int) =~= line@.subrange(0, a as int));
        assert(line@ =~= line@.subrange(0, line.len() as int));
    }
    let key = match parse_key(line, 0, a) {
        Ok(k) => k,
        Err(e) => return Err(LineFault::BadKey(e)),
    };
    if a == line.len() {
        return Err(LineFault::MissingField);
    }
    let b = find_char(line, a + 1, '-');
    let ghost rest = line@.skip(a + 1);
    proof {
        assert forall|j: int| 0 <= j < b - (a + 1) implies rest[j] != '-' by {
            assert(rest[j] == line@[j + a + 1]);
        }
        lemma_first_index(rest, '-', b - (a + 1));
    }
    if b == line.len() {
        return Err(LineFault::MissingField);
    }
    let resolved = b - a - 1 == 4 && line[a + 1] == 't' && line[a + 2] == 'r' && line[a + 3] == 'u'
        && line[a + 4] == 'e';
    proof {
        let flag = rest.take(b - (a + 1));
        if resolved {
            assert(flag =~= true_text());
        } else if flag.len() == 4 {
            assert(flag[0] == line@[a + 1]);
            assert(flag[1] == line@[a + 2]);
            assert(flag[2] == line@[a + 3]);
            assert(flag[3] == line@[a + 4]);
            assert(flag != true_text()) by {
                if flag == true_text() {
                    assert(flag[0] == 't' && flag[1] == 'r' && flag[2] == 'u' && flag[3] == 'e');
                }
            }
        }
    }
    let message = string_from(line, b + 1);
    assert(message@ =~= rest.skip(b - (a + 1) + 1));
    Ok((key, Todo { message, resolved }))
}

/// The lines of `text`: the pieces between `'\n'` characters.
fn split_lines(text: &Vec<char>) -> (r: Vec<Vec<char>>)
    ensures
        r@.map_values(|l: Vec<char>| l@) == split_on(text@, '\n'),
{
    let mut lines: Vec<Vec<char>> = Vec::new();
    let mut cur: Vec<char> = Vec::new();
    let mut i: usize = 0;
    while i < text.len()
        invariant
            i <= text.len(),
            lines@.map_values(|l: Vec<char>| l@).push(cur@) == split_on(text@.take(i as int), '\n'),
        decreases text.len() - i,
    {
        let ghost before = lines@.map_values(|l: Vec<char>| l@).push(cur@);
        assert(text@.take(i + 1).drop_last() =~= text@.take(i as int));
        if text[i] == '\n' {
            lines.push(cur);
            cur = Vec::new();
            assert(lines@.map_values(|l: Vec<char>| l@).push(cur@) =~= before.push(Seq::empty()));
        } else {
            cur.push(text[i]);
            assert(lines@.map_values(|l: Vec<char>| l@).push(cur@) =~= before.update(
                before.len() - 1,
                before.last().push(text@[i as int]),
            ));
        }
        i = i + 1;
    }
    assert(text@.take(i as int) =~= text@);
    lines.push(cur);
    assert(lines@.map_values(|l: Vec<char>| l@) =~= split_on(text@, '\n'));
    lines
}

/// What reading a sequence of lines gives: the records of the non-empty lines in
/// order, or the fault of the first non-empty line that is not a record.
pub open spec fn records_result(lines: Seq<Seq<char>>) -> Result<Seq<(u32, TodoV)>, LineFault>
    decreases lines.len(),
{
    if lines.len() == 0 {
        Ok(Seq::empty())
    } else {
        match records_result(lines.drop_last()) {
            Err(e) => Err(e),
            Ok(recs) => if lines.last().len() == 0 {
                Ok(recs)
            } else {
                match record_result(lines.last()) {
                    Err(e) => Err(e),
                    Ok(rec) => Ok(recs.push(rec)),
                }
            },
        }
    }
}

/// What reading a whole text gives.
pub open spec fn decode_result(text: Seq<char>) -> Result<Seq<(u32, TodoV)>, LineFault> {
    records_result(split_on(text, '\n'))
}

/// Reads every non-empty line of `text` as a record; stops at the first line that is not one.
pub fn parse_records(text: &str) -> (r: Result<Vec<(u32, Todo)>, LineFault>)
    ensures
        match decode_result(text@) {
            Ok(recs) => r matches Ok(v) && view_entries(v@) == recs,
            Err(e) => r == Err::<Vec<(u32, Todo)>, LineFault>(e),
        },
{
    let chars = chars_of(text);
    let lines = split_lines(&chars);
    let ghost ls = lines@.map_values(|l: Vec<char>| l@);
    let mut recs: Vec<(u32, Todo)> = Vec::new();
    let mut i: usize = 0;
    assert(ls.take(0) =~= Seq::<Seq<char>>::empty());
    assert(view_entries(recs@) =~= Seq::<(u32, TodoV)>::empty());
    while i < lines.len()
        invariant
            i <= lines.len(),
            ls == lines@.map_values(|l: Vec<char>| l@),
            ls == split_on(text@, '\n'),
            records_result(ls.take(i as int)) == Ok::<Seq<(u32, TodoV)>, LineFault>(
                view_entries(recs@),
            ),
        decreases lines.len() - i,
    {
        assert(ls.take(i + 1).drop_last() =~= ls.take(i as int));
        assert(ls.take(i + 1).last() == lines@[i as int]@);
        if lines[i].len() > 0 {
            match parse_record(&lines[i]) {
                Ok(rec) => {
                    let ghost prev = view_entries(recs@);
                    assert(record_result(ls.take(i + 1).last()) == Ok::<(u32, TodoV), LineFault>(
                        (rec.0, rec.1@),
                    ));
                    recs.push(rec);
                    assert(view_entries(recs@) =~= prev.push((rec.0, rec.1@)));
                },
                Err(e) => {
                    proof {
                        lemma_records_result_err(ls, i as int + 1);
                        assert(ls.take(i + 1).take(i + 1) =~= ls.take(i + 1));
                    }
                    return Err(e);
                },
            }
        }
        i = i + 1;
    }
    assert(ls.take(i as int) =~= ls);
    Ok(recs)
}

/// Once a prefix of the lines fails, the whole sequence fails with the same fault.
proof fn lemma_records_result_err(lines: Seq<Seq<char>>, n: int)
    requires
        0 <= n <= lines.len(),
        records_result(lines.take(n)) is Err,
    ensures
        records_result(lines) == records_result(lines.take(n)),
    decreases lines.len(),
{
    if n < lines.len() {
        assert(lines.drop_last().take(n) =~= lines.take(n));
        lemma_records_result_err(lines.drop_last(), n);
    } else {
        assert(lines.take(n) =~= lines);
    }
}

/// A message as it is written to a line: without its `'\n'` characters.
pub open spec fn strip_newlines(m: Seq<char>) -> Seq<char> {
    m.filter(|c: char| c != '\n')
}

pub open spec fn flag_text(b: bool) -> Seq<char> {
    if b {
        true_text()
    } else {
        false_text()
    }
}

/// The line that records the task `t` under `key`.
pub open spec fn record_text(key: u32, t: TodoV) -> Seq<char> {
    decimal(key as nat) + seq!['-'] + flag_text(t.1) + seq!['-'] + strip_newlines(t.0)
}

/// The text of a sequence of records: their lines joined by `'\n'`, with no
/// newline after the last one.
pub open spec fn encode_entries(s: Seq<(u32, TodoV)>) -> Seq<char>
    decreases s.len(),
{
    if s.len() == 0 {
        Seq::empty()
    } else if s.len() == 1 {
        record_text(s[0].0, s[0].1)
    } else {
        encode_entries(s.drop_last()) + seq!['\n'] + record_text(s.last().0, s.last().1)
    }
}

/// Appends `s` to `out`.
fn push_str(out: &mut String, s: &str)
    ensures
        final(out)@ == old(out)@ + s@,
{
    out.append(s);
}

/// Appends `m` without its `'\n'` characters to `out`.
fn push_stripped(out: &mut String, m: &String)
    ensures
        final(out)@ == old(out)@ + strip_newlines(m@),
{
    let chars = chars_of(m.as_str());
    let mut i: usize = 0;
    while i < chars.len()
        invariant
            i <= chars.len(),
            chars@ == m@,
            out@ == old(out)@ + strip_newlines(chars@.take(i as int)),
        decreases chars.len() - i,
    {
        let c = chars[i];
        proof {
            assert(chars@.take(i + 1) =~= chars@.take(i as int).push(c));
            chars@.take(i as int).lemma_filter_push(c, |c: char| c != '\n');
        }
        if c != '\n' {
            push_char(out, c);
        }
        assert(out@ =~= old(out)@ + strip_newlines(chars@.take(i + 1)));
        i = i + 1;
    }
    assert(chars@.take(i as int) =~= m@);
}

/// Appends the line of the task `t` under `key` to `out`.
fn push_record(out: &mut String, key: u32, t: &Todo)
    ensures
        final(out)@ == old(out)@ + record_text(key, t@),
{
    push_decimal(out, key);
    push_str(out, "-");
    if t.resolved {
        push_str(out, "true");
    } else {
        push_str(out, "false");
    }
    push_str(out, "-");
    push_stripped(out, &t.message);
    proof {
        reveal_strlit("-");
        reveal_strlit("true");
        reveal_strlit("false");
    }
    assert(final(out)@ =~= old(out)@ + record_text(key, t@));
}

/// The text of a sequence of records.
pub fn encode_records(entries: &Vec<(u32, Todo)>) -> (r: String)
    ensures
        r@ == encode_entries(view_entries(entries@)),
{
    let ghost es = view_entries(entries@);
    let mut out = String::new();
    let mut i: usize = 0;
    while i < entries.len()
        invariant
            i <= entries.len(),
            es == view_entries(entries@),
            out@ == encode_entries(es.take(i as int)),
        decreases entries.len() - i,
    {
        let ghost before = out@;
        assert(es.take(i + 1).drop_last() =~= es.take(i as int));
        if i > 0 {
            push_str(&mut out, "\n");
            proof {
                reveal_strlit("\n");
            }
        }
        push_record(&mut out, entries[i].0, &entries[i].1);
        proof {
            if i == 0 {
                assert(es.take(1)[0] == es[0]);
            }
            assert(es.take(i + 1).last() == es[i as int]);
        }
        assert(out@ =~= encode_entries(es.take(i + 1)));
        i = i + 1;
    }
    assert(es.take(i as int) =~= es);
    out
}

/// The lines that record each entry of `s`, in order.
pub open spec fn record_lines(s: Seq<(u32, TodoV)>) -> Seq<Seq<char>> {
    s.map_values(|e: (u32, TodoV)| record_text(e.0, e.1))
}

/// The entries of `s` with the `'\n'` characters taken out of their messages.
pub open spec fn stripped(s: Seq<(u32, TodoV)>) -> Seq<(u32, TodoV)> {
    s.map_values(|e: (u32, TodoV)| (e.0, (strip_newlines(e.1.0), e.1.1)))
}

proof fn lemma_split_len(s: Seq<char>, sep: char)
    ensures
        split_on(s, sep).len() >= 1,
    decreases s.len(),
{
    if s.len() > 0 {
        lemma_split_len(s.drop_last(), sep);
    }
}

/// Splitting text that holds no separator gives the text as its only piece.
proof fn lemma_split_single(s: Seq<char>, sep: char)
    requires
        forall|i: int| 0 <= i < s.len() ==> s[i] != sep,
    ensures
        split_on(s, sep) == seq![s],
    decreases s.len(),
{
    if s.len() > 0 {
        lemma_split_single(s.drop_last(), sep);
        assert(s.last() != sep);
        assert(s.drop_last().push(s.last()) =~= s);
        assert(split_on(s, sep) =~= seq![s]);
    } else {
        assert(s =~= Seq::<char>::empty());
    }
}

/// Splitting `x`, a separator, then `y` gives the pieces of `x` followed by those of `y`.
proof fn lemma_split_concat(x: Seq<char>, y: Seq<char>, sep: char)
    ensures
        split_on(x + seq![sep] + y, sep) == split_on(x, sep) + split_on(y, sep),
    decreases y.len(),
{
    let z = x + seq![sep] + y;
    if y.len() == 0 {
        assert(z.drop_last() =~= x);
        assert(split_on(z, sep) =~= split_on(x, sep) + split_on(y, sep));
    } else {
        assert(z.drop_last() =~= x + seq![sep] + y.drop_last());
        lemma_split_concat(x, y.drop_last(), sep);
        lemma_split_len(y.drop_last(), sep);
        assert(split_on(z, sep) =~= split_on(x, sep) + split_on(y, sep));
    }
}

/// A message with no newline is written as it is.
pub proof fn lemma_strip_no_newline(m: Seq<char>)
    requires
        !m.contains('\n'),
    ensures
        strip_newlines(m) == m,
    decreases m.len(),
{
    if m.len() > 0 {
        let init = m.drop_last();
        assert(!init.contains('\n')) by {
            if init.contains('\n') {
                let i = choose|i: int| 0 <= i < init.len() && init[i] == '\n';
                assert(m[i] == '\n');
            }
        }
        lemma_strip_no_newline(init);
        init.lemma_filter_push(m.last(), |c: char| c != '\n');
        assert(init.push(m.last()) =~= m);
    }
}

/// A record's line is non-empty, holds no newline, and reads back as the record
/// with the newlines taken out of its message.
proof fn lemma_record_reads_back(key: u32, t: TodoV)
    ensures
        record_text(key, t).len() > 0,
        forall|i: int| 0 <= i < record_text(key, t).len() ==> record_text(key, t)[i] != '\n',
        record_result(record_text(key, t)) == Ok::<(u32, TodoV), LineFault>(
            (key, (strip_newlines(t.0), t.1)),
        ),
{
    let d = decimal(key as nat);
    let f = flag_text(t.1);
    let m = strip_newlines(t.0);
    let line = record_text(key, t);
    lemma_decimal_reads_back(key as nat);
    assert(line =~= d + seq!['-'] + f + seq!['-'] + m);
    assert forall|i: int| 0 <= i < m.len() implies m[i] != '\n' by {
        t.0.lemma_filter_pred(|c: char| c != '\n', i);
    }
    assert forall|i: int| 0 <= i < f.len() implies f[i] != '-' && f[i] != '\n' by {
        if t.1 {
            assert(f =~= true_text());
        } else {
            assert(f =~= false_text());
        }
    }
    assert forall|i: int| 0 <= i < line.len() implies line[i] != '\n' by {
        if i < d.len() {
            assert(is_digit(d[i]));
        } else if i > d.len() && i < d.len() + 1 + f.len() {
            assert(line[i] == f[i - d.len() - 1]);
        } else if i > d.len() + 1 + f.len() {
            assert(line[i] == m[i - d.len() - 2 - f.len()]);
        }
    }
    assert forall|j: int| 0 <= j < d.len() implies line[j] != '-' by {
        assert(is_digit(d[j]));
    }
    lemma_first_index(line, '-', d.len() as int);
    assert(line.take(d.len() as int) =~= d);
    let rest = line.skip(d.len() as int + 1);
    assert(rest =~= f + seq!['-'] + m);
    lemma_first_index(rest, '-', f.len() as int);
    assert(rest.take(f.len() as int) =~= f);
    assert(rest.skip(f.len() as int + 1) =~= m);
    if t.1 {
        assert(f =~= true_text());
    } else {
        assert(f.len() != true_text().len());
    }
}

/// The lines of an encoded non-empty sequence are the lines of its records.
proof fn lemma_encode_lines(s: Seq<(u32, TodoV)>)
    requires
        s.len() >= 1,
    ensures
        split_on(encode_entries(s), '\n') == record_lines(s),
    decreases s.len(),
{
    let last = s.last();
    lemma_record_reads_back(last.0, last.1);
    if s.len() == 1 {
        lemma_split_single(record_text(s[0].0, s[0].1), '\n');
        assert(record_lines(s) =~= seq![record_text(s[0].0, s[0].1)]);
    } else {
        lemma_encode_lines(s.drop_last());
        lemma_split_concat(encode_entries(s.drop_last()), record_text(last.0, last.1), '\n');
        lemma_split_single(record_text(last.0, last.1), '\n');
        assert(record_lines(s) =~= record_lines(s.drop_last()) + seq![record_text(last.0, last.1)]);
    }
}

/// The lines of records read back as the records, messages without newlines.
proof fn lemma_record_lines_read_back(s: Seq<(u32, TodoV)>)
    ensures
        records_result(record_lines(s)) == Ok::<Seq<(u32, TodoV)>, LineFault>(stripped(s)),
    decreases s.len(),
{
    if s.len() == 0 {
        assert(stripped(s) =~= Seq::<(u32, TodoV)>::empty());
    } else {
        let last = s.last();
        lemma_record_lines_read_back(s.drop_last());
        lemma_record_reads_back(last.0, last.1);
        assert(record_lines(s).drop_last() =~= record_lines(s.drop_last()));
        assert(stripped(s) =~= stripped(s.drop_last()).push((last.0, (strip_newlines(last.1.0), last.1.1))));
    }
}

/// Reading the text of any sequence of records gives back those records, with the
/// newlines taken out of their messages.
pub proof fn lemma_decode_encode(s: Seq<(u32, TodoV)>)
    ensures
        decode_result(encode_entries(s)) == Ok::<Seq<(u32, TodoV)>, LineFault>(stripped(s)),
{
    if s.len() == 0 {
        assert(stripped(s) =~= Seq::<(u32, TodoV)>::empty());
        let lines = split_on(encode_entries(s), '\n');
        assert(encode_entries(s) =~= Seq::<char>::empty());
        assert(lines == seq![Seq::<char>::empty()]);
        assert(lines.drop_last() =~= Seq::<Seq<char>>::empty());
        assert(lines.last().len() == 0);
        assert(records_result(lines.drop_last()) == Ok::<Seq<(u32, TodoV)>, LineFault>(Seq::empty()));
    } else {
        lemma_encode_lines(s);
        lemma_record_lines_read_back(s);
    }
}

} // verus!
