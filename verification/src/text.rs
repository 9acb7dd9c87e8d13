//! The text form of a record: its seven components in decimal, separated
//! by commas.

use vstd::prelude::*;
use vstd::string::{StrSliceExecFns, StringExecFns};
use crate::record::{Record, lemma_record_of_fields, record_of};

verus! {

/// The character of the decimal digit `d`.
pub open spec fn digit_char(d: int) -> char {
    if d == 0 {
        '0'
    } else if d == 1 {
        '1'
    } else if d == 2 {
        '2'
    } else if d == 3 {
        '3'
    } else if d == 4 {
        '4'
    } else if d == 5 {
        '5'
    } else if d == 6 {
        '6'
    } else if d == 7 {
        '7'
    } else if d == 8 {
        '8'
    } else {
        '9'
    }
}

/// Whether `c` is a decimal digit.
pub open spec fn is_digit(c: char) -> bool {
    c == '0' || c == '1' || c == '2' || c == '3' || c == '4' || c == '5' || c == '6' || c == '7'
        || c == '8' || c == '9'
}

/// The value of the decimal digit `c`.
pub open spec fn digit_value(c: char) -> int {
    if c == '0' {
        0
    } else if c == '1' {
        1
    } else if c == '2' {
        2
    } else if c == '3' {
        3
    } else if c == '4' {
        4
    } else if c == '5' {
        5
    } else if c == '6' {
        6
    } else if c == '7' {
        7
    } else if c == '8' {
        8
    } else {
        9
    }
}

/// The decimal digits of `n`, most significant first, without leading zeros.
pub open spec fn decimal(n: nat) -> Seq<char>
    decreases n,
{
    if n < 10 {
        seq![digit_char(n as int)]
    } else {
        decimal(n / 10).push(digit_char((n % 10) as int))
    }
}

/// The decimal text of `x`, with a minus sign if it is negative.
pub open spec fn int_text(x: int) -> Seq<char> {
    if x < 0 {
        seq!['-'] + decimal((-x) as nat)
    } else {
        decimal(x as nat)
    }
}

/// The decimal texts of the integers of `f`, separated by commas.
pub open spec fn fields_text(f: Seq<i32>) -> Seq<char>
    decreases f.len(),
{
    if f.len() == 0 {
        Seq::empty()
    } else if f.len() == 1 {
        int_text(f[0] as int)
    } else {
        fields_text(f.drop_last()).push(',') + int_text(f.last() as int)
    }
}

/// The text of a record.
pub open spec fn record_text(r: Record) -> Seq<char> {
    fields_text(r.fields())
}

/// The number that the decimal digits `d` stand for.
pub open spec fn digits_value(d: Seq<char>) -> int
    decreases d.len(),
{
    if d.len() == 0 {
        0
    } else {
        digits_value(d.drop_last()) * 10 + digit_value(d.last())
    }
}

/// `d` is one decimal digit or more.
pub open spec fn all_digits(d: Seq<char>) -> bool {
    d.len() > 0 && forall|i: int| 0 <= i < d.len() ==> is_digit(#[trigger] d[i])
}

/// The integer that a field of text stands for: an optional sign, then
/// decimal digits whose value fits in 32 bits. Nothing for any other text.
pub open spec fn parse_int(f: Seq<char>) -> Option<i32> {
    if f.len() > 0 && f[0] == '-' {
        let d = f.subrange(1, f.len() as int);
        if all_digits(d) && digits_value(d) <= 0x8000_0000 {
            Some((-digits_value(d)) as i32)
        } else {
            None
        }
    } else if f.len() > 0 && f[0] == '+' {
        let d = f.subrange(1, f.len() as int);
        if all_digits(d) && digits_value(d) <= 0x7fff_ffff {
            Some(digits_value(d) as i32)
        } else {
            None
        }
    } else if all_digits(f) && digits_value(f) <= 0x7fff_ffff {
        Some(digits_value(f) as i32)
    } else {
        None
    }
}

/// The fields of a text: the runs of characters between its commas.
pub open spec fn split_commas(s: Seq<char>) -> Seq<Seq<char>>
    decreases s.len(),
{
    if s.len() == 0 {
        seq![Seq::empty()]
    } else {
        let before = split_commas(s.drop_last());
        if s.last() == ',' {
            before.push(Seq::empty())
        } else {
            before.update(before.len() - 1, before.last().push(s.last()))
        }
    }
}

/// The record that a text stands for: every field must be an integer, and
/// the first seven are the components of the record.
pub open spec fn text_record(s: Seq<char>) -> Option<Record> {
    let fields = split_commas(s);
    if fields.len() >= 7 && forall|i: int|
        0 <= i < fields.len() ==> parse_int(#[trigger] fields[i]) is Some {
        Some(record_of(Seq::new(7, |j: int| parse_int(fields[j])->0)))
    } else {
        None
    }
}

/// The digits of a number never stand for less than a prefix of them does.
proof fn lemma_digits_grow(d: Seq<char>, i: int)
    requires
        0 <= i <= d.len(),
    ensures
        0 <= digits_value(d.subrange(0, i)) <= digits_value(d),
    decreases d.len() - i,
{
    lemma_digits_nonnegative(d.subrange(0, i));
    if i < d.len() {
        lemma_digits_grow(d, i + 1);
        assert(d.subrange(0, i + 1).drop_last() =~= d.subrange(0, i));
    } else {
        assert(d.subrange(0, i) =~= d);
    }
}

/// Digits stand for a number that is not negative.
proof fn lemma_digits_nonnegative(d: Seq<char>)
    ensures
        0 <= digits_value(d),
    decreases d.len(),
{
    if d.len() > 0 {
        lemma_digits_nonnegative(d.drop_last());
    }
}

/// The decimal digits of a number are digits that stand for that number.
proof fn lemma_decimal(n: nat)
    ensures
        all_digits(decimal(n)),
        digits_value(decimal(n)) == n,
    decreases n,
{
    if n < 10 {
        let d = seq![digit_char(n as int)];
        assert(d.drop_last() =~= Seq::<char>::empty());
        assert(decimal(n) == d);
        assert(digits_value(d.drop_last()) == 0);
    } else {
        lemma_decimal(n / 10);
        let d = decimal(n);
        assert(d.drop_last() =~= decimal(n / 10));
        assert(d.last() == digit_char((n % 10) as int));
        assert forall|i: int| 0 <= i < d.len() implies is_digit(#[trigger] d[i]) by {
            if i < d.len() - 1 {
                assert(d[i] == decimal(n / 10)[i]);
            }
        }
    }
}

/// The text of an integer of 32 bits holds no comma and is read back as
/// that integer.
pub proof fn lemma_int_text_parses(x: i32)
    ensures
        parse_int(int_text(x as int)) == Some(x),
        forall|i: int| 0 <= i < int_text(x as int).len() ==> #[trigger] int_text(x as int)[i] != ',',
{
    let t = int_text(x as int);
    if x < 0 {
        let d = decimal((-x) as nat);
        lemma_decimal((-x) as nat);
        assert(t.subrange(1, t.len() as int) =~= d);
        assert forall|i: int| 0 <= i < t.len() implies #[trigger] t[i] != ',' by {
            if i > 0 {
                assert(t[i] == d[i - 1]);
            }
        }
    } else {
        lemma_decimal(x as nat);
        assert(is_digit(t[0]));
    }
}

/// The fields of a text: there is always one.
proof fn lemma_split_nonempty(s: Seq<char>)
    ensures
        split_commas(s).len() >= 1,
    decreases s.len(),
{
    if s.len() > 0 {
        lemma_split_nonempty(s.drop_last());
    }
}

/// Characters other than commas that follow a text extend its last field.
proof fn lemma_split_extend(s: Seq<char>, t: Seq<char>)
    requires
        forall|i: int| 0 <= i < t.len() ==> #[trigger] t[i] != ',',
    ensures
        split_commas(s).len() >= 1,
        split_commas(s + t) == split_commas(s).update(
            split_commas(s).len() - 1,
            split_commas(s).last() + t,
        ),
    decreases t.len(),
{
    lemma_split_nonempty(s);
    let base = split_commas(s);
    if t.len() == 0 {
        assert(s + t =~= s);
        assert(base.last() + t =~= base.last());
        assert(base.update(base.len() - 1, base.last()) =~= base);
    } else {
        lemma_split_extend(s, t.drop_last());
        assert((s + t).drop_last() =~= s + t.drop_last());
        assert((s + t).last() == t.last());
        let before = split_commas(s + t.drop_last());
        assert(before.last() == base.last() + t.drop_last());
        assert((base.last() + t.drop_last()).push(t.last()) =~= base.last() + t);
        assert(before.update(before.len() - 1, before.last().push(t.last())) =~= base.update(
            base.len() - 1,
            base.last() + t,
        ));
    }
}

/// The fields of the text of some integers are the texts of the integers.
proof fn lemma_fields_text_split(f: Seq<i32>)
    requires
        f.len() >= 1,
    ensures
        split_commas(fields_text(f)) == Seq::new(f.len(), |i: int| int_text(f[i] as int)),
    decreases f.len(),
{
    let t = int_text(f.last() as int);
    lemma_int_text_parses(f.last());
    let want = Seq::new(f.len(), |i: int| int_text(f[i] as int));
    if f.len() == 1 {
        let e = Seq::<char>::empty();
        lemma_split_extend(e, t);
        assert(e + t =~= t);
        assert(split_commas(e) == seq![e]);
        assert(seq![e].update(0, e + t) =~= want);
    } else {
        let s = fields_text(f.drop_last());
        lemma_fields_text_split(f.drop_last());
        let sc = s.push(',');
        assert(sc.drop_last() =~= s);
        lemma_split_extend(sc, t);
        let base = split_commas(sc);
        assert(base == split_commas(s).push(Seq::<char>::empty()));
        assert(Seq::<char>::empty() + t =~= t);
        assert(base.update(base.len() - 1, base.last() + t) =~= want);
    }
}

/// The text of a record is read back as that record.
pub proof fn law_text_round_trip(r: Record)
    ensures
        text_record(record_text(r)) == Some(r),
{
    let f = r.fields();
    lemma_fields_text_split(f);
    let fields = split_commas(record_text(r));
    assert forall|i: int| 0 <= i < fields.len() implies parse_int(#[trigger] fields[i]) == Some(
        f[i],
    ) by {
        lemma_int_text_parses(f[i]);
    }
    assert(Seq::new(7, |j: int| parse_int(fields[j])->0) =~= f);
    lemma_record_of_fields(r);
}

/// Appends the digit `d` to `s`.
fn push_digit(s: &mut String, d: u64)
    requires
        d < 10,
    ensures
        final(s)@ == old(s)@.push(digit_char(d as int)),
{
    proof {
        reveal_strlit("0");
        reveal_strlit("1");
        reveal_strlit("2");
        reveal_strlit("3");
        reveal_strlit("4");
        reveal_strlit("5");
        reveal_strlit("6");
        reveal_strlit("7");
        reveal_strlit("8");
        reveal_strlit("9");
    }
    let ghost before = s@;
    let digit = if d == 0 {
        "0"
    } else if d == 1 {
        "1"
    } else if d == 2 {
        "2"
    } else if d == 3 {
        "3"
    } else if d == 4 {
        "4"
    } else if d == 5 {
        "5"
    } else if d == 6 {
        "6"
    } else if d == 7 {
        "7"
    } else if d == 8 {
        "8"
    } else {
        "9"
    };
    s.append(digit);
    assert(s@ =~= before.push(digit_char(d as int)));
}

/// Appends the decimal digits of `n` to `s`.
fn push_decimal(s: &mut String, n: u64)
    ensures
        final(s)@ == old(s)@ + decimal(n as nat),
    decreases n,
{
    let ghost before = s@;
    if n >= 10 {
        push_decimal(s, n / 10);
    }
    push_digit(s, n % 10);
    assert(s@ =~= before + decimal(n as nat));
}

/// Appends the decimal text of `x` to `s`.
fn push_int(s: &mut String, x: i32)
    ensures
        final(s)@ == old(s)@ + int_text(x as int),
{
    let ghost before = s@;
    if x < 0 {
        proof {
            reveal_strlit("-");
        }
        s.append("-");
        push_decimal(s, (-(x as i64)) as u64);
    } else {
        push_decimal(s, x as u64);
    }
    assert(s@ =~= before + int_text(x as int));
}

/// The characters of `s`.
fn chars_of(s: &str) -> (v: Vec<char>)
    ensures
        v@ == s@,
{
    let n = s.unicode_len();
    let mut v: Vec<char> = Vec::new();
    let mut i: usize = 0;
    while i < n
        invariant
            i <= n,
            n == s@.len(),
            v@ == s@.subrange(0, i as int),
        decreases n - i,
    {
        v.push(s.get_char(i));
        i += 1;
        assert(v@ =~= s@.subrange(0, i as int));
    }
    assert(s@.subrange(0, n as int) =~= s@);
    v
}

/// The value of the decimal digit `c`, if it is one.
fn digit_of(c: char) -> (r: Option<i64>)
    ensures
        r is Some == is_digit(c),
        r matches Some(d) ==> d == digit_value(c) && 0 <= d < 10,
{
    if c == '0' {
        Some(0)
    } else if c == '1' {
        Some(1)
    } else if c == '2' {
        Some(2)
    } else if c == '3' {
        Some(3)
    } else if c == '4' {
        Some(4)
    } else if c == '5' {
        Some(5)
    } else if c == '6' {
        Some(6)
    } else if c == '7' {
        Some(7)
    } else if c == '8' {
        Some(8)
    } else if c == '9' {
        Some(9)
    } else {
        None
    }
}

/// The value of the digits of `f` from `from` on, if they are digits, one
/// at least, and stand for no more than `limit`.
fn parse_digits(f: &Vec<char>, from: usize, limit: i64) -> (r: Option<i64>)
    requires
        from <= f@.len(),
        0 <= limit <= 0x8000_0000,
    ensures
        r is Some == (all_digits(f@.subrange(from as int, f@.len() as int)) && digits_value(
            f@.subrange(from as int, f@.len() as int),
        ) <= limit),
        r matches Some(v) ==> v == digits_value(f@.subrange(from as int, f@.len() as int)) && 0
            <= v <= limit,
{
    let ghost d = f@.subrange(from as int, f@.len() as int);
    if from == f.len() {
        return None;
    }
    let mut acc: i64 = 0;
    let mut i: usize = from;
    while i < f.len()
        invariant
            from <= i <= f@.len(),
            d == f@.subrange(from as int, f@.len() as int),
            0 <= limit <= 0x8000_0000,
            0 <= acc <= limit,
            acc == digits_value(d.subrange(0, i - from)),
            forall|j: int| 0 <= j < i - from ==> is_digit(#[trigger] d[j]),
        decreases f@.len() - i,
    {
        match digit_of(f[i]) {
            None => {
                assert(!is_digit(d[i - from]));
                return None;
            },
            Some(v) => {
                proof {
                    assert(d.subrange(0, i + 1 - from).drop_last() =~= d.subrange(0, i - from));
                    assert(d.subrange(0, i + 1 - from).last() == f@[i as int]);
                }
                acc = acc * 10 + v;
                if acc > limit {
                    proof {
                        lemma_digits_grow(d, i + 1 - from);
                    }
                    return None;
                }
            },
        }
        i += 1;
    }
    assert(d.subrange(0, i - from) =~= d);
    Some(acc)
}

/// The integer that the field `f` stands for.
fn parse_field(f: &Vec<char>) -> (r: Option<i32>)
    ensures
        r == parse_int(f@),
{
    if f.len() > 0 && f[0] == '-' {
        match parse_digits(f, 1, 0x8000_0000) {
            Some(v) => Some((-v) as i32),
            None => None,
        }
    } else if f.len() > 0 && f[0] == '+' {
        match parse_digits(f, 1, 0x7fff_ffff) {
            Some(v) => Some(v as i32),
            None => None,
        }
    } else {
        assert(f@.subrange(0, f@.len() as int) =~= f@);
        match parse_digits(f, 0, 0x7fff_ffff) {
            Some(v) => Some(v as i32),
            None => None,
        }
    }
}

/// The views of a run of fields.
pub open spec fn fields_view(v: Seq<Vec<char>>) -> Seq<Seq<char>> {
    Seq::new(v.len(), |i: int| v[i]@)
}

/// The fields of `chars`.
fn split_fields(chars: &Vec<char>) -> (fields: Vec<Vec<char>>)
    ensures
        fields_view(fields@) == split_commas(chars@),
{
    let mut fields: Vec<Vec<char>> = Vec::new();
    let mut current: Vec<char> = Vec::new();
    let mut i: usize = 0;
    assert(chars@.subrange(0, 0) =~= Seq::<char>::empty());
    while i < chars.len()
        invariant
            i <= chars@.len(),
            fields_view(fields@).push(current@) == split_commas(chars@.subrange(0, i as int)),
        decreases chars@.len() - i,
    {
        let ghost before = split_commas(chars@.subrange(0, i as int));
        let ghost done = fields_view(fields@);
        proof {
            assert(chars@.subrange(0, i + 1).drop_last() =~= chars@.subrange(0, i as int));
            assert(chars@.subrange(0, i + 1).last() == chars@[i as int]);
        }
        if chars[i] == ',' {
            fields.push(current);
            current = Vec::new();
            assert(fields_view(fields@) =~= before);
        } else {
            current.push(chars[i]);
            assert(done.push(current@) =~= before.update(
                before.len() - 1,
                before.last().push(chars@[i as int]),
            ));
        }
        i += 1;
    }
    assert(chars@.subrange(0, i as int) =~= chars@);
    let ghost done = fields_view(fields@);
    let ghost last = current@;
    fields.push(current);
    assert(fields_view(fields@) =~= done.push(last));
    fields
}

impl Record {
    /// The text of the record: its seven components in decimal, key first,
    /// separated by commas.
    pub fn to_text(&self) -> (s: String)
        ensures
            s@ == record_text(*self),
    {
        let f = self.to_fields();
        let mut s = String::new();
        let mut i: usize = 0;
        assert(f@.subrange(0, 0) =~= Seq::<i32>::empty());
        while i < 7
            invariant
                i <= 7,
                f@.len() == 7,
                s@ == fields_text(f@.subrange(0, i as int)),
            decreases 7 - i,
        {
            let ghost before = s@;
            if i > 0 {
                proof {
                    reveal_strlit(",");
                }
                s.append(",");
                assert(s@ =~= before.push(','));
            }
            push_int(&mut s, f[i]);
            proof {
                assert(f@.subrange(0, i + 1).drop_last() =~= f@.subrange(0, i as int));
                assert(f@.subrange(0, i + 1).last() == f@[i as int]);
                if i == 0 {
                    assert(before + int_text(f@[0] as int) =~= int_text(f@[0] as int));
                }
            }
            i += 1;
        }
        assert(f@.subrange(0, 7) =~= f@);
        s
    }

    /// Reads a record from its text. Every field between commas must be an
    /// integer of 32 bits in decimal, with or without a sign, and there
    /// must be seven fields at least; the first seven make the record.
    pub fn from_text(s: &str) -> (r: Option<Self>)
        ensures
            r == text_record(s@),
    {
        let chars = chars_of(s);
        let fields = split_fields(&chars);
        let ghost views = split_commas(s@);
        let mut values: Vec<i32> = Vec::new();
        let mut i: usize = 0;
        while i < fields.len()
            invariant
                i <= fields@.len(),
                views == split_commas(s@),
                fields_view(fields@) == views,
                values@.len() == i,
                forall|j: int| 0 <= j < i ==> parse_int(#[trigger] views[j]) == Some(values@[j]),
            decreases fields@.len() - i,
        {
            assert(views[i as int] == fields@[i as int]@);
            match parse_field(&fields[i]) {
                Some(v) => {
                    values.push(v);
                },
                None => {
                    return None;
                },
            }
            i += 1;
        }
        if values.len() < 7 {
            return None;
        }
        let f = [values[0], values[1], values[2], values[3], values[4], values[5], values[6]];
        let r = Record::from_fields(f);
        proof {
            assert(f@ =~= Seq::new(7, |j: int| parse_int(views[j])->0));
            lemma_record_of_fields(r);
        }
        Some(r)
    }
}

} // verus!
