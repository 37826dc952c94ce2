//! Calendar dates as plain year, month and day, with their text form and order.
use crate::text::{
    decimal, from_chars, lemma_concat_without, lemma_decimal_digits, lemma_decimal_has_no,
    lemma_split_on_join, lemma_split_on_nonempty, lemma_split_on_without, parse_unsigned,
    parse_unsigned_chars, push_decimal, split_chars, split_on, to_chars, views,
};
use std::cmp::Ordering;
use vstd::prelude::*;

verus! {

/// A date; month and day are not checked against the calendar.
#[derive(Debug, Clone, Copy, PartialEq, Eq, PartialOrd, Ord, Structural)]
pub struct Date {
    pub y: u32,
    pub m: u8,
    pub d: u8,
}

/// A date text that is not three unsigned numbers joined by `-`.
#[derive(Debug, Clone, Copy, PartialEq, Eq, Structural)]
pub struct ParseError;

/// Order of two integers.
pub open spec fn int_cmp(a: int, b: int) -> Ordering {
    if a < b {
        Ordering::Less
    } else if a > b {
        Ordering::Greater
    } else {
        Ordering::Equal
    }
}

/// `first`, or `second` where `first` is a tie.
pub open spec fn then_cmp(first: Ordering, second: Ordering) -> Ordering {
    if first == Ordering::Equal {
        second
    } else {
        first
    }
}

/// Dates ordered by year, then month, then day.
pub open spec fn date_cmp(a: Date, b: Date) -> Ordering {
    then_cmp(
        int_cmp(a.y as int, b.y as int),
        then_cmp(int_cmp(a.m as int, b.m as int), int_cmp(a.d as int, b.d as int)),
    )
}

/// The text form `<year>-<month>-<day>`, without zero padding.
pub open spec fn date_text(d: Date) -> Seq<char> {
    decimal(d.y as nat) + seq!['-'] + decimal(d.m as nat) + seq!['-'] + decimal(d.d as nat)
}

/// The date that `s` writes: exactly three `-`-separated unsigned numbers
/// that fit year, month and day.
pub open spec fn parse_date(s: Seq<char>) -> Option<Date> {
    let parts = split_on(s, '-');
    if parts.len() == 3 && parse_unsigned(parts[0], u32::MAX as nat) is Some && parse_unsigned(
        parts[1],
        u8::MAX as nat,
    ) is Some && parse_unsigned(parts[2], u8::MAX as nat) is Some {
        Some(
            Date {
                y: parse_unsigned(parts[0], u32::MAX as nat)->0 as u32,
                m: parse_unsigned(parts[1], u8::MAX as nat)->0 as u8,
                d: parse_unsigned(parts[2], u8::MAX as nat)->0 as u8,
            },
        )
    } else {
        None
    }
}

/// Reading back the text form of a date gives the date again.
pub proof fn lemma_date_round_trip(d: Date)
    ensures
        parse_date(date_text(d)) == Some(d),
        !date_text(d).contains(','),
{
    let y = decimal(d.y as nat);
    let m = decimal(d.m as nat);
    let dd = decimal(d.d as nat);
    lemma_decimal_digits(d.y as nat);
    lemma_decimal_digits(d.m as nat);
    lemma_decimal_digits(d.d as nat);
    lemma_decimal_has_no(d.y as nat, '-');
    lemma_decimal_has_no(d.m as nat, '-');
    lemma_decimal_has_no(d.d as nat, '-');
    lemma_split_on_without(y, '-');
    lemma_split_on_without(m, '-');
    lemma_split_on_without(dd, '-');
    lemma_split_on_join(y, m, '-');
    lemma_split_on_join(y + seq!['-'] + m, dd, '-');
    assert(split_on(date_text(d), '-') =~= seq![y, m, dd]);
    lemma_decimal_has_no(d.y as nat, ',');
    lemma_decimal_has_no(d.m as nat, ',');
    lemma_decimal_has_no(d.d as nat, ',');
    assert(!seq!['-'].contains(',')) by {
        assert(seq!['-'][0] == '-');
    }
    lemma_concat_without(y, seq!['-'], ',');
    lemma_concat_without(y + seq!['-'], m, ',');
    lemma_concat_without(y + seq!['-'] + m, seq!['-'], ',');
    lemma_concat_without(y + seq!['-'] + m + seq!['-'], dd, ',');
}

impl Date {
    pub fn new(y: u32, m: u8, d: u8) -> (r: Date)
        ensures
            r == (Date { y, m, d }),
    {
        Date { y, m, d }
    }

    /// Reads a date written as `<year>-<month>-<day>`.
    pub fn from_str(s: &str) -> (r: Result<Date, ParseError>)
        ensures
            match r {
                Ok(d) => parse_date(s@) == Some(d),
                Err(_) => parse_date(s@) is None,
            },
    {
        let chars = to_chars(s);
        let parts = split_chars(&chars, '-');
        proof {
            lemma_split_on_nonempty(s@, '-');
        }
        assert(views(parts@).len() == parts@.len());
        if parts.len() != 3 {
            return Err(ParseError);
        }
        assert(parts@[0]@ == split_on(s@, '-')[0]);
        assert(parts@[1]@ == split_on(s@, '-')[1]);
        assert(parts@[2]@ == split_on(s@, '-')[2]);
        let y = parse_unsigned_chars(&parts[0], 0xffff_ffff);
        let m = parse_unsigned_chars(&parts[1], 0xff);
        let d = parse_unsigned_chars(&parts[2], 0xff);
        match (y, m, d) {
            (Some(y), Some(m), Some(d)) => Ok(Date { y: y as u32, m: m as u8, d: d as u8 }),
            _ => Err(ParseError),
        }
    }

    /// The text form, as `<year>-<month>-<day>`.
    pub fn to_string(&self) -> (r: String)
        ensures
            r@ == date_text(*self),
    {
        let mut v: Vec<char> = Vec::new();
        push_decimal(&mut v, self.y as u64);
        v.push('-');
        push_decimal(&mut v, self.m as u64);
        v.push('-');
        push_decimal(&mut v, self.d as u64);
        assert(v@ =~= date_text(*self));
        from_chars(&v)
    }

    /// Compares by year, then month, then day.
    pub fn compare(&self, other: &Date) -> (r: Ordering)
        ensures
            r == date_cmp(*self, *other),
    {
        if self.y != other.y {
            if self.y < other.y {
                Ordering::Less
            } else {
                Ordering::Greater
            }
        } else if self.m != other.m {
            if self.m < other.m {
                Ordering::Less
            } else {
                Ordering::Greater
            }
        } else if self.d < other.d {
            Ordering::Less
        } else if self.d > other.d {
            Ordering::Greater
        } else {
            Ordering::Equal
        }
    }
}

} // verus!
