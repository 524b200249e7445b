//! The text form of one edge: `origin,_,destination,_,metres`.
use vstd::prelude::*;
use vstd::string::StrSliceExecFns;
use crate::graph::{LoadError, MAX_DISTANCE};

verus! {

/// Position of the first `,` of `s`, or `s.len()` when there is none.
pub open spec fn first_comma(s: Seq<char>) -> int
    decreases s.len(),
{
    if s.len() == 0 {
        0
    } else if s[0] == ',' {
        0
    } else {
        1 + first_comma(s.drop_first())
    }
}

/// Field `k` of `s` split at every `,`; `None` when `s` has `k` commas or fewer.
pub open spec fn field(s: Seq<char>, k: nat) -> Option<Seq<char>>
    decreases k,
{
    let c = first_comma(s);
    if k == 0 {
        Some(s.take(c))
    } else if c == s.len() {
        None
    } else {
        field(s.skip(c + 1), (k - 1) as nat)
    }
}

pub open spec fn is_digit(c: char) -> bool {
    '0' <= c <= '9'
}

/// `s` is a non-empty run of decimal digits.
pub open spec fn is_decimal(s: Seq<char>) -> bool {
    s.len() > 0 && forall|i: int| 0 <= i < s.len() ==> is_digit(#[trigger] s[i])
}

/// The number that the digits of `s` spell in base ten.
pub open spec fn decimal_value(s: Seq<char>) -> int
    decreases s.len(),
{
    if s.len() == 0 {
        0
    } else {
        decimal_value(s.drop_last()) * 10 + (s.last() as int - '0' as int)
    }
}

/// What a record line holds: the two labels and the distance in metres, or
/// why it holds none.
pub open spec fn record_spec(s: Seq<char>) -> Result<(Seq<char>, Seq<char>, int), LoadError> {
    match field(s, 4) {
        None => Err(LoadError::MissingField),
        Some(d) => if is_decimal(d) && decimal_value(d) <= MAX_DISTANCE {
            Ok((field(s, 0).unwrap(), field(s, 2).unwrap(), decimal_value(d)))
        } else {
            Err(LoadError::InvalidDistance)
        },
    }
}

proof fn lemma_first_comma(s: Seq<char>, i: int)
    requires
        0 <= i <= s.len(),
        forall|j: int| 0 <= j < i ==> s[j] != ',',
        i == s.len() || s[i] == ',',
    ensures
        first_comma(s) == i,
    decreases i,
{
    if i > 0 {
        lemma_first_comma(s.drop_first(), i - 1);
    }
}

/// One edge record: the labels of its two ends and its length in metres.
pub struct Record {
    pub origin: String,
    pub destination: String,
    pub meters: u64,
}

/// Splits `s` at its first `,`: the text before it, and the text after it
/// when there is a comma.
fn split_first<'a>(s: &'a str) -> (r: (&'a str, Option<&'a str>))
    ensures
        r.0@ == s@.take(first_comma(s@)),
        r.1 is None <==> first_comma(s@) == s@.len(),
        r.1 matches Some(rest) ==> rest@ == s@.skip(first_comma(s@) + 1),
{
    let len = s.unicode_len();
    let mut i: usize = 0;
    while i < len && s.get_char(i) != ','
        invariant
            len == s@.len(),
            i <= len,
            forall|j: int| 0 <= j < i ==> s@[j] != ',',
        decreases len - i,
    {
        i = i + 1;
    }
    proof {
        lemma_first_comma(s@, i as int);
    }
    let head = s.substring_char(0, i);
    assert(head@ =~= s@.take(i as int));
    if i == len {
        (head, None)
    } else {
        let rest = s.substring_char(i + 1, len);
        assert(rest@ =~= s@.skip(i + 1));
        (head, Some(rest))
    }
}

/// The distance that `s` spells, when it is a decimal number of at most
/// `MAX_DISTANCE`.
fn parse_distance(s: &str) -> (r: Option<u64>)
    ensures
        r is Some <==> is_decimal(s@) && decimal_value(s@) <= MAX_DISTANCE,
        r matches Some(v) ==> v == decimal_value(s@),
{
    let len = s.unicode_len();
    if len == 0 {
        return None;
    }
    let mut acc: u64 = 0;
    let mut big = false;
    let mut i: usize = 0;
    while i < len
        invariant
            len == s@.len(),
            i <= len,
            forall|j: int| 0 <= j < i ==> is_digit(#[trigger] s@[j]),
            !big ==> acc == decimal_value(s@.take(i as int)) && acc <= MAX_DISTANCE,
            big ==> decimal_value(s@.take(i as int)) > MAX_DISTANCE,
        decreases len - i,
    {
        let c = s.get_char(i);
        if c < '0' || c > '9' {
            return None;
        }
        let d: u64 = (c as u32 - '0' as u32) as u64;
        proof {
            assert(s@.take(i + 1).drop_last() =~= s@.take(i as int));
            assert(decimal_value(s@.take(i as int)) >= 0) by {
                lemma_decimal_nonneg(s@.take(i as int));
            }
        }
        if !big {
            if acc * 10 + d > MAX_DISTANCE {
                big = true;
            } else {
                acc = acc * 10 + d;
            }
        }
        i = i + 1;
    }
    assert(s@.take(len as int) =~= s@);
    if big {
        None
    } else {
        Some(acc)
    }
}

proof fn lemma_decimal_nonneg(s: Seq<char>)
    requires
        forall|i: int| 0 <= i < s.len() ==> is_digit(#[trigger] s[i]),
    ensures
        decimal_value(s) >= 0,
    decreases s.len(),
{
    if s.len() > 0 {
        lemma_decimal_nonneg(s.drop_last());
    }
}

/// Reads one record line: fields are separated by `,`, the first is the
/// origin's label, the third the destination's, the fifth the distance in
/// metres; the second, fourth and any after the fifth are ignored.
pub fn parse_record(line: &str) -> (r: Result<Record, LoadError>)
    ensures
        match record_spec(line@) {
            Ok((a, b, d)) => r matches Ok(rec) && rec.origin@ == a && rec.destination@ == b && rec.meters
                == d,
            Err(e) => r == Err::<Record, LoadError>(e),
        },
{
    let ghost s = line@;
    let (f0, rest) = split_first(line);
    let rest1 = match rest {
        Some(x) => x,
        None => {
            assert(field(s, 4) is None);
            return Err(LoadError::MissingField);
        },
    };
    assert(field(s, 4) == field(rest1@, 3));
    assert(field(s, 2) == field(rest1@, 1));
    let (_, rest) = split_first(rest1);
    let rest2 = match rest {
        Some(x) => x,
        None => {
            assert(field(rest1@, 3) is None);
            return Err(LoadError::MissingField);
        },
    };
    assert(field(rest1@, 3) == field(rest2@, 2));
    assert(field(rest1@, 1) == field(rest2@, 0));
    let (f2, rest) = split_first(rest2);
    let rest3 = match rest {
        Some(x) => x,
        None => {
            assert(field(rest2@, 2) is None);
            return Err(LoadError::MissingField);
        },
    };
    assert(field(rest2@, 2) == field(rest3@, 1));
    let (_, rest) = split_first(rest3);
    let rest4 = match rest {
        Some(x) => x,
        None => {
            assert(field(rest3@, 1) is None);
            return Err(LoadError::MissingField);
        },
    };
    assert(field(rest3@, 1) == field(rest4@, 0));
    let (f4, _) = split_first(rest4);
    assert(field(s, 4) == Some(f4@));
    match parse_distance(f4) {
        Some(meters) => Ok(Record { origin: f0.to_owned(), destination: f2.to_owned(), meters }),
        None => Err(LoadError::InvalidDistance),
    }
}

} // verus!
