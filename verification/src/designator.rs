//! The vocabulary of unit designators, and what a lookup owes its caller.

use vstd::prelude::*;
use crate::matching::is_exact_match;
use crate::matching::is_longest_match;
use crate::needles::labels_of;
use crate::needles::TrieNeedles;
use crate::Unit;

verus! {

/// Why no unit was found.
#[derive(Clone, Copy, Debug, PartialEq, Eq)]
pub enum LookupError<'i> {
    /// There was no input where a designator was expected.
    EndOfInput,
    /// The input begins with `found`, which is no designator.
    Unrecognized { found: &'i [u8] },
}

/// Whether `b` can stand in a designator: a lower-case ASCII letter, or one
/// of the two bytes that encode `µ`.
pub open spec fn is_designator_byte(b: u8) -> bool {
    (0x61 <= b && b <= 0x7a) || b == 0xC2 || b == 0xB5
}

/// The length of the longest run of designator bytes at the start of
/// `input`.
pub open spec fn designator_run(input: Seq<u8>) -> nat
    decreases input.len(),
{
    if input.len() == 0 || !is_designator_byte(input[0]) {
        0
    } else {
        1 + designator_run(input.skip(1))
    }
}

/// What a search for the longest designator at the start of `input` owes:
/// the unit of that designator and the input after it; or, where the input
/// starts with no designator, an error that says whether there was any input.
pub open spec fn is_prefix_lookup<'i>(
    labels: Seq<(Seq<u8>, Unit)>,
    input: &'i [u8],
    r: Result<(Unit, &'i [u8]), LookupError<'i>>,
) -> bool {
    match r {
        Ok((unit, rest)) => {
            &&& rest@.len() <= input@.len()
            &&& rest@ == input@.skip(input@.len() - rest@.len())
            &&& is_longest_match(labels, input@, Some((unit, (input@.len() - rest@.len()) as usize)))
        },
        Err(LookupError::EndOfInput) => {
            &&& input@.len() == 0
            &&& is_longest_match(labels, input@, None)
        },
        Err(LookupError::Unrecognized { found }) => {
            &&& input@.len() > 0
            &&& found@ == input@
            &&& is_longest_match(labels, input@, None)
        },
    }
}

/// What a search for the run of designator bytes at the start of `input`
/// owes: where the run is a designator, its unit and the input after the
/// run; where there is no input, an error that says so; and otherwise an
/// error with the run that is no designator, or with the input if it starts
/// with no designator byte at all.
pub open spec fn is_run_lookup<'i>(
    labels: Seq<(Seq<u8>, Unit)>,
    input: &'i [u8],
    r: Result<(Unit, &'i [u8]), LookupError<'i>>,
) -> bool {
    let end = designator_run(input@) as int;
    match r {
        Ok((unit, rest)) => {
            &&& end > 0
            &&& rest@ == input@.skip(end)
            &&& is_exact_match(labels, input@.take(end), Some(unit))
        },
        Err(LookupError::EndOfInput) => input@.len() == 0,
        Err(LookupError::Unrecognized { found }) => {
            &&& input@.len() > 0
            &&& end == 0 ==> found@ == input@
            &&& end > 0 ==> found@ == input@.take(end) && is_exact_match(
                labels,
                input@.take(end),
                None,
            )
        },
    }
}

/// Whether `b` can stand in a designator.
pub fn is_valid_designator_byte(b: u8) -> (r: bool)
    ensures
        r == is_designator_byte(b),
{
    // 0x61 to 0x7a are `a` to `z`; 0xC2 and 0xB5 encode `µ`.
    (0x61 <= b && b <= 0x7a) || b == 0xC2 || b == 0xB5
}

/// The length of the run of designator bytes at the start of `input`.
pub fn designator_end(input: &[u8]) -> (end: usize)
    ensures
        end == designator_run(input@),
        end <= input@.len(),
{
    let mut end: usize = 0;
    assert(input@.skip(0) =~= input@);
    while end < input.len() && is_valid_designator_byte(input[end])
        invariant
            end <= input@.len(),
            designator_run(input@) == end + designator_run(input@.skip(end as int)),
        decreases input@.len() - end,
    {
        proof {
            let rest = input@.skip(end as int);
            assert(rest[0] == input@[end as int]);
            assert(rest.skip(1) =~= input@.skip(end as int + 1));
        }
        end += 1;
    }
    proof {
        let rest = input@.skip(end as int);
        if end < input@.len() {
            assert(rest[0] == input@[end as int]);
        }
    }
    end
}

/// Turns what a search of the start of `input` found, a unit and the length
/// of its designator, into the unit with the rest of the input; or, where
/// nothing was found, into the error that says whether there was any input.
pub fn prefix_outcome<'i>(input: &'i [u8], found: Option<(Unit, usize)>) -> (r: Result<
    (Unit, &'i [u8]),
    LookupError<'i>,
>)
    requires
        match found {
            Some((_, offset)) => offset <= input@.len(),
            None => true,
        },
    ensures
        match (found, r) {
            (Some((unit, offset)), Ok((found_unit, rest))) => found_unit == unit && rest@
                == input@.skip(offset as int),
            (None, Err(LookupError::EndOfInput)) => input@.len() == 0,
            (None, Err(LookupError::Unrecognized { found })) => input@.len() > 0 && found@
                == input@,
            _ => false,
        },
{
    match found {
        Some((unit, offset)) => {
            let rest = vstd::slice::slice_subrange(input, offset, input.len());
            assert(rest@ =~= input@.skip(offset as int));
            Ok((unit, rest))
        },
        None => {
            if input.len() == 0 {
                Err(LookupError::EndOfInput)
            } else {
                Err(LookupError::Unrecognized { found: input })
            }
        },
    }
}

/// Turns what a search for the first `end` bytes of `input` found into the
/// unit with the rest of the input; or, where nothing was found, into the
/// error that says what was there instead: no input, these bytes, or, if
/// `end` is 0, the input.
pub fn run_outcome<'i>(input: &'i [u8], end: usize, found: Option<Unit>) -> (r: Result<
    (Unit, &'i [u8]),
    LookupError<'i>,
>)
    requires
        end <= input@.len(),
    ensures
        match r {
            Ok((unit, rest)) => end > 0 && found == Some(unit) && rest@ == input@.skip(end as int),
            Err(LookupError::EndOfInput) => input@.len() == 0,
            Err(LookupError::Unrecognized { found: bytes }) => {
                &&& input@.len() > 0
                &&& end == 0 ==> bytes@ == input@
                &&& end > 0 ==> found is None && bytes@ == input@.take(end as int)
            },
        },
{
    if input.len() == 0 {
        return Err(LookupError::EndOfInput);
    }
    if end == 0 {
        return Err(LookupError::Unrecognized { found: input });
    }
    match found {
        Some(unit) => {
            let rest = vstd::slice::slice_subrange(input, end, input.len());
            assert(rest@ =~= input@.skip(end as int));
            Ok((unit, rest))
        },
        None => {
            let needle = vstd::slice::slice_subrange(input, 0, end);
            assert(needle@ =~= input@.take(end as int));
            Err(LookupError::Unrecognized { found: needle })
        },
    }
}

/// The designators, each with the unit that it names.
pub open spec fn designator_table() -> Seq<(&'static str, Unit)> {
    seq![
        ("years", Unit::Year),
        ("year", Unit::Year),
        ("yrs", Unit::Year),
        ("yr", Unit::Year),
        ("y", Unit::Year),
        ("months", Unit::Month),
        ("month", Unit::Month),
        ("mos", Unit::Month),
        ("mo", Unit::Month),
        ("weeks", Unit::Week),
        ("week", Unit::Week),
        ("wks", Unit::Week),
        ("wk", Unit::Week),
        ("w", Unit::Week),
        ("days", Unit::Day),
        ("day", Unit::Day),
        ("d", Unit::Day),
        ("hours", Unit::Hour),
        ("hour", Unit::Hour),
        ("hrs", Unit::Hour),
        ("hr", Unit::Hour),
        ("h", Unit::Hour),
        ("minutes", Unit::Minute),
        ("minute", Unit::Minute),
        ("mins", Unit::Minute),
        ("min", Unit::Minute),
        ("m", Unit::Minute),
        ("seconds", Unit::Second),
        ("second", Unit::Second),
        ("secs", Unit::Second),
        ("sec", Unit::Second),
        ("s", Unit::Second),
        ("milliseconds", Unit::Millisecond),
        ("millisecond", Unit::Millisecond),
        ("millis", Unit::Millisecond),
        ("milli", Unit::Millisecond),
        ("msecs", Unit::Millisecond),
        ("msec", Unit::Millisecond),
        ("ms", Unit::Millisecond),
        ("microseconds", Unit::Microsecond),
        ("microsecond", Unit::Microsecond),
        ("micros", Unit::Microsecond),
        ("micro", Unit::Microsecond),
        ("usecs", Unit::Microsecond),
        ("usec", Unit::Microsecond),
        ("µsecs", Unit::Microsecond),
        ("µsec", Unit::Microsecond),
        ("us", Unit::Microsecond),
        ("µs", Unit::Microsecond),
        ("nanoseconds", Unit::Nanosecond),
        ("nanosecond", Unit::Nanosecond),
        ("nanos", Unit::Nanosecond),
        ("nano", Unit::Nanosecond),
        ("nsecs", Unit::Nanosecond),
        ("nsec", Unit::Nanosecond),
        ("ns", Unit::Nanosecond),
    ]
}

/// The designators as byte strings, each with the unit that it names.
pub open spec fn designators() -> Seq<(Seq<u8>, Unit)> {
    labels_of(designator_table())
}

/// The designators as needles.
pub fn designator_needles() -> (needles: TrieNeedles<Unit>)
    ensures
        needles@ == designators(),
{
    let needles = TrieNeedles::new(
        &[
            ("years", Unit::Year),
            ("year", Unit::Year),
            ("yrs", Unit::Year),
            ("yr", Unit::Year),
            ("y", Unit::Year),
            ("months", Unit::Month),
            ("month", Unit::Month),
            ("mos", Unit::Month),
            ("mo", Unit::Month),
            ("weeks", Unit::Week),
            ("week", Unit::Week),
            ("wks", Unit::Week),
            ("wk", Unit::Week),
            ("w", Unit::Week),
            ("days", Unit::Day),
            ("day", Unit::Day),
            ("d", Unit::Day),
            ("hours", Unit::Hour),
            ("hour", Unit::Hour),
            ("hrs", Unit::Hour),
            ("hr", Unit::Hour),
            ("h", Unit::Hour),
            ("minutes", Unit::Minute),
            ("minute", Unit::Minute),
            ("mins", Unit::Minute),
            ("min", Unit::Minute),
            ("m", Unit::Minute),
            ("seconds", Unit::Second),
            ("second", Unit::Second),
            ("secs", Unit::Second),
            ("sec", Unit::Second),
            ("s", Unit::Second),
            ("milliseconds", Unit::Millisecond),
            ("millisecond", Unit::Millisecond),
            ("millis", Unit::Millisecond),
            ("milli", Unit::Millisecond),
            ("msecs", Unit::Millisecond),
            ("msec", Unit::Millisecond),
            ("ms", Unit::Millisecond),
            ("microseconds", Unit::Microsecond),
            ("microsecond", Unit::Microsecond),
            ("micros", Unit::Microsecond),
            ("micro", Unit::Microsecond),
            ("usecs", Unit::Microsecond),
            ("usec", Unit::Microsecond),
            ("µsecs", Unit::Microsecond),
            ("µsec", Unit::Microsecond),
            ("us", Unit::Microsecond),
            ("µs", Unit::Microsecond),
            ("nanoseconds", Unit::Nanosecond),
            ("nanosecond", Unit::Nanosecond),
            ("nanos", Unit::Nanosecond),
            ("nano", Unit::Nanosecond),
            ("nsecs", Unit::Nanosecond),
            ("nsec", Unit::Nanosecond),
            ("ns", Unit::Nanosecond),
        ],
    );
    assert(needles@ =~= designators());
    needles
}

} // verus!
