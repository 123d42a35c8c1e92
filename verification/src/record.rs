//! Turning one data line into a typed sample.

use vstd::prelude::*;
use crate::date::Date;
use crate::split::{split_byte, split_on, views_of};
use crate::timestamp::{parse_timestamp_date, rfc3339_date_of};
use crate::value::{parse_value, value_of, Value};

verus! {

/// One timestamped measurement, parsed from a data line.
#[derive(Clone, Copy, PartialEq, Eq, Structural, Debug)]
pub struct Sample {
    pub value: Value,
    pub date: Date,
}

impl Sample {
    pub open spec fn wf(self) -> bool {
        self.value.valid() && self.date.valid()
    }
}

/// Why a data line was rejected.
#[derive(Clone, Copy, PartialEq, Eq, Structural, Debug)]
pub enum ParseError {
    /// Fewer than two comma-separated fields.
    MissingField,
    /// The first field is not a valid RFC 3339 date-and-time.
    BadTimestamp,
    /// The second field is not a valid numeric value.
    BadValue,
}

/// The comma-separated fields of a line.
pub open spec fn fields_of(line: Seq<u8>) -> Seq<Seq<u8>> {
    split_on(line, 44)
}

/// What parsing a line yields: the sample its first two fields spell,
/// or the first failure among too few fields, a bad timestamp and a
/// bad value, in that order.
pub open spec fn parse_record_spec(line: Seq<u8>) -> Result<Sample, ParseError> {
    let fields = fields_of(line);
    if fields.len() < 2 {
        Err(ParseError::MissingField)
    } else if rfc3339_date_of(fields[0]) is None {
        Err(ParseError::BadTimestamp)
    } else if value_of(fields[1]) is None {
        Err(ParseError::BadValue)
    } else {
        let (y, m, d) = rfc3339_date_of(fields[0])->Some_0;
        Ok(
            Sample {
                value: value_of(fields[1])->Some_0,
                date: Date { year: y as u16, month: m as u8, day: d as u8 },
            },
        )
    }
}

/// Parses one line, exactly as `parse_record_spec` reads it.
pub fn parse_record(line: &Vec<u8>) -> (r: Result<Sample, ParseError>)
    ensures
        r == parse_record_spec(line@),
        r matches Ok(s) ==> s.wf(),
{
    let fields = split_byte(line, 44);
    assert(views_of(fields@) == fields_of(line@));
    if fields.len() < 2 {
        return Err(ParseError::MissingField);
    }
    assert(fields@[0]@ == fields_of(line@)[0]);
    assert(fields@[1]@ == fields_of(line@)[1]);
    let date = match parse_timestamp_date(&fields[0]) {
        None => {
            return Err(ParseError::BadTimestamp);
        },
        Some(d) => d,
    };
    let value = match parse_value(&fields[1]) {
        None => {
            return Err(ParseError::BadValue);
        },
        Some(v) => v,
    };
    let s = Sample { value, date };
    proof {
        let (y, m, d) = rfc3339_date_of(fields_of(line@)[0])->Some_0;
        assert(date.year == y as u16 && date.month == m as u8 && date.day == d as u8);
    }
    Ok(s)
}

} // verus!
