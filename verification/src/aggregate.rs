//! From a region of bytes to the statistics of each key.
//!
//! The region is read once, line by line. A comment is passed over, every
//! other line must be a record, and the first line that is not ends the run
//! with its error.

use vstd::prelude::*;
use crate::decode::{decimal_value, is_decimal, parse_temperature};
use crate::error::FormatError;
use crate::scan::{after_first_line, find_byte_from, first_line, has_separator, is_comment,
    is_first_at, key_part, lemma_position, lemma_position_is, position, skip_line, split_line,
    value_part, COMMENT, NEWLINE, SEPARATOR};
use crate::table::{lemma_absorb_wf, merged, Summary, Table};

verus! {

/// One record: a key and a value in tenths.
pub struct Record {
    pub key: Seq<u8>,
    pub value: int,
}

/// The values that `records` hold for `key`, in the order of the records.
pub open spec fn values_for(records: Seq<Record>, key: Seq<u8>) -> Seq<int>
    decreases records.len(),
{
    if records.len() == 0 {
        Seq::empty()
    } else {
        let before = values_for(records.drop_last(), key);
        if records.last().key == key {
            before.push(records.last().value)
        } else {
            before
        }
    }
}

/// The sum of `values`.
pub open spec fn total(values: Seq<int>) -> int
    decreases values.len(),
{
    if values.len() == 0 {
        0
    } else {
        total(values.drop_last()) + values.last()
    }
}

/// The least of `values`, where there is any.
pub open spec fn least(values: Seq<int>) -> int
    decreases values.len(),
{
    if values.len() <= 1 {
        values[0]
    } else {
        let before = least(values.drop_last());
        if values.last() < before {
            values.last()
        } else {
            before
        }
    }
}

/// The greatest of `values`, where there is any.
pub open spec fn greatest(values: Seq<int>) -> int
    decreases values.len(),
{
    if values.len() <= 1 {
        values[0]
    } else {
        let before = greatest(values.drop_last());
        if values.last() > before {
            values.last()
        } else {
            before
        }
    }
}

/// The count, the least, the greatest and the sum of `values`.
pub open spec fn summary_of(values: Seq<int>) -> Summary {
    Summary { count: values.len(), min: least(values), max: greatest(values), sum: total(values) }
}

/// What `records` come to: each key that occurs in them, with the summary of
/// its values.
pub open spec fn aggregate_model(records: Seq<Record>) -> Map<Seq<u8>, Summary> {
    Map::new(
        |k: Seq<u8>| values_for(records, k).len() > 0,
        |k: Seq<u8>| summary_of(values_for(records, k)),
    )
}

/// What one line holds: nothing for a comment, a record, or the reason why
/// it is neither.
pub open spec fn parse_line(line: Seq<u8>) -> Result<Option<Record>, FormatError> {
    if is_comment(line) {
        Ok(None)
    } else if !has_separator(line) {
        Err(FormatError::MissingSeparator)
    } else if !is_decimal(value_part(line)) {
        Err(FormatError::MalformedValue)
    } else {
        Ok(Some(Record { key: key_part(line), value: decimal_value(value_part(line)) }))
    }
}

/// `done`, followed by the records in `tail`, or the error in `tail`.
pub open spec fn prepend(done: Seq<Record>, tail: Result<Seq<Record>, FormatError>) -> Result<
    Seq<Record>,
    FormatError,
> {
    match tail {
        Ok(records) => Ok(done + records),
        Err(e) => Err(e),
    }
}

/// The records of `buf` in the order of its lines, or the error of the first
/// line that is neither a comment nor a record.
pub open spec fn parse_records(buf: Seq<u8>) -> Result<Seq<Record>, FormatError>
    decreases buf.len(),
{
    if buf.len() == 0 {
        Ok(Seq::empty())
    } else {
        match parse_line(first_line(buf)) {
            Err(e) => Err(e),
            Ok(Some(record)) => prepend(seq![record], parse_records(after_first_line(buf))),
            Ok(None) => parse_records(after_first_line(buf)),
        }
    }
}

/// The least of some values is one of them and above none of them, and the
/// greatest is one of them and below none of them.
pub proof fn lemma_least_greatest(values: Seq<int>)
    requires
        values.len() > 0,
    ensures
        forall|i: int| 0 <= i < values.len() ==> least(values) <= #[trigger] values[i] <= greatest(values),
        exists|i: int| 0 <= i < values.len() && #[trigger] values[i] == least(values),
        exists|i: int| 0 <= i < values.len() && #[trigger] values[i] == greatest(values),
    decreases values.len(),
{
    if values.len() <= 1 {
        assert(values[0] == least(values));
        assert(values[0] == greatest(values));
    } else {
        let front = values.drop_last();
        lemma_least_greatest(front);
        let i = choose|i: int| 0 <= i < front.len() && #[trigger] front[i] == least(front);
        let j = choose|j: int| 0 <= j < front.len() && #[trigger] front[j] == greatest(front);
        assert(values[i] == front[i]);
        assert(values[j] == front[j]);
        let last = values.len() - 1;
        assert(values[last] == values.last());
        assert forall|k: int| 0 <= k < values.len() implies least(values) <= #[trigger] values[k] <= greatest(values) by {
            if k < front.len() {
                assert(values[k] == front[k]);
            }
        }
    }
}

/// The summary of some values and one more is the summary of the values,
/// with the one more taken in.
pub proof fn lemma_summary_push(values: Seq<int>, v: int)
    ensures
        summary_of(values.push(v)) == if values.len() == 0 {
            Summary::single(v)
        } else {
            summary_of(values).absorb(v)
        },
{
    assert(values.push(v).drop_last() =~= values);
    if values.len() == 0 {
        assert(total(values) == 0);
    }
}

/// The summary of any values, one at least, is well formed.
pub proof fn lemma_summary_wf(values: Seq<int>)
    requires
        values.len() > 0,
    ensures
        summary_of(values).wf(),
    decreases values.len(),
{
    let front = values.drop_last();
    assert(front.push(values.last()) =~= values);
    lemma_summary_push(front, values.last());
    if front.len() > 0 {
        lemma_summary_wf(front);
        lemma_absorb_wf(summary_of(front), values.last());
    }
}

/// One more record changes what the records come to for its key only, and
/// there as [`Table::update`] does.
pub proof fn lemma_aggregate_push(records: Seq<Record>, record: Record)
    ensures
        aggregate_model(records.push(record)) == aggregate_model(records).insert(
            record.key,
            merged(aggregate_model(records), record.key, record.value),
        ),
{
    let grown = records.push(record);
    assert(grown.drop_last() =~= records);
    lemma_summary_push(values_for(records, record.key), record.value);
    assert(aggregate_model(grown) =~= aggregate_model(records).insert(
        record.key,
        merged(aggregate_model(records), record.key, record.value),
    ));
}

/// Whatever the records, what they come to for a key is well formed: the
/// least value is not above the greatest, and the total lies between the
/// count times the one and the count times the other.
pub proof fn lemma_aggregate_wf(records: Seq<Record>)
    ensures
        forall|k: Seq<u8>| #[trigger]
            aggregate_model(records).contains_key(k) ==> aggregate_model(records)[k].wf(),
{
    assert forall|k: Seq<u8>| #[trigger] aggregate_model(records).contains_key(k) implies aggregate_model(
        records,
    )[k].wf() by {
        lemma_summary_wf(values_for(records, k));
    }
}

/// A comment adds nothing: a region that starts with `#` holds the records
/// of what follows its first line.
pub proof fn lemma_comment_skipped(buf: Seq<u8>)
    requires
        buf.len() > 0,
        buf[0] == COMMENT,
    ensures
        parse_records(buf) == parse_records(after_first_line(buf)),
        after_first_line(buf).len() < buf.len(),
{
    lemma_position(buf, NEWLINE);
    assert(first_line(buf)[0] == buf[0]);
}

/// The last line need not end in a newline: a region that does not end in
/// one holds the records that it holds with one added.
pub proof fn lemma_final_newline_optional(buf: Seq<u8>)
    requires
        buf.len() > 0,
        buf.last() != NEWLINE,
    ensures
        parse_records(buf.push(NEWLINE)) == parse_records(buf),
    decreases buf.len(),
{
    let ended = buf.push(NEWLINE);
    lemma_position(buf, NEWLINE);
    let p = position(buf, NEWLINE);
    if p < buf.len() {
        assert(is_first_at(ended, NEWLINE, p)) by {
            assert(ended[p] == buf[p]);
            assert forall|j: int| 0 <= j < p implies ended[j] != NEWLINE by {
                assert(ended[j] == buf[j]);
            }
        }
        lemma_position_is(ended, NEWLINE, p);
        let rest = after_first_line(buf);
        assert(first_line(ended) =~= first_line(buf));
        assert(after_first_line(ended) =~= rest.push(NEWLINE));
        assert(rest.last() == buf.last());
        lemma_final_newline_optional(rest);
    } else {
        assert(is_first_at(ended, NEWLINE, buf.len() as int)) by {
            assert forall|j: int| 0 <= j < buf.len() implies ended[j] != NEWLINE by {
                assert(ended[j] == buf[j]);
            }
        }
        lemma_position_is(ended, NEWLINE, buf.len() as int);
        assert(first_line(ended) =~= first_line(buf));
        assert(after_first_line(ended) =~= Seq::<u8>::empty());
        assert(after_first_line(buf) =~= Seq::<u8>::empty());
    }
}

/// No records come to nothing.
pub proof fn lemma_aggregate_empty()
    ensures
        aggregate_model(Seq::empty()) == Map::<Seq<u8>, Summary>::empty(),
{
    assert(aggregate_model(Seq::empty()) =~= Map::<Seq<u8>, Summary>::empty());
}

/// Takes one line into `table`: a comment changes nothing, a record is taken
/// as [`Table::update`] takes it, and any other line is rejected and changes
/// nothing.
///
/// `line` is the line without the newline that ended it.
pub fn take_line(table: &mut Table, line: &[u8]) -> (result: Result<(), FormatError>)
    requires
        old(table).wf(),
        old(table).observed() < u64::MAX,
    ensures
        final(table).wf(),
        match parse_line(line@) {
            Ok(Some(record)) => {
                &&& result == Ok::<(), FormatError>(())
                &&& final(table)@ == old(table)@.insert(
                    record.key,
                    merged(old(table)@, record.key, record.value),
                )
                &&& final(table).observed() == old(table).observed() + 1
            },
            Ok(None) => {
                &&& result == Ok::<(), FormatError>(())
                &&& final(table)@ == old(table)@
                &&& final(table).observed() == old(table).observed()
            },
            Err(e) => {
                &&& result == Err::<(), FormatError>(e)
                &&& final(table)@ == old(table)@
                &&& final(table).observed() == old(table).observed()
            },
        },
{
    let n = line.len();
    if n > 0 && line[0] == COMMENT {
        return Ok(());
    }
    let sep = find_byte_from(line, 0, SEPARATOR);
    proof {
        lemma_position_is(line@, SEPARATOR, sep as int);
    }
    if sep == n {
        return Err(FormatError::MissingSeparator);
    }
    let key = &line[0..sep];
    let value = &line[sep + 1..n];
    assert(key@ =~= key_part(line@));
    assert(value@ =~= value_part(line@));
    match parse_temperature(value) {
        Err(e) => Err(e),
        Ok(v) => {
            table.update(key, v);
            Ok(())
        },
    }
}

/// Reads every line of `buf` and gives the statistics of each key.
///
/// The last line need not end in a newline. The first line that is neither a
/// comment nor a record ends the run with its error, and nothing is given.
pub fn aggregate(buf: &[u8]) -> (result: Result<Table, FormatError>)
    ensures
        match result {
            Ok(table) => {
                &&& table.wf()
                &&& parse_records(buf@) matches Ok(records)
                &&& table@ == aggregate_model(records)
                &&& table.observed() == records.len()
            },
            Err(e) => parse_records(buf@) matches Err(first) && first == e,
        },
{
    let mut table = Table::new();
    let mut rest: &[u8] = buf;
    let size = buf.len();
    let ghost mut done: Seq<Record> = Seq::empty();
    proof {
        lemma_aggregate_empty();
        assert(prepend(done, parse_records(buf@)) == parse_records(buf@)) by {
            match parse_records(buf@) {
                Ok(records) => {
                    assert(done + records =~= records);
                },
                Err(e) => {},
            }
        }
    }
    while rest.len() > 0
        invariant
            table.wf(),
            table@ == aggregate_model(done),
            table.observed() == done.len(),
            done.len() + rest@.len() <= size,
            parse_records(buf@) == prepend(done, parse_records(rest@)),
        decreases rest@.len(),
    {
        let ghost line = first_line(rest@);
        let ghost tail = parse_records(after_first_line(rest@));
        proof {
            lemma_position(rest@, NEWLINE);
        }
        if rest[0] == COMMENT {
            assert(line[0] == rest@[0]);
            rest = skip_line(rest);
        } else {
            assert(!is_comment(line)) by {
                if line.len() > 0 {
                    assert(line[0] == rest@[0]);
                }
            }
            match split_line(rest) {
                Err(e) => {
                    return Err(e);
                },
                Ok((key, value, after)) => {
                    match parse_temperature(value) {
                        Err(e) => {
                            return Err(e);
                        },
                        Ok(v) => {
                            let ghost record = Record { key: key@, value: v as int };
                            proof {
                                lemma_aggregate_push(done, record);
                                match tail {
                                    Ok(records) => {
                                        assert(done.push(record) + records =~= done + (seq![record]
                                            + records));
                                    },
                                    Err(e) => {},
                                }
                            }
                            table.update(key, v);
                            proof {
                                done = done.push(record);
                            }
                            rest = after;
                        },
                    }
                },
            }
        }
    }
    proof {
        assert(done + Seq::<Record>::empty() =~= done);
    }
    Ok(table)
}

} // verus!
