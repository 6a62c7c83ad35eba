//! Cutting lines of fixed-width fields into records.

use vstd::prelude::*;

verus! {

/// Where the text of a line ends: before its last byte, which is taken for
/// the line feed, and before a carriage return that stands in front of it.
pub open spec fn line_end(line: Seq<u8>) -> int {
    let end = line.len() - 1;
    if end > 0 && line[end - 1] == 13 {
        end - 1
    } else {
        end
    }
}

/// The bytes of `field` without the spaces at its end.
pub open spec fn trimmed(field: Seq<u8>) -> Seq<u8>
    decreases field.len(),
{
    if field.len() > 0 && field.last() == 32 {
        trimmed(field.drop_last())
    } else {
        field
    }
}

/// Where field `k` starts: after the widths of the fields before it.
pub open spec fn offset_of(widths: Seq<usize>, k: int) -> int
    decreases k,
{
    if k <= 0 {
        0
    } else {
        offset_of(widths, k - 1) + widths[k - 1]
    }
}

/// The position `x`, or `end` where `x` lies beyond it.
pub open spec fn clipped(x: int, end: int) -> int {
    if x <= end {
        x
    } else {
        end
    }
}

/// Field `k` of a line: the bytes from its offset on, as many as it is
/// wide or as the line still has, without the spaces at their end.
pub open spec fn field_of(line: Seq<u8>, widths: Seq<usize>, k: int) -> Seq<u8> {
    let end = line_end(line);
    trimmed(
        line.subrange(
            clipped(offset_of(widths, k), end),
            clipped(offset_of(widths, k) + widths[k], end),
        ),
    )
}

/// The fields of a line, one for each width.
pub open spec fn fields_of(line: Seq<u8>, widths: Seq<usize>) -> Seq<Seq<u8>> {
    Seq::new(widths.len(), |k: int| field_of(line, widths, k))
}

/// The views of a vector of fields.
pub open spec fn field_views(fields: Seq<Vec<u8>>) -> Seq<Seq<u8>> {
    fields.map_values(|f: Vec<u8>| f@)
}

/// The views of a vector of records.
pub open spec fn record_views(records: Seq<Vec<Vec<u8>>>) -> Seq<Seq<Seq<u8>>> {
    records.map_values(|r: Vec<Vec<u8>>| field_views(r@))
}

/// The offset of a field is no smaller than that of the field before it.
proof fn lemma_offset_not_negative(widths: Seq<usize>, k: int)
    ensures
        offset_of(widths, k) >= 0,
    decreases k,
{
    if k > 0 {
        lemma_offset_not_negative(widths, k - 1);
    }
}

/// Extracts fixed-width fields from one line.  The line holds a byte at
/// least; its last byte is taken for the line feed.
pub fn extract_line_fields(line: &[u8], field_widths: &[usize]) -> (record: Vec<Vec<u8>>)
    requires
        line.len() > 0,
    ensures
        field_views(record@) == fields_of(line@, field_widths@),
{
    // Calculate `end`, the length of our line with any trailing '\r' or
    // '\n' character stripped.
    let mut end = line.len() - 1;
    if end > 0 && line[end - 1] == 13 {
        end -= 1;
    }
    let mut record: Vec<Vec<u8>> = Vec::new();
    // Add each of our columns to the record.
    let mut offset: usize = 0;
    let mut k: usize = 0;
    assert(field_views(record@) =~= fields_of(line@, field_widths@).subrange(0, 0));
    while k < field_widths.len()
        invariant
            k <= field_widths.len(),
            end == line_end(line@),
            0 <= end < line.len(),
            offset == clipped(offset_of(field_widths@, k as int), usize::MAX as int),
            field_views(record@) == fields_of(line@, field_widths@).subrange(0, k as int),
        decreases field_widths.len() - k,
    {
        proof {
            lemma_offset_not_negative(field_widths@, k as int);
        }
        let width = field_widths[k];
        let next = offset.saturating_add(width);
        // Get our column.
        let start = if offset < end { offset } else { end };
        let mut stop = if next < end { next } else { end };
        let ghost whole = line@.subrange(start as int, stop as int);
        assert(start == clipped(offset_of(field_widths@, k as int), end as int));
        assert(stop == clipped(offset_of(field_widths@, k as int) + width, end as int));
        // Strip spaces.
        while stop > start && line[stop - 1] == 32
            invariant
                start <= stop <= end,
                end < line.len(),
                trimmed(whole) == trimmed(line@.subrange(start as int, stop as int)),
            decreases stop,
        {
            let ghost longer = line@.subrange(start as int, stop as int);
            assert(longer.drop_last() =~= line@.subrange(start as int, stop - 1));
            stop -= 1;
        }
        assert(trimmed(whole) == line@.subrange(start as int, stop as int));
        // Add to our output record.
        let mut field: Vec<u8> = Vec::new();
        let mut i: usize = start;
        while i < stop
            invariant
                start <= i <= stop,
                stop < line.len(),
                field@ == line@.subrange(start as int, i as int),
            decreases stop - i,
        {
            field.push(line[i]);
            assert(field@ =~= line@.subrange(start as int, i + 1));
            i += 1;
        }
        let ghost sofar = field_views(record@);
        record.push(field);
        assert(field_views(record@) =~= sofar.push(field_of(line@, field_widths@, k as int)));
        assert(field_views(record@) =~= fields_of(line@, field_widths@).subrange(0, k + 1));
        // Increment our offset.
        offset = next;
        k += 1;
    }
    assert(fields_of(line@, field_widths@).subrange(0, field_widths.len() as int) =~= fields_of(
        line@,
        field_widths@,
    ));
    record
}

/// The lines of `input`: each ends with its line feed, but for the last,
/// which ends where the input ends.
pub open spec fn lines_of(input: Seq<u8>) -> Seq<Seq<u8>>
    decreases input.len(),
{
    if input.len() == 0 {
        Seq::empty()
    } else {
        let before = lines_of(input.drop_last());
        if before.len() > 0 && before.last().last() != 10 {
            before.drop_last().push(before.last().push(input.last()))
        } else {
            before.push(seq![input.last()])
        }
    }
}

/// The records of all the lines of `input`.
pub open spec fn records_of(input: Seq<u8>, widths: Seq<usize>) -> Seq<Seq<Seq<u8>>> {
    lines_of(input).map_values(|line: Seq<u8>| fields_of(line, widths))
}

/// No line is empty.
pub proof fn lemma_lines_hold_bytes(input: Seq<u8>)
    ensures
        forall|i: int| 0 <= i < lines_of(input).len() ==> (#[trigger] lines_of(input)[i]).len() > 0,
    decreases input.len(),
{
    if input.len() > 0 {
        lemma_lines_hold_bytes(input.drop_last());
        let before = lines_of(input.drop_last());
        let all = lines_of(input);
        assert forall|i: int| 0 <= i < all.len() implies (#[trigger] all[i]).len() > 0 by {
            if i < all.len() - 1 {
                assert(all[i] == before[i]);
            }
        }
    }
}

/// Extracts fixed-width fields from the input, line by line.  Gives the
/// records, and the number of bytes that were read.
pub fn extract_fields(input: &[u8], field_widths: &[usize]) -> (out: (Vec<Vec<Vec<u8>>>, usize))
    ensures
        record_views(out.0@) == records_of(input@, field_widths@),
        out.1 == input.len(),
{
    let mut records: Vec<Vec<Vec<u8>>> = Vec::new();
    let mut line: Vec<u8> = Vec::new();
    let mut i: usize = 0;
    assert(input@.subrange(0, 0) =~= Seq::<u8>::empty());
    assert(record_views(records@) =~= Seq::<Seq<Seq<u8>>>::empty());
    while i < input.len()
        invariant
            i <= input.len(),
            line.len() > 0 ==> line@.last() != 10,
            line.len() > 0 ==> lines_of(input@.subrange(0, i as int)).len() > 0 && lines_of(
                input@.subrange(0, i as int),
            ).last() == line@ && record_views(records@) == lines_of(
                input@.subrange(0, i as int),
            ).drop_last().map_values(|l: Seq<u8>| fields_of(l, field_widths@)),
            line.len() == 0 ==> record_views(records@) == records_of(
                input@.subrange(0, i as int),
                field_widths@,
            ) && (lines_of(input@.subrange(0, i as int)).len() > 0 ==> lines_of(
                input@.subrange(0, i as int),
            ).last().last() == 10),
        decreases input.len() - i,
    {
        let ghost before = lines_of(input@.subrange(0, i as int));
        let ghost upto = input@.subrange(0, i + 1);
        assert(upto.drop_last() =~= input@.subrange(0, i as int));
        assert(upto.last() == input@[i as int]);
        proof {
            lemma_lines_hold_bytes(input@.subrange(0, i as int));
        }
        let ghost open = line@;
        line.push(input[i]);
        let ghost after = lines_of(upto);
        assert(after.len() > 0 && after.last() == line@ && after.drop_last() =~= (if open.len() > 0 {
            before.drop_last()
        } else {
            before
        }));
        if input[i] == 10 {
            let record = extract_line_fields(line.as_slice(), field_widths);
            let ghost sofar = record_views(records@);
            records.push(record);
            assert(record_views(records@) =~= sofar.push(fields_of(line@, field_widths@)));
            assert(after =~= after.drop_last().push(line@));
            assert(record_views(records@) =~= records_of(upto, field_widths@));
            line = Vec::new();
        }
        i += 1;
    }
    assert(input@.subrange(0, input.len() as int) =~= input@);
    if line.len() > 0 {
        let ghost all = lines_of(input@);
        let record = extract_line_fields(line.as_slice(), field_widths);
        let ghost sofar = record_views(records@);
        records.push(record);
        assert(record_views(records@) =~= sofar.push(fields_of(line@, field_widths@)));
        assert(all =~= all.drop_last().push(line@));
        assert(record_views(records@) =~= records_of(input@, field_widths@));
    }
    (records, input.len())
}

} // verus!
