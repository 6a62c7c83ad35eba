//! The geocoding pipeline: what is decided once per run, how rows are
//! grouped into batches, how a batch is geocoded, and what is written.

use std::sync::Arc;
use vstd::prelude::*;
use vstd::string::*;

use crate::addresses::{
    conflicting_columns, conversion_error, converted, convertible, output_names, AddressColumnKeys,
    AddressColumnSpec, AddressText,
};
use crate::smartystreets::{AddressRequest, AddressResponse, MatchStrategy};
use crate::errors::Error;
use crate::structure::{
    all_plain, empty_columns, first_unexpected, value_columns, Path, Structure,
};
use crate::text::{copy_texts, join, join_spec, same_text, texts};

verus! {

/// The number of batches to buffer between two stages.
pub const CHANNEL_BUFFER: usize = 8;

/// The number of batches that are geocoded at one time.
pub const CONCURRENCY: usize = 48;

/// The number of addresses to pass to the service at one time.
pub const GEOCODE_SIZE: usize = 72;

/// What should we do if a geocoding output column has the same name as a
/// column in the input?
#[derive(Debug, Clone, Copy, Eq, PartialEq, Structural)]
pub enum OnDuplicateColumns {
    /// Fail with an error.
    Error,
    /// Replace existing columns with the same name.
    Replace,
    /// Leave the old columns in place and append the new ones.
    Append,
}

/// The policy that goes by the name `s`, if any does.
pub open spec fn policy_named(s: Seq<char>) -> Option<OnDuplicateColumns> {
    if s == "error"@ {
        Some(OnDuplicateColumns::Error)
    } else if s == "replace"@ {
        Some(OnDuplicateColumns::Replace)
    } else if s == "append"@ {
        Some(OnDuplicateColumns::Append)
    } else {
        None
    }
}

impl OnDuplicateColumns {
    /// Reads a policy from its name: `error`, `replace` or `append`.
    pub fn from_str(s: &str) -> (r: Result<OnDuplicateColumns, Error>)
        ensures
            match policy_named(s@) {
                Some(policy) => r == Ok::<OnDuplicateColumns, Error>(policy),
                None => r matches Err(Error::UnknownDuplicateColumns(t)) && t@ == s@,
            },
    {
        if same_text(s, "error") {
            Ok(OnDuplicateColumns::Error)
        } else if same_text(s, "replace") {
            Ok(OnDuplicateColumns::Replace)
        } else if same_text(s, "append") {
            Ok(OnDuplicateColumns::Append)
        } else {
            Err(Error::UnknownDuplicateColumns(s.to_owned()))
        }
    }
}

impl Default for OnDuplicateColumns {
    fn default() -> (r: Self)
        ensures
            r == OnDuplicateColumns::Error,
    {
        OnDuplicateColumns::Error
    }
}

/// The fields of `row` at the first `n` positions whose flag is not set.
pub open spec fn kept_upto(row: Seq<Seq<char>>, flags: Seq<bool>, n: int) -> Seq<Seq<char>>
    decreases n,
{
    if n <= 0 {
        Seq::empty()
    } else if flags[n - 1] {
        kept_upto(row, flags, n - 1)
    } else {
        kept_upto(row, flags, n - 1).push(row[n - 1])
    }
}

/// The fields of `row` whose flag is not set.  Where `row` and `flags` differ
/// in length, what lies beyond the shorter of the two is dropped.
pub open spec fn kept_columns(row: Seq<Seq<char>>, flags: Seq<bool>) -> Seq<Seq<char>> {
    kept_upto(row, flags, if row.len() <= flags.len() { row.len() as int } else { flags.len() as int })
}

/// How many fields are kept depends on the flags alone.
pub proof fn lemma_kept_width(a: Seq<Seq<char>>, b: Seq<Seq<char>>, flags: Seq<bool>, n: int)
    ensures
        kept_upto(a, flags, n).len() == kept_upto(b, flags, n).len(),
        kept_upto(a, flags, n).len() <= (if n <= 0 { 0 } else { n }),
    decreases n,
{
    if n > 0 {
        lemma_kept_width(a, b, flags, n - 1);
    }
}

/// With no flag set, every field is kept.
proof fn lemma_kept_all(row: Seq<Seq<char>>, flags: Seq<bool>, n: int)
    requires
        0 <= n <= row.len(),
        n <= flags.len(),
        forall|i: int| 0 <= i < n ==> !#[trigger] flags[i],
    ensures
        kept_upto(row, flags, n) == row.subrange(0, n),
    decreases n,
{
    if n > 0 {
        lemma_kept_all(row, flags, n - 1);
        assert(row.subrange(0, n) =~= row.subrange(0, n - 1).push(row[n - 1]));
    } else {
        assert(row.subrange(0, n) =~= Seq::<Seq<char>>::empty());
    }
}

/// Removes the columns from `row` whose flag in `remove_column_flags` is set.
pub fn remove_columns(row: &Vec<String>, remove_column_flags: &Vec<bool>) -> (out: Vec<String>)
    ensures
        texts(out@) == kept_columns(texts(row@), remove_column_flags@),
{
    let n = if row.len() <= remove_column_flags.len() {
        row.len()
    } else {
        remove_column_flags.len()
    };
    let mut out: Vec<String> = Vec::new();
    let mut i: usize = 0;
    assert(texts(out@) =~= Seq::<Seq<char>>::empty());
    while i < n
        invariant
            i <= n,
            n <= row.len(),
            n <= remove_column_flags.len(),
            texts(out@) == kept_upto(texts(row@), remove_column_flags@, i as int),
        decreases n - i,
    {
        if !remove_column_flags[i] {
            let ghost sofar = texts(out@);
            out.push(row[i].clone());
            assert(texts(out@) =~= sofar.push(row@[i as int]@));
        }
        i += 1;
    }
    out
}

/// The number of rows in a batch, for a given number of addresses in each
/// row: as many as fit into one request to the service, and one at least.
pub open spec fn chunk_size_spec(prefix_count: int) -> int {
    if GEOCODE_SIZE as int / prefix_count >= 1 {
        GEOCODE_SIZE as int / prefix_count
    } else {
        1
    }
}

/// Decides how many rows go into one batch.
pub fn chunk_size_for(prefix_count: usize) -> (size: usize)
    requires
        prefix_count > 0,
    ensures
        size == chunk_size_spec(prefix_count as int),
        size >= 1,
{
    let size = GEOCODE_SIZE / prefix_count;
    if size >= 1 {
        size
    } else {
        1
    }
}

/// Data about the table that goes with every batch.
#[derive(Debug)]
pub struct Shared {
    /// Which columns contain addresses that we need to geocode?
    pub spec: AddressColumnSpec<usize>,
    /// Which fields of a response do we want to store in our output?
    pub structure: Structure,
    /// The header of the output table.
    pub out_headers: Vec<String>,
}

/// The views of a vector of rows.
pub open spec fn row_texts(rows: Seq<Vec<String>>) -> Seq<Seq<Seq<char>>> {
    rows.map_values(|row: Vec<String>| texts(row@))
}

/// Every row has the columns that `spec` points at.
pub open spec fn rows_in_range(spec: AddressColumnSpec<usize>, rows: Seq<Vec<String>>) -> bool {
    forall|r: int| 0 <= r < rows.len() ==> spec.in_range((#[trigger] rows[r]).len() as nat)
}

/// A batch of rows to geocode.
#[derive(Debug)]
pub struct Chunk {
    /// Shared information about the table, including headers.
    shared: Arc<Shared>,
    /// The rows to geocode.
    rows: Vec<Vec<String>>,
}

impl Chunk {
    /// The information that this batch shares with the others of its run.
    pub closed spec fn shared(self) -> Shared {
        *self.shared
    }

    /// The rows of this batch, in the order in which they were read.
    pub closed spec fn rows(self) -> Seq<Seq<Seq<char>>> {
        row_texts(self.rows@)
    }

    /// Every row has the columns that the column specification points at.
    #[verifier::type_invariant]
    pub closed spec fn wf(self) -> bool {
        rows_in_range(self.shared.spec, self.rows@)
    }

    /// The number of rows in this batch.
    pub fn len(&self) -> (n: usize)
        ensures
            n == self.rows().len(),
    {
        self.rows.len()
    }

    /// The header of the output table.
    pub fn out_headers(&self) -> (h: &Vec<String>)
        ensures
            texts(h@) == texts(self.shared().out_headers@),
    {
        &self.shared.out_headers
    }

    /// The rows of this batch.
    pub fn rows_ref(&self) -> (rows: &Vec<Vec<String>>)
        ensures
            row_texts(rows@) == self.rows(),
    {
        &self.rows
    }
}

/// A message sent from one stage to the next.
#[derive(Debug)]
pub enum Message {
    /// A batch of rows.
    Chunk(Chunk),
    /// The end of our stream. Sent when all data has been processed
    /// successfuly.
    EndOfStream,
}

impl Message {
    /// The rows that this message carries: those of its batch, or none.
    pub open spec fn rows(self) -> Seq<Seq<Seq<char>>> {
        match self {
            Message::Chunk(chunk) => chunk.rows(),
            Message::EndOfStream => Seq::empty(),
        }
    }
}

/// Another handle on the same shared data.
///
/// Calls `Arc::clone` of std, which hands out a new pointer to the same
/// value: what the result points at is what the argument points at.
#[verifier::external_body]
fn share(shared: &Arc<Shared>) -> (out: Arc<Shared>)
    ensures
        *out == **shared,
{
    Arc::clone(shared)
}

/// Which input columns are removed: under the policy `Replace`, those that
/// carry the name of an output column; under any other policy, none.
pub open spec fn removal_flags(
    headers: Seq<Seq<char>>,
    names: Seq<Seq<char>>,
    policy: OnDuplicateColumns,
) -> Seq<bool> {
    Seq::new(
        headers.len(),
        |i: int| policy == OnDuplicateColumns::Replace && names.contains(headers[i]),
    )
}

/// The names of the input columns at `positions`.
pub open spec fn names_at(headers: Seq<Seq<char>>, positions: Seq<int>) -> Seq<Seq<char>> {
    positions.map_values(|i: int| headers[i])
}

/// The number of columns that a row keeps under `flags`.
pub open spec fn kept_count(flags: Seq<bool>) -> nat {
    kept_upto(Seq::empty(), flags, flags.len() as int).len()
}

/// A position is among the conflicting columns exactly if it lies in the
/// header and the name there is one of `names`.
proof fn lemma_conflicts(headers: Seq<Seq<char>>, names: Seq<Seq<char>>, i: int)
    ensures
        conflicting_columns(headers, names).contains(i) <==> (0 <= i < headers.len()
            && names.contains(headers[i])),
    decreases headers.len(),
{
    if headers.len() > 0 {
        let before = conflicting_columns(headers.drop_last(), names);
        lemma_conflicts(headers.drop_last(), names, i);
        if i < headers.len() - 1 && 0 <= i {
            assert(headers.drop_last()[i] == headers[i]);
        }
        if names.contains(headers.last()) {
            let all = before.push(headers.len() - 1);
            assert(all[before.len() as int] == headers.len() - 1);
            if before.contains(i) {
                let k = choose|k: int| 0 <= k < before.len() && before[k] == i;
                assert(all[k] == i);
            }
            if all.contains(i) {
                let k = choose|k: int| 0 <= k < all.len() && all[k] == i;
                if k < before.len() {
                    assert(before[k] == i);
                }
            }
        }
    }
}

/// Groups the rows of a table into batches, one row at a time.
#[derive(Debug)]
pub struct ChunkAssembler {
    /// What every batch of this run shares.
    shared: Arc<Shared>,
    /// Whether any input column is removed.
    should_remove_columns: bool,
    /// For each input column, whether it is removed.
    remove_column_flags: Vec<bool>,
    /// The number of rows in a full batch.
    chunk_size: usize,
    /// The number of columns that a row keeps.
    kept_width: usize,
    /// The rows that wait for their batch to fill.
    rows: Vec<Vec<String>>,
    /// Whether a batch has been handed out.
    sent_chunk: bool,
    /// What there is to warn of, if anything.
    warning: Option<String>,
}

/// What the user is warned of when input columns carry the names of output
/// columns and the run goes on: under `Replace`, that the input columns are
/// replaced; under `Append`, that the output holds columns of the same
/// name.  `names` lists the columns.
pub open spec fn duplicate_warning(policy: OnDuplicateColumns, names: Seq<Seq<char>>) -> Option<
    Seq<char>,
> {
    if names.len() == 0 {
        None
    } else {
        match policy {
            OnDuplicateColumns::Error => None,
            OnDuplicateColumns::Replace => Some(
                "replacing input columns: "@ + join_spec(names, ", "@),
            ),
            OnDuplicateColumns::Append => Some(
                "output contains duplicate columns: "@ + join_spec(names, ", "@),
            ),
        }
    }
}

impl ChunkAssembler {
    /// What there is to warn the user of, if anything.
    pub closed spec fn warning_text(self) -> Option<Seq<char>> {
        match self.warning {
            Some(text) => Some(text@),
            None => None,
        }
    }

    /// What there is to warn the user of, if anything.
    pub fn warning(&self) -> (r: Option<&str>)
        ensures
            match r {
                Some(text) => self.warning_text() == Some(text@),
                None => self.warning_text() is None,
            },
    {
        match &self.warning {
            Some(text) => Some(text.as_str()),
            None => None,
        }
    }

    /// What every batch of this run shares.
    pub closed spec fn shared(self) -> Shared {
        *self.shared
    }

    /// For each input column, whether it is removed from every row.
    pub closed spec fn flags(self) -> Seq<bool> {
        self.remove_column_flags@
    }

    /// The number of rows in a full batch.
    pub closed spec fn chunk_size(self) -> int {
        self.chunk_size as int
    }

    /// The rows that wait for their batch to fill, in the order in which
    /// they came.
    pub closed spec fn pending(self) -> Seq<Seq<Seq<char>>> {
        row_texts(self.rows@)
    }

    /// Whether a batch has been handed out.
    pub closed spec fn sent_chunk(self) -> bool {
        self.sent_chunk
    }

    /// A batch holds a row at least, fewer rows wait than fill a batch, and
    /// every waiting row has the columns that the column specification
    /// points at.
    #[verifier::type_invariant]
    pub closed spec fn wf(self) -> bool {
        &&& self.chunk_size >= 1
        &&& self.rows.len() < self.chunk_size
        &&& forall|r: int| 0 <= r < self.rows.len() ==> (#[trigger] self.rows[r]).len() == self.kept_width
        &&& self.shared.spec.in_range(self.kept_width as nat)
        &&& self.kept_width == kept_count(self.remove_column_flags@)
        &&& !self.should_remove_columns ==> forall|i: int|
            0 <= i < self.remove_column_flags.len() ==> !#[trigger] self.remove_column_flags[i]
    }

    /// What holds of every assembler, for those who cannot see inside.
    pub proof fn lemma_wf(self)
        requires
            self.wf(),
        ensures
            self.chunk_size() >= 1,
            self.pending().len() < self.chunk_size(),
    {
    }

    /// Decides, from the header of the input, everything that holds for the
    /// whole run: which input columns collide with output columns and what
    /// becomes of them, where the addresses stand, how many rows go into a
    /// batch, and what the header of the output is.
    ///
    /// Under the policy `Error` a collision fails the run, with the names of
    /// all colliding columns.  Under `Replace` the colliding input columns
    /// are removed, from the header and from every row.  Under `Append` they
    /// stay.  The output columns follow the input columns that are left.
    pub fn new(
        spec: AddressColumnSpec<String>,
        structure: Structure,
        on_duplicate_columns: OnDuplicateColumns,
        in_headers: Vec<String>,
    ) -> (r: Result<ChunkAssembler, Error>)
        requires
            spec.prefix_views().len() > 0,
        ensures
            ({
                let h = texts(in_headers@);
                let names = output_names(spec.prefix_views(), structure.paths());
                let conflicts = conflicting_columns(h, names);
                let flags = removal_flags(h, names, on_duplicate_columns);
                let kept = kept_columns(h, flags);
                if on_duplicate_columns == OnDuplicateColumns::Error && conflicts.len() > 0 {
                    r matches Err(e) && e.is_column_conflict(
                        join_spec(names_at(h, conflicts), ", "@),
                    )
                } else {
                    &&& r is Ok <==> convertible(spec.keys_seq(), kept)
                    &&& match r {
                        Ok(a) => {
                            &&& a.wf()
                            &&& a.flags() == flags
                            &&& texts(a.shared().out_headers@) == kept + names
                            &&& a.shared().spec.prefix_views() == spec.prefix_views()
                            &&& converted(spec.keys_seq(), kept, a.shared().spec.keys_seq())
                            &&& a.shared().structure.paths() == structure.paths()
                            &&& a.chunk_size() == chunk_size_spec(spec.prefix_views().len() as int)
                            &&& a.pending().len() == 0
                            &&& !a.sent_chunk()
                            &&& a.warning_text() == duplicate_warning(
                                on_duplicate_columns,
                                names_at(h, conflicts),
                            )
                        },
                        Err(e) => conversion_error(spec.keys_seq(), kept, e),
                    }
                }
            }),
    {
        let ghost h = texts(in_headers@);
        let ghost names = output_names(spec.prefix_views(), structure.paths());
        let ghost conflicts = conflicting_columns(h, names);
        let ghost flags = removal_flags(h, names, on_duplicate_columns);

        // Figure out if we have any duplicate columns.
        let duplicate_columns = match spec.duplicate_columns(&structure, &in_headers) {
            Ok(found) => found,
            Err(e) => {
                return Err(e);
            },
        };
        let mut duplicate_names: Vec<String> = Vec::new();
        let mut t: usize = 0;
        while t < duplicate_columns.len()
            invariant
                t <= duplicate_columns.len(),
                duplicate_columns.len() == conflicts.len(),
                forall|u: int|
                    0 <= u < duplicate_columns.len() ==> (#[trigger] duplicate_columns[u]).0@
                        == h[conflicts[u]],
                texts(duplicate_names@) == names_at(h, conflicts).subrange(0, t as int),
            decreases duplicate_columns.len() - t,
        {
            let ghost sofar = texts(duplicate_names@);
            duplicate_names.push(duplicate_columns[t].0.clone());
            assert(texts(duplicate_names@) =~= sofar.push(duplicate_columns@[t as int].0@));
            assert(texts(duplicate_names@) =~= names_at(h, conflicts).subrange(0, t + 1));
            t += 1;
        }
        assert(names_at(h, conflicts).subrange(0, conflicts.len() as int) =~= names_at(
            h,
            conflicts,
        ));

        // If we do have duplicate columns, figure out what to do about it.
        let mut should_remove_columns = false;
        let mut warning: Option<String> = None;
        let mut remove_column_flags: Vec<bool> = Vec::new();
        let mut i: usize = 0;
        while i < in_headers.len()
            invariant
                i <= in_headers.len(),
                remove_column_flags.len() == i,
                forall|k: int| 0 <= k < i ==> !#[trigger] remove_column_flags[k],
            decreases in_headers.len() - i,
        {
            remove_column_flags.push(false);
            i += 1;
        }
        if duplicate_columns.len() > 0 {
            match on_duplicate_columns {
                OnDuplicateColumns::Error => {
                    return Err(Error::ColumnConflict(join(&duplicate_names, ", ")));
                },
                OnDuplicateColumns::Replace => {
                    let mut text = "replacing input columns: ".to_owned();
                    text.append(join(&duplicate_names, ", ").as_str());
                    warning = Some(text);
                    should_remove_columns = true;
                    let mut u: usize = 0;
                    while u < duplicate_columns.len()
                        invariant
                            u <= duplicate_columns.len(),
                            duplicate_columns.len() == conflicts.len(),
                            remove_column_flags.len() == in_headers.len(),
                            h.len() == in_headers.len(),
                            conflicts == conflicting_columns(h, names),
                            forall|v: int|
                                0 <= v < duplicate_columns.len() ==> (#[trigger] duplicate_columns[v]).1
                                    == conflicts[v],
                            forall|k: int|
                                0 <= k < remove_column_flags.len() ==> (#[trigger] remove_column_flags[k]
                                    <==> conflicts.subrange(0, u as int).contains(k)),
                        decreases duplicate_columns.len() - u,
                    {
                        let idx = duplicate_columns[u].1;
                        proof {
                            lemma_conflicts(h, names, conflicts[u as int]);
                            assert(conflicts.contains(conflicts[u as int]));
                        }
                        let ghost before = conflicts.subrange(0, u as int);
                        let ghost after = conflicts.subrange(0, u + 1);
                        assert(after =~= before.push(conflicts[u as int]));
                        remove_column_flags.set(idx, true);
                        assert forall|k: int| 0 <= k < remove_column_flags.len() implies (
                        #[trigger] remove_column_flags[k] <==> after.contains(k)) by {
                            if k == idx {
                                assert(after[u as int] == k);
                            } else {
                                if before.contains(k) {
                                    let w = choose|w: int| 0 <= w < before.len() && before[w] == k;
                                    assert(after[w] == k);
                                }
                                if after.contains(k) {
                                    let w = choose|w: int| 0 <= w < after.len() && after[w] == k;
                                    assert(before[w] == k);
                                }
                            }
                        }
                        u += 1;
                    }
                    assert(conflicts.subrange(0, conflicts.len() as int) =~= conflicts);
                },
                OnDuplicateColumns::Append => {
                    let mut text = "output contains duplicate columns: ".to_owned();
                    text.append(join(&duplicate_names, ", ").as_str());
                    warning = Some(text);
                },
            }
        }
        assert(remove_column_flags@ =~= flags) by {
            assert forall|k: int| 0 <= k < h.len() implies remove_column_flags[k] == flags[k] by {
                lemma_conflicts(h, names, k);
                if conflicts.len() > 0 {
                } else {
                    assert(!conflicts.contains(k));
                }
            }
        }

        // Remove any duplicate columns from our input headers.
        let kept_headers = if should_remove_columns {
            remove_columns(&in_headers, &remove_column_flags)
        } else {
            proof {
                lemma_kept_all(h, flags, h.len() as int);
                assert(h.subrange(0, h.len() as int) =~= h);
            }
            in_headers
        };
        let ghost kept = texts(kept_headers@);
        assert(kept == kept_columns(h, flags));

        // Convert our column spec from using header names to header indices.
        //
        // This needs to happen after the duplicate columns have left our
        // headers.
        let spec = match spec.convert_to_indices_using_headers(&kept_headers) {
            Ok(spec) => spec,
            Err(e) => {
                return Err(e);
            },
        };

        // Decide how big to make our batches. We want to geocode no more
        // than `GEOCODE_SIZE` addresses at a time, and each input row may
        // generate up to `spec.prefix_count()` addresses.
        let chunk_size = chunk_size_for(spec.prefix_count());

        // Build our output headers.
        let kept_width = kept_headers.len();
        let mut out_headers = kept_headers;
        let mut added = spec.output_column_names(&structure);
        let ghost added_texts = texts(added@);
        out_headers.append(&mut added);
        assert(texts(out_headers@) =~= kept + added_texts);
        proof {
            lemma_kept_width(h, Seq::empty(), flags, flags.len() as int);
        }

        // Build the metadata of our table, and wrap it with a reference
        // count.
        let shared = Arc::new(Shared { spec, structure, out_headers });
        Ok(
            ChunkAssembler {
                shared,
                should_remove_columns,
                remove_column_flags,
                chunk_size,
                kept_width,
                rows: Vec::new(),
                sent_chunk: false,
                warning,
            },
        )
    }
}

/// The rows that a stream of messages carries, in order.
pub open spec fn stream_rows(messages: Seq<Message>) -> Seq<Seq<Seq<char>>>
    decreases messages.len(),
{
    if messages.len() == 0 {
        Seq::empty()
    } else {
        stream_rows(messages.drop_last()) + messages.last().rows()
    }
}

/// What a row becomes before it enters a batch: its columns without those
/// that are removed.
pub open spec fn kept_rows(rows: Seq<Seq<Seq<char>>>, flags: Seq<bool>) -> Seq<Seq<Seq<char>>> {
    rows.map_values(|row: Seq<Seq<char>>| kept_columns(row, flags))
}

/// A stream of messages is a full run: batches, then the end marker, and
/// nothing after it.  There is one batch at least; every batch but the last
/// holds exactly `size` rows; the last holds `size` rows at most, and holds
/// a row unless it is the only batch.
pub open spec fn well_batched(messages: Seq<Message>, size: int) -> bool {
    &&& messages.len() >= 2
    &&& messages.last() is EndOfStream
    &&& forall|i: int| 0 <= i < messages.len() - 1 ==> #[trigger] messages[i] is Chunk
    &&& forall|i: int| 0 <= i < messages.len() - 2 ==> (#[trigger] messages[i]).rows().len() == size
    &&& messages[messages.len() - 2].rows().len() <= size
    &&& messages.len() > 2 ==> messages[messages.len() - 2].rows().len() >= 1
}

/// `k` is the first row whose number of fields differs from `width`.
pub open spec fn first_uneven(rows: Seq<Seq<Seq<char>>>, width: nat, k: int) -> bool {
    &&& 0 <= k < rows.len()
    &&& rows[k].len() != width
    &&& forall|i: int| 0 <= i < k ==> (#[trigger] rows[i]).len() == width
}

/// Every row has `width` fields.
pub open spec fn all_even(rows: Seq<Seq<Seq<char>>>, width: nat) -> bool {
    forall|i: int| 0 <= i < rows.len() ==> (#[trigger] rows[i]).len() == width
}

impl ChunkAssembler {
    /// The header of the output table.
    pub fn out_headers(&self) -> (h: &Vec<String>)
        ensures
            texts(h@) == texts(self.shared().out_headers@),
    {
        &self.shared.out_headers
    }

    /// The number of rows in a full batch.
    pub fn batch_size(&self) -> (n: usize)
        ensures
            n == self.chunk_size(),
            n >= 1,
    {
        proof {
            use_type_invariant(self);
        }
        self.chunk_size
    }

    /// Takes the next row of the input.  The row loses the columns that are
    /// removed and joins the rows that wait.  When they fill a batch, the
    /// batch is handed out.  A row with another number of fields than the
    /// header is refused, and changes nothing.
    pub fn push_row(&mut self, row: Vec<String>) -> (r: Result<Option<Message>, Error>)
        ensures
            final(self).wf(),
            final(self).shared() == old(self).shared(),
            final(self).flags() == old(self).flags(),
            final(self).chunk_size() == old(self).chunk_size(),
            final(self).warning_text() == old(self).warning_text(),
            match r {
                Err(e) => {
                    &&& row.len() != old(self).flags().len()
                    &&& e == Error::UnequalLengths {
                        expected: old(self).flags().len() as usize,
                        found: row.len(),
                    }
                    &&& final(self).pending() == old(self).pending()
                    &&& final(self).sent_chunk() == old(self).sent_chunk()
                },
                Ok(None) => {
                    &&& row.len() == old(self).flags().len()
                    &&& old(self).pending().len() + 1 < old(self).chunk_size()
                    &&& final(self).pending() == old(self).pending().push(
                        kept_columns(texts(row@), old(self).flags()),
                    )
                    &&& final(self).sent_chunk() == old(self).sent_chunk()
                },
                Ok(Some(message)) => {
                    &&& row.len() == old(self).flags().len()
                    &&& old(self).pending().len() + 1 == old(self).chunk_size()
                    &&& message matches Message::Chunk(chunk) && chunk.shared() == old(self).shared()
                    &&& message.rows() == old(self).pending().push(
                        kept_columns(texts(row@), old(self).flags()),
                    )
                    &&& final(self).pending().len() == 0
                    &&& final(self).sent_chunk()
                },
            },
    {
        proof {
            use_type_invariant(&*self);
        }
        if row.len() != self.remove_column_flags.len() {
            return Err(
                Error::UnequalLengths {
                    expected: self.remove_column_flags.len(),
                    found: row.len(),
                },
            );
        }
        let ghost given = texts(row@);
        let ghost flags = self.remove_column_flags@;
        let row = if self.should_remove_columns {
            // Strip out any duplicate columns.
            remove_columns(&row, &self.remove_column_flags)
        } else {
            proof {
                lemma_kept_all(given, flags, given.len() as int);
                assert(given.subrange(0, given.len() as int) =~= given);
            }
            row
        };
        assert(texts(row@) == kept_columns(given, flags));
        proof {
            lemma_kept_width(given, Seq::empty(), flags, flags.len() as int);
        }
        assert(row.len() == self.kept_width);
        let ghost waiting = row_texts(self.rows@);
        let mut rows: Vec<Vec<String>> = Vec::new();
        std::mem::swap(&mut self.rows, &mut rows);
        rows.push(row);
        assert(row_texts(rows@) =~= waiting.push(kept_columns(given, flags)));
        if rows.len() >= self.chunk_size {
            self.sent_chunk = true;
            assert(row_texts(self.rows@) =~= Seq::<Seq<Seq<char>>>::empty());
            let chunk = Chunk { shared: share(&self.shared), rows };
            Ok(Some(Message::Chunk(chunk)))
        } else {
            std::mem::swap(&mut self.rows, &mut rows);
            Ok(None)
        }
    }

    /// Ends the input.  The rows that still wait go out as a last batch; if
    /// no batch has gone out before, a last batch goes out even without
    /// rows, so that every run has a batch to carry its header.  The end
    /// marker follows.
    pub fn finish(self) -> (out: Vec<Message>)
        ensures
            out.len() == (if !self.sent_chunk() || self.pending().len() > 0 { 2int } else { 1int }),
            out@.last() is EndOfStream,
            out.len() == 2 ==> (out[0] matches Message::Chunk(chunk) && chunk.shared()
                == self.shared()),
            out.len() == 2 ==> out[0].rows() == self.pending(),
            stream_rows(out@) == self.pending(),
    {
        proof {
            use_type_invariant(&self);
        }
        let mut out: Vec<Message> = Vec::new();
        // Send a final batch if either (1) we never sent a batch, or (2) we
        // have rows that haven't been sent yet.
        if !self.sent_chunk || self.rows.len() > 0 {
            let chunk = Chunk { shared: self.shared, rows: self.rows };
            out.push(Message::Chunk(chunk));
        }
        // Confirm that we've seen the end of the stream.
        out.push(Message::EndOfStream);
        proof {
            lemma_stream_rows_unfold(out@);
            if out.len() == 2 {
                lemma_stream_rows_unfold(out@.drop_last());
                assert(out@.drop_last().drop_last() =~= Seq::<Message>::empty());
            } else {
                assert(out@.drop_last() =~= Seq::<Message>::empty());
            }
            assert(stream_rows(out@) =~= self.pending());
        }
        out
    }

    /// Runs a whole input through the assembler: every row in turn, then
    /// the end.  The messages come out in the order in which a reader that
    /// feeds the rows one by one would send them.
    ///
    /// Whatever the size of a batch, the rows of the messages, taken in
    /// order, are the rows of the input in their order: none is lost, none
    /// comes twice, none changes its place.
    pub fn assemble_all(self, rows: Vec<Vec<String>>) -> (r: Result<Vec<Message>, Error>)
        ensures
            r is Ok <==> all_even(row_texts(rows@), self.flags().len()),
            match r {
                Ok(messages) => {
                    &&& stream_rows(messages@) == self.pending() + kept_rows(
                        row_texts(rows@),
                        self.flags(),
                    )
                    &&& messages.len() >= 1
                    &&& messages@.last() is EndOfStream
                    &&& forall|i: int|
                        0 <= i < messages.len() - 1 ==> (#[trigger] messages[i] matches Message::Chunk(
                            chunk,
                        ) && chunk.shared() == self.shared())
                    &&& !self.sent_chunk() && self.pending().len() == 0 ==> well_batched(
                        messages@,
                        self.chunk_size(),
                    )
                },
                Err(e) => exists|k: int| #[trigger]
                    first_uneven(row_texts(rows@), self.flags().len(), k) && e
                        == (Error::UnequalLengths {
                        expected: self.flags().len() as usize,
                        found: rows[k].len(),
                    }),
            },
    {
        proof {
            use_type_invariant(&self);
        }
        let ghost start = self;
        let ghost given = row_texts(rows@);
        let ghost flags = self.flags();
        let ghost size = self.chunk_size();
        let mut assembler = self;
        let mut messages: Vec<Message> = Vec::new();
        let ghost all = rows@;
        let mut remaining = rows;
        // Take the rows from the back of a reversed list, so that each is
        // moved, not copied.
        let mut reversed: Vec<Vec<String>> = Vec::new();
        while remaining.len() > 0
            invariant
                remaining.len() + reversed.len() == all.len(),
                remaining@ == all.subrange(0, remaining.len() as int),
                forall|i: int| 0 <= i < reversed.len() ==> #[trigger] reversed[i] == all[all.len() - 1 - i],
            decreases remaining.len(),
        {
            let row = remaining.pop().unwrap();
            reversed.push(row);
        }
        let mut k: usize = 0;
        let total = reversed.len();
        assert(given.subrange(0, 0) =~= Seq::<Seq<Seq<char>>>::empty());
        assert(kept_rows(given.subrange(0, 0), flags) =~= Seq::<Seq<Seq<char>>>::empty());
        assert(stream_rows(messages@) + assembler.pending() =~= start.pending() + kept_rows(
            given.subrange(0, 0),
            flags,
        ));
        while k < total
            invariant
                k <= total,
                total == all.len(),
                all == rows@,
                start == self,
                given == row_texts(all),
                reversed.len() == total - k,
                forall|i: int| 0 <= i < reversed.len() ==> #[trigger] reversed[i] == all[all.len() - 1 - i],
                assembler.wf(),
                assembler.shared() == start.shared(),
                assembler.flags() == flags,
                assembler.chunk_size() == size,
                flags == start.flags(),
                size == start.chunk_size(),
                all_even(given.subrange(0, k as int), flags.len()),
                stream_rows(messages@) + assembler.pending() == start.pending() + kept_rows(
                    given.subrange(0, k as int),
                    flags,
                ),
                forall|i: int|
                    0 <= i < messages.len() ==> (#[trigger] messages[i] matches Message::Chunk(chunk)
                        && chunk.shared() == start.shared()),
                !start.sent_chunk() && start.pending().len() == 0 ==> forall|i: int|
                    0 <= i < messages.len() ==> (#[trigger] messages[i]).rows().len() == size,
                assembler.sent_chunk() == (start.sent_chunk() || messages.len() > 0),
            decreases total - k,
        {
            let row = reversed.pop().unwrap();
            assert(row == all[k as int]);
            let ghost before = given.subrange(0, k as int);
            let ghost after = given.subrange(0, k + 1);
            assert(after =~= before.push(given[k as int]));
            assert(given[k as int] == texts(row@));
            let ghost waiting = assembler.pending();
            let ghost sofar = stream_rows(messages@);
            match assembler.push_row(row) {
                Err(e) => {
                    assert(first_uneven(given, flags.len(), k as int)) by {
                        assert forall|i: int| 0 <= i < k implies (#[trigger] given[i]).len()
                            == flags.len() by {
                            assert(before[i] == given[i]);
                        }
                    }
                    assert(!all_even(given, flags.len()));
                    return Err(e);
                },
                Ok(None) => {
                    assert(kept_rows(after, flags) =~= kept_rows(before, flags).push(
                        kept_columns(given[k as int], flags),
                    ));
                    assert(stream_rows(messages@) + assembler.pending() =~= (sofar + waiting).push(
                        kept_columns(given[k as int], flags),
                    ));
                    assert(start.pending() + kept_rows(after, flags) =~= (start.pending()
                        + kept_rows(before, flags)).push(kept_columns(given[k as int], flags)));
                },
                Ok(Some(message)) => {
                    let ghost old_messages = messages@;
                    messages.push(message);
                    assert(messages@.drop_last() =~= old_messages);
                    assert(kept_rows(after, flags) =~= kept_rows(before, flags).push(
                        kept_columns(given[k as int], flags),
                    ));
                    assert(stream_rows(messages@) == sofar + message.rows());
                    assert(stream_rows(messages@) + assembler.pending() =~= (sofar + waiting).push(
                        kept_columns(given[k as int], flags),
                    ));
                    assert(start.pending() + kept_rows(after, flags) =~= (start.pending()
                        + kept_rows(before, flags)).push(kept_columns(given[k as int], flags)));
                },
            }
            assert(all_even(after, flags.len())) by {
                assert forall|i: int| 0 <= i < after.len() implies (#[trigger] after[i]).len()
                    == flags.len() by {
                    if i < k {
                        assert(before[i] == after[i]);
                    }
                }
            }
            k += 1;
        }
        assert(given.subrange(0, total as int) =~= given);
        let ghost sofar = stream_rows(messages@);
        let ghost waiting = assembler.pending();
        let ghost count = messages.len();
        proof {
            assembler.lemma_wf();
        }
        let mut last = assembler.finish();
        let ghost tail = last@;
        let ghost head = messages@;
        messages.append(&mut last);
        proof {
            lemma_stream_rows_concat(head, tail);
            assert(messages@ =~= head + tail);
        }
        Ok(messages)
    }
}

/// The rows of a stream are those of all its messages but the last,
/// followed by those of the last.
proof fn lemma_stream_rows_unfold(messages: Seq<Message>)
    requires
        messages.len() > 0,
    ensures
        stream_rows(messages) == stream_rows(messages.drop_last()) + messages.last().rows(),
{
}

/// The rows of two streams, one after the other, are the rows of the first
/// followed by the rows of the second.
proof fn lemma_stream_rows_concat(a: Seq<Message>, b: Seq<Message>)
    ensures
        stream_rows(a + b) == stream_rows(a) + stream_rows(b),
    decreases b.len(),
{
    if b.len() == 0 {
        assert(a + b =~= a);
        assert(stream_rows(a) + stream_rows(b) =~= stream_rows(a));
    } else {
        lemma_stream_rows_concat(a, b.drop_last());
        assert((a + b).drop_last() =~= a + b.drop_last());
        assert((a + b).last() == b.last());
        assert(stream_rows(a + b) =~= stream_rows(a) + stream_rows(b));
    }
}

/// The addresses of the first `g` groups: for each group in turn, the
/// address of every row.
pub open spec fn requests_upto(
    keys: Seq<AddressColumnKeys<usize>>,
    rows: Seq<Seq<Seq<char>>>,
    g: int,
) -> Seq<AddressText>
    decreases g,
{
    if g <= 0 {
        Seq::empty()
    } else {
        requests_upto(keys, rows, g - 1) + rows.map_values(
            |row: Seq<Seq<char>>| keys[g - 1].address_of(row),
        )
    }
}

/// The addresses that a list of requests asks for.
pub open spec fn request_addresses(requests: Seq<AddressRequest>) -> Seq<AddressText> {
    requests.map_values(|r: AddressRequest| r.address@)
}

/// The requests of a batch are laid out group by group: the request for
/// group `g` and row `r` stands at `g * rows + r`.
pub proof fn lemma_request_layout(
    keys: Seq<AddressColumnKeys<usize>>,
    rows: Seq<Seq<Seq<char>>>,
    groups: int,
    g: int,
    r: int,
)
    requires
        0 <= g < groups,
        0 <= r < rows.len(),
    ensures
        requests_upto(keys, rows, groups).len() == groups * rows.len(),
        0 <= g * rows.len() + r < groups * rows.len(),
        requests_upto(keys, rows, groups)[g * rows.len() + r] == keys[g].address_of(rows[r]),
    decreases groups,
{
    let n = rows.len() as int;
    assert(groups * n == (groups - 1) * n + n) by (nonlinear_arith);
    assert(g * n + r < groups * n) by (nonlinear_arith)
        requires
            0 <= g < groups,
            0 <= r < n,
    ;
    assert(0 <= g * n) by (nonlinear_arith)
        requires
            0 <= g,
            0 <= n,
    ;
    if groups - 1 > 0 {
        lemma_request_layout(keys, rows, groups - 1, 0, r);
    }
    assert(requests_upto(keys, rows, groups - 1).len() == (groups - 1) * n) by {
        if groups - 1 <= 0 {
            assert((groups - 1) * n == 0) by (nonlinear_arith)
                requires
                    groups - 1 == 0,
            ;
        }
    }
    if g < groups - 1 {
        lemma_request_layout(keys, rows, groups - 1, g, r);
    } else {
        assert(g * n == (groups - 1) * n);
    }
}

/// Builds the requests for a batch: one for every address group and row,
/// all rows of the first group, then all rows of the second, and so on,
/// the groups in ascending order of their prefix.
pub fn build_requests(chunk: &Chunk, match_strategy: MatchStrategy) -> (out: Vec<AddressRequest>)
    ensures
        request_addresses(out@) == requests_upto(
            chunk.shared().spec.keys_seq(),
            chunk.rows(),
            chunk.shared().spec.prefix_views().len() as int,
        ),
        forall|i: int| 0 <= i < out.len() ==> (#[trigger] out[i]).match_strategy == match_strategy,
{
    proof {
        use_type_invariant(chunk);
        use_type_invariant(&chunk.shared.spec);
        chunk.shared().spec.lemma_wf();
    }
    let spec = &chunk.shared.spec;
    let ghost keys = spec.keys_seq();
    let ghost rows = row_texts(chunk.rows@);
    let groups = spec.prefix_count();
    let mut out: Vec<AddressRequest> = Vec::new();
    let mut g: usize = 0;
    assert(request_addresses(out@) =~= requests_upto(keys, rows, 0));
    while g < groups
        invariant
            g <= groups,
            groups == spec.prefix_views().len(),
            keys == spec.keys_seq(),
            keys.len() == groups,
            rows == row_texts(chunk.rows@),
            rows_in_range(*spec, chunk.rows@),
            request_addresses(out@) == requests_upto(keys, rows, g as int),
            forall|i: int| 0 <= i < out.len() ==> (#[trigger] out[i]).match_strategy == match_strategy,
        decreases groups - g,
    {
        let column_keys = spec.keys_at(g);
        let ghost before = request_addresses(out@);
        let ghost group = rows.map_values(|row: Seq<Seq<char>>| keys[g as int].address_of(row));
        let mut r: usize = 0;
        assert(request_addresses(out@) =~= before + group.subrange(0, 0));
        while r < chunk.rows.len()
            invariant
                r <= chunk.rows.len(),
                g < groups,
                keys == spec.keys_seq(),
                keys.len() == groups,
                *column_keys == keys[g as int],
                rows == row_texts(chunk.rows@),
                rows_in_range(*spec, chunk.rows@),
                group == rows.map_values(|row: Seq<Seq<char>>| keys[g as int].address_of(row)),
                request_addresses(out@) == before + group.subrange(0, r as int),
                forall|i: int|
                    0 <= i < out.len() ==> (#[trigger] out[i]).match_strategy == match_strategy,
            decreases chunk.rows.len() - r,
        {
            let row = &chunk.rows[r];
            assert(spec.in_range(row.len() as nat));
            assert(keys[g as int].in_range(row.len() as nat));
            let address = column_keys.address_from_record(row);
            let ghost sofar = request_addresses(out@);
            out.push(AddressRequest { address, match_strategy });
            assert(request_addresses(out@) =~= sofar.push(address@));
            assert(group[r as int] == keys[g as int].address_of(rows[r as int]));
            assert(request_addresses(out@) =~= before + group.subrange(0, r + 1));
            r += 1;
        }
        assert(group.subrange(0, chunk.rows.len() as int) =~= group);
        g += 1;
    }
    out
}

/// There are as many requests as there are address groups times rows.
pub proof fn lemma_request_count(
    keys: Seq<AddressColumnKeys<usize>>,
    rows: Seq<Seq<Seq<char>>>,
    groups: int,
)
    requires
        0 <= groups,
    ensures
        requests_upto(keys, rows, groups).len() == groups * rows.len(),
    decreases groups,
{
    let n = rows.len() as int;
    if groups > 0 {
        lemma_request_count(keys, rows, groups - 1);
        assert(groups * n == (groups - 1) * n + n) by (nonlinear_arith);
    } else {
        assert(groups * n == 0) by (nonlinear_arith)
            requires
                groups == 0,
        ;
    }
}

/// How the work on a batch begins.
#[derive(Debug)]
pub enum WorkerStep {
    /// The service is to be asked for these requests, and its answer
    /// merged into the batch.
    Call { chunk: Chunk, requests: Vec<AddressRequest> },
    /// The batch holds no row, so that there is nothing to ask for: it goes
    /// on as it is.
    Done(Chunk),
}

/// Begins the work on a batch: makes up its requests, or finds that there
/// is nothing to ask for.
pub fn begin_chunk(chunk: Chunk, match_strategy: MatchStrategy) -> (step: WorkerStep)
    ensures
        match step {
            WorkerStep::Call { chunk: same, requests } => {
                &&& same == chunk
                &&& requests.len() > 0
                &&& request_addresses(requests@) == requests_upto(
                    chunk.shared().spec.keys_seq(),
                    chunk.rows(),
                    chunk.shared().spec.prefix_views().len() as int,
                )
                &&& forall|i: int|
                    0 <= i < requests.len() ==> (#[trigger] requests[i]).match_strategy
                        == match_strategy
            },
            WorkerStep::Done(same) => {
                &&& same.wf()
                &&& same.shared() == chunk.shared()
                &&& same.rows() == chunk.rows()
                &&& chunk.shared().spec.prefix_views().len() * chunk.rows().len() == 0
            },
        },
{
    let requests = build_requests(&chunk, match_strategy);
    proof {
        lemma_request_count(
            chunk.shared().spec.keys_seq(),
            chunk.rows(),
            chunk.shared().spec.prefix_views().len() as int,
        );
        assert(request_addresses(requests@).len() == requests.len());
    }
    if requests.len() > 0 {
        WorkerStep::Call { chunk, requests }
    } else {
        let ghost rows = chunk.rows();
        let done = merge_responses(chunk, Vec::new()).unwrap();
        assert(done.rows() =~= rows) by {
            assert forall|i: int| 0 <= i < rows.len() implies #[trigger] done.rows()[i] == rows[i] by {
                // No address group has added a column.
                assert(chunk.shared().spec.prefix_views().len() == 0);
            }
        }
        WorkerStep::Done(done)
    }
}

/// The number of failed attempts after which a call is tried once more.
pub const MAX_RETRIES: u8 = 5;

/// The number of seconds to wait before a call is tried once more.
pub const RETRY_DELAY_SECONDS: u64 = 2;

/// Why a call to the service failed.
#[derive(Debug, Clone, Copy, PartialEq, Eq, Structural)]
pub enum Failure {
    /// The service could not be reached, or the connection broke.
    Network,
    /// The service answered with this status, which is no success.
    Status(u16),
    /// The answer of the service could not be understood: it is no list of
    /// responses, or its indices do not fit the requests.
    MalformedResponse,
    /// The request could not be made up.
    InvalidRequest,
}

/// Whether a failure may pass on its own, so that the call is worth making
/// again: trouble with the network may, and so may trouble that the service
/// owns up to with a status from 500 to 599.  Anything else is final.
pub open spec fn is_retryable(failure: Failure) -> bool {
    match failure {
        Failure::Network => true,
        Failure::Status(code) => 500 <= code <= 599,
        Failure::MalformedResponse => false,
        Failure::InvalidRequest => false,
    }
}

impl Failure {
    /// Whether the call is worth making again.
    pub fn retryable(&self) -> (r: bool)
        ensures
            r == is_retryable(*self),
    {
        match self {
            Failure::Network => true,
            Failure::Status(code) => 500 <= *code && *code <= 599,
            Failure::MalformedResponse => false,
            Failure::InvalidRequest => false,
        }
    }
}

/// What to do after a failed call to the service.
#[derive(Debug, Clone, Copy, PartialEq, Eq, Structural)]
pub enum RetryDecision {
    /// Wait for so many seconds, then make the same call again.
    RetryAfter { seconds: u64 },
    /// Give up: the batch fails, and the run with it.
    GiveUp,
}

/// The decision after the failure `failure`, where `failures` failures have
/// been answered by another attempt before.
pub open spec fn decision_after(failures: int, failure: Failure) -> RetryDecision {
    if is_retryable(failure) && failures < MAX_RETRIES as int {
        RetryDecision::RetryAfter { seconds: RETRY_DELAY_SECONDS }
    } else {
        RetryDecision::GiveUp
    }
}

/// How often the calls for one batch have failed.
#[derive(Debug)]
pub struct RetryState {
    failures: u8,
}

impl RetryState {
    /// The number of failures that were answered by another attempt.
    pub closed spec fn failures(self) -> int {
        self.failures as int
    }

    /// No more failures are answered by another attempt than are allowed.
    #[verifier::type_invariant]
    pub closed spec fn wf(self) -> bool {
        self.failures <= MAX_RETRIES
    }

    /// The state before the first call.
    pub fn new() -> (state: RetryState)
        ensures
            state.failures() == 0,
    {
        RetryState { failures: 0 }
    }

    /// Takes note of a failed call and says what to do about it.  A failure
    /// that may pass is answered by another attempt after two seconds, five
    /// times; the sixth is given up on.  A failure that is final is given up
    /// on at once.
    pub fn on_failure(&mut self, failure: Failure) -> (decision: RetryDecision)
        ensures
            decision == decision_after(old(self).failures(), failure),
            final(self).failures() == (if decision is RetryAfter {
                old(self).failures() + 1
            } else {
                old(self).failures()
            }),
    {
        proof {
            use_type_invariant(&*self);
        }
        if failure.retryable() && self.failures < MAX_RETRIES {
            self.failures = self.failures + 1;
            RetryDecision::RetryAfter { seconds: RETRY_DELAY_SECONDS }
        } else {
            RetryDecision::GiveUp
        }
    }
}

/// How a series of calls for one batch ends, where `attempts` holds the
/// outcome of each call in turn and `failures` failures have been answered
/// by another attempt before: with the first success, with the failure that
/// is given up on, or not yet (`None`), where the outcomes run out before
/// either.
pub open spec fn settle<T>(attempts: Seq<Result<T, Failure>>, failures: int) -> Option<
    Result<T, Failure>,
>
    decreases attempts.len(),
{
    if attempts.len() == 0 {
        None
    } else {
        match attempts[0] {
            Ok(value) => Some(Ok(value)),
            Err(failure) => match decision_after(failures, failure) {
                RetryDecision::RetryAfter { .. } => settle(attempts.drop_first(), failures + 1),
                RetryDecision::GiveUp => Some(Err(failure)),
            },
        }
    }
}

/// The outcomes of calls that fail as `failed` says, one after the other.
pub open spec fn failed_attempts<T>(failed: Seq<Failure>) -> Seq<Result<T, Failure>> {
    failed.map_values(|failure: Failure| Err::<T, Failure>(failure))
}

/// A call that succeeds after five failures at most, each of which may
/// pass, gives what a call gives that succeeds at once.
pub proof fn lemma_retried_call_gives_the_same<T>(failed: Seq<Failure>, value: T)
    requires
        failed.len() <= MAX_RETRIES,
        forall|i: int| 0 <= i < failed.len() ==> is_retryable(#[trigger] failed[i]),
    ensures
        settle(failed_attempts::<T>(failed).push(Ok(value)), 0) == settle(
            seq![Ok::<T, Failure>(value)],
            0,
        ),
        settle(seq![Ok::<T, Failure>(value)], 0) == Some(Ok::<T, Failure>(value)),
{
    lemma_settle_after_failures::<T>(failed, value, 0);
}

/// From `before` earlier failures on, a success that follows failures is
/// reached as long as each failure may pass and no more than five come
/// together.
proof fn lemma_settle_after_failures<T>(failed: Seq<Failure>, value: T, before: int)
    requires
        0 <= before,
        before + failed.len() <= MAX_RETRIES,
        forall|i: int| 0 <= i < failed.len() ==> is_retryable(#[trigger] failed[i]),
    ensures
        settle(failed_attempts::<T>(failed).push(Ok(value)), before) == Some(
            Ok::<T, Failure>(value),
        ),
    decreases failed.len(),
{
    let attempts = failed_attempts::<T>(failed).push(Ok(value));
    if failed.len() > 0 {
        assert(is_retryable(failed[0]));
        assert forall|i: int| 0 <= i < failed.drop_first().len() implies is_retryable(
            #[trigger] failed.drop_first()[i],
        ) by {
            assert(failed.drop_first()[i] == failed[i + 1]);
        }
        lemma_settle_after_failures::<T>(failed.drop_first(), value, before + 1);
        assert(attempts.drop_first() =~= failed_attempts::<T>(failed.drop_first()).push(Ok(value)));
    }
}

/// A call that fails six times is given up on, whatever would come after:
/// it ends with its sixth failure.
pub proof fn lemma_six_failures_abort<T>(attempts: Seq<Result<T, Failure>>)
    requires
        attempts.len() >= MAX_RETRIES + 1,
        forall|i: int| 0 <= i <= MAX_RETRIES ==> #[trigger] attempts[i] is Err,
    ensures
        settle(attempts, 0) matches Some(Err(_)),
        (forall|i: int| 0 <= i <= MAX_RETRIES ==> is_retryable((#[trigger] attempts[i])->Err_0))
            ==> settle(attempts, 0) == Some(attempts[MAX_RETRIES as int]),
{
    let a1 = attempts.drop_first();
    let a2 = a1.drop_first();
    let a3 = a2.drop_first();
    let a4 = a3.drop_first();
    let a5 = a4.drop_first();
    assert(a1[0] == attempts[1]);
    assert(a2[0] == attempts[2]);
    assert(a3[0] == attempts[3]);
    assert(a4[0] == attempts[4]);
    assert(a5[0] == attempts[5]);
    assert(attempts[0] is Err);
    assert(settle(a5, 5) == Some(attempts[5]));
    assert(settle(a4, 4) matches Some(Err(_)));
    assert(settle(a3, 3) matches Some(Err(_)));
    assert(settle(a2, 2) matches Some(Err(_)));
    assert(settle(a1, 1) matches Some(Err(_)));
    if forall|i: int| 0 <= i <= MAX_RETRIES ==> is_retryable((#[trigger] attempts[i])->Err_0) {
        assert(is_retryable(attempts[0]->Err_0));
        assert(is_retryable(attempts[1]->Err_0));
        assert(is_retryable(attempts[2]->Err_0));
        assert(is_retryable(attempts[3]->Err_0));
        assert(is_retryable(attempts[4]->Err_0));
        assert(settle(a4, 4) == settle(a5, 5));
        assert(settle(a3, 3) == settle(a4, 4));
        assert(settle(a2, 2) == settle(a3, 3));
        assert(settle(a1, 1) == settle(a2, 2));
        assert(settle(attempts, 0) == settle(a1, 1));
    }
}

/// A failure that is final ends the calls at once, however few have failed
/// before.
pub proof fn lemma_final_failure_aborts<T>(attempts: Seq<Result<T, Failure>>, failures: int)
    requires
        attempts.len() > 0,
        attempts[0] is Err,
        !is_retryable(attempts[0]->Err_0),
    ensures
        settle(attempts, failures) == Some(attempts[0]),
{
}

/// The columns that a row gains for one address: the selected fields of the
/// response, or as many empty columns where there is no response.
pub open spec fn columns_for(paths: Seq<Path>, response: Option<AddressResponse>) -> Seq<Seq<char>> {
    match response {
        Some(found) => value_columns(paths, found.fields),
        None => empty_columns(paths),
    }
}

/// The response, if there is one, holds a plain value at every selected
/// field that it has.
pub open spec fn response_plain(paths: Seq<Path>, response: Option<AddressResponse>) -> bool {
    match response {
        Some(found) => all_plain(paths, found.fields),
        None => true,
    }
}

/// Row `r` of a batch of `n` rows after the results of the first `g`
/// address groups have been appended to it.
pub open spec fn merged_row(
    row: Seq<Seq<char>>,
    paths: Seq<Path>,
    geocoded: Seq<Option<AddressResponse>>,
    n: int,
    r: int,
    g: int,
) -> Seq<Seq<char>>
    decreases g,
{
    if g <= 0 {
        row
    } else {
        merged_row(row, paths, geocoded, n, r, g - 1) + columns_for(
            paths,
            geocoded[(g - 1) * n + r],
        )
    }
}

/// `t` is the first result that holds a list or an object at a selected
/// field.
pub open spec fn first_bad_response(
    paths: Seq<Path>,
    geocoded: Seq<Option<AddressResponse>>,
    t: int,
) -> bool {
    &&& 0 <= t < geocoded.len()
    &&& !response_plain(paths, geocoded[t])
    &&& forall|u: int| 0 <= u < t ==> response_plain(paths, #[trigger] geocoded[u])
}

/// Every result can be written into columns.
pub open spec fn all_responses_plain(paths: Seq<Path>, geocoded: Seq<Option<AddressResponse>>) -> bool {
    forall|t: int| 0 <= t < geocoded.len() ==> response_plain(paths, #[trigger] geocoded[t])
}

/// A row of any length gains the same number of columns for every address
/// group, whether the address was found or not.
pub proof fn lemma_merged_width(
    row: Seq<Seq<char>>,
    paths: Seq<Path>,
    geocoded: Seq<Option<AddressResponse>>,
    n: int,
    r: int,
    g: int,
)
    requires
        0 <= g,
    ensures
        merged_row(row, paths, geocoded, n, r, g).len() == row.len() + g * paths.len(),
    decreases g,
{
    if g > 0 {
        lemma_merged_width(row, paths, geocoded, n, r, g - 1);
        assert(g * paths.len() == (g - 1) * paths.len() + paths.len()) by (nonlinear_arith);
    } else {
        assert(g * paths.len() == 0) by (nonlinear_arith)
            requires
                g == 0,
        ;
    }
}

/// Writes the results of geocoding into the rows of a batch.  `geocoded`
/// holds one result for every request of the batch, in the order of the
/// requests.  Each row gains, for each address group in turn, the columns of
/// its result; the rows keep their order and their earlier columns.
///
/// A list of results of the wrong length is refused, and so is a response
/// that holds a list or an object at a selected field.
pub fn merge_responses(chunk: Chunk, geocoded: Vec<Option<AddressResponse>>) -> (r: Result<
    Chunk,
    Error,
>)
    ensures
        ({
            let n = chunk.rows().len() as int;
            let groups = chunk.shared().spec.prefix_views().len() as int;
            let paths = chunk.shared().structure.paths();
            &&& r is Ok <==> geocoded.len() == groups * n && all_responses_plain(paths, geocoded@)
            &&& match r {
                Ok(out) => {
                    &&& out.wf()
                    &&& out.shared() == chunk.shared()
                    &&& out.rows().len() == n
                    &&& rows_extend(out.rows(), chunk.rows())
                    &&& forall|i: int|
                        0 <= i < n ==> #[trigger] out.rows()[i] == merged_row(
                            chunk.rows()[i],
                            paths,
                            geocoded@,
                            n,
                            i,
                            groups,
                        )
                },
                Err(e) => if geocoded.len() != groups * n {
                    e == (Error::ResultCountMismatch {
                        expected_rows: n as usize,
                        groups: groups as usize,
                        found: geocoded.len(),
                    })
                } else {
                    exists|t: int, k: int|
                        {
                            &&& #[trigger] first_bad_response(paths, geocoded@, t)
                            &&& #[trigger] first_unexpected(paths, geocoded[t]->0.fields, k)
                            &&& e.is_unexpected_value(paths[k])
                        }
                },
            }
        }),
{
    proof {
        use_type_invariant(&chunk);
        use_type_invariant(&chunk.shared.spec);
        chunk.shared().spec.lemma_wf();
    }
    let ghost given = row_texts(chunk.rows@);
    let ghost paths = chunk.shared().structure.paths();
    let Chunk { shared, rows } = chunk;
    let mut rows = rows;
    let n = rows.len();
    let groups = shared.spec.prefix_count();
    let matches = match groups.checked_mul(n) {
        Some(expected) => expected == geocoded.len(),
        None => false,
    };
    if !matches {
        return Err(
            Error::ResultCountMismatch { expected_rows: n, groups, found: geocoded.len() },
        );
    }
    let mut g: usize = 0;
    let mut base: usize = 0;
    assert(0 * n == 0) by (nonlinear_arith);
    while g < groups
        invariant
            g <= groups,
            base == g * n,
            geocoded.len() == groups * n,
            rows.len() == n,
            given.len() == n,
            given == chunk.rows(),
            *shared == chunk.shared(),
            groups == shared.spec.prefix_views().len(),
            paths == shared.structure.paths(),
            rows_in_range(shared.spec, rows@),
            forall|i: int|
                0 <= i < n ==> texts((#[trigger] rows[i])@) == merged_row(
                    given[i],
                    paths,
                    geocoded@,
                    n as int,
                    i,
                    g as int,
                ),
            forall|u: int| 0 <= u < base ==> response_plain(paths, #[trigger] geocoded[u]),
        decreases groups - g,
    {
        assert((g + 1) * n == g * n + n) by (nonlinear_arith);
        assert((g + 1) * n <= groups * n) by (nonlinear_arith)
            requires
                g + 1 <= groups,
                0 <= n,
        ;
        let mut i: usize = 0;
        while i < n
            invariant
                i <= n,
                g < groups,
                base == g * n,
                base + n <= geocoded.len(),
                geocoded.len() == groups * n,
                rows.len() == n,
                given.len() == n,
                given == chunk.rows(),
                *shared == chunk.shared(),
                groups == shared.spec.prefix_views().len(),
                paths == shared.structure.paths(),
                rows_in_range(shared.spec, rows@),
                forall|j: int|
                    0 <= j < i ==> texts((#[trigger] rows[j])@) == merged_row(
                        given[j],
                        paths,
                        geocoded@,
                        n as int,
                        j,
                        g + 1,
                    ),
                forall|j: int|
                    i <= j < n ==> texts((#[trigger] rows[j])@) == merged_row(
                        given[j],
                        paths,
                        geocoded@,
                        n as int,
                        j,
                        g as int,
                    ),
                forall|u: int| 0 <= u < base + i ==> response_plain(paths, #[trigger] geocoded[u]),
            decreases n - i,
        {
            let ghost before = rows@;
            let ghost width = rows[i as int].len();
            let outcome = match &geocoded[base + i] {
                Some(response) => shared.structure.add_value_columns_to_row(
                    &response.fields,
                    &mut rows[i],
                ),
                None => shared.structure.add_empty_columns_to_row(&mut rows[i]),
            };
            match outcome {
                Ok(()) => {},
                Err(e) => {
                    proof {
                        let t = base + i;
                        let k = choose|k: int|
                            {
                                &&& #[trigger] first_unexpected(paths, geocoded[t]->0.fields, k)
                                &&& e.is_unexpected_value(paths[k])
                            };
                        assert(first_bad_response(paths, geocoded@, t));
                        assert(!all_responses_plain(paths, geocoded@));
                    }
                    return Err(e);
                },
            }
            assert(rows.len() == n);
            assert(forall|j: int| 0 <= j < n && j != i ==> rows[j] == before[j]);
            assert(texts(rows[i as int]@) == texts(before[i as int]@) + columns_for(
                paths,
                geocoded[base + i],
            ));
            assert(rows[i as int].len() >= width) by {
                assert(texts(rows[i as int]@).len() == rows[i as int].len());
                assert(texts(before[i as int]@).len() == width);
            }
            assert(rows_in_range(shared.spec, rows@)) by {
                assert forall|j: int| 0 <= j < rows.len() implies shared.spec.in_range(
                    (#[trigger] rows[j]).len() as nat,
                ) by {
                    if j == i {
                        assert(shared.spec.in_range(before[j].len() as nat));
                        lemma_in_range_grows(shared.spec, width as nat, rows[j].len() as nat);
                    } else {
                        assert(rows[j] == before[j]);
                    }
                }
            }
            i += 1;
        }
        g += 1;
        base += n;
    }
    let out = Chunk { shared, rows };
    assert forall|i: int| 0 <= i < n implies #[trigger] out.rows()[i] == merged_row(
        given[i],
        paths,
        geocoded@,
        n as int,
        i,
        groups as int,
    ) by {
        assert(out.rows()[i] == texts(out.rows@[i]@));
    }
    assert(rows_extend(out.rows(), given)) by {
        assert forall|i: int| 0 <= i < given.len() implies row_extends(
            #[trigger] out.rows()[i],
            given[i],
        ) by {
            lemma_merged_extends(given[i], paths, geocoded@, n as int, i, groups as int);
        }
    }
    Ok(out)
}

/// A column specification that fits a row fits every wider row.
proof fn lemma_in_range_grows(spec: AddressColumnSpec<usize>, narrow: nat, wide: nat)
    requires
        spec.in_range(narrow),
        narrow <= wide,
    ensures
        spec.in_range(wide),
{
    assert forall|g: int| 0 <= g < spec.keys_seq().len() implies (#[trigger] spec.keys_seq()[g]).in_range(
        wide,
    ) by {
        assert(spec.keys_seq()[g].in_range(narrow));
    }
}

/// What the writing stage has seen so far.
#[derive(Debug, Clone, Copy, PartialEq, Eq, Structural)]
pub struct WriterState {
    headers_written: bool,
    end_of_stream_seen: bool,
}

/// The records that a writer puts out for one message: the rows of a batch,
/// with the header before them if no header has been written yet; nothing
/// for the end marker.
pub open spec fn records_for(message: Message, headers_written: bool) -> Seq<Seq<Seq<char>>> {
    match message {
        Message::Chunk(chunk) => if headers_written {
            chunk.rows()
        } else {
            seq![texts(chunk.shared().out_headers@)] + chunk.rows()
        },
        Message::EndOfStream => Seq::empty(),
    }
}

impl WriterState {
    /// Whether the header has been written.
    pub closed spec fn headers_written(self) -> bool {
        self.headers_written
    }

    /// Whether the end marker has been seen.
    pub closed spec fn end_of_stream_seen(self) -> bool {
        self.end_of_stream_seen
    }

    /// The state before the first message.
    pub fn new() -> (state: WriterState)
        ensures
            !state.headers_written(),
            !state.end_of_stream_seen(),
    {
        WriterState { headers_written: false, end_of_stream_seen: false }
    }

    /// Whether the writer is done: it has seen the end marker, and takes no
    /// further message.
    pub fn is_done(&self) -> (done: bool)
        ensures
            done == self.end_of_stream_seen(),
    {
        self.end_of_stream_seen
    }

    /// Whether the header has been written.
    pub fn has_written_headers(&self) -> (written: bool)
        ensures
            written == self.headers_written(),
    {
        self.headers_written
    }

    /// Takes the next message and gives the records to write for it, in
    /// order.  The header goes out once, before the rows of the first
    /// batch.  The end marker must not come before the first batch, and
    /// nothing may come after the end marker.
    pub fn on_message(&mut self, message: Message) -> (records: Vec<Vec<String>>)
        requires
            !old(self).end_of_stream_seen(),
            message is EndOfStream ==> old(self).headers_written(),
        ensures
            row_texts(records@) == records_for(message, old(self).headers_written()),
            final(self).headers_written() == (old(self).headers_written() || message is Chunk),
            final(self).end_of_stream_seen() == (message is EndOfStream),
    {
        match message {
            Message::Chunk(chunk) => {
                let ghost rows = chunk.rows();
                let mut records: Vec<Vec<String>> = Vec::new();
                if !self.headers_written {
                    records.push(copy_texts(&chunk.shared.out_headers));
                    self.headers_written = true;
                }
                let ghost first = row_texts(records@);
                let Chunk { shared: _, rows: batch } = chunk;
                let mut batch = batch;
                records.append(&mut batch);
                assert(row_texts(records@) =~= first + rows);
                records
            },
            Message::EndOfStream => {
                self.end_of_stream_seen = true;
                let records: Vec<Vec<String>> = Vec::new();
                assert(row_texts(records@) =~= Seq::<Seq<Seq<char>>>::empty());
                records
            },
        }
    }

    /// Judges the end of the stream of messages.  To have seen the end
    /// marker is the only way to end well: a stream that stops without it has
    /// been cut off.
    pub fn finish(&self) -> (r: Result<(), Error>)
        ensures
            self.end_of_stream_seen() ==> r is Ok,
            !self.end_of_stream_seen() ==> r == Err::<(), Error>(Error::MissingEndOfStream),
    {
        if self.end_of_stream_seen {
            Ok(())
        } else {
            Err(Error::MissingEndOfStream)
        }
    }
}

/// `end` is the place of the first end marker in `messages`.
pub open spec fn first_end(messages: Seq<Message>, end: int) -> bool {
    &&& 0 <= end < messages.len()
    &&& messages[end] is EndOfStream
    &&& forall|i: int| 0 <= i < end ==> #[trigger] messages[i] is Chunk
}

/// No message is an end marker.
pub open spec fn never_ends(messages: Seq<Message>) -> bool {
    forall|i: int| 0 <= i < messages.len() ==> #[trigger] messages[i] is Chunk
}

/// Runs a whole stream of messages through a writer and gives everything
/// that is written: the header of the first batch, then the rows of every
/// batch before the end marker, in the order of the stream.  A stream
/// without an end marker is an error.
pub fn write_all(messages: Vec<Message>) -> (r: Result<Vec<Vec<String>>, Error>)
    requires
        messages.len() > 0 ==> messages[0] is Chunk,
    ensures
        r is Ok <==> !never_ends(messages@),
        match r {
            Ok(records) => exists|end: int|
                {
                    &&& #[trigger] first_end(messages@, end)
                    &&& row_texts(records@) == seq![
                        texts(messages[0]->Chunk_0.shared().out_headers@),
                    ] + stream_rows(messages@.subrange(0, end))
                },
            Err(e) => e == Error::MissingEndOfStream,
        },
{
    let ghost all = messages@;
    let mut remaining = messages;
    let mut reversed: Vec<Message> = Vec::new();
    while remaining.len() > 0
        invariant
            remaining.len() + reversed.len() == all.len(),
            remaining@ == all.subrange(0, remaining.len() as int),
            forall|i: int| 0 <= i < reversed.len() ==> #[trigger] reversed[i] == all[all.len() - 1 - i],
        decreases remaining.len(),
    {
        let message = remaining.pop().unwrap();
        reversed.push(message);
    }
    let total = reversed.len();
    let mut state = WriterState::new();
    let mut records: Vec<Vec<String>> = Vec::new();
    let mut k: usize = 0;
    assert(all.subrange(0, 0) =~= Seq::<Message>::empty());
    assert(row_texts(records@) =~= Seq::<Seq<Seq<char>>>::empty());
    while k < total
        invariant
            k <= total,
            total == all.len(),
            all == messages@,
            all.len() > 0 ==> all[0] is Chunk,
            reversed.len() == total - k,
            forall|i: int| 0 <= i < reversed.len() ==> #[trigger] reversed[i] == all[all.len() - 1 - i],
            !state.end_of_stream_seen(),
            state.headers_written() == (k > 0),
            forall|i: int| 0 <= i < k ==> #[trigger] all[i] is Chunk,
            k == 0 ==> row_texts(records@) == Seq::<Seq<Seq<char>>>::empty(),
            k > 0 ==> row_texts(records@) == seq![texts(all[0]->Chunk_0.shared().out_headers@)]
                + stream_rows(all.subrange(0, k as int)),
        decreases total - k,
    {
        let message = reversed.pop().unwrap();
        assert(message == all[k as int]);
        let ghost sofar = row_texts(records@);
        let ghost upto = all.subrange(0, k + 1);
        assert(upto.drop_last() =~= all.subrange(0, k as int));
        assert(upto.last() == all[k as int]);
        let mut more = state.on_message(message);
        let ghost added = row_texts(more@);
        records.append(&mut more);
        assert(row_texts(records@) =~= sofar + added);
        if state.is_done() {
            assert(first_end(all, k as int));
            assert(added =~= Seq::<Seq<Seq<char>>>::empty());
            assert(row_texts(records@) =~= sofar);
            return Ok(records);
        }
        assert(stream_rows(upto) == stream_rows(all.subrange(0, k as int)) + all[k as int].rows());
        assert(all[k as int] is Chunk);
        if k == 0 {
            assert(stream_rows(all.subrange(0, 0)) =~= Seq::<Seq<Seq<char>>>::empty());
            assert(added == seq![texts(all[0]->Chunk_0.shared().out_headers@)] + all[0].rows());
        } else {
            assert(added == all[k as int].rows());
        }
        assert(row_texts(records@) =~= seq![texts(all[0]->Chunk_0.shared().out_headers@)]
            + stream_rows(upto));
        k += 1;
    }
    match state.finish() {
        Ok(()) => Ok(records),
        Err(e) => Err(e),
    }
}

/// What one stage of a run has to say for itself: nothing where it ended
/// well; where it failed, what it was doing and what went wrong.
pub open spec fn stage_note(context: Seq<char>, outcome: Result<(), String>) -> Seq<Seq<char>> {
    match outcome {
        Ok(_) => Seq::empty(),
        Err(message) => seq!["Error: "@ + context + "\n  caused by: "@ + message@ + "\n"@],
    }
}

/// How a run ended.
#[derive(Debug)]
pub struct PipelineResult {
    /// One note for every stage that failed, in the order of the stages.
    pub diagnostics: Vec<String>,
    /// Whether the run succeeded.
    pub result: Result<(), Error>,
}

/// Adds the note of one stage to the notes of a run.
fn note_stage(context: &str, outcome: &Result<(), String>, diagnostics: &mut Vec<String>)
    ensures
        texts(final(diagnostics)@) == texts(old(diagnostics)@) + stage_note(context@, *outcome),
{
    let ghost before = texts(diagnostics@);
    match outcome {
        Ok(_) => {
            assert(texts(diagnostics@) =~= before + stage_note(context@, *outcome));
        },
        Err(message) => {
            let mut note = "Error: ".to_owned();
            note.append(context);
            note.append("\n  caused by: ");
            note.append(message.as_str());
            note.append("\n");
            diagnostics.push(note);
            assert(texts(diagnostics@) =~= before + stage_note(context@, *outcome));
        },
    }
}

/// Sums up a run from the ends of its three stages.  The run succeeds only
/// if all three ended well.  Otherwise every stage that failed is reported,
/// reading first, geocoding second, writing third: when one stage fails the
/// others mostly fail with it, and which came first cannot be told.
pub fn combine_stage_results(
    read_result: Result<(), String>,
    geocode_result: Result<(), String>,
    write_result: Result<(), String>,
) -> (out: PipelineResult)
    ensures
        texts(out.diagnostics@) == stage_note("error reading input"@, read_result) + stage_note(
            "error geocoding"@,
            geocode_result,
        ) + stage_note("error writing output"@, write_result),
        read_result is Ok && geocode_result is Ok && write_result is Ok ==> out.result is Ok,
        !(read_result is Ok && geocode_result is Ok && write_result is Ok) ==> out.result == Err::<
            (),
            Error,
        >(Error::PipelineFailed),
{
    let mut diagnostics: Vec<String> = Vec::new();
    assert(texts(diagnostics@) =~= Seq::<Seq<char>>::empty());
    note_stage("error reading input", &read_result, &mut diagnostics);
    note_stage("error geocoding", &geocode_result, &mut diagnostics);
    note_stage("error writing output", &write_result, &mut diagnostics);
    let failed = read_result.is_err() || geocode_result.is_err() || write_result.is_err();
    let result = if failed {
        Err(Error::PipelineFailed)
    } else {
        Ok(())
    };
    PipelineResult { diagnostics, result }
}

/// The row `out` is the row `row` with columns added behind it.
pub open spec fn row_extends(out: Seq<Seq<char>>, row: Seq<Seq<char>>) -> bool {
    row.len() <= out.len() && out.subrange(0, row.len() as int) == row
}

/// The rows `out` are the rows `rows`, one for one and in the same order,
/// each with columns added behind it.
pub open spec fn rows_extend(out: Seq<Seq<Seq<char>>>, rows: Seq<Seq<Seq<char>>>) -> bool {
    &&& out.len() == rows.len()
    &&& forall|i: int| 0 <= i < rows.len() ==> row_extends(#[trigger] out[i], rows[i])
}

/// The stream `out` is the stream `input` after geocoding: message for
/// message in the same order, each batch with the rows that it had.
pub open spec fn stream_extends(out: Seq<Message>, input: Seq<Message>) -> bool {
    &&& out.len() == input.len()
    &&& forall|i: int|
        0 <= i < input.len() ==> rows_extend((#[trigger] out[i]).rows(), input[i].rows())
}

/// Geocoding adds columns behind those that a row has.
pub proof fn lemma_merged_extends(
    row: Seq<Seq<char>>,
    paths: Seq<Path>,
    geocoded: Seq<Option<AddressResponse>>,
    n: int,
    r: int,
    g: int,
)
    ensures
        row_extends(merged_row(row, paths, geocoded, n, r, g), row),
    decreases g,
{
    if g > 0 {
        lemma_merged_extends(row, paths, geocoded, n, r, g - 1);
        let before = merged_row(row, paths, geocoded, n, r, g - 1);
        let after = merged_row(row, paths, geocoded, n, r, g);
        assert(after.subrange(0, row.len() as int) =~= before.subrange(0, row.len() as int));
    } else {
        assert(row.subrange(0, row.len() as int) =~= row);
    }
}

/// Rows that are extended batch by batch are extended as a whole.
proof fn lemma_rows_extend_joined(
    a: Seq<Seq<Seq<char>>>,
    b: Seq<Seq<Seq<char>>>,
    c: Seq<Seq<Seq<char>>>,
    d: Seq<Seq<Seq<char>>>,
)
    requires
        rows_extend(a, c),
        rows_extend(b, d),
    ensures
        rows_extend(a + b, c + d),
{
    assert forall|i: int| 0 <= i < (c + d).len() implies row_extends(#[trigger] (a + b)[i], (c + d)[i]) by {
        if i < c.len() {
            assert((a + b)[i] == a[i]);
            assert((c + d)[i] == c[i]);
        } else {
            assert((a + b)[i] == b[i - a.len()]);
            assert((c + d)[i] == d[i - c.len()]);
        }
    }
}

/// Every row that enters the pipeline leaves it, once and at its place:
/// where the batches are handed on in the order in which they came, each
/// with its rows in their order, the rows that are written are the rows
/// that were read, one for one and in the same order, each with columns
/// added behind it.  Neither the size of the batches nor the number of
/// batches that are worked on at a time has a say in it.
pub proof fn lemma_rows_survive(input: Seq<Message>, out: Seq<Message>)
    requires
        stream_extends(out, input),
    ensures
        rows_extend(stream_rows(out), stream_rows(input)),
    decreases input.len(),
{
    if input.len() > 0 {
        assert(stream_extends(out.drop_last(), input.drop_last())) by {
            assert forall|i: int| 0 <= i < input.drop_last().len() implies rows_extend(
                (#[trigger] out.drop_last()[i]).rows(),
                input.drop_last()[i].rows(),
            ) by {
                assert(out.drop_last()[i] == out[i]);
                assert(input.drop_last()[i] == input[i]);
            }
        }
        lemma_rows_survive(input.drop_last(), out.drop_last());
        assert(rows_extend(out.last().rows(), input.last().rows())) by {
            assert(out.last() == out[out.len() - 1]);
        }
        lemma_rows_extend_joined(
            stream_rows(out.drop_last()),
            out.last().rows(),
            stream_rows(input.drop_last()),
            input.last().rows(),
        );
    }
}

/// Every column that is kept stood in the row under a flag that is not set.
proof fn lemma_kept_from_row(row: Seq<Seq<char>>, flags: Seq<bool>, n: int, j: int)
    requires
        0 <= n <= row.len(),
        n <= flags.len(),
        0 <= j < kept_upto(row, flags, n).len(),
    ensures
        exists|i: int| 0 <= i < n && !flags[i] && #[trigger] row[i] == kept_upto(row, flags, n)[j],
    decreases n,
{
    if n > 0 {
        let before = kept_upto(row, flags, n - 1);
        if j < before.len() {
            lemma_kept_from_row(row, flags, n - 1, j);
            let i = choose|i: int| 0 <= i < n - 1 && !flags[i] && #[trigger] row[i] == before[j];
            assert(row[i] == kept_upto(row, flags, n)[j]);
        } else {
            assert(row[n - 1] == kept_upto(row, flags, n)[j]);
        }
    }
}

/// Once the duplicate columns are dealt with, no name stands in the header
/// of the output twice: where the output columns differ in name from each
/// other, and the input columns that are kept do, and the policy is not to
/// leave colliding columns in place, every name in the header is the only
/// one of its kind.
pub proof fn lemma_resolved_header_is_unique(
    headers: Seq<Seq<char>>,
    names: Seq<Seq<char>>,
    policy: OnDuplicateColumns,
)
    requires
        policy != OnDuplicateColumns::Append,
        policy == OnDuplicateColumns::Error ==> conflicting_columns(headers, names).len() == 0,
        kept_columns(headers, removal_flags(headers, names, policy)).no_duplicates(),
        names.no_duplicates(),
    ensures
        (kept_columns(headers, removal_flags(headers, names, policy)) + names).no_duplicates(),
{
    let flags = removal_flags(headers, names, policy);
    let kept = kept_columns(headers, flags);
    let all = kept + names;
    assert forall|x: int, y: int| 0 <= x < all.len() && 0 <= y < all.len() && x != y implies #[trigger] all[x]
        != #[trigger] all[y] by {
        if x < kept.len() && y < kept.len() {
            assert(all[x] == kept[x] && all[y] == kept[y]);
        } else if x >= kept.len() && y >= kept.len() {
            assert(all[x] == names[x - kept.len()] && all[y] == names[y - kept.len()]);
        } else {
            let (a, b) = if x < kept.len() {
                (x, y)
            } else {
                (y, x)
            };
            lemma_kept_from_row(headers, flags, headers.len() as int, a);
            let i = choose|i: int|
                0 <= i < headers.len() && !flags[i] && #[trigger] headers[i] == kept[a];
            lemma_conflicts(headers, names, i);
            if names.contains(headers[i]) {
                if policy == OnDuplicateColumns::Error {
                    assert(conflicting_columns(headers, names).contains(i));
                }
            }
            assert(all[b] == names[b - kept.len()]);
            assert(names.contains(all[b]));
        }
    }
}

} // verus!