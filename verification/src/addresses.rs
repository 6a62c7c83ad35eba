//! Addresses, and the columns of a table that hold them.

use vstd::prelude::*;
use vstd::string::*;

use crate::errors::Error;
use crate::structure::{column_name, Path, Structure};
use crate::text::{
    contains_text, position_of, join, join_spec, lemma_rank_exclusive, lemma_text_lt_transitive, rank_text, same_text,
    strictly_ascending, text_lt, texts, Rank,
};

verus! {

/// An address to be geocoded.
#[derive(Clone, Debug, PartialEq, Eq)]
pub struct Address {
    /// Either the street, or the entire address as a string. This is always
    /// present.
    pub street: String,
    /// The city, if any.
    pub city: Option<String>,
    /// The state, if any.
    pub state: Option<String>,
    /// The zipcode, if any.
    pub zipcode: Option<String>,
}

/// What an `Address` says, as plain text.
pub struct AddressText {
    pub street: Seq<char>,
    pub city: Option<Seq<char>>,
    pub state: Option<Seq<char>>,
    pub zipcode: Option<Seq<char>>,
}

/// The text of an optional string.
pub open spec fn optional_text(s: Option<String>) -> Option<Seq<char>> {
    match s {
        Some(t) => Some(t@),
        None => None,
    }
}

impl View for Address {
    type V = AddressText;

    open spec fn view(&self) -> AddressText {
        AddressText {
            street: self.street@,
            city: optional_text(self.city),
            state: optional_text(self.state),
            zipcode: optional_text(self.zipcode),
        }
    }
}

/// Either one column, or a list of columns.
///
/// `K` is either a `String` (for a column name) or a `usize` (for a column
/// index).
#[derive(Debug, PartialEq, Eq)]
pub enum ColumnKeyOrKeys<K> {
    /// A single column.
    Key(K),
    /// Several columns, whose values are joined with a space.
    Keys(Vec<K>),
}

/// The columns of a table that together hold one address.
///
/// `K` is either a `String` (for a column name) or a `usize` (for a column
/// index).
#[derive(Debug, PartialEq, Eq)]
pub struct AddressColumnKeys<K> {
    /// The street column or columns.
    pub street: ColumnKeyOrKeys<K>,
    /// The city column, if any.
    pub city: Option<K>,
    /// The state column, if any.
    pub state: Option<K>,
    /// The zipcode column, if any.
    pub zipcode: Option<K>,
}

/// Whether an optional column index lies within a row of `width` fields.
pub open spec fn optional_in_range(key: Option<usize>, width: nat) -> bool {
    match key {
        Some(k) => k < width,
        None => true,
    }
}

/// The field of `record` that an optional column index points at.
pub open spec fn optional_field(key: Option<usize>, record: Seq<Seq<char>>) -> Option<Seq<char>> {
    match key {
        Some(k) => Some(record[k as int]),
        None => None,
    }
}

impl ColumnKeyOrKeys<usize> {
    /// Every column index lies within a row of `width` fields.
    pub open spec fn in_range(self, width: nat) -> bool {
        match self {
            ColumnKeyOrKeys::Key(k) => k < width,
            ColumnKeyOrKeys::Keys(ks) => forall|i: int| 0 <= i < ks.len() ==> #[trigger] ks[i] < width,
        }
    }

    /// The text that these columns give for `record`: the field itself for
    /// a single column, the fields joined by single spaces for several.
    pub open spec fn extracted(self, record: Seq<Seq<char>>) -> Seq<char> {
        match self {
            ColumnKeyOrKeys::Key(k) => record[k as int],
            ColumnKeyOrKeys::Keys(ks) => join_spec(
                ks@.map_values(|k: usize| record[k as int]),
                seq![' '],
            ),
        }
    }

    /// The text that these columns give for a row.
    pub fn text_from_record(&self, record: &Vec<String>) -> (text: String)
        requires
            self.in_range(record.len() as nat),
        ensures
            text@ == self.extracted(texts(record@)),
    {
        match self {
            ColumnKeyOrKeys::Key(key) => record[*key].clone(),
            ColumnKeyOrKeys::Keys(keys) => {
                let ghost fields = keys@.map_values(|k: usize| texts(record@)[k as int]);
                let mut parts: Vec<String> = Vec::new();
                let mut i: usize = 0;
                while i < keys.len()
                    invariant
                        i <= keys.len(),
                        forall|t: int| 0 <= t < keys.len() ==> #[trigger] keys[t] < record.len(),
                        fields == keys@.map_values(|k: usize| texts(record@)[k as int]),
                        texts(parts@) == fields.subrange(0, i as int),
                    decreases keys.len() - i,
                {
                    let ghost sofar = texts(parts@);
                    parts.push(record[keys[i]].clone());
                    assert(texts(parts@) =~= sofar.push(record@[keys@[i as int] as int]@));
                    assert(texts(parts@) =~= fields.subrange(0, i + 1));
                    i += 1;
                }
                assert(fields.subrange(0, keys.len() as int) =~= fields);
                proof {
                    reveal_strlit(" ");
                }
                assert(" "@ =~= seq![' ']);
                join(&parts, " ")
            },
        }
    }
    /// Given a row, extracts the text of these columns.
    pub fn extract_from_record(&self, record: &Vec<String>) -> (r: Result<String, Error>)
        requires
            self.in_range(record.len() as nat),
        ensures
            r matches Ok(s) && s@ == self.extracted(texts(record@)),
    {
        Ok(self.text_from_record(record))
    }
}

impl AddressColumnKeys<usize> {
    /// Every column index lies within a row of `width` fields.
    pub open spec fn in_range(self, width: nat) -> bool {
        &&& self.street.in_range(width)
        &&& optional_in_range(self.city, width)
        &&& optional_in_range(self.state, width)
        &&& optional_in_range(self.zipcode, width)
    }

    /// The address that these columns give for `record`.
    pub open spec fn address_of(self, record: Seq<Seq<char>>) -> AddressText {
        AddressText {
            street: self.street.extracted(record),
            city: optional_field(self.city, record),
            state: optional_field(self.state, record),
            zipcode: optional_field(self.zipcode, record),
        }
    }

    /// The address that these columns give for a row.
    pub fn address_from_record(&self, record: &Vec<String>) -> (address: Address)
        requires
            self.in_range(record.len() as nat),
        ensures
            address@ == self.address_of(texts(record@)),
    {
        let street = self.street.text_from_record(record);
        let city = optional_cell(self.city, record);
        let state = optional_cell(self.state, record);
        let zipcode = optional_cell(self.zipcode, record);
        Address { street, city, state, zipcode }
    }

    /// Given a row, extracts the address to geocode.
    pub fn extract_address_from_record(&self, record: &Vec<String>) -> (r: Result<Address, Error>)
        requires
            self.in_range(record.len() as nat),
        ensures
            r matches Ok(a) && a@ == self.address_of(texts(record@)),
    {
        Ok(self.address_from_record(record))
    }
}

/// A copy of the field that an optional column index points at.
fn optional_cell(key: Option<usize>, record: &Vec<String>) -> (r: Option<String>)
    requires
        optional_in_range(key, record.len() as nat),
    ensures
        optional_text(r) == optional_field(key, texts(record@)),
{
    match key {
        Some(k) => Some(record[k].clone()),
        None => None,
    }
}

/// A map from column prefixes (e.g. "home", "work") to the columns of the
/// address that goes by that prefix.  The entries are kept in ascending order
/// of prefix, so that the groups of output columns come in the same order on
/// every run.
///
/// `Key` is either a `String` (for a column name) or a `usize` (for a column
/// index).
#[derive(Debug, PartialEq, Eq)]
pub struct AddressColumnSpec<Key> {
    /// The prefixes with their columns, in strictly ascending order of prefix.
    entries: Vec<(String, AddressColumnKeys<Key>)>,
}

/// The views of a vector of string slices.
pub open spec fn slice_texts(v: Seq<&str>) -> Seq<Seq<char>> {
    v.map_values(|s: &str| s@)
}

impl<Key> AddressColumnSpec<Key> {
    /// The prefixes, in the order of their groups of output columns.
    pub closed spec fn prefix_views(self) -> Seq<Seq<char>> {
        self.entries@.map_values(|e: (String, AddressColumnKeys<Key>)| e.0@)
    }

    /// The columns of each prefix, in the order of `prefix_views`.
    pub closed spec fn keys_seq(self) -> Seq<AddressColumnKeys<Key>> {
        self.entries@.map_values(|e: (String, AddressColumnKeys<Key>)| e.1)
    }

    /// The prefixes stand in strictly ascending order, so none occurs twice.
    #[verifier::type_invariant]
    pub closed spec fn wf(self) -> bool {
        strictly_ascending(self.prefix_views())
    }

    /// What `wf` says, for those who cannot see inside the type.
    pub proof fn lemma_wf(self)
        requires
            self.wf(),
        ensures
            strictly_ascending(self.prefix_views()),
            self.keys_seq().len() == self.prefix_views().len(),
    {
    }

    /// A specification without any prefix.
    pub fn new() -> (out: Self)
        ensures
            out.wf(),
            out.prefix_views() == Seq::<Seq<char>>::empty(),
            out.keys_seq() == Seq::<AddressColumnKeys<Key>>::empty(),
    {
        let out = AddressColumnSpec { entries: Vec::new() };
        assert(out.prefix_views() =~= Seq::<Seq<char>>::empty());
        assert(out.keys_seq() =~= Seq::<AddressColumnKeys<Key>>::empty());
        out
    }

    /// Where `prefix` stands among the entries, or would stand: the number of
    /// prefixes before it, and whether it is there.
    fn locate(&self, prefix: &str) -> (r: (usize, bool))
        ensures
            r.0 <= self.prefix_views().len(),
            forall|i: int| 0 <= i < r.0 ==> text_lt(#[trigger] self.prefix_views()[i], prefix@),
            r.1 ==> r.0 < self.prefix_views().len() && self.prefix_views()[r.0 as int] == prefix@,
            !r.1 ==> forall|i: int|
                r.0 <= i < self.prefix_views().len() ==> text_lt(
                    prefix@,
                    #[trigger] self.prefix_views()[i],
                ),
    {
        proof {
            use_type_invariant(self);
        }
        let mut p: usize = 0;
        while p < self.entries.len()
            invariant
                p <= self.entries.len(),
                self.wf(),
                forall|i: int| 0 <= i < p ==> text_lt(#[trigger] self.prefix_views()[i], prefix@),
            decreases self.entries.len() - p,
        {
            match rank_text(self.entries[p].0.as_str(), prefix) {
                Rank::Before => {
                    assert(self.prefix_views()[p as int] == self.entries@[p as int].0@);
                },
                Rank::Same => {
                    assert(self.prefix_views()[p as int] == self.entries@[p as int].0@);
                    return (p, true);
                },
                Rank::After => {
                    assert(self.prefix_views()[p as int] == self.entries@[p as int].0@);
                    assert forall|i: int| p <= i < self.prefix_views().len() implies text_lt(
                        prefix@,
                        #[trigger] self.prefix_views()[i],
                    ) by {
                        if p < i {
                            lemma_text_lt_transitive(
                                prefix@,
                                self.prefix_views()[p as int],
                                self.prefix_views()[i],
                            );
                        }
                    }
                    return (p, false);
                },
            }
            p += 1;
        }
        (p, false)
    }

    /// This specification with `keys` under `prefix`, in place of what stood
    /// under that prefix before, if anything did.
    pub fn with_prefix(self, prefix: &str, keys: AddressColumnKeys<Key>) -> (out: Self)
        ensures
            out.wf(),
            self.prefix_views().contains(prefix@) ==> exists|p: int|
                {
                    &&& 0 <= p < self.prefix_views().len()
                    &&& #[trigger] self.prefix_views()[p] == prefix@
                    &&& out.prefix_views() == self.prefix_views()
                    &&& out.keys_seq() == self.keys_seq().update(p, keys)
                },
            !self.prefix_views().contains(prefix@) ==> exists|p: int|
                {
                    &&& 0 <= p <= self.prefix_views().len()
                    &&& out.prefix_views() == #[trigger] self.prefix_views().insert(p, prefix@)
                    &&& out.keys_seq() == self.keys_seq().insert(p, keys)
                },
    {
        proof {
            use_type_invariant(&self);
        }
        let (p, found) = self.locate(prefix);
        let ghost old_prefixes = self.prefix_views();
        let ghost old_keys = self.keys_seq();
        let mut entries = self.entries;
        if found {
            entries.push((prefix.to_owned(), keys));
            let _ = entries.swap_remove(p);
            let ghost shown = entries@.map_values(|e: (String, AddressColumnKeys<Key>)| e.0@);
            assert(shown =~= old_prefixes);
            let out = AddressColumnSpec { entries };
            assert(out.prefix_views() =~= old_prefixes);
            assert(out.keys_seq() =~= old_keys.update(p as int, keys));
            assert(old_prefixes.contains(prefix@));
            out
        } else {
            entries.insert(p, (prefix.to_owned(), keys));
            let ghost new_prefixes = old_prefixes.insert(p as int, prefix@);
            assert forall|i: int, j: int| 0 <= i < j < new_prefixes.len() implies text_lt(
                new_prefixes[i],
                new_prefixes[j],
            ) by {
                if j < p {
                } else if j == p {
                } else if i == p {
                    assert(new_prefixes[j] == old_prefixes[j - 1]);
                } else if i < p {
                    assert(new_prefixes[j] == old_prefixes[j - 1]);
                    lemma_text_lt_transitive(old_prefixes[i], prefix@, old_prefixes[j - 1]);
                } else {
                    assert(new_prefixes[i] == old_prefixes[i - 1]);
                    assert(new_prefixes[j] == old_prefixes[j - 1]);
                }
            }
            assert(!old_prefixes.contains(prefix@)) by {
                if old_prefixes.contains(prefix@) {
                    let i = choose|i: int| 0 <= i < old_prefixes.len() && old_prefixes[i] == prefix@;
                    if i < p {
                        lemma_rank_exclusive(old_prefixes[i], prefix@);
                    } else {
                        lemma_rank_exclusive(prefix@, old_prefixes[i]);
                    }
                }
            }
            let ghost shown = entries@.map_values(|e: (String, AddressColumnKeys<Key>)| e.0@);
            assert(shown =~= new_prefixes);
            let out = AddressColumnSpec { entries };
            assert(out.keys_seq() =~= old_keys.insert(p as int, keys));
            out
        }
    }

    /// The number of prefixes we want to include in our output.
    pub fn prefix_count(&self) -> (n: usize)
        ensures
            n == self.prefix_views().len(),
    {
        self.entries.len()
    }

    /// The address prefixes we want to include in our output, in ascending
    /// order.  The order is the same on every call: the output columns depend
    /// on it.
    pub fn prefixes(&self) -> (r: Vec<&str>)
        ensures
            slice_texts(r@) == self.prefix_views(),
            strictly_ascending(slice_texts(r@)),
    {
        proof {
            use_type_invariant(self);
        }
        let mut out: Vec<&str> = Vec::new();
        let mut i: usize = 0;
        while i < self.entries.len()
            invariant
                i <= self.entries.len(),
                slice_texts(out@) == self.prefix_views().subrange(0, i as int),
            decreases self.entries.len() - i,
        {
            let ghost sofar = slice_texts(out@);
            out.push(self.entries[i].0.as_str());
            assert(slice_texts(out@) =~= sofar.push(self.entries@[i as int].0@));
            assert(slice_texts(out@) =~= self.prefix_views().subrange(0, i + 1));
            i += 1;
        }
        assert(self.prefix_views().subrange(0, self.entries.len() as int) =~= self.prefix_views());
        out
    }

    /// Looks up the columns of an address by its prefix.
    pub fn get(&self, prefix: &str) -> (r: Option<&AddressColumnKeys<Key>>)
        ensures
            match r {
                Some(keys) => exists|p: int|
                    0 <= p < self.prefix_views().len() && #[trigger] self.prefix_views()[p]
                        == prefix@ && self.keys_seq()[p] == *keys,
                None => !self.prefix_views().contains(prefix@),
            },
    {
        let (p, found) = self.locate(prefix);
        if found {
            assert(self.keys_seq()[p as int] == self.entries@[p as int].1);
            Some(&self.entries[p].1)
        } else {
            assert(!self.prefix_views().contains(prefix@)) by {
                if self.prefix_views().contains(prefix@) {
                    let i = choose|i: int|
                        0 <= i < self.prefix_views().len() && self.prefix_views()[i] == prefix@;
                    if i < p {
                        lemma_rank_exclusive(self.prefix_views()[i], prefix@);
                    } else {
                        lemma_rank_exclusive(prefix@, self.prefix_views()[i]);
                    }
                }
            }
            None
        }
    }

    /// The columns of the prefix at `position` in the order of `prefixes`.
    pub fn keys_at(&self, position: usize) -> (keys: &AddressColumnKeys<Key>)
        requires
            position < self.prefix_views().len(),
        ensures
            *keys == self.keys_seq()[position as int],
    {
        &self.entries[position].1
    }

    /// The prefix at `position` in the order of `prefixes`.
    pub fn prefix_at(&self, position: usize) -> (prefix: &str)
        requires
            position < self.prefix_views().len(),
        ensures
            prefix@ == self.prefix_views()[position as int],
    {
        self.entries[position].0.as_str()
    }
}

/// `name` stands in `headers` at `index`.
pub open spec fn names_column(headers: Seq<Seq<char>>, name: Seq<char>, index: usize) -> bool {
    index < headers.len() && headers[index as int] == name
}

/// An optional column name and an optional column index agree: both are
/// absent, or the name stands in `headers` at the index.
pub open spec fn optional_resolved(
    headers: Seq<Seq<char>>,
    name: Option<String>,
    index: Option<usize>,
) -> bool {
    match (name, index) {
        (None, None) => true,
        (Some(n), Some(i)) => names_column(headers, n@, i),
        _ => false,
    }
}

/// The name of an optional column, as a list of one name or none.
pub open spec fn optional_name(name: Option<String>) -> Seq<Seq<char>> {
    match name {
        Some(n) => seq![n@],
        None => Seq::empty(),
    }
}

/// `t` is the first of `names` that `headers` lacks.
pub open spec fn first_missing(names: Seq<Seq<char>>, headers: Seq<Seq<char>>, t: int) -> bool {
    &&& 0 <= t < names.len()
    &&& !headers.contains(names[t])
    &&& forall|i: int| 0 <= i < t ==> headers.contains(#[trigger] names[i])
}

/// Every one of `names` stands in `headers`.
pub open spec fn all_present(names: Seq<Seq<char>>, headers: Seq<Seq<char>>) -> bool {
    forall|i: int| 0 <= i < names.len() ==> headers.contains(#[trigger] names[i])
}

/// `j` is the first position of `headers` whose name stood at an earlier
/// position already.
pub open spec fn first_duplicate(headers: Seq<Seq<char>>, j: int) -> bool {
    &&& 0 <= j < headers.len()
    &&& headers.subrange(0, j).contains(headers[j])
    &&& headers.subrange(0, j).no_duplicates()
}

impl ColumnKeyOrKeys<String> {
    /// The column names, in the order in which they are looked up.
    pub open spec fn names(self) -> Seq<Seq<char>> {
        match self {
            ColumnKeyOrKeys::Key(k) => seq![k@],
            ColumnKeyOrKeys::Keys(ks) => texts(ks@),
        }
    }

    /// `out` holds, for each name, the index at which it stands in `headers`.
    pub open spec fn resolved_to(self, headers: Seq<Seq<char>>, out: ColumnKeyOrKeys<usize>) -> bool {
        match (self, out) {
            (ColumnKeyOrKeys::Key(n), ColumnKeyOrKeys::Key(i)) => names_column(headers, n@, i),
            (ColumnKeyOrKeys::Keys(ns), ColumnKeyOrKeys::Keys(is)) => {
                &&& ns.len() == is.len()
                &&& forall|t: int|
                    0 <= t < ns.len() ==> names_column(headers, (#[trigger] ns[t])@, is[t])
            },
            _ => false,
        }
    }
}

impl AddressColumnKeys<String> {
    /// The column names, in the order in which they are looked up: street,
    /// city, state, zipcode.
    pub open spec fn names(self) -> Seq<Seq<char>> {
        self.street.names() + optional_name(self.city) + optional_name(self.state) + optional_name(
            self.zipcode,
        )
    }

    /// `out` holds, for each name, the index at which it stands in `headers`.
    pub open spec fn resolved_to(self, headers: Seq<Seq<char>>, out: AddressColumnKeys<usize>) -> bool {
        &&& self.street.resolved_to(headers, out.street)
        &&& optional_resolved(headers, self.city, out.city)
        &&& optional_resolved(headers, self.state, out.state)
        &&& optional_resolved(headers, self.zipcode, out.zipcode)
    }
}

/// The column names of several addresses, one address after the other.
pub open spec fn names_of_all(keys: Seq<AddressColumnKeys<String>>) -> Seq<Seq<char>>
    decreases keys.len(),
{
    if keys.len() == 0 {
        Seq::empty()
    } else {
        names_of_all(keys.drop_last()) + keys.last().names()
    }
}

/// Looks up one column name in the header.
fn resolve_name(name: &str, headers: &Vec<String>) -> (r: Result<usize, Error>)
    ensures
        match r {
            Ok(i) => names_column(texts(headers@), name@, i),
            Err(e) => !texts(headers@).contains(name@) && e.is_column_not_found(name@),
        },
{
    match position_of(headers, name) {
        Some(i) => Ok(i),
        None => Err(Error::ColumnNotFound(name.to_owned())),
    }
}

/// Looks up an optional column name in the header.
fn resolve_optional(name: &Option<String>, headers: &Vec<String>) -> (r: Result<
    Option<usize>,
    Error,
>)
    ensures
        match r {
            Ok(out) => optional_resolved(texts(headers@), *name, out) && all_present(
                optional_name(*name),
                texts(headers@),
            ),
            Err(e) => first_missing(optional_name(*name), texts(headers@), 0)
                && e.is_column_not_found(optional_name(*name)[0]),
        },
{
    match name {
        Some(n) => match resolve_name(n.as_str(), headers) {
            Ok(i) => {
                assert(texts(headers@)[i as int] == n@);
                Ok(Some(i))
            },
            Err(e) => Err(e),
        },
        None => Ok(None),
    }
}

/// Looks up the street column or columns in the header.
fn resolve_street(street: &ColumnKeyOrKeys<String>, headers: &Vec<String>) -> (r: Result<
    ColumnKeyOrKeys<usize>,
    Error,
>)
    ensures
        match r {
            Ok(out) => street.resolved_to(texts(headers@), out) && all_present(
                street.names(),
                texts(headers@),
            ),
            Err(e) => exists|t: int| #[trigger]
                first_missing(street.names(), texts(headers@), t) && e.is_column_not_found(
                    street.names()[t],
                ),
        },
{
    match street {
        ColumnKeyOrKeys::Key(name) => match resolve_name(name.as_str(), headers) {
            Ok(i) => {
                assert(texts(headers@)[i as int] == name@);
                Ok(ColumnKeyOrKeys::Key(i))
            },
            Err(e) => {
                assert(first_missing(street.names(), texts(headers@), 0));
                Err(e)
            },
        },
        ColumnKeyOrKeys::Keys(names) => {
            let mut out: Vec<usize> = Vec::new();
            let mut t: usize = 0;
            while t < names.len()
                invariant
                    t <= names.len(),
                    out.len() == t,
                    *street == ColumnKeyOrKeys::Keys(*names),
                    forall|u: int|
                        0 <= u < t ==> names_column(texts(headers@), (#[trigger] names[u])@, out[u]),
                    forall|u: int| 0 <= u < t ==> texts(headers@).contains(#[trigger] texts(names@)[u]),
                decreases names.len() - t,
            {
                match resolve_name(names[t].as_str(), headers) {
                    Ok(i) => {
                        assert(texts(headers@)[i as int] == names@[t as int]@);
                        out.push(i);
                    },
                    Err(e) => {
                        assert(first_missing(street.names(), texts(headers@), t as int));
                        return Err(e);
                    },
                }
                t += 1;
            }
            Ok(ColumnKeyOrKeys::Keys(out))
        },
    }
}

/// A name that `a` lacks first is also what `a + b` lacks first.
proof fn lemma_missing_in_front(a: Seq<Seq<char>>, b: Seq<Seq<char>>, h: Seq<Seq<char>>, t: int)
    requires
        first_missing(a, h, t),
    ensures
        first_missing(a + b, h, t),
        (a + b)[t] == a[t],
{
    assert forall|i: int| 0 <= i < t implies h.contains(#[trigger] (a + b)[i]) by {
        assert((a + b)[i] == a[i]);
    }
}

/// Where `a` lacks nothing, what `b` lacks first is what `a + b` lacks first.
proof fn lemma_missing_behind(a: Seq<Seq<char>>, b: Seq<Seq<char>>, h: Seq<Seq<char>>, t: int)
    requires
        all_present(a, h),
        first_missing(b, h, t),
    ensures
        first_missing(a + b, h, a.len() + t),
        (a + b)[a.len() + t] == b[t],
{
    assert forall|i: int| 0 <= i < a.len() + t implies h.contains(#[trigger] (a + b)[i]) by {
        if i < a.len() {
            assert((a + b)[i] == a[i]);
        } else {
            assert((a + b)[i] == b[i - a.len()]);
        }
    }
}

/// Where neither `a` nor `b` lacks anything, `a + b` lacks nothing.
proof fn lemma_present_joined(a: Seq<Seq<char>>, b: Seq<Seq<char>>, h: Seq<Seq<char>>)
    requires
        all_present(a, h),
        all_present(b, h),
    ensures
        all_present(a + b, h),
{
    assert forall|i: int| 0 <= i < (a + b).len() implies h.contains(#[trigger] (a + b)[i]) by {
        if i < a.len() {
            assert((a + b)[i] == a[i]);
        } else {
            assert((a + b)[i] == b[i - a.len()]);
        }
    }
}

/// Looks up the columns of one address in the header.
fn resolve_keys(keys: &AddressColumnKeys<String>, headers: &Vec<String>) -> (r: Result<
    AddressColumnKeys<usize>,
    Error,
>)
    ensures
        match r {
            Ok(out) => keys.resolved_to(texts(headers@), out) && all_present(
                keys.names(),
                texts(headers@),
            ),
            Err(e) => exists|t: int| #[trigger]
                first_missing(keys.names(), texts(headers@), t) && e.is_column_not_found(
                    keys.names()[t],
                ),
        },
{
    let ghost h = texts(headers@);
    let ghost a = keys.street.names();
    let ghost b = optional_name(keys.city);
    let ghost c = optional_name(keys.state);
    let ghost d = optional_name(keys.zipcode);
    let street = match resolve_street(&keys.street, headers) {
        Ok(s) => s,
        Err(e) => {
            proof {
                let t = choose|t: int| #[trigger]
                    first_missing(a, h, t) && e.is_column_not_found(a[t]);
                lemma_missing_in_front(a, b, h, t);
                lemma_missing_in_front(a + b, c, h, t);
                lemma_missing_in_front(a + b + c, d, h, t);
                assert(keys.names() == a + b + c + d);
                assert(first_missing(keys.names(), h, t) && e.is_column_not_found(keys.names()[t]));
            }
            return Err(e);
        },
    };
    let city = match resolve_optional(&keys.city, headers) {
        Ok(s) => s,
        Err(e) => {
            proof {
                lemma_missing_behind(a, b, h, 0);
                lemma_missing_in_front(a + b, c, h, a.len() as int);
                lemma_missing_in_front(a + b + c, d, h, a.len() as int);
                let t = a.len() as int;
                assert(first_missing(keys.names(), h, t) && e.is_column_not_found(keys.names()[t]));
            }
            return Err(e);
        },
    };
    proof {
        lemma_present_joined(a, b, h);
    }
    let state = match resolve_optional(&keys.state, headers) {
        Ok(s) => s,
        Err(e) => {
            proof {
                lemma_missing_behind(a + b, c, h, 0);
                lemma_missing_in_front(a + b + c, d, h, (a + b).len() as int);
                let t = (a + b).len() as int;
                assert(first_missing(keys.names(), h, t) && e.is_column_not_found(keys.names()[t]));
            }
            return Err(e);
        },
    };
    proof {
        lemma_present_joined(a + b, c, h);
    }
    let zipcode = match resolve_optional(&keys.zipcode, headers) {
        Ok(s) => s,
        Err(e) => {
            proof {
                lemma_missing_behind(a + b + c, d, h, 0);
                let t = (a + b + c).len() as int;
                assert(first_missing(keys.names(), h, t) && e.is_column_not_found(keys.names()[t]));
            }
            return Err(e);
        },
    };
    proof {
        lemma_present_joined(a + b + c, d, h);
    }
    Ok(AddressColumnKeys { street, city, state, zipcode })
}

/// The first header column whose name stood in the header before it.
fn find_duplicate_header(headers: &Vec<String>) -> (r: Option<usize>)
    ensures
        match r {
            Some(j) => first_duplicate(texts(headers@), j as int),
            None => texts(headers@).no_duplicates(),
        },
{
    let ghost h = texts(headers@);
    let mut j: usize = 0;
    while j < headers.len()
        invariant
            j <= headers.len(),
            h == texts(headers@),
            h.subrange(0, j as int).no_duplicates(),
        decreases headers.len() - j,
    {
        let mut i: usize = 0;
        while i < j
            invariant
                i <= j,
                j < headers.len(),
                h == texts(headers@),
                h.subrange(0, j as int).no_duplicates(),
                forall|k: int| 0 <= k < i ==> #[trigger] h[k] != h[j as int],
            decreases j - i,
        {
            if same_text(headers[i].as_str(), headers[j].as_str()) {
                assert(h.subrange(0, j as int)[i as int] == h[j as int]);
                assert(h.subrange(0, j as int).contains(h[j as int]));
                return Some(j);
            }
            i += 1;
        }
        assert(h.subrange(0, j + 1).no_duplicates()) by {
            let wider = h.subrange(0, j + 1);
            assert forall|x: int, y: int|
                0 <= x < wider.len() && 0 <= y < wider.len() && x != y implies #[trigger] wider[x]
                != #[trigger] wider[y] by {
                if x < j && y < j {
                    assert(h.subrange(0, j as int)[x] == h[x]);
                    assert(h.subrange(0, j as int)[y] == h[y]);
                }
            }
        }
        j += 1;
    }
    assert(h.subrange(0, h.len() as int) =~= h);
    None
}

/// The names of all output columns: for each prefix in turn, the columns of
/// every selected field.
pub open spec fn output_names(prefixes: Seq<Seq<char>>, paths: Seq<Path>) -> Seq<Seq<char>>
    decreases prefixes.len(),
{
    if prefixes.len() == 0 {
        Seq::empty()
    } else {
        output_names(prefixes.drop_last(), paths) + paths.map_values(
            |p: Path| column_name(prefixes.last(), p),
        )
    }
}

/// The positions in `headers`, in ascending order, of the columns whose name
/// is one of `names`.
pub open spec fn conflicting_columns(headers: Seq<Seq<char>>, names: Seq<Seq<char>>) -> Seq<int>
    decreases headers.len(),
{
    if headers.len() == 0 {
        Seq::empty()
    } else {
        let before = conflicting_columns(headers.drop_last(), names);
        if names.contains(headers.last()) {
            before.push(headers.len() - 1)
        } else {
            before
        }
    }
}

impl<Key> AddressColumnSpec<Key> {
    /// The names of all columns that geocoding adds for this specification.
    pub fn output_column_names(&self, structure: &Structure) -> (names: Vec<String>)
        ensures
            texts(names@) == output_names(self.prefix_views(), structure.paths()),
    {
        let mut names: Vec<String> = Vec::new();
        let mut g: usize = 0;
        assert(self.prefix_views().subrange(0, 0) =~= Seq::<Seq<char>>::empty());
        assert(texts(names@) =~= Seq::<Seq<char>>::empty());
        while g < self.entries.len()
            invariant
                g <= self.entries.len(),
                texts(names@) == output_names(
                    self.prefix_views().subrange(0, g as int),
                    structure.paths(),
                ),
            decreases self.entries.len() - g,
        {
            let ghost upto = self.prefix_views().subrange(0, g + 1);
            assert(upto.drop_last() =~= self.prefix_views().subrange(0, g as int));
            assert(upto.last() == self.entries@[g as int].0@);
            let _ = structure.add_header_columns(self.entries[g].0.as_str(), &mut names);
            g += 1;
        }
        assert(self.prefix_views().subrange(0, self.entries.len() as int) =~= self.prefix_views());
        names
    }

    /// The input columns, by name and position, that carry the name of a
    /// column that geocoding would add.
    pub fn duplicate_columns(&self, structure: &Structure, headers: &Vec<String>) -> (r: Result<
        Vec<(String, usize)>,
        Error,
    >)
        ensures
            r matches Ok(found) && ({
                let conflicts = conflicting_columns(
                    texts(headers@),
                    output_names(self.prefix_views(), structure.paths()),
                );
                &&& found.len() == conflicts.len()
                &&& forall|t: int|
                    0 <= t < found.len() ==> (#[trigger] found[t]).1 == conflicts[t] && found[t].0@
                        == texts(headers@)[conflicts[t]]
            }),
    {
        let names = self.output_column_names(structure);
        let ghost h = texts(headers@);
        let mut found: Vec<(String, usize)> = Vec::new();
        let mut i: usize = 0;
        assert(h.subrange(0, 0) =~= Seq::<Seq<char>>::empty());
        while i < headers.len()
            invariant
                i <= headers.len(),
                h == texts(headers@),
                found.len() == conflicting_columns(h.subrange(0, i as int), texts(names@)).len(),
                forall|t: int|
                    0 <= t < found.len() ==> (#[trigger] found[t]).1 == conflicting_columns(
                        h.subrange(0, i as int),
                        texts(names@),
                    )[t] && found[t].0@ == h[found[t].1 as int] && found[t].1 < i,
            decreases headers.len() - i,
        {
            let ghost upto = h.subrange(0, i + 1);
            assert(upto.drop_last() =~= h.subrange(0, i as int));
            assert(upto.last() == headers@[i as int]@);
            if contains_text(&names, headers[i].as_str()) {
                found.push((headers[i].clone(), i));
            }
            i += 1;
        }
        assert(h.subrange(0, headers.len() as int) =~= h);
        Ok(found)
    }
}

impl AddressColumnSpec<usize> {
    /// Every column index lies within a row of `width` fields.
    pub open spec fn in_range(self, width: nat) -> bool {
        forall|g: int| 0 <= g < self.keys_seq().len() ==> (#[trigger] self.keys_seq()[g]).in_range(width)
    }
}

/// Resolved column indices lie within the header.
proof fn lemma_resolved_in_range(
    keys: AddressColumnKeys<String>,
    headers: Seq<Seq<char>>,
    out: AddressColumnKeys<usize>,
)
    requires
        keys.resolved_to(headers, out),
    ensures
        out.in_range(headers.len()),
{
    match (keys.street, out.street) {
        (ColumnKeyOrKeys::Keys(ns), ColumnKeyOrKeys::Keys(is)) => {
            assert forall|i: int| 0 <= i < is.len() implies #[trigger] is[i] < headers.len() by {
                assert(names_column(headers, ns[i]@, is[i]));
            }
        },
        _ => {},
    }
}

/// The header `h` lets every one of `keys` be looked up: it holds no name
/// twice, and it holds every name that `keys` use.
pub open spec fn convertible(keys: Seq<AddressColumnKeys<String>>, h: Seq<Seq<char>>) -> bool {
    h.no_duplicates() && all_present(names_of_all(keys), h)
}

/// `out` holds, for each name in `keys`, the index at which it stands in `h`.
pub open spec fn converted(
    keys: Seq<AddressColumnKeys<String>>,
    h: Seq<Seq<char>>,
    out: Seq<AddressColumnKeys<usize>>,
) -> bool {
    &&& out.len() == keys.len()
    &&& forall|g: int| 0 <= g < keys.len() ==> (#[trigger] keys[g]).resolved_to(h, out[g])
}

/// `e` is the error that looking `keys` up in `h` gives: the first name
/// that `h` holds twice or, if there is none, the first name of `keys` that
/// `h` lacks.
pub open spec fn conversion_error(
    keys: Seq<AddressColumnKeys<String>>,
    h: Seq<Seq<char>>,
    e: Error,
) -> bool {
    if h.no_duplicates() {
        exists|t: int| #[trigger]
            first_missing(names_of_all(keys), h, t) && e.is_column_not_found(names_of_all(keys)[t])
    } else {
        exists|j: int| #[trigger] first_duplicate(h, j) && e.is_duplicate_header(h[j])
    }
}

impl AddressColumnSpec<String> {
    /// Given a specification by column names and the header row of a table,
    /// makes the specification by column indices.  A header that holds a
    /// name twice is refused, and so is a specification that names a column
    /// that the header lacks.
    pub fn convert_to_indices_using_headers(&self, headers: &Vec<String>) -> (r: Result<
        AddressColumnSpec<usize>,
        Error,
    >)
        ensures
            r is Ok <==> convertible(self.keys_seq(), texts(headers@)),
            match r {
                Ok(out) => {
                    &&& out.wf()
                    &&& out.prefix_views() == self.prefix_views()
                    &&& converted(self.keys_seq(), texts(headers@), out.keys_seq())
                    &&& out.in_range(headers.len() as nat)
                },
                Err(e) => conversion_error(self.keys_seq(), texts(headers@), e),
            },
    {
        proof {
            use_type_invariant(self);
        }
        let ghost h = texts(headers@);
        match find_duplicate_header(headers) {
            Some(j) => {
                assert(!h.no_duplicates()) by {
                    let i = choose|i: int|
                        0 <= i < h.subrange(0, j as int).len() && h.subrange(0, j as int)[i] == h[j as int];
                    assert(h[i] == h[j as int]);
                }
                return Err(Error::DuplicateHeaderColumn(headers[j].clone()));
            },
            None => {},
        }
        let mut entries: Vec<(String, AddressColumnKeys<usize>)> = Vec::new();
        let mut g: usize = 0;
        assert(self.keys_seq().subrange(0, 0) =~= Seq::<AddressColumnKeys<String>>::empty());
        while g < self.entries.len()
            invariant
                g <= self.entries.len(),
                h == texts(headers@),
                h.no_duplicates(),
                entries.len() == g,
                forall|k: int| 0 <= k < g ==> (#[trigger] entries[k]).0@ == self.entries[k].0@,
                forall|k: int|
                    0 <= k < g ==> (#[trigger] self.entries[k]).1.resolved_to(h, entries[k].1),
                all_present(names_of_all(self.keys_seq().subrange(0, g as int)), h),
            decreases self.entries.len() - g,
        {
            let ghost upto = self.keys_seq().subrange(0, g + 1);
            let ghost front = names_of_all(self.keys_seq().subrange(0, g as int));
            assert(upto.drop_last() =~= self.keys_seq().subrange(0, g as int));
            assert(upto.last() == self.entries@[g as int].1);
            match resolve_keys(&self.entries[g].1, headers) {
                Ok(keys) => {
                    entries.push((self.entries[g].0.clone(), keys));
                    proof {
                        lemma_present_joined(front, self.entries@[g as int].1.names(), h);
                    }
                },
                Err(e) => {
                    proof {
                        let names = self.entries@[g as int].1.names();
                        let t = choose|t: int| #[trigger]
                            first_missing(names, h, t) && e.is_column_not_found(names[t]);
                        lemma_missing_behind(front, names, h, t);
                        lemma_missing_stays(self.keys_seq(), g + 1, h, front.len() + t);
                    }
                    return Err(e);
                },
            }
            g += 1;
        }
        assert(self.keys_seq().subrange(0, self.entries.len() as int) =~= self.keys_seq());
        let ghost shown = entries@.map_values(|e: (String, AddressColumnKeys<usize>)| e.0@);
        assert(shown =~= self.prefix_views());
        let out = AddressColumnSpec { entries };
        assert forall|k: int| 0 <= k < out.keys_seq().len() implies (#[trigger] out.keys_seq()[k]).in_range(
            h.len(),
        ) by {
            lemma_resolved_in_range(self.entries@[k].1, h, out.keys_seq()[k]);
        }
        assert forall|k: int| 0 <= k < self.keys_seq().len() implies (#[trigger] self.keys_seq()[k]).resolved_to(
            h,
            out.keys_seq()[k],
        ) by {
            assert(self.keys_seq()[k] == self.entries@[k].1);
        }
        Ok(out)
    }
}

/// What the first `n` addresses lack first, all of them lack first.
proof fn lemma_missing_stays(
    keys: Seq<AddressColumnKeys<String>>,
    n: int,
    h: Seq<Seq<char>>,
    t: int,
)
    requires
        0 <= n <= keys.len(),
        first_missing(names_of_all(keys.subrange(0, n)), h, t),
    ensures
        first_missing(names_of_all(keys), h, t),
        names_of_all(keys)[t] == names_of_all(keys.subrange(0, n))[t],
    decreases keys.len() - n,
{
    if n < keys.len() {
        let next = keys.subrange(0, n + 1);
        assert(next.drop_last() =~= keys.subrange(0, n));
        lemma_missing_in_front(names_of_all(keys.subrange(0, n)), next.last().names(), h, t);
        lemma_missing_stays(keys, n + 1, h, t);
    } else {
        assert(keys.subrange(0, n) =~= keys);
    }
}

/// The output columns are laid out group by group: the column of group `g`
/// and field `p` stands at `g * paths.len() + p`.
pub proof fn lemma_output_layout(prefixes: Seq<Seq<char>>, paths: Seq<Path>, g: int, p: int)
    requires
        0 <= g < prefixes.len(),
        0 <= p < paths.len(),
    ensures
        output_names(prefixes, paths).len() == prefixes.len() * paths.len(),
        0 <= g * paths.len() + p < prefixes.len() * paths.len(),
        output_names(prefixes, paths)[g * paths.len() + p] == column_name(prefixes[g], paths[p]),
    decreases prefixes.len(),
{
    let groups = prefixes.len() as int;
    let n = paths.len() as int;
    let front = prefixes.drop_last();
    assert(groups * n == (groups - 1) * n + n) by (nonlinear_arith);
    assert(g * n + p < groups * n) by (nonlinear_arith)
        requires
            0 <= g < groups,
            0 <= p < n,
    ;
    assert(0 <= g * n) by (nonlinear_arith)
        requires
            0 <= g,
            0 <= n,
    ;
    if groups - 1 > 0 {
        lemma_output_layout(front, paths, 0, p);
    } else {
        assert((groups - 1) * n == 0) by (nonlinear_arith)
            requires
                groups - 1 == 0,
        ;
    }
    assert(output_names(front, paths).len() == (groups - 1) * n);
    if g < groups - 1 {
        lemma_output_layout(front, paths, g, p);
        assert(front[g] == prefixes[g]);
    } else {
        assert(g * n == (groups - 1) * n);
    }
}

/// The groups of output columns stand in ascending order of their prefix:
/// of two address groups, the one with the smaller prefix has all its
/// columns before those of the other, in whatever order the groups were
/// declared.
pub proof fn lemma_output_groups_ascend<Key>(
    spec: AddressColumnSpec<Key>,
    paths: Seq<Path>,
    g1: int,
    f1: int,
    g2: int,
    f2: int,
)
    requires
        spec.wf(),
        0 <= g1 < g2 < spec.prefix_views().len(),
        0 <= f1 < paths.len(),
        0 <= f2 < paths.len(),
    ensures
        text_lt(spec.prefix_views()[g1], spec.prefix_views()[g2]),
        0 <= g1 * paths.len() + f1 < g2 * paths.len() + f2 < output_names(
            spec.prefix_views(),
            paths,
        ).len(),
        output_names(spec.prefix_views(), paths)[g1 * paths.len() + f1] == column_name(
            spec.prefix_views()[g1],
            paths[f1],
        ),
        output_names(spec.prefix_views(), paths)[g2 * paths.len() + f2] == column_name(
            spec.prefix_views()[g2],
            paths[f2],
        ),
{
    spec.lemma_wf();
    lemma_output_layout(spec.prefix_views(), paths, g1, f1);
    lemma_output_layout(spec.prefix_views(), paths, g2, f2);
    let n = paths.len() as int;
    assert(g1 * n + f1 < g2 * n + f2) by (nonlinear_arith)
        requires
            0 <= g1 < g2,
            0 <= f1 < n,
            0 <= f2 < n,
    ;
}

} // verus!