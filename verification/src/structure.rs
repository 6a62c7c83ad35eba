//! Which fields of a geocoding response become columns, and how.

use vstd::prelude::*;
use vstd::string::*;

use crate::errors::Error;
use crate::text::{copy_texts, texts};

verus! {

/// A JSON value, as far as the library reads one.  A number is kept as the
/// text that stands for it.
#[derive(Debug, PartialEq, Eq)]
pub enum Json {
    Null,
    Bool(bool),
    Number(String),
    Text(String),
    Array(Vec<Json>),
    Object(Vec<(String, Json)>),
}

/// The value of the first entry under `key`, if there is one.
pub open spec fn first_with_key(entries: Seq<(String, Json)>, key: Seq<char>) -> Option<Json>
    decreases entries.len(),
{
    if entries.len() == 0 {
        None
    } else if entries[0].0@ == key {
        Some(entries[0].1)
    } else {
        first_with_key(entries.drop_first(), key)
    }
}

/// The path of one field: the keys to follow from the top of a response.
pub type Path = Seq<Seq<char>>;

/// The value found by following `path` into `data`; `None` where a key is
/// missing on the way.
pub open spec fn follow(data: Json, path: Path) -> Option<Json>
    decreases path.len(),
{
    if path.len() == 0 {
        Some(data)
    } else {
        match data.member(path[0]) {
            None => None,
            Some(inner) => follow(inner, path.drop_first()),
        }
    }
}

/// The text of a plain value in a column; `None` for a list or an object.
pub open spec fn rendered(value: Json) -> Option<Seq<char>> {
    match value {
        Json::Null => Some(Seq::empty()),
        Json::Bool(b) => Some(if b { seq!['T'] } else { seq!['F'] }),
        Json::Number(n) => Some(n@),
        Json::Text(s) => Some(s@),
        Json::Array(_) => None,
        Json::Object(_) => None,
    }
}

/// The column that `path` gives for `data`: empty where the field is missing,
/// `None` where it holds a list or an object.
pub open spec fn column_value(data: Json, path: Path) -> Option<Seq<char>> {
    match follow(data, path) {
        None => Some(Seq::empty()),
        Some(value) => rendered(value),
    }
}

/// The fields that one nested group selects, or the path of its first entry
/// that is neither `true` nor `false`.
pub open spec fn selected_in_group(key: Seq<char>, entries: Seq<(String, Json)>) -> Result<
    Seq<Path>,
    Path,
>
    decreases entries.len(),
{
    if entries.len() == 0 {
        Ok(Seq::empty())
    } else {
        match selected_in_group(key, entries.drop_last()) {
            Err(path) => Err(path),
            Ok(paths) => match entries.last().1 {
                Json::Bool(wanted) => if wanted {
                    Ok(paths.push(seq![key, entries.last().0@]))
                } else {
                    Ok(paths)
                },
                _ => Err(seq![key, entries.last().0@]),
            },
        }
    }
}

/// The fields that a selection picks, in the order in which it lists them,
/// or the path of its first entry that is not understood.
pub open spec fn selected_paths(entries: Seq<(String, Json)>) -> Result<Seq<Path>, Path>
    decreases entries.len(),
{
    if entries.len() == 0 {
        Ok(Seq::empty())
    } else {
        match selected_paths(entries.drop_last()) {
            Err(path) => Err(path),
            Ok(paths) => match entries.last().1 {
                Json::Bool(wanted) => if wanted {
                    Ok(paths.push(seq![entries.last().0@]))
                } else {
                    Ok(paths)
                },
                Json::Object(inner) => match selected_in_group(entries.last().0@, inner@) {
                    Err(path) => Err(path),
                    Ok(more) => Ok(paths + more),
                },
                _ => Err(seq![entries.last().0@]),
            },
        }
    }
}

/// Every path lies at the top of a response or one level down.
pub open spec fn depth_bounded(paths: Seq<Vec<String>>) -> bool {
    forall|i: int| 0 <= i < paths.len() ==> 1 <= #[trigger] paths[i].len() <= 2
}

/// The views of a vector of paths.
pub open spec fn path_views(paths: Seq<Vec<String>>) -> Seq<Path> {
    paths.map_values(|p: Vec<String>| texts(p@))
}

/// The name of the column that `path` gives under `prefix`.
pub open spec fn column_name(prefix: Seq<char>, path: Path) -> Seq<char> {
    prefix + seq!['_'] + path.last()
}

impl Json {
    /// What an object holds under `key`; `None` for a missing key and for
    /// anything that is not an object.
    pub open spec fn member(self, key: Seq<char>) -> Option<Json> {
        match self {
            Json::Object(entries) => first_with_key(entries@, key),
            _ => None,
        }
    }

    /// Looks up `key` in an object.
    pub fn get(&self, key: &str) -> (r: Option<&Json>)
        ensures
            match r {
                Some(value) => self.member(key@) == Some(*value),
                None => self.member(key@) is None,
            },
    {
        match self {
            Json::Object(entries) => {
                let mut i: usize = 0;
                assert(entries@.subrange(0, entries.len() as int) =~= entries@);
                while i < entries.len()
                    invariant
                        i <= entries.len(),
                        self.member(key@) == first_with_key(entries@, key@),
                        first_with_key(entries@, key@) == first_with_key(
                            entries@.subrange(i as int, entries.len() as int),
                            key@,
                        ),
                    decreases entries.len() - i,
                {
                    let ghost rest = entries@.subrange(i as int, entries.len() as int);
                    assert(rest[0] == entries@[i as int]);
                    assert(rest.drop_first() =~= entries@.subrange(i + 1, entries.len() as int));
                    if crate::text::same_text(entries[i].0.as_str(), key) {
                        return Some(&entries[i].1);
                    }
                    i += 1;
                }
                None
            },
            _ => None,
        }
    }
}

/// The fields at the top of a response that the complete selection holds.
pub open spec fn top_paths() -> Seq<Path> {
    seq![
        seq!["addressee"@],
        seq!["delivery_line_1"@],
        seq!["delivery_line_2"@],
        seq!["last_line"@],
        seq!["delivery_point_barcode"@],
    ]
}

/// Appends the paths of `top_paths`.
fn push_top(paths: &mut Vec<Vec<String>>)
    requires
        depth_bounded(old(paths)@),
    ensures
        path_views(final(paths)@) == path_views(old(paths)@) + top_paths(),
        depth_bounded(final(paths)@),
{
    let ghost before = path_views(paths@);
    push_path(paths, None, "addressee");
    push_path(paths, None, "delivery_line_1");
    push_path(paths, None, "delivery_line_2");
    push_path(paths, None, "last_line");
    push_path(paths, None, "delivery_point_barcode");
    assert(path_views(paths@) =~= before + top_paths());
}

/// The parts of the address that the complete selection holds.
pub open spec fn components_paths() -> Seq<Path> {
    seq![
        seq!["components"@, "urbanization"@],
        seq!["components"@, "primary_number"@],
        seq!["components"@, "street_name"@],
        seq!["components"@, "street_predirection"@],
        seq!["components"@, "street_postdirection"@],
        seq!["components"@, "street_suffix"@],
        seq!["components"@, "secondary_number"@],
        seq!["components"@, "secondary_designator"@],
        seq!["components"@, "extra_secondary_number"@],
        seq!["components"@, "extra_secondary_designator"@],
        seq!["components"@, "pmb_designator"@],
        seq!["components"@, "pmb_number"@],
        seq!["components"@, "city_name"@],
        seq!["components"@, "default_city_name"@],
        seq!["components"@, "state_abbreviation"@],
        seq!["components"@, "zipcode"@],
        seq!["components"@, "plus4_code"@],
        seq!["components"@, "delivery_point"@],
        seq!["components"@, "delivery_point_check_digit"@],
    ]
}

/// Appends the paths of `components_paths`.
fn push_components(paths: &mut Vec<Vec<String>>)
    requires
        depth_bounded(old(paths)@),
    ensures
        path_views(final(paths)@) == path_views(old(paths)@) + components_paths(),
        depth_bounded(final(paths)@),
{
    let ghost before = path_views(paths@);
    push_path(paths, Some("components"), "urbanization");
    push_path(paths, Some("components"), "primary_number");
    push_path(paths, Some("components"), "street_name");
    push_path(paths, Some("components"), "street_predirection");
    push_path(paths, Some("components"), "street_postdirection");
    push_path(paths, Some("components"), "street_suffix");
    push_path(paths, Some("components"), "secondary_number");
    push_path(paths, Some("components"), "secondary_designator");
    push_path(paths, Some("components"), "extra_secondary_number");
    push_path(paths, Some("components"), "extra_secondary_designator");
    push_path(paths, Some("components"), "pmb_designator");
    push_path(paths, Some("components"), "pmb_number");
    push_path(paths, Some("components"), "city_name");
    push_path(paths, Some("components"), "default_city_name");
    push_path(paths, Some("components"), "state_abbreviation");
    push_path(paths, Some("components"), "zipcode");
    push_path(paths, Some("components"), "plus4_code");
    push_path(paths, Some("components"), "delivery_point");
    push_path(paths, Some("components"), "delivery_point_check_digit");
    assert(path_views(paths@) =~= before + components_paths());
}

/// The facts about the place that the complete selection holds.
pub open spec fn metadata_paths() -> Seq<Path> {
    seq![
        seq!["metadata"@, "record_type"@],
        seq!["metadata"@, "zip_type"@],
        seq!["metadata"@, "county_fips"@],
        seq!["metadata"@, "county_name"@],
        seq!["metadata"@, "carrier_route"@],
        seq!["metadata"@, "congressional_district"@],
        seq!["metadata"@, "building_default_indicator"@],
        seq!["metadata"@, "rdi"@],
        seq!["metadata"@, "elot_sequence"@],
        seq!["metadata"@, "elot_sort"@],
        seq!["metadata"@, "latitude"@],
        seq!["metadata"@, "longitude"@],
        seq!["metadata"@, "precision"@],
        seq!["metadata"@, "time_zone"@],
        seq!["metadata"@, "utc_offset"@],
        seq!["metadata"@, "dst"@],
    ]
}

/// Appends the paths of `metadata_paths`.
fn push_metadata(paths: &mut Vec<Vec<String>>)
    requires
        depth_bounded(old(paths)@),
    ensures
        path_views(final(paths)@) == path_views(old(paths)@) + metadata_paths(),
        depth_bounded(final(paths)@),
{
    let ghost before = path_views(paths@);
    push_path(paths, Some("metadata"), "record_type");
    push_path(paths, Some("metadata"), "zip_type");
    push_path(paths, Some("metadata"), "county_fips");
    push_path(paths, Some("metadata"), "county_name");
    push_path(paths, Some("metadata"), "carrier_route");
    push_path(paths, Some("metadata"), "congressional_district");
    push_path(paths, Some("metadata"), "building_default_indicator");
    push_path(paths, Some("metadata"), "rdi");
    push_path(paths, Some("metadata"), "elot_sequence");
    push_path(paths, Some("metadata"), "elot_sort");
    push_path(paths, Some("metadata"), "latitude");
    push_path(paths, Some("metadata"), "longitude");
    push_path(paths, Some("metadata"), "precision");
    push_path(paths, Some("metadata"), "time_zone");
    push_path(paths, Some("metadata"), "utc_offset");
    push_path(paths, Some("metadata"), "dst");
    assert(path_views(paths@) =~= before + metadata_paths());
}

/// The findings about the match that the complete selection holds.
pub open spec fn analysis_paths() -> Seq<Path> {
    seq![
        seq!["analysis"@, "dpv_match_code"@],
        seq!["analysis"@, "dpv_footnotes"@],
        seq!["analysis"@, "dpv_cmra"@],
        seq!["analysis"@, "dpv_vacant"@],
        seq!["analysis"@, "active"@],
        seq!["analysis"@, "ews_match"@],
        seq!["analysis"@, "footnotes"@],
        seq!["analysis"@, "lacslink_code"@],
        seq!["analysis"@, "lacslink_indicator"@],
        seq!["analysis"@, "suitelink_match"@],
    ]
}

/// Appends the paths of `analysis_paths`.
fn push_analysis(paths: &mut Vec<Vec<String>>)
    requires
        depth_bounded(old(paths)@),
    ensures
        path_views(final(paths)@) == path_views(old(paths)@) + analysis_paths(),
        depth_bounded(final(paths)@),
{
    let ghost before = path_views(paths@);
    push_path(paths, Some("analysis"), "dpv_match_code");
    push_path(paths, Some("analysis"), "dpv_footnotes");
    push_path(paths, Some("analysis"), "dpv_cmra");
    push_path(paths, Some("analysis"), "dpv_vacant");
    push_path(paths, Some("analysis"), "active");
    push_path(paths, Some("analysis"), "ews_match");
    push_path(paths, Some("analysis"), "footnotes");
    push_path(paths, Some("analysis"), "lacslink_code");
    push_path(paths, Some("analysis"), "lacslink_indicator");
    push_path(paths, Some("analysis"), "suitelink_match");
    assert(path_views(paths@) =~= before + analysis_paths());
}

/// Every field that a response is normally read for, in the order of the
/// columns: the lines of the address, its parts, the facts about the place,
/// and the findings about the match.
pub open spec fn complete_paths() -> Seq<Path> {
    top_paths() + components_paths() + metadata_paths() + analysis_paths()
}

/// The values of the columns that `paths` give for `data`, with an empty
/// text where a field cannot be written as a column.
pub open spec fn value_columns(paths: Seq<Path>, data: Json) -> Seq<Seq<char>> {
    Seq::new(
        paths.len(),
        |i: int|
            match column_value(data, paths[i]) {
                Some(text) => text,
                None => Seq::empty(),
            },
    )
}

/// As many empty columns as there are `paths`.
pub open spec fn empty_columns(paths: Seq<Path>) -> Seq<Seq<char>> {
    Seq::new(paths.len(), |i: int| Seq::<char>::empty())
}

/// `k` is the first of `paths` at which `data` holds a list or an object.
pub open spec fn first_unexpected(paths: Seq<Path>, data: Json, k: int) -> bool {
    &&& 0 <= k < paths.len()
    &&& column_value(data, paths[k]) is None
    &&& forall|i: int| 0 <= i < k ==> column_value(data, #[trigger] paths[i]) is Some
}

/// Every one of `paths` gives a column for `data`.
pub open spec fn all_plain(paths: Seq<Path>, data: Json) -> bool {
    forall|i: int| 0 <= i < paths.len() ==> column_value(data, #[trigger] paths[i]) is Some
}

/// A row gains the same number of columns whether a response was found for
/// it or not: as many as there are selected fields.
pub proof fn lemma_column_count_is_match_independent(paths: Seq<Path>, data: Json)
    ensures
        value_columns(paths, data).len() == empty_columns(paths).len(),
        empty_columns(paths).len() == paths.len(),
{
}

/// An ordered selection of response fields.  Each field becomes one column.
#[derive(Debug)]
pub struct Structure {
    /// Number of columns added.
    column_count: usize,
    /// The selected fields, each as the keys that lead to it.
    paths: Vec<Vec<String>>,
}

/// Appends the path made of `group`, if any, and `name`.
fn push_path(paths: &mut Vec<Vec<String>>, group: Option<&str>, name: &str)
    ensures
        path_views(final(paths)@) == path_views(old(paths)@).push(
            match group {
                Some(g) => seq![g@, name@],
                None => seq![name@],
            },
        ),
        final(paths).len() == old(paths).len() + 1,
        final(paths)@.last().len() == (if group is Some { 2int } else { 1int }),
        forall|i: int| 0 <= i < old(paths).len() ==> final(paths)@[i] == old(paths)@[i],
        depth_bounded(old(paths)@) ==> depth_bounded(final(paths)@),
{
    let mut path: Vec<String> = Vec::new();
    match group {
        Some(g) => {
            path.push(g.to_owned());
        },
        None => {},
    }
    path.push(name.to_owned());
    let ghost expected: Path = match group {
        Some(g) => seq![g@, name@],
        None => seq![name@],
    };
    assert(texts(path@) =~= expected);
    let ghost before = paths@;
    paths.push(path);
    assert(path_views(paths@) =~= path_views(before).push(expected));
}

impl Structure {
    /// The selected fields, in the order of their columns.
    pub closed spec fn paths(self) -> Seq<Path> {
        path_views(self.paths@)
    }

    /// Every selected field lies at the top of a response or one level down,
    /// and the column count is the number of fields.
    #[verifier::type_invariant]
    pub closed spec fn wf(self) -> bool {
        &&& self.column_count == self.paths.len()
        &&& forall|i: int| 0 <= i < self.paths.len() ==> 1 <= #[trigger] self.paths[i].len() <= 2
    }

    /// The names of the columns that this selection adds under `prefix`.
    pub open spec fn column_names(self, prefix: Seq<char>) -> Seq<Seq<char>> {
        self.paths().map_values(|p: Path| column_name(prefix, p))
    }

    /// The number of columns that this selection adds to a row.
    pub fn column_count(&self) -> (n: usize)
        ensures
            n == self.paths().len(),
    {
        proof {
            use_type_invariant(self);
        }
        self.column_count
    }

    /// Reads a selection from a JSON object.  A key with `true` selects the
    /// field of that name, a key with `false` selects nothing, and a key with
    /// an object selects among the fields nested under it in the same way.
    pub fn from_json(fields: &Json) -> (r: Result<Structure, Error>)
        ensures
            match *fields {
                Json::Object(entries) => match selected_paths(entries@) {
                    Ok(paths) => r matches Ok(s) && s.paths() == paths,
                    Err(bad) => r matches Err(Error::InvalidStructure { path }) && texts(path@)
                        == bad,
                },
                _ => r == Err::<Structure, Error>(Error::NotAnObject),
            },
    {
        let entries = match fields {
            Json::Object(entries) => entries,
            _ => {
                return Err(Error::NotAnObject);
            },
        };
        let mut paths: Vec<Vec<String>> = Vec::new();
        let mut i: usize = 0;
        assert(path_views(paths@) =~= Seq::<Path>::empty());
        while i < entries.len()
            invariant
                i <= entries.len(),
                *fields == Json::Object(*entries),
                selected_paths(entries@.subrange(0, i as int)) == Ok::<Seq<Path>, Path>(
                    path_views(paths@),
                ),
                forall|k: int| 0 <= k < paths.len() ==> 1 <= #[trigger] paths[k].len() <= 2,
            decreases entries.len() - i,
        {
            let ghost upto = entries@.subrange(0, i + 1);
            assert(upto.drop_last() =~= entries@.subrange(0, i as int));
            assert(upto.last() == entries@[i as int]);
            let key = entries[i].0.as_str();
            match &entries[i].1 {
                Json::Bool(wanted) => {
                    if *wanted {
                        push_path(&mut paths, None, key);
                    }
                },
                Json::Object(inner) => {
                    match select_group(key, inner, &mut paths) {
                        Ok(()) => {},
                        Err(e) => {
                            proof {
                                lemma_error_stays(entries@, i + 1);
                            }
                            return Err(e);
                        },
                    }
                },
                _ => {
                    let mut path: Vec<String> = Vec::new();
                    path.push(key.to_owned());
                    assert(texts(path@) =~= seq![key@]);
                    proof {
                        lemma_error_stays(entries@, i + 1);
                    }
                    return Err(Error::InvalidStructure { path });
                },
            }
            i += 1;
        }
        assert(entries@.subrange(0, entries.len() as int) =~= entries@);
        let column_count = paths.len();
        Ok(Structure { column_count, paths })
    }

    /// A selection of all the fields that a response is normally read for.
    pub fn complete() -> (r: Result<Structure, Error>)
        ensures
            r matches Ok(s) && s.paths() == complete_paths(),
    {
        let mut paths: Vec<Vec<String>> = Vec::new();
        assert(path_views(paths@) =~= Seq::<Path>::empty());
        push_top(&mut paths);
        push_components(&mut paths);
        push_metadata(&mut paths);
        push_analysis(&mut paths);
        assert(path_views(paths@) =~= complete_paths());
        let column_count = paths.len();
        Ok(Structure { column_count, paths })
    }

    /// Adds the names of the selected columns, each under `prefix`, to a
    /// header row.
    pub fn add_header_columns(&self, prefix: &str, header: &mut Vec<String>) -> (r: Result<
        (),
        Error,
    >)
        ensures
            r is Ok,
            texts(final(header)@) == texts(old(header)@) + self.column_names(prefix@),
    {
        proof {
            use_type_invariant(self);
            reveal_strlit("_");
        }
        let ghost before = texts(header@);
        let ghost names = self.column_names(prefix@);
        let mut i: usize = 0;
        assert(texts(header@) =~= before + names.subrange(0, 0));
        while i < self.paths.len()
            invariant
                i <= self.paths.len(),
                self.wf(),
                names == self.column_names(prefix@),
                "_"@ == seq!['_'],
                texts(header@) == before + names.subrange(0, i as int),
            decreases self.paths.len() - i,
        {
            let path = &self.paths[i];
            let mut name = prefix.to_owned();
            name.append("_");
            name.append(path[path.len() - 1].as_str());
            assert(texts(path@).last() == path@.last()@);
            assert(name@ =~= column_name(prefix@, self.paths()[i as int]));
            let ghost sofar = texts(header@);
            header.push(name);
            assert(texts(header@) =~= sofar.push(name@));
            assert(names.subrange(0, i + 1) =~= names.subrange(0, i as int).push(names[i as int]));
            assert(texts(header@) =~= before + names.subrange(0, i + 1));
            i += 1;
        }
        assert(names.subrange(0, names.len() as int) =~= names);
        Ok(())
    }

    /// Reads the selected fields out of `data` and appends them to `row`, one
    /// column each.  A field that `data` lacks gives an empty column.  At the
    /// first field that holds a list or an object the call stops with an
    /// error; the columns before it have been appended by then.
    pub fn add_value_columns_to_row(&self, data: &Json, row: &mut Vec<String>) -> (r: Result<
        (),
        Error,
    >)
        ensures
            r is Ok <==> all_plain(self.paths(), *data),
            r is Ok ==> texts(final(row)@) == texts(old(row)@) + value_columns(
                self.paths(),
                *data,
            ),
            r is Err ==> exists|k: int|
                {
                    &&& #[trigger] first_unexpected(self.paths(), *data, k)
                    &&& r matches Err(Error::UnexpectedValue { path }) && texts(path@)
                        == self.paths()[k]
                    &&& texts(final(row)@) == texts(old(row)@) + value_columns(
                        self.paths(),
                        *data,
                    ).subrange(0, k)
                },
    {
        proof {
            use_type_invariant(self);
        }
        let ghost before = texts(row@);
        let ghost values = value_columns(self.paths(), *data);
        let mut i: usize = 0;
        assert(texts(row@) =~= before + values.subrange(0, 0));
        while i < self.paths.len()
            invariant
                i <= self.paths.len(),
                self.wf(),
                values == value_columns(self.paths(), *data),
                before == texts(old(row)@),
                texts(row@) == before + values.subrange(0, i as int),
                forall|k: int| 0 <= k < i ==> column_value(*data, #[trigger] self.paths()[k]) is Some,
            decreases self.paths.len() - i,
        {
            let path = &self.paths[i];
            let ghost sofar = texts(row@);
            match column_text(data, path) {
                Some(text) => {
                    row.push(text);
                    assert(texts(row@) =~= sofar.push(text@));
                    assert(values.subrange(0, i + 1) =~= values.subrange(0, i as int).push(
                        values[i as int],
                    ));
                    assert(texts(row@) =~= before + values.subrange(0, i + 1));
                },
                None => {
                    let bad = copy_texts(path);
                    assert(self.paths()[i as int] == texts(path@));
                    assert(first_unexpected(self.paths(), *data, i as int));
                    return Err(Error::UnexpectedValue { path: bad });
                },
            }
            i += 1;
        }
        assert(values.subrange(0, values.len() as int) =~= values);
        Ok(())
    }

    /// Appends one empty column for each selected field.  This is what a row
    /// gets when no response was found for its address.
    pub fn add_empty_columns_to_row(&self, row: &mut Vec<String>) -> (r: Result<(), Error>)
        ensures
            r is Ok,
            texts(final(row)@) == texts(old(row)@) + empty_columns(self.paths()),
    {
        let ghost before = texts(row@);
        let ghost blanks = empty_columns(self.paths());
        let mut i: usize = 0;
        assert(texts(row@) =~= before + blanks.subrange(0, 0));
        while i < self.paths.len()
            invariant
                i <= self.paths.len(),
                blanks == empty_columns(self.paths()),
                texts(row@) == before + blanks.subrange(0, i as int),
            decreases self.paths.len() - i,
        {
            let ghost sofar = texts(row@);
            let blank = String::new();
            row.push(blank);
            assert(texts(row@) =~= sofar.push(blank@));
            assert(texts(row@) =~= before + blanks.subrange(0, i + 1));
            i += 1;
        }
        assert(blanks.subrange(0, blanks.len() as int) =~= blanks);
        Ok(())
    }
}

/// The text of the column that `path` gives for `data`.
fn column_text(data: &Json, path: &Vec<String>) -> (r: Option<String>)
    ensures
        match r {
            Some(text) => column_value(*data, texts(path@)) == Some(text@),
            None => column_value(*data, texts(path@)) is None,
        },
{
    let ghost keys = texts(path@);
    let mut focus = data;
    let mut t: usize = 0;
    assert(keys.subrange(0, keys.len() as int) =~= keys);
    while t < path.len()
        invariant
            t <= path.len(),
            keys == texts(path@),
            follow(*data, keys) == follow(*focus, keys.subrange(t as int, keys.len() as int)),
        decreases path.len() - t,
    {
        let ghost rest = keys.subrange(t as int, keys.len() as int);
        assert(rest[0] == path@[t as int]@);
        assert(rest.drop_first() =~= keys.subrange(t + 1, keys.len() as int));
        match focus.get(path[t].as_str()) {
            Some(inner) => {
                focus = inner;
            },
            None => {
                return Some(String::new());
            },
        }
        t += 1;
    }
    proof {
        reveal_strlit("T");
        reveal_strlit("F");
    }
    match focus {
        Json::Null => Some(String::new()),
        Json::Bool(b) => {
            let text = if *b { "T" } else { "F" };
            let out = text.to_owned();
            assert(out@ =~= (if *b { seq!['T'] } else { seq!['F'] }));
            Some(out)
        },
        Json::Number(n) => Some(n.clone()),
        Json::Text(s) => Some(s.clone()),
        Json::Array(_) => None,
        Json::Object(_) => None,
    }
}

/// Appends the fields that the group under `key` selects.
fn select_group(key: &str, inner: &Vec<(String, Json)>, paths: &mut Vec<Vec<String>>) -> (r:
    Result<(), Error>)
    requires
        forall|k: int| 0 <= k < old(paths).len() ==> 1 <= #[trigger] old(paths)[k].len() <= 2,
    ensures
        match selected_in_group(key@, inner@) {
            Ok(more) => r is Ok && path_views(final(paths)@) == path_views(old(paths)@) + more,
            Err(bad) => r matches Err(Error::InvalidStructure { path }) && texts(path@) == bad,
        },
        forall|k: int| 0 <= k < final(paths).len() ==> 1 <= #[trigger] final(paths)[k].len() <= 2,
{
    let ghost outer = path_views(paths@);
    let mut j: usize = 0;
    assert(path_views(paths@) =~= outer + Seq::<Path>::empty());
    while j < inner.len()
        invariant
            j <= inner.len(),
            selected_in_group(key@, inner@.subrange(0, j as int)) matches Ok(more) && path_views(
                paths@,
            ) == outer + more,
            forall|k: int| 0 <= k < paths.len() ==> 1 <= #[trigger] paths[k].len() <= 2,
        decreases inner.len() - j,
    {
        let ghost part = inner@.subrange(0, j + 1);
        assert(part.drop_last() =~= inner@.subrange(0, j as int));
        assert(part.last() == inner@[j as int]);
        let ghost more = selected_in_group(key@, inner@.subrange(0, j as int))->Ok_0;
        match &inner[j].1 {
            Json::Bool(wanted) => {
                if *wanted {
                    push_path(paths, Some(key), inner[j].0.as_str());
                    assert(path_views(paths@) =~= outer + more.push(
                        seq![key@, inner@[j as int].0@],
                    ));
                }
            },
            _ => {
                let mut path: Vec<String> = Vec::new();
                path.push(key.to_owned());
                path.push(inner[j].0.clone());
                assert(texts(path@) =~= seq![key@, inner@[j as int].0@]);
                proof {
                    lemma_group_error_stays(key@, inner@, j + 1);
                }
                return Err(Error::InvalidStructure { path });
            },
        }
        j += 1;
    }
    assert(inner@.subrange(0, inner.len() as int) =~= inner@);
    Ok(())
}

/// Once a prefix of a group holds an entry that is not understood, so does
/// the whole group, and the first such entry is the same.
proof fn lemma_group_error_stays(key: Seq<char>, entries: Seq<(String, Json)>, n: int)
    requires
        0 <= n <= entries.len(),
        selected_in_group(key, entries.subrange(0, n)) is Err,
    ensures
        selected_in_group(key, entries) == selected_in_group(key, entries.subrange(0, n)),
    decreases entries.len() - n,
{
    if n < entries.len() {
        let next = entries.subrange(0, n + 1);
        assert(next.drop_last() =~= entries.subrange(0, n));
        lemma_group_error_stays(key, entries, n + 1);
    } else {
        assert(entries.subrange(0, n) =~= entries);
    }
}

/// Once a prefix of a selection holds an entry that is not understood, so
/// does the whole selection, and the first such entry is the same.
proof fn lemma_error_stays(entries: Seq<(String, Json)>, n: int)
    requires
        0 <= n <= entries.len(),
        selected_paths(entries.subrange(0, n)) is Err,
    ensures
        selected_paths(entries) == selected_paths(entries.subrange(0, n)),
    decreases entries.len() - n,
{
    if n < entries.len() {
        let next = entries.subrange(0, n + 1);
        assert(next.drop_last() =~= entries.subrange(0, n));
        lemma_error_stays(entries, n + 1);
    } else {
        assert(entries.subrange(0, n) =~= entries);
    }
}

} // verus!
