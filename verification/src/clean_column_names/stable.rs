//! Column names that always become the same identifier.

use vstd::prelude::*;
use vstd::string::*;

use crate::clean_column_names::{is_head_char, is_safe_name, is_tail_char, push_char, ColumnNameCleaner};
use crate::errors::Error;
use crate::text::same_text;

verus! {

/// What a character of a column name becomes: an upper case letter its
/// lower case letter, a space an underscore, anything else itself.
pub open spec fn normalized_char(c: char) -> char {
    if 'A' <= c <= 'Z' {
        ((c as u8) + 32) as char
    } else if c == ' ' {
        '_'
    } else {
        c
    }
}

/// What a column name becomes before it is checked.
pub open spec fn normalized(name: Seq<char>) -> Seq<char> {
    name.map_values(|c: char| normalized_char(c))
}

/// Puts a column name into lower case, with underscores for spaces.
pub fn normalize(name: &str) -> (out: String)
    ensures
        out@ == normalized(name@),
{
    let n = name.unicode_len();
    let mut out = String::new();
    let mut i: usize = 0;
    while i < n
        invariant
            i <= n,
            n == name@.len(),
            out@ == normalized(name@).subrange(0, i as int),
        decreases n - i,
    {
        let c = name.get_char(i);
        let lowered = if 'A' <= c && c <= 'Z' {
            ((c as u8) + 32) as char
        } else if c == ' ' {
            '_'
        } else {
            c
        };
        push_char(&mut out, lowered);
        assert(out@ =~= normalized(name@).subrange(0, i + 1));
        i += 1;
    }
    assert(normalized(name@).subrange(0, n as int) =~= normalized(name@));
    out
}

/// Whether a text is a lower case C identifier.
pub fn check_safe_name(s: &str) -> (safe: bool)
    ensures
        safe == is_safe_name(s@),
{
    let n = s.unicode_len();
    if n == 0 {
        return false;
    }
    let first = s.get_char(0);
    if !(first == '_' || ('a' <= first && first <= 'z')) {
        return false;
    }
    let mut i: usize = 1;
    while i < n
        invariant
            1 <= i <= n,
            n == s@.len(),
            is_head_char(s@[0]),
            forall|j: int| 1 <= j < i ==> is_tail_char(#[trigger] s@[j]),
        decreases n - i,
    {
        let c = s.get_char(i);
        if !(c == '_' || ('a' <= c && c <= 'z') || ('0' <= c && c <= '9')) {
            return false;
        }
        i += 1;
    }
    true
}

/// In a sequence without duplicates, the place of a value is the one place
/// where it stands.
proof fn lemma_index_of(s: Seq<Seq<char>>, id: Seq<char>, k: int)
    requires
        s.no_duplicates(),
        0 <= k < s.len(),
        s[k] == id,
    ensures
        s.index_of(id) == k,
{
    let i = s.index_of(id);
    assert(0 <= i < s.len() && s[i] == id);
}

/// A column name cleaner that produces stable column names.
pub struct StableCleaner {
    /// Identifiers that we have already generated, with the column names
    /// we generated them from.
    used: Vec<(String, String)>,
}

/// The identifiers in a list of identifiers and column names.
pub open spec fn ids_of(used: Seq<(String, String)>) -> Seq<Seq<char>> {
    used.map_values(|e: (String, String)| e.0@)
}

/// What one call of a stable cleaner does, from the cleaner `before` to the
/// cleaner `after`.  A name that does not become a lower case C identifier
/// is refused, and nothing changes.  A name that becomes an identifier that
/// is known is refused too, with the name that it was known by; it is
/// remembered in that name's place.  Any other name is given the
/// identifier that it becomes, and is remembered by it.
pub open spec fn stable_outcome(
    before: StableCleaner,
    name: Seq<char>,
    after: StableCleaner,
    r: Result<String, Error>,
) -> bool {
    let id = normalized(name);
    if !is_safe_name(id) {
        &&& r matches Err(Error::InvalidColumnName(n)) && n@ == name
        &&& after.names() == before.names()
    } else if before.names().contains_key(id) {
        &&& r matches Err(Error::ConflictingColumnNames { first, second, identifier }) && first@
            == before.names()[id] && second@ == name && identifier@ == id
        &&& after.names() == before.names().insert(id, name)
    } else {
        &&& r matches Ok(out) && out@ == id
        &&& after.names() == before.names().insert(id, name)
    }
}

impl StableCleaner {
    /// The identifiers that have been handed out or asked for twice, each
    /// with the column name that asked for it last.
    pub closed spec fn names(self) -> Map<Seq<char>, Seq<char>> {
        Map::new(
            |id: Seq<char>| ids_of(self.used@).contains(id),
            |id: Seq<char>| self.used[ids_of(self.used@).index_of(id)].1@,
        )
    }

    /// No identifier stands in the list twice.
    #[verifier::type_invariant]
    pub closed spec fn wf(self) -> bool {
        ids_of(self.used@).no_duplicates()
    }

    /// Where `id` stands in the list, if it does.
    fn find(&self, id: &str) -> (r: Option<usize>)
        ensures
            match r {
                Some(i) => i < self.used.len() && self.used[i as int].0@ == id@,
                None => !ids_of(self.used@).contains(id@),
            },
    {
        let mut i: usize = 0;
        while i < self.used.len()
            invariant
                i <= self.used.len(),
                forall|j: int| 0 <= j < i ==> (#[trigger] self.used[j]).0@ != id@,
            decreases self.used.len() - i,
        {
            if same_text(self.used[i].0.as_str(), id) {
                return Some(i);
            }
            i += 1;
        }
        assert(!ids_of(self.used@).contains(id@)) by {
            if ids_of(self.used@).contains(id@) {
                let j = choose|j: int|
                    0 <= j < ids_of(self.used@).len() && ids_of(self.used@)[j] == id@;
                assert(self.used[j].0@ == id@);
            }
        }
        None
    }

    /// Given a `name`, return the identifier to use as a column name: the
    /// name in lower case, with underscores for spaces.  A name that does
    /// not become a lower case C identifier is refused.  So is a name that
    /// becomes an identifier that another name has become; it is
    /// remembered all the same, in place of the other name.
    pub fn stable_id_for(&mut self, name: &str) -> (r: Result<String, Error>)
        ensures
            final(self).wf(),
            stable_outcome(*old(self), name@, *final(self), r),
    {
        proof {
            use_type_invariant(&*self);
        }
        let normalized = normalize(name);

        // Check to make sure it's a "safe" name.
        if !check_safe_name(normalized.as_str()) {
            return Err(Error::InvalidColumnName(name.to_owned()));
        }
        let ghost before = self.used@;
        let ghost old_names = self.names();

        // Check to make sure we haven't already used this name.
        let found = self.find(normalized.as_str());
        let mut used: Vec<(String, String)> = Vec::new();
        std::mem::swap(&mut self.used, &mut used);
        match found {
            Some(k) => {
                used.push((normalized.clone(), name.to_owned()));
                let previous = used.swap_remove(k);
                assert(ids_of(used@) =~= ids_of(before));
                std::mem::swap(&mut self.used, &mut used);
                proof {
                    lemma_index_of(ids_of(before), normalized@, k as int);
                    assert forall|id: Seq<char>| ids_of(before).contains(id) implies #[trigger] self.names()[id]
                        == old_names.insert(normalized@, name@)[id] by {
                        let j = choose|j: int| 0 <= j < ids_of(before).len() && ids_of(before)[j] == id;
                        lemma_index_of(ids_of(before), id, j);
                        lemma_index_of(ids_of(self.used@), id, j);
                        if j == k {
                            assert(self.used@[j].1@ == name@);
                        } else {
                            assert(self.used@[j] == before[j]);
                            assert(id != normalized@);
                        }
                    }
                    assert(ids_of(before).contains(normalized@)) by {
                        assert(ids_of(before)[k as int] == normalized@);
                    }
                    assert(self.names().dom() =~= old_names.insert(normalized@, name@).dom());
                    assert(self.names() =~= old_names.insert(normalized@, name@));
                }
                Err(
                    Error::ConflictingColumnNames {
                        first: previous.1,
                        second: name.to_owned(),
                        identifier: normalized,
                    },
                )
            },
            None => {
                used.push((normalized.clone(), name.to_owned()));
                assert(ids_of(used@) =~= ids_of(before).push(normalized@));
                assert(ids_of(used@).no_duplicates()) by {
                    let ids = ids_of(used@);
                    assert forall|x: int, y: int|
                        0 <= x < ids.len() && 0 <= y < ids.len() && x != y implies #[trigger] ids[x]
                        != #[trigger] ids[y] by {
                        if x < before.len() && y < before.len() {
                            assert(ids[x] == ids_of(before)[x]);
                            assert(ids[y] == ids_of(before)[y]);
                        } else if x < before.len() {
                            assert(ids_of(before)[x] == ids[x]);
                        } else {
                            assert(ids_of(before)[y] == ids[y]);
                        }
                    }
                }
                std::mem::swap(&mut self.used, &mut used);
                proof {
                    let ids = ids_of(self.used@);
                    assert(ids[before.len() as int] == normalized@);
                    assert forall|id: Seq<char>| ids.contains(id) <==> (ids_of(before).contains(id) || id
                        == normalized@) by {
                        if ids.contains(id) {
                            let j = choose|j: int| 0 <= j < ids.len() && ids[j] == id;
                            if j < before.len() {
                                assert(ids_of(before)[j] == id);
                            }
                        }
                        if ids_of(before).contains(id) {
                            let j = choose|j: int| 0 <= j < ids_of(before).len() && ids_of(before)[j] == id;
                            assert(ids[j] == id);
                        }
                    }
                    assert forall|id: Seq<char>| ids.contains(id) implies #[trigger] self.names()[id]
                        == old_names.insert(normalized@, name@)[id] by {
                        let j = choose|j: int| 0 <= j < ids.len() && ids[j] == id;
                        lemma_index_of(ids, id, j);
                        if j < before.len() {
                            assert(ids_of(before)[j] == id);
                            lemma_index_of(ids_of(before), id, j);
                        }
                    }
                    assert(self.names() =~= old_names.insert(normalized@, name@));
                }
                Ok(normalized)
            },
        }
    }
}

impl Default for StableCleaner {
    fn default() -> (out: Self)
        ensures
            out.names() == Map::<Seq<char>, Seq<char>>::empty(),
            out.used_ids() == Set::<Seq<char>>::empty(),
    {
        let out = StableCleaner { used: Vec::new() };
        assert(out.names() =~= Map::<Seq<char>, Seq<char>>::empty());
        assert(out.used_ids() =~= Set::<Seq<char>>::empty());
        out
    }
}

impl ColumnNameCleaner for StableCleaner {
    open spec fn used_ids(&self) -> Set<Seq<char>> {
        self.names().dom()
    }

    open spec fn accepts(&self, name: Seq<char>) -> bool {
        is_safe_name(normalized(name)) && !self.names().contains_key(normalized(name))
    }

    open spec fn id_for(&self, name: Seq<char>) -> Seq<char> {
        normalized(name)
    }

    /// Gives the name the identifier that it always gets, as
    /// `stable_id_for` does.
    fn unique_id_for(&mut self, name: &str) -> (r: Result<String, Error>)
        ensures
            stable_outcome(*old(self), name@, *final(self), r),
    {
        let ghost before = self.names();
        let r = self.stable_id_for(name);
        proof {
            if r is Err {
                assert(self.names().dom() =~= before.dom());
            } else {
                assert(self.names().dom() =~= before.dom().insert(normalized(name@)));
            }
        }
        r
    }
}

} // verus!
