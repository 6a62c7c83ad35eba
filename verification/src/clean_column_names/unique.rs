//! Column names that become identifiers which differ from each other.

use vstd::prelude::*;
use vstd::string::*;

use crate::clean_column_names::{is_head_char, is_safe_name, is_tail_char, push_char, ColumnNameCleaner};
use crate::errors::Error;
use crate::text::{contains_text, decimal, decimal_text, texts};

verus! {

/// What a character of a column name becomes: an upper case letter its
/// lower case letter; a lower case letter, a digit or an underscore itself;
/// anything else an underscore.
pub open spec fn cleaned_char(c: char) -> char {
    if 'A' <= c <= 'Z' {
        ((c as u8) + 32) as char
    } else if ('a' <= c <= 'z') || ('0' <= c <= '9') {
        c
    } else {
        '_'
    }
}

/// The identifier that a column name asks for: its characters cleaned, with
/// an underscore in front where it would be empty or start with a digit.
pub open spec fn base_id(name: Seq<char>) -> Seq<char> {
    let cleaned = name.map_values(|c: char| cleaned_char(c));
    if cleaned.len() == 0 || ('0' <= cleaned[0] <= '9') {
        seq!['_'] + cleaned
    } else {
        cleaned
    }
}

/// The `n`th identifier to try for a column name: the one it asks for, then
/// that with an underscore and a number from two on.
pub open spec fn candidate(base: Seq<char>, n: nat) -> Seq<char> {
    if n <= 1 {
        base
    } else {
        base + seq!['_'] + decimal_text(n)
    }
}

/// `n` is the first try that gives an identifier that is not in `used`.
pub open spec fn first_free(used: Set<Seq<char>>, base: Seq<char>, n: nat) -> bool {
    &&& 1 <= n < u64::MAX
    &&& !used.contains(candidate(base, n))
    &&& forall|m: nat| 1 <= m < n ==> used.contains(#[trigger] candidate(base, m))
}

/// Every digit is a character of an identifier.
proof fn lemma_decimal_is_tail(n: nat)
    ensures
        decimal_text(n).len() >= 1,
        forall|i: int| 0 <= i < decimal_text(n).len() ==> is_tail_char(#[trigger] decimal_text(n)[i]),
    decreases n,
{
    reveal_strlit("0");
    reveal_strlit("1");
    reveal_strlit("2");
    reveal_strlit("3");
    reveal_strlit("4");
    reveal_strlit("5");
    reveal_strlit("6");
    reveal_strlit("7");
    reveal_strlit("8");
    reveal_strlit("9");
    if n >= 10 {
        lemma_decimal_is_tail(n / 10);
    }
}

/// An identifier with an underscore and a number behind it is an
/// identifier.
proof fn lemma_candidate_is_safe(base: Seq<char>, n: nat)
    requires
        is_safe_name(base),
    ensures
        is_safe_name(candidate(base, n)),
{
    if n > 1 {
        lemma_decimal_is_tail(n);
        let c = candidate(base, n);
        assert forall|i: int| 1 <= i < c.len() implies is_tail_char(#[trigger] c[i]) by {
            if i < base.len() {
                assert(c[i] == base[i]);
            } else if i == base.len() {
                assert(c[i] == '_');
            } else {
                assert(c[i] == decimal_text(n)[i - base.len() - 1]);
            }
        }
        assert(c[0] == base[0]);
    }
}

/// The number of the first try that gives an identifier that is not in
/// `used`, where there is one.
pub open spec fn least_free(used: Set<Seq<char>>, base: Seq<char>) -> nat {
    choose|n: nat| first_free(used, base, n)
}

/// There is one first free try at most.
pub proof fn lemma_first_free_is_one(used: Set<Seq<char>>, base: Seq<char>, n: nat, m: nat)
    requires
        first_free(used, base, n),
        first_free(used, base, m),
    ensures
        n == m,
{
    if n < m {
        assert(used.contains(candidate(base, n)));
    } else if m < n {
        assert(used.contains(candidate(base, m)));
    }
}

/// What one call of a uniquifier does, from the cleaner `before` to the
/// cleaner `after`.  The name is given the first identifier that is free,
/// of the one that it asks for and those with an underscore and a number
/// from two on behind it, and that identifier is taken from then on.  Where
/// none of them is free, the name is refused and nothing changes.
pub open spec fn fresh_outcome(
    before: Uniquifier,
    name: Seq<char>,
    after: Uniquifier,
    r: Result<String, Error>,
) -> bool {
    match r {
        Ok(id) => exists|n: nat| #[trigger]
            first_free(before.ids(), base_id(name), n) && id@ == candidate(base_id(name), n)
                && after.ids() == before.ids().insert(id@),
        Err(e) => (forall|n: nat|
            1 <= n < u64::MAX ==> before.ids().contains(#[trigger] candidate(base_id(name), n)))
            && (e matches Error::InvalidColumnName(t) && t@ == name) && after.ids() == before.ids(),
    }
}

/// A column name cleaner that makes every identifier differ from those
/// before it.
pub struct Uniquifier {
    /// Identifiers that we have already generated.
    used: Vec<String>,
}

impl Uniquifier {
    /// The identifiers that have been handed out.
    pub closed spec fn ids(self) -> Set<Seq<char>> {
        texts(self.used@).to_set()
    }

    /// Makes the identifier that a column name asks for.
    fn base_for(name: &str) -> (out: String)
        ensures
            out@ == base_id(name@),
            is_safe_name(out@),
    {
        let n = name.unicode_len();
        let ghost cleaned = name@.map_values(|c: char| cleaned_char(c));
        let mut out = String::new();
        if n == 0 {
            push_char(&mut out, '_');
            assert(out@ =~= base_id(name@));
            return out;
        }
        let first = name.get_char(0);
        if '0' <= first && first <= '9' {
            push_char(&mut out, '_');
        }
        let ghost front = out@;
        let mut i: usize = 0;
        assert(out@ =~= front + cleaned.subrange(0, 0));
        while i < n
            invariant
                i <= n,
                n == name@.len(),
                cleaned == name@.map_values(|c: char| cleaned_char(c)),
                out@ == front + cleaned.subrange(0, i as int),
            decreases n - i,
        {
            let c = name.get_char(i);
            let kept = if 'A' <= c && c <= 'Z' {
                ((c as u8) + 32) as char
            } else if ('a' <= c && c <= 'z') || ('0' <= c && c <= '9') {
                c
            } else {
                '_'
            };
            push_char(&mut out, kept);
            assert(out@ =~= front + cleaned.subrange(0, i + 1));
            i += 1;
        }
        assert(cleaned.subrange(0, n as int) =~= cleaned);
        assert(out@ =~= base_id(name@));
        assert(is_safe_name(out@)) by {
            assert forall|j: int| 0 <= j < cleaned.len() implies is_tail_char(#[trigger] cleaned[j]) by {
                let c = name@[j];
                if 'A' <= c <= 'Z' {
                    assert('a' <= ((c as u8) + 32) as char <= 'z');
                }
            }
            assert forall|j: int| 1 <= j < out@.len() implies is_tail_char(#[trigger] out@[j]) by {
                if front.len() == 1 {
                    assert(out@[j] == cleaned[j - 1]);
                } else {
                    assert(out@[j] == cleaned[j]);
                }
            }
            if front.len() == 0 {
                assert(out@[0] == cleaned[0]);
            }
        }
        out
    }

    /// Given a `name`, return an identifier that has not been handed out:
    /// the one that the name asks for or, where that is taken, the first
    /// that is free of those with an underscore and a number from two on
    /// behind it.
    pub fn fresh_id_for(&mut self, name: &str) -> (r: Result<String, Error>)
        ensures
            fresh_outcome(*old(self), name@, *final(self), r),
            r matches Ok(id) ==> is_safe_name(id@) && !old(self).ids().contains(id@),
    {
        let base = Self::base_for(name);
        let ghost used = self.ids();
        let ghost list = self.used@;
        let mut n: u64 = 1;
        while n < u64::MAX
            invariant
                1 <= n <= u64::MAX,
                list == self.used@,
                used == self.ids(),
                *old(self) == *self,
                base@ == base_id(name@),
                is_safe_name(base@),
                forall|m: nat| 1 <= m < n ==> used.contains(#[trigger] candidate(base@, m)),
            decreases u64::MAX - n,
        {
            let mut id = base.clone();
            if n > 1 {
                push_char(&mut id, '_');
                id.append(decimal(n).as_str());
            }
            assert(id@ =~= candidate(base@, n as nat));
            if !contains_text(&self.used, id.as_str()) {
                proof {
                    lemma_candidate_is_safe(base@, n as nat);
                    assert(first_free(used, base@, n as nat));
                }
                let ghost before = texts(self.used@);
                self.used.push(id.clone());
                assert(texts(self.used@) =~= before.push(id@));
                assert(self.ids() =~= used.insert(id@)) by {
                    assert forall|t: Seq<char>| self.ids().contains(t) <==> used.insert(id@).contains(
                        t,
                    ) by {
                        if texts(self.used@).contains(t) {
                            let j = choose|j: int|
                                0 <= j < texts(self.used@).len() && texts(self.used@)[j] == t;
                            if j < before.len() {
                                assert(before[j] == t);
                            }
                        }
                        if before.contains(t) {
                            let j = choose|j: int| 0 <= j < before.len() && before[j] == t;
                            assert(texts(self.used@)[j] == t);
                        }
                        if t == id@ {
                            assert(texts(self.used@)[before.len() as int] == t);
                        }
                    }
                }
                return Ok(id);
            }
            n += 1;
        }
        Err(Error::InvalidColumnName(name.to_owned()))
    }
}

impl Default for Uniquifier {
    fn default() -> (out: Self)
        ensures
            out.ids() == Set::<Seq<char>>::empty(),
            out.used_ids() == Set::<Seq<char>>::empty(),
    {
        let out = Uniquifier { used: Vec::new() };
        assert(out.ids() =~= Set::<Seq<char>>::empty());
        out
    }
}

impl ColumnNameCleaner for Uniquifier {
    open spec fn used_ids(&self) -> Set<Seq<char>> {
        self.ids()
    }

    open spec fn accepts(&self, name: Seq<char>) -> bool {
        exists|n: nat| #[trigger] first_free(self.ids(), base_id(name), n)
    }

    open spec fn id_for(&self, name: Seq<char>) -> Seq<char> {
        candidate(base_id(name), least_free(self.ids(), base_id(name)))
    }

    /// Gives the name the first identifier that is free, as `fresh_id_for`
    /// does.
    fn unique_id_for(&mut self, name: &str) -> (r: Result<String, Error>)
        ensures
            fresh_outcome(*old(self), name@, *final(self), r),
    {
        let ghost before = self.ids();
        let r = self.fresh_id_for(name);
        proof {
            let base = base_id(name@);
            if r is Ok {
                let id = r->Ok_0;
                let n = choose|n: nat| #[trigger]
                    first_free(before, base, n) && id@ == candidate(base, n) && self.ids()
                        == before.insert(id@);
                let m = least_free(before, base);
                lemma_first_free_is_one(before, base, n, m);
            } else {
                assert forall|n: nat| !#[trigger] first_free(before, base, n) by {
                    if 1 <= n < u64::MAX {
                        assert(before.contains(candidate(base, n)));
                    }
                }
            }
        }
        r
    }
}

} // verus!
