//! Chunks of zip codes that hold about the same number of people each,
//! based on 2010 census population data.

use vstd::prelude::*;
use vstd::string::*;
use vstd::utf8::*;

use crate::errors::Error;
use crate::population_csv::{
    population_rows_of, read_population_rows, row_texts, text_row_bytes,
};
use crate::text::{copy_texts, decimal, decimal_text, digit, digit_text, position_of, texts};

verus! {

/// The length of a basic zip code, in digits.
pub const ZIP_CODE_LENGTH: usize = 5;

/// The number of zip code prefixes: one without digits, ten of one digit,
/// and so on up to five digits.
pub const PREFIX_COUNT: usize = 111_111;

/// A zip code prefix, as the values of its digits: five digits at most.
pub open spec fn is_prefix(p: Seq<u8>) -> bool {
    &&& p.len() <= ZIP_CODE_LENGTH
    &&& forall|i: int| 0 <= i < p.len() ==> #[trigger] p[i] < 10
}

/// The place of a prefix in a table of all prefixes.  The prefix without
/// digits stands first, and the ten prefixes that add one digit to the
/// prefix at place `c` stand at `10 * c + 1` to `10 * c + 10`.
pub open spec fn code(p: Seq<u8>) -> int
    decreases p.len(),
{
    if p.len() == 0 {
        0
    } else {
        10 * code(p.drop_last()) + 1 + p.last()
    }
}

/// The place of the first prefix of `len` digits.
pub open spec fn first_code(len: int) -> int {
    if len <= 0 {
        0
    } else if len == 1 {
        1
    } else if len == 2 {
        11
    } else if len == 3 {
        111
    } else if len == 4 {
        1_111
    } else if len == 5 {
        11_111
    } else {
        111_111
    }
}

/// The prefixes of each length stand together in the table.
proof fn lemma_code_bounds(p: Seq<u8>)
    requires
        is_prefix(p),
    ensures
        first_code(p.len() as int) <= code(p) < first_code(p.len() as int + 1),
        0 <= code(p) < PREFIX_COUNT,
    decreases p.len(),
{
    if p.len() > 0 {
        assert(is_prefix(p.drop_last())) by {
            assert forall|i: int| 0 <= i < p.drop_last().len() implies #[trigger] p.drop_last()[i]
                < 10 by {
                assert(p.drop_last()[i] == p[i]);
            }
        }
        lemma_code_bounds(p.drop_last());
    }
}

/// No two prefixes share a place in the table.
proof fn lemma_code_injective(p: Seq<u8>, q: Seq<u8>)
    requires
        is_prefix(p),
        is_prefix(q),
        code(p) == code(q),
    ensures
        p == q,
    decreases p.len(),
{
    lemma_code_bounds(p);
    lemma_code_bounds(q);
    if p.len() == 0 || q.len() == 0 {
        assert(p.len() == 0 && q.len() == 0);
        assert(p =~= q);
    } else {
        assert(is_prefix(p.drop_last())) by {
            assert forall|i: int| 0 <= i < p.drop_last().len() implies #[trigger] p.drop_last()[i]
                < 10 by {
                assert(p.drop_last()[i] == p[i]);
            }
        }
        assert(is_prefix(q.drop_last())) by {
            assert forall|i: int| 0 <= i < q.drop_last().len() implies #[trigger] q.drop_last()[i]
                < 10 by {
                assert(q.drop_last()[i] == q[i]);
            }
        }
        assert(p.last() < 10);
        assert(q.last() < 10);
        lemma_code_injective(p.drop_last(), q.drop_last());
        assert(p =~= p.drop_last().push(p.last()));
        assert(q =~= q.drop_last().push(q.last()));
    }
}

/// The zip code with the bytes `zip` starts with the digits of `p`.
pub open spec fn starts_with(zip: Seq<u8>, p: Seq<u8>) -> bool {
    &&& p.len() <= zip.len()
    &&& forall|i: int| 0 <= i < p.len() ==> #[trigger] zip[i] == p[i] + 48
}

/// The number of people who live under a zip code that starts with `p`,
/// where `rows` gives the zip codes, as bytes, with the number of people
/// under each.
pub open spec fn population(rows: Seq<(Seq<u8>, u64)>, p: Seq<u8>) -> nat
    decreases rows.len(),
{
    if rows.len() == 0 {
        0
    } else {
        population(rows.drop_last(), p) + (if starts_with(rows.last().0, p) {
            rows.last().1 as nat
        } else {
            0
        })
    }
}

/// No prefix holds more people than there are in all.
proof fn lemma_population_bounded(rows: Seq<(Seq<u8>, u64)>, p: Seq<u8>)
    ensures
        population(rows, p) <= population(rows, Seq::empty()),
    decreases rows.len(),
{
    if rows.len() > 0 {
        lemma_population_bounded(rows.drop_last(), p);
        assert(starts_with(rows.last().0, Seq::empty()));
    }
}

/// With more rows there are no fewer people.
proof fn lemma_population_grows(rows: Seq<(Seq<u8>, u64)>, n: int, p: Seq<u8>)
    requires
        0 <= n <= rows.len(),
    ensures
        population(rows.subrange(0, n), p) <= population(rows, p),
    decreases rows.len() - n,
{
    if n < rows.len() {
        let next = rows.subrange(0, n + 1);
        assert(next.drop_last() =~= rows.subrange(0, n));
        lemma_population_grows(rows, n + 1, p);
    } else {
        assert(rows.subrange(0, n) =~= rows);
    }
}

/// The rows of a population table, with each zip code as its bytes.
pub open spec fn row_bytes(rows: Seq<(String, u64)>) -> Seq<(Seq<u8>, u64)> {
    rows.map_values(|row: (String, u64)| (encode_utf8(row.0@), row.1))
}

/// The first `len` bytes of `zip`, each as the value of the digit that it
/// stands for.
pub open spec fn leading_digits(zip: Seq<u8>, len: int) -> Seq<u8> {
    Seq::new(len as nat, |i: int| (zip[i] - 48) as u8)
}

/// The first `len` bytes of `zip` are digits.
pub open spec fn leads_with_digits(zip: Seq<u8>, len: int) -> bool {
    &&& 0 <= len <= zip.len()
    &&& forall|i: int| 0 <= i < len ==> 48 <= #[trigger] zip[i] <= 57
}

/// A zip code starts with a prefix of `len` digits exactly if the prefix is
/// made of its first `len` bytes.
proof fn lemma_starts_with_leading(zip: Seq<u8>, p: Seq<u8>)
    requires
        is_prefix(p),
    ensures
        starts_with(zip, p) <==> (leads_with_digits(zip, p.len() as int) && p == leading_digits(
            zip,
            p.len() as int,
        )),
{
    if starts_with(zip, p) {
        assert forall|i: int| 0 <= i < p.len() implies 48 <= #[trigger] zip[i] <= 57 by {
            assert(p[i] < 10);
        }
        assert(p =~= leading_digits(zip, p.len() as int));
    }
    if leads_with_digits(zip, p.len() as int) && p == leading_digits(zip, p.len() as int) {
        assert forall|i: int| 0 <= i < p.len() implies #[trigger] zip[i] == p[i] + 48 by {
            assert(p[i] == leading_digits(zip, p.len() as int)[i]);
        }
    }
}

/// The population associated with each zip code prefix.
pub struct PrefixPopulation {
    /// For each prefix, at its place in the table, the number of people.
    table: Vec<u64>,
}

impl PrefixPopulation {
    /// The number of people who live under a zip code that starts with `p`.
    pub closed spec fn people(self, p: Seq<u8>) -> nat {
        self.table[code(p)] as nat
    }

    /// The table has a place for every prefix.
    #[verifier::type_invariant]
    pub closed spec fn wf(self) -> bool {
        self.table.len() == PREFIX_COUNT
    }

    /// Sums up the people under each zip code prefix.  `rows` holds the zip
    /// codes with the number of people under each.  Where the people are
    /// more in all than a `u64` can count, there is no table.
    pub fn new(rows: &Vec<(String, u64)>) -> (r: Option<PrefixPopulation>)
        ensures
            r is Some <==> population(row_bytes(rows@), Seq::empty()) <= u64::MAX,
            r matches Some(out) ==> out.wf() && forall|p: Seq<u8>|
                is_prefix(p) ==> #[trigger] out.people(p) == population(row_bytes(rows@), p),
    {
        let ghost all = row_bytes(rows@);
        // Count everybody first: where that number fits, every other fits.
        let mut total: u64 = 0;
        let mut k: usize = 0;
        assert(all.subrange(0, 0) =~= Seq::<(Seq<u8>, u64)>::empty());
        while k < rows.len()
            invariant
                k <= rows.len(),
                all == row_bytes(rows@),
                total == population(all.subrange(0, k as int), Seq::empty()),
            decreases rows.len() - k,
        {
            let ghost next = all.subrange(0, k + 1);
            assert(next.drop_last() =~= all.subrange(0, k as int));
            assert(next.last() == all[k as int]);
            assert(starts_with(next.last().0, Seq::empty()));
            match total.checked_add(rows[k].1) {
                Some(sum) => {
                    total = sum;
                },
                None => {
                    proof {
                        lemma_population_grows(all, k + 1, Seq::empty());
                    }
                    return None;
                },
            }
            k += 1;
        }
        assert(all.subrange(0, rows.len() as int) =~= all);

        let mut table: Vec<u64> = Vec::new();
        let mut c: usize = 0;
        while c < PREFIX_COUNT
            invariant
                c <= PREFIX_COUNT,
                table.len() == c,
                forall|i: int| 0 <= i < c ==> #[trigger] table[i] == 0,
            decreases PREFIX_COUNT - c,
        {
            table.push(0);
            c += 1;
        }
        let mut k: usize = 0;
        assert forall|p: Seq<u8>| is_prefix(p) implies #[trigger] table[code(p)] == population(
            all.subrange(0, 0),
            p,
        ) by {
            lemma_code_bounds(p);
        }
        while k < rows.len()
            invariant
                k <= rows.len(),
                all == row_bytes(rows@),
                table.len() == PREFIX_COUNT,
                population(all, Seq::empty()) <= u64::MAX,
                forall|p: Seq<u8>|
                    is_prefix(p) ==> #[trigger] table[code(p)] == population(
                        all.subrange(0, k as int),
                        p,
                    ),
            decreases rows.len() - k,
        {
            let zip = rows[k].0.as_str().as_bytes();
            let people = rows[k].1;
            let ghost before = all.subrange(0, k as int);
            let ghost next = all.subrange(0, k + 1);
            assert(next.drop_last() =~= before);
            assert(next.last() == all[k as int]);
            assert(all[k as int] == (zip@, people));
            // For each prefix of this zip code, increment the population of
            // that prefix.
            let mut len: usize = 0;
            let mut place: usize = 0;
            let mut going = true;
            while going
                invariant
                    len <= ZIP_CODE_LENGTH,
                    table.len() == PREFIX_COUNT,
                    population(all, Seq::empty()) <= u64::MAX,
                    next == all.subrange(0, k + 1),
                    next.drop_last() == before,
                    next.last() == (zip@, people),
                    k < rows.len(),
                    all.len() == rows.len(),
                    going ==> leads_with_digits(zip@, len as int) && place == code(
                        leading_digits(zip@, len as int),
                    ),
                    forall|p: Seq<u8>|
                        is_prefix(p) ==> #[trigger] table[code(p)] == (if p.len() < len || !going {
                            population(next, p)
                        } else {
                            population(before, p)
                        }),
                decreases ZIP_CODE_LENGTH + 1 - len + (if going { 1int } else { 0int }),
            {
                let ghost here = leading_digits(zip@, len as int);
                assert(is_prefix(here));
                proof {
                    lemma_code_bounds(here);
                    lemma_starts_with_leading(zip@, here);
                    lemma_population_grows(all, k + 1, here);
                    lemma_population_bounded(all, here);
                }
                let ghost old_table = table@;
                let sum = table[place] + people;
                table.set(place, sum);
                let more = len < ZIP_CODE_LENGTH && len < zip.len() && 48 <= zip[len] && zip[len]
                    <= 57;
                assert forall|p: Seq<u8>| is_prefix(p) implies #[trigger] table[code(p)] == (if p.len()
                    < len + 1 || !more {
                    population(next, p)
                } else {
                    population(before, p)
                }) by {
                    lemma_code_bounds(p);
                    lemma_starts_with_leading(zip@, p);
                    if p == here {
                    } else {
                        if code(p) == code(here) {
                            lemma_code_injective(p, here);
                        }
                        assert(table[code(p)] == old_table[code(p)]);
                        if p.len() == len {
                            assert(!starts_with(zip@, p));
                        } else if p.len() > len && !more {
                            // The zip code ends here, or goes on with
                            // something other than a digit.
                            if starts_with(zip@, p) {
                                assert(zip@[len as int] == p[len as int] + 48);
                                assert(p[len as int] < 10);
                            }
                        }
                    }
                }
                if more {
                    let digit = zip[len] - 48;
                    let ghost longer = leading_digits(zip@, len + 1);
                    assert(longer.drop_last() =~= here);
                    assert(longer.last() == digit);
                    place = 10 * place + 1 + digit as usize;
                    len += 1;
                } else {
                    going = false;
                }
            }
            k += 1;
        }
        assert(all.subrange(0, rows.len() as int) =~= all);
        Some(PrefixPopulation { table })
    }
}

/// The prefix `c` starts with the prefix `p`.
pub open spec fn extends(c: Seq<u8>, p: Seq<u8>) -> bool {
    p.len() <= c.len() && c.subrange(0, p.len() as int) == p
}

/// The digits of a prefix, as text.
pub open spec fn prefix_text(p: Seq<u8>) -> Seq<char>
    decreases p.len(),
{
    if p.len() == 0 {
        Seq::empty()
    } else {
        prefix_text(p.drop_last()) + digit_text(p.last() as nat)
    }
}

/// What a table of chunks holds for the prefix `p`.
pub open spec fn entry(table: Seq<Option<String>>, p: Seq<u8>) -> Option<Seq<char>> {
    match table[code(p)] {
        Some(id) => Some(id@),
        None => None,
    }
}

/// A new entry, where there is one, takes the place of the old.
pub open spec fn merged(new: Option<Seq<char>>, old: Option<Seq<char>>) -> Option<Seq<char>> {
    match new {
        Some(id) => Some(id),
        None => old,
    }
}

impl PrefixPopulation {
    /// The prefix `p` is divided among its children: it holds more people
    /// than fit a chunk, and can still grow by a digit.
    pub open spec fn splits(self, target: u64, p: Seq<u8>) -> bool {
        self.people(p) > target && p.len() < ZIP_CODE_LENGTH
    }

    /// The division that starts at `root` reaches the prefix `p`: `p` is
    /// `root`, or a child that holds a chunk's worth of people or more, of
    /// a prefix that is reached and divided.
    pub open spec fn visited(self, target: u64, root: Seq<u8>, p: Seq<u8>) -> bool
        decreases p.len(),
    {
        if p.len() <= root.len() {
            p == root
        } else {
            &&& self.visited(target, root, p.drop_last())
            &&& self.splits(target, p.drop_last())
            &&& self.people(p) >= target
        }
    }

    /// The prefix `p` is a chunk of its own: it is reached and not divided.
    pub open spec fn whole(self, target: u64, root: Seq<u8>, p: Seq<u8>) -> bool {
        self.visited(target, root, p) && !self.splits(target, p)
    }

    /// The prefix `p` is left over: its parent is reached and divided, and
    /// `p` holds fewer people than a chunk should.
    pub open spec fn leftover(self, target: u64, root: Seq<u8>, p: Seq<u8>) -> bool {
        &&& p.len() > root.len()
        &&& self.visited(target, root, p.drop_last())
        &&& self.splits(target, p.drop_last())
        &&& self.people(p) < target
    }

    /// How the children of `p` that are left over are packed into chunks,
    /// after the children with the digits below `d` have been placed: the
    /// number of the chunk that is being filled, and the people in it.  The
    /// children are taken in the order of their digits; a child that would
    /// take the chunk above the target opens the next.
    pub open spec fn packing(self, target: u64, p: Seq<u8>, d: int) -> (nat, nat)
        decreases d,
    {
        if d <= 0 {
            (0, 0)
        } else {
            let before = self.packing(target, p, d - 1);
            let people = self.people(p.push((d - 1) as u8));
            if people >= target {
                before
            } else if before.1 + people > target {
                ((before.0 + 1) as nat, people)
            } else {
                (before.0, before.1 + people)
            }
        }
    }

    /// The name of the chunk that the division from `root` on gives to the
    /// prefix `c`, if it gives one: its own digits where it is a chunk of
    /// its own; the digits of its parent, an underscore and the number of
    /// its chunk among the leftovers of its parent where it is left over.
    pub open spec fn chunk_text(self, target: u64, root: Seq<u8>, c: Seq<u8>) -> Option<Seq<char>> {
        if self.whole(target, root, c) {
            Some(prefix_text(c))
        } else if self.leftover(target, root, c) {
            Some(
                prefix_text(c.drop_last()) + "_"@ + decimal_text(
                    self.packing(target, c.drop_last(), c.last() + 1).0,
                ),
            )
        } else {
            None
        }
    }

    /// The division from `root` on reaches nothing that does not start
    /// with `root`.
    proof fn lemma_only_below(self, target: u64, root: Seq<u8>, c: Seq<u8>)
        requires
            !extends(c, root),
        ensures
            !self.visited(target, root, c),
            !self.leftover(target, root, c),
            self.chunk_text(target, root, c) is None,
        decreases c.len(),
    {
        if c.len() <= root.len() {
            if c == root {
                assert(c.subrange(0, root.len() as int) =~= c);
            }
        } else {
            let parent = c.drop_last();
            if extends(parent, root) {
                assert(c.subrange(0, root.len() as int) =~= parent.subrange(0, root.len() as int));
            }
            self.lemma_only_below(target, root, parent);
        }
    }

    /// Below a prefix that is not divided, nothing is reached.
    proof fn lemma_unsplit(self, target: u64, p: Seq<u8>, c: Seq<u8>)
        requires
            !self.splits(target, p),
            c != p,
        ensures
            !self.visited(target, p, c),
            !self.leftover(target, p, c),
            self.chunk_text(target, p, c) is None,
        decreases c.len(),
    {
        if c.len() > p.len() {
            if c.drop_last() != p {
                self.lemma_unsplit(target, p, c.drop_last());
            }
        }
    }

    /// Below a prefix that is not reached, nothing is reached.
    proof fn lemma_unvisited(self, target: u64, root: Seq<u8>, q: Seq<u8>, c: Seq<u8>)
        requires
            !self.visited(target, root, q),
            q.len() >= root.len(),
            extends(c, q),
            c != q,
        ensures
            !self.visited(target, root, c),
            !self.leftover(target, root, c),
            self.chunk_text(target, root, c) is None,
        decreases c.len(),
    {
        assert(c.len() > q.len()) by {
            if c.len() == q.len() {
                assert(c.subrange(0, q.len() as int) =~= c);
            }
        }
        let parent = c.drop_last();
        assert(extends(parent, q)) by {
            assert(parent.subrange(0, q.len() as int) =~= c.subrange(0, q.len() as int));
        }
        if parent != q {
            self.lemma_unvisited(target, root, q, parent);
        }
    }

    /// What is reached from `root` below a prefix `q` that is itself
    /// reached, is what is reached from `q`.
    proof fn lemma_visited_same(self, target: u64, root: Seq<u8>, q: Seq<u8>, c: Seq<u8>)
        requires
            self.visited(target, root, q),
            extends(c, q),
        ensures
            q.len() >= root.len(),
            self.visited(target, root, c) == self.visited(target, q, c),
        decreases c.len(),
    {
        if !extends(q, root) {
            self.lemma_only_below(target, root, q);
        }
        if c.len() == q.len() {
            assert(c.subrange(0, q.len() as int) =~= c);
        } else {
            let parent = c.drop_last();
            assert(extends(parent, q)) by {
                assert(parent.subrange(0, q.len() as int) =~= c.subrange(0, q.len() as int));
            }
            self.lemma_visited_same(target, root, q, parent);
        }
    }

    /// Below a prefix `q` that is reached from `root`, the division from
    /// `root` on gives the names that the division from `q` on gives.
    proof fn lemma_same_below(self, target: u64, root: Seq<u8>, q: Seq<u8>, c: Seq<u8>)
        requires
            self.visited(target, root, q),
            extends(c, q),
        ensures
            self.chunk_text(target, root, c) == self.chunk_text(target, q, c),
    {
        self.lemma_visited_same(target, root, q, c);
        if c.len() == q.len() {
            assert(c.subrange(0, q.len() as int) =~= c);
        } else {
            let parent = c.drop_last();
            assert(extends(parent, q)) by {
                assert(parent.subrange(0, q.len() as int) =~= c.subrange(0, q.len() as int));
            }
            self.lemma_visited_same(target, root, q, parent);
        }
    }

    /// From a prefix of a zip code that is reached, the division comes to a
    /// prefix of the zip code that has a name.
    proof fn lemma_descent(self, target: u64, zip: Seq<u8>, k: int) -> (found: int)
        requires
            is_prefix(zip),
            zip.len() == ZIP_CODE_LENGTH,
            0 <= k <= ZIP_CODE_LENGTH,
            self.visited(target, Seq::empty(), zip.subrange(0, k)),
        ensures
            k <= found <= ZIP_CODE_LENGTH,
            self.chunk_text(target, Seq::empty(), zip.subrange(0, found)) is Some,
        decreases ZIP_CODE_LENGTH - k,
    {
        let here = zip.subrange(0, k);
        if !self.splits(target, here) {
            k
        } else {
            let child = zip.subrange(0, k + 1);
            assert(child.drop_last() =~= here);
            if self.people(child) >= target {
                self.lemma_descent(target, zip, k + 1)
            } else {
                k + 1
            }
        }
    }

    /// Looks up the population of a zip code prefix of five digits at most.
    /// A prefix that holds anything but digits holds nobody.
    pub fn lookup(&self, prefix: &str) -> (people: u64)
        requires
            prefix.spec_bytes().len() <= ZIP_CODE_LENGTH,
        ensures
            leads_with_digits(prefix.spec_bytes(), prefix.spec_bytes().len() as int) ==> people
                == self.people(
                leading_digits(prefix.spec_bytes(), prefix.spec_bytes().len() as int),
            ),
            !leads_with_digits(prefix.spec_bytes(), prefix.spec_bytes().len() as int) ==> people
                == 0,
    {
        proof {
            use_type_invariant(self);
        }
        let bytes = prefix.as_bytes();
        match place_of(bytes, bytes.len()) {
            Some(place) => self.table[place],
            None => 0,
        }
    }

    /// Builds zip code chunks based on population data: divides the prefix
    /// `prefix`, of five digits at most, and enters a name for each chunk
    /// into `chunk_id_for_prefix`, where the place of each prefix is its
    /// `code`.  Entries for other prefixes stay as they are.
    pub fn build_chunks_recursive(
        &self,
        target_population: u64,
        prefix: &str,
        chunk_id_for_prefix: &mut Vec<Option<String>>,
    )
        requires
            leads_with_digits(prefix.spec_bytes(), prefix.spec_bytes().len() as int),
            prefix.spec_bytes().len() <= ZIP_CODE_LENGTH,
            old(chunk_id_for_prefix).len() == PREFIX_COUNT,
        ensures
            final(chunk_id_for_prefix).len() == PREFIX_COUNT,
            forall|c: Seq<u8>|
                is_prefix(c) ==> #[trigger] entry(final(chunk_id_for_prefix)@, c) == merged(
                    self.chunk_text(
                        target_population,
                        leading_digits(prefix.spec_bytes(), prefix.spec_bytes().len() as int),
                        c,
                    ),
                    entry(old(chunk_id_for_prefix)@, c),
                ),
    {
        let bytes = prefix.as_bytes();
        let ghost p = leading_digits(bytes@, bytes.len() as int);
        let place = place_of(bytes, bytes.len()).unwrap();
        let text = text_of(bytes, bytes.len());
        self.fill(
            target_population,
            text.as_str(),
            place,
            bytes.len(),
            Ghost(p),
            chunk_id_for_prefix,
        );
    }

    /// Divides the prefix `p`, whose text is `prefix` and whose place is
    /// `place`.
    fn fill(
        &self,
        target: u64,
        prefix: &str,
        place: usize,
        len: usize,
        Ghost(p): Ghost<Seq<u8>>,
        table: &mut Vec<Option<String>>,
    )
        requires
            is_prefix(p),
            place == code(p),
            len == p.len(),
            prefix@ == prefix_text(p),
            old(table).len() == PREFIX_COUNT,
        ensures
            final(table).len() == PREFIX_COUNT,
            forall|c: Seq<u8>|
                is_prefix(c) ==> #[trigger] entry(final(table)@, c) == merged(
                    self.chunk_text(target, p, c),
                    entry(old(table)@, c),
                ),
        decreases ZIP_CODE_LENGTH - p.len(),
    {
        proof {
            use_type_invariant(self);
            lemma_code_bounds(p);
        }
        let ghost start = table@;
        let prefix_pop = self.table[place];
        if prefix_pop <= target || len == ZIP_CODE_LENGTH {
            // We're small enough to fill a chunk on our own, or we can't be
            // split any further.
            table.set(place, Some(prefix.to_owned()));
            assert forall|c: Seq<u8>| is_prefix(c) implies #[trigger] entry(table@, c) == merged(
                self.chunk_text(target, p, c),
                entry(start, c),
            ) by {
                lemma_code_bounds(c);
                if c != p {
                    self.lemma_unsplit(target, p, c);
                    if code(c) == code(p) {
                        lemma_code_injective(c, p);
                    }
                }
            }
        } else {
            // Check each possible "child" of this prefix, recursing for any
            // that are greater than or equal to our target size.  Group the
            // smaller children into chunks with names like
            // `{prefix}_{i}`.  It's important to include the children
            // without people here, so that zip codes that came later can be
            // placed in some chunk.
            let mut chunk_idx: u64 = 0;
            let mut chunk_pop: u64 = 0;
            let mut d: u8 = 0;
            while d < 10
                invariant
                    d <= 10,
                    self.wf(),
                    is_prefix(p),
                    place == code(p),
                    len == p.len(),
                    len < ZIP_CODE_LENGTH,
                    prefix@ == prefix_text(p),
                    self.splits(target, p),
                    table.len() == PREFIX_COUNT,
                    chunk_idx <= d,
                    chunk_pop <= target,
                    (chunk_idx as nat, chunk_pop as nat) == self.packing(target, p, d as int),
                    forall|c: Seq<u8>|
                        is_prefix(c) ==> #[trigger] entry(table@, c) == (if c.len() > p.len()
                            && extends(c, p) && c[p.len() as int] < d {
                            merged(self.chunk_text(target, p, c), entry(start, c))
                        } else {
                            entry(start, c)
                        }),
                decreases 10 - d,
            {
                let ghost q = p.push(d);
                assert(q.drop_last() =~= p);
                assert(q.last() == d);
                assert(is_prefix(q));
                assert(extends(q, p)) by {
                    assert(q.subrange(0, p.len() as int) =~= p);
                }
                proof {
                    lemma_code_bounds(q);
                }
                let ghost before = table@;
                let child_place = 10 * place + 1 + d as usize;
                let mut child_prefix = prefix.to_owned();
                child_prefix.append(digit(d as u64));
                let child_pop = self.table[child_place];
                assert(self.visited(target, p, p));
                assert(self.people(q) == child_pop);
                if child_pop >= target {
                    assert(self.visited(target, p, q));
                    self.fill(target, child_prefix.as_str(), child_place, len + 1, Ghost(q), table);
                    assert forall|c: Seq<u8>| is_prefix(c) implies #[trigger] entry(table@, c) == (if c.len()
                        > p.len() && extends(c, p) && c[p.len() as int] < d + 1 {
                        merged(self.chunk_text(target, p, c), entry(start, c))
                    } else {
                        entry(start, c)
                    }) by {
                        if extends(c, q) {
                            assert(c.len() > p.len());
                            assert(c[p.len() as int] == c.subrange(0, q.len() as int)[p.len() as int]);
                            assert(extends(c, p)) by {
                                assert(c.subrange(0, p.len() as int) =~= c.subrange(
                                    0,
                                    q.len() as int,
                                ).subrange(0, p.len() as int));
                            }
                            self.lemma_same_below(target, p, q, c);
                        } else {
                            self.lemma_only_below(target, q, c);
                            if c.len() > p.len() && extends(c, p) && c[p.len() as int] == d {
                                assert(c.subrange(0, q.len() as int) =~= q);
                            }
                        }
                    }
                } else {
                    if child_pop > target - chunk_pop {
                        chunk_idx += 1;
                        chunk_pop = 0;
                    }
                    chunk_pop += child_pop;
                    let mut chunk_id = prefix.to_owned();
                    chunk_id.append("_");
                    chunk_id.append(decimal(chunk_idx).as_str());
                    table.set(child_place, Some(chunk_id));
                    assert forall|c: Seq<u8>| is_prefix(c) implies #[trigger] entry(table@, c) == (if c.len()
                        > p.len() && extends(c, p) && c[p.len() as int] < d + 1 {
                        merged(self.chunk_text(target, p, c), entry(start, c))
                    } else {
                        entry(start, c)
                    }) by {
                        lemma_code_bounds(c);
                        if c == q {
                            assert(self.leftover(target, p, q));
                            assert(!self.visited(target, p, q));
                        } else {
                            if code(c) == code(q) {
                                lemma_code_injective(c, q);
                            }
                            assert(entry(table@, c) == entry(before, c));
                            if extends(c, q) {
                                assert(c.len() > p.len());
                                assert(c[p.len() as int] == c.subrange(0, q.len() as int)[p.len() as int]);
                                assert(extends(c, p)) by {
                                    assert(c.subrange(0, p.len() as int) =~= c.subrange(
                                        0,
                                        q.len() as int,
                                    ).subrange(0, p.len() as int));
                                }
                                self.lemma_unvisited(target, p, q, c);
                            } else if c.len() > p.len() && extends(c, p) && c[p.len() as int] == d {
                                assert(c.subrange(0, q.len() as int) =~= q);
                            }
                        }
                    }
                }
                d += 1;
            }
            assert forall|c: Seq<u8>| is_prefix(c) implies #[trigger] entry(table@, c) == merged(
                self.chunk_text(target, p, c),
                entry(start, c),
            ) by {
                if c.len() > p.len() && extends(c, p) {
                    assert(c[p.len() as int] < 10);
                } else if c == p {
                } else {
                    if extends(c, p) {
                        assert(c.len() == p.len());
                        assert(c.subrange(0, p.len() as int) =~= c);
                    }
                    self.lemma_only_below(target, p, c);
                }
            }
        }
    }
}

/// The place in the table of the prefix that the first `len` bytes of
/// `bytes` spell, if they are all digits.
fn place_of(bytes: &[u8], len: usize) -> (r: Option<usize>)
    requires
        len <= bytes.len(),
        len <= ZIP_CODE_LENGTH,
    ensures
        match r {
            Some(place) => leads_with_digits(bytes@, len as int) && place == code(
                leading_digits(bytes@, len as int),
            ) && place < PREFIX_COUNT,
            None => !leads_with_digits(bytes@, len as int),
        },
{
    let mut place: usize = 0;
    let mut i: usize = 0;
    while i < len
        invariant
            i <= len,
            len <= bytes.len(),
            len <= ZIP_CODE_LENGTH,
            leads_with_digits(bytes@, i as int),
            place == code(leading_digits(bytes@, i as int)),
            place < PREFIX_COUNT,
        decreases len - i,
    {
        if bytes[i] < 48 || bytes[i] > 57 {
            return None;
        }
        let ghost here = leading_digits(bytes@, i as int);
        let ghost longer = leading_digits(bytes@, i + 1);
        assert(longer.drop_last() =~= here);
        assert(is_prefix(longer));
        proof {
            lemma_code_bounds(longer);
        }
        place = 10 * place + 1 + (bytes[i] - 48) as usize;
        i += 1;
    }
    Some(place)
}

/// The text of the prefix that the first `len` bytes of `bytes` spell.
fn text_of(bytes: &[u8], len: usize) -> (text: String)
    requires
        leads_with_digits(bytes@, len as int),
    ensures
        text@ == prefix_text(leading_digits(bytes@, len as int)),
{
    let mut text = String::new();
    let mut i: usize = 0;
    while i < len
        invariant
            i <= len,
            leads_with_digits(bytes@, len as int),
            text@ == prefix_text(leading_digits(bytes@, i as int)),
        decreases len - i,
    {
        let ghost here = leading_digits(bytes@, i as int);
        let ghost longer = leading_digits(bytes@, i + 1);
        assert(longer.drop_last() =~= here);
        text.append(digit((bytes[i] - 48) as u64));
        i += 1;
    }
    text
}

impl PrefixPopulation {
    /// Reads the population of each zip code prefix from a table of
    /// comma-separated values: a header line, then a zip code and a number
    /// of people in every line.
    pub fn from_csv(text: &str) -> (r: Result<PrefixPopulation, Error>)
        ensures
            match population_rows_of(text@) {
                None => r == Err::<PrefixPopulation, Error>(Error::InvalidPopulationData),
                Some(rows) => if population(text_row_bytes(rows), Seq::empty()) <= u64::MAX {
                    r matches Ok(out) && out.wf() && forall|p: Seq<u8>|
                        is_prefix(p) ==> #[trigger] out.people(p) == population(
                            text_row_bytes(rows),
                            p,
                        )
                } else {
                    r == Err::<PrefixPopulation, Error>(Error::PopulationTooLarge)
                },
            },
    {
        let rows = match read_population_rows(text) {
            Some(rows) => rows,
            None => {
                return Err(Error::InvalidPopulationData);
            },
        };
        assert(row_bytes(rows@) =~= text_row_bytes(row_texts(rows@)));
        match PrefixPopulation::new(&rows) {
            Some(out) => Ok(out),
            None => Err(Error::PopulationTooLarge),
        }
    }
}

/// A zip code of five digits.
pub open spec fn is_zip(z: Seq<u8>) -> bool {
    is_prefix(z) && z.len() == ZIP_CODE_LENGTH
}

/// The five digits of the zip code with the number `n`.
pub open spec fn zip_digits(n: int) -> Seq<u8> {
    seq![
        (n / 10000 % 10) as u8,
        (n / 1000 % 10) as u8,
        (n / 100 % 10) as u8,
        (n / 10 % 10) as u8,
        (n % 10) as u8,
    ]
}

/// The bytes that spell the digits of a prefix.
pub open spec fn digit_bytes(p: Seq<u8>) -> Seq<u8> {
    p.map_values(|d: u8| (d + 48) as u8)
}

/// In `table`, the first `k` digits of the zip code `z` have a chunk.
pub open spec fn covered(table: Seq<Option<String>>, z: Seq<u8>, k: int) -> bool {
    0 <= k <= ZIP_CODE_LENGTH && entry(table, z.subrange(0, k)) is Some
}

/// Classifies Zip codes into geochunks based on 2010 census population data.
pub struct Classifier {
    /// The approximate number of people we want to put in each chunk.
    target_population: u64,
    /// For each zip code prefix, at its place in the table, the name of its
    /// chunk, if it has one.
    chunk_id_for_prefix: Vec<Option<String>>,
}

impl Classifier {
    /// The approximate number of people in each chunk.
    pub closed spec fn target(self) -> u64 {
        self.target_population
    }

    /// The name of the chunk of the prefix `p`, if it has one.
    pub closed spec fn chunk_id(self, p: Seq<u8>) -> Option<Seq<char>> {
        entry(self.chunk_id_for_prefix@, p)
    }

    /// The first `k` digits of the zip code `z` have a chunk.
    pub closed spec fn named_at(self, z: Seq<u8>, k: int) -> bool {
        covered(self.chunk_id_for_prefix@, z, k)
    }

    /// What `named_at` says.
    pub proof fn lemma_named_at(self, z: Seq<u8>, k: int)
        ensures
            self.named_at(z, k) <==> (0 <= k <= ZIP_CODE_LENGTH && self.chunk_id(z.subrange(0, k)) is Some),
    {
    }

    /// Every zip code of five digits starts with a prefix that has a chunk.
    #[verifier::type_invariant]
    pub closed spec fn wf(self) -> bool {
        &&& self.chunk_id_for_prefix.len() == PREFIX_COUNT
        &&& forall|z: Seq<u8>| #[trigger]
            is_zip(z) ==> exists|k: int| #[trigger] covered(self.chunk_id_for_prefix@, z, k)
    }

    /// What `wf` says, for those who cannot see inside the type.
    pub proof fn lemma_wf(self, z: Seq<u8>)
        requires
            self.wf(),
            is_zip(z),
        ensures
            exists|k: int| #[trigger] self.named_at(z, k),
    {
        let k = choose|k: int| #[trigger] covered(self.chunk_id_for_prefix@, z, k);
        assert(self.named_at(z, k));
    }

    /// Create a new classifier, specifying how many people we'd ideally
    /// want to see in each chunk, and how many people live under each zip
    /// code prefix.
    pub fn new(target_population: u64, population: &PrefixPopulation) -> (out: Classifier)
        ensures
            out.wf(),
            out.target() == target_population,
            forall|p: Seq<u8>|
                is_prefix(p) ==> #[trigger] out.chunk_id(p) == population.chunk_text(
                    target_population,
                    Seq::empty(),
                    p,
                ),
    {
        let mut chunk_id_for_prefix: Vec<Option<String>> = Vec::new();
        let mut c: usize = 0;
        while c < PREFIX_COUNT
            invariant
                c <= PREFIX_COUNT,
                chunk_id_for_prefix.len() == c,
                forall|i: int| 0 <= i < c ==> #[trigger] chunk_id_for_prefix[i] is None,
            decreases PREFIX_COUNT - c,
        {
            chunk_id_for_prefix.push(None);
            c += 1;
        }
        let ghost blank = chunk_id_for_prefix@;
        let ghost root = Seq::<u8>::empty();
        assert(is_prefix(root));
        proof {
            crate::text::lemma_empty_text();
        }
        population.fill(target_population, "", 0, 0, Ghost(root), &mut chunk_id_for_prefix);
        assert forall|p: Seq<u8>| is_prefix(p) implies #[trigger] entry(chunk_id_for_prefix@, p)
            == population.chunk_text(target_population, root, p) by {
            lemma_code_bounds(p);
            assert(entry(blank, p) is None);
        }
        assert forall|z: Seq<u8>| #[trigger] is_zip(z) implies exists|k: int| #[trigger]
            covered(chunk_id_for_prefix@, z, k) by {
            assert(z.subrange(0, 0) =~= root);
            let k = population.lemma_descent(target_population, z, 0);
            let found = z.subrange(0, k);
            assert(is_prefix(found)) by {
                assert forall|i: int| 0 <= i < found.len() implies #[trigger] found[i] < 10 by {
                    assert(found[i] == z[i]);
                }
            }
            assert(covered(chunk_id_for_prefix@, z, k));
        }
        let out = Classifier { target_population, chunk_id_for_prefix };
        assert forall|p: Seq<u8>| is_prefix(p) implies #[trigger] out.chunk_id(p)
            == population.chunk_text(target_population, Seq::empty(), p) by {
            assert(out.chunk_id(p) == entry(out.chunk_id_for_prefix@, p));
        }
        out
    }

    /// Return the column name to use for the geochunk column.  This encodes
    /// the parameters we used to configure the geochunks, to help prevent
    /// messing them up in the real world.
    pub fn geochunk_column_name(&self) -> (name: String)
        ensures
            name@ == "geochunk_zip2010_"@ + decimal_text(self.target() as nat),
    {
        let mut name = "geochunk_zip2010_".to_owned();
        name.append(decimal(self.target_population).as_str());
        name
    }

    /// The chunk of the longest prefix, of `k` digits at most, that the
    /// bytes `zip` start with and that has a chunk.
    pub open spec fn longest_chunk(self, zip: Seq<u8>, k: int) -> Option<Seq<char>>
        decreases k,
    {
        if k < 0 {
            None
        } else if leads_with_digits(zip, k) && self.chunk_id(leading_digits(zip, k)) is Some {
            self.chunk_id(leading_digits(zip, k))
        } else if k == 0 {
            None
        } else {
            self.longest_chunk(zip, k - 1)
        }
    }

    /// The chunk of a zip code, given as its bytes.  A zip code of fewer
    /// than five bytes has none.  Any other has the chunk of the longest
    /// prefix, of five digits at most, that it starts with and that has a
    /// chunk.
    pub open spec fn chunk_of(self, zip: Seq<u8>) -> Option<Seq<char>> {
        if zip.len() < ZIP_CODE_LENGTH {
            None
        } else {
            self.longest_chunk(zip, ZIP_CODE_LENGTH as int)
        }
    }

    /// A prefix with a chunk gives a chunk to everything that starts
    /// with it.
    proof fn lemma_longest_found(self, zip: Seq<u8>, k: int, top: int)
        requires
            0 <= k <= top,
            leads_with_digits(zip, k),
            self.chunk_id(leading_digits(zip, k)) is Some,
        ensures
            self.longest_chunk(zip, top) is Some,
        decreases top - k,
    {
        if k < top {
            self.lemma_longest_found(zip, k, top - 1);
        }
    }

    /// Every zip code that starts with five digits has a chunk.
    pub proof fn lemma_every_zip_has_a_chunk(self, zip: Seq<u8>)
        requires
            self.wf(),
            leads_with_digits(zip, ZIP_CODE_LENGTH as int),
        ensures
            self.chunk_of(zip) is Some,
    {
        let z = leading_digits(zip, ZIP_CODE_LENGTH as int);
        assert(is_zip(z));
        self.lemma_wf(z);
        let k = choose|k: int| #[trigger] self.named_at(z, k);
        self.lemma_named_at(z, k);
        assert(z.subrange(0, k) =~= leading_digits(zip, k));
        self.lemma_longest_found(zip, k, ZIP_CODE_LENGTH as int);
    }

    /// Given a zip code as bytes, five of them at least, finds its chunk.
    fn find(&self, zip: &[u8]) -> (r: Option<&str>)
        requires
            zip.len() >= ZIP_CODE_LENGTH,
        ensures
            match r {
                Some(id) => self.chunk_of(zip@) == Some(id@),
                None => self.chunk_of(zip@) is None,
            },
    {
        proof {
            use_type_invariant(self);
        }
        // Look for increasingly shorter prefixes in our table.
        let mut i_rev: usize = 0;
        while i_rev < ZIP_CODE_LENGTH + 1
            invariant
                i_rev <= ZIP_CODE_LENGTH + 1,
                zip.len() >= ZIP_CODE_LENGTH,
                self.wf(),
                self.chunk_of(zip@) == self.longest_chunk(zip@, ZIP_CODE_LENGTH - i_rev),
            decreases ZIP_CODE_LENGTH + 1 - i_rev,
        {
            let i = ZIP_CODE_LENGTH - i_rev;
            match place_of(zip, i) {
                Some(place) => {
                    match &self.chunk_id_for_prefix[place] {
                        Some(chunk_id) => {
                            return Some(chunk_id.as_str());
                        },
                        None => {},
                    }
                },
                None => {},
            }
            i_rev += 1;
        }
        None
    }

    /// Given a zip code, return the geochunk identifier.  Returns `None` if
    /// the zip code is invalid.  A zip code that starts with five digits is
    /// never invalid.
    pub fn chunk_for(&self, zip: &str) -> (r: Option<&str>)
        ensures
            match r {
                Some(id) => self.chunk_of(zip.spec_bytes()) == Some(id@),
                None => self.chunk_of(zip.spec_bytes()) is None,
            },
            leads_with_digits(zip.spec_bytes(), ZIP_CODE_LENGTH as int) ==> r is Some,
    {
        proof {
            use_type_invariant(self);
            if leads_with_digits(zip.spec_bytes(), ZIP_CODE_LENGTH as int) {
                self.lemma_every_zip_has_a_chunk(zip.spec_bytes());
            }
        }
        let bytes = zip.as_bytes();
        if bytes.len() < ZIP_CODE_LENGTH {
            // We may see empty zip codes (which is how CSV typically
            // represents a null field), or we may see corrupt or invalid zip
            // codes. We map all of these to the null geochunk.
            return None;
        }
        self.find(bytes)
    }

    /// The field that a row gets for its zip code: its geochunk, or nothing
    /// where it has none.
    pub fn chunk_field(&self, zip: &str) -> (field: String)
        ensures
            field@ == (match self.chunk_of(zip.spec_bytes()) {
                Some(id) => id,
                None => Seq::empty(),
            }),
    {
        match self.chunk_for(zip) {
            Some(id) => id.to_owned(),
            None => String::new(),
        }
    }

    /// One row of the exported mapping: the zip code with the number
    /// `zip_int`, written with five digits, and its geochunk.
    pub fn export_row(&self, zip_int: u32) -> (row: (String, String))
        requires
            zip_int < 100000,
        ensures
            row.0@ == prefix_text(zip_digits(zip_int as int)),
            self.chunk_of(digit_bytes(zip_digits(zip_int as int))) == Some(row.1@),
    {
        proof {
            use_type_invariant(self);
        }
        let mut digits: Vec<u8> = Vec::new();
        digits.push((zip_int / 10000 % 10) as u8);
        digits.push((zip_int / 1000 % 10) as u8);
        digits.push((zip_int / 100 % 10) as u8);
        digits.push((zip_int / 10 % 10) as u8);
        digits.push((zip_int % 10) as u8);
        assert(digits@ =~= zip_digits(zip_int as int));
        let mut bytes: Vec<u8> = Vec::new();
        let mut zip = String::new();
        let mut i: usize = 0;
        while i < 5
            invariant
                i <= 5,
                digits.len() == 5,
                forall|j: int| 0 <= j < 5 ==> #[trigger] digits[j] < 10,
                bytes@ == digit_bytes(digits@.subrange(0, i as int)),
                zip@ == prefix_text(digits@.subrange(0, i as int)),
            decreases 5 - i,
        {
            let ghost upto = digits@.subrange(0, i + 1);
            assert(upto.drop_last() =~= digits@.subrange(0, i as int));
            bytes.push(digits[i] + 48);
            zip.append(digit(digits[i] as u64));
            assert(bytes@ =~= digit_bytes(upto));
            i += 1;
        }
        assert(digits@.subrange(0, 5) =~= digits@);
        assert(leads_with_digits(bytes@, ZIP_CODE_LENGTH as int));
        proof {
            self.lemma_every_zip_has_a_chunk(bytes@);
        }
        let chunk = match self.find(bytes.as_slice()) {
            Some(id) => id.to_owned(),
            None => String::new(),
        };
        (zip, chunk)
    }

    /// The header of the exported mapping.
    pub fn export_header(&self) -> (row: (String, String))
        ensures
            row.0@ == "zip"@,
            row.1@ == "geochunk_zip2010_"@ + decimal_text(self.target() as nat),
    {
        ("zip".to_owned(), self.geochunk_column_name())
    }

    /// Export this mapping as a table: a header, then every zip code from
    /// 00000 to 99999 with its geochunk.
    pub fn export(&self) -> (rows: Vec<(String, String)>)
        ensures
            rows.len() == 100001,
            rows[0].0@ == "zip"@,
            rows[0].1@ == "geochunk_zip2010_"@ + decimal_text(self.target() as nat),
            forall|z: int|
                0 <= z < 100000 ==> (#[trigger] rows[z + 1]).0@ == prefix_text(zip_digits(z))
                    && self.chunk_of(digit_bytes(zip_digits(z))) == Some(rows[z + 1].1@),
    {
        let mut rows: Vec<(String, String)> = Vec::new();
        rows.push(self.export_header());
        let mut zip_int: u32 = 0;
        while zip_int < 100000
            invariant
                zip_int <= 100000,
                rows.len() == zip_int + 1,
                rows[0].0@ == "zip"@,
                rows[0].1@ == "geochunk_zip2010_"@ + decimal_text(self.target() as nat),
                forall|z: int|
                    0 <= z < zip_int ==> (#[trigger] rows[z + 1]).0@ == prefix_text(zip_digits(z))
                        && self.chunk_of(digit_bytes(zip_digits(z))) == Some(rows[z + 1].1@),
            decreases 100000 - zip_int,
        {
            let row = self.export_row(zip_int);
            rows.push(row);
            zip_int += 1;
        }
        rows
    }

    /// Finds the zip code column in the header of a table, and adds the
    /// geochunk column to the header.
    pub fn transform_headers(&self, input_column: &str, headers: &Vec<String>) -> (r: Result<
        (usize, Vec<String>),
        Error,
    >)
        ensures
            match r {
                Ok((zip_col_idx, out)) => {
                    &&& zip_col_idx < headers.len()
                    &&& headers[zip_col_idx as int]@ == input_column@
                    &&& forall|j: int| 0 <= j < zip_col_idx ==> (#[trigger] headers[j])@ != input_column@
                    &&& texts(out@) == texts(headers@).push(
                        "geochunk_zip2010_"@ + decimal_text(self.target() as nat),
                    )
                },
                Err(e) => !texts(headers@).contains(input_column@) && e.is_no_such_column(
                    input_column@,
                ),
            },
    {
        // Look up the header index for our zip code column.
        let zip_col_idx = match position_of(headers, input_column) {
            Some(idx) => idx,
            None => {
                return Err(Error::no_such_column(input_column));
            },
        };
        // Add our output column.
        let mut out = copy_texts(headers);
        let ghost before = texts(out@);
        let name = self.geochunk_column_name();
        out.push(name);
        assert(texts(out@) =~= before.push(name@));
        Ok((zip_col_idx, out))
    }
}

} // verus!