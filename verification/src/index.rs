//! The lookup index over a snapshot of contacts: buckets by name and by
//! e-mail domain, exact lookups, and search by edit distance.

use vstd::prelude::*;
use vstd::string::*;
use vstd::arithmetic::div_mod::{
    lemma_div_pos_is_pos, lemma_fundamental_div_mod, lemma_fundamental_div_mod_converse,
    lemma_mod_bound,
};
use crate::buckets::{bucket, grouped, rekeyed, renumbered, with_position, BucketMap};
use crate::contact::{views, Contact, ContactView};
use crate::distance::{edit_distance, lemma_distance_zero, levenshtein};
use crate::positions::{
    lemma_positions_beyond, lemma_positions_prefix, lemma_positions_split, lemma_true_positions,
    positions_between, true_positions,
};
use crate::outside::{lowercase, to_lowercase};
use crate::text::{domain_of, domain_part, texts};

verus! {

/// The key under which a contact stands in the name index.
pub open spec fn name_key(c: ContactView) -> Seq<char> {
    lowercase(c.name)
}

/// The key under which a contact stands in the domain index.
pub open spec fn domain_key(c: ContactView) -> Seq<char> {
    lowercase(domain_part(c.email))
}

/// The name key of each contact.
pub open spec fn name_keys(cs: Seq<ContactView>) -> Seq<Seq<char>> {
    Seq::new(cs.len(), |i: int| name_key(cs[i]))
}

/// The domain key of each contact.
pub open spec fn domain_keys(cs: Seq<ContactView>) -> Seq<Seq<char>> {
    Seq::new(cs.len(), |i: int| domain_key(cs[i]))
}

/// The two bucket maps of an index.
pub struct IndexView {
    pub names: Map<Seq<char>, Seq<usize>>,
    pub domains: Map<Seq<char>, Seq<usize>>,
}

/// The index of a snapshot: each name key and each domain key with the
/// positions that carry it, in ascending order.
pub open spec fn index_of(cs: Seq<ContactView>) -> IndexView {
    IndexView { names: grouped(name_keys(cs)), domains: grouped(domain_keys(cs)) }
}

/// How many edits lie between the lowercase query and the lowercase name
/// of the contact.
pub open spec fn name_distance(query: Seq<char>, c: ContactView) -> nat {
    edit_distance(lowercase(query), lowercase(c.name))
}

/// How many edits lie between the query, as it was given, and the lowercase
/// address of the contact.
pub open spec fn email_distance(query: Seq<char>, c: ContactView) -> nat {
    edit_distance(query, lowercase(c.email))
}

/// Whether the name or the address of the contact is fewer than `max_edits`
/// edits away from the query.
pub open spec fn nearer_than(query: Seq<char>, c: ContactView, max_edits: nat) -> bool {
    name_distance(query, c) < max_edits || email_distance(query, c) < max_edits
}

/// Whether the name or the address of the contact is at most `max_edits`
/// edits away from the query.
pub open spec fn within(query: Seq<char>, c: ContactView, max_edits: nat) -> bool {
    name_distance(query, c) <= max_edits || email_distance(query, c) <= max_edits
}

/// Whether the contact is an exact match of the query, letter case aside:
/// the lowercase query is its lowercase name, or the query is its lowercase
/// address.
pub open spec fn exact(query: Seq<char>, c: ContactView) -> bool {
    lowercase(query) == lowercase(c.name) || query == lowercase(c.email)
}

/// For each contact, whether it is a match of the query: within the bound
/// where `inclusive`, below it where not.
pub open spec fn match_flags(
    query: Seq<char>,
    cs: Seq<ContactView>,
    max_edits: nat,
    inclusive: bool,
) -> Seq<bool> {
    Seq::new(
        cs.len(),
        |i: int|
            if inclusive {
                within(query, cs[i], max_edits)
            } else {
                nearer_than(query, cs[i], max_edits)
            },
    )
}

/// What the sequential search returns: the positions of the contacts that
/// are fewer than `max_edits` edits away from the query, in ascending
/// order.
pub open spec fn fuzzy_matches(query: Seq<char>, cs: Seq<ContactView>, max_edits: nat) -> Seq<usize> {
    true_positions(match_flags(query, cs, max_edits, false))
}

/// What the chunked search returns: the positions of the contacts that are
/// at most `max_edits` edits away from the query, in ascending order.
pub open spec fn fuzzy_matches_inclusive(
    query: Seq<char>,
    cs: Seq<ContactView>,
    max_edits: nat,
) -> Seq<usize> {
    true_positions(match_flags(query, cs, max_edits, true))
}

/// `a` divided by `b`, rounded up.
pub open spec fn ceil_div(a: nat, b: nat) -> nat {
    if b == 0 {
        0
    } else {
        ((a + b - 1) / b as int) as nat
    }
}

/// The number of workers of a search that names none.
pub const WORKERS: usize = 4;

/// The length of a chunk for `len` contacts and a number of workers: `len`
/// divided by that number, rounded up, and divided by it and rounded up
/// once more. With no worker the whole snapshot is one chunk.
pub open spec fn chunk_length(len: nat, worker_count: nat) -> nat {
    if worker_count == 0 {
        len
    } else {
        ceil_div(ceil_div(len, worker_count), worker_count)
    }
}

/// The sequential search with a bound of `max_edits + 1` and the chunked
/// search with a bound of `max_edits` find the same positions; with one and
/// the same bound, whatever the sequential search finds the chunked search
/// finds too.
pub proof fn lemma_search_equivalence(query: Seq<char>, cs: Seq<ContactView>, max_edits: nat)
    requires
        cs.len() <= usize::MAX,
    ensures
        fuzzy_matches(query, cs, max_edits + 1) == fuzzy_matches_inclusive(query, cs, max_edits),
        forall|p: usize|
            fuzzy_matches(query, cs, max_edits).contains(p) ==> fuzzy_matches_inclusive(
                query,
                cs,
                max_edits,
            ).contains(p),
{
    assert(match_flags(query, cs, max_edits + 1, false) =~= match_flags(
        query,
        cs,
        max_edits,
        true,
    ));
    let strict = match_flags(query, cs, max_edits, false);
    let loose = match_flags(query, cs, max_edits, true);
    lemma_true_positions(strict);
    lemma_true_positions(loose);
    assert forall|p: usize| true_positions(strict).contains(p) implies true_positions(
        loose,
    ).contains(p) by {
        let j = choose|j: int| 0 <= j < true_positions(strict).len() && true_positions(strict)[j] == p;
        assert(strict[true_positions(strict)[j] as int]);
        assert(loose[p as int]);
    }
}

/// With a bound of zero the sequential search finds nothing; with a bound
/// of one it finds exactly the contacts that are exact matches of the
/// query, letter case aside, and so does the chunked search with a bound of
/// zero.
pub proof fn lemma_exact_matches_only(query: Seq<char>, cs: Seq<ContactView>)
    requires
        cs.len() <= usize::MAX,
    ensures
        fuzzy_matches(query, cs, 0) == Seq::<usize>::empty(),
        forall|p: int|
            0 <= p < cs.len() ==> (fuzzy_matches(query, cs, 1).contains(p as usize) <==> exact(
                query,
                #[trigger] cs[p],
            )),
        forall|j: int|
            0 <= j < fuzzy_matches(query, cs, 1).len() ==> (#[trigger] fuzzy_matches(query, cs, 1)[j])
                < cs.len() && exact(query, cs[fuzzy_matches(query, cs, 1)[j] as int]),
        fuzzy_matches_inclusive(query, cs, 0) == fuzzy_matches(query, cs, 1),
{
    let none = match_flags(query, cs, 0, false);
    lemma_true_positions(none);
    if true_positions(none).len() > 0 {
        assert(none[true_positions(none)[0] as int]);
    }
    assert(true_positions(none) =~= Seq::<usize>::empty());
    let one = match_flags(query, cs, 1, false);
    lemma_true_positions(one);
    lemma_search_equivalence(query, cs, 0);
    assert forall|p: int| 0 <= p < cs.len() implies (true_positions(one).contains(p as usize)
        <==> exact(query, #[trigger] cs[p])) by {
        lemma_distance_zero(lowercase(query), lowercase(cs[p].name));
        lemma_distance_zero(query, lowercase(cs[p].email));
        if true_positions(one).contains(p as usize) {
            let j = choose|j: int|
                0 <= j < true_positions(one).len() && true_positions(one)[j] == p as usize;
            assert(one[true_positions(one)[j] as int]);
        }
        if exact(query, cs[p]) {
            assert(one[p]);
        }
    }
    assert forall|j: int| 0 <= j < true_positions(one).len() implies (#[trigger] true_positions(
        one,
    )[j]) < cs.len() && exact(query, cs[true_positions(one)[j] as int]) by {
        let p = true_positions(one)[j] as int;
        assert(one[p]);
        lemma_distance_zero(lowercase(query), lowercase(cs[p].name));
        lemma_distance_zero(query, lowercase(cs[p].email));
    }
}

/// The key of a contact in the name index.
pub fn name_key_of(c: &Contact) -> (r: String)
    ensures
        r@ == name_key(c@),
{
    to_lowercase(c.name.as_str())
}

/// The key of a contact in the domain index.
pub fn domain_key_of(c: &Contact) -> (r: String)
    ensures
        r@ == domain_key(c@),
{
    let d = domain_of(c.email.as_str());
    to_lowercase(d.as_str())
}

/// The name key of each contact of a list.
pub fn name_keys_of(contacts: &[Contact]) -> (r: Vec<String>)
    ensures
        texts(r@) == name_keys(views(contacts@)),
{
    let mut keys: Vec<String> = Vec::new();
    let n = contacts.len();
    let mut i: usize = 0;
    while i < n
        invariant
            n == contacts@.len(),
            i <= n,
            keys@.len() == i,
            forall|j: int| 0 <= j < i ==> keys@[j]@ == name_key(contacts@[j]@),
        decreases n - i,
    {
        keys.push(name_key_of(&contacts[i]));
        i += 1;
    }
    assert(texts(keys@) =~= name_keys(views(contacts@)));
    keys
}

/// The domain key of each contact of a list.
pub fn domain_keys_of(contacts: &[Contact]) -> (r: Vec<String>)
    ensures
        texts(r@) == domain_keys(views(contacts@)),
{
    let mut keys: Vec<String> = Vec::new();
    let n = contacts.len();
    let mut i: usize = 0;
    while i < n
        invariant
            n == contacts@.len(),
            i <= n,
            keys@.len() == i,
            forall|j: int| 0 <= j < i ==> keys@[j]@ == domain_key(contacts@[j]@),
        decreases n - i,
    {
        keys.push(domain_key_of(&contacts[i]));
        i += 1;
    }
    assert(texts(keys@) =~= domain_keys(views(contacts@)));
    keys
}

/// `a` divided by `b`, rounded up.
fn divide_up(a: usize, b: usize) -> (r: usize)
    requires
        b > 0,
    ensures
        r == ceil_div(a as nat, b as nat),
        a > 0 ==> r > 0,
{
    let whole = a / b;
    proof {
        lemma_divide_up(a as int, b as int);
    }
    if a % b == 0 {
        whole
    } else {
        whole + 1
    }
}

/// The positions from `start` up to `end` of the contacts that match the
/// query.
fn scan(
    query: &str,
    contacts: &[Contact],
    start: usize,
    end: usize,
    max_edits: usize,
    inclusive: bool,
) -> (r: Vec<usize>)
    ensures
        r@ == positions_between(
            match_flags(query@, views(contacts@), max_edits as nat, inclusive),
            start as int,
            end as int,
        ),
{
    let ghost flags = match_flags(query@, views(contacts@), max_edits as nat, inclusive);
    let query_key = to_lowercase(query);
    let n = contacts.len();
    let stop = if end < n {
        end
    } else {
        n
    };
    let mut out: Vec<usize> = Vec::new();
    if stop <= start {
        proof {
            if end > start {
                lemma_positions_split(flags, start as int, start as int, end as int);
                lemma_positions_beyond(flags, start as int, end as int);
                assert(positions_between(flags, start as int, n as int) =~= Seq::<usize>::empty());
            }
        }
        return out;
    }
    let mut i: usize = start;
    while i < stop
        invariant
            n == contacts@.len(),
            start <= i <= stop <= n,
            query_key@ == lowercase(query@),
            flags == match_flags(query@, views(contacts@), max_edits as nat, inclusive),
            out@ == positions_between(flags, start as int, i as int),
        decreases stop - i,
    {
        let c = &contacts[i];
        let name = to_lowercase(c.name.as_str());
        let email = to_lowercase(c.email.as_str());
        let by_name = levenshtein(query_key.as_str(), name.as_str());
        let by_email = levenshtein(query, email.as_str());
        let hit = if inclusive {
            by_name <= max_edits || by_email <= max_edits
        } else {
            by_name < max_edits || by_email < max_edits
        };
        assert(hit == flags[i as int]);
        if hit {
            out.push(i);
        }
        i += 1;
    }
    proof {
        if end > n {
            lemma_positions_beyond(flags, start as int, end as int);
        }
    }
    out
}

/// The lookup index of a snapshot of contacts. It is built once and never
/// changed, so it describes the snapshot it was built from.
pub struct ContactsIndex {
    names: BucketMap,
    domains: BucketMap,
}

impl View for ContactsIndex {
    type V = IndexView;

    closed spec fn view(&self) -> IndexView {
        IndexView { names: self.names@, domains: self.domains@ }
    }
}

impl ContactsIndex {
    /// The index of a snapshot: position `i` stands under the lowercase
    /// name of contact `i` and under the lowercase domain of its address.
    pub fn build(contacts: &[Contact]) -> (r: ContactsIndex)
        ensures
            r@ == index_of(views(contacts@)),
    {
        let name_keys = name_keys_of(contacts);
        let domain_keys = domain_keys_of(contacts);
        ContactsIndex { names: BucketMap::build(&name_keys), domains: BucketMap::build(&domain_keys) }
    }

    /// Enters position `p` under the keys of the contact that now stands
    /// there.
    pub(crate) fn enter(&mut self, c: &Contact, p: usize)
        ensures
            final(self)@ == (IndexView {
                names: with_position(old(self)@.names, name_key(c@), p),
                domains: with_position(old(self)@.domains, domain_key(c@), p),
            }),
    {
        self.names.insert_position(name_key_of(c), p);
        self.domains.insert_position(domain_key_of(c), p);
    }

    /// Renumbers both bucket maps after the contact at `removed` left.
    pub(crate) fn renumber(&mut self, removed: usize)
        ensures
            final(self)@ == (IndexView {
                names: renumbered(old(self)@.names, removed),
                domains: renumbered(old(self)@.domains, removed),
            }),
    {
        self.names.renumber(removed);
        self.domains.renumber(removed);
    }

    /// Moves position `p` to the buckets of the contact that replaces the
    /// one that stood there, where a key differs.
    pub(crate) fn rekey(&mut self, p: usize, before: &Contact, after: &Contact)
        ensures
            final(self)@ == (IndexView {
                names: rekeyed(old(self)@.names, p, name_key(before@), name_key(after@)),
                domains: rekeyed(old(self)@.domains, p, domain_key(before@), domain_key(after@)),
            }),
    {
        let old_name = name_key_of(before);
        let new_name = name_key_of(after);
        if !(old_name == new_name) {
            self.names.move_position(p, old_name.as_str(), new_name);
        }
        let old_domain = domain_key_of(before);
        let new_domain = domain_key_of(after);
        if !(old_domain == new_domain) {
            self.domains.move_position(p, old_domain.as_str(), new_domain);
        }
    }

    /// The positions that stand under a name, letter case aside.
    pub fn lookup_name(&self, name: &str) -> (r: Vec<usize>)
        ensures
            r@ == bucket(self@.names, lowercase(name@)),
    {
        let key = to_lowercase(name);
        self.names.lookup(key.as_str())
    }

    /// The positions that stand under a domain, letter case aside.
    pub fn lookup_domain(&self, domain: &str) -> (r: Vec<usize>)
        ensures
            r@ == bucket(self@.domains, lowercase(domain@)),
    {
        let key = to_lowercase(domain);
        self.domains.lookup(key.as_str())
    }

    /// The positions, in ascending order, of the contacts that are fewer
    /// than `max_edits` edits away from the query: the lowercase query is
    /// held against the lowercase name, and the query as it was given
    /// against the lowercase address.
    pub fn fuzzy_search(&self, query: &str, contacts: &[Contact], max_edits: usize) -> (r: Vec<usize>)
        ensures
            r@ == fuzzy_matches(query@, views(contacts@), max_edits as nat),
    {
        let r = scan(query, contacts, 0, contacts.len(), max_edits, false);
        proof {
            let flags = match_flags(query@, views(contacts@), max_edits as nat, false);
            lemma_positions_prefix(flags, flags.len() as int);
            assert(flags.take(flags.len() as int) =~= flags);
        }
        r
    }

    /// The length of the chunks into which `len` contacts are cut for a
    /// number of workers.
    pub fn chunk_len(len: usize, worker_count: usize) -> (r: usize)
        ensures
            r == chunk_length(len as nat, worker_count as nat),
            len > 0 ==> r > 0,
    {
        if worker_count == 0 {
            len
        } else {
            divide_up(divide_up(len, worker_count), worker_count)
        }
    }

    /// The positions from `start` up to, not including, `end` of the
    /// contacts that are at most `max_edits` edits away from the query, in
    /// ascending order. This is the work of one worker on one chunk.
    pub fn scan_chunk(
        query: &str,
        contacts: &[Contact],
        start: usize,
        end: usize,
        max_edits: usize,
    ) -> (r: Vec<usize>)
        ensures
            r@ == positions_between(
                match_flags(query@, views(contacts@), max_edits as nat, true),
                start as int,
                end as int,
            ),
    {
        scan(query, contacts, start, end, max_edits, true)
    }

    /// The positions of the contacts that are at most `max_edits` edits
    /// away from the query, found chunk by chunk.
    ///
    /// The snapshot is cut into chunks of [`ContactsIndex::chunk_len`]
    /// contacts, each chunk is scanned by [`ContactsIndex::scan_chunk`], and
    /// what the scans find is gathered in one list. Here the chunks are
    /// scanned one after the other, so the list is in ascending order; a
    /// caller that gives each chunk to a worker of its own gathers the same
    /// positions in the order in which the workers finish.
    pub fn fuzzy_search_with_workers(
        &self,
        query: &str,
        contacts: &[Contact],
        worker_count: usize,
        max_edits: usize,
    ) -> (r: Vec<usize>)
        ensures
            r@ == fuzzy_matches_inclusive(query@, views(contacts@), max_edits as nat),
    {
        let n = contacts.len();
        let chunk = ContactsIndex::chunk_len(n, worker_count);
        let ghost flags = match_flags(query@, views(contacts@), max_edits as nat, true);
        let mut results: Vec<usize> = Vec::new();
        let mut start: usize = 0;
        while start < n
            invariant
                n == contacts@.len(),
                n > 0 ==> chunk > 0,
                start <= n,
                flags == match_flags(query@, views(contacts@), max_edits as nat, true),
                results@ == positions_between(flags, 0, start as int),
            decreases n - start,
        {
            let end = if n - start <= chunk {
                n
            } else {
                start + chunk
            };
            let mut found = ContactsIndex::scan_chunk(query, contacts, start, end, max_edits);
            proof {
                lemma_positions_split(flags, 0, start as int, end as int);
            }
            results.append(&mut found);
            start = end;
        }
        proof {
            lemma_positions_prefix(flags, flags.len() as int);
            assert(flags.take(flags.len() as int) =~= flags);
        }
        results
    }

    /// The positions of the contacts that are at most `max_edits` edits
    /// away from the query, found chunk by chunk with chunks cut for
    /// [`WORKERS`] workers: see [`ContactsIndex::fuzzy_search_with_workers`].
    pub fn fuzzy_search_concurrency(
        &self,
        query: &str,
        contacts: &[Contact],
        max_edits: usize,
    ) -> (r: Vec<usize>)
        ensures
            r@ == fuzzy_matches_inclusive(query@, views(contacts@), max_edits as nat),
    {
        self.fuzzy_search_with_workers(query, contacts, WORKERS, max_edits)
    }
}

/// Dividing and rounding up adds one to the quotient where the division
/// leaves a remainder.
proof fn lemma_divide_up(a: int, b: int)
    requires
        0 <= a,
        0 < b,
    ensures
        a % b == 0 ==> (a + b - 1) / b == a / b,
        a % b != 0 ==> (a + b - 1) / b == a / b + 1 && a / b < a,
        a > 0 ==> (a + b - 1) / b > 0,
{
    let q = a / b;
    let r = a % b;
    lemma_fundamental_div_mod(a, b);
    lemma_mod_bound(a, b);
    lemma_div_pos_is_pos(a, b);
    if r == 0 {
        assert(a + b - 1 == q * b + (b - 1)) by (nonlinear_arith)
            requires
                a == b * q + r,
                r == 0,
        ;
        lemma_fundamental_div_mod_converse(a + b - 1, b, q, b - 1);
        if a > 0 {
            assert(q > 0) by (nonlinear_arith)
                requires
                    a == b * q + r,
                    r == 0,
                    a > 0,
                    b > 0,
                    q >= 0,
            ;
        }
    } else {
        assert(a + b - 1 == (q + 1) * b + (r - 1)) by (nonlinear_arith)
            requires
                a == b * q + r,
        ;
        lemma_fundamental_div_mod_converse(a + b - 1, b, q + 1, r - 1);
        assert(q < a) by (nonlinear_arith)
            requires
                a == b * q + r,
                r > 0,
                b > 0,
                q >= 0,
        ;
    }
}

} // verus!
