//! The chunk store: how chunk files are named, and what a listing of the
//! staging directory says about the chunks that have arrived.
//!
//! A chunk file is called `{index}_{hash}`: the index in decimal, an
//! underscore, and the SHA-256 digest of the chunk's bytes in hex.

use crate::codec::{hex_digit, hex_encode, hex_encoded, sha256, sha256_digest};
use crate::number::{
    decimal, format_index, is_digit, lemma_decimal_round_trip, parse_usize, parse_usize_in,
};
use crate::safe_path::{is_component, lemma_plain_name_is_component, views_of};
use crate::text::{chars_of, first_index_of, lemma_first_index_is};
use crate::validate::{is_plain, is_plain_char, lemma_plain_name_valid, name_valid};
use vstd::prelude::*;
use vstd::string::StringExecFns;

verus! {

/// The content hash of a chunk: its SHA-256 digest in hex.
pub open spec fn content_hash(bytes: Seq<u8>) -> Seq<char> {
    hex_encoded(sha256(bytes))
}

/// The name of the file that holds the chunk `index` with the hash `hash`.
pub open spec fn chunk_name(index: nat, hash: Seq<char>) -> Seq<char> {
    decimal(index).push('_') + hash
}

/// The index that a file name of the staging directory gives: the number
/// before its first underscore. `None` for a name without an underscore or
/// without a number before it.
pub open spec fn chunk_index(name: Seq<char>) -> Option<usize> {
    let at = first_index_of(name, '_');
    if at < name.len() {
        parse_usize(name.take(at))
    } else {
        None
    }
}

/// The last name of `names` that gives the index `index`.
pub open spec fn latest_chunk(names: Seq<Seq<char>>, index: usize) -> Option<Seq<char>>
    decreases names.len(),
{
    if names.len() == 0 {
        None
    } else if chunk_index(names.last()) == Some(index) {
        Some(names.last())
    } else {
        latest_chunk(names.drop_last(), index)
    }
}

/// The chunks that the listing `names` shows, by index: for each index below
/// `total` that some name gives, the last such name.
pub open spec fn enumerated(names: Seq<Seq<char>>, total: usize) -> Map<int, Seq<char>> {
    Map::new(
        |i: int| 0 <= i < total && latest_chunk(names, i as usize) is Some,
        |i: int| latest_chunk(names, i as usize)->0,
    )
}

/// Is there a chunk for every index below `total`?
pub open spec fn all_present(chunks: Map<int, Seq<char>>, total: usize) -> bool {
    forall|i: int| 0 <= i < total ==> chunks.dom().contains(i)
}

/// The names of the chunks `0..total`, in that order.
pub open spec fn in_index_order(chunks: Map<int, Seq<char>>, total: usize) -> Seq<Seq<char>> {
    Seq::new(total as nat, |i: int| chunks[i])
}

/// Hex text is made of digits and of the letters `a` to `f`.
pub(crate) proof fn lemma_hex_is_plain(data: Seq<u8>)
    ensures
        hex_encoded(data).len() == 2 * data.len(),
        is_plain(hex_encoded(data)),
        forall|i: int| 0 <= i < hex_encoded(data).len() ==> #[trigger] hex_encoded(data)[i] != '_',
        forall|i: int| 0 <= i < hex_encoded(data).len() ==> #[trigger] hex_encoded(data)[i] != '.',
{
    assert forall|i: int| 0 <= i < hex_encoded(data).len() implies {
        &&& is_plain_char(#[trigger] hex_encoded(data)[i])
        &&& hex_encoded(data)[i] != '_'
        &&& hex_encoded(data)[i] != '.'
    } by {
        let byte = data[i / 2] as int;
        let half = if i % 2 == 0 {
            byte / 16
        } else {
            byte % 16
        };
        assert(0 <= half < 16);
        assert(hex_encoded(data)[i] == hex_digit(half));
    }
}

/// The index of a chunk can be read back from the name of its file,
/// whatever the hash is.
pub proof fn law_chunk_name_round_trip(index: usize, hash: Seq<char>)
    ensures
        chunk_index(chunk_name(index as nat, hash)) == Some(index),
{
    let digits = decimal(index as nat);
    let name = chunk_name(index as nat, hash);
    lemma_decimal_round_trip(index as nat);
    assert forall|k: int| 0 <= k < digits.len() implies #[trigger] name[k] != '_' by {
        assert(name[k] == digits[k]);
        assert(is_digit(digits[k]));
    }
    assert(name[digits.len() as int] == '_');
    lemma_first_index_is(name, '_', digits.len() as int);
    assert(name.take(digits.len() as int) == digits);
}

/// The name of a chunk file is a valid name, and it may be a step of a path.
pub(crate) proof fn lemma_chunk_name_valid(index: usize, bytes: Seq<u8>)
    requires
        sha256(bytes).len() == 32,
    ensures
        name_valid(chunk_name(index as nat, content_hash(bytes))),
        is_component(chunk_name(index as nat, content_hash(bytes))),
{
    let digits = decimal(index as nat);
    let hash = content_hash(bytes);
    let name = chunk_name(index as nat, hash);
    lemma_decimal_round_trip(index as nat);
    lemma_hex_is_plain(sha256(bytes));
    lemma_decimal_length(index as nat);
    assert(name.len() == digits.len() + 65);
    assert forall|k: int| 0 <= k < name.len() implies is_plain_char(#[trigger] name[k]) by {
        if k < digits.len() {
            assert(name[k] == digits[k]);
            assert(is_digit(digits[k]));
        } else if k > digits.len() {
            assert(name[k] == hash[k - digits.len() - 1]);
            assert(is_plain_char(hash[k - digits.len() - 1]));
        }
    }
    assert(name.last() == hash.last());
    lemma_plain_name_valid(name);
    assert forall|k: int| 1 <= k < name.len() implies #[trigger] name[k] != '.' by {
        if k < digits.len() {
            assert(name[k] == digits[k]);
            assert(is_digit(digits[k]));
        } else if k > digits.len() {
            assert(name[k] == hash[k - digits.len() - 1]);
        }
    }
    lemma_plain_name_is_component(name);
}

/// A number below 2^64 has at most 20 digits.
proof fn lemma_decimal_length(n: nat)
    requires
        n <= usize::MAX,
    ensures
        decimal(n).len() <= 20,
{
    assert(n <= 0xffff_ffff_ffff_ffff);
    reveal_with_fuel(decimal, 21);
    if n >= 10_000_000_000 {
        assert(decimal(n).len() <= 20);
    } else {
        assert(decimal(n).len() <= 10);
    }
}

/// The latest chunk of an index is one of the names of the listing, and it
/// gives that index.
pub(crate) proof fn lemma_latest_is_listed(names: Seq<Seq<char>>, index: usize)
    requires
        latest_chunk(names, index) is Some,
    ensures
        names.contains(latest_chunk(names, index)->0),
        chunk_index(latest_chunk(names, index)->0) == Some(index),
    decreases names.len(),
{
    if chunk_index(names.last()) == Some(index) {
        assert(names[names.len() - 1] == names.last());
    } else {
        lemma_latest_is_listed(names.drop_last(), index);
        let found = latest_chunk(names, index)->0;
        let at = choose|at: int| 0 <= at < names.drop_last().len() && names.drop_last()[at] == found;
        assert(names[at] == found);
    }
}

/// An index has a latest chunk exactly if some name of the listing gives it.
pub(crate) proof fn lemma_latest_exists(names: Seq<Seq<char>>, index: usize)
    ensures
        latest_chunk(names, index) is Some <==> exists|j: int|
            0 <= j < names.len() && chunk_index(#[trigger] names[j]) == Some(index),
    decreases names.len(),
{
    if names.len() > 0 {
        let head = names.drop_last();
        lemma_latest_exists(head, index);
        if chunk_index(names.last()) == Some(index) {
            assert(chunk_index(names[names.len() - 1]) == Some(index));
        } else {
            if latest_chunk(names, index) is Some {
                let j = choose|j: int|
                    0 <= j < head.len() && chunk_index(#[trigger] head[j]) == Some(index);
                assert(chunk_index(names[j]) == Some(index));
            }
            if exists|j: int| 0 <= j < names.len() && chunk_index(#[trigger] names[j]) == Some(index) {
                let j = choose|j: int|
                    0 <= j < names.len() && chunk_index(#[trigger] names[j]) == Some(index);
                assert(chunk_index(head[j]) == Some(index));
            }
        }
    }
}

/// Where one name only gives an index, that name is the latest chunk of
/// the index.
pub(crate) proof fn lemma_latest_of_only(names: Seq<Seq<char>>, index: usize, at: int)
    requires
        0 <= at < names.len(),
        chunk_index(names[at]) == Some(index),
        forall|j: int|
            0 <= j < names.len() && j != at ==> chunk_index(#[trigger] names[j]) != Some(index),
    ensures
        latest_chunk(names, index) == Some(names[at]),
    decreases names.len(),
{
    if at < names.len() - 1 {
        let head = names.drop_last();
        assert(chunk_index(names[names.len() - 1]) != Some(index));
        assert forall|j: int| 0 <= j < head.len() && j != at implies chunk_index(
            #[trigger] head[j],
        ) != Some(index) by {
            assert(head[j] == names[j]);
        }
        lemma_latest_of_only(head, index, at);
    }
}

/// Does no index come from two names of the listing?
pub open spec fn one_name_per_index(names: Seq<Seq<char>>) -> bool {
    forall|j: int, k: int|
        0 <= j < names.len() && 0 <= k < names.len() && j != k && chunk_index(#[trigger] names[j])
            is Some ==> chunk_index(names[j]) != chunk_index(#[trigger] names[k])
}

/// The chunks that a listing shows do not depend on the order of the
/// listing: two listings of the same names show the same chunks, as long as
/// no index comes from two names.
pub proof fn law_listing_order_is_irrelevant(
    first: Seq<Seq<char>>,
    second: Seq<Seq<char>>,
    total: usize,
)
    requires
        forall|name: Seq<char>| first.contains(name) <==> second.contains(name),
        one_name_per_index(first),
        one_name_per_index(second),
    ensures
        enumerated(first, total) == enumerated(second, total),
{
    assert forall|index: usize| #[trigger]
        latest_chunk(first, index) == latest_chunk(second, index) by {
        lemma_same_latest(first, second, index);
        lemma_same_latest(second, first, index);
    }
    assert(enumerated(first, total) =~= enumerated(second, total));
}

proof fn lemma_same_latest(first: Seq<Seq<char>>, second: Seq<Seq<char>>, index: usize)
    requires
        forall|name: Seq<char>| first.contains(name) <==> second.contains(name),
        one_name_per_index(second),
    ensures
        latest_chunk(first, index) is Some ==> latest_chunk(second, index) == latest_chunk(
            first,
            index,
        ),
{
    if latest_chunk(first, index) is Some {
        let name = latest_chunk(first, index)->0;
        lemma_latest_is_listed(first, index);
        assert(second.contains(name));
        let at = choose|at: int| 0 <= at < second.len() && second[at] == name;
        lemma_latest_of_only(second, index, at);
    }
}

/// Computes the content hash of a chunk.
pub fn hash_chunk(bytes: &[u8]) -> (hash: String)
    ensures
        hash@ == content_hash(bytes@),
        hash@.len() == 64,
        sha256(bytes@).len() == 32,
{
    let digest = sha256_digest(bytes);
    let hash = hex_encode(digest.as_slice());
    proof {
        lemma_hex_is_plain(sha256(bytes@));
    }
    hash
}

/// The name of the file for the chunk `index` with the hash `hash`.
pub fn chunk_file_name(index: usize, hash: &str) -> (name: String)
    ensures
        name@ == chunk_name(index as nat, hash@),
        chunk_index(name@) == Some(index),
{
    let mut name = format_index(index);
    name.push('_');
    name.append(hash);
    proof {
        law_chunk_name_round_trip(index, hash@);
    }
    name
}

/// Reads the index from the name of a file of the staging directory.
pub fn parse_chunk_index(name: &str) -> (index: Option<usize>)
    ensures
        index == chunk_index(name@),
{
    let v = chars_of(name);
    let mut at: usize = 0;
    while at < v.len() && v[at] != '_'
        invariant
            0 <= at <= v.len(),
            forall|k: int| 0 <= k < at ==> #[trigger] v@[k] != '_',
        decreases v.len() - at,
    {
        at += 1;
    }
    proof {
        lemma_first_index_is(v@, '_', at as int);
    }
    if at == v.len() {
        return None;
    }
    assert(v@.take(at as int) == v@.subrange(0, at as int));
    parse_usize_in(&v, 0, at)
}

/// One chunk of a listing: its index and the name of its file.
struct ChunkEntry {
    index: usize,
    name: String,
}

/// The chunks of one upload that a listing of the staging directory shows:
/// a sparse mapping from index to file name, for the indices below the
/// declared total.
pub struct ChunkSet {
    total: usize,
    entries: Vec<ChunkEntry>,
}

/// What a [`ChunkSet`] stands for.
pub struct ChunkSetView {
    pub total: usize,
    pub chunks: Map<int, Seq<char>>,
}

/// Are the indices of `entries` strictly rising and all below `total`?
spec fn rising(entries: Seq<ChunkEntry>, total: usize) -> bool {
    &&& forall|k: int| 0 <= k < entries.len() ==> (#[trigger] entries[k]).index < total
    &&& forall|k: int, l: int|
        0 <= k < l < entries.len() ==> (#[trigger] entries[k]).index < (#[trigger] entries[l]).index
}

/// Is `index` the index of one of `entries`?
spec fn has_index(entries: Seq<ChunkEntry>, index: int) -> bool {
    exists|k: int| 0 <= k < entries.len() && (#[trigger] entries[k]).index == index
}

/// The position of the entry with the index `index`.
spec fn position_of(entries: Seq<ChunkEntry>, index: int) -> int {
    choose|k: int| 0 <= k < entries.len() && (#[trigger] entries[k]).index == index
}

/// The mapping from index to file name that `entries` holds.
spec fn entries_map(entries: Seq<ChunkEntry>) -> Map<int, Seq<char>> {
    Map::new(
        |i: int| has_index(entries, i),
        |i: int| entries[position_of(entries, i)].name@,
    )
}

impl View for ChunkSet {
    type V = ChunkSetView;

    closed spec fn view(&self) -> ChunkSetView {
        ChunkSetView { total: self.total, chunks: entries_map(self.entries@) }
    }
}

/// In a rising list that holds every index below `total`, each entry stands
/// at the position of its index.
proof fn lemma_rising_positions(entries: Seq<ChunkEntry>, total: usize, upto: int)
    requires
        rising(entries, total),
        all_present(entries_map(entries), total),
        0 <= upto <= total,
    ensures
        entries.len() >= upto,
        forall|k: int| 0 <= k < upto ==> (#[trigger] entries[k]).index == k,
    decreases upto,
{
    if upto > 0 {
        lemma_rising_positions(entries, total, upto - 1);
        let i = upto - 1;
        assert(entries_map(entries).dom().contains(i));
        assert(has_index(entries, i));
        let p = position_of(entries, i);
        if p < i {
            assert(entries[p].index == p);
        }
        assert(p >= i);
        if p > i {
            lemma_rising_floor(entries, total, i);
            assert(entries[i].index < entries[p].index);
        }
    }
}

/// In a rising list the entry at position `k` has an index of `k` or more.
proof fn lemma_rising_floor(entries: Seq<ChunkEntry>, total: usize, k: int)
    requires
        rising(entries, total),
        0 <= k < entries.len(),
    ensures
        entries[k].index >= k,
    decreases k,
{
    if k > 0 {
        lemma_rising_floor(entries, total, k - 1);
        assert(entries[k - 1].index < entries[k].index);
    }
}

/// What one more name adds to the chunks of a listing.
proof fn lemma_enumerated_step(names: Seq<Seq<char>>, total: usize, name: Seq<char>)
    ensures
        chunk_index(name) is Some && chunk_index(name)->0 < total ==> enumerated(
            names.push(name),
            total,
        ) == enumerated(names, total).insert(chunk_index(name)->0 as int, name),
        !(chunk_index(name) is Some && chunk_index(name)->0 < total) ==> enumerated(
            names.push(name),
            total,
        ) == enumerated(names, total),
{
    let longer = names.push(name);
    assert(longer.drop_last() == names);
    assert(longer.last() == name);
    if chunk_index(name) is Some && chunk_index(name)->0 < total {
        assert(enumerated(longer, total) =~= enumerated(names, total).insert(
            chunk_index(name)->0 as int,
            name,
        ));
    } else {
        assert(enumerated(longer, total) =~= enumerated(names, total));
    }
}

impl ChunkSet {
    #[verifier::type_invariant]
    spec fn sorted(self) -> bool {
        rising(self.entries@, self.total)
    }

    /// Builds the chunk set of a listing. Names that give no index, or one
    /// that is not below `total`, are ignored; of two names that give the
    /// same index the later one counts.
    pub fn enumerate(names: &Vec<String>, total: usize) -> (set: ChunkSet)
        ensures
            set@.total == total,
            set@.chunks == enumerated(views_of(names@), total),
    {
        let mut entries: Vec<ChunkEntry> = Vec::new();
        let ghost listing = views_of(names@);
        let mut j: usize = 0;
        proof {
            assert(listing.take(0) == Seq::<Seq<char>>::empty());
            assert(entries_map(entries@) =~= enumerated(listing.take(0), total));
        }
        while j < names.len()
            invariant
                0 <= j <= names.len(),
                listing == views_of(names@),
                rising(entries@, total),
                entries_map(entries@) == enumerated(listing.take(j as int), total),
            decreases names.len() - j,
        {
            let found = parse_chunk_index(names[j].as_str());
            proof {
                assert(listing.take(j as int + 1) == listing.take(j as int).push(listing[j as int]));
                assert(listing[j as int] == names@[j as int]@);
                lemma_enumerated_step(listing.take(j as int), total, listing[j as int]);
            }
            match found {
                Some(index) => {
                    if index < total {
                        put_entry(&mut entries, total, index, names[j].clone());
                    }
                },
                None => {},
            }
            j += 1;
        }
        proof {
            assert(listing.take(names.len() as int) == listing);
        }
        ChunkSet { total, entries }
    }

    /// The total that the set was built for.
    pub fn total(&self) -> (total: usize)
        ensures
            total == self@.total,
    {
        self.total
    }

    /// The number of indices that have a chunk.
    pub fn present(&self) -> (count: usize)
        ensures
            count == self@.chunks.dom().len(),
            self@.chunks.dom().finite(),
            count <= self@.total,
    {
        proof {
            use_type_invariant(self);
            lemma_entries_count(self.entries@, self.total);
        }
        self.entries.len()
    }

    /// The file name of the chunk `index`, if the set has it.
    pub fn get(&self, index: usize) -> (name: Option<&String>)
        ensures
            match name {
                Some(name) => self@.chunks.dom().contains(index as int) && self@.chunks[index as int]
                    == name@,
                None => !self@.chunks.dom().contains(index as int),
            },
    {
        proof {
            use_type_invariant(self);
        }
        let mut k: usize = 0;
        while k < self.entries.len()
            invariant
                0 <= k <= self.entries.len(),
                rising(self.entries@, self.total),
                forall|l: int| 0 <= l < k ==> (#[trigger] self.entries@[l]).index != index,
            decreases self.entries.len() - k,
        {
            if self.entries[k].index == index {
                proof {
                    assert(has_index(self.entries@, index as int));
                    let p = position_of(self.entries@, index as int);
                    if p < k {
                        assert(self.entries@[p].index < self.entries@[k as int].index);
                    } else if p > k {
                        assert(self.entries@[k as int].index < self.entries@[p].index);
                    }
                }
                return Some(&self.entries[k].name);
            }
            k += 1;
        }
        None
    }

    /// Is there a chunk for every index below the total?
    pub fn is_complete(&self) -> (complete: bool)
        ensures
            complete == all_present(self@.chunks, self@.total),
    {
        proof {
            use_type_invariant(self);
        }
        if self.entries.len() != self.total {
            proof {
                if all_present(self@.chunks, self@.total) {
                    lemma_rising_positions(self.entries@, self.total, self.total as int);
                    if self.entries.len() > self.total {
                        lemma_rising_floor(self.entries@, self.total, self.entries.len() - 1);
                    }
                }
            }
            return false;
        }
        let mut k: usize = 0;
        while k < self.entries.len()
            invariant
                0 <= k <= self.entries.len() == self.total,
                rising(self.entries@, self.total),
                forall|l: int| 0 <= l < k ==> (#[trigger] self.entries@[l]).index == l,
            decreases self.entries.len() - k,
        {
            if self.entries[k].index != k {
                proof {
                    if all_present(self@.chunks, self@.total) {
                        lemma_rising_positions(self.entries@, self.total, self.total as int);
                    }
                }
                return false;
            }
            k += 1;
        }
        proof {
            assert forall|i: int| 0 <= i < self.total implies self@.chunks.dom().contains(i) by {
                assert(self.entries@[i].index == i);
            }
        }
        true
    }

    /// The file names of the chunks in the order in which they are merged:
    /// by rising index, whatever the order of the listing was. `None` while
    /// a chunk is missing.
    pub fn merge_order(&self) -> (order: Option<Vec<String>>)
        ensures
            order is Some == all_present(self@.chunks, self@.total),
            order matches Some(names) ==> views_of(names@) == in_index_order(
                self@.chunks,
                self@.total,
            ),
    {
        proof {
            use_type_invariant(self);
        }
        if !self.is_complete() {
            return None;
        }
        proof {
            lemma_rising_positions(self.entries@, self.total, self.total as int);
            if self.entries.len() > self.total {
                lemma_rising_floor(self.entries@, self.total, self.entries.len() - 1);
            }
        }
        let mut names: Vec<String> = Vec::new();
        let mut k: usize = 0;
        while k < self.entries.len()
            invariant
                0 <= k <= self.entries.len() == self.total,
                rising(self.entries@, self.total),
                forall|l: int| 0 <= l < self.total ==> (#[trigger] self.entries@[l]).index == l,
                names@.len() == k,
                forall|l: int| 0 <= l < k ==> (#[trigger] names@[l])@ == self.entries@[l].name@,
            decreases self.entries.len() - k,
        {
            names.push(self.entries[k].name.clone());
            k += 1;
        }
        proof {
            assert forall|i: int| 0 <= i < self.total implies (#[trigger] views_of(names@)[i])
                == self@.chunks[i] by {
                assert(self.entries@[i].index == i);
                let p = position_of(self.entries@, i);
                if p < i {
                    assert(self.entries@[p].index < self.entries@[i].index);
                } else if p > i {
                    assert(self.entries@[i].index < self.entries@[p].index);
                }
            }
            assert(views_of(names@) =~= in_index_order(self@.chunks, self@.total));
        }
        Some(names)
    }
}

/// A rising list holds as many indices as it has entries.
proof fn lemma_entries_count(entries: Seq<ChunkEntry>, total: usize)
    requires
        rising(entries, total),
    ensures
        entries_map(entries).dom().finite(),
        entries_map(entries).dom().len() == entries.len(),
        entries.len() <= total,
    decreases entries.len(),
{
    if entries.len() == 0 {
        assert(entries_map(entries).dom() =~= Set::<int>::empty());
    } else {
        let head = entries.drop_last();
        let last = entries.last();
        assert(rising(head, total));
        lemma_entries_count(head, total);
        assert(entries_map(entries).dom() =~= entries_map(head).dom().insert(last.index as int)) by {
            assert forall|i: int| has_index(entries, i) implies has_index(head, i) || i
                == last.index by {
                let k = position_of(entries, i);
                if k < entries.len() - 1 {
                    assert(head[k].index == i);
                }
            }
            assert forall|i: int| has_index(head, i) || i == last.index implies has_index(
                entries,
                i,
            ) by {
                if has_index(head, i) {
                    let k = position_of(head, i);
                    assert(entries[k].index == i);
                } else {
                    assert(entries[entries.len() - 1].index == i);
                }
            }
        }
        assert(!entries_map(head).dom().contains(last.index as int)) by {
            if has_index(head, last.index as int) {
                let k = position_of(head, last.index as int);
                assert(entries[k].index < entries[entries.len() - 1].index);
            }
        }
        lemma_rising_floor(entries, total, entries.len() - 1);
    }
}

/// Puts the chunk `index` with the file name `name` into a rising list,
/// in place of the entry for that index if there is one.
fn put_entry(entries: &mut Vec<ChunkEntry>, total: usize, index: usize, name: String)
    requires
        rising(old(entries)@, total),
        index < total,
    ensures
        rising(final(entries)@, total),
        entries_map(final(entries)@) == entries_map(old(entries)@).insert(index as int, name@),
{
    let mut at: usize = 0;
    while at < entries.len() && entries[at].index < index
        invariant
            0 <= at <= entries.len(),
            *entries == *old(entries),
            rising(entries@, total),
            forall|k: int| 0 <= k < at ==> (#[trigger] entries@[k]).index < index,
        decreases entries.len() - at,
    {
        at += 1;
    }
    let ghost before = entries@;
    let replace = at < entries.len() && entries[at].index == index;
    let entry = ChunkEntry { index, name };
    if replace {
        entries.set(at, entry);
    } else {
        entries.insert(at, entry);
    }
    proof {
        let after = entries@;
        let shift = if replace {
            0int
        } else {
            1int
        };
        assert forall|k: int| 0 <= k < after.len() implies (#[trigger] after[k]).index < total by {
            if k < at {
                assert(after[k] == before[k]);
            } else if k > at {
                assert(after[k] == before[k - shift]);
            }
        }
        assert forall|k: int, l: int| 0 <= k < l < after.len() implies (#[trigger] after[k]).index < (
        #[trigger] after[l]).index by {
            if k < at {
                assert(after[k] == before[k]);
            } else if k > at {
                assert(after[k] == before[k - shift]);
            }
            if l < at {
                assert(after[l] == before[l]);
            } else if l > at {
                assert(after[l] == before[l - shift]);
                if replace {
                    assert(before[at as int].index < before[l].index);
                } else if at < before.len() {
                    assert(before[at as int].index <= before[l - 1].index);
                }
            }
        }
        let wanted = entries_map(before).insert(index as int, name@);
        assert forall|i: int| has_index(after, i) <==> (has_index(before, i) || i == index) by {
            if has_index(after, i) {
                let k = position_of(after, i);
                if k < at {
                    assert(before[k].index == i);
                } else if k > at {
                    assert(before[k - shift].index == i);
                }
            }
            if has_index(before, i) && i != index {
                let k = position_of(before, i);
                if k < at {
                    assert(after[k].index == i);
                } else {
                    assert(after[k + shift].index == i);
                }
            }
            if i == index {
                assert(after[at as int].index == i);
            }
        }
        assert forall|i: int| has_index(after, i) implies #[trigger] entries_map(after)[i]
            == wanted[i] by {
            let k = position_of(after, i);
            if i == index {
                if k < at {
                    assert(after[k].index < after[at as int].index);
                } else if k > at {
                    assert(after[at as int].index < after[k].index);
                }
            } else {
                let b = position_of(before, i);
                let moved = if b < at {
                    b
                } else {
                    b + shift
                };
                assert(after[moved] == before[b]);
                if k < moved {
                    assert(after[k].index < after[moved].index);
                } else if k > moved {
                    assert(after[moved].index < after[k].index);
                }
            }
        }
        assert(entries_map(after) =~= wanted);
    }
}

} // verus!
