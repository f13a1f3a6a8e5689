//! The storage registry as the resolver sees it: a snapshot of its records,
//! looked up by name and listed in the order of their sort index.

use crate::error::AppError;
use crate::text::chars_of;
use vstd::prelude::*;

verus! {

/// One record of the registry: a named root directory and its settings.
#[derive(Debug)]
pub struct StorageDatabase {
    pub id: i64,
    pub name: String,
    /// The unique name by which request paths refer to this storage.
    pub path: String,
    /// The absolute path of the root directory.
    pub local_path: String,
    pub max_file_size: u64,
    pub allow_extensions: String,
    pub block_extensions: String,
    pub disabled: bool,
    pub sort_index: i64,
    pub created_at: String,
    pub updated_at: String,
}

/// What is needed to register a new storage.
#[derive(Debug)]
pub struct CreateStorageDto {
    pub name: String,
    pub path: String,
    pub local_path: String,
    pub max_file_size: u64,
    pub allow_extensions: String,
    pub block_extensions: String,
    pub sort_index: i64,
}

/// What a client is told of a storage.
#[derive(Debug)]
pub struct StorageDto {
    pub id: i64,
    pub name: String,
    pub path: String,
    pub sort_index: i64,
}

/// A character that the path of a storage may hold: an ASCII letter or
/// digit, `_` or `-`.
pub open spec fn is_storage_name_char(c: char) -> bool {
    ||| 'a' <= c <= 'z'
    ||| 'A' <= c <= 'Z'
    ||| '0' <= c <= '9'
    ||| c == '_'
    ||| c == '-'
}

/// May `path` be the path of a storage?
pub open spec fn storage_name_valid(path: Seq<char>) -> bool {
    forall|i: int| 0 <= i < path.len() ==> is_storage_name_char(#[trigger] path[i])
}

/// The first record of `rows` whose path is `name`.
pub open spec fn find_storage(rows: Seq<StorageDatabase>, name: Seq<char>) -> Option<
    StorageDatabase,
>
    decreases rows.len(),
{
    if rows.len() == 0 {
        None
    } else if rows[0].path@ == name {
        Some(rows[0])
    } else {
        find_storage(rows.drop_first(), name)
    }
}

/// Are the positions in `order` those of the enabled records of `rows`, each
/// once, sorted by sort index, with equal indices in the order of the
/// records?
pub open spec fn is_enabled_order(rows: Seq<StorageDatabase>, order: Seq<int>) -> bool {
    &&& forall|k: int| 0 <= k < order.len() ==> 0 <= #[trigger] order[k] < rows.len()
    &&& forall|k: int| 0 <= k < order.len() ==> !rows[#[trigger] order[k]].disabled
    &&& forall|p: int|
        0 <= p < rows.len() && !(#[trigger] rows[p]).disabled ==> order.contains(p)
    &&& forall|k: int, l: int|
        0 <= k < l < order.len() ==> {
            ||| rows[#[trigger] order[k]].sort_index < rows[#[trigger] order[l]].sort_index
            ||| (rows[order[k]].sort_index == rows[order[l]].sort_index && order[k] < order[l])
        }
}

impl CreateStorageDto {
    /// Checks the path of the new storage.
    pub fn validate(&self) -> (r: Result<(), AppError>)
        ensures
            storage_name_valid(self.path@) ==> r is Ok,
            !storage_name_valid(self.path@) ==> r == Err::<(), AppError>(
                AppError::InvalidStorageName,
            ),
    {
        let v = chars_of(self.path.as_str());
        let mut i: usize = 0;
        while i < v.len()
            invariant
                0 <= i <= v.len(),
                v@ == self.path@,
                forall|k: int| 0 <= k < i ==> is_storage_name_char(#[trigger] v@[k]),
            decreases v.len() - i,
        {
            let c = v[i];
            let allowed = ('a' <= c && c <= 'z') || ('A' <= c && c <= 'Z') || ('0' <= c && c
                <= '9') || c == '_' || c == '-';
            if !allowed {
                assert(!is_storage_name_char(self.path@[i as int]));
                return Err(AppError::InvalidStorageName);
            }
            i += 1;
        }
        Ok(())
    }
}

impl StorageDto {
    /// The part of a record that a client is told.
    pub fn from_storage(storage: &StorageDatabase) -> (dto: StorageDto)
        ensures
            dto.id == storage.id,
            dto.name@ == storage.name@,
            dto.path@ == storage.path@,
            dto.sort_index == storage.sort_index,
    {
        StorageDto {
            id: storage.id,
            name: storage.name.clone(),
            path: storage.path.clone(),
            sort_index: storage.sort_index,
        }
    }
}

/// A snapshot of the registry's records.
pub struct Registry {
    pub storages: Vec<StorageDatabase>,
}

impl Registry {
    /// A registry that holds `storages`.
    pub fn new(storages: Vec<StorageDatabase>) -> (registry: Registry)
        ensures
            registry.storages@ == storages@,
    {
        Registry { storages }
    }

    /// The record of the storage called `name`, if there is one.
    pub fn lookup(&self, name: &str) -> (found: Option<&StorageDatabase>)
        ensures
            match found {
                Some(s) => find_storage(self.storages@, name@) == Some(*s),
                None => find_storage(self.storages@, name@) is None,
            },
    {
        let wanted = chars_of(name);
        let mut i: usize = 0;
        assert(self.storages@.skip(0) == self.storages@);
        while i < self.storages.len()
            invariant
                0 <= i <= self.storages.len(),
                wanted@ == name@,
                find_storage(self.storages@, name@) == find_storage(
                    self.storages@.skip(i as int),
                    name@,
                ),
            decreases self.storages.len() - i,
        {
            let candidate = chars_of(self.storages[i].path.as_str());
            assert(self.storages@.skip(i as int)[0] == self.storages@[i as int]);
            assert(self.storages@.skip(i as int).drop_first() == self.storages@.skip(
                i as int + 1,
            ));
            if same_chars(&candidate, &wanted) {
                return Some(&self.storages[i]);
            }
            i += 1;
        }
        None
    }

    /// The enabled storages, by rising sort index; storages with the same
    /// index stay in the order of the records.
    pub fn list_enabled(&self) -> (listed: Vec<&StorageDatabase>)
        ensures
            exists|order: Seq<int>|
                {
                    &&& is_enabled_order(self.storages@, order)
                    &&& order.len() == listed@.len()
                    &&& forall|k: int|
                        0 <= k < order.len() ==> *(#[trigger] listed@[k]) == self.storages@[order[k]]
                },
    {
        let order = self.enabled_order();
        let mut listed: Vec<&StorageDatabase> = Vec::new();
        let mut k: usize = 0;
        while k < order.len()
            invariant
                0 <= k <= order.len(),
                listed@.len() == k,
                forall|j: int| 0 <= j < order@.len() ==> (#[trigger] order@[j]) < self.storages.len(),
                forall|j: int|
                    0 <= j < k ==> *(#[trigger] listed@[j]) == self.storages@[order@[j] as int],
            decreases order.len() - k,
        {
            listed.push(&self.storages[order[k]]);
            k += 1;
        }
        proof {
            let ghost_order = order@.map_values(|p: usize| p as int);
            assert(is_enabled_order(self.storages@, ghost_order));
            assert(ghost_order.len() == listed@.len());
        }
        listed
    }

    /// The enabled storages as a client is told of them, in listing order.
    pub fn enabled_dtos(&self) -> (dtos: Vec<StorageDto>)
        ensures
            exists|order: Seq<int>|
                {
                    &&& is_enabled_order(self.storages@, order)
                    &&& order.len() == dtos@.len()
                    &&& forall|k: int|
                        0 <= k < order.len() ==> {
                            &&& (#[trigger] dtos@[k]).id == self.storages@[order[k]].id
                            &&& dtos@[k].name@ == self.storages@[order[k]].name@
                            &&& dtos@[k].path@ == self.storages@[order[k]].path@
                            &&& dtos@[k].sort_index == self.storages@[order[k]].sort_index
                        }
                },
    {
        let order = self.enabled_order();
        let mut dtos: Vec<StorageDto> = Vec::new();
        let mut k: usize = 0;
        while k < order.len()
            invariant
                0 <= k <= order.len(),
                dtos@.len() == k,
                forall|j: int| 0 <= j < order@.len() ==> (#[trigger] order@[j]) < self.storages.len(),
                forall|j: int|
                    0 <= j < k ==> {
                        &&& (#[trigger] dtos@[j]).id == self.storages@[order@[j] as int].id
                        &&& dtos@[j].name@ == self.storages@[order@[j] as int].name@
                        &&& dtos@[j].path@ == self.storages@[order@[j] as int].path@
                        &&& dtos@[j].sort_index == self.storages@[order@[j] as int].sort_index
                    },
            decreases order.len() - k,
        {
            dtos.push(StorageDto::from_storage(&self.storages[order[k]]));
            k += 1;
        }
        proof {
            let ghost_order = order@.map_values(|p: usize| p as int);
            assert(is_enabled_order(self.storages@, ghost_order));
            assert(ghost_order.len() == dtos@.len());
        }
        dtos
    }

    /// The positions of the enabled records in listing order.
    fn enabled_order(&self) -> (order: Vec<usize>)
        ensures
            is_enabled_order(self.storages@, order@.map_values(|p: usize| p as int)),
            forall|j: int| 0 <= j < order@.len() ==> (#[trigger] order@[j]) < self.storages.len(),
    {
        let rows = &self.storages;
        let mut order: Vec<usize> = Vec::new();
        let mut p: usize = 0;
        while p < rows.len()
            invariant
                0 <= p <= rows.len(),
                rows == &self.storages,
                forall|k: int| 0 <= k < order@.len() ==> (#[trigger] order@[k]) < p,
                forall|k: int| 0 <= k < order@.len() ==> !rows@[(#[trigger] order@[k]) as int].disabled,
                forall|q: int|
                    0 <= q < p && !(#[trigger] rows@[q]).disabled ==> order@.contains(q as usize),
                forall|k: int, l: int|
                    0 <= k < l < order@.len() ==> {
                        ||| rows@[(#[trigger] order@[k]) as int].sort_index < rows@[(
                        #[trigger] order@[l]) as int].sort_index
                        ||| (rows@[order@[k] as int].sort_index == rows@[order@[l] as int].sort_index
                            && order@[k] < order@[l])
                    },
            decreases rows.len() - p,
        {
            if !rows[p].disabled {
                let key = rows[p].sort_index;
                // The new position goes behind every entry whose index is not larger.
                let mut at: usize = order.len();
                while at > 0 && rows[order[at - 1]].sort_index > key
                    invariant
                        0 <= at <= order@.len(),
                        p < rows.len(),
                        key == rows@[p as int].sort_index,
                        forall|k: int| 0 <= k < order@.len() ==> (#[trigger] order@[k]) < p,
                        forall|k: int|
                            at <= k < order@.len() ==> rows@[(#[trigger] order@[k]) as int].sort_index
                                > key,
                    decreases at,
                {
                    at -= 1;
                }
                let ghost before = order@;
                order.insert(at, p);
                proof {
                    assert forall|q: int|
                        0 <= q < p + 1 && !(#[trigger] rows@[q]).disabled implies order@.contains(
                        q as usize,
                    ) by {
                        if q == p {
                            assert(order@[at as int] == p);
                        } else {
                            assert(before.contains(q as usize));
                            let w = choose|w: int| 0 <= w < before.len() && before[w] == q as usize;
                            if w < at {
                                assert(order@[w] == q as usize);
                            } else {
                                assert(order@[w + 1] == q as usize);
                            }
                        }
                    }
                    assert forall|k: int, l: int| 0 <= k < l < order@.len() implies {
                        ||| rows@[(#[trigger] order@[k]) as int].sort_index < rows@[(
                        #[trigger] order@[l]) as int].sort_index
                        ||| (rows@[order@[k] as int].sort_index == rows@[order@[l] as int].sort_index
                            && order@[k] < order@[l])
                    } by {
                        let bk = if k < at { k } else { k - 1 };
                        let bl = if l < at { l } else { l - 1 };
                        if k != at && l != at {
                            assert(order@[k] == before[bk]);
                            assert(order@[l] == before[bl]);
                        } else if k == at {
                            assert(order@[l] == before[bl]);
                        } else {
                            assert(order@[k] == before[bk]);
                            if at > 0 {
                                assert(rows@[before[at - 1] as int].sort_index <= key);
                                if bk < at - 1 {
                                    assert(before[bk] == order@[k]);
                                }
                            }
                        }
                    }
                }
            }
            p += 1;
        }
        proof {
            let ghost_order = order@.map_values(|p: usize| p as int);
            assert forall|q: int|
                0 <= q < rows@.len() && !(#[trigger] rows@[q]).disabled implies ghost_order.contains(
                q,
            ) by {
                assert(order@.contains(q as usize));
                let w = choose|w: int| 0 <= w < order@.len() && order@[w] == q as usize;
                assert(ghost_order[w] == q);
            }
        }
        order
    }
}

/// Do `a` and `b` hold the same characters?
pub(crate) fn same_chars(a: &Vec<char>, b: &Vec<char>) -> (same: bool)
    ensures
        same == (a@ == b@),
{
    if a.len() != b.len() {
        return false;
    }
    let mut i: usize = 0;
    while i < a.len()
        invariant
            a.len() == b.len(),
            0 <= i <= a.len(),
            forall|k: int| 0 <= k < i ==> #[trigger] a@[k] == b@[k],
        decreases a.len() - i,
    {
        if a[i] != b[i] {
            return false;
        }
        i += 1;
    }
    assert(a@ =~= b@);
    true
}

} // verus!
