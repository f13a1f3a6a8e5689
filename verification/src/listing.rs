//! The listing of a directory: which entries count, and in which order the
//! entries are shown.
//!
//! Folders come before files. Within each kind the entries are ordered by
//! their names in lower case, compared character by character.

use crate::codec::{lowercased, to_lowercase};
use crate::safe_path::views_of;
use crate::text::chars_of;
use vstd::prelude::*;

verus! {

/// The kind of an entry.
#[derive(Clone, Copy, Debug, PartialEq, Eq, Structural)]
pub enum FileType {
    File,
    Folder,
}

/// One entry of a listing.
#[derive(Debug)]
pub struct FileInfo {
    pub name: String,
    /// The path of the entry below the directory listed.
    pub path: String,
    pub file_type: FileType,
    /// The size in bytes, for a file.
    pub size: Option<u64>,
    /// When the entry was last modified, as text.
    pub modified: String,
    /// The number of entries it holds, for a folder.
    pub items: Option<usize>,
}

/// The answer to a listing request.
#[derive(Debug)]
pub struct FileListResponse {
    pub files: Vec<FileInfo>,
}

/// What a [`FileInfo`] stands for.
pub struct FileInfoView {
    pub name: Seq<char>,
    pub path: Seq<char>,
    pub file_type: FileType,
    pub size: Option<u64>,
    pub modified: Seq<char>,
    pub items: Option<usize>,
}

impl View for FileInfo {
    type V = FileInfoView;

    open spec fn view(&self) -> FileInfoView {
        FileInfoView {
            name: self.name@,
            path: self.path@,
            file_type: self.file_type,
            size: self.size,
            modified: self.modified@,
            items: self.items,
        }
    }
}

/// Does `a` come before `b` when the two are compared character by
/// character? At the first position where they differ, the smaller character
/// decides; a text comes before every longer text that starts with it.
pub open spec fn lex_before(a: Seq<char>, b: Seq<char>) -> bool {
    exists|k: int|
        0 <= k <= a.len() && k <= b.len() && a.take(k) == #[trigger] b.take(k) && decides_at(
            a,
            b,
            k,
        )
}

/// Does the position `k`, up to which `a` and `b` agree, put `a` first:
/// because `a` ends there and `b` does not, or because `a` has the smaller
/// character there?
pub open spec fn decides_at(a: Seq<char>, b: Seq<char>, k: int) -> bool {
    if k == a.len() {
        k < b.len()
    } else {
        k < b.len() && a[k] < b[k]
    }
}

/// The place of a kind in a listing: folders first.
pub open spec fn rank(kind: FileType) -> int {
    match kind {
        FileType::Folder => 0,
        FileType::File => 1,
    }
}

/// Is an entry of the kind `kind` whose name in lower case is `lower` shown
/// before one of the kind `other_kind` with the lower-case name
/// `other_lower`?
pub open spec fn shown_before(
    kind: FileType,
    lower: Seq<char>,
    other_kind: FileType,
    other_lower: Seq<char>,
) -> bool {
    rank(kind) < rank(other_kind) || (kind == other_kind && lex_before(lower, other_lower))
}

/// Is the entry at `p` shown before the entry at `q`, or are the two not told
/// apart while `p` stands before `q`?
pub open spec fn stays_before(files: Seq<FileInfoView>, p: int, q: int) -> bool {
    ||| shown_before(
        files[p].file_type,
        lowercased(files[p].name),
        files[q].file_type,
        lowercased(files[q].name),
    )
    ||| (files[p].file_type == files[q].file_type && lowercased(files[p].name) == lowercased(
        files[q].name,
    ) && p < q)
}

/// Are the positions in `order` those of `files`, each once, such that the
/// entries are in listing order, and entries that the order does not tell
/// apart stay as they were?
pub open spec fn is_listing_order(files: Seq<FileInfoView>, order: Seq<int>) -> bool {
    &&& order.len() == files.len()
    &&& forall|k: int| 0 <= k < order.len() ==> 0 <= #[trigger] order[k] < files.len()
    &&& forall|p: int| 0 <= p < files.len() ==> #[trigger] order.contains(p)
    &&& forall|k: int, l: int|
        0 <= k < l < order.len() ==> stays_before(files, #[trigger] order[k], #[trigger] order[l])
}

/// Does `needle` occur in `text`?
pub open spec fn occurs_in(needle: Seq<char>, text: Seq<char>) -> bool {
    exists|k: int|
        0 <= k && k + needle.len() <= text.len() && #[trigger] text.subrange(
            k,
            k + needle.len(),
        ) == needle
}

/// The number of `names` that do not occur in `blocked`.
pub open spec fn count_unblocked(names: Seq<Seq<char>>, blocked: Seq<char>) -> nat
    decreases names.len(),
{
    if names.len() == 0 {
        0
    } else if occurs_in(names.last(), blocked) {
        count_unblocked(names.drop_last(), blocked)
    } else {
        count_unblocked(names.drop_last(), blocked) + 1
    }
}

/// The order of texts is transitive.
pub(crate) proof fn lemma_lex_before_transitive(a: Seq<char>, b: Seq<char>, c: Seq<char>)
    requires
        lex_before(a, b),
        lex_before(b, c),
    ensures
        lex_before(a, c),
{
    let k1 = choose|k: int|
        0 <= k <= a.len() && k <= b.len() && a.take(k) == #[trigger] b.take(k) && decides_at(
            a,
            b,
            k,
        );
    let k2 = choose|k: int|
        0 <= k <= b.len() && k <= c.len() && b.take(k) == #[trigger] c.take(k) && decides_at(
            b,
            c,
            k,
        );
    let k = if k1 <= k2 {
        k1
    } else {
        k2
    };
    assert(a.take(k) =~= c.take(k)) by {
        assert forall|i: int| 0 <= i < k implies a[i] == c[i] by {
            assert(a.take(k1)[i] == b.take(k1)[i]);
            assert(b.take(k2)[i] == c.take(k2)[i]);
        }
    }
    if k1 < k2 {
        assert(b.take(k2)[k1] == c.take(k2)[k1]);
    } else if k2 < k1 {
        assert(a.take(k1)[k2] == b.take(k1)[k2]);
    }
    assert(a.take(k) == c.take(k) && decides_at(a, c, k));
}

/// Compares two texts character by character.
pub(crate) fn text_before(a: &Vec<char>, b: &Vec<char>) -> (before: bool)
    ensures
        before == lex_before(a@, b@),
        !before && !lex_before(b@, a@) ==> a@ == b@,
{
    let mut k: usize = 0;
    while k < a.len() && k < b.len() && a[k] == b[k]
        invariant
            0 <= k <= a.len(),
            k <= b.len(),
            a@.take(k as int) == b@.take(k as int),
        decreases a.len() - k,
    {
        assert(a@.take(k as int + 1) == a@.take(k as int).push(a@[k as int]));
        assert(b@.take(k as int + 1) == b@.take(k as int).push(b@[k as int]));
        k += 1;
    }
    let before = if k == a.len() {
        k < b.len()
    } else {
        k < b.len() && a[k] < b[k]
    };
    proof {
        assert(before == decides_at(a@, b@, k as int));
        lemma_first_difference(a@, b@, k as int);
        lemma_first_difference(b@, a@, k as int);
        if !before && !lex_before(b@, a@) {
            assert(a@.take(k as int) == a@);
            assert(b@.take(k as int) == b@);
        }
    }
    before
}

/// Where two texts agree up to `k` and differ there, or one of them ends
/// there, that position decides their order.
proof fn lemma_first_difference(a: Seq<char>, b: Seq<char>, k: int)
    requires
        0 <= k <= a.len(),
        k <= b.len(),
        a.take(k) == b.take(k),
        k == a.len() || k == b.len() || a[k] != b[k],
    ensures
        lex_before(a, b) == decides_at(a, b, k),
{
    if lex_before(a, b) {
        let w = choose|w: int|
            0 <= w <= a.len() && w <= b.len() && a.take(w) == #[trigger] b.take(w) && decides_at(
                a,
                b,
                w,
            );
        if w < k {
            // The texts agree at `w`, so `w` decides nothing.
            assert(a.take(k)[w] == a[w]);
            assert(b.take(k)[w] == b[w]);
        } else if w > k {
            if k < a.len() && k < b.len() {
                // The texts differ at `k`, so they do not agree up to `w`.
                assert(a.take(w)[k] == a[k]);
                assert(b.take(w)[k] == b[k]);
            }
        }
    }
}

/// Counts the entries of a folder: the names that do not occur in the list
/// of blocked extensions.
pub fn count_items(names: &Vec<String>, blocked: &str) -> (count: usize)
    ensures
        count == count_unblocked(views_of(names@), blocked@),
{
    let text = chars_of(blocked);
    let ghost listed = views_of(names@);
    let mut count: usize = 0;
    let mut i: usize = 0;
    assert(listed.take(0) == Seq::<Seq<char>>::empty());
    while i < names.len()
        invariant
            0 <= i <= names.len(),
            text@ == blocked@,
            listed == views_of(names@),
            count == count_unblocked(listed.take(i as int), blocked@),
            count <= i,
        decreases names.len() - i,
    {
        let needle = chars_of(names[i].as_str());
        proof {
            assert(listed.take(i as int + 1).drop_last() == listed.take(i as int));
            assert(listed.take(i as int + 1).last() == names@[i as int]@);
        }
        if !occurs(&needle, &text) {
            count += 1;
        }
        i += 1;
    }
    assert(listed.take(names.len() as int) == listed);
    count
}

/// Does `needle` occur in `text`?
pub(crate) fn occurs(needle: &Vec<char>, text: &Vec<char>) -> (found: bool)
    ensures
        found == occurs_in(needle@, text@),
{
    if needle.len() > text.len() {
        return false;
    }
    let last = text.len() - needle.len();
    let mut k: usize = 0;
    while k <= last
        invariant
            0 <= k <= last + 1,
            last == text.len() - needle.len(),
            needle.len() <= text.len(),
            forall|j: int| 0 <= j < k ==> #[trigger] text@.subrange(j, j + needle.len()) != needle@,
        decreases last + 1 - k,
    {
        let mut i: usize = 0;
        while i < needle.len() && text[k + i] == needle[i]
            invariant
                0 <= i <= needle.len(),
                k <= last,
                last == text.len() - needle.len(),
                needle.len() <= text.len(),
                forall|j: int| 0 <= j < i ==> text@[k + j] == needle@[j],
            decreases needle.len() - i,
        {
            i += 1;
        }
        if i == needle.len() {
            assert(text@.subrange(k as int, k + needle.len()) =~= needle@);
            return true;
        }
        assert(text@.subrange(k as int, k + needle.len())[i as int] != needle@[i as int]);
        k += 1;
    }
    false
}

/// A copy of `info`.
fn copy_info(info: &FileInfo) -> (copy: FileInfo)
    ensures
        copy@ == info@,
{
    FileInfo {
        name: info.name.clone(),
        path: info.path.clone(),
        file_type: info.file_type,
        size: info.size,
        modified: info.modified.clone(),
        items: info.items,
    }
}

/// The views of `files`.
pub open spec fn infos_of(files: Seq<FileInfo>) -> Seq<FileInfoView> {
    Seq::new(files.len(), |i: int| files[i]@)
}

proof fn lemma_stays_before_transitive(files: Seq<FileInfoView>, p: int, q: int, r: int)
    requires
        stays_before(files, p, q),
        stays_before(files, q, r),
    ensures
        stays_before(files, p, r),
{
    let a = lowercased(files[p].name);
    let b = lowercased(files[q].name);
    let c = lowercased(files[r].name);
    if files[p].file_type == files[q].file_type && files[q].file_type == files[r].file_type {
        if lex_before(a, b) && lex_before(b, c) {
            lemma_lex_before_transitive(a, b, c);
        }
    }
}

/// Puts the entries of a listing in order: folders first, then by name in
/// lower case. Entries that the order does not tell apart stay in the order
/// in which they came.
pub fn sort_files(files: &Vec<FileInfo>) -> (sorted: Vec<FileInfo>)
    ensures
        exists|order: Seq<int>|
            {
                &&& is_listing_order(infos_of(files@), order)
                &&& infos_of(sorted@) == Seq::new(
                    order.len(),
                    |k: int| infos_of(files@)[order[k]],
                )
            },
{
    let ghost views = infos_of(files@);
    let mut keys: Vec<Vec<char>> = Vec::new();
    let mut i: usize = 0;
    while i < files.len()
        invariant
            0 <= i <= files.len(),
            keys@.len() == i,
            forall|k: int| 0 <= k < i ==> (#[trigger] keys@[k])@ == lowercased(files@[k].name@),
        decreases files.len() - i,
    {
        let lower = to_lowercase(files[i].name.as_str());
        keys.push(chars_of(lower.as_str()));
        i += 1;
    }
    let mut order: Vec<usize> = Vec::new();
    let mut p: usize = 0;
    while p < files.len()
        invariant
            0 <= p <= files.len(),
            views == infos_of(files@),
            keys@.len() == files.len(),
            forall|k: int| 0 <= k < keys@.len() ==> (#[trigger] keys@[k])@ == lowercased(files@[k].name@),
            order@.len() == p,
            forall|k: int| 0 <= k < order@.len() ==> (#[trigger] order@[k]) < p,
            forall|q: int| 0 <= q < p ==> #[trigger] order@.contains(q as usize),
            forall|k: int, l: int|
                0 <= k < l < order@.len() ==> stays_before(
                    views,
                    (#[trigger] order@[k]) as int,
                    (#[trigger] order@[l]) as int,
                ),
        decreases files.len() - p,
    {
        let mut at: usize = order.len();
        while at > 0 && comes_first(files, &keys, p, order[at - 1])
            invariant
                0 <= at <= order@.len(),
                p < files.len(),
                views == infos_of(files@),
                keys@.len() == files.len(),
                forall|k: int|
                    0 <= k < keys@.len() ==> (#[trigger] keys@[k])@ == lowercased(files@[k].name@),
                forall|k: int| 0 <= k < order@.len() ==> (#[trigger] order@[k]) < p,
                forall|k: int|
                    at <= k < order@.len() ==> stays_before(
                        views,
                        p as int,
                        (#[trigger] order@[k]) as int,
                    ),
            decreases at,
        {
            at -= 1;
        }
        let ghost before = order@;
        order.insert(at, p);
        proof {
            assert forall|q: int| 0 <= q < p + 1 implies #[trigger] order@.contains(q as usize) by {
                if q == p {
                    assert(order@[at as int] == p);
                } else {
                    assert(before.contains(q as usize));
                    let w = choose|w: int| 0 <= w < before.len() && before[w] == q as usize;
                    if w < at {
                        assert(order@[w] == q as usize);
                    } else {
                        assert(order@[w + 1] == q as usize);
                    }
                }
            }
            assert forall|k: int, l: int| 0 <= k < l < order@.len() implies stays_before(
                views,
                (#[trigger] order@[k]) as int,
                (#[trigger] order@[l]) as int,
            ) by {
                let bk = if k < at {
                    k
                } else {
                    k - 1
                };
                let bl = if l < at {
                    l
                } else {
                    l - 1
                };
                if k != at && l != at {
                    assert(order@[k] == before[bk]);
                    assert(order@[l] == before[bl]);
                } else if k == at {
                    assert(order@[l] == before[bl]);
                } else {
                    assert(order@[k] == before[bk]);
                    // The entry before the new one is not behind it, and what
                    // stands further to the front comes before that entry.
                    let neighbour = before[at - 1] as int;
                    assert(!stays_before(views, p as int, neighbour));
                    assert(neighbour < p);
                    assert(stays_before(views, neighbour, p as int));
                    if bk < at - 1 {
                        assert(stays_before(views, before[bk] as int, neighbour));
                        lemma_stays_before_transitive(views, before[bk] as int, neighbour, p as int);
                    }
                }
            }
        }
        p += 1;
    }
    let mut sorted: Vec<FileInfo> = Vec::new();
    let mut k: usize = 0;
    while k < order.len()
        invariant
            0 <= k <= order.len(),
            order@.len() == files.len(),
            sorted@.len() == k,
            forall|j: int| 0 <= j < order@.len() ==> (#[trigger] order@[j]) < files.len(),
            forall|j: int| 0 <= j < k ==> (#[trigger] sorted@[j])@ == files@[order@[j] as int]@,
        decreases order.len() - k,
    {
        sorted.push(copy_info(&files[order[k]]));
        k += 1;
    }
    proof {
        let chosen = order@.map_values(|p: usize| p as int);
        assert forall|q: int| 0 <= q < views.len() implies #[trigger] chosen.contains(q) by {
            assert(order@.contains(q as usize));
            let w = choose|w: int| 0 <= w < order@.len() && order@[w] == q as usize;
            assert(chosen[w] == q);
        }
        assert forall|a: int, b: int| 0 <= a < b < chosen.len() implies stays_before(
            views,
            #[trigger] chosen[a],
            #[trigger] chosen[b],
        ) by {
            assert(stays_before(views, order@[a] as int, order@[b] as int));
        }
        assert(is_listing_order(views, chosen));
        assert(infos_of(sorted@) =~= Seq::new(chosen.len(), |k: int| views[chosen[k]]));
    }
    sorted
}

/// Is the entry at `p` shown before the entry at `q`, or are the two not told
/// apart while `p` stands before `q`?
fn comes_first(files: &Vec<FileInfo>, keys: &Vec<Vec<char>>, p: usize, q: usize) -> (first: bool)
    requires
        p < files.len(),
        q < files.len(),
        p != q,
        keys@.len() == files.len(),
        forall|k: int| 0 <= k < keys@.len() ==> (#[trigger] keys@[k])@ == lowercased(files@[k].name@),
    ensures
        first == stays_before(infos_of(files@), p as int, q as int),
        !first ==> stays_before(infos_of(files@), q as int, p as int),
{
    let kind = files[p].file_type;
    let other = files[q].file_type;
    match (kind, other) {
        (FileType::Folder, FileType::File) => true,
        (FileType::File, FileType::Folder) => false,
        _ => {
            if text_before(&keys[p], &keys[q]) {
                true
            } else if text_before(&keys[q], &keys[p]) {
                proof {
                    lemma_lex_before_asymmetric(keys@[p as int]@, keys@[q as int]@);
                }
                false
            } else {
                p < q
            }
        },
    }
}

/// Two texts are never each before the other, and no text is before itself.
pub(crate) proof fn lemma_lex_before_asymmetric(a: Seq<char>, b: Seq<char>)
    ensures
        !(lex_before(a, b) && lex_before(b, a)),
        !lex_before(a, a),
{
    if lex_before(a, b) && lex_before(b, a) {
        lemma_lex_before_transitive(a, b, a);
    }
    assert(a.take(a.len() as int) == a.take(a.len() as int));
    lemma_first_difference(a, a, a.len() as int);
}

/// The answer to a listing request: the entries in listing order.
pub fn list_response(files: &Vec<FileInfo>) -> (response: FileListResponse)
    ensures
        exists|order: Seq<int>|
            {
                &&& is_listing_order(infos_of(files@), order)
                &&& infos_of(response.files@) == Seq::new(
                    order.len(),
                    |k: int| infos_of(files@)[order[k]],
                )
            },
{
    FileListResponse { files: sort_files(files) }
}

} // verus!
