//! The life of one upload, with its staging area held in memory.
//!
//! An upload is known by the storage and the destination it goes to. It
//! begins with the first chunk, is complete when every index below the
//! declared total has a chunk, and ends when the chunks are merged or the
//! upload is aborted; either way the staging area is emptied. A chunk that
//! comes after that begins a new upload.

use crate::chunk::{
    all_present, chunk_file_name, chunk_index, chunk_name, content_hash, enumerated, hash_chunk,
    in_index_order, latest_chunk, law_chunk_name_round_trip, lemma_latest_exists,
    lemma_latest_is_listed, lemma_latest_of_only,
};
use crate::safe_path::views_of;
use crate::storage::same_chars;
use crate::text::chars_of;
use crate::upload::{assemble, Assembly};
use vstd::prelude::*;

verus! {

/// Where an upload stands.
#[derive(Clone, Copy, Debug, PartialEq, Eq, Structural)]
pub enum UploadState {
    /// Chunks are still missing.
    Receiving,
    /// Every chunk is there; the merge has not succeeded yet.
    Complete,
    /// The chunks were merged and the staging area removed.
    Merged,
    /// The upload was aborted and the staging area removed.
    Aborted,
}

/// What happens to an upload.
#[derive(Clone, Copy, Debug, PartialEq, Eq, Structural)]
pub enum UploadEvent {
    /// A chunk was stored; `complete` says whether every chunk is there now.
    ChunkStored { complete: bool },
    /// The merge went through.
    MergeSucceeded,
    /// The merge failed on a read or a write.
    MergeFailed,
    /// The client asked to abort.
    AbortRequested,
}

/// Is `state` one that an upload never leaves?
pub open spec fn is_terminal(state: UploadState) -> bool {
    state == UploadState::Merged || state == UploadState::Aborted
}

/// The state that follows `state` on `event`.
pub open spec fn next_state(state: UploadState, event: UploadEvent) -> UploadState {
    match state {
        UploadState::Receiving => match event {
            UploadEvent::ChunkStored { complete } => if complete {
                UploadState::Complete
            } else {
                UploadState::Receiving
            },
            UploadEvent::AbortRequested => UploadState::Aborted,
            _ => UploadState::Receiving,
        },
        UploadState::Complete => match event {
            UploadEvent::MergeSucceeded => UploadState::Merged,
            UploadEvent::AbortRequested => UploadState::Aborted,
            _ => UploadState::Complete,
        },
        UploadState::Merged => UploadState::Merged,
        UploadState::Aborted => UploadState::Aborted,
    }
}

/// The state that follows `state` on `event`.
///
/// A failed merge leaves the upload complete: the chunks stay in the
/// staging area, and the merge is tried again when the client sends a chunk
/// again.
pub fn transition(state: UploadState, event: UploadEvent) -> (next: UploadState)
    ensures
        next == next_state(state, event),
        is_terminal(state) ==> next == state,
        next == UploadState::Merged && state != UploadState::Merged ==> state
            == UploadState::Complete && event == UploadEvent::MergeSucceeded,
        next == UploadState::Aborted && state != UploadState::Aborted ==> !is_terminal(state)
            && event == UploadEvent::AbortRequested,
{
    match state {
        UploadState::Receiving => match event {
            UploadEvent::ChunkStored { complete } => if complete {
                UploadState::Complete
            } else {
                UploadState::Receiving
            },
            UploadEvent::AbortRequested => UploadState::Aborted,
            _ => UploadState::Receiving,
        },
        UploadState::Complete => match event {
            UploadEvent::MergeSucceeded => UploadState::Merged,
            UploadEvent::AbortRequested => UploadState::Aborted,
            _ => UploadState::Complete,
        },
        UploadState::Merged => UploadState::Merged,
        UploadState::Aborted => UploadState::Aborted,
    }
}

/// A file of the staging area: its name and its content.
pub struct StagedFile {
    pub name: Seq<char>,
    pub data: Seq<u8>,
}

/// The names of `files`, in their order.
pub open spec fn names_in(files: Seq<StagedFile>) -> Seq<Seq<char>> {
    Seq::new(files.len(), |i: int| files[i].name)
}

/// Is there a file called `name` among `files`?
pub open spec fn holds(files: Seq<StagedFile>, name: Seq<char>) -> bool {
    exists|i: int| 0 <= i < files.len() && (#[trigger] files[i]).name == name
}

/// Does no name occur twice among `files`?
pub open spec fn distinct_names(files: Seq<StagedFile>) -> bool {
    forall|i: int, j: int|
        0 <= i < j < files.len() ==> (#[trigger] files[i]).name != (#[trigger] files[j]).name
}

/// The content of the file called `name`.
pub open spec fn data_of(files: Seq<StagedFile>, name: Seq<char>) -> Seq<u8> {
    files[choose|i: int| 0 <= i < files.len() && (#[trigger] files[i]).name == name].data
}

/// `files` after a write of `data` under `name` that is skipped where a file
/// of that name exists.
pub open spec fn with_file(files: Seq<StagedFile>, name: Seq<char>, data: Seq<u8>) -> Seq<
    StagedFile,
> {
    if holds(files, name) {
        files
    } else {
        files.push(StagedFile { name, data })
    }
}

/// The contents of the chunks `0..count`, one after the other.
pub open spec fn merged_upto(files: Seq<StagedFile>, chunks: Map<int, Seq<char>>, count: nat) -> Seq<
    u8,
>
    decreases count,
{
    if count == 0 {
        Seq::<u8>::empty()
    } else {
        merged_upto(files, chunks, (count - 1) as nat) + data_of(files, chunks[count - 1])
    }
}

/// The merged file: the contents of the chunks `0..total` by rising index.
pub open spec fn merged_bytes(files: Seq<StagedFile>, total: usize) -> Seq<u8> {
    merged_upto(files, enumerated(names_in(files), total), total as nat)
}

/// What an upload is after a chunk, and what the chunk brought about.
pub struct Outcome {
    /// The files of the staging area.
    pub files: Seq<StagedFile>,
    /// The merged file, where the chunk completed the upload.
    pub merged: Option<Seq<u8>>,
}

/// What the chunk `index` of `total` with the content `bytes` makes of a
/// staging area that holds `files`.
pub open spec fn received(files: Seq<StagedFile>, index: usize, total: usize, bytes: Seq<u8>) -> Outcome {
    let stored = with_file(files, chunk_name(index as nat, content_hash(bytes)), bytes);
    if all_present(enumerated(names_in(stored), total), total) {
        Outcome { files: Seq::empty(), merged: Some(merged_bytes(stored, total)) }
    } else {
        Outcome { files: stored, merged: None }
    }
}

/// What an upload session stands for.
pub struct SessionView {
    pub state: UploadState,
    pub files: Seq<StagedFile>,
}

struct StoredChunk {
    name: String,
    data: Vec<u8>,
}

/// One upload with its staging area in memory.
pub struct UploadSession {
    state: UploadState,
    files: Vec<StoredChunk>,
}

/// What a chunk request is answered with.
pub struct Receipt {
    /// The content hash of the chunk.
    pub hash: String,
    /// The merged file, where this chunk completed the upload.
    pub merged: Option<Vec<u8>>,
}

spec fn staged(files: Seq<StoredChunk>) -> Seq<StagedFile> {
    Seq::new(files.len(), |i: int| StagedFile { name: files[i].name@, data: files[i].data@ })
}

impl View for UploadSession {
    type V = SessionView;

    closed spec fn view(&self) -> SessionView {
        SessionView { state: self.state, files: staged(self.files@) }
    }
}

/// The bytes of an optional buffer.
pub open spec fn bytes_view(bytes: Option<Vec<u8>>) -> Option<Seq<u8>> {
    match bytes {
        Some(bytes) => Some(bytes@),
        None => None,
    }
}

impl UploadSession {
    #[verifier::type_invariant]
    spec fn consistent(self) -> bool {
        &&& distinct_names(staged(self.files@))
        &&& self.state != UploadState::Complete
        &&& is_terminal(self.state) ==> self.files@.len() == 0
    }

    /// An upload that has not received anything yet.
    pub fn new() -> (session: UploadSession)
        ensures
            session@.state == UploadState::Receiving,
            session@.files == Seq::<StagedFile>::empty(),
    {
        let session = UploadSession { state: UploadState::Receiving, files: Vec::new() };
        assert(session@.files =~= Seq::<StagedFile>::empty());
        session
    }

    /// Where the upload stands.
    pub fn state(&self) -> (state: UploadState)
        ensures
            state == self@.state,
            state != UploadState::Complete,
            is_terminal(state) ==> self@.files.len() == 0,
            distinct_names(self@.files),
    {
        proof {
            use_type_invariant(self);
        }
        self.state
    }

    /// The names of the files in the staging area.
    pub fn listing(&self) -> (names: Vec<String>)
        ensures
            views_of(names@) == names_in(self@.files),
    {
        list_names(&self.files)
    }

    /// The content of the file called `name`, if the staging area has it.
    pub fn read(&self, name: &str) -> (data: Option<Vec<u8>>)
        ensures
            match data {
                Some(data) => holds(self@.files, name@) && data@ == data_of(self@.files, name@),
                None => !holds(self@.files, name@),
            },
    {
        proof {
            use_type_invariant(self);
        }
        match find_file(&self.files, name) {
            Some(at) => {
                proof {
                    lemma_data_at(staged(self.files@), at as int);
                }
                Some(copy_bytes(self.files[at].data.as_slice()))
            },
            None => None,
        }
    }

    /// Takes in one chunk: stores it unless a file of its name is there,
    /// and merges the chunks by rising index if none is missing now. The
    /// merge empties the staging area. The answer carries the content hash
    /// of the chunk in either case.
    ///
    /// A chunk that comes after the upload was merged or aborted begins a new
    /// upload.
    pub fn upload_chunk(&mut self, index: usize, total: usize, bytes: &[u8]) -> (receipt: Receipt)
        ensures
            receipt.hash@ == content_hash(bytes@),
            final(self)@.files == received(old(self)@.files, index, total, bytes@).files,
            bytes_view(receipt.merged) == received(old(self)@.files, index, total, bytes@).merged,
            final(self)@.state == if receipt.merged is Some {
                UploadState::Merged
            } else {
                UploadState::Receiving
            },
            receipt.merged is Some ==> final(self)@.state == next_state(
                next_state(UploadState::Receiving, UploadEvent::ChunkStored { complete: true }),
                UploadEvent::MergeSucceeded,
            ),
    {
        proof {
            use_type_invariant(&*self);
        }
        let hash = hash_chunk(bytes);
        let name = chunk_file_name(index, hash.as_str());
        let ghost before = staged(self.files@);
        let mut taken = UploadSession { state: UploadState::Receiving, files: Vec::new() };
        assert(staged(taken.files@) =~= Seq::<StagedFile>::empty());
        core::mem::swap(self, &mut taken);
        let UploadSession { state: _, files } = taken;
        let mut files = files;
        assert(staged(files@) == before);
        match find_file(&files, name.as_str()) {
            Some(at) => {
                assert(before[at as int].name == name@);
            },
            None => {
                files.push(StoredChunk { name, data: copy_bytes(bytes) });
                proof {
                    assert(staged(files@) =~= before.push(
                        StagedFile {
                            name: chunk_name(index as nat, content_hash(bytes@)),
                            data: bytes@,
                        },
                    ));
                }
            },
        }
        let ghost stored = staged(files@);
        assert(stored == with_file(before, chunk_name(index as nat, content_hash(bytes@)), bytes@));
        let listing = list_names(&files);
        assert(views_of(listing@) =~= names_in(stored));
        match assemble(&listing, total) {
            Assembly::Merge { order } => {
                let merged = merge_files(&files, &order, total);
                let emptied = UploadSession { state: UploadState::Merged, files: Vec::new() };
                assert(staged(emptied.files@) =~= Seq::<StagedFile>::empty());
                *self = emptied;
                Receipt { hash, merged: Some(merged) }
            },
            Assembly::Receiving => {
                *self = UploadSession { state: UploadState::Receiving, files };
                Receipt { hash, merged: None }
            },
        }
    }

    /// Aborts the upload: the staging area is emptied, whatever it held.
    pub fn abort_upload(&mut self)
        ensures
            final(self)@.files == Seq::<StagedFile>::empty(),
            final(self)@.state == if old(self)@.state == UploadState::Merged {
                UploadState::Merged
            } else {
                UploadState::Aborted
            },
            final(self)@.state == next_state(old(self)@.state, UploadEvent::AbortRequested),
    {
        proof {
            use_type_invariant(&*self);
        }
        let state = match self.state {
            UploadState::Merged => UploadState::Merged,
            _ => UploadState::Aborted,
        };
        let emptied = UploadSession { state, files: Vec::new() };
        assert(staged(emptied.files@) =~= Seq::<StagedFile>::empty());
        *self = emptied;
    }
}

/// The position of the file called `name`.
fn find_file(files: &Vec<StoredChunk>, name: &str) -> (at: Option<usize>)
    ensures
        match at {
            Some(at) => at < files@.len() && files@[at as int].name@ == name@,
            None => !holds(staged(files@), name@),
        },
{
    let wanted = chars_of(name);
    let mut i: usize = 0;
    while i < files.len()
        invariant
            0 <= i <= files.len(),
            wanted@ == name@,
            forall|k: int| 0 <= k < i ==> (#[trigger] files@[k]).name@ != name@,
        decreases files.len() - i,
    {
        let candidate = chars_of(files[i].name.as_str());
        if same_chars(&candidate, &wanted) {
            return Some(i);
        }
        i += 1;
    }
    proof {
        let staged_files = staged(files@);
        assert forall|k: int| 0 <= k < staged_files.len() implies (#[trigger] staged_files[k]).name
            != name@ by {
            assert(files@[k].name@ != name@);
        }
    }
    None
}

/// The names of `files`, in their order.
fn list_names(files: &Vec<StoredChunk>) -> (names: Vec<String>)
    ensures
        views_of(names@) == names_in(staged(files@)),
{
    let mut names: Vec<String> = Vec::new();
    let mut i: usize = 0;
    while i < files.len()
        invariant
            0 <= i <= files.len(),
            names@.len() == i,
            forall|k: int| 0 <= k < i ==> (#[trigger] names@[k])@ == files@[k].name@,
        decreases files.len() - i,
    {
        names.push(files[i].name.clone());
        i += 1;
    }
    assert(views_of(names@) =~= names_in(staged(files@)));
    names
}

/// A copy of `bytes`.
fn copy_bytes(bytes: &[u8]) -> (copy: Vec<u8>)
    ensures
        copy@ == bytes@,
{
    let mut copy: Vec<u8> = Vec::new();
    let mut i: usize = 0;
    while i < bytes.len()
        invariant
            0 <= i <= bytes.len(),
            copy@ == bytes@.take(i as int),
        decreases bytes.len() - i,
    {
        copy.push(bytes[i]);
        assert(bytes@.take(i as int + 1) == bytes@.take(i as int).push(bytes@[i as int]));
        i += 1;
    }
    assert(bytes@.take(bytes@.len() as int) == bytes@);
    copy
}

/// The contents of the files that `order` names, one after the other.
fn merge_files(files: &Vec<StoredChunk>, order: &Vec<String>, total: usize) -> (merged: Vec<u8>)
    requires
        distinct_names(staged(files@)),
        all_present(enumerated(names_in(staged(files@)), total), total),
        views_of(order@) == in_index_order(enumerated(names_in(staged(files@)), total), total),
    ensures
        merged@ == merged_bytes(staged(files@), total),
{
    let ghost all = staged(files@);
    let ghost chunks = enumerated(names_in(all), total);
    let mut merged: Vec<u8> = Vec::new();
    let mut i: usize = 0;
    assert(order@.len() == total) by {
        assert(views_of(order@).len() == order@.len());
    }
    while i < order.len()
        invariant
            0 <= i <= order.len() == total,
            all == staged(files@),
            chunks == enumerated(names_in(all), total),
            distinct_names(all),
            all_present(chunks, total),
            views_of(order@) == in_index_order(chunks, total),
            merged@ == merged_upto(all, chunks, i as nat),
        decreases order.len() - i,
    {
        proof {
            assert(views_of(order@)[i as int] == chunks[i as int]);
            assert(order@[i as int]@ == chunks[i as int]);
            assert(chunks.dom().contains(i as int));
            lemma_latest_is_listed(names_in(all), i);
            let name = chunks[i as int];
            let at = choose|at: int| 0 <= at < names_in(all).len() && names_in(all)[at] == name;
            assert(all[at].name == name);
        }
        match find_file(files, order[i].as_str()) {
            Some(at) => {
                proof {
                    lemma_data_at(all, at as int);
                }
                let data = &files[at].data;
                let mut k: usize = 0;
                let ghost start = merged@;
                while k < data.len()
                    invariant
                        0 <= k <= data.len(),
                        merged@ == start + data@.take(k as int),
                    decreases data.len() - k,
                {
                    merged.push(data[k]);
                    assert(data@.take(k as int + 1) == data@.take(k as int).push(data@[k as int]));
                    k += 1;
                }
                assert(data@.take(data@.len() as int) == data@);
            },
            None => {
                // Every name of the order is the name of a file.
                assert(false);
            },
        }
        i += 1;
    }
    merged
}

/// Where no name occurs twice, the content found under the name of a file
/// is the content of that file.
proof fn lemma_data_at(files: Seq<StagedFile>, at: int)
    requires
        distinct_names(files),
        0 <= at < files.len(),
    ensures
        holds(files, files[at].name),
        data_of(files, files[at].name) == files[at].data,
{
    let name = files[at].name;
    let chosen = choose|i: int| 0 <= i < files.len() && (#[trigger] files[i]).name == name;
    if chosen < at {
        assert(files[chosen].name != files[at].name);
    } else if chosen > at {
        assert(files[at].name != files[chosen].name);
    }
}

/// A skipped or a new write leaves the names distinct and the file there.
pub(crate) proof fn lemma_with_file(files: Seq<StagedFile>, name: Seq<char>, data: Seq<u8>)
    requires
        distinct_names(files),
    ensures
        distinct_names(with_file(files, name, data)),
        holds(with_file(files, name, data), name),
        with_file(with_file(files, name, data), name, data) == with_file(files, name, data),
{
    let after = with_file(files, name, data);
    if !holds(files, name) {
        assert(after[files.len() as int].name == name);
        assert forall|i: int, j: int| 0 <= i < j < after.len() implies (#[trigger] after[i]).name
            != (#[trigger] after[j]).name by {
            if j == files.len() {
                assert(files[i].name != name);
            } else {
                assert(files[i].name != files[j].name);
            }
        }
    }
}

/// Sending the same chunk again, with the same index and the same bytes,
/// stores nothing new: the write is skipped, the staging area holds one file
/// for the chunk, as after the first time, and the content hash in the
/// answer, which depends on the bytes alone, is the same. Where the chunk
/// does not complete the upload, the second request leaves everything as the
/// first left it.
///
/// A chunk that completes the upload is merged, and the staging area is
/// empty after it; the same chunk sent again then begins a new upload.
pub proof fn law_same_chunk_twice(files: Seq<StagedFile>, index: usize, total: usize, bytes: Seq<u8>)
    requires
        distinct_names(files),
    ensures
        ({
            let name = chunk_name(index as nat, content_hash(bytes));
            let stored = with_file(files, name, bytes);
            &&& with_file(stored, name, bytes) == stored
            &&& holds(stored, name)
            &&& distinct_names(stored)
        }),
        received(files, index, total, bytes).merged is None ==> received(
            received(files, index, total, bytes).files,
            index,
            total,
            bytes,
        ) == received(files, index, total, bytes),
{
    lemma_with_file(files, chunk_name(index as nat, content_hash(bytes)), bytes);
}

/// While an index below the total has no chunk, nothing is merged and the
/// staging area keeps its files: those it had and the chunk just stored.
pub proof fn law_incomplete_upload_keeps_chunks(
    files: Seq<StagedFile>,
    index: usize,
    total: usize,
    bytes: Seq<u8>,
    missing: usize,
)
    requires
        missing < total,
        missing != index,
        forall|i: int| 0 <= i < files.len() ==> chunk_index((#[trigger] files[i]).name) != Some(missing),
    ensures
        received(files, index, total, bytes).merged is None,
        received(files, index, total, bytes).files == with_file(
            files,
            chunk_name(index as nat, content_hash(bytes)),
            bytes,
        ),
{
    let name = chunk_name(index as nat, content_hash(bytes));
    let stored = with_file(files, name, bytes);
    let names = names_in(stored);
    law_chunk_name_round_trip(index, content_hash(bytes));
    lemma_latest_exists(names, missing);
    if latest_chunk(names, missing) is Some {
        let j = choose|j: int| 0 <= j < names.len() && chunk_index(#[trigger] names[j]) == Some(missing);
        if j < files.len() {
            assert(names[j] == files[j].name);
        } else {
            assert(names[j] == name);
        }
    }
    assert(!enumerated(names, total).dom().contains(missing as int));
}

/// An abort leaves the staging area empty, so the chunk that comes next
/// begins a new upload. While another index below the total is still to
/// come, that chunk is then the only file in the staging area, and nothing
/// is merged; the only chunk of an upload of one chunk is merged at once.
pub proof fn law_fresh_session_after_abort(index: usize, total: usize, bytes: Seq<u8>)
    ensures
        total >= 2 || (total == 1 && index != 0) ==> received(
            Seq::<StagedFile>::empty(),
            index,
            total,
            bytes,
        ) == (Outcome {
            files: seq![
                StagedFile { name: chunk_name(index as nat, content_hash(bytes)), data: bytes },
            ],
            merged: None,
        }),
        total == 1 && index == 0 ==> received(Seq::<StagedFile>::empty(), index, total, bytes) == (
        Outcome { files: Seq::empty(), merged: Some(bytes) }),
{
    let name = chunk_name(index as nat, content_hash(bytes));
    let stored = with_file(Seq::<StagedFile>::empty(), name, bytes);
    assert(stored =~= seq![StagedFile { name, data: bytes }]);
    if total >= 2 || (total == 1 && index != 0) {
        let missing: usize = if index == 0 {
            1
        } else {
            0
        };
        law_incomplete_upload_keeps_chunks(
            Seq::<StagedFile>::empty(),
            index,
            total,
            bytes,
            missing,
        );
    } else if total == 1 && index == 0 {
        let names = names_in(stored);
        law_chunk_name_round_trip(index, content_hash(bytes));
        assert(names[0] == name);
        lemma_latest_of_only(names, 0, 0);
        let chunks = enumerated(names, total);
        assert(chunks.dom().contains(0));
        assert(chunks[0] == name);
        lemma_data_at(stored, 0);
        assert(merged_upto(stored, chunks, 0) == Seq::<u8>::empty());
        assert(merged_upto(stored, chunks, 1) == Seq::<u8>::empty() + bytes);
        assert(Seq::<u8>::empty() + bytes == bytes);
    }
}

/// `chunks`, one after the other.
pub open spec fn joined_bytes(chunks: Seq<Seq<u8>>) -> Seq<u8>
    decreases chunks.len(),
{
    if chunks.len() == 0 {
        Seq::<u8>::empty()
    } else {
        joined_bytes(chunks.drop_last()) + chunks.last()
    }
}

/// Does `arrival` hold each index below `total` exactly once?
pub open spec fn is_arrival_order(arrival: Seq<usize>, total: usize) -> bool {
    &&& arrival.len() == total
    &&& forall|k: int| 0 <= k < arrival.len() ==> (#[trigger] arrival[k]) < total
    &&& forall|j: int, k: int|
        0 <= j < k < arrival.len() ==> (#[trigger] arrival[j]) != (#[trigger] arrival[k])
    &&& forall|i: usize| i < total ==> #[trigger] arrival.contains(i)
}

/// The upload after the first `count` chunks have arrived in the order
/// `arrival`, where `chunks[i]` is the content of the chunk `i`.
pub open spec fn after_arrivals(
    arrival: Seq<usize>,
    chunks: Seq<Seq<u8>>,
    total: usize,
    count: nat,
) -> Outcome
    decreases count,
{
    if count == 0 {
        Outcome { files: Seq::empty(), merged: None }
    } else {
        let earlier = after_arrivals(arrival, chunks, total, (count - 1) as nat);
        received(earlier.files, arrival[count - 1], total, chunks[arrival[count - 1] as int])
    }
}

/// The staging area that holds the first `count` chunks of `arrival`.
spec fn arrived(arrival: Seq<usize>, chunks: Seq<Seq<u8>>, count: nat) -> Seq<StagedFile> {
    Seq::new(
        count,
        |j: int|
            StagedFile {
                name: chunk_name(arrival[j] as nat, content_hash(chunks[arrival[j] as int])),
                data: chunks[arrival[j] as int],
            },
    )
}

proof fn lemma_arrived_index(arrival: Seq<usize>, chunks: Seq<Seq<u8>>, count: nat, j: int)
    requires
        0 <= j < count,
    ensures
        chunk_index(names_in(arrived(arrival, chunks, count))[j]) == Some(arrival[j]),
        chunk_index(arrived(arrival, chunks, count)[j].name) == Some(arrival[j]),
{
    law_chunk_name_round_trip(arrival[j], content_hash(chunks[arrival[j] as int]));
}

proof fn lemma_arrived_distinct(arrival: Seq<usize>, chunks: Seq<Seq<u8>>, total: usize, count: nat)
    requires
        is_arrival_order(arrival, total),
        count <= total,
    ensures
        distinct_names(arrived(arrival, chunks, count)),
{
    let files = arrived(arrival, chunks, count);
    assert forall|i: int, j: int| 0 <= i < j < files.len() implies (#[trigger] files[i]).name != (
    #[trigger] files[j]).name by {
        lemma_arrived_index(arrival, chunks, count, i);
        lemma_arrived_index(arrival, chunks, count, j);
        assert(arrival[i] != arrival[j]);
    }
}

/// Of the chunks that arrived, the one with the index `arrival[at]` is the
/// latest of that index, and its content is found under its name.
proof fn lemma_arrived_chunk(
    arrival: Seq<usize>,
    chunks: Seq<Seq<u8>>,
    total: usize,
    count: nat,
    at: int,
)
    requires
        is_arrival_order(arrival, total),
        count <= total,
        0 <= at < count,
    ensures
        latest_chunk(names_in(arrived(arrival, chunks, count)), arrival[at]) == Some(
            arrived(arrival, chunks, count)[at].name,
        ),
        data_of(arrived(arrival, chunks, count), arrived(arrival, chunks, count)[at].name)
            == chunks[arrival[at] as int],
{
    let files = arrived(arrival, chunks, count);
    let names = names_in(files);
    lemma_arrived_index(arrival, chunks, count, at);
    assert forall|j: int| 0 <= j < names.len() && j != at implies chunk_index(#[trigger] names[j])
        != Some(arrival[at]) by {
        lemma_arrived_index(arrival, chunks, count, j);
        if j < at {
            assert(arrival[j] != arrival[at]);
        } else {
            assert(arrival[at] != arrival[j]);
        }
    }
    lemma_latest_of_only(names, arrival[at], at);
    lemma_arrived_distinct(arrival, chunks, total, count);
    lemma_data_at(files, at);
}

/// Before the last chunk has arrived nothing is merged, and the staging area
/// holds the chunks that have arrived.
proof fn lemma_arrivals_before_last(
    arrival: Seq<usize>,
    chunks: Seq<Seq<u8>>,
    total: usize,
    count: nat,
)
    requires
        is_arrival_order(arrival, total),
        chunks.len() == total,
        count < total,
    ensures
        after_arrivals(arrival, chunks, total, count).merged is None,
        after_arrivals(arrival, chunks, total, count).files == arrived(arrival, chunks, count),
    decreases count,
{
    if count == 0 {
        assert(arrived(arrival, chunks, 0) =~= Seq::<StagedFile>::empty());
    } else {
        let earlier = (count - 1) as nat;
        lemma_arrivals_before_last(arrival, chunks, total, earlier);
        lemma_arrival_stored(arrival, chunks, total, count);
        let stored = arrived(arrival, chunks, count);
        let missing = arrival[count as int];
        lemma_latest_exists(names_in(stored), missing);
        if latest_chunk(names_in(stored), missing) is Some {
            let j = choose|j: int|
                0 <= j < names_in(stored).len() && chunk_index(#[trigger] names_in(stored)[j])
                    == Some(missing);
            lemma_arrived_index(arrival, chunks, count, j);
            assert(arrival[j] != arrival[count as int]);
        }
        assert(!enumerated(names_in(stored), total).dom().contains(missing as int));
    }
}

/// Storing the chunk that arrives as number `count` adds it to the chunks
/// that arrived before.
proof fn lemma_arrival_stored(arrival: Seq<usize>, chunks: Seq<Seq<u8>>, total: usize, count: nat)
    requires
        is_arrival_order(arrival, total),
        1 <= count <= total,
    ensures
        with_file(
            arrived(arrival, chunks, (count - 1) as nat),
            chunk_name(
                arrival[count - 1] as nat,
                content_hash(chunks[arrival[count - 1] as int]),
            ),
            chunks[arrival[count - 1] as int],
        ) == arrived(arrival, chunks, count),
{
    let earlier = (count - 1) as nat;
    let files = arrived(arrival, chunks, earlier);
    let index = arrival[count - 1];
    let name = chunk_name(index as nat, content_hash(chunks[index as int]));
    law_chunk_name_round_trip(index, content_hash(chunks[index as int]));
    if holds(files, name) {
        let j = choose|j: int| 0 <= j < files.len() && (#[trigger] files[j]).name == name;
        lemma_arrived_index(arrival, chunks, earlier, j);
        assert(arrival[j] != arrival[count - 1]);
    }
    assert(files.push(StagedFile { name, data: chunks[index as int] }) =~= arrived(
        arrival,
        chunks,
        count,
    ));
}

/// Once every chunk has arrived, the chunks `0..upto` merge into their
/// contents by rising index.
proof fn lemma_merged_upto(arrival: Seq<usize>, chunks: Seq<Seq<u8>>, total: usize, upto: nat)
    requires
        is_arrival_order(arrival, total),
        chunks.len() == total,
        upto <= total,
    ensures
        merged_upto(
            arrived(arrival, chunks, total as nat),
            enumerated(names_in(arrived(arrival, chunks, total as nat)), total),
            upto,
        ) == joined_bytes(chunks.take(upto as int)),
        forall|i: int|
            0 <= i < upto ==> enumerated(
                names_in(arrived(arrival, chunks, total as nat)),
                total,
            ).dom().contains(i),
    decreases upto,
{
    let files = arrived(arrival, chunks, total as nat);
    let map = enumerated(names_in(files), total);
    if upto == 0 {
        assert(chunks.take(0) =~= Seq::<Seq<u8>>::empty());
    } else {
        let i = (upto - 1) as int;
        lemma_merged_upto(arrival, chunks, total, (upto - 1) as nat);
        assert(arrival.contains(i as usize));
        let at = choose|at: int| 0 <= at < arrival.len() && arrival[at] == i as usize;
        lemma_arrived_chunk(arrival, chunks, total, total as nat, at);
        assert(map.dom().contains(i));
        assert(map[i] == files[at].name);
        assert(chunks.take(upto as int).drop_last() =~= chunks.take(i));
        assert(chunks.take(upto as int).last() == chunks[i]);
    }
}

/// Whatever the order in which the chunks of an upload arrive, the chunk
/// that arrives last completes the upload, and the merged file is the
/// content of the chunk 0, then of the chunk 1, and so on by rising index.
/// Nothing is merged before.
pub proof fn law_merge_in_index_order(arrival: Seq<usize>, chunks: Seq<Seq<u8>>, total: usize)
    requires
        total >= 1,
        chunks.len() == total,
        is_arrival_order(arrival, total),
    ensures
        after_arrivals(arrival, chunks, total, total as nat).merged == Some(joined_bytes(chunks)),
        after_arrivals(arrival, chunks, total, total as nat).files == Seq::<StagedFile>::empty(),
        forall|count: nat|
            count < total ==> (#[trigger] after_arrivals(arrival, chunks, total, count)).merged
                is None,
{
    assert forall|count: nat| count < total implies (#[trigger] after_arrivals(
        arrival,
        chunks,
        total,
        count,
    )).merged is None by {
        lemma_arrivals_before_last(arrival, chunks, total, count);
    }
    lemma_arrivals_before_last(arrival, chunks, total, (total - 1) as nat);
    lemma_arrival_stored(arrival, chunks, total, total as nat);
    lemma_merged_upto(arrival, chunks, total, total as nat);
    assert(chunks.take(total as int) =~= chunks);
}

} // verus!
