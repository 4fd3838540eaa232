use crate::error::GifError;
use crate::order::{
    distinct_names, lemma_permutation_keeps_names_distinct, lemma_sorted_order_is_unique,
    sort_by_name, sorted_by_name,
};
use vstd::prelude::*;

verus! {

/// A reference to one loaded image.
///
/// The store and every UI element that shows the image hold copies of the
/// same handle; two handles name the same image exactly when their ids are
/// equal.
#[derive(Clone, Copy, Debug, PartialEq, Eq, Structural, Hash)]
pub struct FrameHandle {
    pub id: u64,
}

/// One file of a sequence directory: its name, and the handle of the image
/// that was loaded from it.
#[derive(Debug)]
pub struct FrameFile {
    pub name: String,
    pub handle: FrameHandle,
}

/// The handles of `files`, in the order of the files.
pub open spec fn handles_of(files: Seq<FrameFile>) -> Seq<FrameHandle> {
    Seq::new(files.len(), |i: int| files[i].handle)
}

/// One entry found directly under the asset root.
#[derive(Debug)]
pub enum RootEntry {
    /// Anything that is not a directory. It names no sequence.
    File { name: String },
    /// A subdirectory: its name is a sequence key, and every file inside it
    /// is one frame. The files stand in whatever order they were enumerated.
    Directory { name: String, files: Vec<FrameFile> },
}

/// What enumerating the asset root gave.
#[derive(Debug)]
pub enum RootListing {
    /// The root does not exist or could not be read.
    Unreadable,
    /// The root's immediate entries, in enumeration order.
    Entries(Vec<RootEntry>),
}

impl RootEntry {
    /// Whether this entry is a directory called `key`.
    pub open spec fn is_directory_named(self, key: Seq<char>) -> bool {
        match self {
            RootEntry::Directory { name, .. } => name@ == key,
            RootEntry::File { .. } => false,
        }
    }

    /// The entry's name.
    pub open spec fn name(self) -> Seq<char> {
        match self {
            RootEntry::Directory { name, .. } => name@,
            RootEntry::File { name } => name@,
        }
    }

    /// The files of a directory, as they were enumerated. A file has none.
    pub open spec fn files(self) -> Seq<FrameFile> {
        match self {
            RootEntry::Directory { files, .. } => files@,
            RootEntry::File { .. } => Seq::empty(),
        }
    }
}

/// The names of the directories among a listing's entries.
pub open spec fn directory_names(entries: Seq<RootEntry>) -> Set<Seq<char>> {
    Set::new(
        |key: Seq<char>|
            exists|i: int| 0 <= i < entries.len() && #[trigger] entries[i].is_directory_named(key),
    )
}

/// No two directories of the listing share a name.
pub open spec fn distinct_directories(entries: Seq<RootEntry>) -> bool {
    forall|i: int, j: int, key: Seq<char>|
        0 <= i < j < entries.len() && #[trigger] entries[i].is_directory_named(key) ==> !(
        #[trigger] entries[j].is_directory_named(key))
}

/// What asking a table of sequences for frame `index` of `key` gives.
pub open spec fn lookup(
    table: Map<Seq<char>, Seq<FrameHandle>>,
    key: Seq<char>,
    index: int,
) -> Result<FrameHandle, GifError> {
    if !table.contains_key(key) {
        Err(GifError::UnknownSequence)
    } else if 0 <= index < table[key].len() {
        Ok(table[key][index])
    } else {
        Err(GifError::FrameIndexOutOfRange)
    }
}

/// Whether the entry at `at` is a directory that names a sequence: no later
/// directory of the listing carries the same name and replaces it.
pub open spec fn names_sequence(entries: Seq<RootEntry>, at: int) -> bool {
    &&& 0 <= at < entries.len()
    &&& entries[at] is Directory
    &&& forall|later: int|
        at < later < entries.len() ==> !(#[trigger] entries[later]).is_directory_named(
            entries[at].name(),
        )
}

/// Whether `sequence` holds the frames of `files`, one per file, in the
/// order of the files' names: frame `i` is the frame of the file whose name
/// comes `i`-th.
pub open spec fn plays_in_name_order(files: Seq<FrameFile>, sequence: Seq<FrameHandle>) -> bool {
    exists|sorted: Seq<FrameFile>|
        sorted_by_name(sorted) && sorted.to_multiset() == files.to_multiset() && (
        #[trigger] handles_of(sorted)) == sequence
}

/// Whether `table` is what the entries of a listing build: one sequence per
/// directory name, each playing the files of the directory that names it in
/// name order, however the files were enumerated.
pub open spec fn holds_layout(
    table: Map<Seq<char>, Seq<FrameHandle>>,
    entries: Seq<RootEntry>,
) -> bool {
    &&& table.dom() == directory_names(entries)
    &&& forall|at: int| #[trigger]
        names_sequence(entries, at) ==> plays_in_name_order(
            entries[at].files(),
            table[entries[at].name()],
        )
}

/// Whether `entries` holds a directory with the name and the files of
/// `directory`, the files in any order.
pub open spec fn holds_directory(entries: Seq<RootEntry>, directory: RootEntry) -> bool {
    exists|at: int|
        0 <= at < entries.len() && (#[trigger] entries[at]).is_directory_named(directory.name())
            && entries[at].files().to_multiset() == directory.files().to_multiset()
}

/// Whether two listings enumerate one layout: the same directories with the
/// same files, in whatever order each enumeration gave them.
pub open spec fn same_layout(first: Seq<RootEntry>, second: Seq<RootEntry>) -> bool {
    &&& forall|i: int|
        0 <= i < first.len() && (#[trigger] first[i]) is Directory ==> holds_directory(
            second,
            first[i],
        )
    &&& forall|j: int|
        0 <= j < second.len() && (#[trigger] second[j]) is Directory ==> holds_directory(
            first,
            second[j],
        )
}

proof fn lemma_layout_grows(
    table: Map<Seq<char>, Seq<FrameHandle>>,
    entries: Seq<RootEntry>,
    next: int,
    sorted: Seq<FrameFile>,
)
    requires
        0 <= next < entries.len(),
        holds_layout(table, entries.take(next)),
        entries[next] is Directory ==> sorted_by_name(sorted) && sorted.to_multiset()
            == entries[next].files().to_multiset(),
    ensures
        holds_layout(
            if entries[next] is Directory {
                table.insert(entries[next].name(), handles_of(sorted))
            } else {
                table
            },
            entries.take(next + 1),
        ),
{
    let before = entries.take(next);
    let after = entries.take(next + 1);
    let grown = if entries[next] is Directory {
        table.insert(entries[next].name(), handles_of(sorted))
    } else {
        table
    };
    assert forall|key: Seq<char>| grown.dom().contains(key) <==> directory_names(after).contains(
        key,
    ) by {
        if directory_names(after).contains(key) {
            let i = choose|i: int|
                0 <= i < after.len() && #[trigger] after[i].is_directory_named(key);
            if i < next {
                assert(before[i].is_directory_named(key));
            }
        }
        if directory_names(before).contains(key) {
            let i = choose|i: int|
                0 <= i < before.len() && #[trigger] before[i].is_directory_named(key);
            assert(after[i].is_directory_named(key));
        }
        if entries[next].is_directory_named(key) {
            assert(after[next].is_directory_named(key));
        }
    }
    assert(grown.dom() =~= directory_names(after));
    assert forall|at: int| #[trigger] names_sequence(after, at) implies plays_in_name_order(
        after[at].files(),
        grown[after[at].name()],
    ) by {
        if at == next {
            assert(handles_of(sorted) == grown[after[at].name()]);
        } else {
            assert(before[at] == after[at]);
            assert forall|later: int| at < later < before.len() implies !(
            #[trigger] before[later]).is_directory_named(before[at].name()) by {
                assert(before[later] == after[later]);
            }
            assert(names_sequence(before, at));
            assert(!after[next].is_directory_named(after[at].name()));
        }
    }
}

/// A layout in which every directory has a name of its own is stored as it
/// stands: one sequence per directory, under the directory's name, with one
/// frame per file of the directory, in name order.
pub proof fn lemma_layout_is_stored(
    table: Map<Seq<char>, Seq<FrameHandle>>,
    entries: Seq<RootEntry>,
)
    requires
        holds_layout(table, entries),
        distinct_directories(entries),
    ensures
        table.dom() == directory_names(entries),
        forall|at: int|
            0 <= at < entries.len() && (#[trigger] entries[at]) is Directory ==> {
                &&& table.contains_key(entries[at].name())
                &&& plays_in_name_order(entries[at].files(), table[entries[at].name()])
                &&& table[entries[at].name()].len() == entries[at].files().len()
            },
{
    assert forall|at: int| 0 <= at < entries.len() && (#[trigger] entries[at]) is Directory implies {
        &&& table.contains_key(entries[at].name())
        &&& plays_in_name_order(entries[at].files(), table[entries[at].name()])
        &&& table[entries[at].name()].len() == entries[at].files().len()
    } by {
        lemma_distinct_directory_names_sequence(entries, at);
        let name = entries[at].name();
        assert(entries[at].is_directory_named(name));
        assert(directory_names(entries).contains(name));
        let sorted = choose|sorted: Seq<FrameFile>|
            sorted_by_name(sorted) && sorted.to_multiset() == entries[at].files().to_multiset()
                && (#[trigger] handles_of(sorted)) == table[name];
        sorted.to_multiset_ensures();
        entries[at].files().to_multiset_ensures();
    }
}

proof fn lemma_distinct_directory_names_sequence(entries: Seq<RootEntry>, at: int)
    requires
        distinct_directories(entries),
        0 <= at < entries.len(),
        entries[at] is Directory,
    ensures
        names_sequence(entries, at),
{
    let name = entries[at].name();
    assert(entries[at].is_directory_named(name));
    assert forall|later: int| at < later < entries.len() implies !(
    #[trigger] entries[later]).is_directory_named(name) by {
        if entries[later].is_directory_named(name) {
            assert(false);
        }
    }
}

/// Files with names of their own play in one order only: two enumerations
/// of the same files give the same sequence.
pub proof fn lemma_name_order_is_one_order(
    first: Seq<FrameFile>,
    second: Seq<FrameFile>,
    played: Seq<FrameHandle>,
    replayed: Seq<FrameHandle>,
)
    requires
        first.to_multiset() == second.to_multiset(),
        distinct_names(first),
        plays_in_name_order(first, played),
        plays_in_name_order(second, replayed),
    ensures
        played == replayed,
{
    let one = choose|sorted: Seq<FrameFile>|
        sorted_by_name(sorted) && sorted.to_multiset() == first.to_multiset() && (
        #[trigger] handles_of(sorted)) == played;
    let other = choose|sorted: Seq<FrameFile>|
        sorted_by_name(sorted) && sorted.to_multiset() == second.to_multiset() && (
        #[trigger] handles_of(sorted)) == replayed;
    lemma_permutation_keeps_names_distinct(first, one);
    lemma_sorted_order_is_unique(one, other);
}

/// Building is deterministic: two enumerations of one layout, in which no
/// two directories and no two files of a directory share a name, build the
/// same store.
pub proof fn lemma_build_is_deterministic(
    first: Seq<RootEntry>,
    second: Seq<RootEntry>,
    built: Map<Seq<char>, Seq<FrameHandle>>,
    rebuilt: Map<Seq<char>, Seq<FrameHandle>>,
)
    requires
        same_layout(first, second),
        distinct_directories(first),
        distinct_directories(second),
        forall|at: int|
            0 <= at < first.len() && (#[trigger] first[at]) is Directory ==> distinct_names(
                first[at].files(),
            ),
        holds_layout(built, first),
        holds_layout(rebuilt, second),
    ensures
        built == rebuilt,
{
    assert forall|key: Seq<char>| built.dom().contains(key) <==> rebuilt.dom().contains(key) by {
        if directory_names(first).contains(key) {
            let i = choose|i: int|
                0 <= i < first.len() && #[trigger] first[i].is_directory_named(key);
            assert(holds_directory(second, first[i]));
        }
        if directory_names(second).contains(key) {
            let j = choose|j: int|
                0 <= j < second.len() && #[trigger] second[j].is_directory_named(key);
            assert(holds_directory(first, second[j]));
        }
    }
    assert forall|key: Seq<char>| built.dom().contains(key) implies built[key]
        == rebuilt[key] by {
        let i = choose|i: int| 0 <= i < first.len() && #[trigger] first[i].is_directory_named(key);
        assert(holds_directory(second, first[i]));
        let j = choose|j: int|
            0 <= j < second.len() && (#[trigger] second[j]).is_directory_named(first[i].name())
                && second[j].files().to_multiset() == first[i].files().to_multiset();
        lemma_distinct_directory_names_sequence(first, i);
        lemma_distinct_directory_names_sequence(second, j);
        lemma_name_order_is_one_order(
            first[i].files(),
            second[j].files(),
            built[key],
            rebuilt[key],
        );
    }
    assert(built =~= rebuilt);
}

/// Looking a frame up is a matter of the table alone: asking twice gives
/// the same answer. An index inside the sequence gives the frame that
/// stands there, and an index past its end is an error every time, never a
/// stand-in frame.
pub proof fn lemma_lookup_is_stable(
    table: Map<Seq<char>, Seq<FrameHandle>>,
    key: Seq<char>,
    index: int,
    first: Result<FrameHandle, GifError>,
    second: Result<FrameHandle, GifError>,
)
    requires
        first == lookup(table, key, index),
        second == lookup(table, key, index),
    ensures
        first == second,
        table.contains_key(key) && 0 <= index < table[key].len() ==> first == Ok::<
            FrameHandle,
            GifError,
        >(table[key][index]),
        table.contains_key(key) && index >= table[key].len() ==> first == Err::<
            FrameHandle,
            GifError,
        >(GifError::FrameIndexOutOfRange),
        !table.contains_key(key) ==> first == Err::<FrameHandle, GifError>(
            GifError::UnknownSequence,
        ),
{
}

#[derive(Debug)]
struct Sequence {
    key: String,
    frames: Vec<FrameHandle>,
}

spec fn has_key(sequences: Seq<Sequence>, key: Seq<char>) -> bool {
    exists|i: int| 0 <= i < sequences.len() && (#[trigger] sequences[i]).key@ == key
}

spec fn slot_of(sequences: Seq<Sequence>, key: Seq<char>) -> int {
    choose|i: int| 0 <= i < sequences.len() && (#[trigger] sequences[i]).key@ == key
}

spec fn distinct_keys(sequences: Seq<Sequence>) -> bool {
    forall|i: int, j: int|
        0 <= i < j < sequences.len() ==> (#[trigger] sequences[i]).key@ != (
        #[trigger] sequences[j]).key@
}

spec fn table_of(sequences: Seq<Sequence>) -> Map<Seq<char>, Seq<FrameHandle>> {
    Map::new(
        |key: Seq<char>| has_key(sequences, key),
        |key: Seq<char>| sequences[slot_of(sequences, key)].frames@,
    )
}

proof fn lemma_slot(sequences: Seq<Sequence>, i: int)
    requires
        distinct_keys(sequences),
        0 <= i < sequences.len(),
    ensures
        has_key(sequences, sequences[i].key@),
        slot_of(sequences, sequences[i].key@) == i,
        table_of(sequences).contains_key(sequences[i].key@),
        table_of(sequences)[sequences[i].key@] == sequences[i].frames@,
{
    let key = sequences[i].key@;
    let j = slot_of(sequences, key);
    assert(0 <= j < sequences.len() && sequences[j].key@ == key);
}

proof fn lemma_push(sequences: Seq<Sequence>, added: Sequence)
    requires
        distinct_keys(sequences),
        !has_key(sequences, added.key@),
    ensures
        distinct_keys(sequences.push(added)),
        table_of(sequences.push(added)) == table_of(sequences).insert(added.key@, added.frames@),
{
    let longer = sequences.push(added);
    let last = sequences.len() as int;
    assert forall|i: int, j: int| 0 <= i < j < longer.len() implies (#[trigger] longer[i]).key@ != (
    #[trigger] longer[j]).key@ by {
        if j == last {
            assert(sequences[i].key@ != added.key@);
        } else {
            assert(sequences[i].key@ != sequences[j].key@);
        }
    }
    assert forall|key: Seq<char>| has_key(longer, key) <==> (key == added.key@ || has_key(
        sequences,
        key,
    )) by {
        if has_key(longer, key) {
            let i = slot_of(longer, key);
            if i != last {
                assert(sequences[i].key@ == key);
            }
        }
        if key == added.key@ {
            assert(longer[last].key@ == key);
        }
        if has_key(sequences, key) {
            let i = slot_of(sequences, key);
            assert(longer[i].key@ == key);
        }
    }
    assert forall|key: Seq<char>| #[trigger] has_key(longer, key) implies table_of(longer)[key]
        == table_of(sequences).insert(added.key@, added.frames@)[key] by {
        if key == added.key@ {
            lemma_slot(longer, last);
        } else {
            let i = slot_of(sequences, key);
            lemma_slot(sequences, i);
            lemma_slot(longer, i);
        }
    }
    assert(table_of(longer) =~= table_of(sequences).insert(added.key@, added.frames@));
}

proof fn lemma_replace(sequences: Seq<Sequence>, at: int, replacement: Sequence)
    requires
        distinct_keys(sequences),
        0 <= at < sequences.len(),
        replacement.key@ == sequences[at].key@,
    ensures
        distinct_keys(sequences.update(at, replacement)),
        table_of(sequences.update(at, replacement)) == table_of(sequences).insert(
            replacement.key@,
            replacement.frames@,
        ),
{
    let changed = sequences.update(at, replacement);
    assert forall|i: int, j: int| 0 <= i < j < changed.len() implies (#[trigger] changed[i]).key@
        != (#[trigger] changed[j]).key@ by {
        assert(changed[i].key@ == sequences[i].key@);
        assert(changed[j].key@ == sequences[j].key@);
    }
    assert forall|key: Seq<char>| has_key(changed, key) <==> has_key(sequences, key) by {
        if has_key(changed, key) {
            let i = slot_of(changed, key);
            assert(sequences[i].key@ == key);
        }
        if has_key(sequences, key) {
            let i = slot_of(sequences, key);
            assert(changed[i].key@ == key);
        }
    }
    lemma_slot(sequences, at);
    assert forall|key: Seq<char>| #[trigger] has_key(changed, key) implies table_of(changed)[key]
        == table_of(sequences).insert(replacement.key@, replacement.frames@)[key] by {
        let i = slot_of(sequences, key);
        lemma_slot(sequences, i);
        lemma_slot(changed, i);
    }
    assert(table_of(changed) =~= table_of(sequences).insert(
        replacement.key@,
        replacement.frames@,
    ));
}

fn copy_files(files: &Vec<FrameFile>) -> (copy: Vec<FrameFile>)
    ensures
        copy@ == files@,
{
    let mut copy: Vec<FrameFile> = Vec::new();
    let mut i: usize = 0;
    while i < files.len()
        invariant
            i <= files.len(),
            copy.len() == i,
            forall|j: int| 0 <= j < i ==> copy[j] == files[j],
        decreases files.len() - i,
    {
        copy.push(FrameFile { name: files[i].name.clone(), handle: files[i].handle });
        i = i + 1;
    }
    assert(copy@ =~= files@);
    copy
}

fn collect_handles(files: &Vec<FrameFile>) -> (handles: Vec<FrameHandle>)
    ensures
        handles@ == handles_of(files@),
{
    let mut handles: Vec<FrameHandle> = Vec::new();
    let mut i: usize = 0;
    while i < files.len()
        invariant
            i <= files.len(),
            handles.len() == i,
            forall|j: int| 0 <= j < i ==> handles[j] == files[j].handle,
        decreases files.len() - i,
    {
        handles.push(files[i].handle);
        i = i + 1;
    }
    assert(handles@ =~= handles_of(files@));
    handles
}

fn find(sequences: &Vec<Sequence>, key: &String) -> (found: Option<usize>)
    ensures
        match found {
            Some(i) => i < sequences.len() && sequences[i as int].key@ == key@,
            None => !has_key(sequences@, key@),
        },
{
    let mut i: usize = 0;
    while i < sequences.len()
        invariant
            i <= sequences.len(),
            forall|j: int| 0 <= j < i ==> (#[trigger] sequences[j]).key@ != key@,
        decreases sequences.len() - i,
    {
        if sequences[i].key == *key {
            return Some(i);
        }
        i = i + 1;
    }
    None
}

fn insert(sequences: &mut Vec<Sequence>, sequence: Sequence)
    requires
        distinct_keys(old(sequences)@),
    ensures
        distinct_keys(final(sequences)@),
        table_of(final(sequences)@) == table_of(old(sequences)@).insert(
            sequence.key@,
            sequence.frames@,
        ),
{
    match find(sequences, &sequence.key) {
        Some(at) => {
            proof {
                lemma_replace(sequences@, at as int, sequence);
            }
            sequences.set(at, sequence);
        },
        None => {
            proof {
                lemma_push(sequences@, sequence);
            }
            sequences.push(sequence);
        },
    }
}

/// The frame store: every animation's frames, keyed by sequence name.
///
/// It is built once from a listing of the asset root and only read
/// afterwards, so any number of bindings can share one store.
#[derive(Debug)]
pub struct Gif {
    sequences: Vec<Sequence>,
}

impl View for Gif {
    type V = Map<Seq<char>, Seq<FrameHandle>>;

    /// The stored sequences: each key with its frames in order.
    closed spec fn view(&self) -> Map<Seq<char>, Seq<FrameHandle>> {
        table_of(self.sequences@)
    }
}

impl Gif {
    #[verifier::type_invariant]
    spec fn keys_are_distinct(&self) -> bool {
        distinct_keys(self.sequences@)
    }

    /// Builds the store from a listing of the asset root.
    ///
    /// Every subdirectory becomes a sequence under its own name, with one
    /// frame per file. The frames play in the order of the file names,
    /// whatever order the files were enumerated in, so that one layout
    /// always plays the same way. An empty subdirectory becomes an empty
    /// sequence, and of two directories with one name the later counts.
    /// Entries that are not directories are ignored. An unreadable root is
    /// the only way to fail.
    pub fn new(listing: &RootListing) -> (built: Result<Gif, GifError>)
        ensures
            match *listing {
                RootListing::Unreadable => built == Err::<Gif, GifError>(GifError::AssetLoadError),
                RootListing::Entries(entries) => built matches Ok(store) && holds_layout(
                    store@,
                    entries@,
                ),
            },
    {
        match listing {
            RootListing::Unreadable => Err(GifError::AssetLoadError),
            RootListing::Entries(entries) => {
                let mut sequences: Vec<Sequence> = Vec::new();
                proof {
                    assert(table_of(sequences@) =~= Map::empty());
                    assert(table_of(sequences@).dom() =~= directory_names(entries@.take(0)));
                }
                let mut i: usize = 0;
                while i < entries.len()
                    invariant
                        i <= entries.len(),
                        distinct_keys(sequences@),
                        holds_layout(table_of(sequences@), entries@.take(i as int)),
                    decreases entries.len() - i,
                {
                    match &entries[i] {
                        RootEntry::Directory { name, files } => {
                            let mut sorted = copy_files(files);
                            sort_by_name(&mut sorted);
                            proof {
                                lemma_layout_grows(
                                    table_of(sequences@),
                                    entries@,
                                    i as int,
                                    sorted@,
                                );
                            }
                            let sequence = Sequence {
                                key: name.clone(),
                                frames: collect_handles(&sorted),
                            };
                            insert(&mut sequences, sequence);
                        },
                        RootEntry::File { .. } => {
                            proof {
                                lemma_layout_grows(
                                    table_of(sequences@),
                                    entries@,
                                    i as int,
                                    Seq::empty(),
                                );
                            }
                        },
                    }
                    i = i + 1;
                }
                assert(entries@.take(entries.len() as int) == entries@);
                Ok(Gif { sequences })
            },
        }
    }

    /// The frame at `frame` in the sequence stored under `key`.
    ///
    /// A pure lookup: no clamping, no wrap-around. An unknown key and an
    /// index past the end are both errors.
    pub fn get(&self, key: String, frame: usize) -> (found: Result<FrameHandle, GifError>)
        ensures
            found == lookup(self@, key@, frame as int),
    {
        proof {
            use_type_invariant(self);
        }
        match find(&self.sequences, &key) {
            None => Err(GifError::UnknownSequence),
            Some(at) => {
                proof {
                    lemma_slot(self.sequences@, at as int);
                }
                let frames = &self.sequences[at].frames;
                if frame < frames.len() {
                    Ok(frames[frame])
                } else {
                    Err(GifError::FrameIndexOutOfRange)
                }
            },
        }
    }

    /// Whether a sequence is stored under `key`.
    pub fn contains_key(&self, key: &String) -> (held: bool)
        ensures
            held == self@.contains_key(key@),
    {
        proof {
            use_type_invariant(self);
        }
        match find(&self.sequences, key) {
            None => false,
            Some(at) => {
                proof {
                    lemma_slot(self.sequences@, at as int);
                }
                true
            },
        }
    }

    /// The keys of all stored sequences, each once, in no promised order.
    pub fn keys(&self) -> (keys: Vec<String>)
        ensures
            forall|key: Seq<char>|
                self@.contains_key(key) <==> exists|i: int|
                    0 <= i < keys.len() && (#[trigger] keys[i])@ == key,
            forall|i: int, j: int|
                0 <= i < j < keys.len() ==> (#[trigger] keys[i])@ != (#[trigger] keys[j])@,
    {
        proof {
            use_type_invariant(self);
        }
        let mut keys: Vec<String> = Vec::new();
        let mut i: usize = 0;
        while i < self.sequences.len()
            invariant
                i <= self.sequences.len(),
                keys.len() == i,
                forall|j: int| 0 <= j < i ==> (#[trigger] keys[j])@ == self.sequences[j].key@,
            decreases self.sequences.len() - i,
        {
            keys.push(self.sequences[i].key.clone());
            i = i + 1;
        }
        proof {
            assert forall|key: Seq<char>|
                self@.contains_key(key) <==> exists|i: int|
                    0 <= i < keys.len() && (#[trigger] keys[i])@ == key by {
                if self@.contains_key(key) {
                    let at = slot_of(self.sequences@, key);
                    assert(keys[at]@ == key);
                }
                if exists|i: int| 0 <= i < keys.len() && (#[trigger] keys[i])@ == key {
                    let at = choose|i: int| 0 <= i < keys.len() && (#[trigger] keys[i])@ == key;
                    assert(self.sequences[at].key@ == key);
                }
            }
            assert forall|i: int, j: int| 0 <= i < j < keys.len() implies (#[trigger] keys[i])@ != (
            #[trigger] keys[j])@ by {
                assert(self.sequences[i].key@ != self.sequences[j].key@);
            }
        }
        keys
    }

    /// How many frames the sequence under `key` holds, if there is one.
    pub fn sequence_len(&self, key: &String) -> (len: Option<usize>)
        ensures
            len == if self@.contains_key(key@) {
                Some(self@[key@].len() as usize)
            } else {
                None
            },
            self@.contains_key(key@) ==> self@[key@].len() <= usize::MAX,
    {
        proof {
            use_type_invariant(self);
        }
        match find(&self.sequences, key) {
            None => None,
            Some(at) => {
                proof {
                    lemma_slot(self.sequences@, at as int);
                }
                Some(self.sequences[at].frames.len())
            },
        }
    }
}

} // verus!
