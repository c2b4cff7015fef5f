//! What is written to persistence to install a checkpoint, and in which order.
use crate::text_map::TextMap;
use std::collections::BTreeMap;
use vstd::prelude::*;
use vstd::string::*;

verus! {

/// How many rows are written at a time.
pub const CHUNK: usize = 1024;

/// A record about the whole database that an install writes.
#[derive(Debug)]
pub enum GlobalWrite {
    /// What the checkpoint has recorded under this key.
    Recorded(String),
    /// That no transaction is prepared: an empty map of redo records.
    NoRedoRecords,
    /// That no data has been received from another partition: an empty map of
    /// data watermarks.
    NoDataWatermarks,
}

/// Such a record, as contracts speak of it.
pub enum GlobalText {
    Recorded(Seq<char>),
    NoRedoRecords,
    NoDataWatermarks,
}

impl View for GlobalWrite {
    type V = GlobalText;

    open spec fn view(&self) -> GlobalText {
        match self {
            GlobalWrite::Recorded(key) => GlobalText::Recorded(key@),
            GlobalWrite::NoRedoRecords => GlobalText::NoRedoRecords,
            GlobalWrite::NoDataWatermarks => GlobalText::NoDataWatermarks,
        }
    }
}

/// The keys, as contracts speak of them.
pub open spec fn key_texts(keys: Seq<String>) -> Seq<Seq<char>> {
    keys.map_values(|k: String| k@)
}

/// Those of `keys` that are recorded, in order.
pub open spec fn recorded_keys(keys: Seq<Seq<char>>, recorded: Set<Seq<char>>) -> Seq<Seq<char>> {
    keys.filter(|k: Seq<char>| recorded.contains(k))
}

/// What an install records about the whole database: of `keys`, whatever the
/// checkpoint has; then that nothing is prepared; and where the checkpoint does not
/// say what data it has received, that it has received none.
pub open spec fn global_writes(keys: Seq<Seq<char>>, recorded: Set<Seq<char>>, data_watermarks: Seq<char>) -> Seq<
    GlobalText,
> {
    recorded_keys(keys, recorded).map_values(|k: Seq<char>| GlobalText::Recorded(k)).push(
        GlobalText::NoRedoRecords,
    ) + if recorded.contains(data_watermarks) {
        Seq::<GlobalText>::empty()
    } else {
        seq![GlobalText::NoDataWatermarks]
    }
}

/// Records, as contracts speak of them.
pub open spec fn global_texts(writes: Seq<GlobalWrite>) -> Seq<GlobalText> {
    writes.map_values(|w: GlobalWrite| w@)
}

/// Says what an install records about the whole database. `keys` are the keys under
/// which a checkpoint may have records, `globals` is what it has, and
/// `data_watermarks` the key of what data has been received.
pub fn checkpoint_globals<V>(keys: &Vec<String>, globals: &TextMap<V>, data_watermarks: &str) -> (r: Vec<
    GlobalWrite,
>)
    ensures
        global_texts(r@) == global_writes(key_texts(keys@), globals@.dom(), data_watermarks@),
{
    let ghost texts = key_texts(keys@);
    let ghost has = |k: Seq<char>| globals@.dom().contains(k);
    let ghost wrap = |k: Seq<char>| GlobalText::Recorded(k);
    let mut r: Vec<GlobalWrite> = Vec::new();
    let mut i: usize = 0;
    assert(texts.take(0) =~= Seq::empty());
    assert(texts.take(0).filter(has) =~= Seq::empty()) by {
        reveal(Seq::filter);
    }
    assert(global_texts(r@) =~= texts.take(0).filter(has).map_values(wrap));
    while i < keys.len()
        invariant
            i <= keys@.len(),
            texts == key_texts(keys@),
            has == (|k: Seq<char>| globals@.dom().contains(k)),
            wrap == (|k: Seq<char>| GlobalText::Recorded(k)),
            global_texts(r@) == texts.take(i as int).filter(has).map_values(wrap),
        decreases keys@.len() - i,
    {
        let ghost before = r@;
        let ghost kept = texts.take(i as int).filter(has);
        proof {
            assert(texts.take(i + 1).drop_last() =~= texts.take(i as int));
            assert(texts.take(i + 1).last() == keys@[i as int]@);
            reveal(Seq::filter);
        }
        if globals.contains_key(keys[i].as_str()) {
            r.push(GlobalWrite::Recorded(keys[i].as_str().to_owned()));
            assert(texts.take(i + 1).filter(has) =~= kept.push(keys@[i as int]@));
            assert(global_texts(r@) =~= global_texts(before).push(
                GlobalText::Recorded(keys@[i as int]@),
            ));
            assert(kept.push(keys@[i as int]@).map_values(wrap) =~= kept.map_values(wrap).push(
                GlobalText::Recorded(keys@[i as int]@),
            ));
        } else {
            assert(texts.take(i + 1).filter(has) =~= kept);
        }
        i += 1;
    }
    assert(texts.take(i as int) =~= texts);
    let ghost recorded = r@;
    r.push(GlobalWrite::NoRedoRecords);
    assert(global_texts(r@) =~= global_texts(recorded).push(GlobalText::NoRedoRecords));
    if !globals.contains_key(data_watermarks) {
        let ghost reset = r@;
        r.push(GlobalWrite::NoDataWatermarks);
        assert(global_texts(r@) =~= global_texts(reset) + seq![GlobalText::NoDataWatermarks]);
    }
    assert(global_texts(r@) =~= global_writes(texts, globals@.dom(), data_watermarks@));
    r
}

/// How many chunks `len` rows take.
pub open spec fn num_chunks(len: int) -> int {
    (len + CHUNK - 1) / CHUNK as int
}

/// Where the `i`-th chunk of `len` rows begins and ends.
pub open spec fn chunk(len: int, i: int) -> (int, int) {
    (
        i * CHUNK,
        if (i + 1) * CHUNK <= len {
            (i + 1) * CHUNK
        } else {
            len
        },
    )
}

/// What is done to install a checkpoint.
#[derive(Debug)]
pub enum InstallStep {
    /// Delete every document that persistence has.
    DeleteDocuments,
    /// Delete every index entry that persistence has, a chunk at a time.
    DeleteIndexEntries,
    /// Write these of the checkpoint's documents, over what may be there.
    WriteDocuments { from: usize, to: usize },
    /// Write these of the checkpoint's index entries, over what may be there.
    WriteIndexEntries { from: usize, to: usize },
    /// Write a record about the whole database.
    WriteGlobal(GlobalWrite),
}

/// What is done, as contracts speak of it.
pub enum InstallAct {
    DeleteDocuments,
    DeleteIndexEntries,
    WriteDocuments(int, int),
    WriteIndexEntries(int, int),
    WriteGlobal(GlobalText),
}

impl View for InstallStep {
    type V = InstallAct;

    open spec fn view(&self) -> InstallAct {
        match self {
            InstallStep::DeleteDocuments => InstallAct::DeleteDocuments,
            InstallStep::DeleteIndexEntries => InstallAct::DeleteIndexEntries,
            InstallStep::WriteDocuments { from, to } => InstallAct::WriteDocuments(
                *from as int,
                *to as int,
            ),
            InstallStep::WriteIndexEntries { from, to } => InstallAct::WriteIndexEntries(
                *from as int,
                *to as int,
            ),
            InstallStep::WriteGlobal(w) => InstallAct::WriteGlobal(w@),
        }
    }
}

/// Steps, as contracts speak of them.
pub open spec fn acts(steps: Seq<InstallStep>) -> Seq<InstallAct> {
    steps.map_values(|s: InstallStep| s@)
}

/// Writing `documents` documents, a chunk at a time.
pub open spec fn document_writes(documents: int) -> Seq<InstallAct> {
    Seq::new(
        num_chunks(documents) as nat,
        |i: int| InstallAct::WriteDocuments(chunk(documents, i).0, chunk(documents, i).1),
    )
}

/// Writing `entries` index entries, a chunk at a time.
pub open spec fn index_writes(entries: int) -> Seq<InstallAct> {
    Seq::new(
        num_chunks(entries) as nat,
        |i: int| InstallAct::WriteIndexEntries(chunk(entries, i).0, chunk(entries, i).1),
    )
}

/// All that is done to install a checkpoint: what was there goes first, then come
/// documents, index entries and the records about the whole database.
pub open spec fn install_acts(
    has_documents: bool,
    documents: int,
    index_entries: int,
    globals: Seq<GlobalText>,
) -> Seq<InstallAct> {
    (if has_documents {
        seq![InstallAct::DeleteDocuments]
    } else {
        Seq::<InstallAct>::empty()
    }).push(InstallAct::DeleteIndexEntries) + document_writes(documents) + index_writes(
        index_entries,
    ) + globals.map_values(|g: GlobalText| InstallAct::WriteGlobal(g))
}

proof fn lemma_acts_push(steps: Seq<InstallStep>, step: InstallStep)
    ensures
        acts(steps.push(step)) == acts(steps).push(step@),
{
    assert(acts(steps.push(step)) =~= acts(steps).push(step@));
}

/// Appends a step for each chunk of `len` rows, of documents or of index entries.
fn push_chunks(steps: &mut Vec<InstallStep>, len: usize, of_documents: bool)
    ensures
        acts(final(steps)@) == acts(old(steps)@) + if of_documents {
            document_writes(len as int)
        } else {
            index_writes(len as int)
        },
{
    let ghost all = if of_documents {
        document_writes(len as int)
    } else {
        index_writes(len as int)
    };
    let ghost mut done: int = 0;
    let mut from: usize = 0;
    assert(all.take(0) =~= Seq::empty());
    assert(acts(steps@) =~= acts(old(steps)@) + all.take(0));
    while from < len
        invariant
            from <= len,
            from == if done * CHUNK <= len {
                done * CHUNK
            } else {
                len as int
            },
            0 <= done <= num_chunks(len as int),
            all == if of_documents {
                document_writes(len as int)
            } else {
                index_writes(len as int)
            },
            acts(steps@) == acts(old(steps)@) + all.take(done),
            from == len ==> done == num_chunks(len as int),
        decreases len - from,
    {
        let to: usize = if len - from <= CHUNK {
            len
        } else {
            from + CHUNK
        };
        let ghost before = steps@;
        assert(from == done * CHUNK);
        assert(done < num_chunks(len as int));
        assert(chunk(len as int, done) == (from as int, to as int));
        let step: InstallStep = if of_documents {
            InstallStep::WriteDocuments { from, to }
        } else {
            InstallStep::WriteIndexEntries { from, to }
        };
        proof {
            lemma_acts_push(before, step);
            assert(all[done] == step@);
            assert(all.take(done + 1) =~= all.take(done).push(all[done]));
        }
        steps.push(step);
        assert(acts(steps@) =~= acts(old(steps)@) + all.take(done + 1));
        from = to;
        proof {
            done = done + 1;
        }
    }
    assert(all.take(done) =~= all);
}

/// Says what is done to install a checkpoint: `documents` and `index_entries` are
/// how many of each it has, `has_documents` is whether persistence has any, and
/// `globals` is what is recorded about the whole database.
pub fn install_steps(
    has_documents: bool,
    documents: usize,
    index_entries: usize,
    globals: Vec<GlobalWrite>,
) -> (r: Vec<InstallStep>)
    ensures
        acts(r@) == install_acts(
            has_documents,
            documents as int,
            index_entries as int,
            global_texts(globals@),
        ),
{
    let mut globals: Vec<GlobalWrite> = globals;
    let ghost all = globals@;
    let mut steps: Vec<InstallStep> = Vec::new();
    if has_documents {
        steps.push(InstallStep::DeleteDocuments);
    }
    steps.push(InstallStep::DeleteIndexEntries);
    push_chunks(&mut steps, documents, true);
    push_chunks(&mut steps, index_entries, false);
    let ghost rows = acts(steps@);
    let mut last: Vec<InstallStep> = Vec::new();
    while globals.len() > 0
        invariant
            globals@.len() <= all.len(),
            globals@ == all.take(globals@.len() as int),
            last@.len() + globals@.len() == all.len(),
            forall|i: int|
                0 <= i < last@.len() ==> (#[trigger] last@[i])@ == InstallAct::WriteGlobal(
                    all[all.len() - 1 - i]@,
                ),
        decreases globals@.len(),
    {
        if let Some(g) = globals.pop() {
            last.push(InstallStep::WriteGlobal(g));
        }
    }
    let ghost wrapped = global_texts(all).map_values(|g: GlobalText| InstallAct::WriteGlobal(g));
    assert(acts(steps@) =~= rows + wrapped.take(0));
    while last.len() > 0
        invariant
            last@.len() <= all.len(),
            wrapped == global_texts(all).map_values(|g: GlobalText| InstallAct::WriteGlobal(g)),
            acts(steps@) == rows + wrapped.take(all.len() - last@.len()),
            forall|i: int|
                0 <= i < last@.len() ==> (#[trigger] last@[i])@ == InstallAct::WriteGlobal(
                    all[all.len() - 1 - i]@,
                ),
        decreases last@.len(),
    {
        let ghost k = all.len() - last@.len();
        let ghost before = steps@;
        assert(last@[last@.len() - 1]@ == wrapped[k]);
        if let Some(step) = last.pop() {
            proof {
                lemma_acts_push(before, step);
                assert(wrapped.take(k + 1) =~= wrapped.take(k).push(wrapped[k]));
            }
            steps.push(step);
            assert(acts(steps@) =~= rows + wrapped.take(k + 1));
        }
    }
    assert(wrapped.take(all.len() as int) =~= wrapped);
    steps
}

/// What the checkpoint says of what has been received: what it has recorded, or
/// that nothing has been.
pub fn checkpoint_watermarks(recorded: Option<BTreeMap<u32, u64>>) -> (r: BTreeMap<u32, u64>)
    ensures
        r@ == match recorded {
            Some(m) => m@,
            None => Map::empty(),
        },
{
    match recorded {
        Some(m) => m,
        None => {
            let r: BTreeMap<u32, u64> = BTreeMap::new();
            assert(r@ =~= Map::<u32, u64>::empty());
            r
        },
    }
}

/// The chunks of `len` rows are all of them, one after the other; none is empty or
/// too long.
pub proof fn chunks_cover_all_rows(len: nat)
    ensures
        len == 0 ==> num_chunks(len as int) == 0,
        len > 0 ==> num_chunks(len as int) > 0 && chunk(len as int, 0).0 == 0 && chunk(
            len as int,
            num_chunks(len as int) - 1,
        ).1 == len,
        forall|i: int|
            0 <= i < num_chunks(len as int) ==> {
                let (from, to) = #[trigger] chunk(len as int, i);
                0 <= from < to <= len && to - from <= CHUNK
            },
        forall|i: int|
            0 <= i < num_chunks(len as int) - 1 ==> (#[trigger] chunk(len as int, i)).1 == chunk(
                len as int,
                i + 1,
            ).0,
{
}

/// However a checkpoint was made, nothing is prepared once it is installed: that
/// there are no redo records is written after all that was recorded.
pub proof fn installs_forget_what_was_prepared(
    keys: Seq<Seq<char>>,
    recorded: Set<Seq<char>>,
    data_watermarks: Seq<char>,
)
    ensures
        ({
            let writes = global_writes(keys, recorded, data_watermarks);
            let n = recorded_keys(keys, recorded).len() as int;
            &&& n < writes.len()
            &&& writes[n] == GlobalText::NoRedoRecords
            &&& forall|i: int|
                0 <= i < writes.len() ==> ((#[trigger] writes[i]) is Recorded <==> i < n)
        }),
{
}

/// An installed checkpoint always says what data has been received: it does itself,
/// or that there was none is written, never both.
pub proof fn installs_settle_data_watermarks(
    keys: Seq<Seq<char>>,
    recorded: Set<Seq<char>>,
    data_watermarks: Seq<char>,
)
    requires
        keys.contains(data_watermarks),
    ensures
        global_writes(keys, recorded, data_watermarks).contains(
            GlobalText::Recorded(data_watermarks),
        ) <==> recorded.contains(data_watermarks),
        global_writes(keys, recorded, data_watermarks).contains(GlobalText::NoDataWatermarks)
            <==> !recorded.contains(data_watermarks),
{
    let writes = global_writes(keys, recorded, data_watermarks);
    let kept = recorded_keys(keys, recorded);
    if recorded.contains(data_watermarks) {
        let k = choose|k: int| 0 <= k < keys.len() && keys[k] == data_watermarks;
        assert(kept.contains(keys[k]));
        let i = choose|i: int| 0 <= i < kept.len() && kept[i] == data_watermarks;
        assert(writes[i] == GlobalText::Recorded(data_watermarks));
    } else {
        assert(writes[writes.len() - 1] == GlobalText::NoDataWatermarks);
    }
}

/// An install deletes before it writes, writes documents before index entries, and
/// writes what is recorded last: each piece once, in order, and nothing else.
pub proof fn installs_delete_before_they_write(
    has_documents: bool,
    documents: nat,
    index_entries: nat,
    globals: Seq<GlobalText>,
    i: int,
)
    ensures
        ({
            let acts = install_acts(
                has_documents,
                documents as int,
                index_entries as int,
                globals,
            );
            let start: int = if has_documents {
                2
            } else {
                1
            };
            let d = num_chunks(documents as int);
            let e = num_chunks(index_entries as int);
            &&& acts.len() == start + d + e + globals.len()
            &&& has_documents ==> acts[0] == InstallAct::DeleteDocuments
            &&& acts[start - 1] == InstallAct::DeleteIndexEntries
            &&& 0 <= i < d ==> acts[start + i] == InstallAct::WriteDocuments(
                i * 1024,
                if (i + 1) * 1024 <= documents {
                    (i + 1) * 1024
                } else {
                    documents as int
                },
            )
            &&& 0 <= i < e ==> acts[start + d + i] == InstallAct::WriteIndexEntries(
                i * 1024,
                if (i + 1) * 1024 <= index_entries {
                    (i + 1) * 1024
                } else {
                    index_entries as int
                },
            )
            &&& 0 <= i < globals.len() ==> acts[start + d + e + i] == InstallAct::WriteGlobal(
                globals[i],
            )
        }),
{
    assert(num_chunks(documents as int) >= 0);
    assert(num_chunks(index_entries as int) >= 0);
}

proof fn lemma_recorded_keys(keys: Seq<Seq<char>>, recorded: Set<Seq<char>>, key: Seq<char>)
    requires
        recorded_keys(keys, recorded).contains(key),
    ensures
        keys.contains(key),
        recorded.contains(key),
    decreases keys.len(),
{
    reveal(Seq::filter);
    if keys.len() > 0 {
        let front = keys.drop_last();
        let kept = recorded_keys(keys, recorded);
        let rest = recorded_keys(front, recorded);
        let i = choose|i: int| 0 <= i < kept.len() && kept[i] == key;
        if i < rest.len() {
            assert(rest[i] == key);
            lemma_recorded_keys(front, recorded, key);
            let k = choose|k: int| 0 <= k < front.len() && front[k] == key;
            assert(keys[k] == key);
        } else {
            assert(keys[keys.len() - 1] == key);
        }
    }
}

/// What a checkpoint recorded is written, and nothing that it did not.
pub proof fn installs_write_what_was_recorded(
    keys: Seq<Seq<char>>,
    recorded: Set<Seq<char>>,
    data_watermarks: Seq<char>,
    key: Seq<char>,
)
    ensures
        global_writes(keys, recorded, data_watermarks).contains(GlobalText::Recorded(key))
            <==> keys.contains(key) && recorded.contains(key),
{
    let writes = global_writes(keys, recorded, data_watermarks);
    let kept = recorded_keys(keys, recorded);
    broadcast use vstd::seq_lib::group_filter_ensures;

    if keys.contains(key) && recorded.contains(key) {
        let k = choose|k: int| 0 <= k < keys.len() && keys[k] == key;
        assert(kept.contains(keys[k]));
        let i = choose|i: int| 0 <= i < kept.len() && kept[i] == key;
        assert(writes[i] == GlobalText::Recorded(key));
    }
    if writes.contains(GlobalText::Recorded(key)) {
        let i = choose|i: int| 0 <= i < writes.len() && writes[i] == GlobalText::Recorded(key);
        assert(i < kept.len());
        assert(kept[i] == key);
        lemma_recorded_keys(keys, recorded, key);
    }
}

} // verus!
