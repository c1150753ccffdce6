//! Recovery: find the files of a data directory, open its tables and replay
//! its WAL segments.
use vstd::prelude::*;

use crate::crypto::aead::AeadKey;
use crate::crypto::kdf::{derive_sstable_key, MasterKey};
use crate::engine::disk::{
    all_records, clamped, disk_ok, disk_top, files_ok, floor_of, history_ok, increasing, last_seqno,
    law_recovery_restores_history, lemma_clamped, lemma_top, op_fits, readable, record_ops,
    replayed, runs, segment_ok, stored, table_crypto, top_of, Disk, Segment, TableFile,
};
use crate::engine::flush::master_view;
use crate::engine::history::{applied, entry_of, layers_ok};
use crate::engine::names::{
    law_names_round_trip, lemma_name_shape, lemma_path_joins, parse_sst, parse_sst_name,
    parse_wal_name, parse_wal_segment_name, path_in, sst_name, sst_path, table_path, wal_name,
    wal_path, wal_segment_path,
};
use crate::engine::state::LiveSst;
use crate::error::{Error, ErrorView, Result};
use crate::io::vfs::{bytes_of, is_open, join, lists_dir, FsState, Vfs, VfsFile};
use crate::memtable::skiplist::{OpType, SkipList};
use crate::model::Entry;
use crate::sstable::reader::SstReader;
use crate::sstable::table::{
    failed_io, failed_with, flat, header_fits, is_table, lemma_table_len, parse_table, table_ok,
    Fault, TableView,
};
use crate::wal::batch::{op_views, parse_batch, Op, WriteBatch};
use crate::wal::format::SEGMENT_HEADER_SIZE;
use crate::wal::reader::{
    parse_segment, record_views, replay_from, LogRecord, RecordView, ReplayEnd, SegmentReader,
};

verus! {

/// Strictly ascending.
pub open spec fn ascending(ids: Seq<u64>) -> bool {
    forall|i: int, j: int| #![trigger ids[i], ids[j]] 0 <= i < j < ids.len() ==> ids[i] < ids[j]
}

/// The directory lists `name`.
pub open spec fn lists(state: FsState, dir: Seq<char>, name: Seq<char>) -> bool {
    state.names.dom().contains(join(dir, name)) && !name.contains('/')
}

/// The directory lists WAL segment `id`.
pub open spec fn lists_wal(state: FsState, dir: Seq<char>, id: u64) -> bool {
    exists|name: Seq<char>| #[trigger] lists(state, dir, name) && parse_wal_name(name) == Some(id)
}

/// The directory lists table `id`.
pub open spec fn lists_table(state: FsState, dir: Seq<char>, id: u64) -> bool {
    exists|name: Seq<char>| #[trigger] lists(state, dir, name) && parse_sst(name) == Some(id)
}

/// The numbers of the WAL segments that the directory lists, in order.
pub open spec fn wal_listing(ids: Seq<u64>, state: FsState, dir: Seq<char>) -> bool {
    &&& ascending(ids)
    &&& forall|id: u64| #[trigger] ids.contains(id) <==> lists_wal(state, dir, id)
}

/// The numbers of the tables that the directory lists, in order.
pub open spec fn table_listing(ids: Seq<u64>, state: FsState, dir: Seq<char>) -> bool {
    &&& ascending(ids)
    &&& forall|id: u64| #[trigger] ids.contains(id) <==> lists_table(state, dir, id)
}

/// Ascending numbers are determined by which they are.
pub proof fn lemma_ascending_equal(a: Seq<u64>, b: Seq<u64>)
    requires
        ascending(a),
        ascending(b),
        forall|x: u64| #[trigger] a.contains(x) <==> b.contains(x),
    ensures
        a == b,
    decreases a.len(),
{
    if a.len() == 0 {
        if b.len() > 0 {
            assert(b.contains(b[0]));
            assert(a.contains(b[0]));
        }
        assert(a =~= b);
    } else {
        assert(a.contains(a[0]));
        assert(b.contains(a[0]));
        let n = a.len() - 1;
        let m = b.len() - 1;
        assert(a.contains(a[n]));
        assert(b.contains(b[m]));
        assert(b.contains(a[n]));
        assert(a.contains(b[m]));
        let i = choose|i: int| 0 <= i < b.len() && b[i] == a[n];
        let j = choose|j: int| 0 <= j < a.len() && a[j] == b[m];
        assert(a[n] == b[m]) by {
            if i < m {
                assert(b[i] < b[m]);
                if j < n {
                    assert(a[j] < a[n]);
                }
            }
        }
        let a1 = a.drop_last();
        let b1 = b.drop_last();
        assert forall|x: u64| #[trigger] a1.contains(x) <==> b1.contains(x) by {
            if a1.contains(x) {
                let k = choose|k: int| 0 <= k < a1.len() && a1[k] == x;
                assert(a[k] == x && a[k] < a[n]);
                assert(a.contains(x));
                assert(b.contains(x));
                let l = choose|l: int| 0 <= l < b.len() && b[l] == x;
                assert(b1[l] == x);
            }
            if b1.contains(x) {
                let k = choose|k: int| 0 <= k < b1.len() && b1[k] == x;
                assert(b[k] == x && b[k] < b[m]);
                assert(b.contains(x));
                assert(a.contains(x));
                let l = choose|l: int| 0 <= l < a.len() && a[l] == x;
                assert(a1[l] == x);
            }
        }
        lemma_ascending_equal(a1, b1);
        assert(a =~= a1.push(a[n]));
        assert(b =~= b1.push(b[m]));
    }
}

/// Put `x` among ascending numbers, unless it is there.
fn insert_id(ids: &mut Vec<u64>, x: u64)
    requires
        ascending(old(ids)@),
    ensures
        ascending(final(ids)@),
        forall|y: u64| #[trigger] final(ids)@.contains(y) <==> old(ids)@.contains(y) || y == x,
{
    let mut p: usize = 0;
    while p < ids.len() && ids[p] < x
        invariant
            p <= ids@.len(),
            ids@ == old(ids)@,
            forall|j: int| 0 <= j < p ==> #[trigger] ids@[j] < x,
        decreases ids@.len() - p,
    {
        p += 1;
    }
    if p < ids.len() && ids[p] == x {
        assert(ids@[p as int] == x);
        return ;
    }
    let ghost before = ids@;
    ids.insert(p, x);
    proof {
        assert(ids@ == before.insert(p as int, x));
        assert forall|i: int, j: int|
            #![trigger ids@[i], ids@[j]]
            0 <= i < j < ids@.len() implies ids@[i] < ids@[j] by {
            let i0 = if i < p {
                i
            } else {
                i - 1
            };
            let j0 = if j < p {
                j
            } else {
                j - 1
            };
            if i != p && j != p {
                assert(before[i0] < before[j0]);
            } else if i == p {
                assert(ids@[j] == before[j0]);
                if j0 > p {
                    assert(before[p as int] < before[j0]);
                }
            } else {
                assert(ids@[i] == before[i0]);
            }
        }
        assert forall|y: u64| #[trigger] ids@.contains(y) <==> before.contains(y) || y == x by {
            if ids@.contains(y) {
                let k = choose|k: int| 0 <= k < ids@.len() && ids@[k] == y;
                if k < p {
                    assert(before[k] == y);
                } else if k > p {
                    assert(before[k - 1] == y);
                }
            }
            if before.contains(y) {
                let k = choose|k: int| 0 <= k < before.len() && before[k] == y;
                if k < p {
                    assert(ids@[k] == y);
                } else {
                    assert(ids@[k + 1] == y);
                }
            }
            assert(ids@[p as int] == x);
        }
    }
}

/// The numbers of the WAL segments and of the tables in a directory, each in
/// ascending order. A directory that cannot be listed counts as empty.
#[verifier::rlimit(60)]
pub fn list_files<V: Vfs>(vfs: &V, dir: &str) -> (r: (Vec<u64>, Vec<u64>))
    ensures
        ascending(r.0@),
        ascending(r.1@),
        ({
            let state = V::File::fs_state(vfs);
            ||| wal_listing(r.0@, state, dir@) && table_listing(r.1@, state, dir@)
            ||| !V::File::fs_reliable(vfs) && r.0@.len() == 0 && r.1@.len() == 0
        }),
{
    let ghost state = V::File::fs_state(vfs);
    let mut wals: Vec<u64> = Vec::new();
    let mut tables: Vec<u64> = Vec::new();
    let names: Vec<String> = match vfs.list(dir) {
        Ok(names) => names,
        Err(_) => {
            return (wals, tables);
        },
    };
    let mut i: usize = 0;
    while i < names.len()
        invariant
            i <= names@.len(),
            lists_dir(names@, state, dir@) || (!V::File::fs_reliable(vfs) && names@.len() == 0),
            ascending(wals@),
            ascending(tables@),
            forall|id: u64|
                #[trigger] wals@.contains(id) <==> exists|k: int|
                    0 <= k < i && parse_wal_name(#[trigger] names@[k]@) == Some(id),
            forall|id: u64|
                #[trigger] tables@.contains(id) <==> exists|k: int|
                    0 <= k < i && parse_sst(#[trigger] names@[k]@) == Some(id),
        decreases names@.len() - i,
    {
        let ghost wals0 = wals@;
        let ghost tables0 = tables@;
        let as_wal: Option<u64> = parse_wal_segment_name(names[i].as_str());
        match as_wal {
            Some(id) => {
                insert_id(&mut wals, id);
            },
            None => {},
        }
        let as_table: Option<u64> = parse_sst_name(names[i].as_str());
        match as_table {
            Some(id) => {
                insert_id(&mut tables, id);
            },
            None => {},
        }
        proof {
            assert forall|id: u64| #[trigger] wals@.contains(id) <==> exists|k: int|
                0 <= k < i + 1 && parse_wal_name(#[trigger] names@[k]@) == Some(id) by {
                if exists|k: int|
                    0 <= k < i + 1 && parse_wal_name(#[trigger] names@[k]@) == Some(id) {
                    let k = choose|k: int|
                        0 <= k < i + 1 && parse_wal_name(#[trigger] names@[k]@) == Some(id);
                    if k < i {
                        assert(wals0.contains(id));
                    }
                }
                if wals0.contains(id) {
                    let k = choose|k: int|
                        0 <= k < i && parse_wal_name(#[trigger] names@[k]@) == Some(id);
                    assert(0 <= k < i + 1);
                }
                if as_wal == Some(id) {
                    assert(parse_wal_name(names@[i as int]@) == Some(id));
                }
            }
            assert forall|id: u64| #[trigger] tables@.contains(id) <==> exists|k: int|
                0 <= k < i + 1 && parse_sst(#[trigger] names@[k]@) == Some(id) by {
                if exists|k: int| 0 <= k < i + 1 && parse_sst(#[trigger] names@[k]@) == Some(id) {
                    let k = choose|k: int|
                        0 <= k < i + 1 && parse_sst(#[trigger] names@[k]@) == Some(id);
                    if k < i {
                        assert(tables0.contains(id));
                    }
                }
                if tables0.contains(id) {
                    let k = choose|k: int|
                        0 <= k < i && parse_sst(#[trigger] names@[k]@) == Some(id);
                    assert(0 <= k < i + 1);
                }
                if as_table == Some(id) {
                    assert(parse_sst(names@[i as int]@) == Some(id));
                }
            }
        }
        i += 1;
    }
    proof {
        if lists_dir(names@, state, dir@) {
            assert forall|id: u64| #[trigger] wals@.contains(id) <==> lists_wal(state, dir@, id) by {
                if wals@.contains(id) {
                    let k = choose|k: int|
                        0 <= k < i && parse_wal_name(#[trigger] names@[k]@) == Some(id);
                    assert(lists(state, dir@, names@[k]@));
                }
                if lists_wal(state, dir@, id) {
                    let name = choose|name: Seq<char>| #[trigger]
                        lists(state, dir@, name) && parse_wal_name(name) == Some(id);
                    assert(state.names.dom().contains(join(dir@, name)));
                    let k = choose|k: int| 0 <= k < names@.len() && #[trigger] names@[k]@ == name;
                    assert(parse_wal_name(names@[k]@) == Some(id));
                }
            }
            assert forall|id: u64| #[trigger] tables@.contains(id) <==> lists_table(state, dir@, id) by {
                if tables@.contains(id) {
                    let k = choose|k: int| 0 <= k < i && parse_sst(#[trigger] names@[k]@) == Some(id);
                    assert(lists(state, dir@, names@[k]@));
                }
                if lists_table(state, dir@, id) {
                    let name = choose|name: Seq<char>| #[trigger]
                        lists(state, dir@, name) && parse_sst(name) == Some(id);
                    assert(state.names.dom().contains(join(dir@, name)));
                    let k = choose|k: int| 0 <= k < names@.len() && #[trigger] names@[k]@ == name;
                    assert(parse_sst(names@[k]@) == Some(id));
                }
            }
        } else {
            if wals@.len() > 0 {
                assert(wals@.contains(wals@[0]));
            }
            if tables@.len() > 0 {
                assert(tables@.contains(tables@[0]));
            }
        }
    }
    (wals, tables)
}

/// The numbers of segments.
pub open spec fn segment_ids(segments: Seq<Segment>) -> Seq<u64> {
    segments.map_values(|s: Segment| s.id)
}

/// The numbers of tables, oldest first.
pub open spec fn table_ids(tables: Seq<TableFile>) -> Seq<u64> {
    Seq::new(tables.len(), |i: int| tables[tables.len() - 1 - i].id)
}

/// What the listing of a directory says.
#[verifier::rlimit(60)]
pub proof fn lemma_listing(
    state: FsState,
    dir: Seq<char>,
    master: Option<Seq<u8>>,
    disk: Disk,
    wals: Seq<u64>,
    tables: Seq<u64>,
)
    requires
        files_ok(state, dir, master, disk),
        wal_listing(wals, state, dir),
        table_listing(tables, state, dir),
    ensures
        wals == segment_ids(disk.segments),
        tables == table_ids(disk.tables),
{
    reveal(files_ok);
    let segs = segment_ids(disk.segments);
    let tabs = table_ids(disk.tables);
    assert forall|i: int, j: int| #![trigger segs[i], segs[j]] 0 <= i < j < segs.len() implies segs[i]
        < segs[j] by {
        assert(disk.segments[i].id < disk.segments[j].id);
    }
    assert forall|i: int, j: int| #![trigger tabs[i], tabs[j]] 0 <= i < j < tabs.len() implies tabs[i]
        < tabs[j] by {
        let n = disk.tables.len() - 1;
        assert(disk.tables[n - j].id > disk.tables[n - i].id);
    }
    assert forall|id: u64| #[trigger] wals.contains(id) <==> segs.contains(id) by {
        if lists_wal(state, dir, id) {
            let name = choose|name: Seq<char>| #[trigger]
                lists(state, dir, name) && parse_wal_name(name) == Some(id);
            lemma_path_joins(dir, name);
            assert(state.names.dom().contains(path_in(dir, name)));
            let k = choose|i: int|
                0 <= i < disk.segments.len() && #[trigger] disk.segments[i].id == id;
            assert(segs[k] == id);
        }
        if segs.contains(id) {
            let k = choose|k: int| 0 <= k < segs.len() && segs[k] == id;
            assert(stored(state, wal_path(dir, disk.segments[k].id)) is Some);
            law_names_round_trip(id);
            lemma_name_shape(id);
            lemma_path_joins(dir, wal_name(id));
            assert(lists(state, dir, wal_name(id)));
        }
    }
    assert forall|id: u64| #[trigger] tables.contains(id) <==> tabs.contains(id) by {
        if lists_table(state, dir, id) {
            let name = choose|name: Seq<char>| #[trigger]
                lists(state, dir, name) && parse_sst(name) == Some(id);
            lemma_path_joins(dir, name);
            assert(state.names.dom().contains(path_in(dir, name)));
            let k = choose|i: int| 0 <= i < disk.tables.len() && #[trigger] disk.tables[i].id == id;
            assert(tabs[disk.tables.len() - 1 - k] == id);
        }
        if tabs.contains(id) {
            let k = choose|k: int| 0 <= k < tabs.len() && tabs[k] == id;
            let t = disk.tables[disk.tables.len() - 1 - k];
            assert(stored(state, table_path(dir, t.id)) is Some);
            law_names_round_trip(id);
            lemma_name_shape(id);
            lemma_path_joins(dir, sst_name(id));
            assert(lists(state, dir, sst_name(id)));
        }
    }
    lemma_ascending_equal(wals, segs);
    lemma_ascending_equal(tables, tabs);
}

// ----- Tables -----

/// The file of table `id` can be opened.
pub open spec fn table_loads(
    state: FsState,
    dir: Seq<char>,
    master: Option<Seq<u8>>,
    id: u64,
) -> bool {
    stored(state, table_path(dir, id)) matches Some(b) && parse_table(b, master is Some) is Ok
}

/// Why the file of table `id` cannot be opened, if so.
pub open spec fn table_fault(
    state: FsState,
    dir: Seq<char>,
    master: Option<Seq<u8>>,
    id: u64,
) -> Option<Fault> {
    match stored(state, table_path(dir, id)) {
        None => Some(Fault::Io),
        Some(b) => match parse_table(b, master is Some) {
            Err(f) => Some(f),
            Ok(_) => None,
        },
    }
}

/// The first fault that is met when tables are opened, from the last to the
/// first.
pub open spec fn tables_fault(
    state: FsState,
    dir: Seq<char>,
    master: Option<Seq<u8>>,
    ids: Seq<u64>,
) -> Option<Fault>
    decreases ids.len(),
{
    if ids.len() == 0 {
        None
    } else {
        match table_fault(state, dir, master, ids.last()) {
            Some(f) => Some(f),
            None => tables_fault(state, dir, master, ids.drop_last()),
        }
    }
}

/// The reader stands on the file of its table.
pub open spec fn sst_attached<V: Vfs>(
    sst: LiveSst<V::File>,
    vfs: &V,
    dir: Seq<char>,
    master: Option<Seq<u8>>,
) -> bool {
    let state = V::File::fs_state(vfs);
    let path = table_path(dir, sst.id);
    &&& sst.reader.wf()
    &&& state.names.dom().contains(path)
    &&& sst.reader.handle().id() == state.names[path]
    &&& is_open(&sst.reader.handle(), vfs)
    &&& bytes_of(&sst.reader.handle(), vfs).len() > 0
    &&& sst.reader.crypto_view() == table_crypto(master, sst.id)
    &&& parse_table(bytes_of(&sst.reader.handle(), vfs), master is Some) == Ok::<TableView, Fault>(
        sst.reader.table(),
    )
}

/// The greatest sequence number that the headers of open tables give, or 0.
pub open spec fn header_top<F: VfsFile>(ssts: Seq<LiveSst<F>>) -> u64
    decreases ssts.len(),
{
    if ssts.len() == 0 {
        0
    } else {
        let before = header_top(ssts.drop_last());
        let here = ssts.last().reader.table().header.max_seqno;
        if here > before {
            here
        } else {
            before
        }
    }
}

/// Open one table, encrypted or not depending on whether there is a master
/// key. The table's number goes into its key: it must be the one under which
/// the table was written.
fn open_sst_reader<V: Vfs>(vfs: &V, file: V::File, id: u64, master_key: &Option<MasterKey>) -> (r:
    Result<SstReader<V::File>>)
    requires
        is_open(&file, vfs),
    ensures
        match parse_table(bytes_of(&file, vfs), master_key is Some) {
            Ok(t) => (r matches Ok(rd) && rd.wf() && rd.table() == t && rd.handle() == file
                && rd.crypto_view() == table_crypto(master_view(master_key), id)) || failed_io(
                r,
                V::File::fs_reliable(vfs),
            ),
            Err(f) => failed_with(r, f, V::File::fs_reliable(vfs)),
        },
{
    match master_key {
        Some(master) => {
            let key: AeadKey = derive_sstable_key(master, id);
            SstReader::open_encrypted(vfs, file, &key, id)
        },
        None => SstReader::open(vfs, file),
    }
}

/// Open the tables with the given numbers (ascending), newest first. Gives
/// the greatest sequence number in their headers too.
#[verifier::rlimit(60)]
pub fn open_tables<V: Vfs>(
    vfs: &V,
    dir: &str,
    ids: &Vec<u64>,
    master_key: &Option<MasterKey>,
) -> (r: Result<(Vec<LiveSst<V::File>>, u64)>)
    ensures
        r matches Ok((ssts, top)) ==> {
            &&& ssts@.len() == ids@.len()
            &&& forall|i: int|
                #![trigger ssts@[i]]
                0 <= i < ssts@.len() ==> ssts@[i].id == ids@[ids@.len() - 1 - i] && sst_attached(
                    ssts@[i],
                    vfs,
                    dir@,
                    master_view(master_key),
                )
            &&& top == header_top(ssts@)
        },
        r is Ok ==> forall|i: int|
            #![trigger ids@[i]]
            0 <= i < ids@.len() ==> table_loads(
                V::File::fs_state(vfs),
                dir@,
                master_view(master_key),
                ids@[i],
            ),
        V::File::fs_reliable(vfs) && (forall|i: int|
            #![trigger ids@[i]]
            0 <= i < ids@.len() ==> table_loads(
                V::File::fs_state(vfs),
                dir@,
                master_view(master_key),
                ids@[i],
            )) ==> r is Ok,
        match tables_fault(V::File::fs_state(vfs), dir@, master_view(master_key), ids@) {
            Some(f) => failed_with(r, f, V::File::fs_reliable(vfs)),
            None => r is Ok || failed_io(r, V::File::fs_reliable(vfs)),
        },
{
    let ghost state = V::File::fs_state(vfs);
    let ghost master = master_view(master_key);
    assert(ids@.subrange(0, ids@.len() as int) =~= ids@);
    let mut ssts: Vec<LiveSst<V::File>> = Vec::new();
    let mut top: u64 = 0;
    let mut i: usize = ids.len();
    while i > 0
        invariant
            i <= ids@.len(),
            state == V::File::fs_state(vfs),
            master == master_view(master_key),
            ssts@.len() == ids@.len() - i,
            forall|k: int|
                #![trigger ssts@[k]]
                0 <= k < ssts@.len() ==> ssts@[k].id == ids@[ids@.len() - 1 - k] && sst_attached(
                    ssts@[k],
                    vfs,
                    dir@,
                    master,
                ),
            top == header_top(ssts@),
            forall|k: int|
                #![trigger ids@[k]]
                i <= k < ids@.len() ==> table_loads(state, dir@, master, ids@[k]),
            tables_fault(state, dir@, master, ids@) == tables_fault(
                state,
                dir@,
                master,
                ids@.subrange(0, i as int),
            ),
        decreases i,
    {
        let id: u64 = ids[i - 1];
        proof {
            let left = ids@.subrange(0, i as int);
            assert(left.last() == id);
            assert(left.drop_last() =~= ids@.subrange(0, i - 1));
        }
        let path: String = sst_path(dir, id);
        let file: V::File = match vfs.open_readonly(path.as_str()) {
            Ok(f) => f,
            Err(e) => {
                proof {
                    if V::File::fs_reliable(vfs) {
                        assert(!table_loads(state, dir@, master, ids@[i - 1]));
                    }
                }
                return Err(e);
            },
        };
        let ghost bytes = bytes_of(&file, vfs);
        assert(stored(state, table_path(dir@, id)) == Some(bytes));
        let reader: SstReader<V::File> = match open_sst_reader(vfs, file, id, master_key) {
            Ok(rd) => rd,
            Err(e) => {
                proof {
                    if V::File::fs_reliable(vfs) {
                        assert(!table_loads(state, dir@, master, ids@[i - 1]));
                    }
                }
                return Err(e);
            },
        };
        proof {
            lemma_table_len(bytes, master is Some);
        }
        let here: u64 = reader.file_header().max_seqno;
        if here > top {
            top = here;
        }
        let ghost before = ssts@;
        ssts.push(LiveSst { id, reader });
        proof {
            assert(ssts@.drop_last() =~= before);
        }
        i -= 1;
    }
    Ok((ssts, top))
}

/// The header of a sound table gives the top of its run.
pub proof fn lemma_header_top_of(reader_table: TableView, run: Seq<Entry>)
    requires
        header_fits(reader_table.header, run),
    ensures
        reader_table.header.max_seqno == top_of(run),
{
    reveal(header_fits);
    let top = reader_table.header.max_seqno;
    lemma_top(run, top as int);
    if run.len() > 0 {
        assert forall|i: int| #![trigger run[i]] 0 <= i < run.len() implies -1 < run[i].seqno
            <= top by {}
        let k = choose|i: int| 0 <= i < run.len() && #[trigger] run[i].seqno == top;
        assert(run[k].seqno <= top_of(run));
    }
}

/// A reader on the file of a sound table holds its run.
pub proof fn lemma_attached_holds<V: Vfs>(
    sst: LiveSst<V::File>,
    vfs: &V,
    dir: Seq<char>,
    master: Option<Seq<u8>>,
    run: Seq<Entry>,
)
    requires
        sst_attached(sst, vfs, dir, master),
        is_table(
            V::File::fs_state(vfs).content(table_path(dir, sst.id)),
            table_crypto(master, sst.id),
            run,
        ),
    ensures
        sst.reader.holds_run(vfs, run),
        sst.reader.queue(vfs) == (run, None::<Fault>),
        sst.reader.table().header.max_seqno == top_of(run),
{
    let bytes = bytes_of(&sst.reader.handle(), vfs);
    let crypto = table_crypto(master, sst.id);
    let t = parse_table(bytes, crypto is Some)->Ok_0;
    let blocks = choose|blocks: Seq<Seq<Entry>>|
        #[trigger] table_ok(bytes, crypto, t, blocks) && flat(blocks) == run;
    assert(table_ok(bytes, sst.reader.crypto_view(), sst.reader.table(), blocks));
    sst.reader.lemma_queue_of_run(vfs, run);
    lemma_header_top_of(sst.reader.table(), run);
}

// ----- Segments -----

/// The records that segment `id` replays to.
pub open spec fn segment_records(state: FsState, dir: Seq<char>, id: u64) -> Seq<LogRecord> {
    let bytes = state.content(wal_path(dir, id));
    replay_from(bytes.subrange(SEGMENT_HEADER_SIZE as int, bytes.len() as int), 0).0
}

/// The file of segment `id` can be opened and replayed.
pub open spec fn segment_loads(state: FsState, dir: Seq<char>, id: u64) -> bool {
    stored(state, wal_path(dir, id)) matches Some(b) && segment_ok(
        b,
        segment_records(state, dir, id),
    )
}

/// Why a record cannot be applied, if so.
pub open spec fn record_fault(r: LogRecord) -> Option<ErrorView> {
    match parse_batch(r.payload) {
        Err(e) => Some(e),
        Ok(ops) => if forall|i: int| 0 <= i < ops.len() ==> op_fits(#[trigger] ops[i]) {
            None
        } else {
            Some(ErrorView::InvalidArgument("record too large for the memtable"@))
        },
    }
}

/// Why the records from `i` on cannot be applied, if so: by the first that
/// cannot.
pub open spec fn records_fault(records: Seq<LogRecord>, i: nat) -> Option<ErrorView>
    decreases records.len() - i,
{
    if i >= records.len() {
        None
    } else {
        match record_fault(records[i as int]) {
            Some(e) => Some(e),
            None => records_fault(records, i + 1),
        }
    }
}

/// Why segment `id` cannot be opened and replayed, if so.
pub open spec fn segment_fault(state: FsState, dir: Seq<char>, id: u64) -> Option<Fault> {
    match stored(state, wal_path(dir, id)) {
        None => Some(Fault::Io),
        Some(b) => match parse_segment(b) {
            Err(e) => Some(Fault::Refused(e)),
            Ok(_) => match replay_from(b.subrange(SEGMENT_HEADER_SIZE as int, b.len() as int), 0).1 {
                ReplayEnd::Bad(e) => Some(Fault::Refused(e)),
                _ => match records_fault(segment_records(state, dir, id), 0) {
                    Some(e) => Some(Fault::Refused(e)),
                    None => None,
                },
            },
        },
    }
}

/// The first fault that is met when the segments from `i` on are replayed.
pub open spec fn segments_fault(state: FsState, dir: Seq<char>, ids: Seq<u64>, i: nat) -> Option<
    Fault,
>
    decreases ids.len() - i,
{
    if i >= ids.len() {
        None
    } else {
        match segment_fault(state, dir, ids[i as int]) {
            Some(f) => Some(f),
            None => segments_fault(state, dir, ids, i + 1),
        }
    }
}

/// The segments with the given numbers.
pub open spec fn segments_at(state: FsState, dir: Seq<char>, ids: Seq<u64>) -> Seq<Segment> {
    Seq::new(
        ids.len(),
        |i: int| Segment { id: ids[i], records: segment_records(state, dir, ids[i]) },
    )
}

/// The greatest of `start` and the sequence numbers of records.
pub open spec fn record_top(records: Seq<LogRecord>, start: u64) -> u64
    decreases records.len(),
{
    if records.len() == 0 {
        start
    } else {
        let before = record_top(records.drop_last(), start);
        if records.last().seqno > before {
            records.last().seqno
        } else {
            before
        }
    }
}

/// Of increasing records the last is the greatest.
pub proof fn lemma_record_top(records: Seq<LogRecord>, start: u64)
    ensures
        record_top(records, start) >= start,
        record_top(records, start) >= last_seqno(records),
        increasing(records) && last_seqno(records) <= start ==> record_top(records, start) == start,
        increasing(records) && last_seqno(records) > start ==> record_top(records, start)
            == last_seqno(records),
    decreases records.len(),
{
    if records.len() > 0 {
        let less = records.drop_last();
        lemma_record_top(less, start);
        if increasing(records) {
            assert forall|i: int, j: int|
                #![trigger less[i], less[j]]
                0 <= i < j < less.len() implies less[i].seqno < less[j].seqno by {
                assert(records[i].seqno < records[j].seqno);
            }
            if less.len() > 0 {
                assert(records[less.len() - 1].seqno < records[records.len() - 1].seqno);
            }
        }
    }
}

/// Apply the operations of a batch, one after the other, all under one
/// sequence number.
pub fn apply_batch_to_memtable(memtable: &mut SkipList, seqno: u64, batch: &WriteBatch)
    requires
        old(memtable).wf(),
        forall|i: int| 0 <= i < batch@.len() ==> op_fits(#[trigger] batch@[i]),
    ensures
        final(memtable).wf(),
        final(memtable)@ == applied(old(memtable)@, seqno, batch@),
{
    let ops: &[Op] = batch.ops();
    let ghost all = batch@;
    let ghost start = memtable@;
    let mut i: usize = 0;
    proof {
        assert(op_views(ops@).len() == ops@.len());
        assert(all.subrange(0, 0) =~= Seq::empty());
    }
    while i < ops.len()
        invariant
            i <= ops@.len(),
            op_views(ops@) == all,
            all.len() == ops@.len(),
            memtable.wf(),
            forall|k: int| 0 <= k < all.len() ==> op_fits(#[trigger] all[k]),
            memtable@ == applied(start, seqno, all.subrange(0, i as int)),
        decreases ops@.len() - i,
    {
        let ghost view = all[i as int];
        let ghost before = memtable@;
        assert(view == ops@[i as int]@);
        assert(op_fits(view));
        match &ops[i] {
            Op::Put { key, value } => {
                memtable.insert(key.as_slice(), value.as_slice(), seqno, OpType::Put);
                assert(memtable@ == crate::memtable::skiplist::inserted(
                    before,
                    entry_of(seqno, view),
                ));
            },
            Op::Delete { key } => {
                let empty: [u8; 0] = [];
                memtable.insert(key.as_slice(), empty.as_slice(), seqno, OpType::Tombstone);
                assert(memtable@ == crate::memtable::skiplist::inserted(
                    before,
                    entry_of(seqno, view),
                ));
            },
        }
        proof {
            let next = all.subrange(0, i + 1);
            assert(next.drop_last() =~= all.subrange(0, i as int));
            assert(next.last() == view);
        }
        i += 1;
    }
    assert(all.subrange(0, i as int) =~= all);
}

/// Whether the memtable can take every operation of the batch.
pub fn batch_fits(batch: &WriteBatch) -> (r: bool)
    ensures
        r == (forall|i: int| 0 <= i < batch@.len() ==> op_fits(#[trigger] batch@[i])),
{
    let ops: &[Op] = batch.ops();
    assert(op_views(ops@).len() == ops@.len());
    let mut i: usize = 0;
    while i < ops.len()
        invariant
            i <= ops@.len(),
            op_views(ops@) == batch@,
            batch@.len() == ops@.len(),
            forall|k: int| 0 <= k < i ==> op_fits(#[trigger] batch@[k]),
        decreases ops@.len() - i,
    {
        let fits: bool = match &ops[i] {
            Op::Put { key, value } => key.len() <= usize::MAX - 152 && value.len() <= usize::MAX
                - 152 - key.len(),
            Op::Delete { key } => key.len() <= usize::MAX - 152,
        };
        assert(batch@[i as int] == ops@[i as int]@);
        if !fits {
            assert(!op_fits(batch@[i as int]));
            return false;
        }
        i += 1;
    }
    true
}

/// Apply replayed records to the memtable, passing over those up to `floor`.
/// Gives the greatest sequence number seen.
fn apply_records(
    records: &Vec<RecordView>,
    floor: u64,
    start: u64,
    memtable: &mut SkipList,
    done: Ghost<Seq<LogRecord>>,
) -> (r: Result<u64>)
    requires
        old(memtable).wf(),
        old(memtable)@ == replayed(done@, floor),
    ensures
        final(memtable).wf(),
        r matches Ok(top) ==> {
            &&& final(memtable)@ == replayed(done@ + record_views(records@), floor)
            &&& top == record_top(record_views(records@), start)
        },
        r is Ok <==> forall|i: int|
            0 <= i < records@.len() ==> readable(#[trigger] record_views(records@)[i]),
        match records_fault(record_views(records@), 0) {
            Some(x) => r matches Err(e) && e@ == x,
            None => r is Ok,
        },
{
    let ghost all = record_views(records@);
    let mut top: u64 = start;
    let mut i: usize = 0;
    proof {
        assert(all.subrange(0, 0) =~= Seq::empty());
        assert(done@ + all.subrange(0, 0) =~= done@);
    }
    while i < records.len()
        invariant
            i <= records@.len(),
            all == record_views(records@),
            memtable.wf(),
            memtable@ == replayed(done@ + all.subrange(0, i as int), floor),
            top == record_top(all.subrange(0, i as int), start),
            forall|k: int| 0 <= k < i ==> readable(#[trigger] all[k]),
            records_fault(all, 0) == records_fault(all, i as nat),
        decreases records@.len() - i,
    {
        let ghost rec = all[i as int];
        assert(rec == records@[i as int]@);
        let seqno: u64 = records[i].seqno;
        let batch: WriteBatch = match WriteBatch::decode(records[i].payload.as_slice()) {
            Ok(b) => b,
            Err(e) => {
                assert(!readable(record_views(records@)[i as int]));
                return Err(e);
            },
        };
        if !batch_fits(&batch) {
            assert(!readable(record_views(records@)[i as int]));
            return Err(Error::InvalidArgument("record too large for the memtable"));
        }
        proof {
            let next = all.subrange(0, i + 1);
            assert(next.drop_last() =~= all.subrange(0, i as int));
            assert(next.last() == rec);
            assert((done@ + next).drop_last() =~= done@ + all.subrange(0, i as int));
            assert((done@ + next).last() == rec);
            assert(record_ops(rec) == batch@);
        }
        if seqno > top {
            top = seqno;
        }
        if seqno > floor {
            apply_batch_to_memtable(memtable, seqno, &batch);
        }
        i += 1;
    }
    assert(all.subrange(0, i as int) =~= all);
    Ok(top)
}

/// Replay the segments with the given numbers, in order, into a fresh
/// memtable. Records up to `floor` are in the tables already and are passed
/// over. Gives the memtable, and the greatest of `floor` and the sequence
/// numbers seen.
#[verifier::rlimit(60)]
pub fn replay_segments<V: Vfs>(vfs: &V, dir: &str, ids: &Vec<u64>, floor: u64) -> (r: Result<
    (SkipList, u64),
>)
    ensures
        r matches Ok((mem, top)) ==> {
            let records = all_records(segments_at(V::File::fs_state(vfs), dir@, ids@));
            &&& mem.wf()
            &&& mem@ == replayed(records, floor)
            &&& top == record_top(records, floor)
        },
        r is Ok ==> forall|i: int|
            #![trigger ids@[i]]
            0 <= i < ids@.len() ==> segment_loads(V::File::fs_state(vfs), dir@, ids@[i]),
        V::File::fs_reliable(vfs) && (forall|i: int|
            #![trigger ids@[i]]
            0 <= i < ids@.len() ==> segment_loads(V::File::fs_state(vfs), dir@, ids@[i]))
            ==> r is Ok,
        match segments_fault(V::File::fs_state(vfs), dir@, ids@, 0) {
            Some(f) => failed_with(r, f, V::File::fs_reliable(vfs)),
            None => r is Ok || failed_io(r, V::File::fs_reliable(vfs)),
        },
{
    let ghost state = V::File::fs_state(vfs);
    let ghost segs = segments_at(state, dir@, ids@);
    let mut mem: SkipList = SkipList::new();
    let mut top: u64 = floor;
    let mut i: usize = 0;
    proof {
        assert(segs.subrange(0, 0) =~= Seq::empty());
        assert(mem@ =~= Seq::<Entry>::empty());
    }
    while i < ids.len()
        invariant
            i <= ids@.len(),
            state == V::File::fs_state(vfs),
            segs == segments_at(state, dir@, ids@),
            mem.wf(),
            mem@ == replayed(all_records(segs.subrange(0, i as int)), floor),
            top == record_top(all_records(segs.subrange(0, i as int)), floor),
            forall|k: int|
                #![trigger ids@[k]]
                0 <= k < i ==> segment_loads(state, dir@, ids@[k]),
            segments_fault(state, dir@, ids@, 0) == segments_fault(state, dir@, ids@, i as nat),
        decreases ids@.len() - i,
    {
        let id: u64 = ids[i];
        let ghost before = all_records(segs.subrange(0, i as int));
        let path: String = wal_segment_path(dir, id);
        let file: V::File = match vfs.open_readonly(path.as_str()) {
            Ok(f) => f,
            Err(e) => {
                proof {
                    if V::File::fs_reliable(vfs) {
                        assert(!segment_loads(state, dir@, ids@[i as int]));
                    }
                }
                return Err(e);
            },
        };
        let ghost bytes = bytes_of(&file, vfs);
        assert(stored(state, wal_path(dir@, id)) == Some(bytes));
        let mut reader: SegmentReader<V::File> = match SegmentReader::open(vfs, file) {
            Ok(rd) => rd,
            Err(e) => {
                proof {
                    if V::File::fs_reliable(vfs) {
                        assert(!segment_loads(state, dir@, ids@[i as int]));
                    }
                }
                return Err(e);
            },
        };
        let mut records: Vec<RecordView> = Vec::new();
        let ghost found = replay_from(reader.area(vfs), 0);
        proof {
            assert(record_views(records@) + found.0 =~= found.0);
            assert(found.0 == segment_records(state, dir@, id));
        }
        match reader.replay(vfs, &mut records) {
            Ok(_) => {},
            Err(e) => {
                proof {
                    if V::File::fs_reliable(vfs) {
                        assert(!segment_loads(state, dir@, ids@[i as int]));
                    }
                }
                return Err(e);
            },
        }
        assert(record_views(records@) == found.0);
        match apply_records(&records, floor, top, &mut mem, Ghost(before)) {
            Ok(n) => {
                top = n;
            },
            Err(e) => {
                proof {
                    assert(!segment_loads(state, dir@, ids@[i as int]));
                }
                return Err(e);
            },
        }
        proof {
            let next = segs.subrange(0, i + 1);
            assert(next.drop_last() =~= segs.subrange(0, i as int));
            assert(next.last().records == found.0);
            lemma_record_top_concat(before, found.0, floor);
            assert forall|k: int| 0 <= k < found.0.len() implies readable(
                #[trigger] found.0[k],
            ) by {
                assert(readable(record_views(records@)[k]));
            }
            assert(segment_ok(bytes, found.0));
        }
        i += 1;
    }
    assert(segs.subrange(0, i as int) =~= segs);
    Ok((mem, top))
}

proof fn lemma_record_top_concat(a: Seq<LogRecord>, b: Seq<LogRecord>, start: u64)
    ensures
        record_top(a + b, start) == record_top(b, record_top(a, start)),
    decreases b.len(),
{
    if b.len() == 0 {
        assert(a + b =~= a);
    } else {
        lemma_record_top_concat(a, b.drop_last(), start);
        assert((a + b).drop_last() =~= a + b.drop_last());
        assert((a + b).last() == b.last());
    }
}

// ----- What recovery finds -----

/// The greatest sequence number that the headers of the listed tables give,
/// or 0.
pub open spec fn tables_top(
    state: FsState,
    dir: Seq<char>,
    master: Option<Seq<u8>>,
    ids: Seq<u64>,
) -> u64
    decreases ids.len(),
{
    if ids.len() == 0 {
        0
    } else {
        let before = tables_top(state, dir, master, ids.subrange(1, ids.len() as int));
        let here = parse_table(
            state.content(table_path(dir, ids[0])),
            master is Some,
        )->Ok_0.header.max_seqno;
        if here > before {
            here
        } else {
            before
        }
    }
}

/// The readers stand on the files of the listed tables, newest first.
pub open spec fn ssts_opened<V: Vfs>(
    ssts: Seq<LiveSst<V::File>>,
    vfs: &V,
    dir: Seq<char>,
    master: Option<Seq<u8>>,
    ids: Seq<u64>,
) -> bool {
    &&& ssts.len() == ids.len()
    &&& forall|i: int|
        #![trigger ssts[i]]
        0 <= i < ssts.len() ==> ssts[i].id == ids[ids.len() - 1 - i] && sst_attached(
            ssts[i],
            vfs,
            dir,
            master,
        )
}

/// The readers' headers are those of the listed tables.
pub proof fn lemma_tables_top<V: Vfs>(
    ssts: Seq<LiveSst<V::File>>,
    vfs: &V,
    dir: Seq<char>,
    master: Option<Seq<u8>>,
    ids: Seq<u64>,
)
    requires
        ssts_opened(ssts, vfs, dir, master, ids),
    ensures
        header_top(ssts) == tables_top(V::File::fs_state(vfs), dir, master, ids),
    decreases ids.len(),
{
    if ids.len() > 0 {
        let less = ssts.drop_last();
        let rest = ids.subrange(1, ids.len() as int);
        assert forall|i: int| #![trigger less[i]] 0 <= i < less.len() implies less[i].id
            == rest[rest.len() - 1 - i] && sst_attached(less[i], vfs, dir, master) by {
            assert(less[i] == ssts[i]);
        }
        lemma_tables_top(less, vfs, dir, master, rest);
        assert(ssts[ssts.len() - 1].id == ids[0]);
        assert(sst_attached(ssts[ssts.len() - 1], vfs, dir, master));
    }
}

/// Sound tables give the floor of their runs.
proof fn lemma_floor_found<V: Vfs>(
    ssts: Seq<LiveSst<V::File>>,
    vfs: &V,
    rs: Seq<Seq<Entry>>,
)
    requires
        rs.len() == ssts.len(),
        forall|i: int|
            #![trigger ssts[i]]
            0 <= i < ssts.len() ==> ssts[i].reader.table().header.max_seqno == top_of(rs[i]),
    ensures
        header_top(ssts) == floor_of(rs),
    decreases ssts.len(),
{
    if ssts.len() > 0 {
        let less = ssts.drop_last();
        let front = rs.drop_last();
        assert forall|i: int| #![trigger less[i]] 0 <= i < less.len() implies less[i].reader.table().header.max_seqno
            == top_of(front[i]) by {
            assert(less[i] == ssts[i]);
        }
        lemma_floor_found::<V>(less, vfs, front);
        assert(ssts[ssts.len() - 1].reader.table().header.max_seqno == top_of(
            rs[rs.len() - 1],
        ));
    }
}

/// What recovery puts together from a directory that holds a history.
#[verifier::rlimit(60)]
pub proof fn lemma_recovered<V: Vfs>(
    vfs: &V,
    dir: Seq<char>,
    master: Option<Seq<u8>>,
    disk: Disk,
    log: Seq<Entry>,
    wals: Seq<u64>,
    tables: Seq<u64>,
    ssts: Seq<LiveSst<V::File>>,
    top: u64,
)
    requires
        disk_ok(V::File::fs_state(vfs), dir, master, disk, log),
        wal_listing(wals, V::File::fs_state(vfs), dir),
        table_listing(tables, V::File::fs_state(vfs), dir),
        ssts_opened(ssts, vfs, dir, master, tables),
        top == record_top(
            all_records(segments_at(V::File::fs_state(vfs), dir, wals)),
            header_top(ssts),
        ),
    ensures
        segments_at(V::File::fs_state(vfs), dir, wals) == disk.segments,
        ssts.len() == disk.tables.len(),
        forall|i: int|
            #![trigger ssts[i]]
            0 <= i < ssts.len() ==> ssts[i].id == disk.tables[i].id && ssts[i].reader.queue(vfs)
                == (disk.tables[i].run, None::<Fault>) && ssts[i].reader.holds_run(
                vfs,
                disk.tables[i].run,
            ),
        header_top(ssts) == floor_of(runs(disk.tables)),
        layers_ok(
            seq![replayed(all_records(disk.segments), header_top(ssts))] + runs(disk.tables),
            seq![top as int] + clamped(disk.cuts, top as int),
            log,
        ),
        history_ok((Disk { cuts: clamped(disk.cuts, top as int), ..disk }), log),
        top >= last_seqno(all_records(disk.segments)),
        top == disk_top(disk),
{
    let state = V::File::fs_state(vfs);
    lemma_listing(state, dir, master, disk, wals, tables);
    let segs = segments_at(state, dir, wals);
    reveal(files_ok);
    assert(segs =~= disk.segments) by {
        assert forall|i: int| 0 <= i < segs.len() implies segs[i] == disk.segments[i] by {
            assert(disk.segments[i].id == segment_ids(disk.segments)[i]);
            assert(stored(state, wal_path(dir, disk.segments[i].id)) is Some);
            assert(segs[i].id == disk.segments[i].id);
            assert(segs[i].records =~= disk.segments[i].records);
        }
    }
    let rs = runs(disk.tables);
    assert forall|i: int| #![trigger ssts[i]] 0 <= i < ssts.len() implies ssts[i].id
        == disk.tables[i].id && ssts[i].reader.queue(vfs) == (disk.tables[i].run, None::<Fault>)
        && ssts[i].reader.holds_run(vfs, disk.tables[i].run)
        && ssts[i].reader.table().header.max_seqno == top_of(rs[i]) by {
        assert(ssts[i].id == tables[tables.len() - 1 - i]);
        assert(tables[tables.len() - 1 - i] == disk.tables[i].id);
        assert(stored(state, table_path(dir, disk.tables[i].id)) is Some);
        lemma_attached_holds(ssts[i], vfs, dir, master, disk.tables[i].run);
    }
    lemma_floor_found::<V>(ssts, vfs, rs);
    let records = all_records(disk.segments);
    lemma_record_top(records, header_top(ssts));
    lemma_clamped(disk, log, top);
    let disk2 = Disk { cuts: clamped(disk.cuts, top as int), ..disk };
    law_recovery_restores_history(disk2, log, top);
}

/// A directory that holds a history loads.
#[verifier::rlimit(60)]
pub proof fn lemma_disk_loads(
    state: FsState,
    dir: Seq<char>,
    master: Option<Seq<u8>>,
    disk: Disk,
    wals: Seq<u64>,
    tables: Seq<u64>,
)
    requires
        files_ok(state, dir, master, disk),
        wal_listing(wals, state, dir),
        table_listing(tables, state, dir),
    ensures
        forall|i: int|
            #![trigger wals[i]]
            0 <= i < wals.len() ==> segment_loads(state, dir, wals[i]),
        forall|i: int|
            #![trigger tables[i]]
            0 <= i < tables.len() ==> table_loads(state, dir, master, tables[i]),
{
    lemma_listing(state, dir, master, disk, wals, tables);
    reveal(files_ok);
    assert forall|i: int| #![trigger wals[i]] 0 <= i < wals.len() implies segment_loads(
        state,
        dir,
        wals[i],
    ) by {
        assert(wals[i] == disk.segments[i].id);
        assert(stored(state, wal_path(dir, disk.segments[i].id)) is Some);
    }
    assert forall|i: int| #![trigger tables[i]] 0 <= i < tables.len() implies table_loads(
        state,
        dir,
        master,
        tables[i],
    ) by {
        let k = disk.tables.len() - 1 - i;
        assert(tables[i] == disk.tables[k].id);
        assert(stored(state, table_path(dir, disk.tables[k].id)) is Some);
    }
}

} // verus!
