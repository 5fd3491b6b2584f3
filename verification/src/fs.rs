//! High level FAT32 filesystem access.
use vstd::prelude::*;

use crate::blockdev::{BlockDevice, BlockError};
use crate::bpb::BiosParameterBlock;
use crate::bpb::bpb_of;
use crate::dir::{
    dir_entry_of, fold_case, lemma_dir_bit, eq_ignore_ascii_case, info_of, parse_dir_entry, same_name_ignoring_ascii_case,
    DirEntry, DirEntryInfo, EntryModel, InfoModel,
};
use crate::path::{
    is_absolute, is_plain_component, lemma_components_are_plain, lemma_root_path,
    lemma_single_component, lemma_slash_joined_plain, normalize_path, normalize_pieces, path_components, slash_joined,
    split_on_slash, apply_piece, texts,
};
use crate::fat::{next_cluster_defined, next_cluster_of, FatTable};

verus! {

/// Errors returned by the filesystem API.
#[derive(Debug, Clone, Copy, PartialEq, Eq, Structural)]
pub enum FsError {
    Block(BlockError),
    InvalidBpb,
    NotFound,
    NotADirectory,
    NotAFile,
}

impl From<BlockError> for FsError {
    fn from(e: BlockError) -> (r: Self) {
        FsError::Block(e)
    }
}

impl vstd::std_specs::convert::FromSpecImpl<BlockError> for FsError {
    open spec fn obeys_from_spec() -> bool {
        true
    }

    open spec fn from_spec(e: BlockError) -> Self {
        FsError::Block(e)
    }
}

/// The models of a sequence of directory entries.
pub open spec fn entry_models(v: Seq<DirEntry>) -> Seq<EntryModel> {
    v.map_values(|e: DirEntry| e@)
}

/// The models of a sequence of `ls` records.
pub open spec fn info_models(v: Seq<DirEntryInfo>) -> Seq<InfoModel> {
    v.map_values(|e: DirEntryInfo| e@)
}

/// The first entry whose name equals `name`, ASCII letters compared without case.
pub open spec fn first_named(es: Seq<EntryModel>, name: Seq<char>) -> Option<EntryModel>
    decreases es.len(),
{
    if es.len() == 0 {
        None
    } else if same_name_ignoring_ascii_case(es[0].name, name) {
        Some(es[0])
    } else {
        first_named(es.drop_first(), name)
    }
}

/// The text of a path optionally given.
pub open spec fn opt_text(path: Option<&str>) -> Option<Seq<char>> {
    match path {
        Some(p) => Some(p@),
        None => None,
    }
}

/// The text of a working directory.
pub open spec fn cwd_text(cs: Seq<Seq<char>>) -> Seq<char> {
    if cs.len() == 0 {
        seq!['/']
    } else {
        slash_joined(cs)
    }
}

/// `n` zero bytes.
pub open spec fn zeros(n: nat) -> Seq<u8> {
    Seq::new(n, |k: int| 0u8)
}

/// The directory entries that the records of `data` from `pos` on add to
/// `acc`, read 32 bytes at a time, and whether an end marker stopped the scan.
pub open spec fn scan_entries(data: Seq<u8>, pos: nat, acc: Seq<EntryModel>) -> (
    Seq<EntryModel>,
    bool,
)
    decreases data.len() - pos,
{
    if pos >= data.len() {
        (acc, false)
    } else {
        let end: nat = if pos + 32 <= data.len() {
            (pos + 32) as nat
        } else {
            data.len()
        };
        let chunk = data.subrange(pos as int, end as int);
        match dir_entry_of(chunk) {
            Some(e) => scan_entries(data, end, acc.push(e)),
            None => if chunk[0] == 0 {
                (acc, true)
            } else {
                scan_entries(data, end, acc)
            },
        }
    }
}

impl<D: BlockDevice> FatTable<D> {
    /// Reading sectors `first + i .. first + n` of a cluster of `cs` bytes,
    /// concatenated; `None` where a sector number overflows or a sector does
    /// not fit in the cluster buffer.
    pub open spec fn sectors_from(self, first: int, i: nat, n: nat, cs: nat) -> Option<
        Result<Seq<u8>, BlockError>,
    >
        decreases n - i,
    {
        if i >= n {
            Some(Ok(Seq::empty()))
        } else if first + i > u64::MAX || (i + 1) * self.device.spec_sector_size() > cs {
            None
        } else {
            match self.device.sector((first + i) as u64) {
                None => Some(Err(BlockError::IoError)),
                Some(d) => match self.sectors_from(first, (i + 1) as nat, n, cs) {
                    Some(Ok(rest)) => Some(Ok(d + rest)),
                    other => other,
                },
            }
        }
    }

    /// The first sector of `cluster` on the device.
    pub open spec fn cluster_first_sector(self, bpb: BiosParameterBlock, cluster: u32) -> int {
        self.lba_start + bpb.spec_cluster_to_lba(cluster)
    }

    /// The bytes of `cluster`: its sectors in order, then zeros up to the
    /// cluster size; `None` where reading it does not complete.
    pub open spec fn cluster_data(self, bpb: BiosParameterBlock, cluster: u32) -> Option<
        Result<Seq<u8>, FsError>,
    > {
        let first = self.cluster_first_sector(bpb, cluster);
        let cs = bpb.spec_cluster_size();
        let spc = bpb.sectors_per_cluster as nat;
        if cluster < 2 || first > u64::MAX {
            None
        } else {
            match self.sectors_from(first, 0, spc, cs) {
                None => None,
                Some(Err(e)) => Some(Err(FsError::Block(e))),
                Some(Ok(data)) => Some(Ok(data + zeros((cs - data.len()) as nat))),
            }
        }
    }

    /// Following a directory's cluster chain from `cluster` for at most
    /// `fuel` clusters, collecting entries after `acc`; `None` where the fuel
    /// runs out or a step does not complete.
    pub open spec fn dir_walk(
        self,
        bpb: BiosParameterBlock,
        cluster: u32,
        acc: Seq<EntryModel>,
        fuel: nat,
    ) -> Option<Result<Seq<EntryModel>, FsError>>
        decreases fuel,
    {
        if fuel == 0 {
            None
        } else {
            match self.cluster_data(bpb, cluster) {
                None => None,
                Some(Err(e)) => Some(Err(e)),
                Some(Ok(data)) => {
                    let (acc2, ended) = scan_entries(data, 0, acc);
                    if ended {
                        Some(Ok(acc2))
                    } else if !next_cluster_defined(self.device, self.bpb, self.lba_start, cluster) {
                        None
                    } else {
                        match next_cluster_of(self.device, self.bpb, self.lba_start, cluster) {
                            Err(e) => Some(Err(FsError::Block(e))),
                            Ok(None) => Some(Ok(acc2)),
                            Ok(Some(next)) => self.dir_walk(bpb, next, acc2, (fuel - 1) as nat),
                        }
                    }
                },
            }
        }
    }

    /// The entries of the directory starting at `cluster`; `None` where
    /// reading it does not end.
    pub open spec fn dir_listing(self, bpb: BiosParameterBlock, cluster: u32) -> Option<
        Result<Seq<EntryModel>, FsError>,
    > {
        if exists|f: nat| self.dir_walk(bpb, cluster, Seq::empty(), f) is Some {
            self.dir_walk(
                bpb,
                cluster,
                Seq::empty(),
                choose|f: nat| self.dir_walk(bpb, cluster, Seq::empty(), f) is Some,
            )
        } else {
            None
        }
    }

    /// Following a file's cluster chain from `cluster` with `remaining`
    /// bytes still to read, after `acc`, for at most `fuel` clusters.
    pub open spec fn file_walk(
        self,
        bpb: BiosParameterBlock,
        cluster: u32,
        remaining: nat,
        acc: Seq<u8>,
        fuel: nat,
    ) -> Option<Result<Seq<u8>, FsError>>
        decreases fuel,
    {
        if fuel == 0 {
            None
        } else {
            match self.cluster_data(bpb, cluster) {
                None => None,
                Some(Err(e)) => Some(Err(e)),
                Some(Ok(block)) => {
                    if remaining <= block.len() {
                        Some(Ok(acc + block.take(remaining as int)))
                    } else if !next_cluster_defined(self.device, self.bpb, self.lba_start, cluster) {
                        None
                    } else {
                        let acc2 = acc + block;
                        match next_cluster_of(self.device, self.bpb, self.lba_start, cluster) {
                            Err(e) => Some(Err(FsError::Block(e))),
                            Ok(None) => Some(Ok(acc2)),
                            Ok(Some(next)) => self.file_walk(
                                bpb,
                                next,
                                (remaining - block.len()) as nat,
                                acc2,
                                (fuel - 1) as nat,
                            ),
                        }
                    }
                },
            }
        }
    }

    /// The first `size` bytes of the file starting at `cluster`, or fewer
    /// where its chain ends first; `None` where a step of reading it does
    /// not complete. With clusters of at least one byte the read visits at
    /// most `clusters_to_read` clusters, whatever the chain; with empty
    /// clusters, `None` also where it does not end.
    pub open spec fn file_data(self, bpb: BiosParameterBlock, cluster: u32, size: nat) -> Option<
        Result<Seq<u8>, FsError>,
    > {
        if bpb.spec_cluster_size() > 0 {
            self.file_walk(
                bpb,
                cluster,
                size,
                Seq::empty(),
                clusters_to_read(size, bpb.spec_cluster_size()),
            )
        } else if exists|f: nat| self.file_walk(bpb, cluster, size, Seq::empty(), f) is Some {
            self.file_walk(
                bpb,
                cluster,
                size,
                Seq::empty(),
                choose|f: nat| self.file_walk(bpb, cluster, size, Seq::empty(), f) is Some,
            )
        } else {
            None
        }
    }

    /// A file read starts with its first cluster: where the size fits in
    /// it, the data is the cluster's first `size` bytes; where it does not
    /// and the FAT links the cluster to `next`, the data is the whole
    /// cluster followed by the rest of the size read from `next` (an error
    /// there is the read's error).
    pub proof fn lemma_file_follows_chain(
        self,
        bpb: BiosParameterBlock,
        cluster: u32,
        block: Seq<u8>,
        size: nat,
        next: u32,
    )
        requires
            bpb.spec_cluster_size() > 0,
            self.cluster_data(bpb, cluster) == Some(Ok::<Seq<u8>, FsError>(block)),
        ensures
            size <= block.len() ==> self.file_data(bpb, cluster, size) == Some(
                Ok::<Seq<u8>, FsError>(block.take(size as int)),
            ),
            size > block.len() && next_cluster_defined(self.device, self.bpb, self.lba_start, cluster)
                && next_cluster_of(self.device, self.bpb, self.lba_start, cluster) == Ok::<
                Option<u32>,
                BlockError,
            >(Some(next)) ==> self.file_data(bpb, cluster, size) == prepend_bytes(
                block,
                self.file_data(bpb, next, (size - block.len()) as nat),
            ),
    {
        let cs = bpb.spec_cluster_size();
        let b = clusters_to_read(size, cs);
        lemma_clusters_positive(size, cs);
        assert(Seq::<u8>::empty() + block.take(size as int) =~= block.take(size as int));
        if size > block.len() && next_cluster_defined(self.device, self.bpb, self.lba_start, cluster)
            && next_cluster_of(self.device, self.bpb, self.lba_start, cluster) == Ok::<
            Option<u32>,
            BlockError,
        >(Some(next)) {
            lemma_cluster_data_len(self, bpb, cluster);
            let r2 = (size - block.len()) as nat;
            lemma_clusters_step(size, block.len(), cs);
            assert(Seq::<u8>::empty() + block =~= block);
            lemma_file_walk_acc(self, bpb, next, r2, block, (b - 1) as nat);
            lemma_file_walk_fuel(self, bpb, next, r2, Seq::empty(), (b - 1) as nat);
        }
    }

    /// A directory's listing stops at an end marker: where scanning a
    /// cluster's records meets one, the listing from that cluster is the
    /// cluster's entries before it, and no further cluster is read.
    pub proof fn lemma_listing_stops_at_marker(self, bpb: BiosParameterBlock, cluster: u32, data: Seq<u8>)
        requires
            self.cluster_data(bpb, cluster) == Some(Ok::<Seq<u8>, FsError>(data)),
            scan_entries(data, 0, Seq::empty()).1,
        ensures
            self.dir_listing(bpb, cluster) == Some(
                Ok::<Seq<EntryModel>, FsError>(cluster_entries(data)),
            ),
    {
        assert(self.dir_walk(bpb, cluster, Seq::empty(), 1) is Some);
        let f = choose|f: nat| self.dir_walk(bpb, cluster, Seq::empty(), f) is Some;
        assert(f >= 1);
    }

    /// A directory's listing follows its cluster chain:    /// A directory's listing follows its cluster chain: where a cluster
    /// holds no record starting with the end marker 0x00 and its FAT entry
    /// links to `next`, the listing is that cluster's entries followed by
    /// the listing from `next` (an error or a read that does not end there
    /// is the listing's too).
    pub proof fn lemma_listing_follows_chain(
        self,
        bpb: BiosParameterBlock,
        cluster: u32,
        data: Seq<u8>,
        next: u32,
    )
        requires
            self.cluster_data(bpb, cluster) == Some(Ok::<Seq<u8>, FsError>(data)),
            no_end_marker(data),
            next_cluster_defined(self.device, self.bpb, self.lba_start, cluster),
            next_cluster_of(self.device, self.bpb, self.lba_start, cluster) == Ok::<
                Option<u32>,
                BlockError,
            >(Some(next)),
        ensures
            self.dir_listing(bpb, cluster) == match self.dir_listing(bpb, next) {
                Some(Ok(rest)) => Some(Ok(cluster_entries(data) + rest)),
                other => other,
            },
    {
        let e = cluster_entries(data);
        lemma_scan_no_marker(data, 0, Seq::empty());
        assert forall|f: nat| f >= 1 implies #[trigger] self.dir_walk(
            bpb,
            cluster,
            Seq::empty(),
            f,
        ) == prepend_listing(e, self.dir_walk(bpb, next, Seq::empty(), (f - 1) as nat)) by {
            lemma_dir_walk_acc(self, bpb, next, e, (f - 1) as nat);
        }
        if exists|g: nat| self.dir_walk(bpb, next, Seq::empty(), g) is Some {
            let g = choose|g: nat| self.dir_walk(bpb, next, Seq::empty(), g) is Some;
            assert(self.dir_walk(bpb, cluster, Seq::empty(), g + 1) is Some);
            let f0 = choose|f: nat| self.dir_walk(bpb, cluster, Seq::empty(), f) is Some;
            assert(f0 >= 1);
            let h = (f0 - 1) as nat;
            assert(self.dir_walk(bpb, next, Seq::empty(), h) is Some);
            if h <= g {
                lemma_dir_walk_fuel_mono(self, bpb, next, Seq::empty(), h, g);
            } else {
                lemma_dir_walk_fuel_mono(self, bpb, next, Seq::empty(), g, h);
            }
        } else {
            if exists|f: nat| self.dir_walk(bpb, cluster, Seq::empty(), f) is Some {
                let f0 = choose|f: nat| self.dir_walk(bpb, cluster, Seq::empty(), f) is Some;
                assert(f0 >= 1);
                assert(self.dir_walk(bpb, next, Seq::empty(), (f0 - 1) as nat) is Some);
            }
        }
    }

    /// The bytes of a cluster are its sectors in turn:    /// The bytes of a cluster are its sectors in turn: for `k` below the
    /// sectors per cluster, the bytes at `k * ss .. (k + 1) * ss` (`ss` the
    /// device's sector size) are device sector `lba_start + reserved + fats *
    /// sectors_per_fat + (cluster - 2) * sectors_per_cluster + k`.
    pub proof fn lemma_cluster_bytes(self, bpb: BiosParameterBlock, cluster: u32, k: nat)
        requires
            k < bpb.sectors_per_cluster,
        ensures
            self.cluster_data(bpb, cluster) matches Some(Ok(b)) ==> self.device.sector(
                (self.lba_start + bpb.reserved_sector_count + bpb.num_fats * bpb.sectors_per_fat + (
                cluster - 2) * bpb.sectors_per_cluster + k) as u64,
            ) == Some(
                b.subrange(
                    k * self.device.spec_sector_size(),
                    (k + 1) * self.device.spec_sector_size(),
                ),
            ),
    {
        let first = self.cluster_first_sector(bpb, cluster);
        let spc = bpb.sectors_per_cluster as nat;
        let cs = bpb.spec_cluster_size();
        let ss = self.device.spec_sector_size() as int;
        if let Some(Ok(b)) = self.cluster_data(bpb, cluster) {
            lemma_sectors_from_bytes(self, first, 0, spc, cs);
            if let Some(Ok(data)) = self.sectors_from(first, 0, spc, cs) {
                assert(0 <= k * ss && k * ss <= (k + 1) * ss && (k + 1) * ss <= spc * ss) by (nonlinear_arith)
                    requires
                        k + 1 <= spc,
                        ss >= 0,
                ;
                assert(data.len() == (spc - 0) * ss);
                assert((spc - 0) * ss == spc * ss);
                assert(data.len() == spc * ss);
                assert(b == data + zeros((cs - data.len()) as nat));
                let lo = k * ss;
                let hi = (k + 1) * ss;
                assert(data.subrange((k - 0) * ss, (k - 0 + 1) * ss) == data.subrange(lo, hi));
                assert(0 <= lo <= hi <= data.len());
                assert forall|j: int| 0 <= j < hi - lo implies #[trigger] b.subrange(lo, hi)[j]
                    == data.subrange(lo, hi)[j] by {
                    assert(b[lo + j] == data[lo + j]);
                }
                assert(b.subrange(lo, hi) =~= data.subrange(lo, hi));
            }
        }
    }

    /// A file read ends after at most `clusters_to_read` clusters, even on a    /// A file read ends after at most `clusters_to_read` clusters, even on a
    /// chain that loops: with clusters of at least one byte, a walk given at
    /// least that many clusters gives what reading the file gives.
    pub proof fn lemma_file_read_ends(
        self,
        bpb: BiosParameterBlock,
        cluster: u32,
        size: nat,
        fuel: nat,
    )
        requires
            bpb.spec_cluster_size() > 0,
            fuel >= clusters_to_read(size, bpb.spec_cluster_size()),
        ensures
            self.file_walk(bpb, cluster, size, Seq::empty(), fuel) == self.file_data(
                bpb,
                cluster,
                size,
            ),
    {
        lemma_file_walk_fuel(self, bpb, cluster, size, Seq::empty(), fuel);
    }
}

/// Whether no 32-byte record of `data` starts with the end marker 0x00.
pub open spec fn no_end_marker(data: Seq<u8>) -> bool {
    forall|p: int| 0 <= p < data.len() && p % 32 == 0 ==> #[trigger] data[p] != 0
}

/// The entries that the records of one cluster's bytes hold.
pub open spec fn cluster_entries(data: Seq<u8>) -> Seq<EntryModel> {
    scan_entries(data, 0, Seq::empty()).0
}

/// A listing outcome with `e` put in front of its entries.
pub open spec fn prepend_listing(e: Seq<EntryModel>, r: Option<Result<Seq<EntryModel>, FsError>>) -> Option<
    Result<Seq<EntryModel>, FsError>,
> {
    match r {
        Some(Ok(rest)) => Some(Ok(e + rest)),
        other => other,
    }
}

/// The entries of one 32-byte record: its entry where it describes one, and
/// nothing otherwise; the scan stops there exactly at an end marker.
pub proof fn lemma_entries_of_record(r: Seq<u8>)
    requires
        r.len() == 32,
    ensures
        cluster_entries(r) == (match dir_entry_of(r) {
            Some(e) => seq![e],
            None => Seq::<EntryModel>::empty(),
        }),
        scan_entries(r, 0, Seq::empty()).1 == (r[0] == 0),
{
    assert(r.subrange(0, 32) =~= r);
    let none = Seq::<EntryModel>::empty();
    if let Some(e) = dir_entry_of(r) {
        assert(none.push(e) =~= seq![e]);
        assert(scan_entries(r, 32, none.push(e)) == (none.push(e), false));
        assert(scan_entries(r, 0, none) == scan_entries(r, 32, none.push(e)));
    } else {
        assert(scan_entries(r, 32, none) == (none, false));
        if r[0] != 0 {
            assert(scan_entries(r, 0, none) == scan_entries(r, 32, none));
        }
    }
}

/// Records with no end marker, followed by more bytes: the entries are those
/// of the records, then those of the bytes after them, and whether the scan
/// stops is decided by the bytes after them.
pub proof fn lemma_entries_concat(a: Seq<u8>, b: Seq<u8>)
    requires
        a.len() % 32 == 0,
        no_end_marker(a),
    ensures
        cluster_entries(a + b) == cluster_entries(a) + cluster_entries(b),
        scan_entries(a + b, 0, Seq::empty()).1 == scan_entries(b, 0, Seq::empty()).1,
{
    lemma_scan_prefix(a, b, 0, Seq::empty());
    lemma_scan_acc(b, 0, cluster_entries(a));
}

/// Scanning the part of `p + b` after `p` is scanning `b`.
proof fn lemma_scan_shift(p: Seq<u8>, b: Seq<u8>, q: nat, acc: Seq<EntryModel>)
    ensures
        scan_entries(p + b, (p.len() + q) as nat, acc) == scan_entries(b, q, acc),
    decreases b.len() - q,
{
    let s = p + b;
    let pos = (p.len() + q) as nat;
    if q < b.len() {
        let end: nat = if q + 32 <= b.len() {
            (q + 32) as nat
        } else {
            b.len()
        };
        let end2: nat = (p.len() + end) as nat;
        assert(s.subrange(pos as int, end2 as int) =~= b.subrange(q as int, end as int));
        let chunk = b.subrange(q as int, end as int);
        match dir_entry_of(chunk) {
            Some(e) => lemma_scan_shift(p, b, end, acc.push(e)),
            None => lemma_scan_shift(p, b, end, acc),
        }
    }
}

/// Scanning `a + b` from a record boundary of `a`, which has no end marker,
/// goes through `a`'s records and then scans `b` after them.
proof fn lemma_scan_prefix(a: Seq<u8>, b: Seq<u8>, pos: nat, acc: Seq<EntryModel>)
    requires
        a.len() % 32 == 0,
        no_end_marker(a),
        pos % 32 == 0,
        pos <= a.len(),
    ensures
        scan_entries(a + b, pos, acc) == scan_entries(b, 0, scan_entries(a, pos, acc).0),
    decreases a.len() - pos,
{
    let s = a + b;
    if pos == a.len() {
        lemma_scan_shift(a, b, 0, acc);
        assert((a.len() + 0) as nat == pos);
    } else {
        assert(pos + 32 <= a.len()) by {
            vstd::arithmetic::div_mod::lemma_fundamental_div_mod(pos as int, 32);
            vstd::arithmetic::div_mod::lemma_fundamental_div_mod(a.len() as int, 32);
        }
        assert(a[pos as int] != 0);
        let chunk = a.subrange(pos as int, pos + 32int);
        assert(s.subrange(pos as int, pos + 32int) =~= chunk);
        assert(chunk[0] == a[pos as int]);
        match dir_entry_of(chunk) {
            Some(e) => lemma_scan_prefix(a, b, (pos + 32) as nat, acc.push(e)),
            None => lemma_scan_prefix(a, b, (pos + 32) as nat, acc),
        }
    }
}

/// A file read outcome with `b` put in front of its bytes.
pub open spec fn prepend_bytes(b: Seq<u8>, r: Option<Result<Seq<u8>, FsError>>) -> Option<
    Result<Seq<u8>, FsError>,
> {
    match r {
        Some(Ok(rest)) => Some(Ok(b + rest)),
        other => other,
    }
}

/// A file walk after bytes already gathered puts them in front.
proof fn lemma_file_walk_acc<D: BlockDevice>(
    t: FatTable<D>,
    bpb: BiosParameterBlock,
    cluster: u32,
    remaining: nat,
    acc: Seq<u8>,
    fuel: nat,
)
    ensures
        t.file_walk(bpb, cluster, remaining, acc, fuel) == prepend_bytes(
            acc,
            t.file_walk(bpb, cluster, remaining, Seq::empty(), fuel),
        ),
    decreases fuel,
{
    if fuel > 0 {
        if let Some(Ok(block)) = t.cluster_data(bpb, cluster) {
            if remaining <= block.len() {
                assert(Seq::<u8>::empty() + block.take(remaining as int) =~= block.take(
                    remaining as int,
                ));
            } else if next_cluster_defined(t.device, t.bpb, t.lba_start, cluster) {
                assert(Seq::<u8>::empty() + block =~= block);
                if let Ok(Some(next)) = next_cluster_of(t.device, t.bpb, t.lba_start, cluster) {
                    let r2 = (remaining - block.len()) as nat;
                    lemma_file_walk_acc(t, bpb, next, r2, acc + block, (fuel - 1) as nat);
                    lemma_file_walk_acc(t, bpb, next, r2, block, (fuel - 1) as nat);
                    if let Some(Ok(rest)) = t.file_walk(bpb, next, r2, Seq::empty(), (fuel - 1) as nat) {
                        assert(acc + block + rest =~= acc + (block + rest));
                    }
                }
            }
        }
    }
}

/// Scanning records with no end marker does not stop early.
proof fn lemma_scan_no_marker(data: Seq<u8>, pos: nat, acc: Seq<EntryModel>)
    requires
        no_end_marker(data),
        pos % 32 == 0,
    ensures
        !scan_entries(data, pos, acc).1,
    decreases data.len() - pos,
{
    if pos < data.len() {
        assert(data[pos as int] != 0);
        let end: nat = if pos + 32 <= data.len() {
            (pos + 32) as nat
        } else {
            data.len()
        };
        let chunk = data.subrange(pos as int, end as int);
        assert(chunk[0] == data[pos as int]);
        let acc2 = match dir_entry_of(chunk) {
            Some(e) => acc.push(e),
            None => acc,
        };
        if end == pos + 32 {
            lemma_scan_no_marker(data, end, acc2);
        } else {
            assert(!scan_entries(data, end, acc2).1);
        }
    }
}

/// Scanning after entries already gathered puts them in front.
proof fn lemma_scan_acc(data: Seq<u8>, pos: nat, acc: Seq<EntryModel>)
    ensures
        scan_entries(data, pos, acc).0 == acc + scan_entries(data, pos, Seq::empty()).0,
        scan_entries(data, pos, acc).1 == scan_entries(data, pos, Seq::empty()).1,
    decreases data.len() - pos,
{
    if pos >= data.len() {
        assert(acc + Seq::<EntryModel>::empty() =~= acc);
    } else {
        let end: nat = if pos + 32 <= data.len() {
            (pos + 32) as nat
        } else {
            data.len()
        };
        let chunk = data.subrange(pos as int, end as int);
        match dir_entry_of(chunk) {
            Some(e) => {
                lemma_scan_acc(data, end, acc.push(e));
                lemma_scan_acc(data, end, seq![e]);
                assert(Seq::<EntryModel>::empty().push(e) =~= seq![e]);
                let r = scan_entries(data, end, Seq::empty()).0;
                assert(acc.push(e) + r =~= acc + (seq![e] + r));
            },
            None => {
                lemma_scan_acc(data, end, acc);
                if chunk[0] == 0 {
                    assert(acc + Seq::<EntryModel>::empty() =~= acc);
                }
            },
        }
    }
}

/// A directory walk after entries already gathered puts them in front.
proof fn lemma_dir_walk_acc<D: BlockDevice>(
    t: FatTable<D>,
    bpb: BiosParameterBlock,
    cluster: u32,
    acc: Seq<EntryModel>,
    fuel: nat,
)
    ensures
        t.dir_walk(bpb, cluster, acc, fuel) == prepend_listing(
            acc,
            t.dir_walk(bpb, cluster, Seq::empty(), fuel),
        ),
    decreases fuel,
{
    if fuel > 0 {
        if let Some(Ok(data)) = t.cluster_data(bpb, cluster) {
            lemma_scan_acc(data, 0, acc);
            let (e0, ended) = scan_entries(data, 0, Seq::empty());
            if ended {
                assert(acc + e0 == scan_entries(data, 0, acc).0);
            } else if next_cluster_defined(t.device, t.bpb, t.lba_start, cluster) {
                if let Ok(Some(next)) = next_cluster_of(t.device, t.bpb, t.lba_start, cluster) {
                    lemma_dir_walk_acc(t, bpb, next, acc + e0, (fuel - 1) as nat);
                    lemma_dir_walk_acc(t, bpb, next, e0, (fuel - 1) as nat);
                    if let Some(Ok(rest)) = t.dir_walk(bpb, next, Seq::empty(), (fuel - 1) as nat) {
                        assert(acc + e0 + rest =~= acc + (e0 + rest));
                    }
                } else {
                    assert(acc + e0 == scan_entries(data, 0, acc).0);
                }
            }
        }
    }
}

/// Once a directory walk completes, more fuel does not change it.
proof fn lemma_dir_walk_fuel_mono<D: BlockDevice>(
    t: FatTable<D>,
    bpb: BiosParameterBlock,
    cluster: u32,
    acc: Seq<EntryModel>,
    f: nat,
    g: nat,
)
    requires
        f <= g,
        t.dir_walk(bpb, cluster, acc, f) is Some,
    ensures
        t.dir_walk(bpb, cluster, acc, g) == t.dir_walk(bpb, cluster, acc, f),
    decreases f,
{
    if let Some(Ok(data)) = t.cluster_data(bpb, cluster) {
        let (acc2, ended) = scan_entries(data, 0, acc);
        if !ended && next_cluster_defined(t.device, t.bpb, t.lba_start, cluster) {
            if let Ok(Some(next)) = next_cluster_of(t.device, t.bpb, t.lba_start, cluster) {
                lemma_dir_walk_fuel_mono(t, bpb, next, acc2, (f - 1) as nat, (g - 1) as nat);
            }
        }
    }
}

/// Reading sectors `first + i .. first + n` gives,/// Reading sectors `first + i .. first + n` gives, where it completes, one
/// sector's bytes for each, in order.
proof fn lemma_sectors_from_bytes<D: BlockDevice>(
    t: FatTable<D>,
    first: int,
    i: nat,
    n: nat,
    cs: nat,
)
    ensures
        t.sectors_from(first, i, n, cs) matches Some(Ok(data)) ==> {
            &&& data.len() == (if i <= n {
                (n - i) * t.device.spec_sector_size()
            } else {
                0
            })
            &&& forall|k: int|
                i <= k < n ==> t.device.sector((first + k) as u64) == Some(
                    #[trigger] data.subrange(
                        (k - i) * t.device.spec_sector_size(),
                        (k - i + 1) * t.device.spec_sector_size(),
                    ),
                )
        },
    decreases n - i,
{
    let ss = t.device.spec_sector_size() as int;
    if i < n {
        if let Some(d) = t.device.sector((first + i) as u64) {
            lemma_sectors_from_bytes(t, first, (i + 1) as nat, n, cs);
            if let Some(Ok(data)) = t.sectors_from(first, i, n, cs) {
                t.device.lemma_sector_len((first + i) as u64);
                let rest = data.subrange(ss, data.len() as int);
                assert(t.sectors_from(first, (i + 1) as nat, n, cs) == Some(
                    Ok::<Seq<u8>, BlockError>(rest),
                )) by {
                    if let Some(Ok(r)) = t.sectors_from(first, (i + 1) as nat, n, cs) {
                        assert(data == d + r);
                        assert(rest =~= r);
                    }
                }
                assert(data.len() == (n - i) * ss) by (nonlinear_arith)
                    requires
                        data.len() == ss + rest.len(),
                        rest.len() == (n - (i + 1)) * ss,
                ;
                assert forall|k: int| i <= k < n implies t.device.sector((first + k) as u64) == Some(
                    #[trigger] data.subrange((k - i) * ss, (k - i + 1) * ss),
                ) by {
                    if k == i {
                        assert(data.subrange(0, ss) =~= d);
                        assert((k - i) * ss == 0 && (k - i + 1) * ss == ss) by (nonlinear_arith)
                            requires
                                k == i,
                        ;
                    } else {
                        assert((k - i) * ss == ss + (k - (i + 1)) * ss && (k - i + 1) * ss == ss + (k
                            - (i + 1) + 1) * ss) by (nonlinear_arith);
                        assert(0 <= (k - (i + 1)) * ss && (k - (i + 1) + 1) * ss <= rest.len()) by (nonlinear_arith)
                            requires
                                i + 1 <= k < n,
                                ss >= 0,
                                rest.len() == (n - (i + 1)) * ss,
                        ;
                        assert(data.subrange((k - i) * ss, (k - i + 1) * ss) =~= rest.subrange(
                            (k - (i + 1)) * ss,
                            (k - (i + 1) + 1) * ss,
                        ));
                    }
                }
            }
        }
    } else {
        if let Some(Ok(data)) = t.sectors_from(first, i, n, cs) {
            assert(data.len() == 0);
            if i == n {
                assert((n - i) * ss == 0) by (nonlinear_arith)
                    requires
                        i == n,
                ;
            }
        }
    }
}

/// The most clusters that reading `size` bytes from clusters/// The most clusters that reading `size` bytes from clusters of `cs` bytes
/// visits: one, or as many as hold `size` bytes.
pub open spec fn clusters_to_read(size: nat, cs: nat) -> nat {
    if size <= cs {
        1
    } else {
        ((size + cs - 1) / (cs as int)) as nat
    }
}

/// Reading visits at least one cluster.
proof fn lemma_clusters_positive(r: nat, cs: nat)
    requires
        cs > 0,
    ensures
        clusters_to_read(r, cs) >= 1,
{
    if r > cs {
        let c = cs as int;
        vstd::arithmetic::div_mod::lemma_div_plus_one(r - 1, c);
        assert((r + cs - 1) as int == c + (r - 1));
        vstd::arithmetic::div_mod::lemma_div_pos_is_pos(r - 1, c);
    }
}

/// A cluster read holds at least a cluster's bytes.
proof fn lemma_cluster_data_len<D: BlockDevice>(t: FatTable<D>, bpb: BiosParameterBlock, cluster: u32)
    ensures
        t.cluster_data(bpb, cluster) matches Some(Ok(b)) ==> b.len() >= bpb.spec_cluster_size(),
{
}

/// Reading past a cluster of at least `cs` bytes leaves at most one
/// cluster fewer to read.
proof fn lemma_clusters_step(r: nat, bl: nat, cs: nat)
    requires
        cs > 0,
        bl >= cs,
        r > bl,
    ensures
        clusters_to_read((r - bl) as nat, cs) + 1 <= clusters_to_read(r, cs),
{
    let c = cs as int;
    let r2 = (r - bl) as nat;
    vstd::arithmetic::div_mod::lemma_div_plus_one(r - 1, c);
    assert((r + cs - 1) as int == c + (r - 1));
    vstd::arithmetic::div_mod::lemma_div_by_self(c);
    vstd::arithmetic::div_mod::lemma_div_is_ordered(c, r - 1, c);
    if r2 > cs {
        vstd::arithmetic::div_mod::lemma_div_is_ordered(r2 + cs - 1, r - 1, c);
    }
}

/// Beyond `clusters_to_read` clusters, more fuel does not change a file walk.
proof fn lemma_file_walk_fuel<D: BlockDevice>(
    t: FatTable<D>,
    bpb: BiosParameterBlock,
    cluster: u32,
    remaining: nat,
    acc: Seq<u8>,
    fuel: nat,
)
    requires
        bpb.spec_cluster_size() > 0,
        fuel >= clusters_to_read(remaining, bpb.spec_cluster_size()),
    ensures
        t.file_walk(bpb, cluster, remaining, acc, fuel) == t.file_walk(
            bpb,
            cluster,
            remaining,
            acc,
            clusters_to_read(remaining, bpb.spec_cluster_size()),
        ),
    decreases fuel,
{
    let cs = bpb.spec_cluster_size();
    let b = clusters_to_read(remaining, cs);
    lemma_clusters_positive(remaining, cs);
    lemma_cluster_data_len(t, bpb, cluster);
    if let Some(Ok(block)) = t.cluster_data(bpb, cluster) {
        if remaining > block.len() && next_cluster_defined(t.device, t.bpb, t.lba_start, cluster) {
            if let Ok(Some(next)) = next_cluster_of(t.device, t.bpb, t.lba_start, cluster) {
                let r2 = (remaining - block.len()) as nat;
                lemma_clusters_step(remaining, block.len(), cs);
                lemma_file_walk_fuel(t, bpb, next, r2, acc + block, (fuel - 1) as nat);
                lemma_file_walk_fuel(t, bpb, next, r2, acc + block, (b - 1) as nat);
            }
        }
    }
}

/// Appends the first `n` bytes of `src` to `dst`.
fn push_prefix(dst: &mut Vec<u8>, src: &[u8], n: usize)
    requires
        n <= src@.len(),
    ensures
        final(dst)@ == old(dst)@ + src@.take(n as int),
{
    let mut i: usize = 0;
    while i < n
        invariant
            i <= n <= src@.len(),
            dst@ == old(dst)@ + src@.take(i as int),
        decreases n - i,
    {
        dst.push(src[i]);
        assert(src@.take(i + 1) =~= src@.take(i as int).push(src@[i as int]));
        i = i + 1;
    }
}

/// A copy of a list of strings.
fn clone_strings(v: &Vec<String>) -> (r: Vec<String>)
    ensures
        texts(r@) == texts(v@),
{
    let mut out: Vec<String> = Vec::new();
    let n = v.len();
    let mut i: usize = 0;
    while i < n
        invariant
            n == v@.len(),
            i <= n,
            texts(out@) == texts(v@).take(i as int),
        decreases n - i,
    {
        let ghost before = out@;
        out.push(v[i].clone());
        assert(texts(out@) =~= texts(before).push(v@[i as int]@));
        assert(texts(v@).take(i + 1) =~= texts(v@).take(i as int).push(v@[i as int]@));
        i = i + 1;
    }
    assert(texts(v@).take(n as int) =~= texts(v@));
    out
}

/// Read-only FAT32 filesystem instance.
#[derive(Debug, Clone)]
pub struct Fat32<D: BlockDevice> {
    fat: FatTable<D>,
    pub bpb: BiosParameterBlock,
    current_dir: u32,
    cwd_components: Vec<String>,
}

impl<D: BlockDevice> Fat32<D> {
    /// The device, FAT parameters and volume start that reads go through.
    pub closed spec fn table(self) -> FatTable<D> {
        self.fat
    }

    /// The parameter block that cluster geometry is taken from.
    pub closed spec fn params(self) -> BiosParameterBlock {
        self.bpb
    }

    /// The cluster of the current directory.
    pub closed spec fn current_cluster(self) -> u32 {
        self.current_dir
    }

    /// The names of the directories from the root to the current one.
    pub closed spec fn cwd(self) -> Seq<Seq<char>> {
        crate::path::texts(self.cwd_components@)
    }

    fn read_cluster(&self, cluster: u32) -> (r: Result<Vec<u8>, FsError>)
        requires
            self.table().cluster_data(self.bpb, cluster) is Some,
        ensures
            match r {
                Ok(v) => self.table().cluster_data(self.bpb, cluster) == Some(
                    Ok::<Seq<u8>, FsError>(v@),
                ),
                Err(e) => self.table().cluster_data(self.bpb, cluster) == Some(
                    Err::<Seq<u8>, FsError>(e),
                ),
            },
    {
        let ghost t = self.fat;
        let cs = self.bpb.cluster_size();
        let ss = self.fat.device.sector_size();
        let spc = self.bpb.sectors_per_cluster as u64;
        let first_lba = self.fat.lba_start + self.bpb.cluster_to_lba(cluster);
        let ghost first = first_lba as int;
        let mut data: Vec<u8> = Vec::new();
        let mut i: u64 = 0;
        while i < spc
            invariant
                t == self.fat,
                ss == t.device.spec_sector_size(),
                cs == self.bpb.spec_cluster_size(),
                spc == self.bpb.sectors_per_cluster,
                first == first_lba,
                first == t.cluster_first_sector(self.bpb, cluster),
                t.cluster_data(self.bpb, cluster) is Some,
                i <= spc,
                data@.len() == i * ss,
                data@.len() <= cs,
                t.sectors_from(first, 0, spc as nat, cs as nat) is Some,
                t.sectors_from(first, 0, spc as nat, cs as nat) == match t.sectors_from(
                    first,
                    i as nat,
                    spc as nat,
                    cs as nat,
                ) {
                    Some(Ok(rest)) => Some(Ok(data@ + rest)),
                    other => other,
                },
            decreases spc - i,
        {
            let lba = first_lba + i;
            let mut tmp = vec![0u8; ss];
            match self.fat.device.read_sector(lba, tmp.as_mut_slice()) {
                Ok(()) => {},
                Err(e) => {
                    proof {
                        assert(t.sectors_from(first, i as nat, spc as nat, cs as nat) is Some);
                        assert(t.device.sector(lba) is None);
                        assert(t.sectors_from(first, i as nat, spc as nat, cs as nat) == Some(
                            Err::<Seq<u8>, BlockError>(BlockError::IoError),
                        ));
                        assert(e == BlockError::IoError);
                        assert(t.sectors_from(first, 0, spc as nat, cs as nat) == Some(
                            Err::<Seq<u8>, BlockError>(BlockError::IoError),
                        ));
                    }
                    return Err(FsError::Block(e));
                },
            }
            let ghost before = data@;
            push_prefix(&mut data, tmp.as_slice(), ss);
            proof {
                assert(tmp@.take(ss as int) =~= tmp@);
                assert((i + 1) * ss == i * ss + ss) by (nonlinear_arith);
                let d = t.device.sector(lba).unwrap();
                match t.sectors_from(first, (i + 1) as nat, spc as nat, cs as nat) {
                    Some(Ok(rest)) => {
                        assert(before + (d + rest) =~= (before + d) + rest);
                    },
                    _ => {},
                }
            }
            i = i + 1;
        }
        let ghost sectors = data@;
        assert(sectors == sectors + Seq::<u8>::empty());
        while data.len() < cs
            invariant
                sectors.len() <= data@.len() <= cs,
                data@ == sectors + zeros((data@.len() - sectors.len()) as nat),
            decreases cs - data@.len(),
        {
            data.push(0u8);
            assert(data@ =~= sectors + zeros((data@.len() - sectors.len()) as nat));
        }
        Ok(data)
    }

    /// Adds the entries that the records of `data` hold to `entries`;
    /// returns whether an end marker stopped the scan.
    fn scan_cluster(data: &[u8], entries: &mut Vec<DirEntry>) -> (ended: bool)
        ensures
            scan_entries(data@, 0, entry_models(old(entries)@)) == (
                entry_models(final(entries)@),
                ended,
            ),
    {
        let len = data.len();
        let mut pos: usize = 0;
        while pos < len
            invariant
                len == data@.len(),
                pos <= len,
                scan_entries(data@, 0, entry_models(old(entries)@)) == scan_entries(
                    data@,
                    pos as nat,
                    entry_models(entries@),
                ),
            decreases len - pos,
        {
            let end = if len - pos >= 32 {
                pos + 32
            } else {
                len
            };
            let chunk = vstd::slice::slice_subrange(data, pos, end);
            match parse_dir_entry(chunk) {
                Some(e) => {
                    let ghost m = e@;
                    let ghost prev = entries@;
                    entries.push(e);
                    assert(entry_models(entries@) =~= entry_models(prev).push(m));
                },
                None => {
                    if chunk[0] == 0 {
                        return true;
                    }
                },
            }
            pos = end;
        }
        false
    }

    fn read_directory(&self, start_cluster: u32) -> (r: Result<Vec<DirEntry>, FsError>)
        requires
            self.table().dir_listing(self.bpb, start_cluster) is Some,
        ensures
            match r {
                Ok(v) => self.table().dir_listing(self.bpb, start_cluster) == Some(
                    Ok::<Seq<EntryModel>, FsError>(entry_models(v@)),
                ),
                Err(e) => self.table().dir_listing(self.bpb, start_cluster) == Some(
                    Err::<Seq<EntryModel>, FsError>(e),
                ),
            },
    {
        let ghost t = self.fat;
        let ghost bpb = self.bpb;
        let ghost fuel = choose|f: nat| t.dir_walk(bpb, start_cluster, Seq::empty(), f) is Some;
        let ghost mut f: nat = fuel;
        let mut cluster = start_cluster;
        let mut entries: Vec<DirEntry> = Vec::new();
        assert(entry_models(entries@) =~= Seq::<EntryModel>::empty());
        loop
            invariant
                t == self.fat,
                bpb == self.bpb,
                t.dir_listing(bpb, start_cluster) == t.dir_walk(
                    bpb,
                    cluster,
                    entry_models(entries@),
                    f,
                ),
                t.dir_walk(bpb, cluster, entry_models(entries@), f) is Some,
            decreases f,
        {
            let data = match self.read_cluster(cluster) {
                Ok(d) => d,
                Err(e) => return Err(e),
            };
            let ghost acc = entry_models(entries@);
            assert(t.cluster_data(bpb, cluster) == Some(Ok::<Seq<u8>, FsError>(data@)));
            let ended = Self::scan_cluster(data.as_slice(), &mut entries);
            if ended {
                return Ok(entries);
            }
            assert(next_cluster_defined(t.device, t.bpb, t.lba_start, cluster));
            match self.fat.next_cluster(cluster) {
                Ok(Some(next)) => {
                    proof {
                        assert(t.dir_walk(bpb, cluster, acc, f) == t.dir_walk(
                            bpb,
                            next,
                            entry_models(entries@),
                            (f - 1) as nat,
                        ));
                        f = (f - 1) as nat;
                    }
                    cluster = next;
                },
                Ok(None) => {
                    return Ok(entries);
                },
                Err(e) => return Err(FsError::Block(e)),
            }
        }
    }

    fn read_file_clusters(&self, start_cluster: u32, size: u32) -> (r: Result<Vec<u8>, FsError>)
        requires
            self.table().file_data(self.bpb, start_cluster, size as nat) is Some,
        ensures
            match r {
                Ok(v) => self.table().file_data(self.bpb, start_cluster, size as nat) == Some(
                    Ok::<Seq<u8>, FsError>(v@),
                ),
                Err(e) => self.table().file_data(self.bpb, start_cluster, size as nat) == Some(
                    Err::<Seq<u8>, FsError>(e),
                ),
            },
    {
        let ghost t = self.fat;
        let ghost bpb = self.bpb;
        let ghost fuel = if bpb.spec_cluster_size() > 0 {
            clusters_to_read(size as nat, bpb.spec_cluster_size())
        } else {
            choose|f: nat| t.file_walk(bpb, start_cluster, size as nat, Seq::empty(), f) is Some
        };
        let ghost mut f: nat = fuel;
        let mut cluster = start_cluster;
        let mut data: Vec<u8> = Vec::new();
        let mut remaining = size as usize;
        loop
            invariant
                t == self.fat,
                bpb == self.bpb,
                t.file_data(bpb, start_cluster, size as nat) == t.file_walk(
                    bpb,
                    cluster,
                    remaining as nat,
                    data@,
                    f,
                ),
                t.file_walk(bpb, cluster, remaining as nat, data@, f) is Some,
            decreases f,
        {
            let block = match self.read_cluster(cluster) {
                Ok(b) => b,
                Err(e) => return Err(e),
            };
            assert(t.cluster_data(bpb, cluster) == Some(Ok::<Seq<u8>, FsError>(block@)));
            let ghost acc = data@;
            let ghost rem = remaining as nat;
            if remaining <= block.len() {
                push_prefix(&mut data, block.as_slice(), remaining);
                return Ok(data);
            }
            push_prefix(&mut data, block.as_slice(), block.len());
            assert(block@.take(block@.len() as int) =~= block@);
            remaining = remaining - block.len();
            assert(next_cluster_defined(t.device, t.bpb, t.lba_start, cluster));
            match self.fat.next_cluster(cluster) {
                Ok(Some(next)) => {
                    proof {
                        assert(t.file_walk(bpb, cluster, rem, acc, f) == t.file_walk(
                            bpb,
                            next,
                            remaining as nat,
                            data@,
                            (f - 1) as nat,
                        ));
                        f = (f - 1) as nat;
                    }
                    cluster = next;
                },
                Ok(None) => {
                    return Ok(data);
                },
                Err(e) => return Err(FsError::Block(e)),
            }
        }
    }

    /// The first cluster that a path starts from.
    pub open spec fn start_cluster(self, absolute: bool) -> u32 {
        if absolute {
            self.params().root_cluster
        } else {
            self.current_cluster()
        }
    }

    /// The entries of the directory at `cluster`.
    pub open spec fn listing(self, cluster: u32) -> Option<Result<Seq<EntryModel>, FsError>> {
        self.table().dir_listing(self.params(), cluster)
    }

    /// Looking `name` up in the directory at `cluster`.
    pub open spec fn lookup(self, cluster: u32, name: Seq<char>) -> Option<
        Result<EntryModel, FsError>,
    > {
        match self.listing(cluster) {
            None => None,
            Some(Err(e)) => Some(Err(e)),
            Some(Ok(es)) => match first_named(es, name) {
                Some(e) => Some(Ok(e)),
                None => Some(Err(FsError::NotFound)),
            },
        }
    }

    /// Looking up `comps[k..]` one after another from `cluster`; `last` is
    /// the entry found for the component before.
    pub open spec fn walk(self, cluster: u32, comps: Seq<Seq<char>>, k: nat, last: EntryModel) -> Option<
        Result<EntryModel, FsError>,
    >
        decreases comps.len() - k,
    {
        if k >= comps.len() {
            Some(Ok(last))
        } else {
            match self.lookup(cluster, comps[k as int]) {
                None => None,
                Some(Err(e)) => Some(Err(e)),
                Some(Ok(e)) => self.walk(e.cluster, comps, (k + 1) as nat, e),
            }
        }
    }

    /// The entry standing for a directory named by a path with no components.
    pub open spec fn self_entry(absolute: bool, cluster: u32) -> EntryModel {
        EntryModel {
            name: if absolute {
                seq!['/']
            } else {
                seq!['.']
            },
            attr: 0x10,
            cluster,
            size: 0,
        }
    }

    /// The entry that `path` names.
    pub open spec fn resolve(self, path: Seq<char>) -> Option<Result<EntryModel, FsError>> {
        let absolute = is_absolute(path);
        let start = self.start_cluster(absolute);
        self.walk(start, path_components(path), 0, Self::self_entry(absolute, start))
    }

    /// Changing directory along `comps[k..]` from `cluster`, with `names`
    /// the directory names gathered so far: the cluster reached and the names.
    pub open spec fn cd_walk(self, cluster: u32, comps: Seq<Seq<char>>, k: nat, names: Seq<Seq<char>>) -> Option<
        Result<(u32, Seq<Seq<char>>), FsError>,
    >
        decreases comps.len() - k,
    {
        if k >= comps.len() {
            Some(Ok((cluster, names)))
        } else {
            match self.lookup(cluster, comps[k as int]) {
                None => None,
                Some(Err(e)) => Some(Err(e)),
                Some(Ok(e)) => if !e.is_dir() {
                    Some(Err(FsError::NotADirectory))
                } else {
                    self.cd_walk(e.cluster, comps, (k + 1) as nat, names.push(e.name))
                },
            }
        }
    }

    /// Where `cd(path)` leads: the new current cluster and directory names.
    pub open spec fn cd_outcome(self, path: Seq<char>) -> Option<Result<(u32, Seq<Seq<char>>), FsError>> {
        let absolute = is_absolute(path);
        self.cd_walk(
            self.start_cluster(absolute),
            path_components(path),
            0,
            if absolute {
                Seq::empty()
            } else {
                self.cwd()
            },
        )
    }

    /// What `ls(path)` lists.
    pub open spec fn ls_outcome(self, path: Option<Seq<char>>) -> Option<Result<Seq<InfoModel>, FsError>> {
        let target: Option<Result<u32, FsError>> = match path {
            None => Some(Ok(self.current_cluster())),
            Some(p) => match self.resolve(p) {
                None => None,
                Some(Err(e)) => Some(Err(e)),
                Some(Ok(e)) => Some(Ok(e.cluster)),
            },
        };
        match target {
            None => None,
            Some(Err(e)) => Some(Err(e)),
            Some(Ok(c)) => self.list_cluster(c),
        }
    }

    /// What `ls` reports for the directory at `cluster`.
    pub open spec fn list_cluster(self, cluster: u32) -> Option<Result<Seq<InfoModel>, FsError>> {
        match self.listing(cluster) {
            None => None,
            Some(Err(e)) => Some(Err(e)),
            Some(Ok(es)) => Some(Ok(es.map_values(|e: EntryModel| info_of(e)))),
        }
    }

    /// What `read_file(path)` returns.
    pub open spec fn read_outcome(self, path: Seq<char>) -> Option<Result<Seq<u8>, FsError>> {
        match self.resolve(path) {
            None => None,
            Some(Err(e)) => Some(Err(e)),
            Some(Ok(e)) => if e.is_dir() {
                Some(Err(FsError::NotAFile))
            } else {
                self.table().file_data(self.params(), e.cluster, e.size as nat)
            },
        }
    }

    /// Whether the working directory is consistent: each of its names is a
    /// plain path component, and changing directory along those names from
    /// the root reaches the current cluster with the same names.
    pub open spec fn cwd_ok(self) -> bool {
        &&& forall|k: int| 0 <= k < self.cwd().len() ==> is_plain_component(#[trigger] self.cwd()[k])
        &&& self.cd_walk(self.params().root_cluster, self.cwd(), 0, Seq::empty()) == Some(
            Ok::<(u32, Seq<Seq<char>>), FsError>((self.current_cluster(), self.cwd())),
        )
    }

    /// Mount a FAT32 volume at `lba_start` on the provided block device.
    pub fn mount(device: D, lba_start: u64) -> (r: Result<Self, FsError>)
        ensures
            match device.sector(lba_start) {
                None => r == Err::<Self, FsError>(FsError::Block(BlockError::IoError)),
                Some(d) => if device.spec_sector_size() < 512 {
                    r == Err::<Self, FsError>(FsError::InvalidBpb)
                } else {
                    r matches Ok(fs) && fs.params() == bpb_of(d) && fs.table() == (FatTable {
                        device,
                        bpb: bpb_of(d),
                        lba_start,
                    }) && fs.current_cluster() == bpb_of(d).root_cluster && fs.cwd()
                        == Seq::<Seq<char>>::empty() && fs.cwd_ok()
                },
            },
    {
        let sector_size = device.sector_size();
        let mut buf = vec![0u8; sector_size];
        match device.read_sector(lba_start, buf.as_mut_slice()) {
            Ok(()) => {},
            Err(e) => return Err(FsError::Block(e)),
        }
        let bpb = match BiosParameterBlock::parse(buf.as_slice()) {
            Ok(b) => b,
            Err(_) => return Err(FsError::InvalidBpb),
        };
        let fat = FatTable { device, bpb, lba_start };
        let fs = Self { fat, bpb, current_dir: 0, cwd_components: Vec::new() };
        let fs = fs.with_root();
        assert(texts(fs.cwd_components@) =~= Seq::<Seq<char>>::empty());
        Ok(fs)
    }

    fn with_root(self) -> (r: Self)
        ensures
            r.current_dir == self.bpb.root_cluster,
            r.fat == self.fat,
            r.bpb == self.bpb,
            r.cwd_components == self.cwd_components,
    {
        let mut s = self;
        s.current_dir = s.bpb.root_cluster;
        s
    }

    /// Return the current working directory as a string.
    pub fn pwd(&self) -> (r: String)
        ensures
            r@ == cwd_text(self.cwd()),
    {
        let n = self.cwd_components.len();
        if n == 0 {
            let r = String::from_str("/");
            proof {
                reveal_strlit("/");
            }
            return r;
        }
        let mut out = String::new();
        let mut i: usize = 0;
        while i < n
            invariant
                n == self.cwd_components@.len(),
                i <= n,
                out@ == slash_joined(texts(self.cwd_components@).take(i as int)),
            decreases n - i,
        {
            out.append("/");
            out.append(self.cwd_components[i].as_str());
            proof {
                reveal_strlit("/");
                let cs = texts(self.cwd_components@);
                assert(cs.take(i + 1).drop_last() =~= cs.take(i as int));
            }
            i = i + 1;
        }
        assert(texts(self.cwd_components@).take(n as int) =~= texts(self.cwd_components@));
        out
    }

    fn find_in_dir(&self, cluster: u32, name: &str) -> (r: Result<DirEntry, FsError>)
        requires
            self.lookup(cluster, name@) is Some,
        ensures
            match r {
                Ok(e) => self.lookup(cluster, name@) == Some(Ok::<EntryModel, FsError>(e@)),
                Err(x) => self.lookup(cluster, name@) == Some(Err::<EntryModel, FsError>(x)),
            },
    {
        let mut entries = match self.read_directory(cluster) {
            Ok(es) => es,
            Err(e) => return Err(e),
        };
        let ghost es = entry_models(entries@);
        let n = entries.len();
        let mut k: usize = 0;
        assert(es.skip(0) =~= es);
        while k < n
            invariant
                n == entries@.len(),
                k <= n,
                es == entry_models(entries@),
                self.listing(cluster) == Some(Ok::<Seq<EntryModel>, FsError>(es)),
                first_named(es, name@) == first_named(es.skip(k as int), name@),
            decreases n - k,
        {
            if eq_ignore_ascii_case(entries[k].name.as_str(), name) {
                assert(es.skip(k as int)[0] == es[k as int]);
                assert(es[k as int] == entries@[k as int]@);
                let e = entries.remove(k);
                assert(first_named(es.skip(k as int), name@) == Some(es[k as int]));
                assert(self.listing(cluster) == Some(Ok::<Seq<EntryModel>, FsError>(es)));
                assert(first_named(es, name@) == Some(e@));
                return Ok(e);
            }
            assert(es.skip(k as int)[0] == es[k as int]);
            assert(es[k as int] == entries@[k as int]@);
            assert(es.skip(k as int).drop_first() =~= es.skip(k + 1));
            k = k + 1;
        }
        Err(FsError::NotFound)
    }

    fn resolve_path(&self, path: &str) -> (r: Result<DirEntry, FsError>)
        requires
            self.resolve(path@) is Some,
        ensures
            match r {
                Ok(e) => self.resolve(path@) == Some(Ok::<EntryModel, FsError>(e@)),
                Err(x) => self.resolve(path@) == Some(Err::<EntryModel, FsError>(x)),
            },
    {
        let (is_abs, components) = normalize_path(path);
        let ghost comps = texts(components@);
        let start = if is_abs {
            self.bpb.root_cluster
        } else {
            self.current_dir
        };
        let mut current = start;
        let mut last: Option<DirEntry> = None;
        let n = components.len();
        let mut k: usize = 0;
        while k < n
            invariant
                n == components@.len(),
                comps == texts(components@),
                comps == path_components(path@),
                is_abs == is_absolute(path@),
                start == self.start_cluster(is_abs),
                k <= n,
                k == 0 ==> current == start && last is None,
                k > 0 ==> last is Some,
                self.resolve(path@) is Some,
                self.resolve(path@) == self.walk(
                    current,
                    comps,
                    k as nat,
                    match last {
                        Some(e) => e@,
                        None => Self::self_entry(is_abs, start),
                    },
                ),
            decreases n - k,
        {
            let entry = match self.find_in_dir(current, components[k].as_str()) {
                Ok(e) => e,
                Err(e) => return Err(e),
            };
            current = entry.cluster;
            last = Some(entry);
            k = k + 1;
        }
        if n == 0 {
            let name = if is_abs {
                String::from_str("/")
            } else {
                String::from_str(".")
            };
            proof {
                reveal_strlit("/");
                reveal_strlit(".");
                assert(name@ =~= Self::self_entry(is_abs, current).name);
            }
            return Ok(DirEntry { name, attr: DirEntry::ATTR_DIRECTORY, cluster: current, size: 0 });
        }
        match last {
            Some(e) => Ok(e),
            None => Err(FsError::NotFound),
        }
    }

    /// Change the current directory.
    pub fn cd(&mut self, path: &str) -> (r: Result<(), FsError>)
        requires
            old(self).cd_outcome(path@) is Some,
        ensures
            match r {
                Ok(_) => old(self).cd_outcome(path@) == Some(
                    Ok::<(u32, Seq<Seq<char>>), FsError>(
                        (final(self).current_cluster(), final(self).cwd()),
                    ),
                ),
                Err(e) => old(self).cd_outcome(path@) == Some(
                    Err::<(u32, Seq<Seq<char>>), FsError>(e),
                ) && *final(self) == *old(self),
            },
            final(self).table() == old(self).table(),
            final(self).params() == old(self).params(),
            old(self).cwd_ok() ==> final(self).cwd_ok(),
    {
        let ghost before = *self;
        let (is_abs, components) = normalize_path(path);
        let ghost comps = texts(components@);
        let start = if is_abs {
            self.bpb.root_cluster
        } else {
            self.current_dir
        };
        let mut current = start;
        let mut new_components = if is_abs {
            Vec::new()
        } else {
            clone_strings(&self.cwd_components)
        };
        assert(texts(new_components@) == (if is_abs {
            Seq::<Seq<char>>::empty()
        } else {
            self.cwd()
        }));
        let n = components.len();
        let mut k: usize = 0;
        while k < n
            invariant
                *self == *old(self),
                n == components@.len(),
                comps == texts(components@),
                comps == path_components(path@),
                k <= n,
                self.cd_outcome(path@) is Some,
                self.cd_outcome(path@) == self.cd_walk(
                    current,
                    comps,
                    k as nat,
                    texts(new_components@),
                ),
            decreases n - k,
        {
            let entry = match self.find_in_dir(current, components[k].as_str()) {
                Ok(e) => e,
                Err(e) => return Err(e),
            };
            if !entry.is_dir() {
                return Err(FsError::NotADirectory);
            }
            current = entry.cluster;
            let ghost before = new_components@;
            new_components.push(entry.name);
            assert(texts(new_components@) =~= texts(before).push(entry.name@));
            k = k + 1;
        }
        self.current_dir = current;
        self.cwd_components = new_components;
        proof {
            if before.cwd_ok() {
                lemma_cd_keeps_cwd_ok(before, *self, path@);
            }
        }
        Ok(())
    }

    /// List directory contents for the given path or current directory.
    pub fn ls(&self, path: Option<&str>) -> (r: Result<Vec<DirEntryInfo>, FsError>)
        requires
            self.ls_outcome(opt_text(path)) is Some,
        ensures
            match r {
                Ok(v) => self.ls_outcome(opt_text(path)) == Some(
                    Ok::<Seq<InfoModel>, FsError>(info_models(v@)),
                ),
                Err(e) => self.ls_outcome(opt_text(path)) == Some(
                    Err::<Seq<InfoModel>, FsError>(e),
                ),
            },
    {
        let cluster = match path {
            Some(p) => match self.resolve_path(p) {
                Ok(e) => e.cluster,
                Err(e) => return Err(e),
            },
            None => self.current_dir,
        };
        let entries = match self.read_directory(cluster) {
            Ok(es) => es,
            Err(e) => return Err(e),
        };
        let ghost es = entry_models(entries@);
        let mut out: Vec<DirEntryInfo> = Vec::new();
        let n = entries.len();
        let mut i: usize = 0;
        while i < n
            invariant
                n == entries@.len(),
                es == entry_models(entries@),
                i <= n,
                info_models(out@) == es.take(i as int).map_values(|e: EntryModel| info_of(e)),
            decreases n - i,
        {
            let e = &entries[i];
            let info = DirEntryInfo { name: e.name.clone(), is_dir: e.is_dir(), size: e.size };
            let ghost before = out@;
            out.push(info);
            assert(info_models(out@) =~= info_models(before).push(info@));
            assert(es.take(i + 1) =~= es.take(i as int).push(es[i as int]));
            assert(es.take(i + 1).map_values(|e: EntryModel| info_of(e)) =~= es.take(
                i as int,
            ).map_values(|e: EntryModel| info_of(e)).push(info_of(es[i as int])));
            i = i + 1;
        }
        assert(es.take(n as int) =~= es);
        Ok(out)
    }

    /// Read a file fully into memory.
    pub fn read_file(&self, path: &str) -> (r: Result<Vec<u8>, FsError>)
        requires
            self.read_outcome(path@) is Some,
        ensures
            match r {
                Ok(v) => self.read_outcome(path@) == Some(Ok::<Seq<u8>, FsError>(v@)),
                Err(e) => self.read_outcome(path@) == Some(Err::<Seq<u8>, FsError>(e)),
            },
    {
        let entry = match self.resolve_path(path) {
            Ok(e) => e,
            Err(e) => return Err(e),
        };
        if entry.is_dir() {
            return Err(FsError::NotAFile);
        }
        self.read_file_clusters(entry.cluster, entry.size)
    }
}

impl<D: BlockDevice> Fat32<D> {
    /// Listing "." lists the current directory, as listing with no path does.
    pub proof fn lemma_ls_dot_is_ls(self)
        ensures
            self.ls_outcome(Some(seq!['.'])) == self.ls_outcome(None),
            self.ls_outcome(None) == self.list_cluster(self.current_cluster()),
    {
        crate::path::lemma_dot_path(seq!['.']);
    }

    /// Listing "/" lists the root directory, wherever the current one is.
    pub proof fn lemma_ls_slash_is_root(self)
        ensures
            self.ls_outcome(Some(seq!['/'])) == self.list_cluster(self.params().root_cluster),
    {
        crate::path::lemma_root_path(seq!['/']);
    }

    /// A file read never holds more bytes than its entry's size.
    pub proof fn lemma_read_within_size(self, path: Seq<char>)
        ensures
            self.read_outcome(path) matches Some(Ok(data)) ==> (self.resolve(path) matches Some(
                Ok(e),
            ) && data.len() <= e.size),
    {
        if let Some(Ok(e)) = self.resolve(path) {
            if !e.is_dir() {
                let t = self.table();
                let bpb = self.params();
                if bpb.spec_cluster_size() > 0 {
                    lemma_file_walk_len(
                        t,
                        bpb,
                        e.cluster,
                        e.size as nat,
                        Seq::empty(),
                        clusters_to_read(e.size as nat, bpb.spec_cluster_size()),
                    );
                } else if exists|f: nat| t.file_walk(bpb, e.cluster, e.size as nat, Seq::empty(), f) is Some {
                    let f = choose|f: nat| t.file_walk(bpb, e.cluster, e.size as nat, Seq::empty(), f) is Some;
                    lemma_file_walk_len(t, bpb, e.cluster, e.size as nat, Seq::empty(), f);
                }
            }
        }
    }

    /// After changing to a path, listing the current directory lists what
    /// listing that path listed before.
    pub proof fn lemma_cd_then_ls(self, after: Self, path: Seq<char>)
        requires
            self.cd_outcome(path) == Some(
                Ok::<(u32, Seq<Seq<char>>), FsError>((after.current_cluster(), after.cwd())),
            ),
            after.table() == self.table(),
            after.params() == self.params(),
        ensures
            after.ls_outcome(None) == self.ls_outcome(Some(path)),
    {
        let absolute = is_absolute(path);
        let start = self.start_cluster(absolute);
        let names = if absolute {
            Seq::empty()
        } else {
            self.cwd()
        };
        lemma_cd_walk_resolves(
            self,
            start,
            path_components(path),
            0,
            names,
            Self::self_entry(absolute, start),
        );
    }

    /// The text `pwd` shows names the current directory: changing to it
    /// succeeds and changes nothing, and listing it lists the current
    /// directory. With no names, the current directory is the root.
    pub proof fn lemma_pwd_names_cwd(self)
        requires
            self.cwd_ok(),
        ensures
            self.cd_outcome(cwd_text(self.cwd())) == Some(
                Ok::<(u32, Seq<Seq<char>>), FsError>((self.current_cluster(), self.cwd())),
            ),
            self.ls_outcome(Some(cwd_text(self.cwd()))) == self.ls_outcome(None),
            self.cwd().len() == 0 ==> self.current_cluster() == self.params().root_cluster,
    {
        let cs = self.cwd();
        let t = cwd_text(cs);
        let root = self.params().root_cluster;
        if cs.len() == 0 {
            lemma_root_path(t);
        } else {
            lemma_slash_joined_plain(cs);
        }
        assert(path_components(t) == cs);
        assert(is_absolute(t));
        lemma_cd_walk_resolves(self, root, cs, 0, Seq::empty(), Self::self_entry(true, root));
    }

    /// Listing "/" lists the current directory when the working directory
    /// has no names, as right after mounting.
    pub proof fn lemma_ls_slash_at_root(self)
        requires
            self.cwd_ok(),
            self.cwd().len() == 0,
        ensures
            self.ls_outcome(Some(seq!['/'])) == self.ls_outcome(None),
    {
        self.lemma_pwd_names_cwd();
        lemma_root_path(seq!['/']);
    }

    /// `ls` reports each entry of the directory, in order, with its name,
    /// its size, and as a directory exactly when bit 0x10 of the entry's
    /// attribute byte is set; a failed read of the directory is its error.
    pub proof fn lemma_ls_reports_entries(self, cluster: u32)
        ensures
            self.listing(cluster) matches Some(Ok(es)) ==> (self.list_cluster(cluster) matches Some(
                Ok(infos),
            ) && infos.len() == es.len() && forall|k: int|
                0 <= k < es.len() ==> {
                    &&& (#[trigger] infos[k]).name == es[k].name
                    &&& infos[k].size == es[k].size
                    &&& infos[k].is_dir == (es[k].attr / 16 % 2 == 1)
                }),
            self.listing(cluster) matches Some(Err(e)) ==> self.list_cluster(cluster) == Some(
                Err::<Seq<InfoModel>, FsError>(e),
            ),
            self.listing(cluster) is None ==> self.list_cluster(cluster) is None,
    {
        if let Some(Ok(es)) = self.listing(cluster) {
            assert forall|k: int| 0 <= k < es.len() implies es[k].is_dir() == (es[k].attr / 16 % 2
                == 1) by {
                lemma_dir_bit(es[k].attr);
            }
        }
    }

    /// Changing to the name of an entry of the current directory whose
    /// attribute byte has bit 0x10 set, whatever its other bits, succeeds:
    /// the current directory becomes that entry's cluster, and its name is
    /// added to the working directory.
    pub proof fn lemma_cd_into_directory(self, name: Seq<char>, e: EntryModel)
        requires
            is_plain_component(name),
            self.lookup(self.current_cluster(), name) == Some(Ok::<EntryModel, FsError>(e)),
            e.attr / 16 % 2 == 1,
        ensures
            self.cd_outcome(name) == Some(
                Ok::<(u32, Seq<Seq<char>>), FsError>((e.cluster, self.cwd().push(e.name))),
            ),
    {
        lemma_single_component(name);
        lemma_dir_bit(e.attr);
        let comps = seq![name];
        assert(comps[0] == name);
        assert(e.is_dir());
        let after = self.cwd().push(e.name);
        assert(self.cd_walk(e.cluster, comps, 1, after) == Some(
            Ok::<(u32, Seq<Seq<char>>), FsError>((e.cluster, after)),
        ));
        assert(self.cd_walk(self.current_cluster(), comps, 0, self.cwd()) == self.cd_walk(
            e.cluster,
            comps,
            1,
            after,
        ));
    }

    /// Listing depends on a path only through its normalized form:    /// Listing depends on a path only through its normalized form: two paths
    /// alike in being absolute and in their components list the same.
    pub proof fn lemma_ls_by_normal_form(self, p: Seq<char>, q: Seq<char>)
        requires
            is_absolute(p) == is_absolute(q),
            path_components(p) == path_components(q),
        ensures
            self.ls_outcome(Some(p)) == self.ls_outcome(Some(q)),
    {
    }

    /// Listing the empty path lists the current directory.
    pub proof fn lemma_ls_empty_is_ls(self)
        ensures
            self.ls_outcome(Some(Seq::<char>::empty())) == self.ls_outcome(None),
    {
        let p = Seq::<char>::empty();
        let pieces = split_on_slash(p);
        assert(pieces == seq![Seq::<char>::empty()]);
        assert(pieces.drop_last() =~= Seq::<Seq<char>>::empty());
        assert(normalize_pieces(pieces.drop_last()) == Seq::<Seq<char>>::empty());
        assert(path_components(p) == apply_piece(Seq::<Seq<char>>::empty(), pieces.last()));
    }

    /// Resolving an absolute path, and changing to it, do not depend on the    /// Resolving an absolute path, and changing to it, do not depend on the
    /// current directory: two filesystems on the same volume agree.
    pub proof fn lemma_absolute_paths_ignore_cwd(self, other: Self, path: Seq<char>)
        requires
            self.table() == other.table(),
            self.params() == other.params(),
            is_absolute(path),
        ensures
            self.resolve(path) == other.resolve(path),
            self.cd_outcome(path) == other.cd_outcome(path),
    {
        let comps = path_components(path);
        let root = self.params().root_cluster;
        lemma_walk_same(self, other, root, comps, 0, Self::self_entry(true, root));
        lemma_cd_walk_same(self, other, root, comps, 0, Seq::empty());
    }
}

proof fn lemma_walk_same<D: BlockDevice>(
    a: Fat32<D>,
    b: Fat32<D>,
    cluster: u32,
    comps: Seq<Seq<char>>,
    k: nat,
    last: EntryModel,
)
    requires
        a.table() == b.table(),
        a.params() == b.params(),
    ensures
        a.walk(cluster, comps, k, last) == b.walk(cluster, comps, k, last),
    decreases comps.len() - k,
{
    if k < comps.len() {
        if let Some(Ok(e)) = a.lookup(cluster, comps[k as int]) {
            lemma_walk_same(a, b, e.cluster, comps, (k + 1) as nat, e);
        }
    }
}

/// A change of directory that succeeds ends at the cluster of the entry that
/// resolving the same components finds.
proof fn lemma_cd_walk_resolves<D: BlockDevice>(
    fs: Fat32<D>,
    cluster: u32,
    comps: Seq<Seq<char>>,
    k: nat,
    names: Seq<Seq<char>>,
    last: EntryModel,
)
    requires
        last.cluster == cluster,
    ensures
        fs.cd_walk(cluster, comps, k, names) matches Some(Ok((c, _))) ==> (fs.walk(
            cluster,
            comps,
            k,
            last,
        ) matches Some(Ok(e)) && e.cluster == c),
    decreases comps.len() - k,
{
    if k < comps.len() {
        if let Some(Ok(e)) = fs.lookup(cluster, comps[k as int]) {
            lemma_cd_walk_resolves(fs, e.cluster, comps, (k + 1) as nat, names.push(e.name), e);
        }
    }
}

proof fn lemma_cd_walk_same<D: BlockDevice>(
    a: Fat32<D>,
    b: Fat32<D>,
    cluster: u32,
    comps: Seq<Seq<char>>,
    k: nat,
    names: Seq<Seq<char>>,
)
    requires
        a.table() == b.table(),
        a.params() == b.params(),
    ensures
        a.cd_walk(cluster, comps, k, names) == b.cd_walk(cluster, comps, k, names),
    decreases comps.len() - k,
{
    if k < comps.len() {
        if let Some(Ok(e)) = a.lookup(cluster, comps[k as int]) {
            lemma_cd_walk_same(a, b, e.cluster, comps, (k + 1) as nat, names.push(e.name));
        }
    }
}

/// What a file walk gathers is at most what it started with plus what was
/// still to read.
proof fn lemma_file_walk_len<D: BlockDevice>(
    t: FatTable<D>,
    bpb: BiosParameterBlock,
    cluster: u32,
    remaining: nat,
    acc: Seq<u8>,
    fuel: nat,
)
    ensures
        t.file_walk(bpb, cluster, remaining, acc, fuel) matches Some(Ok(d)) ==> d.len() <= acc.len()
            + remaining,
    decreases fuel,
{
    if fuel > 0 {
        if let Some(Ok(block)) = t.cluster_data(bpb, cluster) {
            if remaining > block.len() && next_cluster_defined(t.device, t.bpb, t.lba_start, cluster) {
                if let Ok(Some(next)) = next_cluster_of(t.device, t.bpb, t.lba_start, cluster) {
                    lemma_file_walk_len(
                        t,
                        bpb,
                        next,
                        (remaining - block.len()) as nat,
                        acc + block,
                        (fuel - 1) as nat,
                    );
                }
            }
        }
    }
}


/// Two characters with the same code are the same character.
proof fn lemma_same_code(c: char, d: char)
    requires
        c as u32 == d as u32,
    ensures
        c == d,
{
    vstd::utf8::char_u32_cast(c, c as u32);
    vstd::utf8::char_u32_cast(d, d as u32);
}

/// Two names equal without regard to ASCII case: a name equal so to a plain
/// component is plain too.
proof fn lemma_same_name_plain(a: Seq<char>, b: Seq<char>)
    requires
        same_name_ignoring_ascii_case(a, b),
        is_plain_component(b),
    ensures
        is_plain_component(a),
{
    assert(!a.contains('/')) by {
        if a.contains('/') {
            let m = choose|m: int| 0 <= m < a.len() && a[m] == '/';
            assert(fold_case(a[m]) == 47);
            assert(fold_case(b[m]) == 47);
            assert(b[m] as u32 == 47);
            lemma_same_code(b[m], '/');
            assert(b.contains('/'));
        }
    }
    if a == seq!['.'] {
        assert(fold_case(b[0]) == 46);
        assert(b[0] as u32 == 46);
        lemma_same_code(b[0], '.');
        assert(b =~= seq!['.']);
    }
    if a == seq!['.', '.'] {
        assert(fold_case(b[0]) == 46 && fold_case(b[1]) == 46);
        assert(b[0] as u32 == 46 && b[1] as u32 == 46);
        lemma_same_code(b[0], '.');
        lemma_same_code(b[1], '.');
        assert(b =~= seq!['.', '.']);
    }
}

/// The entry that a lookup finds has a name equal to the one asked for, and
/// looking its own name up finds it again.
proof fn lemma_first_named_stable(es: Seq<EntryModel>, x: Seq<char>)
    ensures
        first_named(es, x) matches Some(e) ==> (same_name_ignoring_ascii_case(e.name, x)
            && first_named(es, e.name) == Some(e)),
    decreases es.len(),
{
    if es.len() > 0 && !same_name_ignoring_ascii_case(es[0].name, x) {
        let rest = es.drop_first();
        lemma_first_named_stable(rest, x);
        if let Some(e) = first_named(rest, x) {
            if same_name_ignoring_ascii_case(es[0].name, e.name) {
                assert(same_name_ignoring_ascii_case(es[0].name, x));
            }
        }
    }
}

/// Walking indices `a.len() + j ..` of `a + b` is walking `b` from `j`.
proof fn lemma_cd_walk_shift<D: BlockDevice>(
    fs: Fat32<D>,
    cluster: u32,
    a: Seq<Seq<char>>,
    b: Seq<Seq<char>>,
    j: nat,
    names: Seq<Seq<char>>,
)
    ensures
        fs.cd_walk(cluster, a + b, (a.len() + j) as nat, names) == fs.cd_walk(cluster, b, j, names),
    decreases b.len() - j,
{
    if j < b.len() {
        assert((a + b)[(a.len() + j) as int] == b[j as int]);
        if let Some(Ok(e)) = fs.lookup(cluster, b[j as int]) {
            if e.is_dir() {
                lemma_cd_walk_shift(fs, e.cluster, a, b, (j + 1) as nat, names.push(e.name));
                assert((a.len() + j + 1) as nat == (a.len() + (j + 1)) as nat);
            }
        }
    }
}

/// A walk along `a + b` that gets through `a` goes on along `b` from where
/// `a` ended.
proof fn lemma_cd_walk_append<D: BlockDevice>(
    fs: Fat32<D>,
    cluster: u32,
    a: Seq<Seq<char>>,
    b: Seq<Seq<char>>,
    k: nat,
    names: Seq<Seq<char>>,
)
    requires
        k <= a.len(),
    ensures
        fs.cd_walk(cluster, a, k, names) matches Some(Ok((c1, n1))) ==> fs.cd_walk(
            cluster,
            a + b,
            k,
            names,
        ) == fs.cd_walk(c1, b, 0, n1),
    decreases a.len() - k,
{
    if k == a.len() {
        lemma_cd_walk_shift(fs, cluster, a, b, 0, names);
        assert((a.len() + 0) as nat == k);
    } else {
        assert((a + b)[k as int] == a[k as int]);
        if let Some(Ok(e)) = fs.lookup(cluster, a[k as int]) {
            if e.is_dir() {
                lemma_cd_walk_append(fs, e.cluster, a, b, (k + 1) as nat, names.push(e.name));
            }
        }
    }
}

/// A walk that succeeds can be replayed: from the same cluster, walking the
/// names it gathered reaches the same place, and those names are plain
/// where the components walked were.
proof fn lemma_cd_walk_replay<D: BlockDevice>(
    fs: Fat32<D>,
    cluster: u32,
    comps: Seq<Seq<char>>,
    k: nat,
    names: Seq<Seq<char>>,
)
    requires
        forall|j: int| k <= j < comps.len() ==> is_plain_component(#[trigger] comps[j]),
    ensures
        fs.cd_walk(cluster, comps, k, names) matches Some(Ok((c, out))) ==> {
            &&& names.len() <= out.len()
            &&& out.subrange(0, names.len() as int) == names
            &&& forall|j: int| names.len() <= j < out.len() ==> is_plain_component(#[trigger] out[j])
            &&& fs.cd_walk(cluster, out.subrange(names.len() as int, out.len() as int), 0, names)
                == Some(Ok::<(u32, Seq<Seq<char>>), FsError>((c, out)))
        },
    decreases comps.len() - k,
{
    if k >= comps.len() {
        assert(names.subrange(0, names.len() as int) =~= names);
        assert(names.subrange(names.len() as int, names.len() as int) =~= Seq::<Seq<char>>::empty());
    } else {
        if let Some(Ok(e)) = fs.lookup(cluster, comps[k as int]) {
            if e.is_dir() {
                let names2 = names.push(e.name);
                lemma_cd_walk_replay(fs, e.cluster, comps, (k + 1) as nat, names2);
                if let Some(Ok((c, out))) = fs.cd_walk(e.cluster, comps, (k + 1) as nat, names2) {
                    let es = fs.listing(cluster)->Some_0->Ok_0;
                    lemma_first_named_stable(es, comps[k as int]);
                    assert(fs.lookup(cluster, e.name) == Some(Ok::<EntryModel, FsError>(e)));
                    lemma_same_name_plain(e.name, comps[k as int]);
                    let tail = out.subrange(names2.len() as int, out.len() as int);
                    let all = out.subrange(names.len() as int, out.len() as int);
                    assert(out.subrange(0, names2.len() as int)[names.len() as int] == e.name);
                    assert(out.subrange(0, names.len() as int) =~= out.subrange(0, names2.len() as int).drop_last());
                    assert(all =~= seq![e.name] + tail);
                    assert(all[0] == e.name);
                    lemma_cd_walk_shift(fs, e.cluster, seq![e.name], tail, 0, names2);
                    assert((seq![e.name].len() + 0) as nat == 1nat);
                    assert forall|j: int| names.len() <= j < out.len() implies is_plain_component(#[trigger] out[j]) by {
                        if j == names.len() {
                            assert(out[j] == out.subrange(0, names2.len() as int)[j]);
                        }
                    }
                }
            }
        }
    }
}

/// Changing directory keeps the working directory consistent.
proof fn lemma_cd_keeps_cwd_ok<D: BlockDevice>(before: Fat32<D>, after: Fat32<D>, path: Seq<char>)
    requires
        before.cwd_ok(),
        before.cd_outcome(path) == Some(
            Ok::<(u32, Seq<Seq<char>>), FsError>((after.current_cluster(), after.cwd())),
        ),
        after.table() == before.table(),
        after.params() == before.params(),
    ensures
        after.cwd_ok(),
{
    let abs = is_absolute(path);
    let comps = path_components(path);
    let root = before.params().root_cluster;
    let start = before.start_cluster(abs);
    let names: Seq<Seq<char>> = if abs {
        Seq::empty()
    } else {
        before.cwd()
    };
    let c = after.current_cluster();
    let out = after.cwd();
    lemma_components_are_plain(path);
    lemma_cd_walk_replay(before, start, comps, 0, names);
    let n = out.subrange(names.len() as int, out.len() as int);
    assert(out =~= names + n);
    if abs {
        assert(names + n =~= n);
    } else {
        lemma_cd_walk_append(before, root, names, n, 0, Seq::empty());
    }
    assert(before.cd_walk(root, out, 0, Seq::empty()) == Some(
        Ok::<(u32, Seq<Seq<char>>), FsError>((c, out)),
    ));
    lemma_cd_walk_same(before, after, root, out, 0, Seq::empty());
    assert forall|k: int| 0 <= k < out.len() implies is_plain_component(#[trigger] out[k]) by {
        if k < names.len() {
            assert(out[k] == names[k]);
        }
    }
}

} // verus!
