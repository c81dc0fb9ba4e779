//! Volume geometry (BPB), FSInfo, FAT entries and the FAT manager.

use vstd::prelude::*;

use crate::dir::DirEntryType;
use crate::disk::{splice, Disk};
use crate::utils::{le32, u32_from_le_bytes, u32_to_le_bytes, BLOCK_SIZE};

verus! {

/// The BPB fields this design needs; immutable after mount.
#[derive(Debug, Clone, Copy)]
pub struct MetaData {
    pub bytes_per_sector: u16,
    pub sectors_per_cluster: u8,
    pub reserved_sectors: u16,
    pub number_of_fats: u8,
    pub total_sectors_32: u32,
    pub sectors_per_fat_32: u32,
    pub root_dir_cluster: u32,
    pub fs_info_sector: u16,
}

/// First sector of the first FAT.
pub open spec fn spec_fat_start(m: MetaData) -> int {
    m.reserved_sectors as int
}

/// First sector of the data area (cluster 2).
pub open spec fn spec_root_dir_start(m: MetaData) -> int {
    m.reserved_sectors + m.number_of_fats * m.sectors_per_fat_32
}

/// One past the last usable cluster number.
pub open spec fn spec_max_cluster(m: MetaData) -> int {
    2 + (m.total_sectors_32 - spec_root_dir_start(m)) / (m.sectors_per_cluster as int)
}

/// First sector of a data cluster.
pub open spec fn spec_cluster_to_sector(m: MetaData, cluster: int) -> int {
    spec_root_dir_start(m) + (cluster - 2) * m.sectors_per_cluster
}

pub open spec fn spec_bytes_per_cluster(m: MetaData) -> int {
    512 * m.sectors_per_cluster
}

impl MetaData {
    /// Geometry a volume must satisfy for this design: 512-byte sectors,
    /// all derived sector numbers in range, the FAT large enough for every
    /// usable cluster, and a root directory cluster inside the data area.
    pub open spec fn wf(self) -> bool {
        &&& self.bytes_per_sector == 512
        &&& 1 <= self.sectors_per_cluster <= 128
        &&& self.reserved_sectors >= 1
        &&& self.number_of_fats >= 1
        &&& self.sectors_per_fat_32 >= 1
        &&& self.total_sectors_32 <= 0x00FF_FFFF
        &&& spec_root_dir_start(self) + self.sectors_per_cluster <= self.total_sectors_32
        &&& 2 <= self.root_dir_cluster < spec_max_cluster(self)
        &&& spec_max_cluster(self) * 4 <= self.sectors_per_fat_32 * 512
        &&& (self.fs_info_sector as int) < self.reserved_sectors
    }

    /// A disk image that carries this geometry.
    pub open spec fn disk_ok(self, dv: Seq<Seq<u8>>) -> bool {
        dv.len() == self.total_sectors_32
    }
}

/// Bounds of the data sectors of a usable cluster.
pub proof fn lemma_cluster_sectors_in_range(m: MetaData, cluster: int)
    requires
        m.wf(),
        2 <= cluster < spec_max_cluster(m),
    ensures
        spec_root_dir_start(m) <= spec_cluster_to_sector(m, cluster),
        spec_cluster_to_sector(m, cluster) + m.sectors_per_cluster <= m.total_sectors_32,
{
    let spc = m.sectors_per_cluster as int;
    let rds = spec_root_dir_start(m);
    let avail = m.total_sectors_32 - rds;
    let q = avail / spc;
    vstd::arithmetic::div_mod::lemma_fundamental_div_mod(avail, spc);
    vstd::arithmetic::div_mod::lemma_mod_bound(avail, spc);
    assert(q * spc <= avail);
    assert(cluster - 2 + 1 <= q);
    vstd::arithmetic::mul::lemma_mul_inequality(cluster - 2 + 1, q, spc);
    assert((cluster - 2) * spc + spc == (cluster - 2 + 1) * spc) by (nonlinear_arith);
    vstd::arithmetic::mul::lemma_mul_nonnegative(cluster - 2, spc);
}

/// Derived geometry of the BIOS parameter block.
pub trait BPB {
    spec fn bpb_wf(&self) -> bool;

    spec fn spec_max(&self) -> int;

    fn fat_start_sector(&self) -> (r: usize)
        requires
            self.bpb_wf(),
    ;

    fn root_dir_start_sector(&self) -> (r: usize)
        requires
            self.bpb_wf(),
    ;

    fn cluster_to_sector(&self, cluster: u32) -> (r: usize)
        requires
            self.bpb_wf(),
            2 <= cluster < self.spec_max(),
    ;

    fn sectors_per_fat_32(&self) -> (r: usize)
        requires
            self.bpb_wf(),
    ;

    fn free_cluster_count(&self) -> (r: u32)
        requires
            self.bpb_wf(),
    ;

    fn bytes_per_cluster(&self) -> (r: u32)
        requires
            self.bpb_wf(),
    ;
}

impl BPB for MetaData {
    open spec fn bpb_wf(&self) -> bool {
        self.wf()
    }

    open spec fn spec_max(&self) -> int {
        spec_max_cluster(*self)
    }

    fn fat_start_sector(&self) -> (r: usize)
        ensures
            r == spec_fat_start(*self),
    {
        self.reserved_sectors as usize
    }

    fn root_dir_start_sector(&self) -> (r: usize)
        ensures
            r == spec_root_dir_start(*self),
    {
        self.reserved_sectors as usize
            + self.number_of_fats as usize * self.sectors_per_fat_32 as usize
    }

    fn cluster_to_sector(&self, cluster: u32) -> (r: usize)
        ensures
            r == spec_cluster_to_sector(*self, cluster as int),
    {
        proof {
            lemma_cluster_sectors_in_range(*self, cluster as int);
        }
        self.root_dir_start_sector() + (cluster as usize - 2) * self.sectors_per_cluster as usize
    }

    fn sectors_per_fat_32(&self) -> (r: usize)
        ensures
            r == self.sectors_per_fat_32,
    {
        self.sectors_per_fat_32 as usize
    }

    /// Count of data clusters beyond the first two of the data area.
    fn free_cluster_count(&self) -> (r: u32)
        ensures
            r == if spec_max_cluster(*self) >= 4 {
                spec_max_cluster(*self) - 4
            } else {
                0
            },
    {
        let q = (self.total_sectors_32 - self.root_dir_start_sector() as u32)
            / self.sectors_per_cluster as u32;
        if q >= 2 {
            q - 2
        } else {
            0
        }
    }

    fn bytes_per_cluster(&self) -> (r: u32)
        ensures
            r == spec_bytes_per_cluster(*self),
    {
        proof {
            assert(self.bytes_per_sector * self.sectors_per_cluster <= 512 * 128)
                by (nonlinear_arith)
                requires self.bytes_per_sector == 512, self.sectors_per_cluster <= 128;
        }
        self.bytes_per_sector as u32 * self.sectors_per_cluster as u32
    }
}

/// One slot of the file allocation table, classified.
#[derive(Debug, Clone, Copy, PartialEq, Eq, Structural)]
pub enum FatEntry {
    Free,
    Bad,
    Eof,
    Cluster(u32),
}

/// Classification of a raw 32-bit FAT value.
pub open spec fn spec_classify(v: u32) -> FatEntry {
    if v == 0 {
        FatEntry::Free
    } else if v == 0x0FFFFFF7u32 {
        FatEntry::Bad
    } else if 0x0FFFFFF8u32 <= v <= 0x0FFFFFFFu32 {
        FatEntry::Eof
    } else {
        FatEntry::Cluster(v)
    }
}

/// Raw 32-bit value written for a FAT entry. Directories get the
/// 0x0FFFFFF8 end marker, files 0x0FFFFFFF; both classify as `Eof`.
pub open spec fn spec_encode(e: FatEntry, dirtype: DirEntryType) -> u32 {
    match e {
        FatEntry::Free => 0u32,
        FatEntry::Bad => 0x0FFFFFF7u32,
        FatEntry::Eof => if dirtype is Dir {
            0x0FFFFFF8u32
        } else {
            0x0FFFFFFFu32
        },
        FatEntry::Cluster(n) => n,
    }
}

/// Sector holding the FAT slot of `cluster`.
pub open spec fn fat_slot_sector(m: MetaData, cluster: int) -> int {
    spec_fat_start(m) + (cluster * 4) / 512
}

/// Byte offset of the FAT slot of `cluster` inside its sector.
pub open spec fn fat_slot_off(m: MetaData, cluster: int) -> int {
    (cluster * 4) % 512
}

/// Raw value of the FAT slot of `cluster` on the image.
pub open spec fn fat_val(dv: Seq<Seq<u8>>, m: MetaData, cluster: int) -> int {
    le32(dv[fat_slot_sector(m, cluster)].subrange(
        fat_slot_off(m, cluster),
        fat_slot_off(m, cluster) + 4,
    ))
}

/// The FAT slot of `cluster`, classified.
pub open spec fn fat_entry_spec(dv: Seq<Seq<u8>>, m: MetaData, cluster: int) -> FatEntry {
    spec_classify(fat_val(dv, m, cluster) as u32)
}

/// The FAT slot of a usable cluster lies in the first FAT, before the data area.
pub proof fn lemma_fat_slot_in_range(m: MetaData, cluster: int)
    requires
        m.wf(),
        0 <= cluster < spec_max_cluster(m),
    ensures
        spec_fat_start(m) <= fat_slot_sector(m, cluster),
        fat_slot_sector(m, cluster) < spec_fat_start(m) + m.sectors_per_fat_32,
        fat_slot_sector(m, cluster) < spec_root_dir_start(m),
        0 <= fat_slot_off(m, cluster),
        fat_slot_off(m, cluster) + 4 <= 512,
        fat_slot_off(m, cluster) % 4 == 0,
        cluster * 4 == 512 * ((cluster * 4) / 512) + (cluster * 4) % 512,
{
    let b = cluster * 4;
    vstd::arithmetic::div_mod::lemma_fundamental_div_mod(b, 512);
    vstd::arithmetic::div_mod::lemma_mod_bound(b, 512);
    assert(b < spec_max_cluster(m) * 4) by (nonlinear_arith)
        requires cluster < spec_max_cluster(m), b == cluster * 4;
    assert(b / 512 < m.sectors_per_fat_32) by {
        vstd::arithmetic::div_mod::lemma_div_is_ordered(b, m.sectors_per_fat_32 * 512 - 1, 512);
        assert((m.sectors_per_fat_32 * 512 - 1) / 512 == m.sectors_per_fat_32 - 1) by (nonlinear_arith)
            requires m.sectors_per_fat_32 >= 1;
    }
    assert(b % 4 == 0) by (nonlinear_arith) requires b == cluster * 4, cluster >= 0;
    assert((b % 512) % 4 == 0) by {
        assert(b == 512 * (b / 512) + b % 512);
        assert(b % 4 == 0);
        assert(512 * (b / 512) % 4 == 0) by (nonlinear_arith);
        assert((b % 512) == b - 512 * (b / 512));
        assert((b % 512) % 4 == 0) by (nonlinear_arith)
            requires b % 4 == 0, 512 * (b / 512) % 4 == 0, (b % 512) == b - 512 * (b / 512);
    }
    assert(m.number_of_fats * m.sectors_per_fat_32 >= 1 * m.sectors_per_fat_32) by (nonlinear_arith)
        requires m.number_of_fats >= 1, m.sectors_per_fat_32 >= 0;
}

/// Distinct usable clusters keep their FAT slots in disjoint byte ranges.
pub proof fn lemma_fat_slots_disjoint(m: MetaData, c1: int, c2: int)
    requires
        m.wf(),
        0 <= c1 < spec_max_cluster(m),
        0 <= c2 < spec_max_cluster(m),
        c1 != c2,
    ensures
        fat_slot_sector(m, c1) != fat_slot_sector(m, c2) || fat_slot_off(m, c1) + 4
            <= fat_slot_off(m, c2) || fat_slot_off(m, c2) + 4 <= fat_slot_off(m, c1),
{
    lemma_fat_slot_in_range(m, c1);
    lemma_fat_slot_in_range(m, c2);
    if fat_slot_sector(m, c1) == fat_slot_sector(m, c2) {
        let b1 = c1 * 4;
        let b2 = c2 * 4;
        assert(b1 - b2 == (b1 % 512) - (b2 % 512));
        assert(b1 - b2 == 4 * (c1 - c2));
    }
}

/// A cluster chain read off the FAT: follow `Cluster` links from `c`,
/// ending with the cluster whose slot is `Eof`. `None` when the walk
/// leaves the usable range, meets `Free` or `Bad`, or does not terminate
/// within `fuel` links.
pub open spec fn chain_from(dv: Seq<Seq<u8>>, m: MetaData, c: u32, fuel: nat) -> Option<Seq<u32>>
    decreases fuel,
{
    if !(2 <= c < spec_max_cluster(m)) {
        None
    } else {
        match fat_entry_spec(dv, m, c as int) {
            FatEntry::Eof => Some(seq![c]),
            FatEntry::Cluster(n) => if fuel == 0 {
                None
            } else {
                match chain_from(dv, m, n, (fuel - 1) as nat) {
                    Some(rest) => Some(seq![c] + rest),
                    None => None,
                }
            },
            _ => None,
        }
    }
}

/// The chain of `c`, with fuel enough for any acyclic walk.
pub open spec fn chain_of(dv: Seq<Seq<u8>>, m: MetaData, c: u32) -> Option<Seq<u32>> {
    chain_from(dv, m, c, spec_max_cluster(m) as nat)
}

/// Structure of a chain: it starts at its head, every link is recorded in
/// the FAT, and it ends at an `Eof` slot.
pub proof fn lemma_chain_from_props(dv: Seq<Seq<u8>>, m: MetaData, c: u32, fuel: nat)
    requires
        chain_from(dv, m, c, fuel) is Some,
    ensures
        ({
            let s = chain_from(dv, m, c, fuel)->Some_0;
            &&& s.len() >= 1
            &&& s[0] == c
            &&& forall|i: int| 0 <= i < s.len() ==> 2 <= #[trigger] s[i] < spec_max_cluster(m)
            &&& forall|i: int|
                0 <= i < s.len() - 1 ==> fat_entry_spec(dv, m, #[trigger] s[i] as int)
                    == FatEntry::Cluster(s[i + 1])
            &&& fat_entry_spec(dv, m, s[s.len() - 1] as int) == FatEntry::Eof
        }),
    decreases fuel,
{
    let s = chain_from(dv, m, c, fuel)->Some_0;
    match fat_entry_spec(dv, m, c as int) {
        FatEntry::Eof => {}
        FatEntry::Cluster(n) => {
            lemma_chain_from_props(dv, m, n, (fuel - 1) as nat);
            let rest = chain_from(dv, m, n, (fuel - 1) as nat)->Some_0;
            assert(s == seq![c] + rest);
            assert(forall|i: int| 0 <= i < rest.len() ==> s[i + 1] == rest[i]);
        }
        _ => {}
    }
}

/// A chain never runs through a `Free` or `Bad` slot: every cluster on it,
/// interior or final, has its FAT slot set to `Cluster` or `Eof`.
pub proof fn lemma_chain_has_no_free_slot(dv: Seq<Seq<u8>>, m: MetaData, start: u32)
    requires
        chain_of(dv, m, start) is Some,
    ensures
        ({
            let s = chain_of(dv, m, start)->Some_0;
            forall|i: int|
                0 <= i < s.len() ==> !((#[trigger] fat_entry_spec(dv, m, s[i] as int)) is Free)
                    && !(fat_entry_spec(dv, m, s[i] as int) is Bad)
        }),
{
    lemma_chain_from_props(dv, m, start, spec_max_cluster(m) as nat);
    let s = chain_of(dv, m, start)->Some_0;
    assert forall|i: int| 0 <= i < s.len() implies !((#[trigger] fat_entry_spec(dv, m,
        s[i] as int)) is Free) && !(fat_entry_spec(dv, m, s[i] as int) is Bad) by {
        if i < s.len() - 1 {
            assert(fat_entry_spec(dv, m, s[i] as int) == FatEntry::Cluster(s[i + 1]));
        } else {
            assert(fat_entry_spec(dv, m, s[i] as int) == FatEntry::Eof);
        }
    }
}

/// Two images that agree on the FAT region have the same slots and chains.
pub proof fn lemma_fat_region_same_chains(
    dv1: Seq<Seq<u8>>,
    dv2: Seq<Seq<u8>>,
    m: MetaData,
    c: u32,
    fuel: nat,
)
    requires
        m.wf(),
        dv1.len() == m.total_sectors_32,
        dv2.len() == m.total_sectors_32,
        forall|s: int| 0 <= s < spec_root_dir_start(m) ==> #[trigger] dv2[s] == dv1[s],
    ensures
        chain_from(dv2, m, c, fuel) == chain_from(dv1, m, c, fuel),
        0 <= c < spec_max_cluster(m) ==> fat_val(dv2, m, c as int) == fat_val(dv1, m, c as int),
    decreases fuel,
{
    if 0 <= c < spec_max_cluster(m) {
        lemma_fat_slot_in_range(m, c as int);
        assert(dv2[fat_slot_sector(m, c as int)] == dv1[fat_slot_sector(m, c as int)]);
    }
    if 2 <= c < spec_max_cluster(m) {
        match fat_entry_spec(dv1, m, c as int) {
            FatEntry::Cluster(n) => {
                if fuel > 0 {
                    lemma_fat_region_same_chains(dv1, dv2, m, n, (fuel - 1) as nat);
                }
            }
            _ => {}
        }
    }
}

/// The FAT manager: geometry plus advisory allocation hints. The truth
/// about every cluster is the FAT region of the image.
#[derive(Debug, Clone, Copy)]
pub struct Fat {
    /// Volume geometry.
    pub meta: MetaData,
    /// Advisory scan start for the next allocation.
    pub next_free_cluster: u32,
    /// Advisory count of free clusters.
    pub total_free_cluster: u32,
}

impl Fat {
    /// Geometry is well formed and the scan hint is a usable cluster.
    pub open spec fn wf(self) -> bool {
        &&& self.meta.wf()
        &&& 2 <= self.next_free_cluster < spec_max_cluster(self.meta)
    }

    pub open spec fn spec_total_free(self) -> u32 {
        self.total_free_cluster
    }

    pub open spec fn spec_next_free(self) -> u32 {
        self.next_free_cluster
    }

    /// Adopt the advisory FSInfo hints, clamping an out-of-range scan
    /// start back to the first usable cluster.
    pub fn new(meta: MetaData, fs_info: &FsInfo) -> (r: Fat)
        requires
            meta.wf(),
        ensures
            r.wf(),
            r.meta == meta,
            r.spec_total_free() == fs_info.free_cluster_count,
    {
        let max = Self::max_cluster_exec(&meta);
        let hint = fs_info.next_free_cluster;
        let hint = if 2 <= hint && hint < max {
            hint
        } else {
            2
        };
        Fat { meta, next_free_cluster: hint, total_free_cluster: fs_info.free_cluster_count }
    }

    /// One past the last usable cluster, as a run-time value.
    pub fn max_cluster_exec(meta: &MetaData) -> (r: u32)
        requires
            meta.wf(),
        ensures
            r == spec_max_cluster(*meta),
    {
        let rds = meta.root_dir_start_sector();
        2 + (meta.total_sectors_32 - rds as u32) / meta.sectors_per_cluster as u32
    }

    /// Read and classify one FAT slot.
    pub fn get_entry(&self, disk: &Disk, cluster: u32) -> (r: FatEntry)
        requires
            disk.wf(),
            self.wf(),
            self.meta.disk_ok(disk@),
            cluster < spec_max_cluster(self.meta),
        ensures
            r == fat_entry_spec(disk@, self.meta, cluster as int),
    {
        proof {
            lemma_fat_slot_in_range(self.meta, cluster as int);
        }
        let byte = cluster as usize * 4;
        let sector = self.meta.fat_start_sector() + byte / BLOCK_SIZE;
        let off = byte % BLOCK_SIZE;
        let raw = self.disk_read_u32(disk, sector, off);
        if raw == 0 {
            FatEntry::Free
        } else if raw == 0x0FFFFFF7 {
            FatEntry::Bad
        } else if 0x0FFFFFF8 <= raw && raw <= 0x0FFFFFFF {
            FatEntry::Eof
        } else {
            FatEntry::Cluster(raw)
        }
    }

    fn disk_read_u32(&self, disk: &Disk, sector: usize, off: usize) -> (r: u32)
        requires
            disk.wf(),
            sector < disk@.len(),
            off + 4 <= BLOCK_SIZE,
        ensures
            r == le32(disk@[sector as int].subrange(off as int, off + 4)),
    {
        let bytes = disk.read_bytes(sector, off, 4);
        u32_from_le_bytes(bytes.as_slice())
    }

    /// Write one FAT slot. Only the four bytes of that slot change: every
    /// other slot, and every sector outside the slot's sector, is untouched.
    pub fn set_entry(&self, disk: &mut Disk, cluster: u32, entry: FatEntry, dirtype: DirEntryType)
        requires
            old(disk).wf(),
            self.wf(),
            self.meta.disk_ok(old(disk)@),
            cluster < spec_max_cluster(self.meta),
        ensures
            final(disk).wf(),
            self.meta.disk_ok(final(disk)@),
            fat_val(final(disk)@, self.meta, cluster as int) == spec_encode(entry, dirtype),
            forall|c2: int|
                0 <= c2 < spec_max_cluster(self.meta) && c2 != cluster
                    ==> fat_val(final(disk)@, self.meta, c2) == fat_val(old(disk)@, self.meta, c2),
            forall|s: int|
                0 <= s < old(disk)@.len() && s != fat_slot_sector(self.meta, cluster as int)
                    ==> final(disk)@[s] == old(disk)@[s],
            forall|j: int|
                0 <= j < BLOCK_SIZE && !(fat_slot_off(self.meta, cluster as int) <= j
                    < fat_slot_off(self.meta, cluster as int) + 4)
                    ==> final(disk)@[fat_slot_sector(self.meta, cluster as int)][j]
                        == old(disk)@[fat_slot_sector(self.meta, cluster as int)][j],
    {
        proof {
            lemma_fat_slot_in_range(self.meta, cluster as int);
        }
        let raw: u32 = match entry {
            FatEntry::Free => 0,
            FatEntry::Bad => 0x0FFFFFF7,
            FatEntry::Eof => if dirtype == DirEntryType::Dir {
                0x0FFFFFF8
            } else {
                0x0FFFFFFF
            },
            FatEntry::Cluster(n) => n,
        };
        let bytes = u32_to_le_bytes(raw);
        let byte = cluster as usize * 4;
        let sector = self.meta.fat_start_sector() + byte / BLOCK_SIZE;
        let off = byte % BLOCK_SIZE;
        let ghost orig = disk@;
        disk.write_bytes(sector, off, bytes.as_slice());
        proof {
            let m = self.meta;
            let sec = fat_slot_sector(m, cluster as int);
            let o = fat_slot_off(m, cluster as int);
            assert(final(disk)@[sec].subrange(o, o + 4) =~= bytes@);
            assert forall|c2: int|
                0 <= c2 < spec_max_cluster(m) && c2 != cluster implies fat_val(final(disk)@, m, c2)
                == fat_val(orig, m, c2) by {
                lemma_fat_slot_in_range(m, c2);
                lemma_fat_slots_disjoint(m, cluster as int, c2);
                let sec2 = fat_slot_sector(m, c2);
                let o2 = fat_slot_off(m, c2);
                assert(final(disk)@[sec2].subrange(o2, o2 + 4) =~= orig[sec2].subrange(o2, o2 + 4));
            }
        }
    }

    /// Scan for a free cluster, starting at the hint and wrapping once.
    /// `Some(c)` means slot `c` is `Free` on the image and the advisory
    /// count went down by one; the slot itself is not written — the caller
    /// links or terminates it. `None` means the advisory count was zero or
    /// no `Free` slot exists.
    pub fn alloc_cluster(&mut self, disk: &Disk) -> (r: Option<u32>)
        requires
            disk.wf(),
            old(self).wf(),
            old(self).meta.disk_ok(disk@),
        ensures
            final(self).wf(),
            final(self).meta == old(self).meta,
            match r {
                Some(c) => {
                    &&& 2 <= c < spec_max_cluster(old(self).meta)
                    &&& fat_entry_spec(disk@, old(self).meta, c as int) is Free
                    &&& old(self).spec_total_free() > 0
                    &&& final(self).spec_total_free() == old(self).spec_total_free() - 1
                    &&& final(self).spec_next_free() == if c as int + 1 < spec_max_cluster(
                        old(self).meta) {
                        c as int + 1
                    } else {
                        2int
                    }
                    &&& (c >= old(self).spec_next_free() ==> forall|x: int|
                        old(self).spec_next_free() <= x < c ==> !((#[trigger] fat_entry_spec(
                            disk@, old(self).meta, x)) is Free))
                    &&& (c < old(self).spec_next_free() ==> (forall|x: int|
                        old(self).spec_next_free() <= x < spec_max_cluster(old(self).meta)
                            ==> !((#[trigger] fat_entry_spec(disk@, old(self).meta,
                            x)) is Free)) && (forall|x: int|
                        2 <= x < c ==> !((#[trigger] fat_entry_spec(disk@, old(self).meta,
                            x)) is Free)))
                },
                None => old(self).spec_total_free() == 0 || forall|c: int|
                    2 <= c < spec_max_cluster(old(self).meta)
                        ==> !((#[trigger] fat_entry_spec(disk@, old(self).meta, c)) is Free),
            },
            r is None ==> final(self).spec_total_free() == old(self).spec_total_free(),
    {
        if self.total_free_cluster == 0 {
            return None;
        }
        let max = Self::max_cluster_exec(&self.meta);
        let start = self.next_free_cluster;
        let mut c = start;
        while c < max
            invariant
                disk.wf(),
                self.wf(),
                self == old(self),
                self.meta.disk_ok(disk@),
                max == spec_max_cluster(self.meta),
                2 <= start < max,
                start == old(self).next_free_cluster,
                start <= c <= max,
                self.total_free_cluster > 0,
                forall|c2: int|
                    start <= c2 < c ==> !((#[trigger] fat_entry_spec(disk@, self.meta, c2)) is Free),
            decreases max - c,
        {
            if self.get_entry(disk, c) == FatEntry::Free {
                self.total_free_cluster = self.total_free_cluster - 1;
                self.next_free_cluster = if c + 1 < max {
                    c + 1
                } else {
                    2
                };
                return Some(c);
            }
            c += 1;
        }
        let mut c2: u32 = 2;
        while c2 < start
            invariant
                disk.wf(),
                self.wf(),
                self == old(self),
                self.meta.disk_ok(disk@),
                max == spec_max_cluster(self.meta),
                2 <= start < max,
                start == old(self).next_free_cluster,
                2 <= c2 <= start,
                self.total_free_cluster > 0,
                forall|x: int|
                    start <= x < max ==> !((#[trigger] fat_entry_spec(disk@, self.meta, x)) is Free),
                forall|x: int|
                    2 <= x < c2 ==> !((#[trigger] fat_entry_spec(disk@, self.meta, x)) is Free),
            decreases start - c2,
        {
            if self.get_entry(disk, c2) == FatEntry::Free {
                self.total_free_cluster = self.total_free_cluster - 1;
                self.next_free_cluster = if c2 + 1 < max {
                    c2 + 1
                } else {
                    2
                };
                return Some(c2);
            }
            c2 += 1;
        }
        None
    }

    /// Walk the chain that starts at `start`, inclusive of the `Eof`
    /// cluster. The image must actually hold a terminated chain there.
    #[verifier::rlimit(50)]
    pub fn get_cluster_chain(&self, disk: &Disk, start: u32) -> (r: Vec<u32>)
        requires
            disk.wf(),
            self.wf(),
            self.meta.disk_ok(disk@),
            chain_of(disk@, self.meta, start) is Some,
        ensures
            r@ == chain_of(disk@, self.meta, start)->Some_0,
    {
        let ghost m = self.meta;
        let ghost full = chain_of(disk@, m, start)->Some_0;
        let mut chain: Vec<u32> = Vec::new();
        let mut cur = start;
        let ghost mut fuel = spec_max_cluster(m) as nat;
        proof {
            assert(full.skip(0) =~= full);
            assert(chain@ =~= full.take(0));
            lemma_chain_from_props(disk@, m, start, fuel);
        }
        loop
            invariant
                disk.wf(),
                self.wf(),
                self.meta == m,
                m.disk_ok(disk@),
                chain_of(disk@, m, start) == Some(full),
                chain@.len() < full.len(),
                chain@ == full.take(chain@.len() as int),
                cur == full[chain@.len() as int],
                chain_from(disk@, m, cur, fuel) == Some(full.skip(chain@.len() as int)),
            decreases full.len() - chain@.len(),
        {
            let ghost k = chain@.len() as int;
            proof {
                if !(2 <= cur && (cur as int) < spec_max_cluster(m)) {
                    assert(chain_from(disk@, m, cur, fuel) is None);
                }
            }
            let entry = self.get_entry(disk, cur);
            match entry {
                FatEntry::Eof => {
                    proof {
                        assert(chain_from(disk@, m, cur, fuel) == Some(seq![cur]));
                        assert(Some(full.skip(k)) == Some(seq![cur]));
                        assert(full.skip(k) == seq![cur]);
                        assert(full.skip(k).len() == 1);
                        assert(full.skip(k).len() == full.len() - k);
                        assert(full.len() == k + 1);
                        assert(full[k] == full.skip(k)[0]);
                    }
                    chain.push(cur);
                    proof {
                        assert(chain@ =~= full);
                        assert(chain@ == chain_of(disk@, self.meta, start)->Some_0);
                    }
                    return chain;
                }
                FatEntry::Cluster(n) => {
                    proof {
                        if fuel == 0 {
                            assert(chain_from(disk@, m, cur, fuel) is None);
                        }
                        let rest = chain_from(disk@, m, n, (fuel - 1) as nat);
                        if rest is None {
                            assert(chain_from(disk@, m, cur, fuel) is None);
                        }
                        assert(full.skip(k) == seq![cur] + rest->Some_0);
                        assert(full.skip(k).len() == full.len() - k);
                        assert(rest->Some_0.len() == full.len() - k - 1);
                        assert(full.len() >= k + 2);
                        assert forall|i: int| 0 <= i < rest->Some_0.len() implies
                            rest->Some_0[i] == full[k + 1 + i] by {
                            assert(rest->Some_0[i] == (seq![cur] + rest->Some_0)[i + 1]);
                            assert(full.skip(k)[i + 1] == full[k + 1 + i]);
                        }
                        assert(rest->Some_0 =~= full.skip(k + 1));
                        assert(rest->Some_0[0] == n) by {
                            lemma_chain_from_props(disk@, m, n, (fuel - 1) as nat);
                        }
                        assert(full[k + 1] == full.skip(k)[1]);
                        assert(full.skip(k)[1] == (seq![cur] + rest->Some_0)[1]);
                        fuel = (fuel - 1) as nat;
                    }
                    chain.push(cur);
                    cur = n;
                    proof {
                        assert(chain@ =~= full.take(k + 1));
                    }
                }
                _ => {
                    proof {
                        assert(false);
                    }
                    return chain;
                }
            }
        }
    }
}

/// FSInfo sector: advisory free-cluster statistics and three signatures.
#[derive(Debug, Clone, Copy)]
pub struct FsInfo {
    pub lead_signature: u32,
    pub struct_signature: u32,
    pub free_cluster_count: u32,
    pub next_free_cluster: u32,
    pub trail_signature: u32,
}

impl FsInfo {
    /// Decode the FSInfo fields from a raw sector.
    pub fn new(data: &[u8]) -> (r: FsInfo)
        requires
            data@.len() >= 512,
        ensures
            r.lead_signature == le32(data@.subrange(0, 4)),
            r.struct_signature == le32(data@.subrange(484, 488)),
            r.free_cluster_count == le32(data@.subrange(488, 492)),
            r.next_free_cluster == le32(data@.subrange(492, 496)),
            r.trail_signature == le32(data@.subrange(508, 512)),
    {
        FsInfo {
            lead_signature: u32_from_le_bytes(&data[0..4]),
            struct_signature: u32_from_le_bytes(&data[484..488]),
            free_cluster_count: u32_from_le_bytes(&data[488..492]),
            next_free_cluster: u32_from_le_bytes(&data[492..496]),
            trail_signature: u32_from_le_bytes(&data[508..512]),
        }
    }

    /// True exactly when all three signatures are the documented constants.
    pub fn is_valid(&self) -> (r: bool)
        ensures
            r == (self.lead_signature == 0x41615252u32 && self.struct_signature == 0x61417272u32
                && self.trail_signature == 0xaa550000u32),
    {
        self.lead_signature == 0x41615252 && self.struct_signature == 0x61417272
            && self.trail_signature == 0xaa550000
    }
}

/// A one-sector scratch buffer.
pub struct Content {
    data: Vec<u8>,
}

impl View for Content {
    type V = Seq<u8>;

    closed spec fn view(&self) -> Seq<u8> {
        self.data@
    }
}

impl Content {
    /// A zeroed sector buffer.
    pub fn new() -> (r: Content)
        ensures
            r@.len() == BLOCK_SIZE,
            forall|i: int| 0 <= i < BLOCK_SIZE ==> r@[i] == 0u8,
    {
        Content { data: vec![0u8; BLOCK_SIZE] }
    }

    /// Shared access to the whole buffer.
    pub fn read(&self) -> (r: &Vec<u8>)
        ensures
            r@ == self@,
    {
        &self.data
    }

    /// Overwrite one byte.
    pub fn write(&mut self, off: usize, val: u8)
        requires
            off < old(self)@.len(),
        ensures
            final(self)@ == old(self)@.update(off as int, val),
    {
        self.data[off] = val;
    }
}

/// A FAT walk from one cluster has at most one terminated outcome.
pub proof fn lemma_chain_unique(dv: Seq<Seq<u8>>, m: MetaData, c: u32, f1: nat, f2: nat)
    requires
        chain_from(dv, m, c, f1) is Some,
        chain_from(dv, m, c, f2) is Some,
    ensures
        chain_from(dv, m, c, f1) == chain_from(dv, m, c, f2),
    decreases f1,
{
    match fat_entry_spec(dv, m, c as int) {
        FatEntry::Cluster(n) => {
            lemma_chain_unique(dv, m, n, (f1 - 1) as nat, (f2 - 1) as nat);
        }
        _ => {}
    }
}

/// Every suffix of a chain is itself a chain from its first cluster.
pub proof fn lemma_chain_suffix(dv: Seq<Seq<u8>>, m: MetaData, c: u32, fuel: nat, k: int)
    requires
        chain_from(dv, m, c, fuel) is Some,
        0 <= k < chain_from(dv, m, c, fuel)->Some_0.len(),
    ensures
        fuel >= k,
        chain_from(dv, m, chain_from(dv, m, c, fuel)->Some_0[k], (fuel - k) as nat)
            == Some(chain_from(dv, m, c, fuel)->Some_0.skip(k)),
    decreases k,
{
    let s = chain_from(dv, m, c, fuel)->Some_0;
    if k == 0 {
        assert(s.skip(0) =~= s);
    } else {
        match fat_entry_spec(dv, m, c as int) {
            FatEntry::Cluster(n) => {
                let rest = chain_from(dv, m, n, (fuel - 1) as nat)->Some_0;
                assert(s == seq![c] + rest);
                assert(rest[k - 1] == s[k]);
                lemma_chain_suffix(dv, m, n, (fuel - 1) as nat, k - 1);
                assert(rest.skip(k - 1) =~= s.skip(k));
            }
            _ => {}
        }
    }
}

/// A terminated chain never repeats a cluster.
pub proof fn lemma_chain_nodup(dv: Seq<Seq<u8>>, m: MetaData, c: u32, fuel: nat)
    requires
        chain_from(dv, m, c, fuel) is Some,
    ensures
        ({
            let s = chain_from(dv, m, c, fuel)->Some_0;
            forall|i: int, j: int| 0 <= i < j < s.len() ==> s[i] != s[j]
        }),
    decreases fuel,
{
    let s = chain_from(dv, m, c, fuel)->Some_0;
    match fat_entry_spec(dv, m, c as int) {
        FatEntry::Eof => {}
        FatEntry::Cluster(n) => {
            let rest = chain_from(dv, m, n, (fuel - 1) as nat)->Some_0;
            lemma_chain_nodup(dv, m, n, (fuel - 1) as nat);
            assert(s == seq![c] + rest);
            assert forall|i: int, j: int| 0 <= i < j < s.len() implies s[i] != s[j] by {
                if i == 0 {
                    if s[j] == c {
                        // a later occurrence of the head would make two
                        // terminated walks from `c` of different lengths
                        lemma_chain_suffix(dv, m, c, fuel, j);
                        lemma_chain_unique(dv, m, c, fuel, (fuel - j) as nat);
                        assert(chain_from(dv, m, c, (fuel - j) as nat) == Some(s.skip(j)));
                        assert(s.skip(j).len() == s.len() - j);
                        assert(s.len() == s.len() - j);
                    }
                } else {
                    assert(s[i] == rest[i - 1] && s[j] == rest[j - 1]);
                }
            }
        }
        _ => {}
    }
}

/// Distinct clusters occupy disjoint sector ranges of the data area.
pub proof fn lemma_cluster_sectors_disjoint(m: MetaData, c1: int, c2: int)
    requires
        m.wf(),
        2 <= c1 < spec_max_cluster(m),
        2 <= c2 < spec_max_cluster(m),
        c1 != c2,
    ensures
        spec_cluster_to_sector(m, c1) + m.sectors_per_cluster <= spec_cluster_to_sector(m, c2)
            || spec_cluster_to_sector(m, c2) + m.sectors_per_cluster <= spec_cluster_to_sector(
            m, c1),
{
    let spc = m.sectors_per_cluster as int;
    if c1 < c2 {
        assert((c1 - 2) * spc + spc <= (c2 - 2) * spc) by (nonlinear_arith)
            requires c1 < c2, spc >= 1;
    } else {
        assert((c2 - 2) * spc + spc <= (c1 - 2) * spc) by (nonlinear_arith)
            requires c2 < c1, spc >= 1;
    }
}

/// A chain that terminates at fuel `f` also terminates at any fuel at
/// least its link count.
pub proof fn lemma_chain_fuel_mono(dv: Seq<Seq<u8>>, m: MetaData, c: u32, f1: nat, f2: nat)
    requires
        chain_from(dv, m, c, f1) is Some,
        f2 >= chain_from(dv, m, c, f1)->Some_0.len() - 1,
    ensures
        chain_from(dv, m, c, f2) == chain_from(dv, m, c, f1),
    decreases f1,
{
    match fat_entry_spec(dv, m, c as int) {
        FatEntry::Cluster(n) => {
            let rest = chain_from(dv, m, n, (f1 - 1) as nat)->Some_0;
            assert(chain_from(dv, m, c, f1)->Some_0 == seq![c] + rest);
            lemma_chain_fuel_mono(dv, m, n, (f1 - 1) as nat, (f2 - 1) as nat);
        }
        _ => {}
    }
}

/// Chains are read off the FAT region alone: they survive any change that
/// keeps every usable cluster's slot value.
pub proof fn lemma_chain_same_slots(dv1: Seq<Seq<u8>>, dv2: Seq<Seq<u8>>, m: MetaData, c: u32,
    fuel: nat)
    requires
        forall|c2: int|
            0 <= c2 < spec_max_cluster(m) ==> fat_val(dv2, m, c2) == fat_val(dv1, m, c2),
    ensures
        chain_from(dv2, m, c, fuel) == chain_from(dv1, m, c, fuel),
    decreases fuel,
{
    if 2 <= c < spec_max_cluster(m) {
        assert(fat_val(dv2, m, c as int) == fat_val(dv1, m, c as int));
        match fat_entry_spec(dv1, m, c as int) {
            FatEntry::Cluster(n) => {
                if fuel > 0 {
                    lemma_chain_same_slots(dv1, dv2, m, n, (fuel - 1) as nat);
                }
            }
            _ => {}
        }
    }
}

/// Appending a freshly terminated cluster to a chain's tail yields the
/// extended chain: after the old tail's slot is linked to `c` and `c` is
/// terminated, the walk from the old head reads the old chain plus `c`.
/// A terminated chain visits at most every usable cluster once.
pub proof fn lemma_chain_len_bound(dv: Seq<Seq<u8>>, m: MetaData, start: u32, fuel: nat)
    requires
        m.wf(),
        chain_from(dv, m, start, fuel) is Some,
    ensures
        chain_from(dv, m, start, fuel)->Some_0.len() <= spec_max_cluster(m) - 2,
{
    let s = chain_from(dv, m, start, fuel)->Some_0;
    lemma_chain_from_props(dv, m, start, fuel);
    lemma_chain_nodup(dv, m, start, fuel);
    assert(s.no_duplicates());
    s.unique_seq_to_set();
    let mx = spec_max_cluster(m);
    assert(3 <= mx <= 0x0100_0001) by {
        vstd::arithmetic::div_mod::lemma_fundamental_div_mod(
            m.total_sectors_32 - spec_root_dir_start(m), m.sectors_per_cluster as int);
        vstd::arithmetic::div_mod::lemma_mod_bound(
            m.total_sectors_32 - spec_root_dir_start(m), m.sectors_per_cluster as int);
        vstd::arithmetic::div_mod::lemma_div_is_ordered(1, m.total_sectors_32
            - spec_root_dir_start(m), m.sectors_per_cluster as int);
        assert((m.total_sectors_32 - spec_root_dir_start(m)) / (m.sectors_per_cluster as int)
            <= m.total_sectors_32) by (nonlinear_arith)
            requires m.sectors_per_cluster >= 1, m.total_sectors_32 - spec_root_dir_start(m) >= 0,
                spec_root_dir_start(m) >= 0;
        assert((m.total_sectors_32 - spec_root_dir_start(m)) / (m.sectors_per_cluster as int)
            >= 1) by (nonlinear_arith)
            requires m.sectors_per_cluster as int >= 1, m.total_sectors_32 - spec_root_dir_start(m)
                >= m.sectors_per_cluster as int;
    }
    let range = Set::new(|i: u32| 2 <= i < mx);
    assert(s.to_set().subset_of(range)) by {
        assert forall|x: u32| s.to_set().contains(x) implies range.contains(x) by {
            let i = choose|i: int| 0 <= i < s.len() && s[i] == x;
            assert(2 <= s[i] < mx);
        }
    }
    assert(range == <u32 as vstd::set_lib::FiniteRange>::range_set(2u32, mx as u32)) by {
        assert(range =~= <u32 as vstd::set_lib::FiniteRange>::range_set(2u32, mx as u32));
    }
    <u32 as vstd::set_lib::FiniteRange>::range_properties(2u32, mx as u32);
    vstd::set_lib::lemma_len_subset(s.to_set(), range);
}

/// Appending a freshly terminated cluster to a chain's tail yields the
/// extended chain: after the old tail's slot is linked to `c` and `c` is
/// terminated, the walk from the old head reads the old chain plus `c`.
pub proof fn lemma_chain_extend(dv1: Seq<Seq<u8>>, dv2: Seq<Seq<u8>>, m: MetaData, start: u32,
    c: u32)
    requires
        m.wf(),
        chain_of(dv1, m, start) is Some,
        2 <= c < spec_max_cluster(m),
        fat_entry_spec(dv1, m, c as int) is Free,
        ({
            let ch = chain_of(dv1, m, start)->Some_0;
            &&& forall|c2: int|
                0 <= c2 < spec_max_cluster(m) && c2 != c && c2 != ch[ch.len() - 1]
                    ==> fat_val(dv2, m, c2) == fat_val(dv1, m, c2)
            &&& fat_entry_spec(dv2, m, ch[ch.len() - 1] as int) == FatEntry::Cluster(c)
            &&& fat_entry_spec(dv2, m, c as int) is Eof
        }),
    ensures
        chain_of(dv2, m, start) == Some(chain_of(dv1, m, start)->Some_0.push(c)),
{
    let ch = chain_of(dv1, m, start)->Some_0;
    let fuel = spec_max_cluster(m) as nat;
    lemma_chain_notin(dv1, m, start, fuel, c);
    lemma_chain_extend_step(dv1, dv2, m, start, c, fuel);
    lemma_chain_len_bound(dv1, m, start, fuel);
    lemma_chain_fuel_mono(dv2, m, start, fuel + 1, fuel);
}

/// A cluster whose slot is `Free` lies on no terminated chain.
pub proof fn lemma_chain_notin(dv: Seq<Seq<u8>>, m: MetaData, start: u32, fuel: nat, c: u32)
    requires
        chain_from(dv, m, start, fuel) is Some,
        fat_entry_spec(dv, m, c as int) is Free,
    ensures
        ({
            let ch = chain_from(dv, m, start, fuel)->Some_0;
            forall|i: int| 0 <= i < ch.len() ==> #[trigger] ch[i] != c
        }),
{
    let ch = chain_from(dv, m, start, fuel)->Some_0;
    lemma_chain_from_props(dv, m, start, fuel);
    assert forall|i: int| 0 <= i < ch.len() implies #[trigger] ch[i] != c by {
        if i < ch.len() - 1 {
            assert(fat_entry_spec(dv, m, ch[i] as int) == FatEntry::Cluster(ch[i + 1]));
        } else {
            assert(fat_entry_spec(dv, m, ch[i] as int) == FatEntry::Eof);
        }
    }
}

proof fn lemma_chain_extend_step(dv1: Seq<Seq<u8>>, dv2: Seq<Seq<u8>>, m: MetaData, start: u32,
    c: u32, fuel: nat)
    requires
        m.wf(),
        chain_from(dv1, m, start, fuel) is Some,
        2 <= c < spec_max_cluster(m),
        ({
            let ch = chain_from(dv1, m, start, fuel)->Some_0;
            &&& forall|i: int| 0 <= i < ch.len() ==> #[trigger] ch[i] != c
            &&& forall|c2: int|
                0 <= c2 < spec_max_cluster(m) && c2 != c && c2 != ch[ch.len() - 1]
                    ==> fat_val(dv2, m, c2) == fat_val(dv1, m, c2)
            &&& fat_entry_spec(dv2, m, ch[ch.len() - 1] as int) == FatEntry::Cluster(c)
            &&& fat_entry_spec(dv2, m, c as int) is Eof
        }),
    ensures
        chain_from(dv2, m, start, fuel + 1) == Some(chain_from(dv1, m, start, fuel)->Some_0.push(
            c)),
    decreases fuel,
{
    let ch = chain_from(dv1, m, start, fuel)->Some_0;
    lemma_chain_from_props(dv1, m, start, fuel);
    match fat_entry_spec(dv1, m, start as int) {
        FatEntry::Eof => {
            // start is the tail: in dv2 it links straight to c
            assert(ch == seq![start]);
            assert(fat_entry_spec(dv2, m, start as int) == FatEntry::Cluster(c));
            assert(chain_from(dv2, m, c, fuel) == Some(seq![c]));
            assert(chain_from(dv2, m, start, fuel + 1) == Some(seq![start] + seq![c]));
            assert(seq![start] + seq![c] =~= ch.push(c));
        }
        FatEntry::Cluster(n) => {
            let rest = chain_from(dv1, m, n, (fuel - 1) as nat)->Some_0;
            assert(ch == seq![start] + rest);
            assert(ch[ch.len() - 1] == rest[rest.len() - 1]);
            assert forall|i: int| 0 <= i < rest.len() implies #[trigger] rest[i] != c by {
                assert(rest[i] == ch[i + 1]);
            }
            assert(start != c);
            assert(start != ch[ch.len() - 1] ==> fat_val(dv2, m, start as int) == fat_val(dv1,
                m, start as int));
            assert(fat_entry_spec(dv2, m, start as int) == FatEntry::Cluster(n)) by {
                if ch.len() > 1 {
                    assert(start == ch[0]);
                    assert(ch[ch.len() - 1] != ch[0] || ch.len() == 1) by {
                        if ch[ch.len() - 1] == ch[0] && ch.len() > 1 {
                            lemma_chain_nodup_from(dv1, m, start, fuel);
                        }
                    }
                }
            }
            lemma_chain_extend_step(dv1, dv2, m, n, c, (fuel - 1) as nat);
            assert(chain_from(dv2, m, start, fuel + 1) == Some(seq![start] + rest.push(c)));
            assert(seq![start] + rest.push(c) =~= ch.push(c));
        }
        _ => {}
    }
}

proof fn lemma_chain_nodup_from(dv: Seq<Seq<u8>>, m: MetaData, c: u32, fuel: nat)
    requires
        chain_from(dv, m, c, fuel) is Some,
    ensures
        ({
            let s = chain_from(dv, m, c, fuel)->Some_0;
            forall|i: int, j: int| 0 <= i < j < s.len() ==> s[i] != s[j]
        }),
{
    lemma_chain_nodup(dv, m, c, fuel);
}

/// A chain survives a change to the slot of a cluster that is not on it.
pub proof fn lemma_chain_offchain_write(dv1: Seq<Seq<u8>>, dv2: Seq<Seq<u8>>, m: MetaData,
    c: u32, fuel: nat, changed: int)
    requires
        chain_from(dv1, m, c, fuel) is Some,
        !chain_from(dv1, m, c, fuel)->Some_0.contains(changed as u32),
        forall|c2: int|
            0 <= c2 < spec_max_cluster(m) && c2 != changed ==> fat_val(dv2, m, c2) == fat_val(
                dv1, m, c2),
        0 <= changed <= 0xFFFF_FFFF,
    ensures
        chain_from(dv2, m, c, fuel) == chain_from(dv1, m, c, fuel),
    decreases fuel,
{
    let ch = chain_from(dv1, m, c, fuel)->Some_0;
    assert(ch[0] == c);
    assert(ch.contains(ch[0]));
    assert(c as int != changed);
    assert(fat_val(dv2, m, c as int) == fat_val(dv1, m, c as int));
    match fat_entry_spec(dv1, m, c as int) {
        FatEntry::Cluster(n) => {
            let rest = chain_from(dv1, m, n, (fuel - 1) as nat)->Some_0;
            assert(ch == seq![c] + rest);
            assert(!rest.contains(changed as u32)) by {
                if rest.contains(changed as u32) {
                    let i = choose|i: int|
                        0 <= i < rest.len() && rest[i] == changed as u32;
                    assert(ch[i + 1] == changed as u32);
                    assert(ch.contains(changed as u32));
                }
            }
            lemma_chain_offchain_write(dv1, dv2, m, n, (fuel - 1) as nat, changed);
        }
        _ => {}
    }
}

/// A chain survives any change that keeps its own clusters' slot values.
pub proof fn lemma_chain_own_slots(dv1: Seq<Seq<u8>>, dv2: Seq<Seq<u8>>, m: MetaData, c: u32,
    fuel: nat)
    requires
        chain_from(dv1, m, c, fuel) is Some,
        forall|i: int|
            0 <= i < chain_from(dv1, m, c, fuel)->Some_0.len() ==> fat_val(dv2, m, (
            #[trigger] chain_from(dv1, m, c, fuel)->Some_0[i]) as int) == fat_val(dv1, m,
                chain_from(dv1, m, c, fuel)->Some_0[i] as int),
    ensures
        chain_from(dv2, m, c, fuel) == chain_from(dv1, m, c, fuel),
    decreases fuel,
{
    let s = chain_from(dv1, m, c, fuel)->Some_0;
    assert(s[0] == c);
    assert(fat_val(dv2, m, c as int) == fat_val(dv1, m, c as int));
    match fat_entry_spec(dv1, m, c as int) {
        FatEntry::Cluster(n) => {
            let rest = chain_from(dv1, m, n, (fuel - 1) as nat)->Some_0;
            assert(s == seq![c] + rest);
            assert forall|i: int|
                0 <= i < rest.len() implies fat_val(dv2, m, (#[trigger] rest[i]) as int)
                == fat_val(dv1, m, rest[i] as int) by {
                assert(s[i + 1] == rest[i]);
            }
            lemma_chain_own_slots(dv1, dv2, m, n, (fuel - 1) as nat);
        }
        _ => {}
    }
}

/// The sectors of a usable cluster map back to it.
pub proof fn lemma_sector_cluster_inverse(m: MetaData, u: int, s: int)
    requires
        m.wf(),
        2 <= u < spec_max_cluster(m),
        spec_cluster_to_sector(m, u) <= s,
        s < spec_cluster_to_sector(m, u) + m.sectors_per_cluster,
    ensures
        spec_root_dir_start(m) <= s,
        s < spec_cluster_to_sector(m, spec_max_cluster(m)),
        2 + (s - spec_root_dir_start(m)) / (m.sectors_per_cluster as int) == u,
{
    let spc = m.sectors_per_cluster as int;
    let rds = spec_root_dir_start(m);
    let d = s - rds;
    vstd::arithmetic::mul::lemma_mul_nonnegative(u - 2, spc);
    assert((u - 2) * spc <= d < (u - 2) * spc + spc);
    vstd::arithmetic::div_mod::lemma_fundamental_div_mod_converse(d, spc, u - 2, d - (u - 2)
        * spc);
    assert((u - 2 + 1) * spc == (u - 2) * spc + spc) by (nonlinear_arith);
    assert((spec_max_cluster(m) - 2) * spc >= (u - 1) * spc) by (nonlinear_arith)
        requires spec_max_cluster(m) - 2 >= u - 1, spc >= 1;
}

} // verus!
