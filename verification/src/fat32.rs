//! The filesystem facade: mount, root directory, sync.

use vstd::prelude::*;

use crate::dir::Dir;
use crate::disk::Disk;
use crate::layout::{chain_from, chain_of, spec_max_cluster, Fat, FatEntry, FsInfo, MetaData,
    BPB};
use crate::utils::{le16, le32, u16_from_le_bytes, u32_from_le_bytes, u32_to_le_bytes, BLOCK_SIZE};

verus! {

/// The BPB fields as they lie in sector 0.
pub open spec fn spec_parse_meta(sector0: Seq<u8>) -> MetaData {
    MetaData {
        bytes_per_sector: le16(sector0.subrange(0x0b, 0x0d)) as u16,
        sectors_per_cluster: sector0[0x0d],
        reserved_sectors: le16(sector0.subrange(0x0e, 0x10)) as u16,
        number_of_fats: sector0[0x10],
        total_sectors_32: le32(sector0.subrange(0x20, 0x24)) as u32,
        sectors_per_fat_32: le32(sector0.subrange(0x24, 0x28)) as u32,
        root_dir_cluster: le32(sector0.subrange(0x2c, 0x30)) as u32,
        fs_info_sector: le16(sector0.subrange(0x30, 0x32)) as u16,
    }
}

/// Everything mounting validates: sound geometry, an image of the stated
/// size, the three FSInfo signatures, and a terminated root chain.
pub open spec fn spec_mount_ok(dv: Seq<Seq<u8>>) -> bool {
    let m = spec_parse_meta(dv[0]);
    &&& dv.len() >= 1
    &&& m.wf()
    &&& dv.len() == m.total_sectors_32
    &&& le32(dv[m.fs_info_sector as int].subrange(0, 4)) == 0x41615252
    &&& le32(dv[m.fs_info_sector as int].subrange(484, 488)) == 0x61417272
    &&& le32(dv[m.fs_info_sector as int].subrange(508, 512)) == 0xaa550000
    &&& chain_of(dv, m, m.root_dir_cluster) is Some
}

/// A mounted volume: geometry, FAT manager, and the sector image.
pub struct Fat32 {
    pub meta: MetaData,
    pub fat: Fat,
    pub disk: Disk,
}

impl Fat32 {
    /// Sound geometry, matching FAT hints, and an image of the right size.
    pub open spec fn wf(&self) -> bool {
        &&& self.meta.wf()
        &&& self.fat.wf()
        &&& self.fat.meta == self.meta
        &&& self.disk.wf()
        &&& self.meta.disk_ok(self.disk@)
    }

    /// Whether the image holds a terminated cluster chain at `start`.
    pub fn check_chain(meta: &MetaData, disk: &Disk, start: u32) -> (r: bool)
        requires
            meta.wf(),
            disk.wf(),
            meta.disk_ok(disk@),
        ensures
            r == (chain_of(disk@, *meta, start) is Some),
    {
        // a throwaway manager: only its slot reads are wanted here
        let fat = Fat::new(*meta, &FsInfo {
            lead_signature: 0,
            struct_signature: 0,
            free_cluster_count: 0,
            next_free_cluster: 2,
            trail_signature: 0,
        });
        let max = Fat::max_cluster_exec(meta);
        let mut cur = start;
        let mut fuel: u32 = max;
        let ghost fuel0 = spec_max_cluster(*meta) as nat;
        loop
            invariant
                disk.wf(),
                meta.wf(),
                meta.disk_ok(disk@),
                fat.wf(),
                fat.meta == *meta,
                max == spec_max_cluster(*meta),
                fuel <= max,
                (chain_of(disk@, *meta, start) is Some) == (chain_from(disk@, *meta, cur,
                    fuel as nat) is Some),
            decreases fuel,
        {
            if !(2 <= cur && cur < max) {
                return false;
            }
            let e = fat.get_entry(disk, cur);
            match e {
                FatEntry::Eof => {
                    return true;
                }
                FatEntry::Cluster(n) => {
                    if fuel == 0 {
                        return false;
                    }
                    fuel = fuel - 1;
                    cur = n;
                }
                _ => {
                    return false;
                }
            }
        }
    }

    /// Mount: decode the BPB from sector 0, validate the geometry and the
    /// FSInfo signatures, adopt the FSInfo hints, and check the root
    /// directory's chain. Fails exactly when one of those checks fails.
    pub fn new(disk: Disk) -> (r: Result<Fat32, ()>)
        requires
            disk.wf(),
        ensures
            (r is Ok) == spec_mount_ok(disk@),
            match r {
                Ok(fs) => {
                    &&& fs.wf()
                    &&& disk@.len() >= 1
                    &&& fs.meta == spec_parse_meta(disk@[0])
                    &&& fs.disk@ == disk@
                    &&& chain_of(fs.disk@, fs.meta, fs.meta.root_dir_cluster) is Some
                    &&& fs.fat.total_free_cluster == le32(disk@[fs.meta.fs_info_sector as int
                        ].subrange(488, 492))
                },
                Err(_) => !spec_mount_ok(disk@),
            },
    {
        if disk.len() < 1 {
            return Err(());
        }
        let sector0 = disk.read_bytes(0, 0, BLOCK_SIZE);
        proof {
            assert(sector0@ =~= disk@[0]);
            assert(disk@[0].subrange(0x0b, 0x0d) =~= sector0@.subrange(0x0b, 0x0d));
        }
        let s0 = sector0.as_slice();
        let meta = MetaData {
            bytes_per_sector: u16_from_le_bytes(&s0[0x0b..0x0d]),
            sectors_per_cluster: s0[0x0d],
            reserved_sectors: u16_from_le_bytes(&s0[0x0e..0x10]),
            number_of_fats: s0[0x10],
            total_sectors_32: u32_from_le_bytes(&s0[0x20..0x24]),
            sectors_per_fat_32: u32_from_le_bytes(&s0[0x24..0x28]),
            root_dir_cluster: u32_from_le_bytes(&s0[0x2c..0x30]),
            fs_info_sector: u16_from_le_bytes(&s0[0x30..0x32]),
        };
        proof {
            assert(meta == spec_parse_meta(disk@[0]));
        }
        // geometry checks mirroring MetaData::wf
        if meta.bytes_per_sector != 512 {
            return Err(());
        }
        if meta.sectors_per_cluster < 1 || meta.sectors_per_cluster > 128 {
            return Err(());
        }
        if meta.reserved_sectors < 1 || meta.number_of_fats < 1 || meta.sectors_per_fat_32 < 1 {
            return Err(());
        }
        if meta.total_sectors_32 > 0x00FF_FFFF {
            return Err(());
        }
        proof {
            assert(meta.number_of_fats * meta.sectors_per_fat_32 <= 255 * 0xFFFFFFFFu64)
                by (nonlinear_arith)
                requires meta.number_of_fats <= 255, meta.sectors_per_fat_32 <= 0xFFFFFFFF;
        }
        let rds: u64 = meta.reserved_sectors as u64 + meta.number_of_fats as u64
            * meta.sectors_per_fat_32 as u64;
        if rds + meta.sectors_per_cluster as u64 > meta.total_sectors_32 as u64 {
            return Err(());
        }
        let max_cluster: u64 = 2 + (meta.total_sectors_32 as u64 - rds)
            / meta.sectors_per_cluster as u64;
        if !(2 <= meta.root_dir_cluster && (meta.root_dir_cluster as u64) < max_cluster) {
            return Err(());
        }
        if max_cluster * 4 > meta.sectors_per_fat_32 as u64 * 512 {
            return Err(());
        }
        if !((meta.fs_info_sector as u16) < meta.reserved_sectors) {
            return Err(());
        }
        proof {
            assert(meta.wf());
        }
        if disk.len() != meta.total_sectors_32 as usize {
            return Err(());
        }
        // FSInfo
        let info_bytes = disk.read_bytes(meta.fs_info_sector as usize, 0, BLOCK_SIZE);
        proof {
            let iv = disk@[meta.fs_info_sector as int];
            assert(info_bytes@ =~= iv);
            assert(iv.subrange(0, 4) =~= info_bytes@.subrange(0, 4));
            assert(iv.subrange(484, 488) =~= info_bytes@.subrange(484, 488));
            assert(iv.subrange(488, 492) =~= info_bytes@.subrange(488, 492));
            assert(iv.subrange(508, 512) =~= info_bytes@.subrange(508, 512));
        }
        let fs_info = FsInfo::new(info_bytes.as_slice());
        if !fs_info.is_valid() {
            return Err(());
        }
        let fat = Fat::new(meta, &fs_info);
        if !Self::check_chain(&meta, &disk, meta.root_dir_cluster) {
            return Err(());
        }
        Ok(Fat32 { meta, fat, disk })
    }

    /// A handle on the root directory, freshly loaded from the image.
    pub fn root_dir(&mut self) -> (r: Result<Dir, ()>)
        requires
            old(self).wf(),
        ensures
            *final(self) == *old(self),
            final(self).wf(),
            match r {
                Ok(d) => {
                    &&& d.wf()
                    &&& d.start_cluster == final(self).meta.root_dir_cluster
                    &&& (d.sector, d.offset) == (0usize, 0usize)
                    &&& ({
                        let ch = crate::layout::chain_of(old(self).disk@, old(self).meta,
                            old(self).meta.root_dir_cluster)->Some_0;
                        let st = crate::dir::decode_stream(old(self).disk@, old(self).meta,
                            ch, crate::dir::slot_count(old(self).meta, ch));
                        d.sub_dirs.view_map() == st.dirs && d.files.view_map() == st.files
                    })
                },
                Err(_) => !(chain_of(old(self).disk@, old(self).meta,
                    old(self).meta.root_dir_cluster) is Some),
            },
    {
        if !Self::check_chain(&self.meta, &self.disk, self.meta.root_dir_cluster) {
            return Err(());
        }
        let mut d = Dir::empty(self.meta.root_dir_cluster, 0, 0);
        d.load(self);
        Ok(d)
    }

    /// Write the advisory FAT statistics back into the FSInfo sector,
    /// signatures included. Nothing else on the image changes.
    pub fn sync(&mut self)
        requires
            old(self).wf(),
        ensures
            final(self).wf(),
            final(self).meta == old(self).meta,
            final(self).fat == old(self).fat,
            forall|s: int|
                0 <= s < old(self).disk@.len() && s != old(self).meta.fs_info_sector
                    ==> final(self).disk@[s] == old(self).disk@[s],
            le32(final(self).disk@[old(self).meta.fs_info_sector as int].subrange(488, 492))
                == final(self).fat.total_free_cluster,
            le32(final(self).disk@[old(self).meta.fs_info_sector as int].subrange(492, 496))
                == final(self).fat.next_free_cluster,
            le32(final(self).disk@[old(self).meta.fs_info_sector as int].subrange(0, 4))
                == 0x41615252,
            le32(final(self).disk@[old(self).meta.fs_info_sector as int].subrange(484, 488))
                == 0x61417272,
            le32(final(self).disk@[old(self).meta.fs_info_sector as int].subrange(508, 512))
                == 0xaa550000,
    {
        let sector = self.meta.fs_info_sector as usize;
        let lead = u32_to_le_bytes(0x41615252);
        self.disk.write_bytes(sector, 0, lead.as_slice());
        let sig = u32_to_le_bytes(0x61417272);
        self.disk.write_bytes(sector, 484, sig.as_slice());
        let free = u32_to_le_bytes(self.fat.total_free_cluster);
        self.disk.write_bytes(sector, 488, free.as_slice());
        let next = u32_to_le_bytes(self.fat.next_free_cluster);
        self.disk.write_bytes(sector, 492, next.as_slice());
        let trail = u32_to_le_bytes(0xaa550000);
        self.disk.write_bytes(sector, 508, trail.as_slice());
        proof {
            assert(self.disk@[sector as int].subrange(488, 492) =~= free@);
            assert(self.disk@[sector as int].subrange(492, 496) =~= next@);
            assert(self.disk@[sector as int].subrange(0, 4) =~= lead@);
            assert(self.disk@[sector as int].subrange(484, 488) =~= sig@);
            assert(self.disk@[sector as int].subrange(508, 512) =~= trail@);
        }
    }

    /// The image, for the embedder to store.
    pub fn into_disk(self) -> (r: Disk)
        ensures
            r == self.disk,
    {
        self.disk
    }
}

} // verus!
