//! Directory and file engine: loading children, creating, deleting and
//! renaming names, and file I/O over cluster chains.

use vstd::prelude::*;

use crate::disk::{splice, Disk};
use crate::entry::{ascii_bytes, has_surrogate, is_dot_name, is_surrogate, matches_units,
    spec_checksum, spec_ext, spec_name_frags, spec_stem, str_to_units, str_units,
    ucs2_to_string, FullLoongEntry, LongEntry, ShortEntry, ATTR_ALL, ATTR_ARCHIVE,
    ATTR_DIRECTORY, ATTR_LONG_NAME};
use crate::fat32::Fat32;
use crate::layout::{chain_of, fat_entry_spec, lemma_cluster_sectors_in_range, spec_bytes_per_cluster, spec_cluster_to_sector,
    spec_max_cluster, spec_root_dir_start, Fat, FatEntry, MetaData, BPB};
use crate::namemap::NameMap;
use crate::entry::spec_group_units;
use crate::utils::{le16, le32, u32_from_le_bytes, BLOCK_SIZE};

verus! {

/// What kind of directory entry an operation concerns. `Dot` and `DotDot`
/// are the synthetic "." and ".." entries of a non-root directory.
#[derive(Debug, Clone, Copy, PartialEq, Eq, Structural)]
pub enum DirEntryType {
    Dot,
    DotDot,
    File,
    Dir,
}

/// Errors surfaced by the directory and file operations.
#[derive(Debug, Clone, Copy, PartialEq, Eq, Structural)]
pub enum OperationError {
    NoEnoughSpace,
    FileNotFound,
    FileExist,
    DirExist,
    DirNotFound,
    OffsetOutOfSize,
    InvalidDirName,
    NotFound,
}

/// A file handle: its first cluster and the address of its short entry.
#[derive(Debug, Clone, Copy, PartialEq, Eq, Structural)]
pub struct File {
    pub start_cluster: u32,
    pub sector: usize,
    pub offset: usize,
}

/// A child directory as its parent records it.
#[derive(Debug, Clone, Copy, PartialEq, Eq, Structural)]
pub struct ChildDir {
    pub start_cluster: u32,
    pub sector: usize,
    pub offset: usize,
}

/// A name the directory API accepts: 1 to 255 characters of the basic
/// multilingual plane, none NUL.
pub open spec fn valid_name_str(s: Seq<char>) -> bool {
    1 <= s.len() <= 255 && forall|i: int| 0 <= i < s.len() ==> 0 < ((#[trigger] s[i]) as u32)
        < 0x10000
}

/// The same condition on code units.
pub open spec fn valid_name_units(u: Seq<u16>) -> bool {
    1 <= u.len() <= 255 && forall|i: int| 0 <= i < u.len() ==> 0 < (#[trigger] u[i])
}

/// Reading 32 bytes at (sector, offset) yields a short entry whose start
/// cluster is `cluster`: the address a parent records for a child is
/// consistent with what lies there.
pub open spec fn valid_child(dv: Seq<Seq<u8>>, m: MetaData, cluster: u32, sector: int,
    offset: int) -> bool {
    &&& spec_root_dir_start(m) <= sector < dv.len()
    &&& 0 <= offset
    &&& offset % 32 == 0
    &&& offset + 32 <= 512
    &&& le16(dv[sector].subrange(offset + 20, offset + 22)) * 0x10000 + le16(dv[sector].subrange(
        offset + 26, offset + 28)) == cluster
}

/// A directory handle: its start cluster, the address of its own short
/// entry in its parent (the root uses (0, 0)), and the loaded children.
pub struct Dir {
    pub start_cluster: u32,
    pub sector: usize,
    pub offset: usize,
    pub sub_dirs: NameMap<ChildDir>,
    pub files: NameMap<File>,
}

impl Dir {
    /// The children maps hold distinct names.
    pub open spec fn wf(&self) -> bool {
        self.sub_dirs.wf() && self.files.wf()
    }

    /// Every loaded child's recorded address decodes to its start cluster.
    pub open spec fn children_on_disk(&self, dv: Seq<Seq<u8>>, m: MetaData) -> bool {
        &&& forall|k: Seq<u16>|
            #[trigger] self.sub_dirs.view_map().contains_key(k) ==> valid_child(dv, m,
                self.sub_dirs.view_map()[k].start_cluster,
                self.sub_dirs.view_map()[k].sector as int,
                self.sub_dirs.view_map()[k].offset as int)
        &&& forall|k: Seq<u16>|
            #[trigger] self.files.view_map().contains_key(k) ==> valid_child(dv, m,
                self.files.view_map()[k].start_cluster, self.files.view_map()[k].sector as int,
                self.files.view_map()[k].offset as int)
    }

    /// A handle with nothing loaded.
    pub fn empty(start_cluster: u32, sector: usize, offset: usize) -> (r: Dir)
        ensures
            r.wf(),
            r.start_cluster == start_cluster,
            r.sector == sector,
            r.offset == offset,
            r.sub_dirs.view_map() == Map::<Seq<u16>, ChildDir>::empty(),
            r.files.view_map() == Map::<Seq<u16>, File>::empty(),
    {
        Dir {
            start_cluster,
            sector,
            offset,
            sub_dirs: NameMap::new(),
            files: NameMap::new(),
        }
    }

    /// A freshly loaded handle.
    pub fn new(fs: &Fat32, start_cluster: u32, sector: usize, offset: usize) -> (r: Dir)
        requires
            fs.wf(),
            chain_of(fs.disk@, fs.meta, start_cluster) is Some,
        ensures
            r.wf(),
            r.children_on_disk(fs.disk@, fs.meta),
            r.start_cluster == start_cluster,
            r.sector == sector,
            r.offset == offset,
            ({
                let ch = chain_of(fs.disk@, fs.meta, start_cluster)->Some_0;
                let st = decode_stream(fs.disk@, fs.meta, ch, slot_count(fs.meta, ch));
                r.sub_dirs.view_map() == st.dirs && r.files.view_map() == st.files
            }),
    {
        let mut d = Dir::empty(start_cluster, sector, offset);
        d.load(fs);
        d
    }

    /// The sectors of this directory's cluster chain, in chain order.
    pub fn clusters_to_sectors(&self, fs: &Fat32) -> (r: Vec<usize>)
        requires
            fs.wf(),
            chain_of(fs.disk@, fs.meta, self.start_cluster) is Some,
        ensures
            ({
                let ch = chain_of(fs.disk@, fs.meta, self.start_cluster)->Some_0;
                let spc = fs.meta.sectors_per_cluster as int;
                &&& r@.len() == ch.len() * spc
                &&& forall|i: int| 0 <= i < r@.len() ==> (#[trigger] r@[i]) as int
                    == spec_cluster_to_sector(fs.meta, ch[i / spc] as int) + (i % spc)
                &&& forall|i: int| 0 <= i < r@.len() ==> spec_root_dir_start(fs.meta)
                    <= ((#[trigger] r@[i]) as int) && (r@[i] as int) < fs.disk@.len()
            }),
    {
        let ghost m = fs.meta;
        let ghost ch = chain_of(fs.disk@, fs.meta, self.start_cluster)->Some_0;
        let chain = fs.fat.get_cluster_chain(&fs.disk, self.start_cluster);
        proof {
            crate::layout::lemma_chain_from_props(fs.disk@, m, self.start_cluster,
                spec_max_cluster(m) as nat);
        }
        let spc = fs.meta.sectors_per_cluster as usize;
        let mut r: Vec<usize> = Vec::new();
        let mut ci: usize = 0;
        while ci < chain.len()
            invariant
                fs.wf(),
                m == fs.meta,
                chain@ == ch,
                forall|i: int| 0 <= i < ch.len() ==> 2 <= #[trigger] ch[i] < spec_max_cluster(m),
                spc == m.sectors_per_cluster,
                ci <= ch.len(),
                r@.len() == ci * spc,
                forall|i: int| 0 <= i < r@.len() ==> (#[trigger] r@[i]) as int
                    == spec_cluster_to_sector(m, ch[i / (spc as int)] as int) + (i % (spc as int)),
                forall|i: int| 0 <= i < r@.len() ==> spec_root_dir_start(m)
                    <= ((#[trigger] r@[i]) as int) && (r@[i] as int) < fs.disk@.len(),
            decreases ch.len() - ci,
        {
            let first = fs.meta.cluster_to_sector(chain[ci]);
            proof {
                crate::layout::lemma_cluster_sectors_in_range(m, ch[ci as int] as int);
            }
            let mut j: usize = 0;
            while j < spc
                invariant
                    fs.wf(),
                    m == fs.meta,
                    chain@ == ch,
                    forall|i: int| 0 <= i < ch.len() ==> 2 <= #[trigger] ch[i]
                        < spec_max_cluster(m),
                    spc == m.sectors_per_cluster,
                    ci < ch.len(),
                    first as int == spec_cluster_to_sector(m, ch[ci as int] as int),
                    first + spc <= fs.disk@.len(),
                    spec_root_dir_start(m) <= first as int,
                    j <= spc,
                    r@.len() == ci * spc + j,
                    forall|i: int| 0 <= i < r@.len() ==> (#[trigger] r@[i]) as int
                        == spec_cluster_to_sector(m, ch[i / (spc as int)] as int) + (i % (
                        spc as int)),
                    forall|i: int| 0 <= i < r@.len() ==> spec_root_dir_start(m)
                        <= ((#[trigger] r@[i]) as int) && (r@[i] as int) < fs.disk@.len(),
                decreases spc - j,
            {
                r.push(first + j);
                j += 1;
                proof {
                    let i = r@.len() - 1;
                    assert(i == ci * spc + (j - 1));
                    vstd::arithmetic::div_mod::lemma_fundamental_div_mod_converse(
                        i, spc as int, ci as int, j - 1);
                }
            }
            proof {
                assert((ci + 1) * spc == ci * spc + spc) by (nonlinear_arith);
            }
            ci += 1;
        }
        proof {
            assert(r@.len() == ch.len() * spc);
        }
        r
    }

    /// Read this directory's entry stream and fill the children maps.
    ///
    /// Walks the chain sector by sector: a first byte of 0x00 ends the
    /// stream, 0xE5 and 0x05 mark deleted slots, long entries accumulate,
    /// and each short entry closes a name, which is bound in the matching
    /// map to the decoded start cluster and the slot's address. Names with
    /// surrogate units are skipped, as are names this design cannot spell.
    #[verifier::rlimit(100)]
    #[verifier::spinoff_prover]
    pub fn load(&mut self, fs: &Fat32)
        requires
            fs.wf(),
            chain_of(fs.disk@, fs.meta, old(self).start_cluster) is Some,
            old(self).wf(),
        ensures
            final(self).wf(),
            final(self).children_on_disk(fs.disk@, fs.meta),
            final(self).start_cluster == old(self).start_cluster,
            final(self).sector == old(self).sector,
            final(self).offset == old(self).offset,
            ({
                let ch = chain_of(fs.disk@, fs.meta, old(self).start_cluster)->Some_0;
                let st = decode_stream(fs.disk@, fs.meta, ch, slot_count(fs.meta, ch));
                final(self).sub_dirs.view_map() == st.dirs && final(self).files.view_map()
                    == st.files
            }),
    {
        self.sub_dirs = NameMap::new();
        self.files = NameMap::new();
        let sectors = self.clusters_to_sectors(fs);
        let mut full = FullLoongEntry::new();
        let mut si: usize = 0;
        let ghost m = fs.meta;
        let ghost ch = chain_of(fs.disk@, m, old(self).start_cluster)->Some_0;
        let ghost spc = fs.meta.sectors_per_cluster as int;
        let ghost nslots = slot_count(m, ch);
        proof {
            crate::layout::lemma_chain_from_props(fs.disk@, m, old(self).start_cluster,
                spec_max_cluster(m) as nat);
            assert(16 * sectors@.len() == nslots) by (nonlinear_arith)
                requires sectors@.len() == ch.len() * spc, nslots == ch.len() * spc * 16;
            assert(self.sub_dirs.view_map() =~= decode_stream(fs.disk@, m, ch, 0).dirs);
            assert(self.files.view_map() =~= decode_stream(fs.disk@, m, ch, 0).files);
            assert(full.spec_group() =~= decode_stream(fs.disk@, m, ch, 0).pending);
        }
        let ghost mut kfin: int = 0;
        let mut stop = false;
        while si < sectors.len()
            invariant
                fs.wf(),
                m == fs.meta,
                spc == m.sectors_per_cluster,
                self.wf(),
                full.wf(),
                self.children_on_disk(fs.disk@, m),
                self.start_cluster == old(self).start_cluster,
                self.sector == old(self).sector,
                self.offset == old(self).offset,
                si <= sectors@.len(),
                ch == chain_of(fs.disk@, m, old(self).start_cluster)->Some_0,
                forall|i: int| 0 <= i < ch.len() ==> 2 <= #[trigger] ch[i]
                    < spec_max_cluster(m),
                sectors@.len() == ch.len() * spc,
                16 * sectors@.len() == nslots,
                nslots == slot_count(m, ch),
                forall|i: int| 0 <= i < sectors@.len() ==> (#[trigger] sectors@[i]) as int
                    == spec_cluster_to_sector(m, ch[i / spc] as int) + (i % spc),
                forall|i: int| 0 <= i < sectors@.len() ==> spec_root_dir_start(m)
                    <= ((#[trigger] sectors@[i]) as int) && (sectors@[i] as int)
                    < fs.disk@.len(),
                !stop ==> {
                    let st = decode_stream(fs.disk@, m, ch, 16 * si);
                    &&& self.sub_dirs.view_map() == st.dirs
                    &&& self.files.view_map() == st.files
                    &&& full.spec_group() == st.pending
                    &&& !st.done
                },
                stop ==> {
                    let st = decode_stream(fs.disk@, m, ch, kfin);
                    &&& 0 <= kfin <= nslots
                    &&& st.done
                    &&& self.sub_dirs.view_map() == st.dirs
                    &&& self.files.view_map() == st.files
                },
            ensures
                !stop ==> si == sectors@.len(),
            decreases sectors@.len() - si,
        {
            if stop {
                break;
            }
            let sector = sectors[si];
            let mut ei: usize = 0;
            while ei < 16
                invariant
                    fs.wf(),
                    m == fs.meta,
                    spc == m.sectors_per_cluster,
                    self.wf(),
                    full.wf(),
                    self.children_on_disk(fs.disk@, m),
                    self.start_cluster == old(self).start_cluster,
                    self.sector == old(self).sector,
                    self.offset == old(self).offset,
                    ei <= 16,
                    si < sectors@.len(),
                    sector == sectors@[si as int],
                    ch == chain_of(fs.disk@, m, old(self).start_cluster)->Some_0,
                    forall|i: int| 0 <= i < ch.len() ==> 2 <= #[trigger] ch[i]
                        < spec_max_cluster(m),
                    sectors@.len() == ch.len() * spc,
                    16 * sectors@.len() == nslots,
                    nslots == slot_count(m, ch),
                    forall|i: int| 0 <= i < sectors@.len() ==> (#[trigger] sectors@[i]) as int
                        == spec_cluster_to_sector(m, ch[i / spc] as int) + (i % spc),
                    forall|i: int| 0 <= i < sectors@.len() ==> spec_root_dir_start(m)
                        <= ((#[trigger] sectors@[i]) as int) && (sectors@[i] as int)
                        < fs.disk@.len(),
                    !stop ==> {
                        let st = decode_stream(fs.disk@, m, ch, 16 * si + ei);
                        &&& self.sub_dirs.view_map() == st.dirs
                        &&& self.files.view_map() == st.files
                        &&& full.spec_group() == st.pending
                        &&& !st.done
                    },
                    stop ==> {
                        let st = decode_stream(fs.disk@, m, ch, kfin);
                        &&& 0 <= kfin <= nslots
                        &&& st.done
                        &&& self.sub_dirs.view_map() == st.dirs
                        &&& self.files.view_map() == st.files
                    },
                ensures
                    !stop ==> ei == 16,
                decreases 16 - ei,
            {
                if stop {
                    break;
                }
                let ghost k = 16 * si + ei;
                proof {
                    assert(k < nslots) by (nonlinear_arith)
                        requires k == 16 * si + ei, ei < 16, si < sectors@.len(),
                            16 * sectors@.len() == nslots;
                    lemma_slot_addr(m, ch, k);
                    vstd::arithmetic::div_mod::lemma_fundamental_div_mod_converse(k, 16,
                        si as int, ei as int);
                    assert(slot_sector(m, ch, k) == sector as int);
                    assert(slot_off(m, k) == 32 * ei);
                }
                let off = ei * 32;
                let bytes = fs.disk.read_bytes(sector, off, 32);
                let b = bytes.as_slice();
                proof {
                    assert(bytes@ =~= slot_bytes(fs.disk@, m, ch, k));
                    assert(decode_stream(fs.disk@, m, ch, k + 1) == decode_step(
                        decode_stream(fs.disk@, m, ch, k), slot_bytes(fs.disk@, m, ch, k),
                        slot_sector(m, ch, k), slot_off(m, k)));
                }
                if b[0] == 0x00 {
                    stop = true;
                    proof {
                        kfin = k + 1;
                    }
                    break;
                } else if b[0] == 0xE5 || b[0] == 0x05 {
                    // deleted slot: skip
                } else if b[11] & ATTR_LONG_NAME == ATTR_LONG_NAME {
                    let le = LongEntry::from_buffer(b);
                    full.push(le);
                    proof {
                        assert(le.spec_units() =~= long_frag_of(bytes@).1);
                        assert(le.spec_frag() == long_frag_of(bytes@));
                        assert(full.spec_group() =~= decode_stream(fs.disk@, m, ch, k
                            + 1).pending);
                    }
                } else {
                    let se = ShortEntry::from_buffer(b);
                    let ghost st = decode_stream(fs.disk@, m, ch, k);
                    let have_longs = full.len() > 0;
                    let units = if have_longs {
                        full.filename_units()
                    } else {
                        se.filename_units()
                    };
                    proof {
                        if have_longs {
                            assert(units@ == spec_group_units(st.pending));
                        } else {
                            assert(st.pending.len() == 0);
                            assert(se.name@ =~= bytes@.subrange(0, 8));
                            assert(se.ext@ =~= bytes@.subrange(8, 11));
                            assert(se.spec_display_bytes() == {
                                let nm = crate::entry::name_prefix(bytes@.subrange(0, 8));
                                if bytes@[8] != 0x20u8 {
                                    nm + seq![0x2Eu8] + crate::entry::name_prefix(
                                        bytes@.subrange(8, 11))
                                } else {
                                    nm
                                }
                            });
                            assert(units@ =~= short_display_units_of(bytes@));
                        }
                    }
                    full.clear();
                    let cluster = se.start_cluster();
                    proof {
                        assert(bytes@ == fs.disk@[sector as int].subrange(off as int,
                            off + 32));
                        assert(fs.disk@[sector as int].subrange(off + 20, off + 22)
                            =~= bytes@.subrange(20, 22));
                        assert(fs.disk@[sector as int].subrange(off + 26, off + 28)
                            =~= bytes@.subrange(26, 28));
                        assert(valid_child(fs.disk@, m, cluster, sector as int, off as int));
                    }
                    if !has_surrogate(&units) && units.len() > 0 {
                        proof {
                            assert(decode_name_ok(units@));
                        }
                        if se.attr() & ATTR_DIRECTORY != 0 {
                            proof {
                                let a = bytes@[11];
                                assert((a & ATTR_ALL) & ATTR_DIRECTORY == a
                                    & ATTR_DIRECTORY) by (bit_vector);
                            }
                            self.sub_dirs.insert(units, ChildDir {
                                start_cluster: cluster,
                                sector,
                                offset: off,
                            });
                        } else {
                            proof {
                                let a = bytes@[11];
                                assert((a & ATTR_ALL) & ATTR_DIRECTORY == a
                                    & ATTR_DIRECTORY) by (bit_vector);
                            }
                            self.files.insert(units, File {
                                start_cluster: cluster,
                                sector,
                                offset: off,
                            });
                        }
                    } else {
                        proof {
                            assert(!decode_name_ok(units@));
                        }
                    }
                }
                proof {
                    if !stop {
                        let stn = decode_stream(fs.disk@, m, ch, k + 1);
                        assert(self.sub_dirs.view_map() == stn.dirs);
                        assert(self.files.view_map() == stn.files);
                        assert(full.spec_group() == stn.pending);
                        assert(!stn.done);
                    }
                }
                ei += 1;
            }
            si += 1;
        }
        proof {
            if stop {
                lemma_decode_frozen(fs.disk@, m, ch, kfin, nslots);
            }
        }
    }

    /// The count of loaded children of the given kind whose names start
    /// with the stem of `b`.
    pub open spec fn spec_sibling_count(&self, b: Seq<u8>, dtype: DirEntryType) -> int {
        1 + (if dtype == DirEntryType::Dir {
            crate::namemap::count_prefixed(self.sub_dirs.entries@, widen_bytes(spec_stem(b)))
        } else if dtype == DirEntryType::File {
            crate::namemap::count_prefixed(self.files.entries@, widen_bytes(spec_stem(b)))
        } else {
            0int
        })
    }

    /// Byte-level core of the short-name computation.
    pub fn short_name_bytes(&self, b: &Vec<u8>, dtype: DirEntryType) -> (r: Vec<u8>)
        requires
            self.wf(),
        ensures
            r@ == spec_short_name_bytes(b@, self.spec_sibling_count(b@, dtype)),
    {
        let n = b.len();
        let is_dot = n == 1 && b[0] == 0x2E;
        let is_dotdot = n == 2 && b[0] == 0x2E && b[1] == 0x2E;
        if is_dot || is_dotdot {
            proof {
                if is_dot {
                    assert(b@ =~= seq![0x2Eu8]);
                } else {
                    assert(b@ =~= seq![0x2Eu8, 0x2Eu8]);
                }
            }
            let r: Vec<u8> = vstd::slice::slice_to_vec(b.as_slice());
            return r;
        }
        proof {
            assert(!is_dot_name(b@)) by {
                if b@ == seq![0x2Eu8] {
                    assert(n == 1 && b@[0] == 0x2Eu8);
                }
                if b@ == seq![0x2Eu8, 0x2Eu8] {
                    assert(n == 2 && b@[0] == 0x2Eu8 && b@[1] == 0x2Eu8);
                }
            }
        }
        let dot = find_dot(b);
        let stem: Vec<u8> = vstd::slice::slice_to_vec(&b.as_slice()[0..dot]);
        let ext: Vec<u8> = if dot < n {
            vstd::slice::slice_to_vec(&b.as_slice()[dot + 1..n])
        } else {
            Vec::new()
        };
        proof {
            assert(stem@ =~= spec_stem(b@));
            if dot < n {
                assert(ext@ =~= spec_ext(b@));
            } else {
                if crate::entry::has_dot(b@) {
                    crate::entry::lemma_last_dot_bounds(b@);
                }
                assert(ext@ =~= spec_ext(b@));
            }
        }
        let mut short: Vec<u8>;
        let ghost cnt_g = self.spec_sibling_count(b@, dtype);
        if stem.len() > 8 {
            let stem_units = crate::entry::bytes_to_units(&stem);
            proof {
                assert(stem_units@ =~= widen_bytes(spec_stem(b@)));
            }
            let cnt: u128 = 1 + (if dtype == DirEntryType::Dir {
                self.sub_dirs.count_with_prefix(&stem_units)
            } else if dtype == DirEntryType::File {
                self.files.count_with_prefix(&stem_units)
            } else {
                0
            }) as u128;
            let num = dec_bytes(cnt);
            let keep: usize = if num.len() < 7 {
                8 - num.len() - 1
            } else {
                0
            };
            short = vstd::slice::slice_to_vec(&stem.as_slice()[0..keep]);
            short.push(0x7E);
            let mut numv = num;
            short.append(&mut numv);
            proof {
                assert(cnt == cnt_g);
                assert(short@ =~= spec_stem(b@).take(spec_keep_len(spec_dec_bytes(
                    cnt_g).len() as int)) + seq![0x7Eu8] + spec_dec_bytes(cnt_g));
            }
        } else {
            short = stem;
        }
        if ext.len() > 0 {
            short.push(0x2E);
            let mut extv = ext;
            short.append(&mut extv);
        }
        if short.len() > 12 {
            short.truncate(12);
        }
        proof {
            assert(short@ =~= spec_short_name_bytes(b@, cnt_g));
        }
        short
    }

    /// The 8.3-style name used for a new child: short stems are kept; a
    /// long stem is cut down to `stem~N`, where N counts the loaded
    /// siblings of the same kind whose names start with the stem.
    pub fn name_to_short_name(&self, name: &str, dtype: DirEntryType) -> (r: String)
        requires
            self.wf(),
            valid_name_str(name@),
        ensures
            matches_units(r@, widen_bytes(spec_short_name_bytes(narrow_units(str_units(
                name@)), self.spec_sibling_count(narrow_units(str_units(name@)), dtype)))),
    {
        let units = match str_to_units(name) {
            Some(u) => u,
            None => {
                proof {
                    assert(false);
                }
                Vec::new()
            }
        };
        let b = narrow_units_exec(&units);
        proof {
            assert(b@ =~= narrow_units(str_units(name@)));
        }
        let short = self.short_name_bytes(&b, dtype);
        let wide = crate::entry::bytes_to_units(&short);
        proof {
            assert(wide@ =~= widen_bytes(spec_short_name_bytes(b@, self.spec_sibling_count(b@,
                dtype))));
        }
        match ucs2_to_string(&wide) {
            Some(s2) => s2,
            None => {
                proof {
                    assert(false);
                }
                String::new()
            }
        }
    }

    /// Build the short entry and long-entry group for a new name. Every
    /// long entry carries the short entry's checksum, and "." and ".."
    /// get no long entries.
    pub fn make_entry(&self, name: &str, short_name: &str, start_cluster: u32,
        dtype: DirEntryType) -> (r: Result<(ShortEntry, FullLoongEntry), OperationError>)
        requires
            valid_name_str(name@),
            vstd::string::is_ascii(short_name),
        ensures
            r is Ok,
            ({
                let (se, fle) = r->Ok_0;
                &&& se.wf()
                &&& fle.wf()
                &&& se.name@ == crate::entry::spec_name_field(ascii_bytes(short_name@))
                &&& se.ext@ == crate::entry::spec_ext_field(ascii_bytes(short_name@))
                &&& se.attr == (if dtype == DirEntryType::File {
                    ATTR_ARCHIVE
                } else {
                    ATTR_DIRECTORY
                })
                &&& crate::entry::spec_start_cluster(se.cluster_high, se.cluster_low)
                    == start_cluster
                &&& se.file_size == 0
                &&& (dtype == DirEntryType::Dot || dtype == DirEntryType::DotDot
                    ==> fle.entries@.len() == 0)
                &&& (dtype == DirEntryType::Dir || dtype == DirEntryType::File ==> {
                    &&& fle.spec_group() == spec_name_frags(str_units(name@))
                    &&& forall|i: int|
                        0 <= i < fle.entries@.len() ==> (#[trigger] fle.entries@[i]).checksum
                            == spec_checksum(se.name@ + se.ext@)
                })
            }),
    {
        let attr: u8 = if dtype == DirEntryType::File {
            ATTR_ARCHIVE
        } else {
            ATTR_DIRECTORY
        };
        let short_entry = ShortEntry::new(short_name, attr, start_cluster);
        proof {
            assert((attr & crate::entry::ATTR_ALL) == attr) by (bit_vector)
                requires attr == 0x20u8 || attr == 0x10u8;
        }
        let full_long_entry = match dtype {
            DirEntryType::Dot | DirEntryType::DotDot => FullLoongEntry::new(),
            _ => {
                let units = match str_to_units(name) {
                    Some(u) => u,
                    None => {
                        proof {
                            assert(false);
                        }
                        Vec::new()
                    }
                };
                let cs = short_entry.checksum();
                FullLoongEntry::from_file_name(&units, cs)
            }
        };
        Ok((short_entry, full_long_entry))
    }

    /// Unit-level core of entry construction.
    fn make_entry_units(units: &Vec<u16>, short_bytes: &Vec<u8>, start_cluster: u32,
        dtype: DirEntryType) -> (r: (ShortEntry, FullLoongEntry))
        requires
            dtype == DirEntryType::Dir || dtype == DirEntryType::File ==> 1 <= units@.len()
                <= 255,
        ensures
            ({
                let (se, fle) = r;
                &&& se.wf()
                &&& fle.wf()
                &&& se.name@ == crate::entry::spec_name_field(short_bytes@)
                &&& se.ext@ == crate::entry::spec_ext_field(short_bytes@)
                &&& se.attr == (if dtype == DirEntryType::File {
                    ATTR_ARCHIVE
                } else {
                    ATTR_DIRECTORY
                })
                &&& crate::entry::spec_start_cluster(se.cluster_high, se.cluster_low)
                    == start_cluster
                &&& se.file_size == 0
                &&& (dtype == DirEntryType::Dot || dtype == DirEntryType::DotDot
                    ==> fle.entries@.len() == 0)
                &&& fle.entries@.len() <= 20
                &&& (dtype == DirEntryType::Dir || dtype == DirEntryType::File ==> {
                    &&& fle.spec_group() == spec_name_frags(units@)
                    &&& forall|i: int|
                        0 <= i < fle.entries@.len() ==> (#[trigger] fle.entries@[i]).checksum
                            == spec_checksum(se.name@ + se.ext@)
                })
            }),
    {
        let attr: u8 = if dtype == DirEntryType::File {
            ATTR_ARCHIVE
        } else {
            ATTR_DIRECTORY
        };
        let short_entry = ShortEntry::from_name_bytes(short_bytes.as_slice(), attr,
            start_cluster);
        proof {
            assert((attr & crate::entry::ATTR_ALL) == attr) by (bit_vector)
                requires attr == 0x20u8 || attr == 0x10u8;
        }
        let full_long_entry = match dtype {
            DirEntryType::Dot | DirEntryType::DotDot => FullLoongEntry::new(),
            _ => {
                let cs = short_entry.checksum();
                FullLoongEntry::from_file_name(units, cs)
            }
        };
        proof {
            if dtype == DirEntryType::Dir || dtype == DirEntryType::File {
                crate::entry::lemma_group_count(units@.len() as int);
            }
        }
        (short_entry, full_long_entry)
    }

    /// Allocate entry slots in this directory and write a new child's
    /// entry group there; hands back the short entry's address.
    fn add_child_entries(&self, fs: &mut Fat32, units: &Vec<u16>, short_bytes: &Vec<u8>,
        cluster: u32, dtype: DirEntryType) -> (r: Result<(usize, usize), OperationError>)
        requires
            old(fs).wf(),
            chain_of(old(fs).disk@, old(fs).meta, self.start_cluster) is Some,
            dtype == DirEntryType::Dir || dtype == DirEntryType::File ==> 1 <= units@.len()
                <= 255,
        ensures
            final(fs).wf(),
            final(fs).meta == old(fs).meta,
            final(fs).disk@.len() == old(fs).disk@.len(),
            chain_of(final(fs).disk@, final(fs).meta, self.start_cluster) is Some,
            forall|c2: int|
                0 <= c2 < spec_max_cluster(old(fs).meta) && !((#[trigger] fat_entry_spec(
                    old(fs).disk@, old(fs).meta, c2)) is Free) && !chain_of(old(fs).disk@,
                    old(fs).meta, self.start_cluster)->Some_0.contains(c2 as u32) ==> {
                    &&& crate::layout::fat_val(final(fs).disk@, old(fs).meta, c2)
                        == crate::layout::fat_val(old(fs).disk@, old(fs).meta, c2)
                    &&& !chain_of(final(fs).disk@, old(fs).meta,
                        self.start_cluster)->Some_0.contains(c2 as u32)
                },
            forall|sp: int|
                spec_root_dir_start(old(fs).meta) <= sp < old(fs).disk@.len()
                    && !in_chain_sectors(old(fs).meta, chain_of(final(fs).disk@, old(fs).meta,
                    self.start_cluster)->Some_0, sp) ==> #[trigger] final(fs).disk@[sp]
                    == old(fs).disk@[sp],
            forall|i: int|
                0 <= i < chain_of(old(fs).disk@, old(fs).meta,
                    self.start_cluster)->Some_0.len() ==> chain_of(final(fs).disk@,
                    old(fs).meta, self.start_cluster)->Some_0.contains(#[trigger] chain_of(
                    old(fs).disk@, old(fs).meta, self.start_cluster)->Some_0[i]),
            match r {
                Ok(addr) => {
                    &&& valid_child(final(fs).disk@, old(fs).meta, cluster, addr.0 as int,
                        addr.1 as int)
                    &&& spec_size(final(fs).disk@, File {
                        start_cluster: 0,
                        sector: addr.0,
                        offset: addr.1,
                    }) == 0
                    &&& spec_root_dir_start(old(fs).meta) <= (addr.0 as int) && (
                    addr.0 as int) < final(fs).disk@.len()
                    &&& addr.1 % 32 == 0 && addr.1 + 32 <= 512
                    &&& in_chain_sectors(old(fs).meta, chain_of(final(fs).disk@, old(fs).meta,
                        self.start_cluster)->Some_0, addr.0 as int)
                    &&& final(fs).disk@[addr.0 as int][addr.1 + 11] == (
                    if dtype == DirEntryType::File {
                        ATTR_ARCHIVE
                    } else {
                        ATTR_DIRECTORY
                    })
                },
                Err(e) => e == OperationError::NoEnoughSpace,
            },
            r is Err ==> final(fs).fat.total_free_cluster == 0 || forall|c2: int|
                2 <= c2 < spec_max_cluster(old(fs).meta) ==> !((#[trigger] fat_entry_spec(
                    final(fs).disk@, old(fs).meta, c2)) is Free),
    {
        let ghost m = fs.meta;
        let ghost dv0 = fs.disk@;
        let (short_entry, full_long_entry) = Self::make_entry_units(units, short_bytes,
            cluster, dtype);
        let need = full_long_entry.len() + 1;
        let targets = match self.find_enough_entry(fs, need) {
            Ok(t) => t,
            Err(e) => {
                return Err(e);
            }
        };
        let ghost dv1 = fs.disk@;
        let addr = match self.write_entries(fs, &short_entry, &full_long_entry, &targets) {
            Ok(a) => a,
            Err(e) => {
                return Err(e);
            }
        };
        proof {
            assert forall|c2: int|
                0 <= c2 < spec_max_cluster(m) && !((#[trigger] fat_entry_spec(dv0, m,
                    c2)) is Free) && !chain_of(dv0, m, self.start_cluster)->Some_0.contains(
                    c2 as u32) implies crate::layout::fat_val(fs.disk@, m, c2)
                == crate::layout::fat_val(dv0, m, c2) by {
                crate::layout::lemma_fat_slot_in_range(m, c2);
                assert(fs.disk@[crate::layout::fat_slot_sector(m, c2)]
                    == dv1[crate::layout::fat_slot_sector(m, c2)]);
            }
            crate::layout::lemma_fat_region_same_chains(dv1, fs.disk@, m, self.start_cluster,
                spec_max_cluster(m) as nat);
            let chf = chain_of(fs.disk@, m, self.start_cluster)->Some_0;
            assert(chain_of(dv1, m, self.start_cluster)->Some_0 == chf);
            assert forall|sp: int|
                spec_root_dir_start(m) <= sp < dv0.len() && !in_chain_sectors(m, chf, sp)
                    implies #[trigger] fs.disk@[sp] == dv0[sp] by {
                assert(dv1[sp] == dv0[sp]);
                assert(forall|j: int|
                    0 <= j < targets@.len() ==> ((#[trigger] targets@[j]).0 as int) != sp);
                assert(fs.disk@[sp] == dv1[sp]);
            }
        }
        Ok(addr)
    }

    /// Create a file in this directory. Rejects names this design cannot
    /// spell, and names already bound to a file here. On success the name
    /// is bound to a fresh empty file: one fresh cluster, a written entry
    /// group, and a zero size field.
    pub fn create_file(&mut self, fs: &mut Fat32, name: &str) -> (r: Result<
        (),
        OperationError,
    >)
        requires
            old(fs).wf(),
            old(self).wf(),
            chain_of(old(fs).disk@, old(fs).meta, old(self).start_cluster) is Some,
        ensures
            final(fs).wf(),
            final(fs).meta == old(fs).meta,
            final(fs).disk@.len() == old(fs).disk@.len(),
            final(self).wf(),
            final(self).start_cluster == old(self).start_cluster,
            final(self).sector == old(self).sector,
            final(self).offset == old(self).offset,
            final(self).sub_dirs.view_map() == old(self).sub_dirs.view_map(),
            ({
                let k = str_units(name@);
                match r {
                    Ok(_) => {
                        &&& valid_name_str(name@)
                        &&& !old(self).files.view_map().contains_key(k)
                        &&& final(self).files.view_map().contains_key(k)
                        &&& final(self).files.view_map() == old(self).files.view_map().insert(
                            k, final(self).files.view_map()[k])
                        &&& ({
                            let f = final(self).files.view_map()[k];
                            &&& valid_child(final(fs).disk@, old(fs).meta, f.start_cluster,
                                f.sector as int, f.offset as int)
                            &&& valid_file_pos(final(fs).disk@, old(fs).meta, f)
                            &&& spec_size(final(fs).disk@, f) == 0
                            &&& chain_of(final(fs).disk@, old(fs).meta, f.start_cluster)
                                == Some(seq![f.start_cluster])
                            &&& (f.sector as int) < spec_cluster_to_sector(old(fs).meta,
                                spec_max_cluster(old(fs).meta))
                            &&& !(fat_entry_spec(final(fs).disk@, old(fs).meta,
                                sector_cluster(old(fs).meta, f.sector as int)) is Free)
                            &&& sector_cluster(old(fs).meta, f.sector as int)
                                != f.start_cluster as int
                        })
                    },
                    Err(e) => {
                        &&& final(self).files.view_map() == old(self).files.view_map()
                        &&& (e == OperationError::InvalidDirName <==> !valid_name_str(name@))
                        &&& (e == OperationError::FileExist <==> valid_name_str(name@)
                            && old(self).files.view_map().contains_key(k))
                        &&& (e == OperationError::InvalidDirName || e
                            == OperationError::FileExist || e
                            == OperationError::NoEnoughSpace)
                        &&& (e == OperationError::NoEnoughSpace
                            ==> final(fs).fat.total_free_cluster == 0 || forall|c2: int|
                            2 <= c2 < spec_max_cluster(old(fs).meta) ==> !((
                            #[trigger] fat_entry_spec(final(fs).disk@, old(fs).meta,
                                c2)) is Free))
                        &&& (e == OperationError::InvalidDirName || e
                            == OperationError::FileExist ==> final(fs).disk@
                            == old(fs).disk@)
                    },
                }
            }),
    {
        let ghost m = fs.meta;
        let ghost dv0 = fs.disk@;
        let units = match str_to_units(name) {
            Some(u) => u,
            None => {
                proof {
                    let i = choose|i: int|
                        0 <= i < name@.len() && ((#[trigger] name@[i]) as u32) >= 0x10000;
                    assert(!valid_name_str(name@));
                }
                return Err(OperationError::InvalidDirName);
            }
        };
        if !check_name_units(&units) {
            proof {
                assert(units@ == str_units(name@));
                assert(!valid_name_str(name@)) by {
                    if valid_name_str(name@) {
                        assert forall|i: int|
                            0 <= i < units@.len() implies 0 < (#[trigger] units@[i]) by {
                            assert(0 < (name@[i] as u32) < 0x10000);
                        }
                    }
                }
            }
            return Err(OperationError::InvalidDirName);
        }
        proof {
            assert(valid_name_str(name@)) by {
                assert forall|i: int|
                    0 <= i < name@.len() implies 0 < ((#[trigger] name@[i]) as u32)
                    < 0x10000 by {
                    assert(0 < units@[i]);
                    assert((name@[i] as u32) == units@[i]);
                }
            }
        }
        match self.files.get(&units) {
            Some(_) => {
                return Err(OperationError::FileExist);
            }
            None => {}
        }
        let b = narrow_units_exec(&units);
        let short_bytes = self.short_name_bytes(&b, DirEntryType::File);
        let copt = fs.fat.alloc_cluster(&fs.disk);
        let cluster = match copt {
            Some(c) => c,
            None => {
                return Err(OperationError::NoEnoughSpace);
            }
        };
        let ghost ch_dir = chain_of(fs.disk@, m, self.start_cluster)->Some_0;
        proof {
            crate::layout::lemma_chain_notin(fs.disk@, m, self.start_cluster,
                spec_max_cluster(m) as nat, cluster);
        }
        fs.fat.set_entry(&mut fs.disk, cluster, FatEntry::Eof, DirEntryType::Dir);
        let ghost dv1 = fs.disk@;
        proof {
            crate::layout::lemma_fat_slot_in_range(m, cluster as int);
            assert(fat_entry_spec(dv1, m, cluster as int) is Eof) by {
                assert(crate::layout::fat_val(dv1, m, cluster as int) == 0x0FFFFFF8);
            }
            assert(chain_of(dv1, m, cluster) == Some(seq![cluster]));
            crate::layout::lemma_chain_offchain_write(dv0, dv1, m, self.start_cluster,
                spec_max_cluster(m) as nat, cluster as int);
            assert(chain_of(dv1, m, self.start_cluster) == Some(ch_dir));
        }
        let addr = match self.add_child_entries(fs, &units, &short_bytes, cluster,
            DirEntryType::File) {
            Ok(a) => a,
            Err(e) => {
                return Err(e);
            }
        };
        proof {
            // the fresh cluster's slot survived the entry placement
            assert(crate::layout::fat_val(fs.disk@, m, cluster as int)
                == crate::layout::fat_val(dv1, m, cluster as int));
            assert(fat_entry_spec(fs.disk@, m, cluster as int) is Eof);
            assert(chain_of(fs.disk@, m, cluster) == Some(seq![cluster]));
            // the entry slot sits in a cluster of the parent's chain, which
            // is allocated and distinct from the file's fresh cluster
            let pch = chain_of(fs.disk@, m, self.start_cluster)->Some_0;
            crate::layout::lemma_chain_from_props(fs.disk@, m, self.start_cluster,
                spec_max_cluster(m) as nat);
            let a0 = addr.0 as int;
            let wi = choose|wi: int|
                0 <= wi < pch.len() && spec_cluster_to_sector(m, (
                #[trigger] pch[wi]) as int) <= a0 < spec_cluster_to_sector(m,
                pch[wi] as int) + m.sectors_per_cluster;
            crate::layout::lemma_cluster_sectors_in_range(m, pch[wi] as int);
            crate::layout::lemma_sector_cluster_inverse(m, pch[wi] as int, a0);
            assert(sector_cluster(m, a0) == pch[wi]);
            assert(!(fat_entry_spec(fs.disk@, m, sector_cluster(m, a0)) is Free)) by {
                if wi < pch.len() - 1 {
                    assert(fat_entry_spec(fs.disk@, m, pch[wi] as int) == FatEntry::Cluster(
                        pch[wi + 1]));
                } else {
                    assert(fat_entry_spec(fs.disk@, m, pch[wi] as int) == FatEntry::Eof);
                }
            }
            assert(!pch.contains(cluster));
            assert(sector_cluster(m, a0) != cluster as int);
        }
        let f = File::new(cluster, addr);
        self.files.insert(units, f);
        Ok(())
    }

    /// Enter a loaded sub-directory, reading its children fresh from the
    /// image. Fails exactly when the name is unknown here or the child's
    /// chain is broken.
    pub fn cd(&self, fs: &Fat32, path: &str) -> (r: Result<Dir, OperationError>)
        requires
            fs.wf(),
            self.wf(),
        ensures
            ({
                let k = str_units(path@);
                match r {
                    Ok(d) => {
                        &&& self.sub_dirs.view_map().contains_key(k)
                        &&& d.start_cluster == self.sub_dirs.view_map()[k].start_cluster
                        &&& d.wf()
                        &&& d.children_on_disk(fs.disk@, fs.meta)
                        &&& chain_of(fs.disk@, fs.meta, d.start_cluster) is Some
                        &&& ({
                            let ch = chain_of(fs.disk@, fs.meta, d.start_cluster)->Some_0;
                            let st = decode_stream(fs.disk@, fs.meta, ch, slot_count(fs.meta,
                                ch));
                            d.sub_dirs.view_map() == st.dirs && d.files.view_map() == st.files
                        })
                    },
                    Err(e) => {
                        &&& e == OperationError::DirNotFound
                        &&& !((forall|i: int|
                            0 <= i < path@.len() ==> ((#[trigger] path@[i]) as u32) < 0x10000)
                            && self.sub_dirs.view_map().contains_key(k) && chain_of(fs.disk@,
                            fs.meta, self.sub_dirs.view_map()[k].start_cluster) is Some)
                    },
                }
            }),
    {
        let units = match str_to_units(path) {
            Some(u) => u,
            None => {
                return Err(OperationError::DirNotFound);
            }
        };
        let info = match self.sub_dirs.get(&units) {
            Some(i) => i,
            None => {
                return Err(OperationError::DirNotFound);
            }
        };
        if !Fat32::check_chain(&fs.meta, &fs.disk, info.start_cluster) {
            return Err(OperationError::DirNotFound);
        }
        let d = Dir::new(fs, info.start_cluster, info.sector, info.offset);
        Ok(d)
    }

    /// Look a loaded file up by name.
    pub fn open(&self, name: &str) -> (r: Result<File, OperationError>)
        requires
            self.wf(),
        ensures
            ({
                let k = str_units(name@);
                match r {
                    Ok(f) => self.files.view_map().contains_key(k)
                        && f == self.files.view_map()[k],
                    Err(e) => e == OperationError::FileNotFound,
                }
            }),
    {
        let units = match str_to_units(name) {
            Some(u) => u,
            None => {
                return Err(OperationError::FileNotFound);
            }
        };
        match self.files.get(&units) {
            Some(f) => Ok(f),
            None => Err(OperationError::FileNotFound),
        }
    }

    /// The names of the loaded children: sub-directories first, then files.
    pub fn list(&self) -> (r: Vec<String>)
        requires
            self.wf(),
        ensures
            r@.len() == self.sub_dirs.entries@.len() + self.files.entries@.len(),
            forall|i: int|
                0 <= i < self.sub_dirs.entries@.len() && (forall|j: int|
                    0 <= j < self.sub_dirs.entries@[i].0@.len() ==> !is_surrogate(
                        #[trigger] self.sub_dirs.entries@[i].0@[j]))
                    ==> matches_units(#[trigger] r@[i]@, self.sub_dirs.entries@[i].0@),
            forall|i: int|
                0 <= i < self.files.entries@.len() && (forall|j: int|
                    0 <= j < self.files.entries@[i].0@.len() ==> !is_surrogate(
                        #[trigger] self.files.entries@[i].0@[j]))
                    ==> matches_units(
                    #[trigger] r@[self.sub_dirs.entries@.len() + i]@,
                    self.files.entries@[i].0@),
    {
        let mut r: Vec<String> = Vec::new();
        let mut k: usize = 0;
        while k < self.sub_dirs.entries.len()
            invariant
                k <= self.sub_dirs.entries@.len(),
                r@.len() == k,
                forall|i: int|
                    0 <= i < k && (forall|j: int|
                        0 <= j < self.sub_dirs.entries@[i].0@.len() ==> !is_surrogate(
                            #[trigger] self.sub_dirs.entries@[i].0@[j])) ==> matches_units(
                        #[trigger] r@[i]@, self.sub_dirs.entries@[i].0@),
            decreases self.sub_dirs.entries@.len() - k,
        {
            let name = match ucs2_to_string(&self.sub_dirs.entries[k].0) {
                Some(s2) => s2,
                None => String::new(),
            };
            r.push(name);
            k += 1;
        }
        let ghost base = self.sub_dirs.entries@.len() as int;
        let mut k2: usize = 0;
        while k2 < self.files.entries.len()
            invariant
                base == self.sub_dirs.entries@.len(),
                k2 <= self.files.entries@.len(),
                r@.len() == base + k2,
                forall|i: int|
                    0 <= i < base && (forall|j: int|
                        0 <= j < self.sub_dirs.entries@[i].0@.len() ==> !is_surrogate(
                            #[trigger] self.sub_dirs.entries@[i].0@[j])) ==> matches_units(
                        #[trigger] r@[i]@, self.sub_dirs.entries@[i].0@),
                forall|i: int|
                    0 <= i < k2 && (forall|j: int|
                        0 <= j < self.files.entries@[i].0@.len() ==> !is_surrogate(
                            #[trigger] self.files.entries@[i].0@[j])) ==> matches_units(
                        #[trigger] r@[base + i]@, self.files.entries@[i].0@),
            decreases self.files.entries@.len() - k2,
        {
            let name = match ucs2_to_string(&self.files.entries[k2].0) {
                Some(s2) => s2,
                None => String::new(),
            };
            r.push(name);
            k2 += 1;
        }
        r
    }

    /// Mark a child's short entry deleted, and the long entries that
    /// precede it in the stream (looking back at most one sector). The
    /// FAT region is untouched.

    /// First slot of the maximal run of long-attributed slots that ends
    /// just before slot `k0`.
    pub open spec fn long_run_start(dv: Seq<Seq<u8>>, m: MetaData, ch: Seq<u32>, k0: int)
        -> int
        decreases k0,
    {
        if k0 <= 0 {
            0
        } else if slot_bytes(dv, m, ch, k0 - 1)[11] & ATTR_LONG_NAME == ATTR_LONG_NAME {
            Self::long_run_start(dv, m, ch, k0 - 1)
        } else {
            k0
        }
    }

    /// A backward walk that stopped at the first non-long slot found the
    /// run's start.
    proof fn lemma_long_run_start(dv: Seq<Seq<u8>>, m: MetaData, ch: Seq<u32>, k0: int,
        t: int)
        requires
            0 <= t <= k0,
            forall|p: int|
                t <= p < k0 ==> (#[trigger] slot_bytes(dv, m, ch, p))[11] & ATTR_LONG_NAME
                    == ATTR_LONG_NAME,
            t > 0 ==> slot_bytes(dv, m, ch, t - 1)[11] & ATTR_LONG_NAME != ATTR_LONG_NAME,
        ensures
            Self::long_run_start(dv, m, ch, k0) == t,
        decreases k0 - t,
    {
        if k0 > t {
            Self::lemma_long_run_start(dv, m, ch, k0 - 1, t);
        }
    }

    /// Mark a child's short entry deleted, then walk the entry stream
    /// backward over the long entries of its group — crossing sector and
    /// cluster boundaries as the chain dictates — and mark each of them,
    /// stopping at the first slot that is not long-attributed. Only first
    /// bytes of slots in the chain's sectors change; the FAT region is
    /// untouched.
    #[verifier::rlimit(100)]
    #[verifier::spinoff_prover]
    pub fn delete_entry(&self, fs: &mut Fat32, start_cluster: u32, address: (usize, usize),
        cluster_chain: &Vec<u32>) -> (r: Result<(), OperationError>)
        requires
            old(fs).wf(),
            spec_root_dir_start(old(fs).meta) <= (address.0 as int),
            (address.0 as int) < old(fs).disk@.len(),
            address.1 % 32 == 0,
            address.1 + 32 <= 512,
        ensures
            final(fs).wf(),
            final(fs).meta == old(fs).meta,
            final(fs).disk@.len() == old(fs).disk@.len(),
            forall|sp: int|
                0 <= sp < spec_root_dir_start(old(fs).meta) ==> #[trigger] final(fs).disk@[sp]
                    == old(fs).disk@[sp],
            forall|sp: int|
                0 <= sp < old(fs).disk@.len() && sp != address.0 && !in_chain_sectors(
                    old(fs).meta, cluster_chain@, sp) ==> #[trigger] final(fs).disk@[sp]
                    == old(fs).disk@[sp],
            r is Ok,
            final(fs).disk@[address.0 as int][address.1 as int] == 0xE5u8,
            // the whole preceding run of long entries is marked
            (forall|i: int|
                0 <= i < cluster_chain@.len() ==> 2 <= #[trigger] cluster_chain@[i]
                    < spec_max_cluster(old(fs).meta)) && (forall|i: int, j: int|
                0 <= i < j < cluster_chain@.len() ==> cluster_chain@[i] != cluster_chain@[j])
                ==> forall|k0: int|
                0 <= k0 < slot_count(old(fs).meta, cluster_chain@) && address.0 as int
                    == slot_sector(old(fs).meta, cluster_chain@, k0) && address.1 as int
                    == #[trigger] slot_off(old(fs).meta, k0) ==> forall|p: int|
                Self::long_run_start(old(fs).disk@, old(fs).meta, cluster_chain@, k0) <= p
                    < k0 ==> final(fs).disk@[#[trigger] slot_sector(old(fs).meta,
                    cluster_chain@, p)][slot_off(old(fs).meta, p)] == 0xE5u8,
    {
        let ghost m = fs.meta;
        let ghost ch = cluster_chain@;
        let ghost dv0 = fs.disk@;
        let mut deleted: Vec<u8> = Vec::new();
        deleted.push(0xE5u8);
        // mark the short entry
        fs.disk.write_bytes(address.0, address.1, deleted.as_slice());
        let ghost dv1 = fs.disk@;
        proof {
            assert(dv1[address.0 as int][address.1 as int] == 0xE5u8);
            assert forall|sp: int, bo: int|
                0 <= sp < dv0.len() && 0 <= bo < 512 && bo % 32 != 0 implies #[trigger] dv1[
                sp][bo] == dv0[sp][bo] by {}
        }
        // locate the slot on the stream, when the chain is sound
        let chain_sound = Self::chain_in_range(fs, cluster_chain)
            && cluster_chain.len() <= 0x0100_0002;
        if !chain_sound {
            proof {
                if (forall|i: int| 0 <= i < ch.len() ==> 2 <= #[trigger] ch[i]
                    < spec_max_cluster(m)) && (forall|i: int, j: int|
                    0 <= i < j < ch.len() ==> ch[i] != ch[j]) {
                    Self::lemma_distinct_chain_len(m, ch);
                }
                assert forall|sp: int|
                    0 <= sp < spec_root_dir_start(m) implies #[trigger] fs.disk@[sp]
                    == dv0[sp] by {
                    assert(fs.disk@[sp] =~= dv0[sp]);
                }
                assert forall|sp: int|
                    0 <= sp < dv0.len() && sp != address.0 && !in_chain_sectors(m, ch, sp)
                        implies #[trigger] fs.disk@[sp] == dv0[sp] by {
                    assert(fs.disk@[sp] =~= dv0[sp]);
                }
            }
            return Ok(());
        }
        let spc = fs.meta.sectors_per_cluster as u64;
        proof {
            assert(cluster_chain@.len() * (spc as int) * 16 <= 0x0100_0002 * 128 * 16)
                by (nonlinear_arith)
                requires cluster_chain@.len() <= 0x0100_0002, 1 <= spc <= 128;
            assert(spc as int == m.sectors_per_cluster as int);
            assert(cluster_chain@.len() * (spc as int) * 16 == slot_count(m, ch));
        }
        let nslots: u64 = cluster_chain.len() as u64 * spc * 16;
        let mut k0: u64 = 0;
        let mut found = false;
        let mut kk: u64 = 0;
        while kk < nslots
            invariant
                fs.wf(),
                m == fs.meta,
                spc == m.sectors_per_cluster,
                ch == cluster_chain@,
                ch.len() <= 0x0100_0002,
                forall|i: int| 0 <= i < ch.len() ==> 2 <= #[trigger] ch[i]
                    < spec_max_cluster(m),
                nslots == slot_count(m, ch),
                kk <= nslots,
                found ==> (k0 as int) < nslots && address.0 as int == slot_sector(m, ch,
                    k0 as int) && address.1 as int == slot_off(m, k0 as int),
                !found ==> forall|p: int|
                    0 <= p < kk ==> !(address.0 as int == slot_sector(m, ch, p)
                        && address.1 as int == #[trigger] slot_off(m, p)),
            ensures
                found ==> (k0 as int) < slot_count(m, ch) && address.0 as int == slot_sector(
                    m, ch, k0 as int) && address.1 as int == slot_off(m, k0 as int),
                !found ==> forall|p: int|
                    0 <= p < slot_count(m, ch) ==> !(address.0 as int == slot_sector(m, ch, p)
                        && address.1 as int == #[trigger] slot_off(m, p)),
            decreases nslots - kk,
        {
            proof {
                lemma_slot_addr(m, ch, kk as int);
            }
            let q = ((kk / 16) / spc) as usize;
            proof {
                assert(((kk as int) / 16) / (spc as int) < ch.len());
                assert((q as int) == ((kk as int) / 16) / (m.sectors_per_cluster as int));
                assert(0 <= q as int && (q as int) < ch.len());
                crate::layout::lemma_cluster_sectors_in_range(m, ch[q as int] as int);
            }
            let sec = fs.meta.cluster_to_sector(cluster_chain[q]) + ((kk / 16) % spc) as usize;
            let off = (32 * (kk % 16)) as usize;
            proof {
                assert(((kk as int) / 16) % (spc as int) == ((kk as int) / 16) % (
                    m.sectors_per_cluster as int));
                assert(32 * ((kk as int) % 16) == 32 * ((kk as int) % 16));
            }
            if sec == address.0 && off == address.1 {
                k0 = kk;
                found = true;
                break;
            }
            proof {
                assert(!(address.0 as int == slot_sector(m, ch, kk as int)
                    && address.1 as int == slot_off(m, kk as int)));
            }
            kk += 1;
        }
        if !found {
            proof {
                assert forall|sp: int|
                    0 <= sp < spec_root_dir_start(m) implies #[trigger] fs.disk@[sp]
                    == dv0[sp] by {
                    assert(fs.disk@[sp] =~= dv0[sp]);
                }
                assert forall|sp: int|
                    0 <= sp < dv0.len() && sp != address.0 && !in_chain_sectors(m, ch, sp)
                        implies #[trigger] fs.disk@[sp] == dv0[sp] by {
                    assert(fs.disk@[sp] =~= dv0[sp]);
                }
            }
            return Ok(());
        }
        // walk back over the long entries; every write puts 0xE5 into the
        // first byte of a slot of the chain's stream
        let mut t: u64 = k0;
        while t > 0
            invariant
                fs.wf(),
                m == fs.meta,
                spc == m.sectors_per_cluster,
                ch == cluster_chain@,
                ch.len() <= 0x0100_0002,
                forall|i: int| 0 <= i < ch.len() ==> 2 <= #[trigger] ch[i]
                    < spec_max_cluster(m),
                nslots == slot_count(m, ch),
                fs.disk@.len() == dv1.len(),
                dv1.len() == dv0.len(),
                dv1.len() == m.total_sectors_32,
                forall|sp: int| 0 <= sp < dv1.len() ==> (#[trigger] dv1[sp]).len() == 512,
                deleted@.len() == 1,
                deleted@[0] == 0xE5u8,
                (k0 as int) < nslots,
                t <= k0,
                spec_root_dir_start(m) <= address.0 as int,
                (address.0 as int) < dv1.len(),
                address.1 % 32 == 0,
                address.1 + 32 <= 512,
                address.0 as int == slot_sector(m, ch, k0 as int),
                address.1 as int == slot_off(m, k0 as int),
                fs.disk@[address.0 as int][address.1 as int] == 0xE5u8,
                forall|p: int|
                    t <= p < k0 ==> fs.disk@[#[trigger] slot_sector(m, ch, p)][slot_off(m, p)]
                        == 0xE5u8 && slot_bytes(dv1, m, ch, p)[11] & ATTR_LONG_NAME
                        == ATTR_LONG_NAME,
                forall|sp: int, bo: int|
                    0 <= sp < dv1.len() && 0 <= bo < 512 && bo % 32 != 0
                        ==> #[trigger] fs.disk@[sp][bo] == dv1[sp][bo],
                forall|sp: int|
                    0 <= sp < dv1.len() && !in_chain_sectors(m, ch, sp) ==> #[trigger] fs.disk@[
                    sp] == dv1[sp],
            ensures
                t <= k0,
                t == 0 || slot_bytes(dv1, m, ch, t as int - 1)[11] & ATTR_LONG_NAME
                    != ATTR_LONG_NAME,
                fs.disk@[address.0 as int][address.1 as int] == 0xE5u8,
                fs.disk@.len() == dv1.len(),
                forall|p: int|
                    t <= p < k0 ==> fs.disk@[#[trigger] slot_sector(m, ch, p)][slot_off(m, p)]
                        == 0xE5u8 && slot_bytes(dv1, m, ch, p)[11] & ATTR_LONG_NAME
                        == ATTR_LONG_NAME,
                forall|sp: int, bo: int|
                    0 <= sp < dv1.len() && 0 <= bo < 512 && bo % 32 != 0
                        ==> #[trigger] fs.disk@[sp][bo] == dv1[sp][bo],
                forall|sp: int|
                    0 <= sp < dv1.len() && !in_chain_sectors(m, ch, sp) ==> #[trigger] fs.disk@[
                    sp] == dv1[sp],
            decreases t,
        {
            let ghost p = t as int - 1;
            proof {
                lemma_slot_addr(m, ch, p);
            }
            let q = (((t - 1) / 16) / spc) as usize;
            proof {
                assert((p / 16) / (spc as int) < ch.len());
                assert((q as int) == (p / 16) / (m.sectors_per_cluster as int));
                assert(0 <= q as int && (q as int) < ch.len());
                crate::layout::lemma_cluster_sectors_in_range(m, ch[q as int] as int);
            }
            let sec = fs.meta.cluster_to_sector(cluster_chain[q]) + (((t - 1) / 16)
                % spc) as usize;
            let off = (32 * ((t - 1) % 16)) as usize;
            proof {
                assert(((t as int - 1) / 16) % (spc as int) == (p / 16) % (
                    m.sectors_per_cluster as int));
                assert(32 * ((t as int - 1) % 16) == 32 * (p % 16));
                assert(sec as int == slot_sector(m, ch, p));
                assert(off as int == slot_off(m, p));
            }
            let attr = fs.disk.read_byte(sec, off + 11);
            proof {
                assert((off + 11) % 32 == 11) by (nonlinear_arith)
                    requires off % 32 == 0, off + 11 < 512 + 11;
                assert(fs.disk@[sec as int][off + 11] == dv1[sec as int][off + 11]);
                assert(dv1[sec as int][off + 11] == slot_bytes(dv1, m, ch, p)[11]);
            }
            if attr & ATTR_LONG_NAME == ATTR_LONG_NAME {
                let ghost dvp = fs.disk@;
                fs.disk.write_bytes(sec, off, deleted.as_slice());
                t = t - 1;
                proof {
                    assert(fs.disk@[sec as int][off as int] == 0xE5u8);
                    assert forall|sp: int, bo: int|
                        0 <= sp < dv1.len() && 0 <= bo < 512 && bo % 32 != 0
                            implies #[trigger] fs.disk@[sp][bo] == dv1[sp][bo] by {
                        assert(fs.disk@[sp][bo] == dvp[sp][bo]);
                    }
                    assert forall|pp: int|
                        t <= pp < k0 implies fs.disk@[#[trigger] slot_sector(m, ch, pp)][
                        slot_off(m, pp)] == 0xE5u8 && slot_bytes(dv1, m, ch, pp)[11]
                        & ATTR_LONG_NAME == ATTR_LONG_NAME by {
                        lemma_slot_addr(m, ch, pp);
                        if pp != p {
                            assert(dvp[slot_sector(m, ch, pp)][slot_off(m, pp)] == 0xE5u8);
                            if slot_sector(m, ch, pp) == sec as int && slot_off(m, pp)
                                == off as int {
                            } else {
                            }
                            assert(fs.disk@[slot_sector(m, ch, pp)][slot_off(m, pp)]
                                == 0xE5u8);
                        }
                    }
                    assert(fs.disk@[address.0 as int][address.1 as int] == 0xE5u8) by {
                        if sec as int == address.0 as int && off as int == address.1 as int {
                        } else {
                            assert(fs.disk@[address.0 as int][address.1 as int]
                                == dvp[address.0 as int][address.1 as int]);
                        }
                    }
                    assert forall|sp: int|
                        0 <= sp < dv1.len() && !in_chain_sectors(m, ch, sp)
                            implies #[trigger] fs.disk@[sp] == dv1[sp] by {
                        assert(in_chain_sectors(m, ch, sec as int));
                        assert(fs.disk@[sp] == dvp[sp]);
                    }
                }
            } else {
                break;
            }
        }
        proof {
            // assemble the run claim and re-establish the coarse frames
            if (forall|i: int| 0 <= i < ch.len() ==> 2 <= #[trigger] ch[i]
                < spec_max_cluster(m)) && (forall|i: int, j: int|
                0 <= i < j < ch.len() ==> ch[i] != ch[j]) {
                // byte 11 of every slot reads the same in dv0 and dv1
                assert forall|p: int|
                    0 <= p < slot_count(m, ch) implies (#[trigger] slot_bytes(dv1, m, ch,
                    p))[11] == slot_bytes(dv0, m, ch, p)[11] by {
                    lemma_slot_addr(m, ch, p);
                    assert((slot_off(m, p) + 11) % 32 == 11) by (nonlinear_arith)
                        requires slot_off(m, p) % 32 == 0, 0 <= slot_off(m, p);
                    assert(dv1[slot_sector(m, ch, p)][slot_off(m, p) + 11]
                        == dv0[slot_sector(m, ch, p)][slot_off(m, p) + 11]);
                }
                assert forall|p: int|
                    t as int <= p < k0 as int implies (#[trigger] slot_bytes(dv0, m, ch,
                    p))[11] & ATTR_LONG_NAME == ATTR_LONG_NAME by {
                    assert(slot_bytes(dv1, m, ch, p)[11] & ATTR_LONG_NAME
                        == ATTR_LONG_NAME);
                }
                if t > 0 {
                    assert(slot_bytes(dv0, m, ch, t as int - 1)[11] & ATTR_LONG_NAME
                        != ATTR_LONG_NAME) by {
                        assert(slot_bytes(dv1, m, ch, t as int - 1)[11] & ATTR_LONG_NAME
                            != ATTR_LONG_NAME);
                    }
                }
                Self::lemma_long_run_start(dv0, m, ch, k0 as int, t as int);
                assert forall|kx: int|
                    0 <= kx < slot_count(m, ch) && address.0 as int == slot_sector(m, ch, kx)
                        && address.1 as int == #[trigger] slot_off(m, kx) implies (forall|
                    p: int|
                    Self::long_run_start(dv0, m, ch, kx) <= p < kx ==> fs.disk@[
                    #[trigger] slot_sector(m, ch, p)][slot_off(m, p)] == 0xE5u8) by {
                    if kx != k0 as int {
                        assert(32 * kx + 31 < ch.len() * spec_bytes_per_cluster(m)) by {
                            lemma_slot_addr(m, ch, kx);
                        }
                        assert(32 * (k0 as int) + 31 < ch.len() * spec_bytes_per_cluster(
                            m)) by {
                            lemma_slot_addr(m, ch, k0 as int);
                        }
                        lemma_byte_addr_inj(m, ch, 32 * kx, 32 * (k0 as int));
                    }
                    assert(kx == k0 as int);
                }
            }
            assert forall|sp: int|
                0 <= sp < spec_root_dir_start(m) implies #[trigger] fs.disk@[sp]
                == dv0[sp] by {
                lemma_slot_addr(m, ch, k0 as int);
                assert(fs.disk@[sp] == dv1[sp]) by {
                    if in_chain_sectors(m, ch, sp) {
                        let w = choose|w: int|
                            0 <= w < ch.len() && spec_cluster_to_sector(m, (
                            #[trigger] ch[w]) as int) <= sp < spec_cluster_to_sector(m,
                            ch[w] as int) + m.sectors_per_cluster;
                        crate::layout::lemma_cluster_sectors_in_range(m, ch[w] as int);
                        assert(false);
                    }
                }
                assert(dv1[sp] =~= dv0[sp]);
            }
            assert forall|sp: int|
                0 <= sp < dv0.len() && sp != address.0 && !in_chain_sectors(m, ch, sp)
                    implies #[trigger] fs.disk@[sp] == dv0[sp] by {
                assert(fs.disk@[sp] == dv1[sp]);
                assert(dv1[sp] =~= dv0[sp]);
            }
        }
        Ok(())
    }

    /// Distinct usable clusters are at most the usable-cluster count.
    proof fn lemma_distinct_chain_len(m: MetaData, ch: Seq<u32>)
        requires
            m.wf(),
            forall|i: int| 0 <= i < ch.len() ==> 2 <= #[trigger] ch[i] < spec_max_cluster(m),
            forall|i: int, j: int| 0 <= i < j < ch.len() ==> ch[i] != ch[j],
        ensures
            ch.len() <= spec_max_cluster(m) - 2,
    {
        assert(ch.no_duplicates());
        ch.unique_seq_to_set();
        let mx = spec_max_cluster(m);
        assert(3 <= mx <= 0x0100_0001) by {
            vstd::arithmetic::div_mod::lemma_fundamental_div_mod(m.total_sectors_32
                - spec_root_dir_start(m), m.sectors_per_cluster as int);
            vstd::arithmetic::div_mod::lemma_mod_bound(m.total_sectors_32
                - spec_root_dir_start(m), m.sectors_per_cluster as int);
            assert((m.total_sectors_32 - spec_root_dir_start(m)) / (
                m.sectors_per_cluster as int) <= m.total_sectors_32) by (nonlinear_arith)
                requires m.sectors_per_cluster >= 1, m.total_sectors_32 - spec_root_dir_start(
                    m) >= 0, spec_root_dir_start(m) >= 0;
            assert((m.total_sectors_32 - spec_root_dir_start(m)) / (
                m.sectors_per_cluster as int) >= 1) by (nonlinear_arith)
                requires m.sectors_per_cluster as int >= 1, m.total_sectors_32
                    - spec_root_dir_start(m) >= m.sectors_per_cluster as int;
        }
        let range = Set::new(|i: u32| 2 <= i < mx);
        assert(ch.to_set().subset_of(range)) by {
            assert forall|x: u32| ch.to_set().contains(x) implies range.contains(x) by {
                let i = choose|i: int| 0 <= i < ch.len() && ch[i] == x;
                assert(2 <= ch[i] < mx);
            }
        }
        assert(range == <u32 as vstd::set_lib::FiniteRange>::range_set(2u32, mx as u32)) by {
            assert(range =~= <u32 as vstd::set_lib::FiniteRange>::range_set(2u32, mx as u32));
        }
        <u32 as vstd::set_lib::FiniteRange>::range_properties(2u32, mx as u32);
        vstd::set_lib::lemma_len_subset(ch.to_set(), range);
    }

    /// Whether every listed cluster is usable.    /// Whether every listed cluster is usable.
    fn chain_in_range(fs: &Fat32, chain: &Vec<u32>) -> (r: bool)
        requires
            fs.wf(),
        ensures
            r == forall|i: int|
                0 <= i < chain@.len() ==> 2 <= #[trigger] chain@[i] < spec_max_cluster(
                    fs.meta),
    {
        let max = Fat::max_cluster_exec(&fs.meta);
        let mut i: usize = 0;
        while i < chain.len()
            invariant
                fs.wf(),
                max == spec_max_cluster(fs.meta),
                i <= chain@.len(),
                forall|k: int| 0 <= k < i ==> 2 <= #[trigger] chain@[k] < spec_max_cluster(
                    fs.meta),
            decreases chain@.len() - i,
        {
            if !(2 <= chain[i] && chain[i] < max) {
                return false;
            }
            i += 1;
        }
        true
    }

    /// Best-effort release of a file's clusters and its entry slot; used
    /// by deletion. Performs nothing that the image's state cannot back.
    fn remove_file_on_disk(&self, fs: &mut Fat32, f: File)
        requires
            old(fs).wf(),
        ensures
            final(fs).wf(),
            final(fs).meta == old(fs).meta,
            final(fs).disk@.len() == old(fs).disk@.len(),
            file_reclaimable(old(fs).disk@, old(fs).meta, f) ==> {
                let fch = chain_of(old(fs).disk@, old(fs).meta, f.start_cluster)->Some_0;
                &&& fat_entry_spec(final(fs).disk@, old(fs).meta,
                    f.start_cluster as int) is Free
                &&& (forall|i: int|
                    1 <= i < fch.len() ==> fat_entry_spec(final(fs).disk@, old(fs).meta, (
                    #[trigger] fch[i]) as int) is Free)
                &&& final(fs).disk@[f.sector as int][f.offset as int] == 0xE5u8
            },
    {
        let ghost hyp = file_reclaimable(fs.disk@, fs.meta, f);
        let ghost dv_a = fs.disk@;
        let ghost mm = fs.meta;
        let ghost fch = chain_of(dv_a, mm, f.start_cluster)->Some_0;
        proof {
            if hyp {
                crate::layout::lemma_chain_from_props(dv_a, mm, f.start_cluster,
                    spec_max_cluster(mm) as nat);
                crate::layout::lemma_chain_nodup(dv_a, mm, f.start_cluster,
                    spec_max_cluster(mm) as nat);
            }
        }
        let m = fs.meta;
        let max = Fat::max_cluster_exec(&m);
        let rds = m.root_dir_start_sector();
        // validate the handle against the image before touching anything
        let spc = m.sectors_per_cluster as usize;
        proof {
            assert((m.total_sectors_32 - spec_root_dir_start(m)) / (
                m.sectors_per_cluster as int) >= 1) by (nonlinear_arith)
                requires m.sectors_per_cluster as int >= 1, m.total_sectors_32
                    - spec_root_dir_start(m) >= m.sectors_per_cluster as int;
            assert(max >= 3);
            crate::layout::lemma_cluster_sectors_in_range(m, spec_max_cluster(m) - 1);
            assert((max - 2) * (spc as int) == (spec_max_cluster(m) - 2)
                * (m.sectors_per_cluster as int)) by (nonlinear_arith)
                requires max == spec_max_cluster(m), spc == m.sectors_per_cluster;
            assert((spec_max_cluster(m) - 3) * (m.sectors_per_cluster as int)
                + m.sectors_per_cluster == (spec_max_cluster(m) - 2) * (
                m.sectors_per_cluster as int)) by (nonlinear_arith);
            assert(spec_root_dir_start(m) + (spec_max_cluster(m) - 2) * (
                m.sectors_per_cluster as int) <= m.total_sectors_32);
        }
        let cts_max = rds + (max as usize - 2) * spc;
        proof {
            assert(cts_max as int == spec_cluster_to_sector(m, spec_max_cluster(m)));
        }
        let pos_ok = rds <= f.sector && f.sector < cts_max && f.sector < fs.disk.len()
            && f.offset % 32 == 0 && f.offset <= 480 && 2 <= f.start_cluster
            && f.start_cluster < max;
        if !pos_ok {
            proof {
                if hyp {
                    assert(false);
                }
            }
            return;
        }
        if !Fat32::check_chain(&m, &fs.disk, f.start_cluster) {
            proof {
                if hyp {
                    assert(false);
                }
            }
            return;
        }
        let chain = fs.fat.get_cluster_chain(&fs.disk, f.start_cluster);
        // the entry's cluster must be allocated and off the file's chain
        let sc64 = 2 + (f.sector - rds) / spc;
        if !(sc64 < max as usize) {
            proof {
                if hyp {
                    lemma_sector_cluster(m, f.sector as int);
                    assert(false);
                }
            }
            return;
        }
        let sc = sc64 as u32;
        proof {
            assert(sc as int == sector_cluster(m, f.sector as int));
        }
        if fs.fat.get_entry(&fs.disk, sc) == FatEntry::Free {
            proof {
                if hyp {
                    assert(false);
                }
            }
            return;
        }
        let mut on_chain = false;
        let mut i: usize = 0;
        loop
            invariant_except_break
                i <= chain@.len(),
                !on_chain,
                forall|k: int| 0 <= k < i ==> #[trigger] chain@[k] != sc,
            ensures
                !on_chain ==> forall|k: int| 0 <= k < chain@.len() ==> #[trigger] chain@[k]
                    != sc,
                on_chain ==> chain@.contains(sc),
            decreases chain@.len() - i,
        {
            if i == chain.len() {
                break;
            }
            if chain[i] == sc {
                on_chain = true;
                proof {
                    assert(chain@.contains(sc));
                }
                break;
            }
            i += 1;
        }
        if on_chain {
            proof {
                if hyp {
                    let w = choose|w: int| 0 <= w < chain@.len() && chain@[w] == sc;
                    assert(false);
                }
            }
            return;
        }
        proof {
            assert(forall|k: int| 0 <= k < chain@.len() ==> #[trigger] chain@[k]
                != sector_cluster(m, f.sector as int));
        }
        f.clear(fs);
        let ghost dv_b = fs.disk@;
        fs.fat.set_entry(&mut fs.disk, f.start_cluster, FatEntry::Free, DirEntryType::File);
        if fs.fat.total_free_cluster < 0xFFFF_FFFF {
            fs.fat.total_free_cluster = fs.fat.total_free_cluster + 1;
        }
        proof {
            let dv_c = fs.disk@;
            assert(fat_entry_spec(dv_c, mm, f.start_cluster as int) is Free) by {
                assert(crate::layout::fat_val(dv_c, mm, f.start_cluster as int) == 0);
            }
            assert forall|i: int|
                1 <= i < fch.len() implies fat_entry_spec(dv_c, mm, (
                #[trigger] fch[i]) as int) is Free by {
                assert(fch[i] != fch[0]);
                assert(crate::layout::fat_val(dv_c, mm, fch[i] as int)
                    == crate::layout::fat_val(dv_b, mm, fch[i] as int));
            }
        }
        let ghost dv_c = fs.disk@;
        // remove the entry group from this directory's stream
        if Fat32::check_chain(&fs.meta, &fs.disk, self.start_cluster) {
            let dir_chain = fs.fat.get_cluster_chain(&fs.disk, self.start_cluster);
            let _ = self.delete_entry(fs, f.start_cluster, (f.sector, f.offset), &dir_chain);
        } else {
            let empty: Vec<u32> = Vec::new();
            let _ = self.delete_entry(fs, f.start_cluster, (f.sector, f.offset), &empty);
        }
        proof {
            // the deletion marks leave the FAT region alone
            assert forall|c2: int|
                0 <= c2 < spec_max_cluster(mm) implies crate::layout::fat_val(fs.disk@, mm,
                c2) == crate::layout::fat_val(dv_c, mm, c2) by {
                crate::layout::lemma_fat_region_same_chains(dv_c, fs.disk@, mm, c2 as u32, 0);
            }
        }
    }

    /// Remove a file binding by its code units.
    pub fn delete_file_units(&mut self, fs: &mut Fat32, units: &Vec<u16>) -> (r: Result<
        (),
        OperationError,
    >)
        requires
            old(fs).wf(),
            old(self).wf(),
        ensures
            final(fs).wf(),
            final(fs).meta == old(fs).meta,
            final(fs).disk@.len() == old(fs).disk@.len(),
            final(self).wf(),
            final(self).sub_dirs.view_map() == old(self).sub_dirs.view_map(),
            final(self).start_cluster == old(self).start_cluster,
            final(self).sector == old(self).sector,
            final(self).offset == old(self).offset,
            match r {
                Ok(_) => {
                    &&& old(self).files.view_map().contains_key(units@)
                    &&& final(self).files.view_map() == old(self).files.view_map().remove(
                        units@)
                    &&& (file_reclaimable(old(fs).disk@, old(fs).meta,
                        old(self).files.view_map()[units@]) ==> {
                        let f = old(self).files.view_map()[units@];
                        let fch = chain_of(old(fs).disk@, old(fs).meta,
                            f.start_cluster)->Some_0;
                        &&& fat_entry_spec(final(fs).disk@, old(fs).meta,
                            f.start_cluster as int) is Free
                        &&& (forall|i: int|
                            1 <= i < fch.len() ==> fat_entry_spec(final(fs).disk@,
                                old(fs).meta, (#[trigger] fch[i]) as int) is Free)
                        &&& final(fs).disk@[f.sector as int][f.offset as int] == 0xE5u8
                    })
                },
                Err(e) => e == OperationError::FileNotFound
                    && !old(self).files.view_map().contains_key(units@)
                    && final(self).files.view_map() == old(self).files.view_map()
                    && final(fs).disk@ == old(fs).disk@,
            },
    {
        let f = match self.files.remove(units) {
            Some(f) => f,
            None => {
                return Err(OperationError::FileNotFound);
            }
        };
        self.remove_file_on_disk(fs, f);
        Ok(())
    }

    /// Remove a file by name: its clusters are freed and its entry group
    /// marked deleted.
    pub fn delete_file(&mut self, fs: &mut Fat32, name: &str) -> (r: Result<
        (),
        OperationError,
    >)
        requires
            old(fs).wf(),
            old(self).wf(),
        ensures
            final(fs).wf(),
            final(fs).meta == old(fs).meta,
            final(fs).disk@.len() == old(fs).disk@.len(),
            final(self).wf(),
            final(self).sub_dirs.view_map() == old(self).sub_dirs.view_map(),
            final(self).start_cluster == old(self).start_cluster,
            final(self).sector == old(self).sector,
            final(self).offset == old(self).offset,
            match r {
                Ok(_) => old(self).files.view_map().contains_key(str_units(name@))
                    && final(self).files.view_map() == old(self).files.view_map().remove(
                    str_units(name@)),
                Err(e) => e == OperationError::FileNotFound
                    && final(self).files.view_map() == old(self).files.view_map()
                    && final(fs).disk@ == old(fs).disk@,
            },
    {
        let units = match str_to_units(name) {
            Some(u) => u,
            None => {
                return Err(OperationError::FileNotFound);
            }
        };
        self.delete_file_units(fs, &units)
    }

    /// Create a sub-directory: a fresh cluster holding "." and ".."
    /// entries, an entry group in this directory, and a new binding.
    pub fn create_dir(&mut self, fs: &mut Fat32, name: &str) -> (r: Result<
        (),
        OperationError,
    >)
        requires
            old(fs).wf(),
            old(self).wf(),
            chain_of(old(fs).disk@, old(fs).meta, old(self).start_cluster) is Some,
        ensures
            final(fs).wf(),
            final(fs).meta == old(fs).meta,
            final(fs).disk@.len() == old(fs).disk@.len(),
            final(self).wf(),
            final(self).start_cluster == old(self).start_cluster,
            final(self).sector == old(self).sector,
            final(self).offset == old(self).offset,
            final(self).files.view_map() == old(self).files.view_map(),
            ({
                let k = str_units(name@);
                match r {
                    Ok(_) => {
                        &&& valid_name_str(name@)
                        &&& !old(self).sub_dirs.view_map().contains_key(k)
                        &&& final(self).sub_dirs.view_map().contains_key(k)
                        &&& final(self).sub_dirs.view_map() == old(
                            self).sub_dirs.view_map().insert(k, final(
                            self).sub_dirs.view_map()[k])
                        &&& ({
                            let v = final(self).sub_dirs.view_map()[k];
                            &&& valid_child(final(fs).disk@, old(fs).meta, v.start_cluster,
                                v.sector as int, v.offset as int)
                            &&& final(fs).disk@[v.sector as int][v.offset + 11]
                                == crate::entry::ATTR_DIRECTORY
                            &&& spec_size(final(fs).disk@, File {
                                start_cluster: 0,
                                sector: v.sector,
                                offset: v.offset,
                            }) == 0
                            &&& chain_of(final(fs).disk@, old(fs).meta,
                                v.start_cluster) is Some
                            &&& fat_entry_spec(old(fs).disk@, old(fs).meta,
                                v.start_cluster as int) is Free
                        })
                    },
                    Err(e) => {
                        &&& final(self).sub_dirs.view_map() == old(self).sub_dirs.view_map()
                        &&& (e == OperationError::InvalidDirName <==> !valid_name_str(name@))
                        &&& (e == OperationError::DirExist <==> valid_name_str(name@)
                            && old(self).sub_dirs.view_map().contains_key(k))
                        &&& (e == OperationError::InvalidDirName || e
                            == OperationError::DirExist || e == OperationError::NoEnoughSpace)
                        &&& (e == OperationError::NoEnoughSpace
                            ==> final(fs).fat.total_free_cluster == 0 || forall|c2: int|
                            2 <= c2 < spec_max_cluster(old(fs).meta) ==> !((
                            #[trigger] fat_entry_spec(final(fs).disk@, old(fs).meta,
                                c2)) is Free))
                        &&& (e == OperationError::InvalidDirName || e
                            == OperationError::DirExist ==> final(fs).disk@ == old(fs).disk@)
                    },
                }
            }),
    {
        let ghost m = fs.meta;
        let units = match str_to_units(name) {
            Some(u) => u,
            None => {
                proof {
                    let i = choose|i: int|
                        0 <= i < name@.len() && ((#[trigger] name@[i]) as u32) >= 0x10000;
                    assert(!valid_name_str(name@));
                }
                return Err(OperationError::InvalidDirName);
            }
        };
        if !check_name_units(&units) {
            proof {
                assert(units@ == str_units(name@));
                assert(!valid_name_str(name@)) by {
                    if valid_name_str(name@) {
                        assert forall|i: int|
                            0 <= i < units@.len() implies 0 < (#[trigger] units@[i]) by {
                            assert(0 < (name@[i] as u32) < 0x10000);
                        }
                    }
                }
            }
            return Err(OperationError::InvalidDirName);
        }
        proof {
            assert(valid_name_str(name@)) by {
                assert forall|i: int|
                    0 <= i < name@.len() implies 0 < ((#[trigger] name@[i]) as u32)
                    < 0x10000 by {
                    assert(0 < units@[i]);
                    assert((name@[i] as u32) == units@[i]);
                }
            }
        }
        match self.sub_dirs.get(&units) {
            Some(_) => {
                return Err(OperationError::DirExist);
            }
            None => {}
        }
        let b = narrow_units_exec(&units);
        let short_bytes = self.short_name_bytes(&b, DirEntryType::Dir);
        let copt = fs.fat.alloc_cluster(&fs.disk);
        let cluster = match copt {
            Some(c) => c,
            None => {
                return Err(OperationError::NoEnoughSpace);
            }
        };
        let ghost dv0 = fs.disk@;
        let ghost ch_dir = chain_of(fs.disk@, m, self.start_cluster)->Some_0;
        proof {
            crate::layout::lemma_chain_notin(fs.disk@, m, self.start_cluster,
                spec_max_cluster(m) as nat, cluster);
        }
        fs.fat.set_entry(&mut fs.disk, cluster, FatEntry::Eof, DirEntryType::Dir);
        proof {
            let dv1 = fs.disk@;
            crate::layout::lemma_fat_slot_in_range(m, cluster as int);
            assert(fat_entry_spec(dv1, m, cluster as int) is Eof) by {
                assert(crate::layout::fat_val(dv1, m, cluster as int) == 0x0FFFFFF8);
            }
            assert(chain_of(dv1, m, cluster) == Some(seq![cluster]));
            crate::layout::lemma_chain_offchain_write(dv0, dv1, m, self.start_cluster,
                spec_max_cluster(m) as nat, cluster as int);
        }
        let addr = match self.add_child_entries(fs, &units, &short_bytes, cluster,
            DirEntryType::Dir) {
            Ok(a) => a,
            Err(e) => {
                return Err(e);
            }
        };
        proof {
            assert(fat_entry_spec(fs.disk@, m, cluster as int) is Eof);
            assert(chain_of(fs.disk@, m, cluster) == Some(seq![cluster]));
        }
        // the child's "." and ".." entries; they land in the child's own
        // clusters, which are disjoint from the parent entry's sector
        let ghost dv_c = fs.disk@;
        let ghost pch_c = chain_of(dv_c, m, self.start_cluster)->Some_0;
        let ghost w = sector_cluster(m, addr.0 as int);
        proof {
            crate::layout::lemma_chain_from_props(dv_c, m, self.start_cluster,
                spec_max_cluster(m) as nat);
            let a0 = addr.0 as int;
            let wi = choose|wi: int|
                0 <= wi < pch_c.len() && spec_cluster_to_sector(m, (
                #[trigger] pch_c[wi]) as int) <= a0 < spec_cluster_to_sector(m,
                pch_c[wi] as int) + m.sectors_per_cluster;
            crate::layout::lemma_cluster_sectors_in_range(m, pch_c[wi] as int);
            crate::layout::lemma_sector_cluster_inverse(m, pch_c[wi] as int, addr.0 as int);
            assert(w == pch_c[wi]);
            assert(!(fat_entry_spec(dv_c, m, w as int) is Free)) by {
                if wi < pch_c.len() - 1 {
                    assert(fat_entry_spec(dv_c, m, pch_c[wi] as int) == FatEntry::Cluster(
                        pch_c[wi + 1]));
                } else {
                    assert(fat_entry_spec(dv_c, m, pch_c[wi] as int) == FatEntry::Eof);
                }
            }
            assert(!pch_c.contains(cluster));
            assert(w != cluster as int);
            assert(!chain_of(dv_c, m, cluster)->Some_0.contains(w as u32)) by {
                assert(chain_of(dv_c, m, cluster)->Some_0 =~= seq![cluster]);
            }
        }
        let child = Dir::empty(cluster, addr.0, addr.1);
        let mut dot_units: Vec<u16> = Vec::new();
        dot_units.push(0x2E);
        let mut dot_bytes: Vec<u8> = Vec::new();
        dot_bytes.push(0x2E);
        let _ = child.add_child_entries(fs, &dot_units, &dot_bytes, cluster,
            DirEntryType::Dot);
        let ghost dv_d1 = fs.disk@;
        proof {
            Self::lemma_dot_write_preserves_parent_slot(dv_c, dv_d1, m, cluster, w,
                addr.0 as int);
        }
        let mut dotdot_units: Vec<u16> = Vec::new();
        dotdot_units.push(0x2E);
        dotdot_units.push(0x2E);
        let mut dotdot_bytes: Vec<u8> = Vec::new();
        dotdot_bytes.push(0x2E);
        dotdot_bytes.push(0x2E);
        let _ = child.add_child_entries(fs, &dotdot_units, &dotdot_bytes, self.start_cluster,
            DirEntryType::DotDot);
        let ghost dv_d2 = fs.disk@;
        proof {
            Self::lemma_dot_write_preserves_parent_slot(dv_d1, dv_d2, m, cluster, w,
                addr.0 as int);
            assert(dv_d2[addr.0 as int] == dv_c[addr.0 as int]);
            assert(dv_d2[addr.0 as int].subrange(addr.1 + 20, addr.1 + 22)
                =~= dv_c[addr.0 as int].subrange(addr.1 + 20, addr.1 + 22));
            assert(dv_d2[addr.0 as int].subrange(addr.1 + 26, addr.1 + 28)
                =~= dv_c[addr.0 as int].subrange(addr.1 + 26, addr.1 + 28));
            assert(dv_d2[addr.0 as int].subrange(addr.1 + 28, addr.1 + 32)
                =~= dv_c[addr.0 as int].subrange(addr.1 + 28, addr.1 + 32));
        }
        self.sub_dirs.insert(units, ChildDir {
            start_cluster: cluster,
            sector: addr.0,
            offset: addr.1,
        });
        Ok(())
    }

    /// A write confined to a (grown) chain rooted at `cluster` leaves a
    /// sector of another allocated cluster `w` untouched, and keeps `w`
    /// allocated and off that chain.
    proof fn lemma_dot_write_preserves_parent_slot(dv1: Seq<Seq<u8>>, dv2: Seq<Seq<u8>>,
        m: MetaData, cluster: u32, w: int, sector: int)
        requires
            m.wf(),
            dv1.len() == m.total_sectors_32,
            dv2.len() == dv1.len(),
            chain_of(dv1, m, cluster) is Some,
            chain_of(dv2, m, cluster) is Some,
            2 <= w < spec_max_cluster(m),
            spec_cluster_to_sector(m, w) <= sector,
            sector < spec_cluster_to_sector(m, w) + m.sectors_per_cluster,
            !(fat_entry_spec(dv1, m, w) is Free),
            !chain_of(dv1, m, cluster)->Some_0.contains(w as u32),
            forall|c2: int|
                0 <= c2 < spec_max_cluster(m) && !((#[trigger] fat_entry_spec(dv1, m,
                    c2)) is Free) && !chain_of(dv1, m, cluster)->Some_0.contains(c2 as u32)
                    ==> {
                    &&& crate::layout::fat_val(dv2, m, c2) == crate::layout::fat_val(dv1, m,
                        c2)
                    &&& !chain_of(dv2, m, cluster)->Some_0.contains(c2 as u32)
                },
            forall|sp: int|
                spec_root_dir_start(m) <= sp < dv1.len() && !in_chain_sectors(m, chain_of(
                    dv2, m, cluster)->Some_0, sp) ==> #[trigger] dv2[sp] == dv1[sp],
        ensures
            dv2[sector] == dv1[sector],
            !(fat_entry_spec(dv2, m, w) is Free),
            !chain_of(dv2, m, cluster)->Some_0.contains(w as u32),
    {
        let cc = chain_of(dv2, m, cluster)->Some_0;
        crate::layout::lemma_chain_from_props(dv2, m, cluster, spec_max_cluster(m) as nat);
        assert(crate::layout::fat_val(dv2, m, w) == crate::layout::fat_val(dv1, m, w));
        assert(!cc.contains(w as u32));
        assert(!in_chain_sectors(m, cc, sector)) by {
            if in_chain_sectors(m, cc, sector) {
                let j = choose|j: int|
                    0 <= j < cc.len() && spec_cluster_to_sector(m, (#[trigger] cc[j]) as int)
                        <= sector < spec_cluster_to_sector(m, cc[j] as int)
                        + m.sectors_per_cluster;
                crate::layout::lemma_sector_cluster_inverse(m, cc[j] as int, sector);
                crate::layout::lemma_sector_cluster_inverse(m, w, sector);
                assert(cc[j] as int == w);
                assert(cc.contains(w as u32));
            }
        }
        crate::layout::lemma_cluster_sectors_in_range(m, w);
        assert(dv2[sector] == dv1[sector]);
    }

    /// Delete a sub-directory and everything in it; deleting "." or ".."
    /// is silently a no-op.
    pub fn delete_dir(&mut self, fs: &mut Fat32, name: &str) -> (r: Result<
        (),
        OperationError,
    >)
        requires
            old(fs).wf(),
            old(self).wf(),
        ensures
            final(fs).wf(),
            final(fs).meta == old(fs).meta,
            final(fs).disk@.len() == old(fs).disk@.len(),
            final(self).wf(),
            final(self).files.view_map() == old(self).files.view_map(),
            final(self).start_cluster == old(self).start_cluster,
            final(self).sector == old(self).sector,
            final(self).offset == old(self).offset,
            ({
                let k = str_units(name@);
                match r {
                    Ok(_) => if k == seq![0x2Eu16] || k == seq![0x2Eu16, 0x2Eu16] {
                        final(self).sub_dirs.view_map() == old(self).sub_dirs.view_map()
                    } else {
                        &&& old(self).sub_dirs.view_map().contains_key(k)
                        &&& final(self).sub_dirs.view_map() == old(
                            self).sub_dirs.view_map().remove(k)
                        &&& ({
                            let v = old(self).sub_dirs.view_map()[k];
                            2 <= v.start_cluster < spec_max_cluster(old(fs).meta)
                                && chain_of(old(fs).disk@, old(fs).meta,
                                v.start_cluster) is Some ==> fat_entry_spec(final(fs).disk@,
                                old(fs).meta, v.start_cluster as int) is Free
                        })
                    },
                    Err(e) => e == OperationError::DirNotFound && final(
                        self).sub_dirs.view_map() == old(self).sub_dirs.view_map(),
                }
            }),
    {
        let units = match str_to_units(name) {
            Some(u) => u,
            None => {
                return Err(OperationError::DirNotFound);
            }
        };
        if units.len() == 1 && units[0] == 0x2E {
            proof {
                assert(units@ =~= seq![0x2Eu16]);
            }
            return Ok(());
        }
        if units.len() == 2 && units[0] == 0x2E && units[1] == 0x2E {
            proof {
                assert(units@ =~= seq![0x2Eu16, 0x2Eu16]);
            }
            return Ok(());
        }
        proof {
            if units@ == seq![0x2Eu16] {
                assert(units@.len() == 1 && units@[0] == 0x2Eu16);
            }
            if units@ == seq![0x2Eu16, 0x2Eu16] {
                assert(units@.len() == 2 && units@[0] == 0x2Eu16 && units@[1] == 0x2Eu16);
            }
        }
        let info = match self.sub_dirs.remove(&units) {
            Some(i) => i,
            None => {
                return Err(OperationError::DirNotFound);
            }
        };
        self.reap_child_dir(fs, info, 64);
        Ok(())
    }

    /// Empty a removed child directory and release its storage.
    fn reap_child_dir(&self, fs: &mut Fat32, info: ChildDir, fuel: u32)
        requires
            old(fs).wf(),
        ensures
            final(fs).wf(),
            final(fs).meta == old(fs).meta,
            final(fs).disk@.len() == old(fs).disk@.len(),
            fuel >= 1 && 2 <= info.start_cluster < spec_max_cluster(old(fs).meta)
                && chain_of(old(fs).disk@, old(fs).meta, info.start_cluster) is Some
                ==> fat_entry_spec(final(fs).disk@, old(fs).meta,
                info.start_cluster as int) is Free,
        decreases fuel, 1int,
    {
        if fuel == 0 {
            return;
        }
        if !(2 <= info.start_cluster && info.start_cluster < Fat::max_cluster_exec(&fs.meta)) {
            return;
        }
        if !Fat32::check_chain(&fs.meta, &fs.disk, info.start_cluster) {
            return;
        }
        let mut child = Dir::new(fs, info.start_cluster, info.sector, info.offset);
        child.clear(fs, (fuel - 1) as u32);
        // release the head cluster and the entry group in the parent
        fs.fat.set_entry(&mut fs.disk, info.start_cluster, FatEntry::Free,
            DirEntryType::Dir);
        if fs.fat.total_free_cluster < 0xFFFF_FFFF {
            fs.fat.total_free_cluster = fs.fat.total_free_cluster + 1;
        }
        proof {
            assert(fat_entry_spec(fs.disk@, fs.meta, info.start_cluster as int) is Free) by {
                assert(crate::layout::fat_val(fs.disk@, fs.meta, info.start_cluster as int)
                    == 0);
            }
        }
        let ghost dv_freed = fs.disk@;
        let rds = fs.meta.root_dir_start_sector();
        if rds <= info.sector && info.sector < fs.disk.len() && info.offset % 32 == 0
            && info.offset <= 480 {
            if Fat32::check_chain(&fs.meta, &fs.disk, self.start_cluster) {
                let dir_chain = fs.fat.get_cluster_chain(&fs.disk, self.start_cluster);
                let _ = self.delete_entry(fs, info.start_cluster, (info.sector, info.offset),
                    &dir_chain);
            } else {
                let empty: Vec<u32> = Vec::new();
                let _ = self.delete_entry(fs, info.start_cluster, (info.sector, info.offset),
                    &empty);
            }
        }
        proof {
            // the entry marks touch no FAT byte
            crate::layout::lemma_fat_region_same_chains(dv_freed, fs.disk@, fs.meta,
                info.start_cluster, 0);
        }
    }

    /// Delete every loaded child of this directory, then shrink its chain
    /// to the head cluster. "." and ".." survive.
    pub fn clear(&mut self, fs: &mut Fat32, fuel: u32)
        requires
            old(fs).wf(),
            old(self).wf(),
        ensures
            final(fs).wf(),
            final(fs).meta == old(fs).meta,
            final(fs).disk@.len() == old(fs).disk@.len(),
            final(self).wf(),
            final(self).files.entries@.len() == 0,
            2 <= old(self).start_cluster < spec_max_cluster(old(fs).meta) && chain_of(
                final(fs).disk@, old(fs).meta, old(self).start_cluster) is Some ==> chain_of(
                final(fs).disk@, old(fs).meta, old(self).start_cluster) == Some(seq![
                old(self).start_cluster,
            ]),
        decreases fuel, 0int,
    {
        // files first
        loop
            invariant_except_break
                fs.wf(),
                fs.meta == old(fs).meta,
                fs.disk@.len() == old(fs).disk@.len(),
                self.wf(),
                self.start_cluster == old(self).start_cluster,
            ensures
                fs.wf(),
                fs.meta == old(fs).meta,
                fs.disk@.len() == old(fs).disk@.len(),
                self.wf(),
                self.files.entries@.len() == 0,
                self.start_cluster == old(self).start_cluster,
            decreases self.files.entries@.len(),
        {
            match self.files.pop_entry() {
                Some(p) => {
                    self.remove_file_on_disk(fs, p.1);
                }
                None => {
                    break;
                }
            }
        }
        // then sub-directories, keeping "." and ".."
        let mut kept: Vec<(Vec<u16>, ChildDir)> = Vec::new();
        loop
            invariant_except_break
                fs.wf(),
                fs.meta == old(fs).meta,
                fs.disk@.len() == old(fs).disk@.len(),
                self.wf(),
                self.files.entries@.len() == 0,
                self.start_cluster == old(self).start_cluster,
            ensures
                fs.wf(),
                fs.meta == old(fs).meta,
                fs.disk@.len() == old(fs).disk@.len(),
                self.wf(),
                self.files.entries@.len() == 0,
                self.start_cluster == old(self).start_cluster,
            decreases self.sub_dirs.entries@.len(),
        {
            match self.sub_dirs.pop_entry() {
                Some(p) => {
                    let (k, v) = p;
                    let keep = (k.len() == 1 && k[0] == 0x2E) || (k.len() == 2 && k[0]
                        == 0x2E && k[1] == 0x2E);
                    if keep {
                        kept.push((k, v));
                    } else {
                        if fuel >= 1 {
                            self.reap_child_dir(fs, v, (fuel - 1) as u32);
                        }
                    }
                }
                None => {
                    break;
                }
            }
        }
        // put the dot entries back
        let mut i: usize = 0;
        while i < kept.len()
            invariant
                fs.wf(),
                fs.meta == old(fs).meta,
                fs.disk@.len() == old(fs).disk@.len(),
                self.wf(),
                self.files.entries@.len() == 0,
                self.start_cluster == old(self).start_cluster,
                i <= kept@.len(),
            decreases kept@.len() - i,
        {
            let name_copy = vstd::slice::slice_to_vec(kept[i].0.as_slice());
            self.sub_dirs.insert(name_copy, kept[i].1);
            i += 1;
        }
        // shrink the chain to the head
        if 2 <= self.start_cluster && self.start_cluster < Fat::max_cluster_exec(&fs.meta) {
            if Fat32::check_chain(&fs.meta, &fs.disk, self.start_cluster) {
                let chain = fs.fat.get_cluster_chain(&fs.disk, self.start_cluster);
                let ghost m = fs.meta;
                proof {
                    crate::layout::lemma_chain_from_props(fs.disk@, m, self.start_cluster,
                        spec_max_cluster(m) as nat);
                }
                let mut j: usize = 1;
                while j < chain.len()
                    invariant
                        fs.wf(),
                        m == fs.meta,
                        fs.disk@.len() == old(fs).disk@.len(),
                        fs.meta == old(fs).meta,
                        1 <= j <= chain@.len(),
                        forall|t: int| 0 <= t < chain@.len() ==> 2 <= #[trigger] chain@[t]
                            < spec_max_cluster(m),
                    decreases chain@.len() - j,
                {
                    fs.fat.set_entry(&mut fs.disk, chain[j], FatEntry::Free,
                        DirEntryType::File);
                    if fs.fat.total_free_cluster < 0xFFFF_FFFF {
                        fs.fat.total_free_cluster = fs.fat.total_free_cluster + 1;
                    }
                    j += 1;
                }
                fs.fat.set_entry(&mut fs.disk, self.start_cluster, FatEntry::Eof,
                    DirEntryType::File);
                proof {
                    assert(fat_entry_spec(fs.disk@, m, self.start_cluster as int) is Eof) by {
                        assert(crate::layout::fat_val(fs.disk@, m,
                            self.start_cluster as int) == 0x0FFFFFFF);
                    }
                    assert(chain_of(fs.disk@, m, self.start_cluster) == Some(seq![
                        self.start_cluster,
                    ]));
                }
            }
        }
    }

    /// Rebind a file under a new name: the entry group moves, the start
    /// cluster and size stay.
    #[verifier::rlimit(100)]
    #[verifier::spinoff_prover]
    pub fn rename_file(&mut self, fs: &mut Fat32, old_name: &str, new_name: &str) -> (r:
        Result<(), OperationError>)
        requires
            old(fs).wf(),
            old(self).wf(),
            chain_of(old(fs).disk@, old(fs).meta, old(self).start_cluster) is Some,
        ensures
            final(fs).wf(),
            final(fs).meta == old(fs).meta,
            final(fs).disk@.len() == old(fs).disk@.len(),
            final(self).wf(),
            final(self).sub_dirs.view_map() == old(self).sub_dirs.view_map(),
            ({
                let ko = str_units(old_name@);
                let kn = str_units(new_name@);
                match r {
                    Ok(_) => {
                        &&& old(self).files.view_map().contains_key(ko)
                        &&& final(self).files.view_map().contains_key(kn)
                        &&& final(self).files.view_map() == old(
                            self).files.view_map().remove(ko).insert(kn, final(
                            self).files.view_map()[kn])
                        &&& final(self).files.view_map()[kn].start_cluster == old(
                            self).files.view_map()[ko].start_cluster
                        &&& (rename_safe(old(fs).disk@, old(fs).meta, old(self).start_cluster,
                            old(self).files.view_map()[ko]) ==> {
                            let f0 = old(self).files.view_map()[ko];
                            let f2 = final(self).files.view_map()[kn];
                            &&& chain_of(final(fs).disk@, old(fs).meta, f2.start_cluster)
                                == chain_of(old(fs).disk@, old(fs).meta, f0.start_cluster)
                            &&& file_content(final(fs).disk@, old(fs).meta, f2.start_cluster)
                                == file_content(old(fs).disk@, old(fs).meta, f0.start_cluster)
                            &&& spec_size(final(fs).disk@, f2) == spec_size(old(fs).disk@, f0)
                        })
                    },
                    Err(e) => {
                        &&& (e == OperationError::FileNotFound || e
                            == OperationError::InvalidDirName || e
                            == OperationError::NoEnoughSpace)
                        &&& (e == OperationError::FileNotFound || e
                            == OperationError::InvalidDirName ==> final(fs).disk@
                            == old(fs).disk@)
                        &&& (e == OperationError::NoEnoughSpace
                            ==> final(fs).fat.total_free_cluster == 0 || forall|c2: int|
                            2 <= c2 < spec_max_cluster(old(fs).meta) ==> !((
                            #[trigger] fat_entry_spec(final(fs).disk@, old(fs).meta,
                                c2)) is Free))
                    },
                }
            }),
    {
        let ghost m = fs.meta;
        let ghost dv_a = fs.disk@;
        let ghost dir_ch = chain_of(dv_a, m, self.start_cluster)->Some_0;
        let new_units = match str_to_units(new_name) {
            Some(u) => u,
            None => {
                return Err(OperationError::InvalidDirName);
            }
        };
        if !check_name_units(&new_units) {
            return Err(OperationError::InvalidDirName);
        }
        let old_units = match str_to_units(old_name) {
            Some(u) => u,
            None => {
                return Err(OperationError::FileNotFound);
            }
        };
        let f = match self.files.remove(&old_units) {
            Some(f) => f,
            None => {
                return Err(OperationError::FileNotFound);
            }
        };
        let ghost hyp = rename_safe(dv_a, m, self.start_cluster, f);
        let ghost fch = chain_of(dv_a, m, f.start_cluster)->Some_0;
        // remember the current size before the old entry goes away
        let rds = fs.meta.root_dir_start_sector();
        let size0: u32 = if rds <= f.sector && f.sector < fs.disk.len() && f.offset % 32 == 0
            && f.offset <= 480 {
            let bytes = fs.disk.read_bytes(f.sector, f.offset + 28, 4);
            u32_from_le_bytes(bytes.as_slice())
        } else {
            0
        };
        proof {
            if hyp {
                assert(fs.disk@[f.sector as int].subrange(f.offset + 28, f.offset + 32)
                    =~= fs.disk@[f.sector as int].subrange(f.offset + 28, f.offset + 32));
                assert(size0 == spec_size(dv_a, f));
            }
        }
        if rds <= f.sector && f.sector < fs.disk.len() && f.offset % 32 == 0 && f.offset
            <= 480 {
            if Fat32::check_chain(&fs.meta, &fs.disk, self.start_cluster) {
                let dir_chain = fs.fat.get_cluster_chain(&fs.disk, self.start_cluster);
                let _ = self.delete_entry(fs, f.start_cluster, (f.sector, f.offset),
                    &dir_chain);
            }
        }
        let ghost dv_b = fs.disk@;
        proof {
            crate::layout::lemma_fat_region_same_chains(dv_a, dv_b, m, self.start_cluster,
                spec_max_cluster(m) as nat);
        }
        if !Fat32::check_chain(&fs.meta, &fs.disk, self.start_cluster) {
            proof {
                // the deletion marks leave the FAT region alone, so the
                // directory's chain cannot have broken
                assert(false);
            }
            return Err(OperationError::NoEnoughSpace);
        }
        let b = narrow_units_exec(&new_units);
        let short_bytes = self.short_name_bytes(&b, DirEntryType::File);
        let addr = match self.add_child_entries(fs, &new_units, &short_bytes,
            f.start_cluster, DirEntryType::File) {
            Ok(a) => a,
            Err(e) => {
                return Err(e);
            }
        };
        let ghost dv_c = fs.disk@;
        let ghost ch_c = chain_of(dv_c, m, self.start_cluster)->Some_0;
        let f2 = File::new(f.start_cluster, addr);
        // carry the size into the fresh entry
        proof {
            crate::layout::lemma_cluster_sectors_in_range(fs.meta, spec_max_cluster(
                fs.meta) - 1);
        }
        let four = crate::utils::u32_to_le_bytes(size0);
        fs.disk.write_bytes(addr.0, addr.1 + 28, four.as_slice());
        proof {
            let dv_d = fs.disk@;
            assert(dv_d[addr.0 as int].subrange(addr.1 + 28, addr.1 + 32) =~= four@);
            assert(spec_size(dv_d, f2) == size0);
            if hyp {
                lemma_rename_preserves(dv_a, dv_b, dv_c, dv_d, m, self.start_cluster, f,
                    addr.0 as int, ch_c);
            }
        }
        self.files.insert(new_units, f2);
        Ok(())
    }

    /// Rebind a sub-directory under a new name.
    pub fn rename_dir(&mut self, fs: &mut Fat32, old_name: &str, new_name: &str) -> (r:
        Result<(), OperationError>)
        requires
            old(fs).wf(),
            old(self).wf(),
            chain_of(old(fs).disk@, old(fs).meta, old(self).start_cluster) is Some,
        ensures
            final(fs).wf(),
            final(fs).meta == old(fs).meta,
            final(fs).disk@.len() == old(fs).disk@.len(),
            final(self).wf(),
            final(self).files.view_map() == old(self).files.view_map(),
            ({
                let ko = str_units(old_name@);
                let kn = str_units(new_name@);
                match r {
                    Ok(_) => {
                        &&& old(self).sub_dirs.view_map().contains_key(ko)
                        &&& final(self).sub_dirs.view_map().contains_key(kn)
                        &&& final(self).sub_dirs.view_map() == old(
                            self).sub_dirs.view_map().remove(ko).insert(kn, final(
                            self).sub_dirs.view_map()[kn])
                        &&& final(self).sub_dirs.view_map()[kn].start_cluster == old(
                            self).sub_dirs.view_map()[ko].start_cluster
                    },
                    Err(e) => {
                        &&& (e == OperationError::DirNotFound || e
                            == OperationError::InvalidDirName || e
                            == OperationError::NoEnoughSpace)
                        &&& (e == OperationError::DirNotFound || e
                            == OperationError::InvalidDirName ==> final(fs).disk@
                            == old(fs).disk@)
                        &&& (e == OperationError::NoEnoughSpace
                            ==> final(fs).fat.total_free_cluster == 0 || forall|c2: int|
                            2 <= c2 < spec_max_cluster(old(fs).meta) ==> !((
                            #[trigger] fat_entry_spec(final(fs).disk@, old(fs).meta,
                                c2)) is Free))
                    },
                }
            }),
    {
        let ghost m = fs.meta;
        let ghost dv_a = fs.disk@;
        let new_units = match str_to_units(new_name) {
            Some(u) => u,
            None => {
                return Err(OperationError::InvalidDirName);
            }
        };
        if !check_name_units(&new_units) {
            return Err(OperationError::InvalidDirName);
        }
        let old_units = match str_to_units(old_name) {
            Some(u) => u,
            None => {
                return Err(OperationError::DirNotFound);
            }
        };
        let d = match self.sub_dirs.remove(&old_units) {
            Some(d) => d,
            None => {
                return Err(OperationError::DirNotFound);
            }
        };
        let rds = fs.meta.root_dir_start_sector();
        if rds <= d.sector && d.sector < fs.disk.len() && d.offset % 32 == 0 && d.offset
            <= 480 {
            if Fat32::check_chain(&fs.meta, &fs.disk, self.start_cluster) {
                let dir_chain = fs.fat.get_cluster_chain(&fs.disk, self.start_cluster);
                let _ = self.delete_entry(fs, d.start_cluster, (d.sector, d.offset),
                    &dir_chain);
            }
        }
        proof {
            crate::layout::lemma_fat_region_same_chains(dv_a, fs.disk@, m,
                self.start_cluster, spec_max_cluster(m) as nat);
        }
        if !Fat32::check_chain(&fs.meta, &fs.disk, self.start_cluster) {
            proof {
                assert(false);
            }
            return Err(OperationError::NoEnoughSpace);
        }
        let b = narrow_units_exec(&new_units);
        let short_bytes = self.short_name_bytes(&b, DirEntryType::Dir);
        let addr = match self.add_child_entries(fs, &new_units, &short_bytes,
            d.start_cluster, DirEntryType::Dir) {
            Ok(a) => a,
            Err(e) => {
                return Err(e);
            }
        };
        self.sub_dirs.insert(new_units, ChildDir {
            start_cluster: d.start_cluster,
            sector: addr.0,
            offset: addr.1,
        });
        Ok(())
    }

    /// Grow this directory's chain by one zeroed cluster.
    #[verifier::rlimit(60)]
    #[verifier::spinoff_prover]
    fn grow_dir_chain(&self, fs: &mut Fat32) -> (r: Result<(), OperationError>)
        requires
            old(fs).wf(),
            chain_of(old(fs).disk@, old(fs).meta, self.start_cluster) is Some,
        ensures
            final(fs).wf(),
            final(fs).meta == old(fs).meta,
            final(fs).disk@.len() == old(fs).disk@.len(),
            chain_of(final(fs).disk@, final(fs).meta, self.start_cluster) is Some,
            r is Ok ==> old(fs).fat.total_free_cluster > 0 && final(fs).fat.total_free_cluster
                == old(fs).fat.total_free_cluster - 1,
            r is Err ==> {
                &&& r->Err_0 == OperationError::NoEnoughSpace
                &&& final(fs).fat.total_free_cluster == old(fs).fat.total_free_cluster
                &&& (final(fs).fat.total_free_cluster == 0 || forall|c2: int|
                    2 <= c2 < spec_max_cluster(old(fs).meta) ==> !((#[trigger] fat_entry_spec(
                        final(fs).disk@, old(fs).meta, c2)) is Free))
            },
            forall|c2: int|
                0 <= c2 < spec_max_cluster(old(fs).meta) && !((#[trigger] fat_entry_spec(
                    old(fs).disk@, old(fs).meta, c2)) is Free) && !chain_of(old(fs).disk@,
                    old(fs).meta, self.start_cluster)->Some_0.contains(c2 as u32) ==> {
                    &&& crate::layout::fat_val(final(fs).disk@, old(fs).meta, c2)
                        == crate::layout::fat_val(old(fs).disk@, old(fs).meta, c2)
                    &&& !chain_of(final(fs).disk@, old(fs).meta,
                        self.start_cluster)->Some_0.contains(c2 as u32)
                },
            forall|i: int|
                0 <= i < chain_of(old(fs).disk@, old(fs).meta,
                    self.start_cluster)->Some_0.len() ==> chain_of(final(fs).disk@,
                    old(fs).meta, self.start_cluster)->Some_0.contains(#[trigger] chain_of(
                    old(fs).disk@, old(fs).meta, self.start_cluster)->Some_0[i]),
            forall|sp: int|
                spec_root_dir_start(old(fs).meta) <= sp < old(fs).disk@.len()
                    && !in_chain_sectors(old(fs).meta, chain_of(final(fs).disk@, old(fs).meta,
                    self.start_cluster)->Some_0, sp) ==> #[trigger] final(fs).disk@[sp]
                    == old(fs).disk@[sp],
    {
        let ghost m = fs.meta;
        let ghost ch00 = chain_of(fs.disk@, m, self.start_cluster)->Some_0;
        let chain = fs.fat.get_cluster_chain(&fs.disk, self.start_cluster);
        proof {
            crate::layout::lemma_chain_from_props(fs.disk@, m, self.start_cluster,
                spec_max_cluster(m) as nat);
        }
        let last = chain[chain.len() - 1];
        let copt = fs.fat.alloc_cluster(&fs.disk);
        let c = match copt {
            Some(c) => c,
            None => {
                return Err(OperationError::NoEnoughSpace);
            }
        };
        let ghost dv0 = fs.disk@;
        proof {
            assert(fat_entry_spec(dv0, m, last as int) is Eof);
            assert(c != last);
        }
        fs.fat.set_entry(&mut fs.disk, c, FatEntry::Eof, DirEntryType::Dir);
        let ghost dv1 = fs.disk@;
        fs.fat.set_entry(&mut fs.disk, last, FatEntry::Cluster(c), DirEntryType::Dir);
        proof {
            let dv2 = fs.disk@;
            assert(fat_entry_spec(dv2, m, last as int) == FatEntry::Cluster(c)) by {
                assert(crate::layout::fat_val(dv2, m, last as int)
                    == crate::layout::spec_encode(FatEntry::Cluster(c), DirEntryType::Dir));
                assert(spec_max_cluster(m) <= 0x0100_0002) by {
                    crate::layout::lemma_chain_len_bound(dv0, m, self.start_cluster,
                        spec_max_cluster(m) as nat);
                }
            }
            assert(fat_entry_spec(dv2, m, c as int) is Eof) by {
                assert(crate::layout::fat_val(dv1, m, c as int) == 0x0FFFFFF8);
                assert(crate::layout::fat_val(dv2, m, c as int) == crate::layout::fat_val(dv1,
                    m, c as int));
            }
            assert forall|c2: int|
                0 <= c2 < spec_max_cluster(m) && c2 != c && c2 != last
                    implies crate::layout::fat_val(fs.disk@, m, c2)
                    == crate::layout::fat_val(dv0, m, c2) by {}
            crate::layout::lemma_chain_extend(dv0, fs.disk@, m, self.start_cluster, c);
            assert forall|c2: int|
                0 <= c2 < spec_max_cluster(m) && !((#[trigger] fat_entry_spec(dv0, m,
                    c2)) is Free) && !ch00.contains(c2 as u32) implies {
                &&& crate::layout::fat_val(fs.disk@, m, c2) == crate::layout::fat_val(dv0, m,
                    c2)
                &&& !chain_of(fs.disk@, m, self.start_cluster)->Some_0.contains(c2 as u32)
            } by {
                assert(c2 != c);
                assert(ch00.contains(last)) by {
                    assert(ch00[ch00.len() - 1] == last);
                }
                assert(c2 != last as int);
                let chn = chain_of(fs.disk@, m, self.start_cluster)->Some_0;
                assert(chn == ch00.push(c));
                if chn.contains(c2 as u32) {
                    let i = choose|i: int| 0 <= i < chn.len() && chn[i] == c2 as u32;
                    if i < ch00.len() {
                        assert(ch00.contains(c2 as u32));
                    } else {
                        assert(chn[i] == c);
                    }
                }
            }
        }
        // zero the fresh cluster
        let first = fs.meta.cluster_to_sector(c);
        proof {
            lemma_cluster_sectors_in_range(m, c as int);
        }
        let spc = fs.meta.sectors_per_cluster as usize;
        let ghost chx = chain_of(fs.disk@, m, self.start_cluster)->Some_0;
        let ghost dv2s = fs.disk@;
        let ghost fat_now = fs.fat;
        proof {
            assert(chx == ch00.push(c));
            assert forall|i: int| 0 <= i < ch00.len() implies chx.contains(
                #[trigger] ch00[i]) by {
                assert(chx[i] == ch00[i]);
            }
            assert(chx.contains(c)) by {
                assert(chx[chx.len() - 1] == c);
            }
        }
        let zeros: Vec<u8> = vec![0u8; BLOCK_SIZE];
        let mut j: usize = 0;
        while j < spc
            invariant
                fs.wf(),
                m == fs.meta,
                m == old(fs).meta,
                fs.disk@.len() == old(fs).disk@.len(),
                zeros@.len() == BLOCK_SIZE,
                spc == m.sectors_per_cluster,
                first + spc <= fs.disk@.len(),
                spec_root_dir_start(m) <= first as int,
                j <= spc,
                chain_of(fs.disk@, m, self.start_cluster) == Some(chx),
                forall|c2: int|
                    0 <= c2 < spec_max_cluster(m) ==> crate::layout::fat_val(fs.disk@, m, c2)
                        == crate::layout::fat_val(dv2s, m, c2),
                first as int == spec_cluster_to_sector(m, c as int),
                chx.contains(c),
                fs.fat == fat_now,
                fat_now.total_free_cluster == old(fs).fat.total_free_cluster - 1,
                old(fs).fat.total_free_cluster > 0,
                forall|sp: int|
                    spec_root_dir_start(m) <= sp < fs.disk@.len() && !in_chain_sectors(m, chx,
                        sp) ==> #[trigger] fs.disk@[sp] == dv2s[sp],
            decreases spc - j,
        {
            let ghost dvp = fs.disk@;
            fs.disk.write_bytes(first + j, 0, zeros.as_slice());
            proof {
                assert(in_chain_sectors(m, chx, first + j)) by {
                    let w = choose|i: int| 0 <= i < chx.len() && chx[i] == c;
                    assert(spec_cluster_to_sector(m, chx[w] as int) <= first + j);
                    assert(first + j < spec_cluster_to_sector(m, chx[w] as int)
                        + m.sectors_per_cluster);
                }
            }
            j += 1;
            proof {
                assert forall|sp: int|
                    0 <= sp < spec_root_dir_start(m) implies #[trigger] fs.disk@[sp]
                        == dvp[sp] by {}
                crate::layout::lemma_fat_region_same_chains(dvp, fs.disk@, m,
                    self.start_cluster, spec_max_cluster(m) as nat);
                assert forall|c2: int|
                    0 <= c2 < spec_max_cluster(m) implies crate::layout::fat_val(fs.disk@, m,
                        c2) == crate::layout::fat_val(dvp, m, c2) by {
                    crate::layout::lemma_fat_region_same_chains(dvp, fs.disk@, m, c2 as u32,
                        0);
                }
            }
        }
        proof {
            assert forall|sp: int|
                spec_root_dir_start(m) <= sp < old(fs).disk@.len() && !in_chain_sectors(m,
                    chain_of(fs.disk@, m, self.start_cluster)->Some_0, sp)
                    implies #[trigger] fs.disk@[sp] == old(fs).disk@[sp] by {
                crate::layout::lemma_fat_slot_in_range(m, c as int);
                crate::layout::lemma_fat_slot_in_range(m, last as int);
                assert(dv2s[sp] == old(fs).disk@[sp]);
            }
        }
        Ok(())
    }

    /// One pass over the entry stream looking for `need` free slots in a
    /// contiguous run; no claims are made here, the caller validates.
    fn scan_for_slots(&self, fs: &Fat32, need: usize) -> (r: Option<Vec<(usize, usize)>>)
        requires
            fs.wf(),
            chain_of(fs.disk@, fs.meta, self.start_cluster) is Some,
            1 <= need,
    {
        let sectors = self.clusters_to_sectors(fs);
        let mut collect: Vec<(usize, usize)> = Vec::new();
        let mut si: usize = 0;
        let mut prev: (usize, usize) = (0, 0);
        let mut have_prev = false;
        while si < sectors.len()
            invariant
                fs.wf(),
                si <= sectors@.len(),
                collect@.len() < need,
                have_prev ==> prev.1 <= 480 && (prev.0 as int) < fs.disk@.len(),
                fs.disk@.len() <= 0x00FF_FFFF,
                forall|i: int| 0 <= i < sectors@.len() ==> spec_root_dir_start(fs.meta)
                    <= ((#[trigger] sectors@[i]) as int) && (sectors@[i] as int)
                    < fs.disk@.len(),
            decreases sectors@.len() - si,
        {
            let sector = sectors[si];
            let mut ei: usize = 0;
            while ei < 16
                invariant
                    fs.wf(),
                    ei <= 16,
                    collect@.len() < need,
                    have_prev ==> prev.1 <= 480 && (prev.0 as int) < fs.disk@.len(),
                    fs.disk@.len() <= 0x00FF_FFFF,
                    spec_root_dir_start(fs.meta) <= (sector as int),
                    (sector as int) < fs.disk@.len(),
                decreases 16 - ei,
            {
                let b0 = fs.disk.read_byte(sector, ei * 32);
                if b0 == 0x00 || b0 == 0xE5 {
                    // contiguous with the previous find?
                    let contiguous = if !have_prev || collect.len() == 0 {
                        true
                    } else {
                        (prev.0 == sector && prev.1 + 32 == ei * 32) || (prev.0 + 1 == sector
                            && ei == 0) || (prev.1 == 512 - 32 && ei == 0 && prev.0 != sector)
                    };
                    if !contiguous {
                        collect.clear();
                    }
                    collect.push((sector, ei * 32));
                    prev = (sector, ei * 32);
                    have_prev = true;
                    if collect.len() == need {
                        return Some(collect);
                    }
                } else {
                    collect.clear();
                    have_prev = false;
                }
                ei += 1;
            }
            si += 1;
        }
        None
    }

    /// Find `need` consecutive free 32-byte slots in this directory's
    /// entry stream, growing the chain with zeroed clusters when the
    /// stream has no such run. Every returned slot is a free slot of the
    /// stream, in a sector of the directory's chain.
    pub fn find_enough_entry(&self, fs: &mut Fat32, need: usize) -> (r: Result<
        Vec<(usize, usize)>,
        OperationError,
    >)
        requires
            old(fs).wf(),
            chain_of(old(fs).disk@, old(fs).meta, self.start_cluster) is Some,
            1 <= need <= 1000,
        ensures
            final(fs).wf(),
            final(fs).meta == old(fs).meta,
            final(fs).disk@.len() == old(fs).disk@.len(),
            chain_of(final(fs).disk@, final(fs).meta, self.start_cluster) is Some,
            match r {
                Ok(v) => {
                    &&& v@.len() == need
                    &&& forall|i: int| 0 <= i < v@.len() ==> spec_root_dir_start(old(fs).meta)
                        <= ((#[trigger] v@[i]).0 as int) && (v@[i].0 as int)
                        < final(fs).disk@.len()
                    &&& forall|i: int| 0 <= i < v@.len() ==> (#[trigger] v@[i]).1 % 32 == 0
                        && v@[i].1 + 32 <= 512
                    &&& forall|i: int| 0 <= i < v@.len() ==> {
                        let b = final(fs).disk@[(#[trigger] v@[i]).0 as int][v@[i].1 as int];
                        b == 0x00u8 || b == 0xE5u8
                    }
                    &&& forall|i: int| 0 <= i < v@.len() ==> in_chain_sectors(old(fs).meta,
                        chain_of(final(fs).disk@, old(fs).meta, self.start_cluster)->Some_0,
                        (#[trigger] v@[i]).0 as int)
                    &&& forall|i: int, j: int|
                        0 <= i < j < v@.len() ==> (#[trigger] v@[i]) != (#[trigger] v@[j])
                },
                Err(e) => e == OperationError::NoEnoughSpace,
            },
            forall|c2: int|
                0 <= c2 < spec_max_cluster(old(fs).meta) && !((#[trigger] fat_entry_spec(
                    old(fs).disk@, old(fs).meta, c2)) is Free) && !chain_of(old(fs).disk@,
                    old(fs).meta, self.start_cluster)->Some_0.contains(c2 as u32) ==> {
                    &&& crate::layout::fat_val(final(fs).disk@, old(fs).meta, c2)
                        == crate::layout::fat_val(old(fs).disk@, old(fs).meta, c2)
                    &&& !chain_of(final(fs).disk@, old(fs).meta,
                        self.start_cluster)->Some_0.contains(c2 as u32)
                },
            forall|sp: int|
                spec_root_dir_start(old(fs).meta) <= sp < old(fs).disk@.len()
                    && !in_chain_sectors(old(fs).meta, chain_of(final(fs).disk@, old(fs).meta,
                    self.start_cluster)->Some_0, sp) ==> #[trigger] final(fs).disk@[sp]
                    == old(fs).disk@[sp],
            forall|i: int|
                0 <= i < chain_of(old(fs).disk@, old(fs).meta,
                    self.start_cluster)->Some_0.len() ==> chain_of(final(fs).disk@,
                    old(fs).meta, self.start_cluster)->Some_0.contains(#[trigger] chain_of(
                    old(fs).disk@, old(fs).meta, self.start_cluster)->Some_0[i]),
            r is Err ==> final(fs).fat.total_free_cluster == 0 || forall|c2: int|
                2 <= c2 < spec_max_cluster(old(fs).meta) ==> !((#[trigger] fat_entry_spec(
                    final(fs).disk@, old(fs).meta, c2)) is Free),
    {
        let ghost m0 = fs.meta;
        let ghost dv00 = fs.disk@;
        let ghost ch00 = chain_of(dv00, m0, self.start_cluster)->Some_0;
        loop
            invariant
                fs.wf(),
                fs.meta == old(fs).meta,
                m0 == old(fs).meta,
                dv00 == old(fs).disk@,
                ch00 == chain_of(dv00, m0, self.start_cluster)->Some_0,
                fs.disk@.len() == old(fs).disk@.len(),
                chain_of(fs.disk@, fs.meta, self.start_cluster) is Some,
                1 <= need <= 1000,
                forall|c2: int|
                    0 <= c2 < spec_max_cluster(m0) && !((#[trigger] fat_entry_spec(dv00, m0,
                        c2)) is Free) && !ch00.contains(c2 as u32) ==> {
                        &&& crate::layout::fat_val(fs.disk@, m0, c2)
                            == crate::layout::fat_val(dv00, m0, c2)
                        &&& !chain_of(fs.disk@, m0, self.start_cluster)->Some_0.contains(
                            c2 as u32)
                    },
                forall|i: int|
                    0 <= i < ch00.len() ==> chain_of(fs.disk@, m0,
                        self.start_cluster)->Some_0.contains(#[trigger] ch00[i]),
                forall|sp: int|
                    spec_root_dir_start(m0) <= sp < dv00.len() && !in_chain_sectors(m0,
                        chain_of(fs.disk@, m0, self.start_cluster)->Some_0, sp)
                        ==> #[trigger] fs.disk@[sp] == dv00[sp],
            decreases fs.fat.total_free_cluster,
        {
            match self.scan_for_slots(fs, need) {
                Some(v) => {
                    let ok = Self::slots_valid(self, fs, &v, need);
                    if ok {
                        return Ok(v);
                    }
                }
                None => {}
            }
            {
                {
                    let ghost dvp = fs.disk@;
                    let grew = self.grow_dir_chain(fs);
                    proof {
                        assert forall|c2: int|
                            0 <= c2 < spec_max_cluster(m0) && !((#[trigger] fat_entry_spec(
                                dv00, m0, c2)) is Free) && !ch00.contains(c2 as u32) implies {
                            &&& crate::layout::fat_val(fs.disk@, m0, c2)
                                == crate::layout::fat_val(dvp, m0, c2)
                            &&& !chain_of(fs.disk@, m0, self.start_cluster)->Some_0.contains(
                                c2 as u32)
                        } by {
                            assert(crate::layout::fat_val(dvp, m0, c2)
                                == crate::layout::fat_val(dv00, m0, c2));
                            assert(!(fat_entry_spec(dvp, m0, c2) is Free));
                            assert(!chain_of(dvp, m0, self.start_cluster)->Some_0.contains(
                                c2 as u32));
                        }
                    }
                    match grew {
                        Ok(_) => {}
                        Err(e) => {
                            return Err(e);
                        }
                    }
                    proof {
                        let chp = chain_of(dvp, m0, self.start_cluster)->Some_0;
                        let chn = chain_of(fs.disk@, m0, self.start_cluster)->Some_0;
                        assert forall|i: int| 0 <= i < ch00.len() implies chn.contains(
                            #[trigger] ch00[i]) by {
                            assert(chp.contains(ch00[i]));
                            let w = choose|w: int| 0 <= w < chp.len() && chp[w] == ch00[i];
                            assert(chn.contains(chp[w]));
                        }
                        assert forall|sp: int|
                            spec_root_dir_start(m0) <= sp < dv00.len() && !in_chain_sectors(
                                m0, chn, sp) implies #[trigger] fs.disk@[sp] == dv00[sp] by {
                            assert(!in_chain_sectors(m0, chp, sp)) by {
                                if in_chain_sectors(m0, chp, sp) {
                                    let w = choose|w: int|
                                        0 <= w < chp.len() && spec_cluster_to_sector(m0, (
                                        #[trigger] chp[w]) as int) <= sp
                                            < spec_cluster_to_sector(m0, chp[w] as int)
                                            + m0.sectors_per_cluster;
                                    assert(chn.contains(chp[w]));
                                    let w2 = choose|w2: int|
                                        0 <= w2 < chn.len() && chn[w2] == chp[w];
                                    assert(spec_cluster_to_sector(m0, (
                                        #[trigger] chn[w2]) as int) <= sp
                                        < spec_cluster_to_sector(m0, chn[w2] as int)
                                        + m0.sectors_per_cluster);
                                }
                            }
                            assert(fs.disk@[sp] == dvp[sp]);
                        }
                    }
                    proof {
                        assert forall|c2: int|
                            0 <= c2 < spec_max_cluster(m0) && !((#[trigger] fat_entry_spec(
                                dv00, m0, c2)) is Free) && !ch00.contains(c2 as u32) implies {
                            &&& crate::layout::fat_val(fs.disk@, m0, c2)
                                == crate::layout::fat_val(dvp, m0, c2)
                            &&& !chain_of(fs.disk@, m0, self.start_cluster)->Some_0.contains(
                                c2 as u32)
                        } by {
                            assert(crate::layout::fat_val(dvp, m0, c2)
                                == crate::layout::fat_val(dv00, m0, c2));
                            assert(!(fat_entry_spec(dvp, m0, c2) is Free));
                            assert(!chain_of(dvp, m0, self.start_cluster)->Some_0.contains(
                                c2 as u32));
                        }
                    }
                }
            }
        }
    }

    /// Check that every candidate slot is in range, 32-byte aligned,
    /// currently free, and in a sector of this directory's chain.
    fn slots_valid(&self, fs: &Fat32, v: &Vec<(usize, usize)>, need: usize) -> (ok: bool)
        requires
            fs.wf(),
            chain_of(fs.disk@, fs.meta, self.start_cluster) is Some,
        ensures
            ok ==> {
                &&& v@.len() == need
                &&& forall|i: int| 0 <= i < v@.len() ==> spec_root_dir_start(fs.meta)
                    <= ((#[trigger] v@[i]).0 as int) && (v@[i].0 as int) < fs.disk@.len()
                &&& forall|i: int| 0 <= i < v@.len() ==> (#[trigger] v@[i]).1 % 32 == 0
                    && v@[i].1 + 32 <= 512
                &&& forall|i: int| 0 <= i < v@.len() ==> {
                    let b = fs.disk@[(#[trigger] v@[i]).0 as int][v@[i].1 as int];
                    b == 0x00u8 || b == 0xE5u8
                }
                &&& forall|i: int| 0 <= i < v@.len() ==> in_chain_sectors(fs.meta, chain_of(
                    fs.disk@, fs.meta, self.start_cluster)->Some_0, (#[trigger] v@[i]).0 as int)
                &&& forall|i: int, j: int|
                    0 <= i < j < v@.len() ==> (#[trigger] v@[i]) != (#[trigger] v@[j])
            },
    {
        if v.len() != need {
            return false;
        }
        let mut di: usize = 0;
        while di < v.len()
            invariant
                di <= v@.len(),
                forall|i: int, j: int| 0 <= i < j < di ==> (#[trigger] v@[i])
                    != (#[trigger] v@[j]),
            decreases v@.len() - di,
        {
            let mut dj: usize = 0;
            while dj < di
                invariant
                    dj <= di < v@.len(),
                    forall|i: int, j: int| 0 <= i < j < di ==> (#[trigger] v@[i])
                        != (#[trigger] v@[j]),
                    forall|j: int| 0 <= j < dj ==> (#[trigger] v@[j]) != v@[di as int],
                decreases di - dj,
            {
                if v[dj].0 == v[di].0 && v[dj].1 == v[di].1 {
                    return false;
                }
                dj += 1;
            }
            di += 1;
        }
        let ghost ch = chain_of(fs.disk@, fs.meta, self.start_cluster)->Some_0;
        let sectors = self.clusters_to_sectors(fs);
        proof {
            crate::layout::lemma_chain_from_props(fs.disk@, fs.meta, self.start_cluster,
                spec_max_cluster(fs.meta) as nat);
        }
        let rds = fs.meta.root_dir_start_sector();
        let total = fs.disk.len();
        let mut i: usize = 0;
        while i < v.len()
            invariant
                fs.wf(),
                ch == chain_of(fs.disk@, fs.meta, self.start_cluster)->Some_0,
                forall|k: int| 0 <= k < ch.len() ==> 2 <= #[trigger] ch[k] < spec_max_cluster(
                    fs.meta),
                sectors@.len() == ch.len() * (fs.meta.sectors_per_cluster as int),
                forall|k: int| 0 <= k < sectors@.len() ==> (#[trigger] sectors@[k]) as int
                    == spec_cluster_to_sector(fs.meta, ch[k / (
                    fs.meta.sectors_per_cluster as int)] as int) + (k % (
                    fs.meta.sectors_per_cluster as int)),
                rds == spec_root_dir_start(fs.meta),
                total == fs.disk@.len(),
                i <= v@.len(),
                forall|k: int| 0 <= k < i ==> spec_root_dir_start(fs.meta)
                    <= ((#[trigger] v@[k]).0 as int) && (v@[k].0 as int) < fs.disk@.len(),
                forall|k: int| 0 <= k < i ==> (#[trigger] v@[k]).1 % 32 == 0 && v@[k].1 + 32
                    <= 512,
                forall|k: int| 0 <= k < i ==> {
                    let b = fs.disk@[(#[trigger] v@[k]).0 as int][v@[k].1 as int];
                    b == 0x00u8 || b == 0xE5u8
                },
                forall|k: int| 0 <= k < i ==> in_chain_sectors(fs.meta, ch,
                    (#[trigger] v@[k]).0 as int),
            decreases v@.len() - i,
        {
            let (sec, off) = v[i];
            if !(rds <= sec && sec < total) {
                return false;
            }
            if !(off % 32 == 0 && off <= 512 - 32) {
                return false;
            }
            let b = fs.disk.read_byte(sec, off);
            if !(b == 0x00 || b == 0xE5) {
                return false;
            }
            let mut found = false;
            let mut j: usize = 0;
            while j < sectors.len()
                invariant
                    fs.wf(),
                    ch == chain_of(fs.disk@, fs.meta, self.start_cluster)->Some_0,
                    forall|k: int| 0 <= k < ch.len() ==> 2 <= #[trigger] ch[k]
                        < spec_max_cluster(fs.meta),
                    sectors@.len() == ch.len() * (fs.meta.sectors_per_cluster as int),
                    forall|k: int| 0 <= k < sectors@.len() ==> (#[trigger] sectors@[k]) as int
                        == spec_cluster_to_sector(fs.meta, ch[k / (
                        fs.meta.sectors_per_cluster as int)] as int) + (k % (
                        fs.meta.sectors_per_cluster as int)),
                    j <= sectors@.len(),
                    found ==> in_chain_sectors(fs.meta, ch, sec as int),
                decreases sectors@.len() - j + if found {
                    0int
                } else {
                    1int
                },
            {
                if found {
                    break;
                }
                if sectors[j] == sec {
                    found = true;
                    proof {
                        let spc = fs.meta.sectors_per_cluster as int;
                        let ci = j as int / spc;
                        assert(0 <= ci < ch.len()) by (nonlinear_arith)
                            requires 0 <= j < ch.len() * spc, spc >= 1, ci == j as int / spc;
                        vstd::arithmetic::div_mod::lemma_fundamental_div_mod(j as int, spc);
                        vstd::arithmetic::div_mod::lemma_mod_bound(j as int, spc);
                        assert(spec_cluster_to_sector(fs.meta, ch[ci] as int) <= sec as int);
                        assert((sec as int) < spec_cluster_to_sector(fs.meta, ch[ci] as int)
                            + fs.meta.sectors_per_cluster);
                    }
                } else {
                    j += 1;
                }
            }
            if !found {
                return false;
            }
            i += 1;
        }
        true
    }

    /// Write the long entries (highest sequence first) and then the short
    /// entry into the target slots. The short entry's slot afterwards
    /// decodes to its start cluster and carries its size field.
    pub fn write_entries(&self, fs: &mut Fat32, short_entry: &ShortEntry,
        full_long_entry: &FullLoongEntry, target_sectors: &Vec<(usize, usize)>) -> (r: Result<
        (usize, usize),
        OperationError,
    >)
        requires
            old(fs).wf(),
            short_entry.wf(),
            full_long_entry.wf(),
            target_sectors@.len() == full_long_entry.entries@.len() + 1,
            forall|i: int| 0 <= i < target_sectors@.len() ==> spec_root_dir_start(old(fs).meta)
                <= ((#[trigger] target_sectors@[i]).0 as int) && (target_sectors@[i].0 as int)
                < old(fs).disk@.len(),
            forall|i: int| 0 <= i < target_sectors@.len()
                ==> (#[trigger] target_sectors@[i]).1 % 32 == 0 && target_sectors@[i].1 + 32
                <= 512,
            forall|i: int, j: int|
                0 <= i < j < target_sectors@.len() ==> (#[trigger] target_sectors@[i])
                    != (#[trigger] target_sectors@[j]),
        ensures
            final(fs).wf(),
            final(fs).meta == old(fs).meta,
            final(fs).disk@.len() == old(fs).disk@.len(),
            forall|sp: int|
                0 <= sp < spec_root_dir_start(old(fs).meta) ==> #[trigger] final(fs).disk@[sp]
                    == old(fs).disk@[sp],
            // each long entry's encoded fields lie in its slot, highest
            // sequence first
            forall|i: int|
                0 <= i < full_long_entry.entries@.len() ==> {
                    let e = full_long_entry.entries@[full_long_entry.entries@.len() - 1 - i];
                    let si = (#[trigger] target_sectors@[i]).0 as int;
                    let oi = target_sectors@[i].1 as int;
                    &&& final(fs).disk@[si][oi] == e.order
                    &&& final(fs).disk@[si][oi + 11] == e.attr
                    &&& final(fs).disk@[si][oi + 13] == e.checksum
                    &&& forall|u: int|
                        0 <= u < 13 ==> le16(final(fs).disk@[si].subrange(oi
                            + crate::entry::long_unit_off(u), oi + crate::entry::long_unit_off(
                            u) + 2)) == (#[trigger] e.spec_units()[u])
                },
            forall|sp: int|
                0 <= sp < old(fs).disk@.len() && (forall|j: int|
                    0 <= j < target_sectors@.len() ==> ((#[trigger] target_sectors@[
                    j]).0 as int) != sp) ==> #[trigger] final(fs).disk@[sp]
                    == old(fs).disk@[sp],
            r is Ok,
            ({
                let (sec, off) = r->Ok_0;
                &&& (sec, off) == target_sectors@[target_sectors@.len() - 1]
                &&& valid_child(final(fs).disk@, old(fs).meta, crate::entry::spec_start_cluster(
                    short_entry.cluster_high, short_entry.cluster_low), sec as int, off as int)
                &&& spec_size(final(fs).disk@, File {
                    start_cluster: 0,
                    sector: sec,
                    offset: off,
                }) == short_entry.file_size
                &&& final(fs).disk@[sec as int][off as int] == short_entry.name@[0]
                &&& final(fs).disk@[sec as int][off + 11] == short_entry.attr
            }),
    {
        let ghost m = fs.meta;
        let k = full_long_entry.len();
        let mut i: usize = 0;
        while i < k
            invariant
                fs.wf(),
                m == fs.meta,
                m == old(fs).meta,
                fs.disk@.len() == old(fs).disk@.len(),
                short_entry.wf(),
                full_long_entry.wf(),
                k == full_long_entry.entries@.len(),
                target_sectors@.len() == k + 1,
                i <= k,
                forall|j: int| 0 <= j < target_sectors@.len() ==> spec_root_dir_start(m)
                    <= ((#[trigger] target_sectors@[j]).0 as int) && (target_sectors@[
                    j].0 as int) < fs.disk@.len(),
                forall|j: int| 0 <= j < target_sectors@.len()
                    ==> (#[trigger] target_sectors@[j]).1 % 32 == 0 && target_sectors@[j].1
                    + 32 <= 512,
                forall|sp: int|
                    0 <= sp < spec_root_dir_start(m) ==> #[trigger] fs.disk@[sp]
                        == old(fs).disk@[sp],
                forall|sp: int|
                    0 <= sp < old(fs).disk@.len() && (forall|j: int|
                        0 <= j < target_sectors@.len() ==> ((#[trigger] target_sectors@[
                        j]).0 as int) != sp) ==> #[trigger] fs.disk@[sp]
                        == old(fs).disk@[sp],
                forall|i2: int, j2: int|
                    0 <= i2 < j2 < target_sectors@.len() ==> (#[trigger] target_sectors@[i2])
                        != (#[trigger] target_sectors@[j2]),
                forall|i2: int|
                    0 <= i2 < i ==> {
                        let e = full_long_entry.entries@[k - 1 - i2];
                        let si = (#[trigger] target_sectors@[i2]).0 as int;
                        let oi = target_sectors@[i2].1 as int;
                        &&& fs.disk@[si][oi] == e.order
                        &&& fs.disk@[si][oi + 11] == e.attr
                        &&& fs.disk@[si][oi + 13] == e.checksum
                        &&& forall|u: int|
                            0 <= u < 13 ==> le16(fs.disk@[si].subrange(oi
                                + crate::entry::long_unit_off(u), oi
                                + crate::entry::long_unit_off(u) + 2)) == (
                            #[trigger] e.spec_units()[u])
                    },
            decreases k - i,
        {
            let entry = &full_long_entry.iter()[k - 1 - i];
            let buf = entry.to_buffer();
            let (sec, off) = target_sectors[i];
            let ghost dvp = fs.disk@;
            fs.disk.write_bytes(sec, off, buf.as_slice());
            i += 1;
            proof {
                assert(((target_sectors@[i - 1]).0 as int) == sec as int);
                let bv = buf@;
                assert(fs.disk@[sec as int].subrange(off as int, off + 32) =~= bv);
                assert(fs.disk@[sec as int][off as int] == bv[0]);
                assert(fs.disk@[sec as int][off + 11] == bv[11]);
                assert(fs.disk@[sec as int][off + 13] == bv[13]);
                assert forall|u: int|
                    0 <= u < 13 implies le16(fs.disk@[sec as int].subrange(off as int
                    + crate::entry::long_unit_off(u), off as int + crate::entry::long_unit_off(
                    u) + 2)) == (#[trigger] entry.spec_units()[u]) by {
                    assert(fs.disk@[sec as int].subrange(off as int
                        + crate::entry::long_unit_off(u), off as int
                        + crate::entry::long_unit_off(u) + 2) =~= bv.subrange(
                        crate::entry::long_unit_off(u), crate::entry::long_unit_off(u) + 2));
                }
                assert forall|i2: int|
                    0 <= i2 < i - 1 implies {
                    let e = full_long_entry.entries@[k - 1 - i2];
                    let si = (#[trigger] target_sectors@[i2]).0 as int;
                    let oi = target_sectors@[i2].1 as int;
                    &&& fs.disk@[si][oi] == e.order
                    &&& fs.disk@[si][oi + 11] == e.attr
                    &&& fs.disk@[si][oi + 13] == e.checksum
                    &&& forall|u: int|
                        0 <= u < 13 ==> le16(fs.disk@[si].subrange(oi
                            + crate::entry::long_unit_off(u), oi + crate::entry::long_unit_off(
                            u) + 2)) == (#[trigger] e.spec_units()[u])
                } by {
                    let si = (target_sectors@[i2]).0 as int;
                    let oi = target_sectors@[i2].1 as int;
                    assert(target_sectors@[i2] != target_sectors@[i - 1]);
                    if si == sec as int {
                        assert(oi != off as int);
                        assert(oi + 32 <= off as int || off + 32 <= oi);
                        assert(fs.disk@[si].subrange(oi, oi + 32) =~= dvp[si].subrange(oi,
                            oi + 32));
                        assert forall|u: int|
                            0 <= u < 13 implies fs.disk@[si].subrange(oi
                            + crate::entry::long_unit_off(u), oi + crate::entry::long_unit_off(
                            u) + 2) =~= dvp[si].subrange(oi + crate::entry::long_unit_off(u),
                            oi + crate::entry::long_unit_off(u) + 2) by {}
                    } else {
                        assert(fs.disk@[si] == dvp[si]);
                        assert forall|u: int|
                            0 <= u < 13 implies fs.disk@[si].subrange(oi
                            + crate::entry::long_unit_off(u), oi + crate::entry::long_unit_off(
                            u) + 2) =~= dvp[si].subrange(oi + crate::entry::long_unit_off(u),
                            oi + crate::entry::long_unit_off(u) + 2) by {}
                    }
                }
            }
        }
        let buf = short_entry.to_buffer();
        let (sec, off) = target_sectors[k];
        let ghost dvp = fs.disk@;
        fs.disk.write_bytes(sec, off, buf.as_slice());
        proof {
            assert forall|i2: int|
                0 <= i2 < k implies {
                let e = full_long_entry.entries@[k - 1 - i2];
                let si = (#[trigger] target_sectors@[i2]).0 as int;
                let oi = target_sectors@[i2].1 as int;
                &&& fs.disk@[si][oi] == e.order
                &&& fs.disk@[si][oi + 11] == e.attr
                &&& fs.disk@[si][oi + 13] == e.checksum
                &&& forall|u: int|
                    0 <= u < 13 ==> le16(fs.disk@[si].subrange(oi
                        + crate::entry::long_unit_off(u), oi + crate::entry::long_unit_off(u)
                        + 2)) == (#[trigger] e.spec_units()[u])
            } by {
                let si = (target_sectors@[i2]).0 as int;
                let oi = target_sectors@[i2].1 as int;
                assert(target_sectors@[i2] != target_sectors@[k as int]);
                if si == sec as int {
                    assert(oi != off as int);
                    assert(oi + 32 <= off as int || off + 32 <= oi);
                    assert forall|u: int|
                        0 <= u < 13 implies fs.disk@[si].subrange(oi
                        + crate::entry::long_unit_off(u), oi + crate::entry::long_unit_off(u)
                        + 2) =~= dvp[si].subrange(oi + crate::entry::long_unit_off(u), oi
                        + crate::entry::long_unit_off(u) + 2) by {}
                    assert(fs.disk@[si][oi] == dvp[si][oi]);
                    assert(fs.disk@[si][oi + 11] == dvp[si][oi + 11]);
                    assert(fs.disk@[si][oi + 13] == dvp[si][oi + 13]);
                } else {
                    assert(fs.disk@[si] == dvp[si]);
                    assert forall|u: int|
                        0 <= u < 13 implies fs.disk@[si].subrange(oi
                        + crate::entry::long_unit_off(u), oi + crate::entry::long_unit_off(u)
                        + 2) =~= dvp[si].subrange(oi + crate::entry::long_unit_off(u), oi
                        + crate::entry::long_unit_off(u) + 2) by {}
                }
            }
            let bv = buf@;
            assert(fs.disk@[sec as int].subrange(off as int, off + 32) =~= bv);
            assert(fs.disk@[sec as int].subrange(off + 20, off + 22) =~= bv.subrange(20, 22));
            assert(fs.disk@[sec as int].subrange(off + 26, off + 28) =~= bv.subrange(26, 28));
            assert(fs.disk@[sec as int].subrange(off + 28, off + 32) =~= bv.subrange(28, 32));
            assert(fs.disk@[sec as int][off as int] == bv[0]);
            assert(bv[0] == short_entry.name@[0]) by {
                assert(bv.subrange(0, 8)[0] == bv[0]);
            }
            assert(fs.disk@[sec as int][off + 11] == bv[11]);
            assert(crate::entry::spec_start_cluster(short_entry.cluster_high,
                short_entry.cluster_low) == short_entry.cluster_high * 0x10000
                + short_entry.cluster_low);
        }
        Ok((sec, off))
    }
}


/// ASCII code units narrowed to bytes.
pub open spec fn narrow_units(u: Seq<u16>) -> Seq<u8> {
    Seq::new(u.len(), |i: int| u[i] as u8)
}

/// Bytes widened to code units.
pub open spec fn widen_bytes(b: Seq<u8>) -> Seq<u16> {
    Seq::new(b.len(), |i: int| b[i] as u16)
}


/// Run-time form of the name validity check.
pub fn check_name_units(u: &Vec<u16>) -> (r: bool)
    ensures
        r == valid_name_units(u@),
{
    if u.len() < 1 || u.len() > 255 {
        return false;
    }
    let mut k: usize = 0;
    while k < u.len()
        invariant
            1 <= u@.len() <= 255,
            k <= u@.len(),
            forall|i: int| 0 <= i < k ==> 0 < (#[trigger] u@[i]),
        decreases u@.len() - k,
    {
        if u[k] == 0 {
            return false;
        }
        k += 1;
    }
    true
}

/// Run-time narrowing of code units to bytes.
pub fn narrow_units_exec(u: &Vec<u16>) -> (r: Vec<u8>)
    ensures
        r@ == narrow_units(u@),
{
    let mut r: Vec<u8> = Vec::new();
    let mut k: usize = 0;
    while k < u.len()
        invariant
            k <= u@.len(),
            r@ == narrow_units(u@).take(k as int),
        decreases u@.len() - k,
    {
        r.push((u[k] % 0x100) as u8);
        k += 1;
        proof {
            let x = u@[k - 1];
            assert((x % 0x100) as u8 == x as u8) by (bit_vector);
            assert(r@ =~= narrow_units(u@).take(k as int));
        }
    }
    proof {
        assert(narrow_units(u@).take(u@.len() as int) =~= narrow_units(u@));
    }
    r
}

/// Index of the split point of a name: its rightmost '.', or its length.
pub fn find_dot(b: &Vec<u8>) -> (r: usize)
    ensures
        r == crate::entry::dot_index(b@),
        r <= b@.len(),
{
    let n = b.len();
    let mut j: usize = n;
    loop
        invariant_except_break
            j <= n,
            n == b@.len(),
            forall|k: int| j <= k < n ==> b@[k] != 0x2Eu8,
        ensures
            j <= n,
            j == crate::entry::dot_index(b@),
        decreases j,
    {
        if j == 0 {
            proof {
                crate::entry::lemma_no_dot(b@);
            }
            j = n;
            break;
        }
        if b[j - 1] == 0x2E {
            proof {
                crate::entry::lemma_last_dot_at(b@, j - 1);
            }
            j -= 1;
            break;
        }
        j -= 1;
    }
    j
}

/// Decimal digits of a positive number.
pub open spec fn spec_dec_bytes(n: int) -> Seq<u8>
    decreases n,
{
    if n < 10 {
        seq![(0x30 + (if n >= 0 { n } else { 0 })) as u8]
    } else {
        spec_dec_bytes(n / 10) + seq![(0x30 + n % 10) as u8]
    }
}

pub fn dec_bytes(n: u128) -> (r: Vec<u8>)
    ensures
        r@ == spec_dec_bytes(n as int),
        r@.len() >= 1,
    decreases n,
{
    if n < 10 {
        let mut v: Vec<u8> = Vec::new();
        v.push(0x30 + n as u8);
        proof {
            assert(v@ =~= spec_dec_bytes(n as int));
        }
        v
    } else {
        let mut v = dec_bytes(n / 10);
        v.push(0x30 + (n % 10) as u8);
        proof {
            assert(v@ =~= spec_dec_bytes(n as int));
        }
        v
    }
}

/// Stem budget left beside a `~N` suffix of `nd` digits.
pub open spec fn spec_keep_len(nd: int) -> int {
    if 8 > nd + 1 {
        8 - nd - 1
    } else {
        0
    }
}

/// The generated 8.3-style name: `stem~N` for long stems, plus the
/// extension, cut to 12 bytes.
pub open spec fn spec_short_name_bytes(b: Seq<u8>, cnt: int) -> Seq<u8> {
    if is_dot_name(b) {
        b
    } else {
        let stem = spec_stem(b);
        let ext = spec_ext(b);
        let base = if stem.len() > 8 {
            let num = spec_dec_bytes(cnt);
            stem.take(spec_keep_len(num.len() as int)) + seq![0x7Eu8] + num
        } else {
            stem
        };
        let full = if ext.len() > 0 {
            base + seq![0x2Eu8] + ext
        } else {
            base
        };
        if full.len() > 12 {
            full.take(12)
        } else {
            full
        }
    }
}


/// Sector of 32-byte entry slot `k` of a chain's stream.
pub open spec fn slot_sector(m: MetaData, ch: Seq<u32>, k: int) -> int {
    byte_sector(m, ch, 32 * k)
}

/// In-sector byte offset of entry slot `k`.
pub open spec fn slot_off(m: MetaData, k: int) -> int {
    byte_off(m, 32 * k)
}

/// The 32 bytes of entry slot `k`.
pub open spec fn slot_bytes(dv: Seq<Seq<u8>>, m: MetaData, ch: Seq<u32>, k: int) -> Seq<u8> {
    dv[slot_sector(m, ch, k)].subrange(slot_off(m, k), slot_off(m, k) + 32)
}

/// Number of entry slots a chain's stream holds.
pub open spec fn slot_count(m: MetaData, ch: Seq<u32>) -> int {
    ch.len() * (m.sectors_per_cluster as int) * 16
}

/// Slot `k` sits at sector index `k / 16` of the chain's sector list, at
/// byte offset 32·(k % 16).
pub proof fn lemma_slot_addr(m: MetaData, ch: Seq<u32>, k: int)
    requires
        m.wf(),
        forall|i: int| 0 <= i < ch.len() ==> 2 <= #[trigger] ch[i] < spec_max_cluster(m),
        0 <= k < slot_count(m, ch),
    ensures
        0 <= 32 * k && 32 * k + 31 < ch.len() * spec_bytes_per_cluster(m),
        slot_sector(m, ch, k) == spec_cluster_to_sector(m, ch[(k / 16) / (
            m.sectors_per_cluster as int)] as int) + (k / 16) % (m.sectors_per_cluster as int),
        slot_off(m, k) == 32 * (k % 16),
        slot_off(m, k) % 32 == 0,
        slot_off(m, k) + 32 <= 512,
        spec_root_dir_start(m) <= slot_sector(m, ch, k) < m.total_sectors_32,
        0 <= (k / 16) / (m.sectors_per_cluster as int) < ch.len(),
{
    let spc = m.sectors_per_cluster as int;
    let bpc = spec_bytes_per_cluster(m);
    let b = 32 * k;
    let si = k / 16;
    let e = k % 16;
    vstd::arithmetic::div_mod::lemma_fundamental_div_mod(k, 16);
    vstd::arithmetic::div_mod::lemma_mod_bound(k, 16);
    assert(b < ch.len() * bpc) by (nonlinear_arith)
        requires b == 32 * k, k < ch.len() * spc * 16, bpc == 512 * spc, spc >= 1;
    let q = si / spc;
    let r = si % spc;
    vstd::arithmetic::div_mod::lemma_fundamental_div_mod(si, spc);
    vstd::arithmetic::div_mod::lemma_mod_bound(si, spc);
    // b = bpc * q + (512 * r + 32 * e), with the remainder in range
    assert(b == bpc * q + (512 * r + 32 * e)) by (nonlinear_arith)
        requires b == 32 * k, k == 16 * si + e, si == spc * q + r, bpc == 512 * spc;
    assert(0 <= 512 * r + 32 * e && 512 * r + 32 * e < bpc) by (nonlinear_arith)
        requires 0 <= r < spc, 0 <= e < 16, bpc == 512 * spc;
    vstd::arithmetic::div_mod::lemma_fundamental_div_mod_converse(b, bpc, q,
        512 * r + 32 * e);
    vstd::arithmetic::div_mod::lemma_fundamental_div_mod_converse(512 * r + 32 * e, 512, r,
        32 * e);
    assert(q < ch.len()) by (nonlinear_arith)
        requires b < ch.len() * bpc, b == bpc * q + (512 * r + 32 * e),
            0 <= 512 * r + 32 * e, bpc >= 512;
    assert(q >= 0) by (nonlinear_arith)
        requires si >= 0, spc >= 1, q == si / spc;
    assert(512 * r + 32 * e <= bpc - 32) by (nonlinear_arith)
        requires 0 <= r <= spc - 1, 0 <= e <= 15, bpc == 512 * spc;
    assert(32 * k + 31 < ch.len() * bpc) by (nonlinear_arith)
        requires b == bpc * q + (512 * r + 32 * e), q <= ch.len() - 1,
            512 * r + 32 * e <= bpc - 32, b == 32 * k, bpc >= 512;
    lemma_byte_addr(m, ch, b);
}

/// Ghost state of the entry-stream decoder: the long fragments gathered
/// since the last short entry, the two name maps, and whether an
/// end-of-directory marker was reached.
pub struct DecodeState {
    pub pending: Seq<(u8, Seq<u16>)>,
    pub dirs: Map<Seq<u16>, ChildDir>,
    pub files: Map<Seq<u16>, File>,
    pub done: bool,
}

pub open spec fn decode_init() -> DecodeState {
    DecodeState { pending: Seq::empty(), dirs: Map::empty(), files: Map::empty(), done: false }
}

/// The (order, units) fragment a long-entry slot contributes.
pub open spec fn long_frag_of(b: Seq<u8>) -> (u8, Seq<u16>) {
    (b[0], Seq::new(13, |i: int| le16(b.subrange(crate::entry::long_unit_off(i),
        crate::entry::long_unit_off(i) + 2)) as u16))
}

/// The display units of a bare short entry: the space-trimmed stem, and
/// the extension behind a dot when one is set.
pub open spec fn short_display_units_of(b: Seq<u8>) -> Seq<u16> {
    let nm = crate::entry::name_prefix(b.subrange(0, 8));
    widen_bytes(if b[8] != 0x20 {
        nm + seq![0x2Eu8] + crate::entry::name_prefix(b.subrange(8, 11))
    } else {
        nm
    })
}

/// Names the decoder accepts into the maps: nonempty, no surrogate units.
pub open spec fn decode_name_ok(u: Seq<u16>) -> bool {
    u.len() > 0 && forall|i: int| 0 <= i < u.len() ==> !is_surrogate(#[trigger] u[i])
}

/// One step of the entry-stream decoder, §-faithful: 0x00 ends the
/// stream, 0xE5/0x05 are skipped, long entries gather, and a short entry
/// closes a name and binds it at its slot's address.
pub open spec fn decode_step(st: DecodeState, b: Seq<u8>, sector: int, off: int)
    -> DecodeState {
    if st.done {
        st
    } else if b[0] == 0u8 {
        DecodeState { done: true, ..st }
    } else if b[0] == 0xE5u8 || b[0] == 0x05u8 {
        st
    } else if b[11] & ATTR_LONG_NAME == ATTR_LONG_NAME {
        DecodeState { pending: st.pending.push(long_frag_of(b)), ..st }
    } else {
        let name = if st.pending.len() > 0 {
            spec_group_units(st.pending)
        } else {
            short_display_units_of(b)
        };
        let cluster = (le16(b.subrange(20, 22)) * 0x10000 + le16(b.subrange(26, 28))) as u32;
        if !decode_name_ok(name) {
            DecodeState { pending: Seq::empty(), ..st }
        } else if b[11] & ATTR_DIRECTORY != 0 {
            DecodeState {
                pending: Seq::empty(),
                dirs: st.dirs.insert(name, ChildDir {
                    start_cluster: cluster,
                    sector: sector as usize,
                    offset: off as usize,
                }),
                ..st
            }
        } else {
            DecodeState {
                pending: Seq::empty(),
                files: st.files.insert(name, File {
                    start_cluster: cluster,
                    sector: sector as usize,
                    offset: off as usize,
                }),
                ..st
            }
        }
    }
}

/// The decoder folded over the first `n` slots of a chain's stream.
pub open spec fn decode_stream(dv: Seq<Seq<u8>>, m: MetaData, ch: Seq<u32>, n: int)
    -> DecodeState
    decreases n,
{
    if n <= 0 {
        decode_init()
    } else {
        decode_step(decode_stream(dv, m, ch, n - 1), slot_bytes(dv, m, ch, n - 1),
            slot_sector(m, ch, n - 1), slot_off(m, n - 1))
    }
}

/// Once the decoder saw the end marker, further slots change nothing.
pub proof fn lemma_decode_frozen(dv: Seq<Seq<u8>>, m: MetaData, ch: Seq<u32>, n1: int,
    n2: int)
    requires
        0 <= n1 <= n2,
        decode_stream(dv, m, ch, n1).done,
    ensures
        decode_stream(dv, m, ch, n2) == decode_stream(dv, m, ch, n1),
    decreases n2 - n1,
{
    if n1 < n2 {
        lemma_decode_frozen(dv, m, ch, n1, n2 - 1);
    }
}

/// Size field of the short entry at a file's recorded address.
pub open spec fn spec_size(dv: Seq<Seq<u8>>, f: File) -> int {
    le32(dv[f.sector as int].subrange(f.offset + 28, f.offset + 32))
}

/// A file handle whose recorded address and start cluster are in range.
pub open spec fn valid_file_pos(dv: Seq<Seq<u8>>, m: MetaData, f: File) -> bool {
    &&& spec_root_dir_start(m) <= f.sector < dv.len()
    &&& f.offset % 32 == 0
    &&& f.offset + 32 <= 512
    &&& 2 <= f.start_cluster < spec_max_cluster(m)
}

/// Sector holding byte `i` of the chain's data.
pub open spec fn byte_sector(m: MetaData, ch: Seq<u32>, i: int) -> int {
    spec_cluster_to_sector(m, ch[i / spec_bytes_per_cluster(m)] as int) + (i
        % spec_bytes_per_cluster(m)) / 512
}

/// Offset of byte `i` of the chain's data inside its sector.
pub open spec fn byte_off(m: MetaData, i: int) -> int {
    (i % spec_bytes_per_cluster(m)) % 512
}

/// The bytes a cluster chain stores, in chain order.
pub open spec fn chain_bytes(dv: Seq<Seq<u8>>, m: MetaData, ch: Seq<u32>) -> Seq<u8> {
    Seq::new((ch.len() * spec_bytes_per_cluster(m)) as nat, |i: int|
        dv[byte_sector(m, ch, i)][byte_off(m, i)])
}

/// The bytes of the chain that starts at `start`.
pub open spec fn file_content(dv: Seq<Seq<u8>>, m: MetaData, start: u32) -> Seq<u8> {
    chain_bytes(dv, m, chain_of(dv, m, start)->Some_0)
}

/// Byte `i` of a chain lies in a data sector of its own cluster.
pub proof fn lemma_byte_addr(m: MetaData, ch: Seq<u32>, i: int)
    requires
        m.wf(),
        forall|k: int| 0 <= k < ch.len() ==> 2 <= #[trigger] ch[k] < spec_max_cluster(m),
        0 <= i < ch.len() * spec_bytes_per_cluster(m),
    ensures
        0 <= i / spec_bytes_per_cluster(m) < ch.len(),
        spec_cluster_to_sector(m, ch[i / spec_bytes_per_cluster(m)] as int) <= byte_sector(m,
            ch, i),
        byte_sector(m, ch, i) < spec_cluster_to_sector(m, ch[i / spec_bytes_per_cluster(
            m)] as int) + m.sectors_per_cluster,
        spec_root_dir_start(m) <= byte_sector(m, ch, i) < m.total_sectors_32,
        0 <= byte_off(m, i) < 512,
{
    let bpc = spec_bytes_per_cluster(m);
    let q = i / bpc;
    let w = i % bpc;
    vstd::arithmetic::div_mod::lemma_fundamental_div_mod(i, bpc);
    vstd::arithmetic::div_mod::lemma_mod_bound(i, bpc);
    assert(q >= 0) by (nonlinear_arith)
        requires i >= 0, bpc > 0, q == i / bpc;
    assert(q < ch.len()) by (nonlinear_arith)
        requires i < ch.len() * bpc, bpc > 0, i == bpc * q + w, 0 <= w < bpc;
    vstd::arithmetic::div_mod::lemma_fundamental_div_mod(w, 512);
    vstd::arithmetic::div_mod::lemma_mod_bound(w, 512);
    assert(w / 512 < m.sectors_per_cluster) by (nonlinear_arith)
        requires w < 512 * m.sectors_per_cluster, w == 512 * (w / 512) + w % 512,
            0 <= w % 512 < 512;
    assert(w / 512 >= 0) by (nonlinear_arith)
        requires w >= 0;
    lemma_cluster_sectors_in_range(m, ch[q] as int);
}

/// Distinct chain bytes lie at distinct disk addresses.
pub proof fn lemma_byte_addr_inj(m: MetaData, ch: Seq<u32>, i: int, j: int)
    requires
        m.wf(),
        forall|k: int| 0 <= k < ch.len() ==> 2 <= #[trigger] ch[k] < spec_max_cluster(m),
        forall|k1: int, k2: int| 0 <= k1 < k2 < ch.len() ==> ch[k1] != ch[k2],
        0 <= i < ch.len() * spec_bytes_per_cluster(m),
        0 <= j < ch.len() * spec_bytes_per_cluster(m),
        i != j,
    ensures
        byte_sector(m, ch, i) != byte_sector(m, ch, j) || byte_off(m, i) != byte_off(m, j),
{
    let bpc = spec_bytes_per_cluster(m);
    lemma_byte_addr(m, ch, i);
    lemma_byte_addr(m, ch, j);
    let qi = i / bpc;
    let qj = j / bpc;
    let wi = i % bpc;
    let wj = j % bpc;
    vstd::arithmetic::div_mod::lemma_fundamental_div_mod(i, bpc);
    vstd::arithmetic::div_mod::lemma_fundamental_div_mod(j, bpc);
    if qi == qj {
        assert(wi != wj);
        vstd::arithmetic::div_mod::lemma_fundamental_div_mod(wi, 512);
        vstd::arithmetic::div_mod::lemma_fundamental_div_mod(wj, 512);
        if wi / 512 == wj / 512 {
            assert(wi % 512 != wj % 512);
        }
    } else {
        let ci = ch[qi];
        let cj = ch[qj];
        assert(ci != cj) by {
            if qi < qj {
            } else {
            }
        }
        crate::layout::lemma_cluster_sectors_disjoint(m, ci as int, cj as int);
    }
}

/// Whether sector `s` belongs to a cluster of the chain.
pub open spec fn in_chain_sectors(m: MetaData, ch: Seq<u32>, s: int) -> bool {
    exists|i: int|
        0 <= i < ch.len() && spec_cluster_to_sector(m, (#[trigger] ch[i]) as int) <= s
            < spec_cluster_to_sector(m, ch[i] as int) + m.sectors_per_cluster
}

/// The cluster whose data area holds sector `s`.
pub open spec fn sector_cluster(m: MetaData, s: int) -> int {
    2 + (s - spec_root_dir_start(m)) / (m.sectors_per_cluster as int)
}

/// A sector of the usable data area lies inside its own cluster's range.
pub proof fn lemma_sector_cluster(m: MetaData, s: int)
    requires
        m.wf(),
        spec_root_dir_start(m) <= s,
        s < spec_cluster_to_sector(m, spec_max_cluster(m)),
    ensures
        2 <= sector_cluster(m, s) < spec_max_cluster(m),
        spec_cluster_to_sector(m, sector_cluster(m, s)) <= s,
        s < spec_cluster_to_sector(m, sector_cluster(m, s)) + m.sectors_per_cluster,
{
    let spc = m.sectors_per_cluster as int;
    let rds = spec_root_dir_start(m);
    let mx = spec_max_cluster(m);
    let d = s - rds;
    let q = d / spc;
    vstd::arithmetic::div_mod::lemma_fundamental_div_mod(d, spc);
    vstd::arithmetic::div_mod::lemma_mod_bound(d, spc);
    assert(q >= 0) by (nonlinear_arith)
        requires d >= 0, spc > 0, q == d / spc;
    assert(d < (mx - 2) * spc);
    assert(q < mx - 2) by (nonlinear_arith)
        requires d < (mx - 2) * spc, spc > 0, d == spc * q + d % spc, 0 <= d % spc < spc;
    assert(sector_cluster(m, s) == 2 + q);
    assert(spec_cluster_to_sector(m, 2 + q) == rds + q * spc);
    assert(q * spc <= d) by (nonlinear_arith)
        requires d == spc * q + d % spc, 0 <= d % spc;
    assert(d < q * spc + spc) by (nonlinear_arith)
        requires d == spc * q + d % spc, d % spc < spc;
}

/// A sector of a cluster off the chain lies on no chain sector.
pub proof fn lemma_sector_not_in_chain(m: MetaData, ch: Seq<u32>, s: int)
    requires
        m.wf(),
        spec_root_dir_start(m) <= s,
        s < spec_cluster_to_sector(m, spec_max_cluster(m)),
        forall|i: int| 0 <= i < ch.len() ==> 2 <= #[trigger] ch[i] < spec_max_cluster(m),
        forall|i: int| 0 <= i < ch.len() ==> #[trigger] ch[i] != sector_cluster(m, s),
    ensures
        !in_chain_sectors(m, ch, s),
{
    lemma_sector_cluster(m, s);
    assert forall|i: int|
        0 <= i < ch.len() implies !(spec_cluster_to_sector(m, (#[trigger] ch[i]) as int) <= s
        < spec_cluster_to_sector(m, ch[i] as int) + m.sectors_per_cluster) by {
        crate::layout::lemma_cluster_sectors_disjoint(m, ch[i] as int, sector_cluster(m, s));
    }
}



/// Chain bytes only depend on the chain's sectors: equal there, equal bytes.
pub proof fn lemma_chain_bytes_same(dv1: Seq<Seq<u8>>, dv2: Seq<Seq<u8>>, m: MetaData,
    ch: Seq<u32>)
    requires
        m.wf(),
        forall|i: int| 0 <= i < ch.len() ==> 2 <= #[trigger] ch[i] < spec_max_cluster(m),
        dv1.len() == m.total_sectors_32,
        dv2.len() == dv1.len(),
        forall|s: int|
            0 <= s < dv1.len() && in_chain_sectors(m, ch, s) ==> #[trigger] dv2[s] == dv1[s],
    ensures
        chain_bytes(dv2, m, ch) == chain_bytes(dv1, m, ch),
{
    assert forall|p: int|
        0 <= p < ch.len() * spec_bytes_per_cluster(m) implies #[trigger] chain_bytes(dv2, m,
        ch)[p] == chain_bytes(dv1, m, ch)[p] by {
        lemma_byte_addr(m, ch, p);
        assert(in_chain_sectors(m, ch, byte_sector(m, ch, p)));
        assert(dv2[byte_sector(m, ch, p)] == dv1[byte_sector(m, ch, p)]);
    }
    assert(chain_bytes(dv2, m, ch) =~= chain_bytes(dv1, m, ch));
}


/// Chain bytes survive writes confined to another chain's sectors and one
/// extra sector, when none of those overlap this chain's clusters.
pub proof fn lemma_chain_bytes_avoid(dv1: Seq<Seq<u8>>, dv2: Seq<Seq<u8>>, m: MetaData,
    fch: Seq<u32>, avoid: Seq<u32>, extra: int)
    requires
        m.wf(),
        dv1.len() == m.total_sectors_32,
        dv2.len() == dv1.len(),
        forall|i: int| 0 <= i < fch.len() ==> 2 <= #[trigger] fch[i] < spec_max_cluster(m),
        forall|i: int| 0 <= i < avoid.len() ==> 2 <= #[trigger] avoid[i] < spec_max_cluster(
            m),
        forall|i: int| 0 <= i < fch.len() ==> !avoid.contains(#[trigger] fch[i]),
        extra == -1 || (spec_root_dir_start(m) <= extra < spec_cluster_to_sector(m,
            spec_max_cluster(m)) && forall|i: int|
            0 <= i < fch.len() ==> (#[trigger] fch[i]) as int != sector_cluster(m, extra)),
        forall|sp: int|
            spec_root_dir_start(m) <= sp < dv1.len() && !in_chain_sectors(m, avoid, sp) && sp
                != extra ==> #[trigger] dv2[sp] == dv1[sp],
    ensures
        chain_bytes(dv2, m, fch) == chain_bytes(dv1, m, fch),
{
    assert forall|p: int|
        0 <= p < fch.len() * spec_bytes_per_cluster(m) implies #[trigger] chain_bytes(dv2, m,
        fch)[p] == chain_bytes(dv1, m, fch)[p] by {
        lemma_byte_addr(m, fch, p);
        let bs = byte_sector(m, fch, p);
        let u = fch[p / spec_bytes_per_cluster(m)];
        crate::layout::lemma_sector_cluster_inverse(m, u as int, bs);
        assert(!in_chain_sectors(m, avoid, bs)) by {
            if in_chain_sectors(m, avoid, bs) {
                let w = choose|w: int|
                    0 <= w < avoid.len() && spec_cluster_to_sector(m, (
                    #[trigger] avoid[w]) as int) <= bs < spec_cluster_to_sector(m,
                    avoid[w] as int) + m.sectors_per_cluster;
                crate::layout::lemma_sector_cluster_inverse(m, avoid[w] as int, bs);
                assert(avoid[w] == u);
                assert(avoid.contains(fch[p / spec_bytes_per_cluster(m)]));
            }
        }
        assert(bs != extra) by {
            if bs == extra {
                assert(sector_cluster(m, extra) == u);
            }
        }
        assert(dv2[bs] == dv1[bs]);
    }
    assert(chain_bytes(dv2, m, fch) =~= chain_bytes(dv1, m, fch));
}

/// The bytes of a chain's prefix are the bytes of the prefix chain, when
/// the data area is unchanged.
pub proof fn lemma_chain_bytes_prefix(dv1: Seq<Seq<u8>>, dv2: Seq<Seq<u8>>, m: MetaData,
    ch0: Seq<u32>, ch_new: Seq<u32>)
    requires
        m.wf(),
        ch0.len() <= ch_new.len(),
        ch_new.take(ch0.len() as int) == ch0,
        forall|i: int| 0 <= i < ch0.len() ==> 2 <= #[trigger] ch0[i] < spec_max_cluster(m),
        dv1.len() == m.total_sectors_32,
        dv2.len() == dv1.len(),
        forall|s: int|
            spec_root_dir_start(m) <= s < dv1.len() ==> #[trigger] dv2[s] == dv1[s],
    ensures
        forall|p: int|
            0 <= p < ch0.len() * spec_bytes_per_cluster(m) ==> #[trigger] chain_bytes(dv2, m,
                ch_new)[p] == chain_bytes(dv1, m, ch0)[p],
{
    let bpc = spec_bytes_per_cluster(m);
    assert forall|p: int|
        0 <= p < ch0.len() * bpc implies #[trigger] chain_bytes(dv2, m, ch_new)[p]
        == chain_bytes(dv1, m, ch0)[p] by {
        lemma_byte_addr(m, ch0, p);
        assert(ch_new[p / bpc] == ch0[p / bpc]);
        assert(0 <= p < ch_new.len() * bpc) by (nonlinear_arith)
            requires 0 <= p < ch0.len() * bpc, ch0.len() <= ch_new.len(), bpc >= 0;
        assert(byte_sector(m, ch_new, p) == byte_sector(m, ch0, p));
        assert(dv2[byte_sector(m, ch0, p)] == dv1[byte_sector(m, ch0, p)]);
    }
}


/// Bundles the content claims of a completed write: the written range
/// reads back as the data, and bytes outside it kept their old values.
pub proof fn lemma_write_content(dv_init: Seq<Seq<u8>>, dv_a: Seq<Seq<u8>>, dv_f: Seq<Seq<u8>>,
    m: MetaData, start: u32, ch0: Seq<u32>, ch_new: Seq<u32>, offset: int, data: Seq<u8>)
    requires
        m.wf(),
        dv_init.len() == m.total_sectors_32,
        dv_a.len() == dv_init.len(),
        dv_f.len() == dv_init.len(),
        chain_of(dv_init, m, start) == Some(ch0),
        chain_of(dv_f, m, start) == Some(ch_new),
        ch0.len() <= ch_new.len(),
        ch_new.take(ch0.len() as int) == ch0,
        forall|i: int| 0 <= i < ch_new.len() ==> 2 <= #[trigger] ch_new[i] < spec_max_cluster(
            m),
        0 <= offset,
        offset + data.len() <= ch_new.len() * spec_bytes_per_cluster(m),
        forall|p: int|
            0 <= p < ch_new.len() * spec_bytes_per_cluster(m) ==> #[trigger] chain_bytes(dv_f,
                m, ch_new)[p] == (if offset <= p < offset + data.len() {
                data[p - offset]
            } else {
                chain_bytes(dv_a, m, ch_new)[p]
            }),
        forall|p: int|
            0 <= p < ch0.len() * spec_bytes_per_cluster(m) ==> #[trigger] chain_bytes(dv_a, m,
                ch_new)[p] == chain_bytes(dv_init, m, ch0)[p],
    ensures
        file_content(dv_f, m, start).subrange(offset, offset + data.len()) == data,
        forall|p: int|
            0 <= p < file_content(dv_init, m, start).len() && !(offset <= p < offset
                + data.len()) ==> #[trigger] file_content(dv_f, m, start)[p] == file_content(
                dv_init, m, start)[p],
        file_content(dv_f, m, start).len() == ch_new.len() * spec_bytes_per_cluster(m),
{
    let bpc = spec_bytes_per_cluster(m);
    assert(ch0.len() * bpc <= ch_new.len() * bpc) by (nonlinear_arith)
        requires ch0.len() <= ch_new.len(), bpc >= 0;
    assert(file_content(dv_f, m, start).subrange(offset, offset + data.len()) =~= data);
}


/// What a read returns: the overlap of the requested range with the
/// file's size, taken from its chain's bytes.
pub open spec fn spec_read(dv: Seq<Seq<u8>>, m: MetaData, f: File, offset: int, size: int)
    -> Seq<u8> {
    let fsize = spec_size(dv, f);
    let content = file_content(dv, m, f.start_cluster);
    if offset >= fsize {
        Seq::empty()
    } else {
        let eff = if size <= fsize - offset {
            size
        } else {
            fsize - offset
        };
        content.subrange(offset, offset + eff)
    }
}


/// Conditions under which a rename provably leaves a file's bytes alone:
/// a sound handle, a terminated file chain disjoint from the directory's
/// chain, and an entry slot outside the file's own clusters.
pub open spec fn rename_safe(dv: Seq<Seq<u8>>, m: MetaData, dir_start: u32, f: File) -> bool {
    let fch = chain_of(dv, m, f.start_cluster)->Some_0;
    let dirch = chain_of(dv, m, dir_start)->Some_0;
    &&& valid_file_pos(dv, m, f)
    &&& (f.sector as int) < spec_cluster_to_sector(m, spec_max_cluster(m))
    &&& chain_of(dv, m, f.start_cluster) is Some
    &&& chain_of(dv, m, dir_start) is Some
    &&& (forall|i: int| 0 <= i < fch.len() ==> !dirch.contains(#[trigger] fch[i]))
    &&& (forall|i: int|
        0 <= i < fch.len() ==> ((#[trigger] fch[i]) as int) != sector_cluster(m,
            f.sector as int))
}


/// The staged effect of a rename on an unrelated file: deletion marks in
/// the directory's old chain and the entry slot, new entries confined to
/// the directory's grown chain, and one size write there, leave the
/// file's chain and bytes exactly as they were.
#[verifier::rlimit(100)]
pub proof fn lemma_rename_preserves(dv_a: Seq<Seq<u8>>, dv_b: Seq<Seq<u8>>,
    dv_c: Seq<Seq<u8>>, dv_d: Seq<Seq<u8>>, m: MetaData, dir_start: u32, f: File, addr0: int,
    ch_c: Seq<u32>)
    requires
        m.wf(),
        dv_a.len() == m.total_sectors_32,
        dv_b.len() == dv_a.len(),
        dv_c.len() == dv_a.len(),
        dv_d.len() == dv_a.len(),
        rename_safe(dv_a, m, dir_start, f),
        forall|sp: int| 0 <= sp < spec_root_dir_start(m) ==> #[trigger] dv_b[sp] == dv_a[sp],
        forall|sp: int|
            spec_root_dir_start(m) <= sp < dv_a.len() && sp != f.sector && !in_chain_sectors(
                m, chain_of(dv_a, m, dir_start)->Some_0, sp) ==> #[trigger] dv_b[sp]
                == dv_a[sp],
        chain_of(dv_c, m, dir_start) == Some(ch_c),
        forall|c2: int|
            0 <= c2 < spec_max_cluster(m) && !((#[trigger] fat_entry_spec(dv_b, m,
                c2)) is Free) && !chain_of(dv_b, m, dir_start)->Some_0.contains(c2 as u32)
                ==> crate::layout::fat_val(dv_c, m, c2) == crate::layout::fat_val(dv_b, m,
                c2),
        forall|c2: int|
            0 <= c2 < spec_max_cluster(m) && !((#[trigger] fat_entry_spec(dv_b, m,
                c2)) is Free) && !chain_of(dv_b, m, dir_start)->Some_0.contains(c2 as u32)
                ==> !ch_c.contains(c2 as u32),
        chain_of(dv_b, m, dir_start) == chain_of(dv_a, m, dir_start),
        forall|sp: int|
            spec_root_dir_start(m) <= sp < dv_a.len() && !in_chain_sectors(m, ch_c, sp)
                ==> #[trigger] dv_c[sp] == dv_b[sp],
        forall|sp: int| 0 <= sp < dv_a.len() && sp != addr0 ==> #[trigger] dv_d[sp]
            == dv_c[sp],
        in_chain_sectors(m, ch_c, addr0),
        spec_root_dir_start(m) <= addr0 < dv_a.len(),
    ensures
        chain_of(dv_d, m, f.start_cluster) == chain_of(dv_a, m, f.start_cluster),
        file_content(dv_d, m, f.start_cluster) == file_content(dv_a, m, f.start_cluster),
{
    let fch = chain_of(dv_a, m, f.start_cluster)->Some_0;
    let fuel = spec_max_cluster(m) as nat;
    crate::layout::lemma_chain_from_props(dv_a, m, f.start_cluster, fuel);
    crate::layout::lemma_chain_from_props(dv_a, m, dir_start, fuel);
    crate::layout::lemma_chain_from_props(dv_c, m, dir_start, fuel);
    // every FAT slot survives the deletion marks
    assert forall|c2: int|
        0 <= c2 < spec_max_cluster(m) implies crate::layout::fat_val(dv_b, m, c2)
        == crate::layout::fat_val(dv_a, m, c2) by {
        crate::layout::lemma_fat_region_same_chains(dv_a, dv_b, m, c2 as u32, 0);
    }
    crate::layout::lemma_fat_region_same_chains(dv_a, dv_b, m, dir_start, fuel);
    crate::layout::lemma_fat_region_same_chains(dv_a, dv_b, m, f.start_cluster, fuel);
    // and the size write
    assert forall|c2: int|
        0 <= c2 < spec_max_cluster(m) implies crate::layout::fat_val(dv_d, m, c2)
        == crate::layout::fat_val(dv_c, m, c2) by {
        crate::layout::lemma_fat_slot_in_range(m, c2);
        assert(dv_d[crate::layout::fat_slot_sector(m, c2)]
            == dv_c[crate::layout::fat_slot_sector(m, c2)]) by {
            let w = choose|w: int|
                0 <= w < ch_c.len() && spec_cluster_to_sector(m, (#[trigger] ch_c[w]) as int)
                    <= addr0 < spec_cluster_to_sector(m, ch_c[w] as int)
                    + m.sectors_per_cluster;
            crate::layout::lemma_cluster_sectors_in_range(m, ch_c[w] as int);
        }
    }
    // the file's own slots are linked, off the directory chain, and so kept
    assert forall|i: int|
        0 <= i < fch.len() implies {
        &&& crate::layout::fat_val(dv_d, m, (#[trigger] fch[i]) as int)
            == crate::layout::fat_val(dv_a, m, fch[i] as int)
        &&& !ch_c.contains(fch[i])
    } by {
        if i < fch.len() - 1 {
            assert(fat_entry_spec(dv_a, m, fch[i] as int) == FatEntry::Cluster(fch[i + 1]));
        } else {
            assert(fat_entry_spec(dv_a, m, fch[i] as int) == FatEntry::Eof);
        }
        assert(!(fat_entry_spec(dv_b, m, fch[i] as int) is Free));
        assert(!chain_of(dv_b, m, dir_start)->Some_0.contains(fch[i]));
    }
    crate::layout::lemma_chain_own_slots(dv_a, dv_d, m, f.start_cluster, fuel);
    // and the file's bytes dodge every write
    lemma_chain_bytes_avoid(dv_a, dv_b, m, fch, chain_of(dv_a, m, dir_start)->Some_0,
        f.sector as int);
    lemma_chain_bytes_avoid(dv_b, dv_c, m, fch, ch_c, -1);
    assert forall|sp: int|
        spec_root_dir_start(m) <= sp < dv_a.len() && !in_chain_sectors(m, ch_c, sp)
            implies #[trigger] dv_d[sp] == dv_c[sp] by {
        assert(sp != addr0);
    }
    lemma_chain_bytes_avoid(dv_c, dv_d, m, fch, ch_c, -1);
    assert(chain_bytes(dv_d, m, fch) == chain_bytes(dv_a, m, fch));
}

/// Conditions under which deleting a file provably reclaims its storage:
/// a sound handle whose entry slot lies outside its own terminated chain.
pub open spec fn file_reclaimable(dv: Seq<Seq<u8>>, m: MetaData, f: File) -> bool {
    let fch = chain_of(dv, m, f.start_cluster)->Some_0;
    &&& valid_file_pos(dv, m, f)
    &&& (f.sector as int) < spec_cluster_to_sector(m, spec_max_cluster(m))
    &&& chain_of(dv, m, f.start_cluster) is Some
    &&& !(fat_entry_spec(dv, m, sector_cluster(m, f.sector as int)) is Free)
    &&& (forall|i: int|
        0 <= i < fch.len() ==> ((#[trigger] fch[i]) as int) != sector_cluster(m,
            f.sector as int))
}

/// Clusters a write of `wlen` bytes at `offset` must add to a file of
/// `size0` bytes.
pub open spec fn spec_addition(m: MetaData, size0: int, offset: int, wlen: int) -> int {
    let bpc = spec_bytes_per_cluster(m);
    let need = (offset + wlen + bpc - 1) / bpc;
    let used = if size0 == 0 {
        1int
    } else {
        (size0 + bpc - 1) / bpc
    };
    if need > used {
        need - used
    } else {
        0
    }
}

/// The file's size after that write.
pub open spec fn spec_new_size(size0: int, offset: int, wlen: int) -> int {
    if size0 > offset + wlen {
        size0
    } else {
        offset + wlen
    }
}

/// After adding `spec_addition` clusters, the chain holds the new size.
pub proof fn lemma_size_fits(m: MetaData, size0: int, offset: int, wlen: int, len0: int)
    requires
        m.wf(),
        0 <= size0,
        0 <= offset,
        0 <= wlen,
        len0 >= 1,
        size0 <= len0 * spec_bytes_per_cluster(m),
    ensures
        spec_addition(m, size0, offset, wlen) >= 0,
        spec_new_size(size0, offset, wlen) <= (len0 + spec_addition(m, size0, offset, wlen))
            * spec_bytes_per_cluster(m),
{
    let bpc = spec_bytes_per_cluster(m);
    let need = (offset + wlen + bpc - 1) / bpc;
    let used = if size0 == 0 {
        1int
    } else {
        (size0 + bpc - 1) / bpc
    };
    vstd::arithmetic::div_mod::lemma_fundamental_div_mod(offset + wlen + bpc - 1, bpc);
    vstd::arithmetic::div_mod::lemma_mod_bound(offset + wlen + bpc - 1, bpc);
    assert(need * bpc >= offset + wlen) by (nonlinear_arith)
        requires offset + wlen + bpc - 1 == bpc * need + (offset + wlen + bpc - 1) % bpc,
            0 <= (offset + wlen + bpc - 1) % bpc < bpc, bpc >= 1;
    if size0 > 0 {
        vstd::arithmetic::div_mod::lemma_fundamental_div_mod(size0 + bpc - 1, bpc);
        vstd::arithmetic::div_mod::lemma_mod_bound(size0 + bpc - 1, bpc);
        assert(used * bpc < size0 + bpc) by (nonlinear_arith)
            requires size0 + bpc - 1 == bpc * used + (size0 + bpc - 1) % bpc,
                0 <= (size0 + bpc - 1) % bpc, bpc >= 1;
        assert(used <= len0) by (nonlinear_arith)
            requires used * bpc < size0 + bpc, size0 <= len0 * bpc, bpc >= 1;
    } else {
        assert(used <= len0);
    }
    let add = spec_addition(m, size0, offset, wlen);
    if need > used {
        assert((len0 + add) * bpc >= need * bpc) by (nonlinear_arith)
            requires len0 + add >= need, bpc >= 1;
    }
    assert((len0 + add) * bpc >= len0 * bpc) by (nonlinear_arith)
        requires add >= 0, bpc >= 1;
    if need <= used {
        assert(offset + wlen <= need * bpc);
        assert(need * bpc <= used * bpc) by (nonlinear_arith)
            requires need <= used, bpc >= 1;
        assert(used * bpc <= len0 * bpc) by (nonlinear_arith)
            requires used <= len0, bpc >= 1;
    }
}

impl File {
    /// A handle from a start cluster and a short-entry address.
    pub fn new(start_cluster: u32, address: (usize, usize)) -> (r: File)
        ensures
            r.start_cluster == start_cluster,
            r.sector == address.0,
            r.offset == address.1,
    {
        File { start_cluster, sector: address.0, offset: address.1 }
    }

    /// The size field, read from the short entry on the image.
    pub fn size(&self, fs: &Fat32) -> (r: u32)
        requires
            fs.wf(),
            valid_file_pos(fs.disk@, fs.meta, *self),
        ensures
            r == spec_size(fs.disk@, *self),
    {
        let bytes = fs.disk.read_bytes(self.sector, self.offset + 28, 4);
        u32_from_le_bytes(bytes.as_slice())
    }

    /// Write the size field. Only those four bytes of the image change.
    pub fn update_size(&self, fs: &mut Fat32, size: u32)
        requires
            old(fs).wf(),
            valid_file_pos(old(fs).disk@, old(fs).meta, *self),
        ensures
            final(fs).wf(),
            final(fs).meta == old(fs).meta,
            final(fs).fat == old(fs).fat,
            spec_size(final(fs).disk@, *self) == size,
            forall|s: int|
                0 <= s < old(fs).disk@.len() && s != self.sector ==> final(fs).disk@[s]
                    == old(fs).disk@[s],
            forall|b: int|
                0 <= b < 512 && !(self.offset + 28 <= b < self.offset + 32)
                    ==> final(fs).disk@[self.sector as int][b]
                        == old(fs).disk@[self.sector as int][b],
    {
        let bytes = crate::utils::u32_to_le_bytes(size);
        fs.disk.write_bytes(self.sector, self.offset + 28, bytes.as_slice());
        proof {
            assert(fs.disk@[self.sector as int].subrange(self.offset + 28, self.offset + 32)
                =~= bytes@);
        }
    }

    /// How many clusters a write of `w_size` bytes at `offset` must add to
    /// the file, and the file's size after the write.
    pub fn calculate_addition_cluster(&self, fs: &Fat32, offset: u32, w_size: u32) -> (r: (
        usize,
        u32,
    ))
        requires
            fs.wf(),
            valid_file_pos(fs.disk@, fs.meta, *self),
            offset + w_size <= 0xFFFF_FFFF,
        ensures
            ({
                let size = spec_size(fs.disk@, *self);
                &&& r.1 == spec_new_size(size, offset as int, w_size as int)
                &&& r.0 == spec_addition(fs.meta, size, offset as int, w_size as int)
            }),
    {
        let bpc = fs.meta.bytes_per_cluster() as u64;
        let end = offset as u64 + w_size as u64;
        let need = (end + bpc - 1) / bpc;
        let size = self.size(fs);
        let used: u64 = if size == 0 {
            1
        } else {
            (size as u64 + bpc - 1) / bpc
        };
        let add: u64 = if need > used {
            need - used
        } else {
            0
        };
        let new_size: u32 = if size as u64 > end {
            size
        } else {
            end as u32
        };
        proof {
            assert(add <= 0xFFFF_FFFFu64) by {
                vstd::arithmetic::div_mod::lemma_fundamental_div_mod(end as int + bpc - 1,
                    bpc as int);
                vstd::arithmetic::div_mod::lemma_mod_bound(end as int + bpc - 1, bpc as int);
                assert(need * bpc <= end + bpc - 1) by (nonlinear_arith)
                    requires need == (end as int + bpc - 1) / (bpc as int), bpc >= 1,
                        end + bpc - 1 >= 0,
                        (end as int + bpc - 1) == (bpc as int) * ((end as int + bpc - 1) / (
                        bpc as int)) + (end as int + bpc - 1) % (bpc as int),
                        0 <= (end as int + bpc - 1) % (bpc as int);
                assert(need <= end) by (nonlinear_arith)
                    requires need * bpc <= end + bpc - 1, bpc >= 512, need >= 0, end >= 0;
                assert(end <= 0xFFFF_FFFF);
                assert(need <= 0xFFFF_FFFF);
            }
        }
        (add as usize, new_size)
    }

    /// Read up to `size` bytes at `offset`: exactly the overlap of the
    /// requested range with the file's current size, taken from the bytes
    /// of its cluster chain.
    pub fn read(&self, fs: &Fat32, offset: u32, size: u32) -> (r: Result<
        Vec<u8>,
        OperationError,
    >)
        requires
            fs.wf(),
            valid_file_pos(fs.disk@, fs.meta, *self),
            chain_of(fs.disk@, fs.meta, self.start_cluster) is Some,
            spec_size(fs.disk@, *self) <= file_content(fs.disk@, fs.meta,
                self.start_cluster).len(),
        ensures
            r is Ok,
            r->Ok_0@ == spec_read(fs.disk@, fs.meta, *self, offset as int, size as int),
    {
        let ghost m = fs.meta;
        let ghost content = file_content(fs.disk@, fs.meta, self.start_cluster);
        let fsize = self.size(fs);
        if offset >= fsize {
            let r: Vec<u8> = Vec::new();
            proof {
                assert(r@ =~= Seq::<u8>::empty());
            }
            return Ok(r);
        }
        let eff: u32 = if size <= fsize - offset {
            size
        } else {
            fsize - offset
        };
        let chain = fs.fat.get_cluster_chain(&fs.disk, self.start_cluster);
        let ghost ch = chain@;
        proof {
            crate::layout::lemma_chain_from_props(fs.disk@, m, self.start_cluster,
                spec_max_cluster(m) as nat);
            assert(content.len() == ch.len() * spec_bytes_per_cluster(m));
        }
        let bpc = fs.meta.bytes_per_cluster() as usize;
        let mut data: Vec<u8> = Vec::new();
        let mut b: usize = 0;
        while b < eff as usize
            invariant
                fs.wf(),
                m == fs.meta,
                ch == chain@,
                ch == chain_of(fs.disk@, m, self.start_cluster)->Some_0,
                content == file_content(fs.disk@, m, self.start_cluster),
                content.len() == ch.len() * spec_bytes_per_cluster(m),
                forall|k: int| 0 <= k < ch.len() ==> 2 <= #[trigger] ch[k] < spec_max_cluster(m),
                bpc == spec_bytes_per_cluster(m),
                offset + eff <= spec_size(fs.disk@, *self),
                spec_size(fs.disk@, *self) <= content.len(),
                b <= eff,
                data@ == content.subrange(offset as int, offset + b),
            decreases eff - b,
        {
            let g: usize = offset as usize + b;
            proof {
                lemma_byte_addr(m, ch, g as int);
            }
            let q = g / bpc;
            let w = g % bpc;
            let sec = fs.meta.cluster_to_sector(chain[q]) + w / 512;
            let off = w % 512;
            data.push(fs.disk.read_byte(sec, off));
            b += 1;
            proof {
                assert(content[g as int] == fs.disk@[byte_sector(m, ch, g as int)][byte_off(m,
                    g as int)]);
                assert(data@ =~= content.subrange(offset as int, offset + b));
            }
        }
        proof {
            assert(data@ == content.subrange(offset as int, offset + eff));
        }
        Ok(data)
    }

    /// Allocate `addition` clusters and link them onto the file's chain,
    /// terminating the new tail. Only the FAT region changes.
    fn grow_chain(&self, fs: &mut Fat32, addition: usize) -> (r: Result<
        Vec<u32>,
        OperationError,
    >)
        requires
            old(fs).wf(),
            chain_of(old(fs).disk@, old(fs).meta, self.start_cluster) is Some,
            0 <= sector_cluster(old(fs).meta, self.sector as int) < spec_max_cluster(
                old(fs).meta),
            !(fat_entry_spec(old(fs).disk@, old(fs).meta, sector_cluster(old(fs).meta,
                self.sector as int)) is Free),
            ({
                let ch0 = chain_of(old(fs).disk@, old(fs).meta, self.start_cluster)->Some_0;
                forall|i: int|
                    0 <= i < ch0.len() ==> #[trigger] ch0[i] != sector_cluster(old(fs).meta,
                        self.sector as int)
            }),
        ensures
            final(fs).wf(),
            final(fs).meta == old(fs).meta,
            final(fs).disk@.len() == old(fs).disk@.len(),
            forall|s: int|
                spec_root_dir_start(old(fs).meta) <= s < old(fs).disk@.len()
                    ==> #[trigger] final(fs).disk@[s] == old(fs).disk@[s],
            match r {
                Ok(chain) => {
                    let m = old(fs).meta;
                    let ch0 = chain_of(old(fs).disk@, m, self.start_cluster)->Some_0;
                    &&& chain_of(final(fs).disk@, m, self.start_cluster) == Some(chain@)
                    &&& chain@.len() == ch0.len() + addition
                    &&& chain@.take(ch0.len() as int) == ch0
                    &&& forall|i: int| 0 <= i < chain@.len() ==> #[trigger] chain@[i]
                        != sector_cluster(m, self.sector as int)
                },
                Err(e) => e == OperationError::NoEnoughSpace && addition > 0,
            },
    {
        let ghost m = fs.meta;
        let ghost dv_init = fs.disk@;
        let ghost ch0 = chain_of(fs.disk@, m, self.start_cluster)->Some_0;
        let ghost sc = sector_cluster(m, self.sector as int);
        let mut chain = fs.fat.get_cluster_chain(&fs.disk, self.start_cluster);
        proof {
            crate::layout::lemma_chain_from_props(fs.disk@, m, self.start_cluster,
                spec_max_cluster(m) as nat);
        }
        let mut last = chain[chain.len() - 1];
        let mut a: usize = 0;
        while a < addition
            invariant
                fs.wf(),
                m == fs.meta,
                m == old(fs).meta,
                dv_init == old(fs).disk@,
                ch0 == chain_of(old(fs).disk@, m, self.start_cluster)->Some_0,
                sc == sector_cluster(m, self.sector as int),
                0 <= sc < spec_max_cluster(m),
                fs.disk@.len() == dv_init.len(),
                a <= addition,
                chain@.len() == ch0.len() + a,
                chain@.len() >= 1,
                last == chain@[chain@.len() - 1],
                chain@.take(ch0.len() as int) == ch0,
                chain_of(fs.disk@, m, self.start_cluster) == Some(chain@),
                forall|i: int| 0 <= i < chain@.len() ==> 2 <= #[trigger] chain@[i]
                    < spec_max_cluster(m),
                forall|i: int| 0 <= i < chain@.len() ==> #[trigger] chain@[i] != sc,
                !(fat_entry_spec(fs.disk@, m, sc) is Free),
                forall|s: int|
                    spec_root_dir_start(m) <= s < dv_init.len() ==> #[trigger] fs.disk@[s]
                        == dv_init[s],
            decreases addition - a,
        {
            let copt = fs.fat.alloc_cluster(&fs.disk);
            let c = match copt {
                Some(c) => c,
                None => {
                    return Err(OperationError::NoEnoughSpace);
                }
            };
            let ghost dv0 = fs.disk@;
            proof {
                crate::layout::lemma_chain_from_props(fs.disk@, m, self.start_cluster,
                    spec_max_cluster(m) as nat);
                assert(fat_entry_spec(dv0, m, last as int) is Eof);
                assert(c != last);
                assert(c != sc);
            }
            fs.fat.set_entry(&mut fs.disk, c, FatEntry::Eof, DirEntryType::File);
            let ghost dv1 = fs.disk@;
            fs.fat.set_entry(&mut fs.disk, last, FatEntry::Cluster(c), DirEntryType::File);
            proof {
                let dv2 = fs.disk@;
                assert(fat_entry_spec(dv2, m, last as int) == FatEntry::Cluster(c)) by {
                    assert(crate::layout::fat_val(dv2, m, last as int)
                        == crate::layout::spec_encode(FatEntry::Cluster(c),
                        DirEntryType::File));
                    assert(2 <= c < spec_max_cluster(m));
                    assert(spec_max_cluster(m) <= 0x0100_0002) by {
                        crate::layout::lemma_chain_len_bound(dv0, m, self.start_cluster,
                            spec_max_cluster(m) as nat);
                    }
                }
                assert(fat_entry_spec(dv2, m, c as int) is Eof) by {
                    assert(crate::layout::fat_val(dv1, m, c as int) == 0x0FFFFFFF);
                    assert(crate::layout::fat_val(dv2, m, c as int) == crate::layout::fat_val(
                        dv1, m, c as int));
                }
                assert forall|c2: int|
                    0 <= c2 < spec_max_cluster(m) && c2 != c && c2 != last
                        implies crate::layout::fat_val(dv2, m, c2) == crate::layout::fat_val(
                        dv0, m, c2) by {}
                crate::layout::lemma_chain_extend(dv0, dv2, m, self.start_cluster, c);
                crate::layout::lemma_fat_slot_in_range(m, c as int);
                crate::layout::lemma_fat_slot_in_range(m, last as int);
                assert(!(fat_entry_spec(dv2, m, sc) is Free)) by {
                    assert(crate::layout::fat_val(dv2, m, sc) == crate::layout::fat_val(dv0, m,
                        sc));
                }
            }
            chain.push(c);
            last = c;
            a += 1;
            proof {
                assert(chain@.take(ch0.len() as int) =~= ch0);
            }
        }
        Ok(chain)
    }

    /// Copy `data` into the chain's bytes at `offset`. Only those bytes of
    /// the image change: the FAT region, sectors off the chain, and every
    /// other chain byte keep their values.
    #[verifier::rlimit(60)]
    fn write_range(fs: &mut Fat32, chain: &Vec<u32>, offset: u32, data: &[u8])
        requires
            old(fs).wf(),
            offset + data@.len() <= 0xFFFF_FFFF,
            offset + data@.len() <= chain@.len() * spec_bytes_per_cluster(old(fs).meta),
            forall|i: int| 0 <= i < chain@.len() ==> 2 <= #[trigger] chain@[i]
                < spec_max_cluster(old(fs).meta),
            forall|i: int, j: int| 0 <= i < j < chain@.len() ==> chain@[i] != chain@[j],
        ensures
            final(fs).wf(),
            final(fs).meta == old(fs).meta,
            final(fs).disk@.len() == old(fs).disk@.len(),
            forall|s: int|
                0 <= s < spec_root_dir_start(old(fs).meta) ==> #[trigger] final(fs).disk@[s]
                    == old(fs).disk@[s],
            forall|s: int|
                spec_root_dir_start(old(fs).meta) <= s < old(fs).disk@.len()
                    && !in_chain_sectors(old(fs).meta, chain@, s) ==> #[trigger] final(
                    fs).disk@[s] == old(fs).disk@[s],
            forall|p: int|
                0 <= p < chain@.len() * spec_bytes_per_cluster(old(fs).meta)
                    ==> #[trigger] chain_bytes(final(fs).disk@, old(fs).meta, chain@)[p] == (
                    if offset <= p < offset + data@.len() {
                    data@[p - offset]
                } else {
                    chain_bytes(old(fs).disk@, old(fs).meta, chain@)[p]
                }),
    {
        let ghost m = fs.meta;
        let ghost dv_a = fs.disk@;
        let ghost ch = chain@;
        let ghost content_a = chain_bytes(dv_a, m, ch);
        let bpc = fs.meta.bytes_per_cluster() as usize;
        let mut t: usize = 0;
        while t < data.len()
            invariant
                fs.wf(),
                m == fs.meta,
                m == old(fs).meta,
                ch == chain@,
                dv_a == old(fs).disk@,
                fs.disk@.len() == dv_a.len(),
                bpc == spec_bytes_per_cluster(m),
                t <= data@.len(),
                offset + data@.len() <= 0xFFFF_FFFF,
                offset + data@.len() <= ch.len() * bpc,
                forall|i: int| 0 <= i < ch.len() ==> 2 <= #[trigger] ch[i] < spec_max_cluster(
                    m),
                forall|i: int, j: int| 0 <= i < j < ch.len() ==> ch[i] != ch[j],
                content_a == chain_bytes(dv_a, m, ch),
                content_a.len() == ch.len() * bpc,
                forall|s: int|
                    0 <= s < spec_root_dir_start(m) ==> #[trigger] fs.disk@[s] == dv_a[s],
                forall|s: int|
                    spec_root_dir_start(m) <= s < dv_a.len() && !in_chain_sectors(m, ch, s)
                        ==> #[trigger] fs.disk@[s] == dv_a[s],
                forall|p: int|
                    0 <= p < content_a.len() ==> #[trigger] chain_bytes(fs.disk@, m, ch)[p]
                        == (if offset <= p < offset + t {
                        data@[p - offset]
                    } else {
                        content_a[p]
                    }),
            decreases data@.len() - t,
        {
            let g: usize = offset as usize + t;
            proof {
                lemma_byte_addr(m, ch, g as int);
            }
            let q = g / bpc;
            let w = g % bpc;
            let sec = fs.meta.cluster_to_sector(chain[q]) + w / 512;
            let off = w % 512;
            let ghost dv_pre = fs.disk@;
            fs.disk.write_bytes(sec, off, &data[t..t + 1]);
            t += 1;
            proof {
                assert(sec as int == byte_sector(m, ch, g as int));
                assert(off as int == byte_off(m, g as int));
                assert(data@.subrange(t - 1, t as int)[0] == data@[t - 1]);
                assert forall|p: int|
                    0 <= p < content_a.len() implies #[trigger] chain_bytes(fs.disk@, m,
                    ch)[p] == (if offset <= p < offset + t {
                    data@[p - offset]
                } else {
                    content_a[p]
                }) by {
                    lemma_byte_addr(m, ch, p);
                    let bs = byte_sector(m, ch, p);
                    let bo = byte_off(m, p);
                    let oldb = chain_bytes(dv_pre, m, ch)[p];
                    if p == g {
                        assert(chain_bytes(fs.disk@, m, ch)[p] == fs.disk@[bs][bo]);
                        assert(fs.disk@[bs][bo] == data@[t - 1]);
                    } else {
                        lemma_byte_addr_inj(m, ch, p, g as int);
                        if bs != sec {
                            assert(fs.disk@[bs] == dv_pre[bs]);
                        } else {
                            assert(fs.disk@[bs][bo] == dv_pre[bs][bo]);
                        }
                        assert(chain_bytes(fs.disk@, m, ch)[p] == oldb);
                    }
                }
                assert forall|s: int|
                    spec_root_dir_start(m) <= s < dv_a.len() && !in_chain_sectors(m, ch, s)
                        implies #[trigger] fs.disk@[s] == dv_a[s] by {
                    let cidx = g as int / (bpc as int);
                    assert(spec_cluster_to_sector(m, ch[cidx] as int) <= sec as int);
                    assert((sec as int) < spec_cluster_to_sector(m, ch[cidx] as int)
                        + m.sectors_per_cluster);
                    assert(in_chain_sectors(m, ch, sec as int));
                }
            }
        }
    }

    /// Record a new size while leaving the chain's bytes untouched.
    fn set_size_framed(&self, fs: &mut Fat32, new_size: u32, Ghost(ch): Ghost<Seq<u32>>)
        requires
            old(fs).wf(),
            valid_file_pos(old(fs).disk@, old(fs).meta, *self),
            (self.sector as int) < spec_cluster_to_sector(old(fs).meta, spec_max_cluster(
                old(fs).meta)),
            chain_of(old(fs).disk@, old(fs).meta, self.start_cluster) == Some(ch),
            forall|i: int| 0 <= i < ch.len() ==> 2 <= #[trigger] ch[i] < spec_max_cluster(
                old(fs).meta),
            forall|i: int| 0 <= i < ch.len() ==> #[trigger] ch[i] != sector_cluster(
                old(fs).meta, self.sector as int),
        ensures
            final(fs).wf(),
            final(fs).meta == old(fs).meta,
            final(fs).disk@.len() == old(fs).disk@.len(),
            valid_file_pos(final(fs).disk@, final(fs).meta, *self),
            spec_size(final(fs).disk@, *self) == new_size,
            chain_of(final(fs).disk@, old(fs).meta, self.start_cluster) == Some(ch),
            chain_bytes(final(fs).disk@, old(fs).meta, ch) == chain_bytes(old(fs).disk@,
                old(fs).meta, ch),
    {
        let ghost m = fs.meta;
        let ghost dv_w = fs.disk@;
        proof {
            lemma_sector_not_in_chain(m, ch, self.sector as int);
        }
        self.update_size(fs, new_size);
        proof {
            let dv_f = fs.disk@;
            assert forall|s: int|
                0 <= s < dv_w.len() && in_chain_sectors(m, ch, s) implies #[trigger] dv_f[s]
                    == dv_w[s] by {
                assert(s != self.sector);
            }
            lemma_chain_bytes_same(dv_w, dv_f, m, ch);
            assert forall|s: int|
                0 <= s < spec_root_dir_start(m) implies #[trigger] dv_f[s] == dv_w[s] by {
                assert((self.sector as int) >= spec_root_dir_start(m));
            }
            crate::layout::lemma_fat_region_same_chains(dv_w, dv_f, m, self.start_cluster,
                spec_max_cluster(m) as nat);
        }
    }

    /// Write `data` at `offset`, growing the cluster chain on demand and
    /// updating the size field to cover the written range. On success the
    /// written range of the file's bytes equals `data` and every byte
    /// outside it is untouched; the only failure is running out of
    /// clusters, and a write needing no new cluster cannot fail.
    #[verifier::rlimit(100)]
    #[verifier::spinoff_prover]
    pub fn write(&self, fs: &mut Fat32, offset: u32, data: &[u8]) -> (r: Result<
        u32,
        OperationError,
    >)
        requires
            old(fs).wf(),
            valid_file_pos(old(fs).disk@, old(fs).meta, *self),
            (self.sector as int) < spec_cluster_to_sector(old(fs).meta, spec_max_cluster(
                old(fs).meta)),
            chain_of(old(fs).disk@, old(fs).meta, self.start_cluster) is Some,
            spec_size(old(fs).disk@, *self) <= file_content(old(fs).disk@, old(fs).meta,
                self.start_cluster).len(),
            offset + data@.len() <= 0xFFFF_FFFF,
            !(fat_entry_spec(old(fs).disk@, old(fs).meta, sector_cluster(old(fs).meta,
                self.sector as int)) is Free),
            ({
                let ch0 = chain_of(old(fs).disk@, old(fs).meta, self.start_cluster)->Some_0;
                forall|i: int|
                    0 <= i < ch0.len() ==> #[trigger] ch0[i] != sector_cluster(old(fs).meta,
                        self.sector as int)
            }),
        ensures
            final(fs).wf(),
            final(fs).meta == old(fs).meta,
            final(fs).disk@.len() == old(fs).disk@.len(),
            match r {
                Ok(n) => {
                    let m = old(fs).meta;
                    let size0 = spec_size(old(fs).disk@, *self);
                    let content1 = file_content(final(fs).disk@, m, self.start_cluster);
                    &&& n == data@.len()
                    &&& chain_of(final(fs).disk@, m, self.start_cluster) is Some
                    &&& valid_file_pos(final(fs).disk@, m, *self)
                    &&& spec_size(final(fs).disk@, *self) == spec_new_size(size0, offset as int,
                        data@.len() as int)
                    &&& spec_size(final(fs).disk@, *self) <= content1.len()
                    &&& content1.subrange(offset as int, offset + data@.len()) == data@
                    &&& forall|p: int|
                        0 <= p < file_content(old(fs).disk@, m, self.start_cluster).len()
                            && !(offset <= p < offset + data@.len())
                            ==> content1[p] == file_content(old(fs).disk@, m,
                            self.start_cluster)[p]
                },
                Err(e) => e == OperationError::NoEnoughSpace,
            },
            spec_addition(old(fs).meta, spec_size(old(fs).disk@, *self), offset as int,
                data@.len() as int) == 0 ==> r is Ok,
    {
        let ghost m = fs.meta;
        let ghost dv_init = fs.disk@;
        let ghost size0 = spec_size(fs.disk@, *self);
        let ghost ch0 = chain_of(fs.disk@, m, self.start_cluster)->Some_0;
        let ghost sc = sector_cluster(m, self.sector as int);
        proof {
            lemma_sector_cluster(m, self.sector as int);
        }
        let (addition, new_size) = self.calculate_addition_cluster(fs, offset,
            data.len() as u32);
        let chain = match self.grow_chain(fs, addition) {
            Ok(chain) => chain,
            Err(e) => {
                return Err(e);
            }
        };
        let ghost ch_new = chain@;
        let ghost dv_a = fs.disk@;
        proof {
            assert(spec_size(dv_a, *self) == size0) by {
                assert(fs.disk@[self.sector as int] == dv_init[self.sector as int]);
            }
            assert(spec_new_size(size0, offset as int, data@.len() as int) <= ch_new.len()
                * spec_bytes_per_cluster(m)) by {
                crate::layout::lemma_chain_from_props(dv_init, m, self.start_cluster,
                    spec_max_cluster(m) as nat);
                lemma_size_fits(m, size0, offset as int, data@.len() as int,
                    ch0.len() as int);
                assert(spec_new_size(size0, offset as int, data@.len() as int) <= (ch0.len()
                    + spec_addition(m, size0, offset as int, data@.len() as int))
                    * spec_bytes_per_cluster(m) ==> spec_new_size(size0, offset as int,
                    data@.len() as int) <= ch_new.len() * spec_bytes_per_cluster(m))
                    by (nonlinear_arith)
                    requires ch_new.len() == ch0.len() + spec_addition(m, size0, offset as int,
                        data@.len() as int), spec_bytes_per_cluster(m) >= 0;
            }
            assert(forall|i: int| 0 <= i < ch_new.len() ==> 2 <= #[trigger] ch_new[i]
                < spec_max_cluster(m) && (forall|j: int| 0 <= j < i ==> ch_new[j]
                != ch_new[i])) by {
                crate::layout::lemma_chain_from_props(dv_a, m, self.start_cluster,
                    spec_max_cluster(m) as nat);
                crate::layout::lemma_chain_nodup(dv_a, m, self.start_cluster,
                    spec_max_cluster(m) as nat);
            }
        }
        Self::write_range(fs, &chain, offset, data);
        let ghost dv_w = fs.disk@;
        proof {
            crate::layout::lemma_fat_region_same_chains(dv_a, dv_w, m, self.start_cluster,
                spec_max_cluster(m) as nat);
        }
        self.set_size_framed(fs, new_size, Ghost(ch_new));
        proof {
            lemma_chain_bytes_prefix(dv_init, dv_a, m, ch0, ch_new);
            lemma_write_content(dv_init, dv_a, fs.disk@, m, self.start_cluster, ch0, ch_new,
                offset as int, data@);
        }
        Ok(data.len() as u32)
    }

    /// Free every cluster of the file's chain but the head, terminate the
    /// head, and set the size to zero.
    pub fn clear(&self, fs: &mut Fat32)
        requires
            old(fs).wf(),
            valid_file_pos(old(fs).disk@, old(fs).meta, *self),
            (self.sector as int) < spec_cluster_to_sector(old(fs).meta, spec_max_cluster(
                old(fs).meta)),
            chain_of(old(fs).disk@, old(fs).meta, self.start_cluster) is Some,
            ({
                let ch0 = chain_of(old(fs).disk@, old(fs).meta, self.start_cluster)->Some_0;
                forall|i: int|
                    0 <= i < ch0.len() ==> #[trigger] ch0[i] != sector_cluster(old(fs).meta,
                        self.sector as int)
            }),
        ensures
            final(fs).wf(),
            final(fs).meta == old(fs).meta,
            final(fs).disk@.len() == old(fs).disk@.len(),
            valid_file_pos(final(fs).disk@, final(fs).meta, *self),
            spec_size(final(fs).disk@, *self) == 0,
            chain_of(final(fs).disk@, old(fs).meta, self.start_cluster) == Some(seq![
                self.start_cluster,
            ]),
            forall|c2: int|
                0 <= c2 < spec_max_cluster(old(fs).meta) && !chain_of(old(fs).disk@,
                    old(fs).meta, self.start_cluster)->Some_0.contains(c2 as u32)
                    ==> crate::layout::fat_val(final(fs).disk@, old(fs).meta, c2)
                        == crate::layout::fat_val(old(fs).disk@, old(fs).meta, c2),
            forall|i: int|
                1 <= i < chain_of(old(fs).disk@, old(fs).meta,
                    self.start_cluster)->Some_0.len() ==> fat_entry_spec(final(fs).disk@,
                    old(fs).meta, (#[trigger] chain_of(old(fs).disk@, old(fs).meta,
                    self.start_cluster)->Some_0[i]) as int) is Free,
    {
        let ghost m = fs.meta;
        let ghost dv0 = fs.disk@;
        let ghost ch0 = chain_of(dv0, m, self.start_cluster)->Some_0;
        let ghost sc = sector_cluster(m, self.sector as int);
        proof {
            crate::layout::lemma_chain_from_props(dv0, m, self.start_cluster,
                spec_max_cluster(m) as nat);
            crate::layout::lemma_chain_nodup(dv0, m, self.start_cluster,
                spec_max_cluster(m) as nat);
            lemma_sector_cluster(m, self.sector as int);
        }
        let chain = fs.fat.get_cluster_chain(&fs.disk, self.start_cluster);
        let mut i: usize = 1;
        while i < chain.len()
            invariant
                fs.wf(),
                m == fs.meta,
                m == old(fs).meta,
                fs.disk@.len() == dv0.len(),
                dv0 == old(fs).disk@,
                chain@ == ch0,
                ch0 == chain_of(dv0, m, self.start_cluster)->Some_0,
                forall|k: int| 0 <= k < ch0.len() ==> 2 <= #[trigger] ch0[k]
                    < spec_max_cluster(m),
                1 <= i <= ch0.len(),
                forall|s: int|
                    spec_root_dir_start(m) <= s < dv0.len() ==> #[trigger] fs.disk@[s]
                        == dv0[s],
                forall|c2: int|
                    0 <= c2 < spec_max_cluster(m) && !ch0.contains(c2 as u32)
                        ==> crate::layout::fat_val(fs.disk@, m, c2) == crate::layout::fat_val(
                        dv0, m, c2),
                forall|t: int, u: int| 0 <= t < u < ch0.len() ==> ch0[t] != ch0[u],
                forall|t: int|
                    1 <= t < i ==> fat_entry_spec(fs.disk@, m, (
                    #[trigger] ch0[t]) as int) is Free,
            decreases chain@.len() - i,
        {
            fs.fat.set_entry(&mut fs.disk, chain[i], FatEntry::Free, DirEntryType::File);
            if fs.fat.total_free_cluster < 0xFFFF_FFFF {
                fs.fat.total_free_cluster = fs.fat.total_free_cluster + 1;
            }
            proof {
                crate::layout::lemma_fat_slot_in_range(m, ch0[i as int] as int);
                assert(ch0.contains(ch0[i as int]));
                assert(fat_entry_spec(fs.disk@, m, ch0[i as int] as int) is Free) by {
                    assert(crate::layout::fat_val(fs.disk@, m, ch0[i as int] as int) == 0);
                }
            }
            i += 1;
        }
        let ghost dv1 = fs.disk@;
        fs.fat.set_entry(&mut fs.disk, self.start_cluster, FatEntry::Eof, DirEntryType::File);
        let ghost dv2 = fs.disk@;
        proof {
            crate::layout::lemma_fat_slot_in_range(m, self.start_cluster as int);
            assert(ch0.contains(ch0[0]));
            assert(fat_entry_spec(dv2, m, self.start_cluster as int) is Eof) by {
                assert(crate::layout::fat_val(dv2, m, self.start_cluster as int) == 0x0FFFFFFF);
            }
            assert(chain_of(dv2, m, self.start_cluster) == Some(seq![self.start_cluster]));
            assert forall|c2: int|
                0 <= c2 < spec_max_cluster(m) && !ch0.contains(c2 as u32)
                    implies crate::layout::fat_val(dv2, m, c2) == crate::layout::fat_val(dv0, m,
                    c2) by {
                assert(c2 != self.start_cluster as int);
                assert(crate::layout::fat_val(dv2, m, c2) == crate::layout::fat_val(dv1, m,
                    c2));
            }
        }
        self.update_size(fs, 0);
        proof {
            let dv3 = fs.disk@;
            assert forall|s: int|
                0 <= s < spec_root_dir_start(m) implies #[trigger] dv3[s] == dv2[s] by {
                assert((self.sector as int) >= spec_root_dir_start(m));
            }
            assert forall|c2: int|
                0 <= c2 < spec_max_cluster(m) implies crate::layout::fat_val(dv3, m, c2)
                    == crate::layout::fat_val(dv2, m, c2) by {
                crate::layout::lemma_fat_region_same_chains(dv2, dv3, m, c2 as u32, 0);
            }
            crate::layout::lemma_fat_region_same_chains(dv2, dv3, m, self.start_cluster,
                spec_max_cluster(m) as nat);
            assert(chain_of(dv3, m, self.start_cluster) == Some(seq![self.start_cluster]));
            assert forall|t: int|
                1 <= t < ch0.len() implies fat_entry_spec(dv3, m, (
                #[trigger] ch0[t]) as int) is Free by {
                assert(ch0[t] != ch0[0]);
                assert(fat_entry_spec(dv1, m, ch0[t] as int) is Free);
                assert(crate::layout::fat_val(dv2, m, ch0[t] as int)
                    == crate::layout::fat_val(dv1, m, ch0[t] as int));
            }
        }
    }
}


} // verus!
