//! In-memory image of the volume: the storage that every component reads
//! and writes. Moving sectors between this image and a physical medium is
//! the embedder's task (see `device`).

use vstd::prelude::*;

use crate::utils::BLOCK_SIZE;

verus! {

/// `s` with the bytes starting at `off` replaced by `d`.
pub open spec fn splice(s: Seq<u8>, off: int, d: Seq<u8>) -> Seq<u8> {
    Seq::new(s.len(), |i: int| if off <= i < off + d.len() { d[i - off] } else { s[i] })
}

/// A volume image, one 512-byte buffer per sector.
///
/// The view is the sequence of sector contents.
pub struct Disk {
    sectors: Vec<Vec<u8>>,
}

impl View for Disk {
    type V = Seq<Seq<u8>>;

    closed spec fn view(&self) -> Seq<Seq<u8>> {
        self.sectors@.map_values(|s: Vec<u8>| s@)
    }
}

impl Disk {
    /// Every sector buffer holds exactly one sector.
    pub open spec fn wf(&self) -> bool {
        forall|i: int| 0 <= i < self@.len() ==> (#[trigger] self@[i]).len() == BLOCK_SIZE
    }

    /// A fresh image of `n_sectors` zeroed sectors.
    pub fn new(n_sectors: usize) -> (r: Disk)
        ensures
            r.wf(),
            r@.len() == n_sectors,
            forall|i: int, j: int|
                0 <= i < n_sectors && 0 <= j < BLOCK_SIZE ==> (#[trigger] r@[i][j]) == 0u8,
    {
        let mut sectors: Vec<Vec<u8>> = Vec::new();
        while sectors.len() < n_sectors
            invariant
                sectors@.len() <= n_sectors,
                forall|i: int|
                    0 <= i < sectors@.len() ==> (#[trigger] sectors@[i])@.len() == BLOCK_SIZE,
                forall|i: int, j: int|
                    0 <= i < sectors@.len() && 0 <= j < BLOCK_SIZE
                        ==> (#[trigger] sectors@[i]@[j]) == 0u8,
            decreases n_sectors - sectors.len(),
        {
            let zero: Vec<u8> = vec![0u8; BLOCK_SIZE];
            sectors.push(zero);
        }
        Disk { sectors }
    }

    /// Wrap raw sectors; refused unless every buffer is one sector long.
    pub fn from_sectors(sectors: Vec<Vec<u8>>) -> (r: Option<Disk>)
        ensures
            match r {
                Some(d) => d.wf() && d@ == sectors@.map_values(|s: Vec<u8>| s@),
                None => !(forall|i: int|
                    0 <= i < sectors@.len() ==> (#[trigger] sectors@[i])@.len() == BLOCK_SIZE),
            },
    {
        let mut k: usize = 0;
        while k < sectors.len()
            invariant
                k <= sectors@.len(),
                forall|i: int| 0 <= i < k ==> (#[trigger] sectors@[i])@.len() == BLOCK_SIZE,
            decreases sectors@.len() - k,
        {
            if sectors[k].len() != BLOCK_SIZE {
                return None;
            }
            k += 1;
        }
        Some(Disk { sectors })
    }

    /// Hand the raw sectors back (for the embedder to store).
    pub fn into_sectors(self) -> (r: Vec<Vec<u8>>)
        ensures
            r@.map_values(|s: Vec<u8>| s@) == self@,
    {
        self.sectors
    }

    pub fn len(&self) -> (r: usize)
        ensures
            r == self@.len(),
    {
        self.sectors.len()
    }

    /// One byte of one sector.
    pub fn read_byte(&self, sector: usize, off: usize) -> (r: u8)
        requires
            self.wf(),
            sector < self@.len(),
            off < BLOCK_SIZE,
        ensures
            r == self@[sector as int][off as int],
    {
        proof {
            assert(self@[sector as int] == self.sectors@[sector as int]@);
        }
        self.sectors[sector][off]
    }

    /// A byte range of one sector.
    pub fn read_bytes(&self, sector: usize, off: usize, len: usize) -> (r: Vec<u8>)
        requires
            self.wf(),
            sector < self@.len(),
            off + len <= BLOCK_SIZE,
        ensures
            r@ == self@[sector as int].subrange(off as int, off + len),
    {
        let mut r: Vec<u8> = Vec::new();
        let mut k: usize = 0;
        while k < len
            invariant
                self.wf(),
                sector < self@.len(),
                off + len <= BLOCK_SIZE,
                k <= len,
                r@ == self@[sector as int].subrange(off as int, off + k),
            decreases len - k,
        {
            proof {
                assert(self@[sector as int] == self.sectors@[sector as int]@);
            }
            r.push(self.sectors[sector][off + k]);
            k += 1;
            proof {
                assert(r@ =~= self@[sector as int].subrange(off as int, off + k));
            }
        }
        r
    }

    /// Overwrite a byte range of one sector; nothing else changes.
    pub fn write_bytes(&mut self, sector: usize, off: usize, data: &[u8])
        requires
            old(self).wf(),
            sector < old(self)@.len(),
            off + data@.len() <= BLOCK_SIZE,
        ensures
            final(self).wf(),
            final(self)@ == old(self)@.update(
                sector as int,
                splice(old(self)@[sector as int], off as int, data@),
            ),
    {
        let ghost orig = self@;
        let mut k: usize = 0;
        while k < data.len()
            invariant
                self.wf(),
                sector < self@.len(),
                off + data@.len() <= BLOCK_SIZE,
                k <= data@.len(),
                self@.len() == orig.len(),
                forall|i: int| 0 <= i < orig.len() && i != sector ==> self@[i] == orig[i],
                self@[sector as int] == splice(orig[sector as int], off as int, data@.take(k as int)),
            decreases data@.len() - k,
        {
            proof {
                assert(self@.len() == self.sectors@.len());
                assert forall|i: int| 0 <= i < self@.len() implies (#[trigger] self@[i])
                    == self.sectors@[i]@ by {}
            }
            let ghost pre = self@;
            self.sectors[sector][off + k] = data[k];
            proof {
                assert(self@.len() == self.sectors@.len());
                assert forall|i: int| 0 <= i < self@.len() implies (#[trigger] self@[i])
                    == self.sectors@[i]@ by {}
                assert forall|i: int| 0 <= i < self@.len() && i != sector implies (#[trigger] self@[i])
                    == pre[i] by {}
            }
            k += 1;
            proof {
                assert(self@[sector as int]
                    =~= splice(orig[sector as int], off as int, data@.take(k as int)));
            }
        }
        proof {
            assert(data@.take(data@.len() as int) =~= data@);
            assert(self@ =~= orig.update(
                sector as int,
                splice(orig[sector as int], off as int, data@),
            ));
        }
    }
}

} // verus!
