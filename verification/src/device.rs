//! The storage boundary: a block device supplies and receives whole
//! sectors; the embedder implements it for real media.

use vstd::prelude::*;

use crate::disk::Disk;
use crate::utils::BLOCK_SIZE;

verus! {

/// A medium of 512-byte sectors. Implementations are supplied by the
/// embedder; the library promises nothing about what a read returns
/// beyond its shape, and verifies its own logic on the sectors it holds.
pub trait BlockDevice {
    /// Read sector `block`; `Ok` carries exactly one sector of bytes.
    fn read(&mut self, block: usize) -> (r: Result<Vec<u8>, ()>)
        ensures
            r is Ok ==> r->Ok_0@.len() == BLOCK_SIZE,
    ;

    /// Write one sector at `block`.
    fn write(&mut self, block: usize, buf: &Vec<u8>) -> (r: Result<(), ()>)
        requires
            buf@.len() == BLOCK_SIZE,
    ;

    /// Flush whatever the medium buffers.
    fn flush(&mut self) -> (r: Result<(), ()>);
}

/// Pull `n_sectors` sectors off a device into an image.
pub fn load_image<D: BlockDevice>(device: &mut D, n_sectors: usize) -> (r: Result<Disk, ()>)
    ensures
        match r {
            Ok(d) => d.wf() && d@.len() == n_sectors,
            Err(_) => true,
        },
{
    let mut sectors: Vec<Vec<u8>> = Vec::new();
    let mut i: usize = 0;
    while i < n_sectors
        invariant
            i <= n_sectors,
            sectors@.len() == i,
            forall|k: int| 0 <= k < i ==> (#[trigger] sectors@[k])@.len() == BLOCK_SIZE,
        decreases n_sectors - i,
    {
        let buf = match device.read(i) {
            Ok(b) => b,
            Err(_) => {
                return Err(());
            }
        };
        sectors.push(buf);
        i += 1;
    }
    match Disk::from_sectors(sectors) {
        Some(d) => Ok(d),
        None => Err(()),
    }
}

/// Push every sector of an image back onto a device and flush it.
pub fn store_image<D: BlockDevice>(device: &mut D, disk: &Disk) -> (r: Result<(), ()>)
    requires
        disk.wf(),
{
    let n = disk.len();
    let mut i: usize = 0;
    while i < n
        invariant
            disk.wf(),
            n == disk@.len(),
            i <= n,
        decreases n - i,
    {
        let buf = disk.read_bytes(i, 0, BLOCK_SIZE);
        match device.write(i, &buf) {
            Ok(_) => {}
            Err(_) => {
                return Err(());
            }
        }
        i += 1;
    }
    device.flush()
}

} // verus!
