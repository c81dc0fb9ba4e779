//! Laws that relate several operations, stated over the same models their
//! contracts use.

use vstd::prelude::*;

use crate::dir::{file_content, spec_new_size, spec_read, spec_size, File};
use crate::layout::MetaData;

verus! {

/// Creating a name that was absent and then deleting it restores the
/// directory's bindings exactly: a create+delete pair with empty net
/// effect leaves the set of listed names unchanged.
pub proof fn lemma_create_delete_restores_names<T>(m0: Map<Seq<u16>, T>, k: Seq<u16>, v: T)
    requires
        !m0.contains_key(k),
    ensures
        m0.insert(k, v).remove(k) == m0,
        m0.insert(k, v).remove(k).dom() == m0.dom(),
{
    assert(m0.insert(k, v).remove(k) =~= m0);
}

/// Writing `data` at `offset` and then reading `data.len()` bytes back at
/// `offset` yields exactly `data`: the state a successful write leaves
/// behind denotes that read result.
pub proof fn lemma_write_then_read(dv: Seq<Seq<u8>>, m: MetaData, f: File, offset: int,
    data: Seq<u8>, size0: int)
    requires
        0 <= offset,
        0 <= size0,
        spec_size(dv, f) == spec_new_size(size0, offset, data.len() as int),
        spec_size(dv, f) <= file_content(dv, m, f.start_cluster).len(),
        file_content(dv, m, f.start_cluster).subrange(offset, offset + data.len()) == data,
    ensures
        spec_read(dv, m, f, offset, data.len() as int) == data,
{
    let fsize = spec_size(dv, f);
    if data.len() == 0 {
        if offset >= fsize {
            assert(spec_read(dv, m, f, offset, 0) =~= data);
        } else {
            assert(spec_read(dv, m, f, offset, 0) =~= data);
        }
    } else {
        assert(fsize >= offset + data.len());
        assert(spec_read(dv, m, f, offset, data.len() as int) == file_content(dv, m,
            f.start_cluster).subrange(offset, offset + data.len()));
    }
}

/// A file whose size field is zero reads as empty at every offset: a
/// freshly created file, and a file just cleared, are observationally the
/// same as any other empty file.
pub proof fn lemma_fresh_file_reads_empty(dv: Seq<Seq<u8>>, m: MetaData, f: File, offset: int,
    size: int)
    requires
        spec_size(dv, f) == 0,
        0 <= offset,
    ensures
        spec_read(dv, m, f, offset, size) == Seq::<u8>::empty(),
{
}

/// Two file handles over images that agree on the file's size and chain
/// bytes read identically: renaming, which keeps the start cluster, the
/// size and the data clusters, preserves every read.
pub proof fn lemma_same_content_same_reads(dv1: Seq<Seq<u8>>, f1: File, dv2: Seq<Seq<u8>>,
    f2: File, m: MetaData, offset: int, size: int)
    requires
        spec_size(dv1, f1) == spec_size(dv2, f2),
        file_content(dv1, m, f1.start_cluster) == file_content(dv2, m, f2.start_cluster),
    ensures
        spec_read(dv1, m, f1, offset, size) == spec_read(dv2, m, f2, offset, size),
{
}

} // verus!
