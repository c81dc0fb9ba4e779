//! Directory entry codec: short (8.3) entries, long (UCS-2) entries, and
//! the grouping of long entries around their short entry.

use vstd::prelude::*;

use crate::utils::{le16, le32, u16_from_le_bytes, u16_to_le_bytes, u32_from_le_bytes,
    u32_to_le_bytes};
use vstd::slice::slice_to_vec;

verus! {

broadcast use vstd::string::is_ascii_spec_bytes;

pub const ATTR_READ_ONLY: u8 = 0x01;

pub const ATTR_HIDDEN: u8 = 0x02;

pub const ATTR_SYSTEM: u8 = 0x04;

pub const ATTR_VOLUME_ID: u8 = 0x08;

pub const ATTR_DIRECTORY: u8 = 0x10;

pub const ATTR_ARCHIVE: u8 = 0x20;

/// Mask of the four low attribute bits; a long-name entry carries exactly it.
pub const ATTR_LONG_NAME: u8 = 0x0F;

/// All attribute bits an entry can carry.
pub const ATTR_ALL: u8 = 0x3F;

/// The bytes of an ASCII string, one per character.
pub open spec fn ascii_bytes(s: Seq<char>) -> Seq<u8> {
    Seq::new(s.len(), |i: int| s[i] as u8)
}

/// The UCS-2 code units of a string of BMP characters, one per character.
pub open spec fn str_units(s: Seq<char>) -> Seq<u16> {
    Seq::new(s.len(), |i: int| (s[i] as u32) as u16)
}

/// `s` spells exactly the code units `u`: same length, same code points.
pub open spec fn matches_units(s: Seq<char>, u: Seq<u16>) -> bool {
    s.len() == u.len() && forall|i: int| 0 <= i < u.len() ==> (#[trigger] s[i] as u32) == u[i]
}

/// A UTF-16 surrogate code unit; such units never stand for a BMP character.
pub open spec fn is_surrogate(u: u16) -> bool {
    0xD800 <= u < 0xE000
}

/// Relies on String::from_utf16: when no unit is a surrogate, decoding
/// succeeds and yields exactly one character per unit, with equal code
/// points.
#[verifier::external_body]
pub fn ucs2_to_string(units: &Vec<u16>) -> (r: Option<String>)
    ensures
        (forall|i: int| 0 <= i < units@.len() ==> !is_surrogate(#[trigger] units@[i]))
            ==> (r is Some && matches_units(r->Some_0@, units@)),
{
    String::from_utf16(units.as_slice()).ok()
}

/// Whether any unit is a UTF-16 surrogate.
pub fn has_surrogate(units: &Vec<u16>) -> (r: bool)
    ensures
        r == exists|i: int| 0 <= i < units@.len() && is_surrogate(#[trigger] units@[i]),
{
    let mut k: usize = 0;
    while k < units.len()
        invariant
            k <= units@.len(),
            forall|i: int| 0 <= i < k ==> !is_surrogate(#[trigger] units@[i]),
        decreases units@.len() - k,
    {
        if 0xD800 <= units[k] && units[k] < 0xE000 {
            return true;
        }
        k += 1;
    }
    false
}

/// Widen ASCII (or any) bytes to UCS-2 code units.
pub fn bytes_to_units(bytes: &Vec<u8>) -> (r: Vec<u16>)
    ensures
        r@.len() == bytes@.len(),
        forall|i: int| 0 <= i < bytes@.len() ==> (#[trigger] r@[i]) == bytes@[i] as u16,
{
    let mut r: Vec<u16> = Vec::new();
    let mut k: usize = 0;
    while k < bytes.len()
        invariant
            k <= bytes@.len(),
            r@.len() == k,
            forall|i: int| 0 <= i < k ==> (#[trigger] r@[i]) == bytes@[i] as u16,
        decreases bytes@.len() - k,
    {
        r.push(bytes[k] as u16);
        k += 1;
    }
    r
}

/// The code units of a `&str` of BMP characters; `None` when a character
/// lies outside the BMP.
pub fn str_to_units(s: &str) -> (r: Option<Vec<u16>>)
    ensures
        match r {
            Some(u) => {
                &&& u@ == str_units(s@)
                &&& matches_units(s@, u@)
                &&& forall|i: int| 0 <= i < s@.len() ==> ((#[trigger] s@[i]) as u32) < 0x10000
            },
            None => exists|i: int| 0 <= i < s@.len() && ((#[trigger] s@[i]) as u32) >= 0x10000,
        },
{
    let n = s.unicode_len();
    let mut r: Vec<u16> = Vec::new();
    let mut k: usize = 0;
    while k < n
        invariant
            n == s@.len(),
            k <= n,
            r@ == str_units(s@).take(k as int),
            forall|i: int| 0 <= i < k ==> ((#[trigger] s@[i]) as u32) < 0x10000,
        decreases n - k,
    {
        let c = s.get_char(k);
        let u = c as u32;
        if u >= 0x10000 {
            return None;
        }
        r.push(u as u16);
        k += 1;
        proof {
            assert(r@ =~= str_units(s@).take(k as int));
        }
    }
    proof {
        assert(str_units(s@).take(n as int) =~= str_units(s@));
    }
    Some(r)
}

/// ASCII uppercasing of one byte.
pub open spec fn spec_upper(c: u8) -> u8 {
    if 0x61 <= c <= 0x7A {
        (c - 0x20) as u8
    } else {
        c
    }
}

/// Whether the byte string holds a '.'.
pub open spec fn has_dot(b: Seq<u8>) -> bool {
    exists|i: int| 0 <= i < b.len() && b[i] == 0x2Eu8
}

/// Index of the rightmost '.' (meaningful only when `has_dot`).
pub open spec fn last_dot(b: Seq<u8>) -> int
    decreases b.len(),
{
    if b.len() == 0 {
        0
    } else if b[b.len() - 1] == 0x2Eu8 {
        b.len() - 1
    } else {
        last_dot(b.drop_last())
    }
}

/// Where a name splits into stem and extension: the rightmost '.', or the
/// end when there is none.
pub open spec fn dot_index(b: Seq<u8>) -> int {
    if has_dot(b) {
        last_dot(b)
    } else {
        b.len() as int
    }
}

pub proof fn lemma_last_dot_at(b: Seq<u8>, j: int)
    requires
        0 <= j < b.len(),
        b[j] == 0x2Eu8,
        forall|k: int| j < k < b.len() ==> b[k] != 0x2Eu8,
    ensures
        has_dot(b),
        last_dot(b) == j,
    decreases b.len(),
{
    if j == b.len() - 1 {
    } else {
        assert(b.drop_last()[j] == b[j]);
        lemma_last_dot_at(b.drop_last(), j);
    }
}

pub proof fn lemma_no_dot(b: Seq<u8>)
    requires
        forall|k: int| 0 <= k < b.len() ==> b[k] != 0x2Eu8,
    ensures
        !has_dot(b),
{
}

pub proof fn lemma_last_dot_bounds(b: Seq<u8>)
    requires
        has_dot(b),
    ensures
        0 <= last_dot(b) < b.len(),
        b[last_dot(b)] == 0x2Eu8,
    decreases b.len(),
{
    if b[b.len() - 1] == 0x2Eu8 {
    } else {
        assert(has_dot(b.drop_last())) by {
            let i = choose|i: int| 0 <= i < b.len() && b[i] == 0x2Eu8;
            assert(b.drop_last()[i] == b[i]);
        }
        lemma_last_dot_bounds(b.drop_last());
    }
}

/// The literal "." and ".." names, which never split at a dot.
pub open spec fn is_dot_name(b: Seq<u8>) -> bool {
    b == seq![0x2Eu8] || b == seq![0x2Eu8, 0x2Eu8]
}

/// Stem of a name: everything left of the rightmost '.'.
pub open spec fn spec_stem(b: Seq<u8>) -> Seq<u8> {
    if is_dot_name(b) {
        b
    } else {
        b.take(dot_index(b))
    }
}

/// Extension of a name: everything right of the rightmost '.', empty when
/// there is no dot.
pub open spec fn spec_ext(b: Seq<u8>) -> Seq<u8> {
    if is_dot_name(b) || !has_dot(b) {
        Seq::empty()
    } else {
        b.skip(dot_index(b) + 1)
    }
}

/// The 8-byte name field: uppercased stem, truncated to 8, space padded.
pub open spec fn spec_name_field(b: Seq<u8>) -> Seq<u8> {
    Seq::new(8, |i: int| if i < spec_stem(b).len() {
        spec_upper(spec_stem(b)[i])
    } else {
        0x20u8
    })
}

/// The 3-byte extension field: uppercased, truncated to 3, space padded.
pub open spec fn spec_ext_field(b: Seq<u8>) -> Seq<u8> {
    Seq::new(3, |i: int| if i < spec_ext(b).len() {
        spec_upper(spec_ext(b)[i])
    } else {
        0x20u8
    })
}

/// One step of the VFAT checksum: rotate right by one bit, then add.
pub open spec fn checksum_step(sum: u8, b: u8) -> u8 {
    ((((sum & 1) as int) * 0x80 + (sum as int) / 2 + b) % 0x100) as u8
}

/// Run-time form of one checksum step.
pub fn checksum_push(sum: u8, b: u8) -> (r: u8)
    ensures
        r == checksum_step(sum, b),
{
    proof {
        assert((((sum & 1) as u32) << 7) == (sum & 1) * 0x80) by (bit_vector);
        assert((sum >> 1) == sum / 2) by (bit_vector);
    }
    let total: u32 = (((sum & 1) as u32) << 7) + (sum >> 1) as u32 + b as u32;
    (total % 0x100) as u8
}

/// The VFAT checksum of a byte string, folded left from zero.
pub open spec fn spec_checksum(b: Seq<u8>) -> u8
    decreases b.len(),
{
    if b.len() == 0 {
        0u8
    } else {
        checksum_step(spec_checksum(b.drop_last()), b.last())
    }
}

/// A short (8.3) directory entry, 32 bytes on disk.
#[derive(Debug)]
pub struct ShortEntry {
    pub name: Vec<u8>,
    pub ext: Vec<u8>,
    pub attr: u8,
    pub reserved: u8,
    pub create_time: u16,
    pub create_date: u16,
    pub last_access_date: u16,
    pub cluster_high: u16,
    pub modify_time: u16,
    pub modify_date: u16,
    pub cluster_low: u16,
    pub file_size: u32,
}

/// Cluster number packed in the entry's high and low halves.
pub open spec fn spec_start_cluster(high: u16, low: u16) -> u32 {
    (high * 0x10000 + low) as u32
}

impl ShortEntry {
    /// The name field holds 8 bytes and the extension field 3.
    pub open spec fn wf(&self) -> bool {
        self.name@.len() == 8 && self.ext@.len() == 3
    }

    /// Bytes whose display name (§ filename) this entry would carry.
    pub open spec fn spec_name_bytes(&self) -> Seq<u8> {
        self.name@ + self.ext@
    }

    /// Build the entry for a logical name: split at the rightmost dot,
    /// uppercase, pad with spaces, store the start cluster, size zero, and
    /// a fixed plausible timestamp. "." and ".." are stored literally.
    pub fn new(name: &str, attr: u8, cluster: u32) -> (r: ShortEntry)
        requires
            vstd::string::is_ascii(name),
        ensures
            r.wf(),
            r.name@ == spec_name_field(ascii_bytes(name@)),
            r.ext@ == spec_ext_field(ascii_bytes(name@)),
            r.attr == attr & ATTR_ALL,
            spec_start_cluster(r.cluster_high, r.cluster_low) == cluster,
            r.file_size == 0,
    {
        let bytes_sl = name.as_bytes();
        proof {
            assert(bytes_sl@ =~= ascii_bytes(name@));
        }
        Self::from_name_bytes(bytes_sl, attr, cluster)
    }

    /// Build the entry from the raw bytes of a logical name.
    pub fn from_name_bytes(bytes_sl: &[u8], attr: u8, cluster: u32) -> (r: ShortEntry)
        ensures
            r.wf(),
            r.name@ == spec_name_field(bytes_sl@),
            r.ext@ == spec_ext_field(bytes_sl@),
            r.attr == attr & ATTR_ALL,
            spec_start_cluster(r.cluster_high, r.cluster_low) == cluster,
            r.file_size == 0,
    {
        let b: Vec<u8> = slice_to_vec(bytes_sl);
        let n = b.len();
        // find the split point
        let is_dot = n == 1 && b[0] == 0x2E;
        let is_dotdot = n == 2 && b[0] == 0x2E && b[1] == 0x2E;
        proof {
            if is_dot {
                assert(b@ =~= seq![0x2Eu8]);
            }
            if is_dotdot {
                assert(b@ =~= seq![0x2Eu8, 0x2Eu8]);
            }
            if !is_dot && !is_dotdot {
                assert(!is_dot_name(b@)) by {
                    if b@ == seq![0x2Eu8] {
                        assert(n == 1 && b@[0] == 0x2Eu8);
                    }
                    if b@ == seq![0x2Eu8, 0x2Eu8] {
                        assert(n == 2 && b@[0] == 0x2Eu8 && b@[1] == 0x2Eu8);
                    }
                }
            }
        }
        let dot: usize = if is_dot || is_dotdot {
            n
        } else {
            let mut j: usize = n;
            loop
                invariant_except_break
                    j <= n,
                    n == b@.len(),
                    forall|k: int| j <= k < n ==> b@[k] != 0x2Eu8,
                ensures
                    j <= n,
                    j == dot_index(b@),
                decreases j,
            {
                if j == 0 {
                    proof {
                        lemma_no_dot(b@);
                    }
                    j = n;
                    break;
                }
                if b[j - 1] == 0x2E {
                    proof {
                        lemma_last_dot_at(b@, j - 1);
                    }
                    j -= 1;
                    break;
                }
                j -= 1;
            }
            j
        };
        let ghost ab = b@;
        // stem and extension, uppercased and padded
        let mut name_field: Vec<u8> = Vec::new();
        let stem_len: usize = if dot < 8 {
            dot
        } else {
            8
        };
        let mut i: usize = 0;
        while i < stem_len
            invariant
                stem_len <= 8,
                stem_len <= dot <= n,
                n == ab.len(),
                b@ == ab,
                i <= stem_len,
                name_field@.len() == i,
                spec_stem(ab).len() >= stem_len,
                forall|k: int| 0 <= k < i ==> (#[trigger] name_field@[k]) == spec_upper(spec_stem(ab)[k]),
                forall|k: int| 0 <= k < stem_len ==> spec_stem(ab)[k] == ab[k],
            decreases stem_len - i,
        {
            let c = b[i];
            let u = if 0x61 <= c && c <= 0x7A {
                c - 0x20
            } else {
                c
            };
            name_field.push(u);
            i += 1;
        }
        while name_field.len() < 8
            invariant
                stem_len <= 8,
                name_field@.len() >= stem_len,
                name_field@.len() <= 8,
                forall|k: int| 0 <= k < stem_len ==> (#[trigger] name_field@[k]) == spec_upper(
                    spec_stem(ab)[k]),
                forall|k: int| stem_len <= k < name_field@.len() ==> (#[trigger] name_field@[k])
                    == 0x20u8,
            decreases 8 - name_field.len(),
        {
            name_field.push(0x20);
        }
        // extension
        let mut ext_field: Vec<u8> = Vec::new();
        let ext_start: usize = if dot < n {
            dot + 1
        } else {
            n
        };
        let ext_len_avail = n - ext_start;
        let ext_len: usize = if ext_len_avail < 3 {
            ext_len_avail
        } else {
            3
        };
        proof {
            if !(is_dot || is_dotdot) && dot < n {
                assert(spec_ext(ab) =~= ab.skip(dot + 1));
            }
        }
        let mut i2: usize = 0;
        while i2 < ext_len
            invariant
                ext_len <= 3,
                ext_start + ext_len <= n,
                n == ab.len(),
                b@ == ab,
                i2 <= ext_len,
                ext_field@.len() == i2,
                spec_ext(ab).len() >= ext_len,
                forall|k: int| 0 <= k < ext_len ==> spec_ext(ab)[k] == ab[ext_start + k],
                forall|k: int| 0 <= k < i2 ==> (#[trigger] ext_field@[k]) == spec_upper(
                    spec_ext(ab)[k]),
            decreases ext_len - i2,
        {
            let c = b[ext_start + i2];
            let u = if 0x61 <= c && c <= 0x7A {
                c - 0x20
            } else {
                c
            };
            ext_field.push(u);
            i2 += 1;
        }
        while ext_field.len() < 3
            invariant
                ext_len <= 3,
                ext_field@.len() >= ext_len,
                ext_field@.len() <= 3,
                forall|k: int| 0 <= k < ext_len ==> (#[trigger] ext_field@[k]) == spec_upper(
                    spec_ext(ab)[k]),
                forall|k: int| ext_len <= k < ext_field@.len() ==> (#[trigger] ext_field@[k])
                    == 0x20u8,
            decreases 3 - ext_field.len(),
        {
            ext_field.push(0x20);
        }
        proof {
            assert(spec_stem(ab).len() == if is_dot_name(ab) { ab.len() as int } else {
                dot_index(ab)
            });
            assert(name_field@ =~= spec_name_field(ab));
            if is_dot || is_dotdot {
                assert(spec_ext(ab).len() == 0);
            } else if dot < n {
                assert(spec_ext(ab) =~= ab.skip(dot + 1));
            } else {
                if has_dot(ab) {
                    lemma_last_dot_bounds(ab);
                }
                assert(!has_dot(ab));
                assert(spec_ext(ab).len() == 0);
            }
            assert(ext_field@ =~= spec_ext_field(ab));
        }
        let r = ShortEntry {
            name: name_field,
            ext: ext_field,
            attr: attr & ATTR_ALL,
            reserved: 0,
            create_time: 0xBC7C,
            create_date: 0x6A6C,
            last_access_date: 0x6A55,
            cluster_high: (cluster >> 16) as u16,
            modify_time: 0x6CBC,
            modify_date: 0x556A,
            cluster_low: (cluster & 0xFFFF) as u16,
            file_size: 0,
        };
        proof {
            let hi = (cluster >> 16) as u16;
            let lo = (cluster & 0xFFFF) as u16;
            assert(hi * 0x10000 + lo == cluster) by (bit_vector)
                requires hi == (cluster >> 16) as u16, lo == (cluster & 0xFFFF) as u16;
        }
        r
    }

    /// Decode a short entry from its first 32 bytes.
    pub fn from_buffer(buffer: &[u8]) -> (r: ShortEntry)
        requires
            buffer@.len() >= 32,
        ensures
            r.wf(),
            r.name@ == buffer@.subrange(0, 8),
            r.ext@ == buffer@.subrange(8, 11),
            r.attr == buffer@[11] & ATTR_ALL,
            r.reserved == buffer@[12],
            r.create_time == le16(buffer@.subrange(13, 15)),
            r.create_date == le16(buffer@.subrange(15, 17)),
            r.last_access_date == le16(buffer@.subrange(17, 19)),
            r.cluster_high == le16(buffer@.subrange(20, 22)),
            r.modify_time == le16(buffer@.subrange(22, 24)),
            r.modify_date == le16(buffer@.subrange(24, 26)),
            r.cluster_low == le16(buffer@.subrange(26, 28)),
            r.file_size == le32(buffer@.subrange(28, 32)),
    {
        let name: Vec<u8> = slice_to_vec(&buffer[0..8]);
        let ext: Vec<u8> = slice_to_vec(&buffer[8..11]);
        ShortEntry {
            name,
            ext,
            attr: buffer[11] & ATTR_ALL,
            reserved: buffer[12],
            create_time: u16_from_le_bytes(&buffer[13..15]),
            create_date: u16_from_le_bytes(&buffer[15..17]),
            last_access_date: u16_from_le_bytes(&buffer[17..19]),
            cluster_high: u16_from_le_bytes(&buffer[20..22]),
            modify_time: u16_from_le_bytes(&buffer[22..24]),
            modify_date: u16_from_le_bytes(&buffer[24..26]),
            cluster_low: u16_from_le_bytes(&buffer[26..28]),
            file_size: u32_from_le_bytes(&buffer[28..32]),
        }
    }

    /// Encode the entry as its 32 on-disk bytes.
    pub fn to_buffer(&self) -> (r: Vec<u8>)
        requires
            self.wf(),
        ensures
            r@.len() == 32,
            r@.subrange(0, 8) == self.name@,
            r@.subrange(8, 11) == self.ext@,
            r@[11] == self.attr,
            r@[12] == self.reserved,
            le16(r@.subrange(13, 15)) == self.create_time,
            le16(r@.subrange(15, 17)) == self.create_date,
            le16(r@.subrange(17, 19)) == self.last_access_date,
            r@[19] == 0u8,
            le16(r@.subrange(20, 22)) == self.cluster_high,
            le16(r@.subrange(22, 24)) == self.modify_time,
            le16(r@.subrange(24, 26)) == self.modify_date,
            le16(r@.subrange(26, 28)) == self.cluster_low,
            le32(r@.subrange(28, 32)) == self.file_size,
    {
        let mut r: Vec<u8> = Vec::new();
        let mut i: usize = 0;
        while i < 8
            invariant
                self.wf(),
                i <= 8,
                r@ == self.name@.take(i as int),
            decreases 8 - i,
        {
            r.push(self.name[i]);
            i += 1;
            proof {
                assert(r@ =~= self.name@.take(i as int));
            }
        }
        proof {
            assert(self.name@.take(8) =~= self.name@);
        }
        let mut i2: usize = 0;
        while i2 < 3
            invariant
                self.wf(),
                i2 <= 3,
                r@ == self.name@ + self.ext@.take(i2 as int),
            decreases 3 - i2,
        {
            r.push(self.ext[i2]);
            i2 += 1;
            proof {
                assert(r@ =~= self.name@ + self.ext@.take(i2 as int));
            }
        }
        proof {
            assert(self.ext@.take(3) =~= self.ext@);
        }
        r.push(self.attr);
        r.push(self.reserved);
        let mut two = u16_to_le_bytes(self.create_time);
        r.append(&mut two);
        let mut two = u16_to_le_bytes(self.create_date);
        r.append(&mut two);
        let mut two = u16_to_le_bytes(self.last_access_date);
        r.append(&mut two);
        r.push(0);
        let mut two = u16_to_le_bytes(self.cluster_high);
        r.append(&mut two);
        let mut two = u16_to_le_bytes(self.modify_time);
        r.append(&mut two);
        let mut two = u16_to_le_bytes(self.modify_date);
        r.append(&mut two);
        let mut two = u16_to_le_bytes(self.cluster_low);
        r.append(&mut two);
        let mut four = u32_to_le_bytes(self.file_size);
        r.append(&mut four);
        proof {
            assert(r@.subrange(0, 8) =~= self.name@);
            assert(r@.subrange(8, 11) =~= self.ext@);
            assert(r@.subrange(13, 15) =~= r@.subrange(13, 15));
        }
        r
    }

    /// Name and extension bytes up to the first space or NUL of each.
    pub open spec fn spec_display_bytes(&self) -> Seq<u8> {
        let n = name_prefix(self.name@);
        if self.ext@.len() > 0 && self.ext@[0] != 0x20u8 {
            n + seq![0x2Eu8] + name_prefix(self.ext@)
        } else {
            n
        }
    }

    /// The display name as UCS-2 units (one per byte).
    pub fn filename_units(&self) -> (r: Vec<u16>)
        requires
            self.wf(),
        ensures
            r@.len() == self.spec_display_bytes().len(),
            forall|i: int| 0 <= i < r@.len() ==> (#[trigger] r@[i])
                == self.spec_display_bytes()[i] as u16,
            forall|i: int| 0 <= i < r@.len() ==> !is_surrogate(#[trigger] r@[i]),
    {
        let mut i: usize = 0;
        loop
            invariant
                self.wf(),
                i <= 8,
                forall|k: int| 0 <= k < i ==> self.name@[k] != 0x20u8 && self.name@[k] != 0u8,
            ensures
                i <= 8,
                forall|k: int| 0 <= k < i ==> self.name@[k] != 0x20u8 && self.name@[k] != 0u8,
                i == 8 || self.name@[i as int] == 0x20u8 || self.name@[i as int] == 0u8,
            decreases 8 - i,
        {
            if i == 8 {
                break;
            }
            let c = self.name[i];
            if c == 0x20 || c == 0x00 {
                break;
            }
            i += 1;
        }
        let mut bytes: Vec<u8> = slice_to_vec(&self.name.as_slice()[0..i]);
        proof {
            lemma_name_prefix_full(self.name@, i as int);
        }
        if self.ext[0] != 0x20 {
            bytes.push(0x2E);
            let mut j: usize = 0;
            loop
                invariant
                    self.wf(),
                    j <= 3,
                    forall|k: int| 0 <= k < j ==> self.ext@[k] != 0x20u8 && self.ext@[k] != 0u8,
                ensures
                    j <= 3,
                    forall|k: int| 0 <= k < j ==> self.ext@[k] != 0x20u8 && self.ext@[k] != 0u8,
                    j == 3 || self.ext@[j as int] == 0x20u8 || self.ext@[j as int] == 0u8,
                decreases 3 - j,
            {
                if j == 3 {
                    break;
                }
                let c = self.ext[j];
                if c == 0x20 || c == 0x00 {
                    break;
                }
                j += 1;
            }
            let mut tail: Vec<u8> = slice_to_vec(&self.ext.as_slice()[0..j]);
            bytes.append(&mut tail);
            proof {
                lemma_name_prefix_full(self.ext@, j as int);
                assert(bytes@ =~= self.spec_display_bytes());
            }
        } else {
            proof {
                assert(bytes@ =~= self.spec_display_bytes());
            }
        }
        let units = bytes_to_units(&bytes);
        units
    }

    /// The display name: stem, then `.` and the extension when one is set.
    pub fn filename(&self) -> (r: String)
        requires
            self.wf(),
        ensures
            matches_units(r@, Seq::new(self.spec_display_bytes().len(), |i: int|
                self.spec_display_bytes()[i] as u16)),
    {
        let units = self.filename_units();
        let s = ucs2_to_string(&units);
        proof {
            assert(Seq::new(self.spec_display_bytes().len(), |i: int|
                self.spec_display_bytes()[i] as u16) =~= units@);
        }
        match s {
            Some(s) => s,
            None => {
                proof {
                    assert(false);
                }
                String::new()
            }
        }
    }

    /// The VFAT checksum over the 11 name-and-extension bytes.
    pub fn checksum(&self) -> (r: u8)
        requires
            self.wf(),
        ensures
            r == spec_checksum(self.name@ + self.ext@),
    {
        let mut sum: u8 = 0;
        let mut i: usize = 0;
        while i < 8
            invariant
                self.wf(),
                i <= 8,
                sum == spec_checksum(self.name@.take(i as int)),
            decreases 8 - i,
        {
            sum = checksum_push(sum, self.name[i]);
            i += 1;
            proof {
                assert(self.name@.take(i as int).drop_last() =~= self.name@.take(i - 1));
                assert(self.name@.take(i as int).last() == self.name@[i - 1]);
            }
        }
        proof {
            assert(self.name@.take(8) =~= self.name@);
        }
        let mut j: usize = 0;
        while j < 3
            invariant
                self.wf(),
                j <= 3,
                sum == spec_checksum(self.name@ + self.ext@.take(j as int)),
            decreases 3 - j,
        {
            sum = checksum_push(sum, self.ext[j]);
            j += 1;
            proof {
                assert((self.name@ + self.ext@.take(j as int)).drop_last() =~= self.name@
                    + self.ext@.take(j - 1));
                assert((self.name@ + self.ext@.take(j as int)).last() == self.ext@[j - 1]);
            }
        }
        proof {
            assert(self.name@ + self.ext@.take(3) =~= self.name@ + self.ext@);
        }
        sum
    }

    /// The raw attribute byte.
    pub fn attr(&self) -> (r: u8)
        ensures
            r == self.attr,
    {
        self.attr
    }

    /// The start cluster packed in the high and low halves.
    pub fn start_cluster(&self) -> (r: u32)
        ensures
            r == spec_start_cluster(self.cluster_high, self.cluster_low),
    {
        let hi = self.cluster_high;
        let lo = self.cluster_low;
        proof {
            assert(((hi as u32) << 16 | lo as u32) == hi * 0x10000 + lo) by (bit_vector);
        }
        (hi as u32) << 16 | lo as u32
    }

    pub fn file_size(&self) -> (r: u32)
        ensures
            r == self.file_size,
    {
        self.file_size
    }
}

/// Bytes before the first space or NUL.
pub open spec fn name_prefix(b: Seq<u8>) -> Seq<u8>
    decreases b.len(),
{
    if b.len() == 0 {
        Seq::empty()
    } else if b[0] == 0x20u8 || b[0] == 0u8 {
        Seq::empty()
    } else {
        seq![b[0]] + name_prefix(b.skip(1))
    }
}

/// Extending the scanned prefix by a non-terminator byte extends the result.
pub proof fn lemma_name_prefix_take(b: Seq<u8>, i: int)
    requires
        0 < i <= b.len(),
        forall|k: int| 0 <= k < i ==> b[k] != 0x20u8 && b[k] != 0u8,
    ensures
        name_prefix(b.take(i)) == b.take(i),
    decreases i,
{
    if i == 1 {
        assert(b.take(1) =~= seq![b[0]]);
        assert(name_prefix(b.take(1)) =~= seq![b[0]] + name_prefix(b.take(1).skip(1)));
        assert(b.take(1).skip(1) =~= Seq::<u8>::empty());
        assert(name_prefix(b.take(1)) =~= b.take(1));
    } else {
        let t = b.take(i);
        assert(t[0] == b[0]);
        assert(t[0] != 0x20u8 && t[0] != 0u8);
        assert(name_prefix(t) == seq![t[0]] + name_prefix(t.skip(1)));
        assert(t.skip(1) =~= b.skip(1).take(i - 1));
        assert forall|k: int| 0 <= k < i - 1 implies b.skip(1)[k] != 0x20u8 && b.skip(1)[k]
            != 0u8 by {
            assert(b.skip(1)[k] == b[k + 1]);
        }
        lemma_name_prefix_take(b.skip(1), i - 1);
        assert(name_prefix(b.skip(1).take(i - 1)) == b.skip(1).take(i - 1));
        assert(name_prefix(t) =~= t);
    }
}

/// Once a terminator (or the end) is reached, the prefix of the whole
/// string equals the prefix of what was scanned.
pub proof fn lemma_name_prefix_full(b: Seq<u8>, i: int)
    requires
        0 <= i <= b.len(),
        forall|k: int| 0 <= k < i ==> b[k] != 0x20u8 && b[k] != 0u8,
        i == b.len() || b[i] == 0x20u8 || b[i] == 0u8,
    ensures
        name_prefix(b) == b.take(i),
        name_prefix(b.take(i)) == b.take(i),
    decreases i,
{
    lemma_name_prefix_stops(b, i);
    if i > 0 {
        lemma_name_prefix_take(b, i);
    } else {
        assert(b.take(0) =~= Seq::<u8>::empty());
        assert(name_prefix(b.take(0)) =~= Seq::<u8>::empty());
    }
}

proof fn lemma_name_prefix_stops(b: Seq<u8>, i: int)
    requires
        0 <= i <= b.len(),
        forall|k: int| 0 <= k < i ==> b[k] != 0x20u8 && b[k] != 0u8,
        i == b.len() || b[i] == 0x20u8 || b[i] == 0u8,
    ensures
        name_prefix(b) == b.take(i),
    decreases b.len(),
{
    if b.len() == 0 {
        assert(b.take(0) =~= Seq::<u8>::empty());
    } else if i == 0 {
        assert(b.take(0) =~= Seq::<u8>::empty());
    } else {
        assert(b[0] != 0x20u8 && b[0] != 0u8);
        assert(name_prefix(b) == seq![b[0]] + name_prefix(b.skip(1)));
        assert forall|k: int| 0 <= k < i - 1 implies b.skip(1)[k] != 0x20u8 && b.skip(1)[k]
            != 0u8 by {
            assert(b.skip(1)[k] == b[k + 1]);
        }
        assert(i - 1 == b.skip(1).len() || b.skip(1)[i - 1] == 0x20u8 || b.skip(1)[i - 1] == 0u8);
        lemma_name_prefix_stops(b.skip(1), i - 1);
        assert(name_prefix(b) =~= b.take(i));
    }
}

/// Units before the first 0x0000 terminator.
pub open spec fn units_prefix(u: Seq<u16>) -> Seq<u16>
    decreases u.len(),
{
    if u.len() == 0 {
        Seq::empty()
    } else if u[0] == 0u16 {
        Seq::empty()
    } else {
        seq![u[0]] + units_prefix(u.skip(1))
    }
}

/// A fragment with no terminator is taken whole.
pub proof fn lemma_units_prefix_all(u: Seq<u16>)
    requires
        forall|k: int| 0 <= k < u.len() ==> u[k] != 0u16,
    ensures
        units_prefix(u) == u,
    decreases u.len(),
{
    if u.len() == 0 {
        assert(units_prefix(u) =~= u);
    } else {
        assert forall|k: int| 0 <= k < u.skip(1).len() implies u.skip(1)[k] != 0u16 by {
            assert(u.skip(1)[k] == u[k + 1]);
        }
        lemma_units_prefix_all(u.skip(1));
        assert(units_prefix(u) =~= u);
    }
}

/// A fragment stops at the first terminator.
pub proof fn lemma_units_prefix_stops(u: Seq<u16>, i: int)
    requires
        0 <= i <= u.len(),
        forall|k: int| 0 <= k < i ==> u[k] != 0u16,
        i == u.len() || u[i] == 0u16,
    ensures
        units_prefix(u) == u.take(i),
    decreases u.len(),
{
    if u.len() == 0 || i == 0 {
        assert(u.take(i) =~= Seq::<u16>::empty());
    } else {
        assert forall|k: int| 0 <= k < i - 1 implies u.skip(1)[k] != 0u16 by {
            assert(u.skip(1)[k] == u[k + 1]);
        }
        assert(i - 1 == u.skip(1).len() || u.skip(1)[i - 1] == 0u16);
        lemma_units_prefix_stops(u.skip(1), i - 1);
        assert(units_prefix(u) =~= u.take(i));
    }
}

/// Byte offset of code unit `i` inside a long entry's 32 bytes.
pub open spec fn long_unit_off(i: int) -> int {
    if i < 5 {
        1 + 2 * i
    } else if i < 11 {
        14 + 2 * (i - 5)
    } else {
        28 + 2 * (i - 11)
    }
}

/// A long (VFAT) directory entry: 13 UCS-2 units of a name, a sequence
/// number, and the checksum of its short entry.
#[derive(Debug)]
pub struct LongEntry {
    pub order: u8,
    pub name1: Vec<u16>,
    pub attr: u8,
    pub reserved: u8,
    pub checksum: u8,
    pub name2: Vec<u16>,
    pub cluster: u16,
    pub name3: Vec<u16>,
}

impl LongEntry {
    pub open spec fn wf(&self) -> bool {
        self.name1@.len() == 5 && self.name2@.len() == 6 && self.name3@.len() == 2
    }

    /// The 13 code units carried by this entry.
    pub open spec fn spec_units(&self) -> Seq<u16> {
        self.name1@ + self.name2@ + self.name3@
    }

    /// The (order, units) pair this entry contributes to its group.
    pub open spec fn spec_frag(&self) -> (u8, Seq<u16>) {
        (self.order, self.spec_units())
    }

    /// Build one long entry from up to 13 units, padding with 0xFFFF.
    pub fn new(chunk: &[u16], order: u8, checksum: u8) -> (r: LongEntry)
        requires
            chunk@.len() <= 13,
        ensures
            r.wf(),
            r.order == order,
            r.checksum == checksum,
            r.attr == ATTR_LONG_NAME,
            r.reserved == 0,
            r.cluster == 0,
            r.spec_units() == chunk@ + Seq::new((13 - chunk@.len()) as nat, |i: int| 0xFFFFu16),
    {
        let mut padded: Vec<u16> = slice_to_vec(chunk);
        while padded.len() < 13
            invariant
                chunk@.len() <= padded@.len() <= 13,
                padded@ == chunk@ + Seq::new((padded@.len() - chunk@.len()) as nat, |i: int| 0xFFFFu16),
            decreases 13 - padded.len(),
        {
            padded.push(0xFFFF);
            proof {
                assert(padded@ =~= chunk@ + Seq::new((padded@.len() - chunk@.len()) as nat, |i: int|
                    0xFFFFu16));
            }
        }
        proof {
            assert(chunk@ + Seq::new(0nat, |i: int| 0xFFFFu16) =~= chunk@);
        }
        let name1: Vec<u16> = slice_to_vec(&padded.as_slice()[0..5]);
        let name2: Vec<u16> = slice_to_vec(&padded.as_slice()[5..11]);
        let name3: Vec<u16> = slice_to_vec(&padded.as_slice()[11..13]);
        let r = LongEntry {
            order,
            name1,
            attr: ATTR_LONG_NAME,
            reserved: 0,
            checksum,
            name2,
            cluster: 0,
            name3,
        };
        proof {
            assert(r.spec_units() =~= padded@);
        }
        r
    }

    /// Decode a long entry from its first 32 bytes.
    pub fn from_buffer(buffer: &[u8]) -> (r: LongEntry)
        requires
            buffer@.len() >= 32,
        ensures
            r.wf(),
            r.order == buffer@[0],
            r.attr == buffer@[11] & ATTR_ALL,
            r.reserved == buffer@[12],
            r.checksum == buffer@[13],
            r.cluster == le16(buffer@.subrange(26, 28)),
            forall|i: int| 0 <= i < 13 ==> (#[trigger] r.spec_units()[i]) == le16(
                buffer@.subrange(long_unit_off(i), long_unit_off(i) + 2)),
    {
        let mut name1: Vec<u16> = Vec::new();
        let mut i: usize = 0;
        while i < 5
            invariant
                buffer@.len() >= 32,
                i <= 5,
                name1@.len() == i,
                forall|k: int| 0 <= k < i ==> (#[trigger] name1@[k]) == le16(buffer@.subrange(
                    1 + 2 * k, 3 + 2 * k)),
            decreases 5 - i,
        {
            name1.push(u16_from_le_bytes(&buffer[1 + 2 * i..3 + 2 * i]));
            i += 1;
        }
        let mut name2: Vec<u16> = Vec::new();
        let mut i2: usize = 0;
        while i2 < 6
            invariant
                buffer@.len() >= 32,
                i2 <= 6,
                name2@.len() == i2,
                forall|k: int| 0 <= k < i2 ==> (#[trigger] name2@[k]) == le16(buffer@.subrange(
                    14 + 2 * k, 16 + 2 * k)),
            decreases 6 - i2,
        {
            name2.push(u16_from_le_bytes(&buffer[14 + 2 * i2..16 + 2 * i2]));
            i2 += 1;
        }
        let mut name3: Vec<u16> = Vec::new();
        let mut i3: usize = 0;
        while i3 < 2
            invariant
                buffer@.len() >= 32,
                i3 <= 2,
                name3@.len() == i3,
                forall|k: int| 0 <= k < i3 ==> (#[trigger] name3@[k]) == le16(buffer@.subrange(
                    28 + 2 * k, 30 + 2 * k)),
            decreases 2 - i3,
        {
            name3.push(u16_from_le_bytes(&buffer[28 + 2 * i3..30 + 2 * i3]));
            i3 += 1;
        }
        LongEntry {
            order: buffer[0],
            name1,
            attr: buffer[11] & ATTR_ALL,
            reserved: buffer[12],
            checksum: buffer[13],
            name2,
            cluster: u16_from_le_bytes(&buffer[26..28]),
            name3,
        }
    }

    /// Encode the entry as its 32 on-disk bytes.
    pub fn to_buffer(&self) -> (r: Vec<u8>)
        requires
            self.wf(),
        ensures
            r@.len() == 32,
            r@[0] == self.order,
            r@[11] == self.attr,
            r@[12] == self.reserved,
            r@[13] == self.checksum,
            le16(r@.subrange(26, 28)) == self.cluster,
            forall|i: int| 0 <= i < 13 ==> le16(r@.subrange(long_unit_off(i), long_unit_off(i)
                + 2)) == (#[trigger] self.spec_units()[i]),
    {
        let mut r: Vec<u8> = Vec::new();
        r.push(self.order);
        let mut i: usize = 0;
        while i < 5
            invariant
                self.wf(),
                i <= 5,
                r@.len() == 1 + 2 * i,
                r@[0] == self.order,
                forall|k: int| 0 <= k < i ==> le16(r@.subrange(1 + 2 * k, 3 + 2 * k))
                    == (#[trigger] self.name1@[k]),
            decreases 5 - i,
        {
            let ghost pre = r@;
            let mut two = u16_to_le_bytes(self.name1[i]);
            let ghost twov = two@;
            r.append(&mut two);
            i += 1;
            proof {
                assert forall|k: int| 0 <= k < i implies le16(r@.subrange(1 + 2 * k, 3 + 2 * k))
                    == (#[trigger] self.name1@[k]) by {
                    if k < i - 1 {
                        assert(r@.subrange(1 + 2 * k, 3 + 2 * k) =~= pre.subrange(1 + 2 * k,
                            3 + 2 * k));
                    } else {
                        assert(r@.subrange(1 + 2 * k, 3 + 2 * k) =~= twov);
                    }
                }
            }
        }
        r.push(self.attr);
        r.push(self.reserved);
        r.push(self.checksum);
        let ghost base14 = r@;
        let mut i2: usize = 0;
        while i2 < 6
            invariant
                self.wf(),
                i2 <= 6,
                r@.len() == 14 + 2 * i2,
                r@.take(14) == base14,
                base14.len() == 14,
                forall|k: int| 0 <= k < i2 ==> le16(r@.subrange(14 + 2 * k, 16 + 2 * k))
                    == (#[trigger] self.name2@[k]),
            decreases 6 - i2,
        {
            let ghost pre = r@;
            let mut two = u16_to_le_bytes(self.name2[i2]);
            let ghost twov = two@;
            r.append(&mut two);
            i2 += 1;
            proof {
                assert(r@.take(14) =~= pre.take(14));
                assert forall|k: int| 0 <= k < i2 implies le16(r@.subrange(14 + 2 * k, 16 + 2 * k))
                    == (#[trigger] self.name2@[k]) by {
                    if k < i2 - 1 {
                        assert(r@.subrange(14 + 2 * k, 16 + 2 * k) =~= pre.subrange(14 + 2 * k,
                            16 + 2 * k));
                    } else {
                        assert(r@.subrange(14 + 2 * k, 16 + 2 * k) =~= twov);
                    }
                }
            }
        }
        let ghost base26 = r@;
        let mut two = u16_to_le_bytes(self.cluster);
        let ghost clv = two@;
        r.append(&mut two);
        let ghost base28 = r@;
        let mut i3: usize = 0;
        while i3 < 2
            invariant
                self.wf(),
                i3 <= 2,
                r@.len() == 28 + 2 * i3,
                r@.take(28) == base28,
                base28.len() == 28,
                forall|k: int| 0 <= k < i3 ==> le16(r@.subrange(28 + 2 * k, 30 + 2 * k))
                    == (#[trigger] self.name3@[k]),
            decreases 2 - i3,
        {
            let ghost pre = r@;
            let mut two3 = u16_to_le_bytes(self.name3[i3]);
            let ghost twov = two3@;
            r.append(&mut two3);
            i3 += 1;
            proof {
                assert(r@.take(28) =~= pre.take(28));
                assert forall|k: int| 0 <= k < i3 implies le16(r@.subrange(28 + 2 * k, 30 + 2 * k))
                    == (#[trigger] self.name3@[k]) by {
                    if k < i3 - 1 {
                        assert(r@.subrange(28 + 2 * k, 30 + 2 * k) =~= pre.subrange(28 + 2 * k,
                            30 + 2 * k));
                    } else {
                        assert(r@.subrange(28 + 2 * k, 30 + 2 * k) =~= twov);
                    }
                }
            }
        }
        proof {
            assert(base28.take(14) =~= base14);
            assert(base28.subrange(26, 28) =~= clv);
            assert(r@[0] == base28[0]);
            assert(base28[0] == base14[0]);
            assert(r@[11] == base28[11]);
            assert(base28[11] == base14[11]);
            assert(r@[12] == base14[12]);
            assert(r@[13] == base14[13]);
            assert forall|i: int| 0 <= i < 13 implies le16(r@.subrange(long_unit_off(i),
                long_unit_off(i) + 2)) == (#[trigger] self.spec_units()[i]) by {
                if i < 5 {
                    assert(r@.subrange(1 + 2 * i, 3 + 2 * i) =~= base14.subrange(1 + 2 * i,
                        3 + 2 * i));
                    assert(base14.subrange(1 + 2 * i, 3 + 2 * i) =~= base28.take(14).subrange(
                        1 + 2 * i, 3 + 2 * i));
                } else if i < 11 {
                    let k = i - 5;
                    assert(r@.subrange(14 + 2 * k, 16 + 2 * k) =~= base28.subrange(14 + 2 * k,
                        16 + 2 * k));
                } else {
                }
            }
            assert(r@.subrange(26, 28) =~= base28.subrange(26, 28));
        }
        r
    }

    /// The fragment this entry contributes: its units up to the terminator.
    pub fn filename_units(&self) -> (r: Vec<u16>)
        requires
            self.wf(),
        ensures
            r@ == units_prefix(self.spec_units()),
    {
        let mut all: Vec<u16> = slice_to_vec(self.name1.as_slice());
        let mut n2: Vec<u16> = slice_to_vec(self.name2.as_slice());
        let mut n3: Vec<u16> = slice_to_vec(self.name3.as_slice());
        all.append(&mut n2);
        all.append(&mut n3);
        proof {
            assert(all@ =~= self.spec_units());
        }
        let mut i: usize = 0;
        loop
            invariant
                all@ == self.spec_units(),
                all@.len() == 13,
                i <= 13,
                forall|k: int| 0 <= k < i ==> all@[k] != 0u16,
            ensures
                i <= 13,
                forall|k: int| 0 <= k < i ==> all@[k] != 0u16,
                i == 13 || all@[i as int] == 0u16,
            decreases 13 - i,
        {
            if i == 13 {
                break;
            }
            if all[i] == 0 {
                break;
            }
            i += 1;
        }
        let r: Vec<u16> = slice_to_vec(&all.as_slice()[0..i]);
        proof {
            lemma_units_prefix_stops(self.spec_units(), i as int);
        }
        r
    }

    /// The fragment as a string; empty when a unit is a surrogate.
    pub fn filename(&self) -> (r: String)
        requires
            self.wf(),
        ensures
            (forall|i: int| 0 <= i < units_prefix(self.spec_units()).len()
                ==> !is_surrogate(#[trigger] units_prefix(self.spec_units())[i]))
                ==> matches_units(r@, units_prefix(self.spec_units())),
    {
        let units = self.filename_units();
        if has_surrogate(&units) {
            String::new()
        } else {
            match ucs2_to_string(&units) {
                Some(s) => s,
                None => {
                    proof {
                        assert(false);
                    }
                    String::new()
                }
            }
        }
    }

    /// The checksum field binding this entry to its short entry.
    pub fn check_sum(&self) -> (r: u8)
        ensures
            r == self.checksum,
    {
        self.checksum
    }
}

/// The (order, units) pairs of a group of long entries, in storage order.
pub open spec fn group_frags(entries: Seq<LongEntry>) -> Seq<(u8, Seq<u16>)> {
    entries.map_values(|e: LongEntry| e.spec_frag())
}

/// The first fragment carrying sequence number `s`.
pub open spec fn first_with_seq(g: Seq<(u8, Seq<u16>)>, s: int) -> Option<(u8, Seq<u16>)>
    decreases g.len(),
{
    if g.len() == 0 {
        None
    } else if (g[0].0 & ATTR_ALL) == s {
        Some(g[0])
    } else {
        first_with_seq(g.skip(1), s)
    }
}

/// The name spelled by fragments `s` and upward, in sequence order.
pub open spec fn group_units_from(g: Seq<(u8, Seq<u16>)>, s: int) -> Seq<u16>
    decreases g.len() + 1 - s,
{
    if s < 1 || s > g.len() {
        Seq::empty()
    } else {
        (match first_with_seq(g, s) {
            Some(p) => units_prefix(p.1),
            None => Seq::empty(),
        }) + group_units_from(g, s + 1)
    }
}

/// The full name spelled by a group: fragments 1..=N concatenated.
pub open spec fn spec_group_units(g: Seq<(u8, Seq<u16>)>) -> Seq<u16> {
    group_units_from(g, 1)
}

pub proof fn lemma_first_with_seq_found(g: Seq<(u8, Seq<u16>)>, s: int, j: int)
    requires
        0 <= j < g.len(),
        (g[j].0 & ATTR_ALL) == s,
        forall|k: int| 0 <= k < j ==> ((#[trigger] g[k]).0 & ATTR_ALL) != s,
    ensures
        first_with_seq(g, s) == Some(g[j]),
    decreases g.len(),
{
    if j == 0 {
    } else {
        assert forall|k: int| 0 <= k < j - 1 implies ((#[trigger] g.skip(1)[k]).0 & ATTR_ALL)
            != s by {
            assert(g.skip(1)[k] == g[k + 1]);
        }
        assert(g.skip(1)[j - 1] == g[j]);
        lemma_first_with_seq_found(g.skip(1), s, j - 1);
    }
}

/// Number of long entries a name of `n` units needs.
pub open spec fn spec_group_count(n: int) -> int {
    (n - 1) / 13 + 1
}

/// The units stored in the final entry: the name's tail, a terminator when
/// there is room, and 0xFFFF padding up to 13 units.
pub open spec fn spec_last_chunk(u: Seq<u16>) -> Seq<u16> {
    let tail = u.skip(13 * (spec_group_count(u.len() as int) - 1));
    if tail.len() < 13 {
        tail + seq![0u16] + Seq::new((12 - tail.len()) as nat, |i: int| 0xFFFFu16)
    } else {
        tail
    }
}

/// The fragments that encode a name: full 13-unit chunks with sequence
/// numbers 1.., then the final chunk with the 0x40 end bit.
pub open spec fn spec_name_frags(u: Seq<u16>) -> Seq<(u8, Seq<u16>)> {
    let kk = spec_group_count(u.len() as int);
    Seq::new(kk as nat, |i: int| if i < kk - 1 {
        (((i + 1) as u8), u.subrange(13 * i, 13 * i + 13))
    } else {
        (((0x40 + kk) as u8), spec_last_chunk(u))
    })
}

/// Division facts about the chunk count.
pub proof fn lemma_group_count(n: int)
    requires
        1 <= n <= 255,
    ensures
        1 <= spec_group_count(n) <= 20,
        13 * (spec_group_count(n) - 1) < n,
        n <= 13 * spec_group_count(n),
{
    vstd::arithmetic::div_mod::lemma_fundamental_div_mod(n - 1, 13);
    vstd::arithmetic::div_mod::lemma_mod_bound(n - 1, 13);
}

/// Encoding a name of 1 to 255 nonzero units and reading the group back
/// yields the name: the long-entry codec round-trips.
pub proof fn lemma_long_name_round_trip(u: Seq<u16>)
    requires
        1 <= u.len() <= 255,
        forall|i: int| 0 <= i < u.len() ==> (#[trigger] u[i]) != 0u16,
    ensures
        spec_group_units(spec_name_frags(u)) == u,
{
    lemma_group_count(u.len() as int);
    assert(u.skip(0) =~= u);
    lemma_round_trip_from(u, 1);
}

proof fn lemma_round_trip_from(u: Seq<u16>, s: int)
    requires
        1 <= u.len() <= 255,
        forall|i: int| 0 <= i < u.len() ==> (#[trigger] u[i]) != 0u16,
        1 <= s <= spec_group_count(u.len() as int) + 1,
    ensures
        group_units_from(spec_name_frags(u), s) == if s == spec_group_count(u.len() as int) + 1 {
            Seq::<u16>::empty()
        } else {
            u.skip(13 * (s - 1))
        },
    decreases spec_group_count(u.len() as int) + 1 - s,
{
    let kk = spec_group_count(u.len() as int);
    let g = spec_name_frags(u);
    lemma_group_count(u.len() as int);
    assert(g.len() == kk);
    assert(forall|o: u8| o < 64 ==> #[trigger] (o & 0x3F) == o) by (bit_vector);
    assert forall|j: int| 0 <= j < kk implies ((#[trigger] g[j]).0 & ATTR_ALL) == j + 1 by {
        if j < kk - 1 {
            assert(g[j].0 == (j + 1) as u8);
        } else {
            let ob = (0x40 + kk) as u8;
            assert(ob == 64 + kk);
            assert((ob & 0x3F) as int == ob - 64) by (bit_vector)
                requires 64 <= ob < 128;
        }
    }
    if s == kk + 1 {
    } else {
        assert forall|k: int| 0 <= k < s - 1 implies ((#[trigger] g[k]).0 & ATTR_ALL) != s by {}
        lemma_first_with_seq_found(g, s, s - 1);
        let frag = g[s - 1].1;
        let tail = u.skip(13 * (s - 1));
        if s < kk {
            assert(frag == u.subrange(13 * (s - 1), 13 * (s - 1) + 13));
            assert forall|k: int| 0 <= k < frag.len() implies frag[k] != 0u16 by {
                assert(frag[k] == u[13 * (s - 1) + k]);
            }
            lemma_units_prefix_all(frag);
            lemma_round_trip_from(u, s + 1);
            assert(group_units_from(g, s) == frag + u.skip(13 * s));
            assert(frag + u.skip(13 * s) =~= tail);
        } else {
            // final fragment
            assert(frag == spec_last_chunk(u));
            let rem = u.len() - 13 * (kk - 1);
            assert(1 <= rem <= 13);
            assert(tail =~= u.skip(13 * (kk - 1)));
            assert(tail.len() == rem);
            assert forall|k: int| 0 <= k < tail.len() implies tail[k] != 0u16 by {
                assert(tail[k] == u[13 * (kk - 1) + k]);
            }
            if rem < 13 {
                assert(frag =~= tail + seq![0u16] + Seq::new((12 - rem) as nat, |i: int|
                    0xFFFFu16));
                assert forall|k: int| 0 <= k < rem implies frag[k] != 0u16 by {
                    assert(frag[k] == tail[k]);
                }
                assert(frag[rem as int] == 0u16);
                lemma_units_prefix_stops(frag, rem as int);
                assert(units_prefix(frag) =~= tail);
            } else {
                assert(frag =~= tail);
                lemma_units_prefix_all(frag);
            }
            lemma_round_trip_from(u, s + 1);
            assert(group_units_from(g, s) == units_prefix(frag) + Seq::<u16>::empty());
            assert(units_prefix(frag) + Seq::<u16>::empty() =~= tail);
        }
    }
}

/// A whole long-name group under assembly or decoding: the long entries in
/// storage order.
#[derive(Debug)]
pub struct FullLoongEntry {
    pub entries: Vec<LongEntry>,
}

impl FullLoongEntry {
    pub open spec fn wf(&self) -> bool {
        forall|i: int| 0 <= i < self.entries@.len() ==> (#[trigger] self.entries@[i]).wf()
    }

    /// The (order, units) pairs of the held entries.
    pub open spec fn spec_group(&self) -> Seq<(u8, Seq<u16>)> {
        group_frags(self.entries@)
    }

    pub fn new() -> (r: FullLoongEntry)
        ensures
            r.wf(),
            r.entries@.len() == 0,
    {
        FullLoongEntry { entries: Vec::new() }
    }

    pub fn push(&mut self, entry: LongEntry)
        requires
            entry.wf(),
        ensures
            final(self).entries@ == old(self).entries@.push(entry),
            old(self).wf() ==> final(self).wf(),
    {
        self.entries.push(entry);
    }

    pub fn clear(&mut self)
        ensures
            final(self).wf(),
            final(self).entries@.len() == 0,
    {
        self.entries.clear();
    }

    pub fn len(&self) -> (r: usize)
        ensures
            r == self.entries@.len(),
    {
        self.entries.len()
    }

    /// The held entries, for iteration.
    pub fn iter(&self) -> (r: &Vec<LongEntry>)
        ensures
            r@ == self.entries@,
    {
        &self.entries
    }

    /// Encode a full name as its group of long entries: full 13-unit
    /// chunks with sequence numbers from 1, then the tail chunk carrying
    /// the 0x40 end bit, a terminator when there is room, and 0xFFFF
    /// padding. Every entry carries `check_sum`.
    pub fn from_file_name(units: &Vec<u16>, check_sum: u8) -> (r: FullLoongEntry)
        requires
            1 <= units@.len() <= 255,
        ensures
            r.wf(),
            r.spec_group() == spec_name_frags(units@),
            r.entries@.len() == spec_group_count(units@.len() as int),
            forall|i: int| 0 <= i < r.entries@.len() ==> (#[trigger] r.entries@[i]).checksum
                == check_sum,
            forall|i: int| 0 <= i < r.entries@.len() ==> (#[trigger] r.entries@[i]).attr
                == ATTR_LONG_NAME,
    {
        proof {
            lemma_group_count(units@.len() as int);
        }
        let n = units.len();
        let kk = (n - 1) / 13 + 1;
        let mut entries: Vec<LongEntry> = Vec::new();
        let mut idx: usize = 0;
        while idx < kk - 1
            invariant
                1 <= units@.len() <= 255,
                n == units@.len(),
                kk == spec_group_count(n as int),
                1 <= kk <= 20,
                13 * (kk - 1) < n <= 13 * kk,
                idx <= kk - 1,
                entries@.len() == idx,
                forall|i: int| 0 <= i < idx ==> (#[trigger] entries@[i]).wf()
                    && entries@[i].checksum == check_sum && entries@[i].attr == ATTR_LONG_NAME
                    && entries@[i].spec_frag() == spec_name_frags(units@)[i],
            decreases kk - 1 - idx,
        {
            proof {
                assert(13 * idx + 13 <= 13 * (kk - 1)) by (nonlinear_arith)
                    requires idx + 1 <= kk - 1;
                assert(13 * (idx as int) == 13 * idx);
            }
            let chunk = &units.as_slice()[13 * idx..13 * idx + 13];
            let e = LongEntry::new(chunk, (idx + 1) as u8, check_sum);
            proof {
                assert(e.spec_units() =~= units@.subrange(13 * idx, 13 * idx + 13));
            }
            entries.push(e);
            idx += 1;
        }
        let mut tail: Vec<u16> = slice_to_vec(&units.as_slice()[13 * (kk - 1)..n]);
        proof {
            assert(tail@ =~= units@.skip(13 * (kk - 1)));
        }
        if tail.len() < 13 {
            tail.push(0);
        }
        let e = LongEntry::new(tail.as_slice(), 0x40 | kk as u8, check_sum);
        proof {
            let kb = kk as u8;
            assert((0x40 | kb) == 0x40 + kb) by (bit_vector)
                requires kb < 0x40;
            let tail0 = units@.skip(13 * (kk - 1));
            if tail0.len() < 13 {
                assert(tail@ =~= tail0 + seq![0u16]);
                assert(e.spec_units() =~= spec_last_chunk(units@));
            } else {
                assert(e.spec_units() =~= spec_last_chunk(units@));
            }
        }
        entries.push(e);
        let r = FullLoongEntry { entries };
        proof {
            assert(r.spec_group() =~~= spec_name_frags(units@));
        }
        r
    }

    /// The name spelled by the held fragments, assembled in sequence order.
    pub fn filename_units(&self) -> (r: Vec<u16>)
        requires
            self.wf(),
        ensures
            r@ == spec_group_units(self.spec_group()),
    {
        let ghost g = self.spec_group();
        let kk = self.entries.len();
        let mut r: Vec<u16> = Vec::new();
        let mut s0: usize = 0;
        proof {
            assert(g.len() == kk);
        }
        while s0 < kk
            invariant
                self.wf(),
                g == self.spec_group(),
                g.len() == kk,
                kk == self.entries@.len(),
                s0 <= kk,
                spec_group_units(g) == r@ + group_units_from(g, s0 + 1),
            decreases kk - s0,
        {
            let ghost s = s0 + 1;
            let mut j: usize = 0;
            let mut idx_found: usize = kk;
            loop
                invariant_except_break
                    self.wf(),
                    g == self.spec_group(),
                    g.len() == kk,
                    kk == self.entries@.len(),
                    s0 < kk,
                    s == s0 + 1,
                    j <= kk,
                    idx_found == kk,
                    forall|k: int| 0 <= k < j ==> ((#[trigger] g[k]).0 & ATTR_ALL) != s,
                ensures
                    g.len() == kk,
                    kk == self.entries@.len(),
                    s == s0 + 1,
                    idx_found <= kk,
                    idx_found == kk ==> forall|k: int|
                        0 <= k < kk ==> ((#[trigger] g[k]).0 & ATTR_ALL) != s,
                    idx_found < kk ==> ((g[idx_found as int]).0 & ATTR_ALL) == s && forall|k: int|
                        0 <= k < idx_found ==> ((#[trigger] g[k]).0 & ATTR_ALL) != s,
                decreases kk - j,
            {
                if j == kk {
                    break;
                }
                let e = &self.entries[j];
                proof {
                    assert(g[j as int].0 == e.order);
                }
                if (e.order & ATTR_ALL) as usize == s0 + 1 {
                    idx_found = j;
                    break;
                }
                j += 1;
            }
            let frag: Vec<u16> = if idx_found < kk {
                proof {
                    lemma_first_with_seq_found(g, s, idx_found as int);
                    assert(first_with_seq(g, s)->Some_0 == g[idx_found as int]);
                    assert(g[idx_found as int].1 == self.entries@[idx_found as int].spec_units());
                }
                self.entries[idx_found].filename_units()
            } else {
                proof {
                    lemma_first_with_seq_none_helper(g, s);
                }
                Vec::new()
            };
            proof {
                assert(1 <= s <= g.len());
                assert(group_units_from(g, s) == (match first_with_seq(g, s) {
                    Some(p) => units_prefix(p.1),
                    None => Seq::<u16>::empty(),
                }) + group_units_from(g, s + 1));
                assert(frag@ == match first_with_seq(g, s) {
                    Some(p) => units_prefix(p.1),
                    None => Seq::<u16>::empty(),
                });
            }
            let mut fragm = frag;
            r.append(&mut fragm);
            s0 += 1;
        }
        proof {
            assert(group_units_from(g, s0 + 1) == Seq::<u16>::empty());
            assert(r@ =~= spec_group_units(g));
        }
        r
    }

    /// The assembled name as a string; empty when a unit is a surrogate.
    pub fn filename(&self) -> (r: String)
        requires
            self.wf(),
        ensures
            (forall|i: int| 0 <= i < spec_group_units(self.spec_group()).len()
                ==> !is_surrogate(#[trigger] spec_group_units(self.spec_group())[i]))
                ==> matches_units(r@, spec_group_units(self.spec_group())),
    {
        let units = self.filename_units();
        if has_surrogate(&units) {
            String::new()
        } else {
            match ucs2_to_string(&units) {
                Some(s2) => s2,
                None => {
                    proof {
                        assert(false);
                    }
                    String::new()
                }
            }
        }
    }
}

proof fn lemma_first_with_seq_none_helper(g: Seq<(u8, Seq<u16>)>, s: int)
    requires
        forall|k: int| 0 <= k < g.len() ==> ((#[trigger] g[k]).0 & ATTR_ALL) != s,
    ensures
        first_with_seq(g, s) is None,
    decreases g.len(),
{
    if g.len() == 0 {
    } else {
        assert forall|k: int| 0 <= k < g.skip(1).len() implies ((#[trigger] g.skip(1)[k]).0
            & ATTR_ALL) != s by {
            assert(g.skip(1)[k] == g[k + 1]);
        }
        lemma_first_with_seq_none_helper(g.skip(1), s);
    }
}




} // verus!
