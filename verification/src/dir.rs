//! FAT32 directory entries.
//!
//! A directory is a packed array of 32-byte records. Each record is decoded
//! and encoded here field by field at its documented byte offset, so no
//! in-memory struct layout is ever overlaid on disk data. The 8.3 name
//! rules — space padding, case-insensitive matching, splitting a name at
//! its dots — live here too.

use crate::codec::{le16, le32, word_hi, word_lo, u32_byte};
use vstd::assert_seqs_equal;
use vstd::prelude::*;

verus! {

/// Attribute byte marking a long-filename fragment.
pub const ATTR_LONG_NAME: u8 = 0x0f;

/// Attribute byte of a regular archive file.
pub const ATTR_ARCHIVE: u8 = 0x20;

/// First name byte of a deleted (reusable) record.
pub const NAME_FREE: u8 = 0xe5;

/// First name byte marking the end of a directory.
pub const NAME_END: u8 = 0x00;

// --- Spec view of a raw 32-byte record ------------------------------------

/// Name field (bytes 0..8) of a 32-byte record.
pub open spec fn rec_name(r: Seq<u8>) -> Seq<u8> {
    r.subrange(0, 8)
}

/// Extension field (bytes 8..11) of a 32-byte record.
pub open spec fn rec_ext(r: Seq<u8>) -> Seq<u8> {
    r.subrange(8, 11)
}

/// Attribute byte (byte 11) of a 32-byte record.
pub open spec fn rec_attributes(r: Seq<u8>) -> u8 {
    r[11]
}

/// Starting cluster stored split across bytes 20..22 (high half) and
/// 26..28 (low half), little-endian within each half.
pub open spec fn rec_cluster(r: Seq<u8>) -> u32 {
    (le16(r[26], r[27]) + 0x10000 * le16(r[20], r[21])) as u32
}

/// File size in bytes (bytes 28..32, little-endian).
pub open spec fn rec_size(r: Seq<u8>) -> u32 {
    le32(r[28], r[29], r[30], r[31])
}

/// Whether the record marks the end of the directory.
pub open spec fn rec_is_end(r: Seq<u8>) -> bool {
    r[0] == NAME_END
}

/// Whether the record is a deleted, reusable slot.
pub open spec fn rec_is_free(r: Seq<u8>) -> bool {
    r[0] == NAME_FREE
}

/// Whether the record is a long-filename fragment.
pub open spec fn rec_is_long_name(r: Seq<u8>) -> bool {
    r[11] == ATTR_LONG_NAME
}

/// A record the directory scan reports: not deleted, not a long-name
/// fragment, and not the end sentinel.
pub open spec fn rec_is_used(r: Seq<u8>) -> bool {
    !rec_is_end(r) && !rec_is_free(r) && !rec_is_long_name(r)
}

// --- Names -----------------------------------------------------------------

/// ASCII uppercase of one byte.
pub open spec fn spec_upper(b: u8) -> u8 {
    if 0x61 <= b <= 0x7a {
        (b - 0x20) as u8
    } else {
        b
    }
}

/// ASCII uppercase of a byte sequence.
pub open spec fn seq_upper(s: Seq<u8>) -> Seq<u8> {
    s.map_values(|b: u8| spec_upper(b))
}

/// `b` with every 0x20 (space) byte removed; 8.3 fields pad with spaces.
pub open spec fn strip_pad(b: Seq<u8>) -> Seq<u8>
    decreases b.len(),
{
    if b.len() == 0 {
        Seq::empty()
    } else if b.last() == 0x20 {
        strip_pad(b.drop_last())
    } else {
        strip_pad(b.drop_last()).push(b.last())
    }
}

/// The displayed "NAME.EXT" bytes of an entry: the name with its padding
/// removed, then — if the extension is not all padding — a dot and the
/// stripped extension.
pub open spec fn spec_filename(name: Seq<u8>, ext: Seq<u8>) -> Seq<u8> {
    if strip_pad(ext).len() == 0 {
        strip_pad(name)
    } else {
        strip_pad(name).push(0x2e).add(strip_pad(ext))
    }
}

/// The characters a byte sequence displays as (one char per byte).
pub open spec fn bytes_as_chars(b: Seq<u8>) -> Seq<char> {
    b.map_values(|x: u8| x as char)
}

/// Index of the first dot at or after `from`, or `s.len()` if none.
pub open spec fn spec_find_dot(s: Seq<u8>, from: int) -> int
    decreases s.len() - from,
{
    if from < 0 || from >= s.len() {
        s.len() as int
    } else if s[from] == 0x2e {
        from
    } else {
        spec_find_dot(s, from + 1)
    }
}

/// Whether a queried name fits 8.3 form the way the driver checks it: at
/// most eight bytes before the first dot, and at most three between the
/// first and second dots (anything after a second dot is ignored).
pub open spec fn spec_valid_83(q: Seq<u8>) -> bool {
    let d = spec_find_dot(q, 0);
    d <= 8 && (d == q.len() || spec_find_dot(q, d + 1) - (d + 1) <= 3)
}

/// `s` padded with spaces to length `n` (fields are never longer than `n`).
pub open spec fn pad_to(s: Seq<u8>, n: nat) -> Seq<u8> {
    Seq::new(n, |i: int| if i < s.len() { s[i] } else { 0x20u8 })
}

/// The stored name field for a queried name: its uppercased first segment,
/// space-padded to eight bytes.
pub open spec fn spec_name83(q: Seq<u8>) -> Seq<u8> {
    pad_to(seq_upper(q.take(spec_find_dot(q, 0))), 8)
}

/// The stored extension field for a queried name: the uppercased segment
/// between the first and second dots, space-padded to three bytes.
pub open spec fn spec_ext83(q: Seq<u8>) -> Seq<u8> {
    let d = spec_find_dot(q, 0);
    if d == q.len() {
        pad_to(Seq::empty(), 3)
    } else {
        pad_to(seq_upper(q.subrange(d + 1, spec_find_dot(q, d + 1))), 3)
    }
}

/// A queried name in plain 8.3 shape: it fits the 8.3 limits, holds no
/// space, has at most one dot, and does not end in its dot.
pub open spec fn spec_canonical_83(q: Seq<u8>) -> bool {
    &&& spec_valid_83(q)
    &&& forall|i: int| 0 <= i < q.len() ==> q[i] != 0x20
    &&& (spec_find_dot(q, 0) == q.len() || (spec_find_dot(q, 0) + 1 < q.len() && spec_find_dot(
        q,
        spec_find_dot(q, 0) + 1,
    ) == q.len()))
}

/// Uppercasing is idempotent, so names equal up to ASCII case stay so
/// after either is uppercased.
pub proof fn lemma_upper_idempotent(q: Seq<u8>)
    ensures
        seq_upper(seq_upper(q)) == seq_upper(q),
{
    assert_seqs_equal!(seq_upper(seq_upper(q)) == seq_upper(q));
}

/// Stripping the padding of an unpadded, space-free field gives it back.
proof fn lemma_strip_pad_id(s: Seq<u8>)
    requires
        forall|i: int| 0 <= i < s.len() ==> s[i] != 0x20,
    ensures
        strip_pad(s) == s,
    decreases s.len(),
{
    if s.len() > 0 {
        lemma_strip_pad_id(s.drop_last());
        assert(s.drop_last().push(s.last()) =~= s);
    } else {
        assert(s =~= Seq::<u8>::empty());
    }
}

/// Padding a space-free field and stripping it again gives it back.
proof fn lemma_strip_pad_clean(s: Seq<u8>, n: nat)
    requires
        s.len() <= n,
        forall|i: int| 0 <= i < s.len() ==> s[i] != 0x20,
    ensures
        strip_pad(pad_to(s, n)) == s,
    decreases n,
{
    if n == s.len() {
        assert(pad_to(s, n) =~= s);
        lemma_strip_pad_id(s);
    } else {
        assert(pad_to(s, n).last() == 0x20);
        assert(pad_to(s, n).drop_last() =~= pad_to(s, (n - 1) as nat));
        lemma_strip_pad_clean(s, (n - 1) as nat);
    }
}

/// Round trip of a stored name: a name in plain 8.3 shape, split into its
/// stored name and extension fields, displays back as exactly its
/// uppercase form — so looking it up case-insensitively finds the record
/// that storing it wrote.
pub proof fn lemma_stored_name_displays(q: Seq<u8>)
    requires
        spec_canonical_83(q),
    ensures
        spec_filename(spec_name83(q), spec_ext83(q)) == seq_upper(q),
        seq_upper(spec_filename(spec_name83(q), spec_ext83(q))) == seq_upper(q),
{
    let d = spec_find_dot(q, 0);
    lemma_find_dot_bounds(q, 0);
    let base = seq_upper(q.take(d));
    assert forall|i: int| 0 <= i < base.len() implies base[i] != 0x20 by {
        assert(base[i] == spec_upper(q.take(d)[i]));
    }
    lemma_strip_pad_clean(base, 8);
    if d == q.len() {
        lemma_strip_pad_clean(Seq::empty(), 3);
        assert(q.take(d) =~= q);
        assert(spec_filename(spec_name83(q), spec_ext83(q)) == seq_upper(q));
    } else {
        let d2 = spec_find_dot(q, d + 1);
        lemma_find_dot_bounds(q, d + 1);
        let seg = seq_upper(q.subrange(d + 1, d2));
        assert forall|i: int| 0 <= i < seg.len() implies seg[i] != 0x20 by {
            assert(seg[i] == spec_upper(q.subrange(d + 1, d2)[i]));
        }
        lemma_strip_pad_clean(seg, 3);
        assert(seg.len() > 0);
        assert_seqs_equal!(spec_filename(spec_name83(q), spec_ext83(q)) == seq_upper(q), i => {
            if i < d {
                assert(base[i] == spec_upper(q[i]));
            } else if i == d {
                assert(q[d] == 0x2e);
            } else {
                assert(seg[i - d - 1] == spec_upper(q[i]));
            }
        });
    }
    lemma_upper_idempotent(q);
}

// --- Executable helpers -----------------------------------------------------

/// Relies on `String::push` of the standard library: it appends the given
/// character to the end of the string.
pub assume_specification[ String::push ](s: &mut String, ch: char)
    ensures
        final (s)@ == old(s)@.push(ch),
;

/// ASCII uppercase of one byte.
pub fn upper_byte(b: u8) -> (r: u8)
    ensures
        r == spec_upper(b),
{
    if 0x61 <= b && b <= 0x7a {
        b - 0x20
    } else {
        b
    }
}

/// Whether two names denote the same file: equal length and equal bytes up
/// to ASCII case.
pub fn names_match(a: &Vec<u8>, b: &[u8]) -> (r: bool)
    ensures
        r == (seq_upper(a@) == seq_upper(b@)),
{
    if a.len() != b.len() {
        proof {
            assert(seq_upper(a@).len() != seq_upper(b@).len());
        }
        return false;
    }
    let mut i: usize = 0;
    while i < a.len()
        invariant
            i <= a@.len(),
            a@.len() == b@.len(),
            forall|j: int| 0 <= j < i ==> spec_upper(a@[j]) == spec_upper(b@[j]),
        decreases a@.len() - i,
    {
        if upper_byte(a[i]) != upper_byte(b[i]) {
            proof {
                assert(seq_upper(a@)[i as int] != seq_upper(b@)[i as int]);
            }
            return false;
        }
        i = i + 1;
    }
    proof {
        assert_seqs_equal!(seq_upper(a@) == seq_upper(b@));
    }
    true
}

/// One decoded 32-byte directory record: an 8-byte space-padded name, a
/// 3-byte space-padded extension, the attribute byte, the creation,
/// access and modification stamps, the starting cluster split in two
/// 16-bit halves, and the byte size.
#[derive(Debug, Clone, Copy)]
pub struct DirectoryEntry {
    pub name: [u8; 8],
    pub ext: [u8; 3],
    pub attributes: u8,
    pub reserved: u8,
    pub ctime_tenth: u8,
    pub ctime: u16,
    pub cdate: u16,
    pub adate: u16,
    pub cluster_high: u16,
    pub time: u16,
    pub date: u16,
    pub cluster_low: u16,
    pub size: u32,
}

/// The 32 bytes a directory entry occupies on disk.
pub open spec fn spec_encode(e: DirectoryEntry) -> Seq<u8> {
    e.name@.add(e.ext@).push(e.attributes).push(e.reserved).push(e.ctime_tenth).push(
        word_lo(e.ctime),
    ).push(word_hi(e.ctime)).push(word_lo(e.cdate)).push(word_hi(e.cdate)).push(
        word_lo(e.adate),
    ).push(word_hi(e.adate)).push(word_lo(e.cluster_high)).push(word_hi(e.cluster_high)).push(
        word_lo(e.time),
    ).push(word_hi(e.time)).push(word_lo(e.date)).push(word_hi(e.date)).push(
        word_lo(e.cluster_low),
    ).push(word_hi(e.cluster_low)).push(u32_byte(e.size, 0)).push(u32_byte(e.size, 1)).push(
        u32_byte(e.size, 2),
    ).push(u32_byte(e.size, 3))
}

/// Whether a decoded entry carries the same fields as a raw record.
pub open spec fn matches_record(e: DirectoryEntry, r: Seq<u8>) -> bool {
    &&& e.name@ == rec_name(r)
    &&& e.ext@ == rec_ext(r)
    &&& e.attributes == rec_attributes(r)
    &&& e.cluster_high == le16(r[20], r[21])
    &&& e.cluster_low == le16(r[26], r[27])
    &&& e.size == rec_size(r)
}

impl DirectoryEntry {
    /// Decodes the 32-byte record at `off` in `data`. Field offsets follow
    /// the on-disk layout; the three time stamps travel along but carry no
    /// meaning for this driver.
    pub fn parse(data: &Vec<u8>, off: usize) -> (e: DirectoryEntry)
        requires
            off + 32 <= data@.len(),
        ensures
            matches_record(e, data@.subrange(off as int, off + 32)),
            e.reserved == data@[off + 12],
            e.ctime_tenth == data@[off + 13],
            e.ctime == le16(data@[off + 14], data@[off + 15]),
            e.cdate == le16(data@[off + 16], data@[off + 17]),
            e.adate == le16(data@[off + 18], data@[off + 19]),
            e.time == le16(data@[off + 22], data@[off + 23]),
            e.date == le16(data@[off + 24], data@[off + 25]),
    {
        let ghost r = data@.subrange(off as int, off + 32);
        let n: usize = data.len();
        let mut name: [u8; 8] = [0x20; 8];
        let mut i: usize = 0;
        while i < 8
            invariant
                i <= 8,
                off + 32 <= data@.len(),
                n == data@.len(),
                forall|j: int| 0 <= j < i ==> name@[j] == data@[off + j],
            decreases 8 - i,
        {
            name[i] = data[off + i];
            i = i + 1;
        }
        let mut ext: [u8; 3] = [0x20; 3];
        let mut i: usize = 0;
        while i < 3
            invariant
                i <= 3,
                off + 32 <= data@.len(),
                n == data@.len(),
                forall|j: int| 0 <= j < i ==> ext@[j] == data@[off + 8 + j],
            decreases 3 - i,
        {
            ext[i] = data[off + 8 + i];
            i = i + 1;
        }
        let e = DirectoryEntry {
            name,
            ext,
            attributes: data[off + 11],
            reserved: data[off + 12],
            ctime_tenth: data[off + 13],
            ctime: read_le16(data, off + 14),
            cdate: read_le16(data, off + 16),
            adate: read_le16(data, off + 18),
            cluster_high: read_le16(data, off + 20),
            time: read_le16(data, off + 22),
            date: read_le16(data, off + 24),
            cluster_low: read_le16(data, off + 26),
            size: read_le32(data, off + 28),
        };
        proof {
            assert_seqs_equal!(e.name@ == rec_name(r));
            assert_seqs_equal!(e.ext@ == rec_ext(r));
        }
        e
    }

    /// Encodes the entry back into its 32 on-disk bytes.
    pub fn encode(&self) -> (r: Vec<u8>)
        ensures
            r@ == spec_encode(*self),
            r@.len() == 32,
    {
        let mut r: Vec<u8> = Vec::new();
        let mut i: usize = 0;
        while i < 8
            invariant
                i <= 8,
                r@ == self.name@.take(i as int),
            decreases 8 - i,
        {
            r.push(self.name[i]);
            proof {
                assert_seqs_equal!(r@ == self.name@.take(i + 1));
            }
            i = i + 1;
        }
        proof {
            assert(self.name@.take(8) == self.name@);
        }
        let mut i: usize = 0;
        while i < 3
            invariant
                i <= 3,
                r@ == self.name@.add(self.ext@.take(i as int)),
            decreases 3 - i,
        {
            r.push(self.ext[i]);
            proof {
                assert_seqs_equal!(r@ == self.name@.add(self.ext@.take(i + 1)));
            }
            i = i + 1;
        }
        proof {
            assert(self.ext@.take(3) == self.ext@);
        }
        r.push(self.attributes);
        r.push(self.reserved);
        r.push(self.ctime_tenth);
        push_le16(&mut r, self.ctime);
        push_le16(&mut r, self.cdate);
        push_le16(&mut r, self.adate);
        push_le16(&mut r, self.cluster_high);
        push_le16(&mut r, self.time);
        push_le16(&mut r, self.date);
        push_le16(&mut r, self.cluster_low);
        push_le32(&mut r, self.size);
        r
    }

    /// Whether this is a deleted, reusable slot.
    pub fn is_free(&self) -> (r: bool)
        ensures
            r == (self.name@[0] == NAME_FREE),
    {
        self.name[0] == NAME_FREE
    }

    /// Whether this is the end-of-directory sentinel.
    pub fn is_end(&self) -> (r: bool)
        ensures
            r == (self.name@[0] == NAME_END),
    {
        self.name[0] == NAME_END
    }

    /// Whether this is a long-filename fragment (skipped when listing).
    pub fn is_long_name(&self) -> (r: bool)
        ensures
            r == (self.attributes == ATTR_LONG_NAME),
    {
        self.attributes == ATTR_LONG_NAME
    }

    /// The starting cluster, rejoined from its two stored halves.
    pub fn get_cluster(&self) -> (c: u32)
        ensures
            c == (self.cluster_low as int) + 0x10000 * (self.cluster_high as int),
    {
        proof {
            let hi = self.cluster_high;
            let lo = self.cluster_low;
            assert((((hi as u32) << 16) | (lo as u32)) == (lo as int + 0x10000 * (
            hi as int)) as u32) by (bit_vector);
        }
        ((self.cluster_high as u32) << 16) | (self.cluster_low as u32)
    }

    /// The entry's display name as bytes: name and extension without their
    /// space padding, joined by a dot when an extension is present.
    pub fn filename_bytes(&self) -> (r: Vec<u8>)
        ensures
            r@ == spec_filename(self.name@, self.ext@),
    {
        let mut stem: Vec<u8> = Vec::new();
        let mut i: usize = 0;
        while i < 8
            invariant
                i <= 8,
                stem@ == strip_pad(self.name@.take(i as int)),
            decreases 8 - i,
        {
            proof {
                assert(self.name@.take(i + 1).drop_last() == self.name@.take(i as int));
            }
            if self.name[i] != 0x20 {
                stem.push(self.name[i]);
            }
            i = i + 1;
        }
        proof {
            assert(self.name@.take(8) == self.name@);
        }
        let mut tail: Vec<u8> = Vec::new();
        let mut i: usize = 0;
        while i < 3
            invariant
                i <= 3,
                tail@ == strip_pad(self.ext@.take(i as int)),
            decreases 3 - i,
        {
            proof {
                assert(self.ext@.take(i + 1).drop_last() == self.ext@.take(i as int));
            }
            if self.ext[i] != 0x20 {
                tail.push(self.ext[i]);
            }
            i = i + 1;
        }
        proof {
            assert(self.ext@.take(3) == self.ext@);
        }
        if tail.len() == 0 {
            stem
        } else {
            stem.push(0x2e);
            let mut j: usize = 0;
            while j < tail.len()
                invariant
                    j <= tail@.len(),
                    tail@ == strip_pad(self.ext@),
                    stem@ == strip_pad(self.name@).push(0x2e).add(tail@.take(j as int)),
                decreases tail@.len() - j,
            {
                stem.push(tail[j]);
                proof {
                    assert_seqs_equal!(
                        stem@ == strip_pad(self.name@).push(0x2e).add(tail@.take(j + 1))
                    );
                }
                j = j + 1;
            }
            proof {
                assert(tail@.take(tail@.len() as int) == tail@);
            }
            stem
        }
    }

    /// The entry's display name, one character per stored byte.
    pub fn get_filename(&self) -> (r: String)
        ensures
            r@ == bytes_as_chars(spec_filename(self.name@, self.ext@)),
    {
        let fb = self.filename_bytes();
        let mut r = String::new();
        let mut i: usize = 0;
        while i < fb.len()
            invariant
                i <= fb@.len(),
                fb@ == spec_filename(self.name@, self.ext@),
                r@ == bytes_as_chars(fb@.take(i as int)),
            decreases fb@.len() - i,
        {
            r.push(fb[i] as char);
            proof {
                assert_seqs_equal!(r@ == bytes_as_chars(fb@.take(i + 1)));
            }
            i = i + 1;
        }
        proof {
            assert(fb@.take(fb@.len() as int) == fb@);
        }
        r
    }
}

/// The first dot lies between `from` and the sequence end, nothing before
/// it is a dot, and the found position holds a dot.
pub proof fn lemma_find_dot_bounds(s: Seq<u8>, from: int)
    requires
        0 <= from <= s.len(),
    ensures
        from <= spec_find_dot(s, from) <= s.len(),
        spec_find_dot(s, from) < s.len() ==> s[spec_find_dot(s, from)] == 0x2e,
        forall|j: int| from <= j < spec_find_dot(s, from) ==> s[j] != 0x2e,
    decreases s.len() - from,
{
    if from < s.len() && s[from] != 0x2e {
        lemma_find_dot_bounds(s, from + 1);
    }
}

/// Index of the first dot at or after `from`, or the length if none.
pub fn find_dot(q: &[u8], from: usize) -> (r: usize)
    requires
        from <= q@.len(),
    ensures
        r == spec_find_dot(q@, from as int),
{
    let n: usize = q.len();
    let mut i: usize = from;
    while i < n
        invariant
            from <= i <= n,
            n == q@.len(),
            spec_find_dot(q@, from as int) == spec_find_dot(q@, i as int),
        decreases n - i,
    {
        if q[i] == 0x2e {
            return i;
        }
        i = i + 1;
    }
    n
}

/// Splits a queried name into its stored 8-byte name and 3-byte extension
/// fields, uppercased and space-padded. Returns nothing exactly when the
/// name does not fit 8.3 form.
pub fn format_83(q: &[u8]) -> (r: Option<([u8; 8], [u8; 3])>)
    ensures
        r is Some <==> spec_valid_83(q@),
        match r {
            Some(p) => p.0@ == spec_name83(q@) && p.1@ == spec_ext83(q@),
            None => true,
        },
{
    let n: usize = q.len();
    let d = find_dot(q, 0);
    proof {
        lemma_find_dot_bounds(q@, 0);
    }
    if d > 8 {
        return None;
    }
    let mut name: [u8; 8] = [0x20; 8];
    let mut i: usize = 0;
    while i < d
        invariant
            i <= d,
            d <= 8,
            d <= q@.len(),
            forall|j: int| 0 <= j < i ==> name@[j] == spec_upper(q@[j]),
            forall|j: int| i <= j < 8 ==> name@[j] == 0x20,
        decreases d - i,
    {
        name[i] = upper_byte(q[i]);
        i = i + 1;
    }
    proof {
        assert_seqs_equal!(name@ == spec_name83(q@));
    }
    let mut ext: [u8; 3] = [0x20; 3];
    if d < n {
        let e_end = find_dot(q, d + 1);
        proof {
            lemma_find_dot_bounds(q@, d + 1);
        }
        if e_end - (d + 1) > 3 {
            return None;
        }
        let e_len: usize = e_end - (d + 1);
        let mut i: usize = 0;
        while i < e_len
            invariant
                i <= e_len,
                e_len <= 3,
                d < n,
                n == q@.len(),
                d + 1 + e_len <= q@.len(),
                forall|j: int| 0 <= j < i ==> ext@[j] == spec_upper(q@[d + 1 + j]),
                forall|j: int| i <= j < 3 ==> ext@[j] == 0x20,
            decreases e_len - i,
        {
            ext[i] = upper_byte(q[d + 1 + i]);
            i = i + 1;
        }
        proof {
            assert_seqs_equal!(ext@ == spec_ext83(q@));
        }
    } else {
        proof {
            assert_seqs_equal!(ext@ == spec_ext83(q@));
        }
    }
    Some((name, ext))
}

/// Reads the little-endian 16-bit field at `off`.
pub fn read_le16(data: &Vec<u8>, off: usize) -> (x: u16)
    requires
        off + 2 <= data@.len(),
    ensures
        x == le16(data@[off as int], data@[off + 1]),
{
    let _len: usize = data.len();
    let b0 = data[off];
    let b1 = data[off + 1];
    proof {
        assert(((b0 as u16) | ((b1 as u16) << 8)) == (b0 as int + 256 * (b1 as int)) as u16)
            by (bit_vector);
        assert((b0 as int + 256 * (b1 as int)) as u16 == le16(b0, b1));
    }
    (b0 as u16) | ((b1 as u16) << 8)
}

/// Reads the little-endian 32-bit field at `off`.
pub fn read_le32(data: &Vec<u8>, off: usize) -> (x: u32)
    requires
        off + 4 <= data@.len(),
    ensures
        x == le32(data@[off as int], data@[off + 1], data@[off + 2], data@[off + 3]),
{
    let _len: usize = data.len();
    let b0 = data[off];
    let b1 = data[off + 1];
    let b2 = data[off + 2];
    let b3 = data[off + 3];
    proof {
        assert(((b0 as u32) | ((b1 as u32) << 8) | ((b2 as u32) << 16) | ((b3 as u32) << 24)) == (
        b0 as int + 256 * (b1 as int) + 65536 * (b2 as int) + 16777216 * (b3 as int)) as u32)
            by (bit_vector);
    }
    (b0 as u32) | ((b1 as u32) << 8) | ((b2 as u32) << 16) | ((b3 as u32) << 24)
}

/// Appends the two little-endian bytes of `x`.
pub fn push_le16(r: &mut Vec<u8>, x: u16)
    ensures
        final (r)@ == old(r)@.push(word_lo(x)).push(word_hi(x)),
{
    r.push((x & 0xff) as u8);
    r.push((x >> 8) as u8);
}

/// Appends the four little-endian bytes of `x`.
pub fn push_le32(r: &mut Vec<u8>, x: u32)
    ensures
        final (r)@ == old(r)@.push(u32_byte(x, 0)).push(u32_byte(x, 1)).push(u32_byte(x, 2)).push(
            u32_byte(x, 3),
        ),
{
    proof {
        assert(((x >> 0) & 0xff) == (x & 0xff)) by (bit_vector);
    }
    r.push((x & 0xff) as u8);
    r.push(((x >> 8) & 0xff) as u8);
    r.push(((x >> 16) & 0xff) as u8);
    r.push(((x >> 24) & 0xff) as u8);
}

} // verus!
