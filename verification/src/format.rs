//! The archive wire format: a fixed 512-byte header block per entry
//! (path, kind, size, mode, modification time, checksum), followed by
//! the entry's raw bytes padded to the block size, and two zero blocks
//! at the end of the archive. Directories carry zero content bytes and
//! a trailing `/` in their recorded name.
//!
//! Every field is specified down to the byte, so the serialized stream
//! is pinned exactly by the contracts.

use vstd::prelude::*;
use vstd::pervasive::VecAdditionalExecFns;
use crate::walk::{ArchiveEntry, EntryModel};

verus! {

/// Largest value (exclusive) that fits an 11-digit octal field:
/// `8^11`, the format's bound on file sizes and timestamps.
pub const FIELD_LIMIT: u64 = 8589934592;

/// `8^w`.
pub open spec fn pow8(w: nat) -> nat
    decreases w,
{
    if w == 0 {
        1
    } else {
        8 * pow8((w - 1) as nat)
    }
}

/// `n` written as `w` octal digits, most significant first (the low
/// `3w` bits of `n`).
pub open spec fn spec_octal(n: nat, w: nat) -> Seq<u8>
    decreases w,
{
    if w == 0 {
        Seq::empty()
    } else {
        spec_octal(n / 8, (w - 1) as nat).push((48 + n % 8) as u8)
    }
}

/// The number encoded by a big-endian octal digit string.
pub open spec fn spec_octal_val(s: Seq<u8>) -> int
    decreases s.len(),
{
    if s.len() == 0 {
        0
    } else {
        spec_octal_val(s.drop_last()) * 8 + (s.last() - 48)
    }
}

/// An octal field is `w` digits long.
pub proof fn lemma_octal_len(n: nat, w: nat)
    ensures
        spec_octal(n, w).len() == w,
    decreases w,
{
    if w > 0 {
        lemma_octal_len(n / 8, (w - 1) as nat);
    }
}

/// Writing a number in octal and reading it back is the identity, as
/// long as the number fits the field.
pub proof fn lemma_octal_roundtrip(n: nat, w: nat)
    requires
        n < pow8(w),
    ensures
        spec_octal_val(spec_octal(n, w)) == n,
    decreases w,
{
    if w > 0 {
        assert(n / 8 < pow8((w - 1) as nat)) by (nonlinear_arith)
            requires
                n < pow8(w),
                pow8(w) == 8 * pow8((w - 1) as nat),
        ;
        lemma_octal_roundtrip(n / 8, (w - 1) as nat);
        lemma_octal_len(n / 8, (w - 1) as nat);
        let s = spec_octal(n, w);
        assert(s.drop_last() =~= spec_octal(n / 8, (w - 1) as nat));
        assert(spec_octal_val(s) == (n / 8) * 8 + n % 8);
        assert((n / 8) * 8 + n % 8 == n) by (nonlinear_arith);
    }
}

/// `n` zero bytes.
pub open spec fn zeros(n: nat) -> Seq<u8> {
    Seq::new(n, |i: int| 0u8)
}

/// The sum of a byte string, as an unbounded integer.
pub open spec fn spec_sum(s: Seq<u8>) -> int
    decreases s.len(),
{
    if s.len() == 0 {
        0
    } else {
        spec_sum(s.drop_last()) + s.last()
    }
}

/// The recorded name: path components joined with `/`.
pub open spec fn spec_join(path: Seq<Seq<u8>>) -> Seq<u8>
    decreases path.len(),
{
    if path.len() == 0 {
        Seq::empty()
    } else if path.len() == 1 {
        path[0]
    } else {
        spec_join(path.drop_last()) + seq![47u8] + path.last()
    }
}

/// The name field's content: the joined path, directories with a
/// trailing `/`.
pub open spec fn spec_name_bytes(path: Seq<Seq<u8>>, is_dir: bool) -> Seq<u8> {
    if is_dir {
        spec_join(path) + seq![47u8]
    } else {
        spec_join(path)
    }
}

/// Mode recorded for an entry: `0o755` for directories, `0o644` for
/// regular files.
pub open spec fn spec_mode(is_dir: bool) -> u64 {
    if is_dir {
        493u64
    } else {
        420u64
    }
}

/// Type flag: `'5'` for directories, `'0'` for regular files.
pub open spec fn spec_typeflag(is_dir: bool) -> u8 {
    if is_dir {
        53u8
    } else {
        48u8
    }
}

/// The magic and version fields: `ustar\0` then `00`.
pub open spec fn spec_magic() -> Seq<u8> {
    seq![117u8, 115u8, 116u8, 97u8, 114u8, 0u8, 48u8, 48u8]
}

/// Zero-based padding of the content to a whole number of blocks.
pub open spec fn spec_pad_len(n: nat) -> nat {
    if n % 512 == 0 {
        0
    } else {
        (512 - n % 512) as nat
    }
}

/// An entry the format can carry: its name fits the name field, and
/// its size and timestamp fit their 11-digit octal fields.
pub open spec fn spec_entry_ok(e: EntryModel) -> bool {
    &&& spec_name_bytes(e.path, e.is_dir).len() <= 100
    &&& e.data.len() < FIELD_LIMIT
    &&& e.mtime < FIELD_LIMIT
}

/// The header with the checksum field still blank (eight spaces), as
/// one flat byte string. Offsets: name 0, mode 100, uid 108, gid 116,
/// size 124, mtime 136, checksum 148, type flag 156, link name 157,
/// magic and version 257, owner names 265, device numbers 329,
/// prefix 345, padding to 512.
pub open spec fn spec_header_pre(e: EntryModel) -> Seq<u8> {
    spec_name_bytes(e.path, e.is_dir) + zeros(
        (100 - spec_name_bytes(e.path, e.is_dir).len()) as nat,
    ) + spec_octal(spec_mode(e.is_dir) as nat, 7) + seq![0u8] + spec_octal(0, 7) + seq![0u8]
        + spec_octal(0, 7) + seq![0u8] + spec_octal(e.data.len(), 11) + seq![0u8] + spec_octal(
        e.mtime as nat,
        11,
    ) + seq![0u8] + Seq::new(8, |i: int| 32u8) + seq![spec_typeflag(e.is_dir)] + zeros(100)
        + spec_magic() + zeros(64) + zeros(16) + zeros(155) + zeros(12)
}

/// The finished header: the blank-checksum header with the checksum
/// field replaced by the byte sum of that blank form, written as six
/// octal digits, a NUL and a space.
pub open spec fn spec_header(e: EntryModel) -> Seq<u8> {
    let pre = spec_header_pre(e);
    let ck = spec_sum(pre) as nat;
    pre.take(148) + spec_octal(ck, 6) + seq![0u8, 32u8] + pre.skip(156)
}

/// The full serialized record of one entry: header, contents, padding.
pub open spec fn spec_entry_bytes(e: EntryModel) -> Seq<u8> {
    spec_header(e) + e.data + zeros(spec_pad_len(e.data.len()))
}

/// Appends `n` zero bytes.
fn push_zeros(out: &mut Vec<u8>, n: usize)
    ensures
        final(out)@ == old(out)@ + zeros(n as nat),
{
    let mut j: usize = 0;
    while j < n
        invariant
            j <= n,
            out@ == old(out)@ + zeros(j as nat),
        decreases n - j,
    {
        out.push(0u8);
        assert(out@ =~= old(out)@ + zeros((j + 1) as nat));
        j += 1;
    }
    assert(out@ =~= old(out)@ + zeros(n as nat));
}

/// Appends one byte.
fn push_byte(out: &mut Vec<u8>, b: u8)
    ensures
        final(out)@ == old(out)@ + seq![b],
{
    out.push(b);
    assert(out@ =~= old(out)@ + seq![b]);
}

/// The `w` octal digits of `n`, most significant first.
fn octal_digits(n: u64, w: usize) -> (r: Vec<u8>)
    ensures
        r@ == spec_octal(n as nat, w as nat),
        r@.len() == w,
    decreases w,
{
    if w == 0 {
        Vec::new()
    } else {
        let mut r = octal_digits(n / 8, w - 1);
        r.push(48 + (n % 8) as u8);
        r
    }
}

/// Appends a `w`-digit octal field followed by a NUL terminator.
fn push_octal(out: &mut Vec<u8>, n: u64, w: usize)
    ensures
        final(out)@ == old(out)@ + spec_octal(n as nat, w as nat) + seq![0u8],
{
    let mut d = octal_digits(n, w);
    out.append(&mut d);
    push_byte(out, 0u8);
}

/// Appends the magic and version fields.
fn push_magic(out: &mut Vec<u8>)
    ensures
        final(out)@ == old(out)@ + spec_magic(),
{
    out.push(117u8);
    out.push(115u8);
    out.push(116u8);
    out.push(97u8);
    out.push(114u8);
    out.push(0u8);
    out.push(48u8);
    out.push(48u8);
    assert(out@ =~= old(out)@ + spec_magic());
}

/// Appends eight spaces: the blank checksum field.
fn push_blank_checksum(out: &mut Vec<u8>)
    ensures
        final(out)@ == old(out)@ + Seq::new(8, |i: int| 32u8),
{
    let mut j: usize = 0;
    while j < 8
        invariant
            j <= 8,
            out@ == old(out)@ + Seq::new(j as nat, |i: int| 32u8),
        decreases 8 - j,
    {
        out.push(32u8);
        assert(out@ =~= old(out)@ + Seq::new((j + 1) as nat, |i: int| 32u8));
        j += 1;
    }
    assert(out@ =~= old(out)@ + Seq::new(8, |i: int| 32u8));
}

/// The recorded name of an entry: components joined with `/`, and a
/// trailing `/` for directories.
pub fn join_name(path: &Vec<Vec<u8>>, is_dir: bool) -> (r: Vec<u8>)
    ensures
        r@ == spec_name_bytes(path.deep_view(), is_dir),
{
    let ghost pv = path.deep_view();
    let mut r: Vec<u8> = Vec::new();
    let mut i: usize = 0;
    while i < path.len()
        invariant
            i <= path.len(),
            pv == path.deep_view(),
            r@ == spec_join(pv.take(i as int)),
        decreases path.len() - i,
    {
        if i > 0 {
            push_byte(&mut r, 47u8);
        }
        let mut c = crate::walk::clone_name(&path[i]);
        assert(c@ == pv[i as int]);
        r.append(&mut c);
        assert(pv.take(i + 1).drop_last() =~= pv.take(i as int));
        assert(pv.take(i + 1).last() == pv[i as int]);
        if i == 0 {
            assert(r@ =~= spec_join(pv.take(1)));
        } else {
            assert(r@ == spec_join(pv.take(i as int)) + seq![47u8] + pv[i as int]);
            assert(r@ == spec_join(pv.take(i + 1)));
        }
        i += 1;
    }
    assert(pv.take(path.len() as int) =~= pv);
    if is_dir {
        push_byte(&mut r, 47u8);
    }
    r
}

/// The byte sum of a header-sized buffer.
fn sum_bytes(v: &Vec<u8>) -> (sum: u32)
    requires
        v@.len() == 512,
    ensures
        sum == spec_sum(v@),
{
    let mut sum: u32 = 0;
    let mut i: usize = 0;
    while i < v.len()
        invariant
            i <= v@.len(),
            v@.len() == 512,
            sum <= 255 * i,
            sum == spec_sum(v@.take(i as int)),
        decreases v@.len() - i,
    {
        assert(v@.take(i + 1).drop_last() =~= v@.take(i as int));
        assert(v@.take(i + 1).last() == v@[i as int]);
        sum = sum + v[i] as u32;
        i += 1;
    }
    assert(v@.take(512) =~= v@);
    sum
}

/// Why an entry cannot be serialized. Such an entry is skipped, and
/// the archive continues with the next one.
#[derive(Clone, Copy, Debug, PartialEq, Eq)]
pub enum SerializeError {
    /// The joined name is longer than the 100-byte name field.
    NameTooLong,
    /// The contents do not fit the 11-digit octal size field.
    SizeTooLarge,
    /// The timestamp does not fit the 11-digit octal time field.
    TimeTooLarge,
}

/// Builds the 512-byte header block for `e`.
///
/// Fails exactly when the format cannot carry the entry: name over
/// 100 bytes, then size, then timestamp over the octal field limit.
pub fn build_header(e: &ArchiveEntry) -> (r: Result<Vec<u8>, SerializeError>)
    ensures
        r is Ok <==> spec_entry_ok(e@),
        r matches Ok(h) ==> h@ == spec_header(e@) && h@.len() == 512,
        spec_name_bytes(e@.path, e@.is_dir).len() > 100 ==> r == Err::<Vec<u8>,
            SerializeError,
        >(SerializeError::NameTooLong),
        spec_name_bytes(e@.path, e@.is_dir).len() <= 100 && e@.data.len() >= FIELD_LIMIT ==> r
            == Err::<Vec<u8>, SerializeError>(SerializeError::SizeTooLarge),
        spec_name_bytes(e@.path, e@.is_dir).len() <= 100 && e@.data.len() < FIELD_LIMIT
            && e@.mtime >= FIELD_LIMIT ==> r == Err::<Vec<u8>, SerializeError>(
            SerializeError::TimeTooLarge,
        ),
{
    let name = join_name(&e.path, e.is_dir);
    if name.len() > 100 {
        return Err(SerializeError::NameTooLong);
    }
    if e.data.len() as u64 >= FIELD_LIMIT {
        return Err(SerializeError::SizeTooLarge);
    }
    if e.mtime >= FIELD_LIMIT {
        return Err(SerializeError::TimeTooLarge);
    }
    let mode: u64 = if e.is_dir {
        493
    } else {
        420
    };
    let pad = 100 - name.len();
    let mut h = name;
    push_zeros(&mut h, pad);
    push_octal(&mut h, mode, 7);
    push_octal(&mut h, 0, 7);
    push_octal(&mut h, 0, 7);
    push_octal(&mut h, e.data.len() as u64, 11);
    push_octal(&mut h, e.mtime, 11);
    push_blank_checksum(&mut h);
    push_byte(
        &mut h,
        if e.is_dir {
            53u8
        } else {
            48u8
        },
    );
    push_zeros(&mut h, 100);
    push_magic(&mut h);
    push_zeros(&mut h, 64);
    push_zeros(&mut h, 16);
    push_zeros(&mut h, 155);
    push_zeros(&mut h, 12);
    assert(h@ == spec_header_pre(e@));
    proof {
        lemma_octal_len(spec_mode(e@.is_dir) as nat, 7);
        lemma_octal_len(0, 7);
        lemma_octal_len(e@.data.len(), 11);
        lemma_octal_len(e@.mtime as nat, 11);
        assert(h@.len() == 512);
    }
    let ghost pre = h@;
    let ck = sum_bytes(&h);
    let d = octal_digits(ck as u64, 6);
    proof {
        lemma_octal_len((ck as u64) as nat, 6);
    }
    let mut j: usize = 0;
    while j < 6
        invariant
            j <= 6,
            h@.len() == 512,
            d@.len() == 6,
            forall|k: int| 148 <= k < 148 + j ==> h@[k] == d@[k - 148],
            forall|k: int| 0 <= k < 512 && !(148 <= k < 148 + j) ==> h@[k] == pre[k],
        decreases 6 - j,
    {
        h.set(148 + j, d[j]);
        j += 1;
    }
    h.set(154, 0u8);
    h.set(155, 32u8);
    proof {
        assert(h@ =~= pre.take(148) + spec_octal(spec_sum(pre) as nat, 6) + seq![0u8, 32u8]
            + pre.skip(156));
    }
    Ok(h)
}

/// Serializes one entry: its header block, its contents, and zero
/// padding up to a whole block.
///
/// Fails exactly when the header does, and the entry is then skipped
/// by the pipeline rather than aborting the archive.
pub fn serialize_entry(e: &ArchiveEntry) -> (r: Result<Vec<u8>, SerializeError>)
    ensures
        r is Ok <==> spec_entry_ok(e@),
        r matches Ok(b) ==> b@ == spec_entry_bytes(e@),
        r matches Err(err) ==> build_header_error(e@) == Some(err),
{
    let h = build_header(e);
    match h {
        Err(err) => Err(err),
        Ok(mut b) => {
            let mut data = crate::walk::clone_data(&e.data);
            let rem = data.len() % 512;
            let pad: usize = if rem == 0 {
                0
            } else {
                512 - rem
            };
            b.append(&mut data);
            push_zeros(&mut b, pad);
            assert(b@ == spec_header(e@) + e@.data + zeros(spec_pad_len(e@.data.len())));
            Ok(b)
        },
    }
}

/// The error `build_header` reports for `e`, if any.
pub open spec fn build_header_error(e: EntryModel) -> Option<SerializeError> {
    if spec_name_bytes(e.path, e.is_dir).len() > 100 {
        Some(SerializeError::NameTooLong)
    } else if e.data.len() >= FIELD_LIMIT {
        Some(SerializeError::SizeTooLarge)
    } else if e.mtime >= FIELD_LIMIT {
        Some(SerializeError::TimeTooLarge)
    } else {
        None
    }
}

/// A header is one block long.
pub proof fn lemma_header_len(e: EntryModel)
    requires
        spec_name_bytes(e.path, e.is_dir).len() <= 100,
    ensures
        spec_header_pre(e).len() == 512,
        spec_header(e).len() == 512,
{
    lemma_octal_len(spec_mode(e.is_dir) as nat, 7);
    lemma_octal_len(0, 7);
    lemma_octal_len(e.data.len(), 11);
    lemma_octal_len(e.mtime as nat, 11);
    lemma_octal_len(spec_sum(spec_header_pre(e)) as nat, 6);
}

/// Extraction recovers the entry from its serialized record: the
/// record is block-aligned; the recorded name is the joined path; the
/// size and time fields decode to the entry's size and timestamp; the
/// type flag gives the kind; and the contents follow the header byte
/// for byte.
pub proof fn lemma_entry_roundtrip(e: EntryModel)
    requires
        spec_entry_ok(e),
    ensures
        ({
            let b = spec_entry_bytes(e);
            let name = spec_name_bytes(e.path, e.is_dir);
            &&& b.len() == 512 + e.data.len() + spec_pad_len(e.data.len())
            &&& b.subrange(0, name.len() as int) == name
            &&& name.len() < 100 ==> b[name.len() as int] == 0
            &&& spec_octal_val(b.subrange(124, 135)) == e.data.len()
            &&& spec_octal_val(b.subrange(136, 147)) == e.mtime
            &&& b[156] == spec_typeflag(e.is_dir)
            &&& b.subrange(512, 512 + e.data.len() as int) == e.data
        }),
{
    let b = spec_entry_bytes(e);
    let name = spec_name_bytes(e.path, e.is_dir);
    let pre = spec_header_pre(e);
    let h = spec_header(e);
    lemma_header_len(e);
    lemma_octal_len(spec_mode(e.is_dir) as nat, 7);
    lemma_octal_len(0, 7);
    lemma_octal_len(e.data.len(), 11);
    lemma_octal_len(e.mtime as nat, 11);
    lemma_octal_len(spec_sum(pre) as nat, 6);
    assert(b.len() == 512 + e.data.len() + spec_pad_len(e.data.len()));
    assert(b.subrange(0, name.len() as int) =~= name);
    if name.len() < 100 {
        assert(pre[name.len() as int] == 0);
        assert(b[name.len() as int] == 0);
    }
    assert(pow8(11) == 8589934592) by {
        reveal_with_fuel(pow8, 12);
    }
    assert(b.subrange(124, 135) =~= spec_octal(e.data.len(), 11));
    lemma_octal_roundtrip(e.data.len(), 11);
    assert(spec_octal_val(b.subrange(124, 135)) == e.data.len());
    assert(b.subrange(136, 147) =~= spec_octal(e.mtime as nat, 11));
    lemma_octal_roundtrip(e.mtime as nat, 11);
    assert(spec_octal_val(b.subrange(136, 147)) == e.mtime);
    assert(b[156] == spec_typeflag(e.is_dir));
    assert(b.subrange(512, 512 + e.data.len() as int) =~= e.data);
}

/// What an extractor recovers from one record.
pub ghost struct ExtractedEntry {
    pub name: Seq<u8>,
    pub is_dir: bool,
    pub data: Seq<u8>,
}

/// The bytes of `s` before its first NUL.
pub open spec fn until_nul(s: Seq<u8>) -> Seq<u8>
    decreases s.len(),
{
    if s.len() == 0 || s[0] == 0 {
        Seq::empty()
    } else {
        seq![s[0]] + until_nul(s.drop_first())
    }
}

/// A NUL-padded field reads back as what was written, as long as the
/// written bytes hold no NUL themselves.
pub proof fn lemma_until_nul_padded(name: Seq<u8>, pad: nat)
    requires
        forall|i: int| 0 <= i < name.len() ==> name[i] != 0,
    ensures
        until_nul(name + zeros(pad)) == name,
    decreases name.len(),
{
    let s = name + zeros(pad);
    if name.len() == 0 {
        if s.len() > 0 {
            assert(s[0] == 0);
        }
        assert(until_nul(s) =~= name);
    } else {
        assert(s[0] == name[0]);
        assert(s.drop_first() =~= name.drop_first() + zeros(pad));
        lemma_until_nul_padded(name.drop_first(), pad);
        assert(until_nul(s) =~= seq![name[0]] + name.drop_first());
        assert(seq![name[0]] + name.drop_first() =~= name);
    }
}

/// What a standard extractor reads out of the byte stream: records
/// until the end marker (a zero block) or the end of the input. A
/// record is one header block — recovered name, kind and size —
/// followed by that many content bytes and padding to a whole block.
pub open spec fn spec_extract(b: Seq<u8>) -> Seq<ExtractedEntry>
    decreases b.len(),
{
    if b.len() < 512 || (forall|i: int| 0 <= i < 512 ==> b[i] == 0) {
        Seq::empty()
    } else {
        let size0 = spec_octal_val(b.subrange(124, 135));
        let size = if size0 < 0 {
            0
        } else {
            size0
        };
        let e = ExtractedEntry {
            name: until_nul(b.take(100)),
            is_dir: b[156] == 53,
            data: b.subrange(512, if 512 + size <= b.len() {
                512 + size
            } else {
                b.len() as int
            }),
        };
        let step = 512 + size + spec_pad_len(size as nat);
        seq![e] + spec_extract(b.skip(if step <= b.len() {
            step
        } else {
            b.len() as int
        }))
    }
}

/// The byte stream of a list of records, each serializable: the
/// records in order, then the end-of-archive marker.
pub open spec fn spec_stream(es: Seq<EntryModel>) -> Seq<u8> {
    spec_stream_of(es) + zeros(1024)
}

/// The concatenated records of `es`.
pub open spec fn spec_stream_of(es: Seq<EntryModel>) -> Seq<u8>
    decreases es.len(),
{
    if es.len() == 0 {
        Seq::empty()
    } else {
        spec_entry_bytes(es[0]) + spec_stream_of(es.drop_first())
    }
}

/// What extraction recovers from one entry's record.
pub open spec fn extracted_of(e: EntryModel) -> ExtractedEntry {
    ExtractedEntry { name: spec_name_bytes(e.path, e.is_dir), is_dir: e.is_dir, data: e.data }
}

/// Round trip over the whole archive: a standard extractor run on the
/// serialized stream recovers exactly the serialized entries — names,
/// kinds and contents, byte for byte, in order. (Names hold no NUL,
/// as filesystem names cannot.)
#[verifier::rlimit(100)]
pub proof fn lemma_stream_roundtrip(es: Seq<EntryModel>)
    requires
        forall|i: int| 0 <= i < es.len() ==> spec_entry_ok(#[trigger] es[i]),
        forall|i: int, k: int|
            #![trigger spec_name_bytes(es[i].path, es[i].is_dir)[k]]
            0 <= i < es.len() && 0 <= k < spec_name_bytes(es[i].path, es[i].is_dir).len()
                ==> spec_name_bytes(es[i].path, es[i].is_dir)[k] != 0,
    ensures
        spec_extract(spec_stream(es)) == es.map_values(|e: EntryModel| extracted_of(e)),
    decreases es.len(),
{
    let b = spec_stream(es);
    if es.len() == 0 {
        assert(b =~= zeros(1024));
        assert(b.len() >= 512);
        assert(forall|i: int| 0 <= i < 512 ==> b[i] == 0);
        assert(es.map_values(|e: EntryModel| extracted_of(e)) =~= Seq::<ExtractedEntry>::empty());
    } else {
        let e = es[0];
        let name = spec_name_bytes(e.path, e.is_dir);
        let rec = spec_entry_bytes(e);
        let rest = spec_stream(es.drop_first());
        lemma_entry_roundtrip(e);
        lemma_header_len(e);
        assert(b =~= rec + rest);
        assert(rec.len() == 512 + e.data.len() + spec_pad_len(e.data.len()));
        assert(b.len() >= 512);
        assert(b[156] == rec[156]);
        assert(b[156] == spec_typeflag(e.is_dir));
        assert(b[156] != 0);
        assert(!(forall|i: int| 0 <= i < 512 ==> b[i] == 0));
        assert(b.subrange(124, 135) =~= rec.subrange(124, 135));
        let size0 = spec_octal_val(b.subrange(124, 135));
        assert(size0 == e.data.len());
        assert(b.take(100) =~= rec.take(100));
        assert(rec.take(100) =~= name + zeros((100 - name.len()) as nat));
        lemma_until_nul_padded(name, (100 - name.len()) as nat);
        assert(until_nul(b.take(100)) == name);
        assert(b[156] == 53 <==> e.is_dir);
        assert(b.subrange(512, 512 + e.data.len() as int) =~= rec.subrange(
            512,
            512 + e.data.len() as int,
        ));
        assert(b.subrange(512, 512 + e.data.len() as int) == e.data);
        let step = 512 + size0 + spec_pad_len(size0 as nat);
        assert(step == rec.len());
        assert(step <= b.len());
        assert(b.skip(step) =~= rest);
        assert forall|i: int| 0 <= i < es.drop_first().len() implies spec_entry_ok(
            #[trigger] es.drop_first()[i],
        ) by {
            assert(es.drop_first()[i] == es[i + 1]);
        }
        assert forall|i: int, k: int|
            #![trigger spec_name_bytes(es.drop_first()[i].path, es.drop_first()[i].is_dir)[k]]
            0 <= i < es.drop_first().len() && 0 <= k < spec_name_bytes(
                es.drop_first()[i].path,
                es.drop_first()[i].is_dir,
            ).len() implies spec_name_bytes(
            es.drop_first()[i].path,
            es.drop_first()[i].is_dir,
        )[k] != 0 by {
            assert(es.drop_first()[i] == es[i + 1]);
            assert(spec_name_bytes(es[i + 1].path, es[i + 1].is_dir)[k] != 0);
        }
        lemma_stream_roundtrip(es.drop_first());
        let first = ExtractedEntry {
            name: until_nul(b.take(100)),
            is_dir: b[156] == 53,
            data: b.subrange(512, 512 + size0),
        };
        assert(first == extracted_of(e));
        assert(spec_extract(b) == seq![first] + spec_extract(rest));
        assert(spec_extract(b) =~= es.map_values(|x: EntryModel| extracted_of(x)));
    }
}

/// The end-of-archive marker: two zero blocks.
pub fn end_blocks() -> (r: Vec<u8>)
    ensures
        r@ == zeros(1024),
{
    let mut r: Vec<u8> = Vec::new();
    push_zeros(&mut r, 1024);
    assert(r@ =~= zeros(1024));
    r
}

} // verus!
