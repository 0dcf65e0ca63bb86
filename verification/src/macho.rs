//! Mach-O image parsing and byte-level load-command mutation.
//!
//! A parsed image is an owned byte buffer; the load-command table is read
//! from the bytes on every operation, so buffer and derived offsets can
//! never drift apart.  Every mutation either succeeds with the stated
//! effect on the buffer or fails without touching it.

use vstd::prelude::*;
use vstd::string::StringSliceAdditionalSpecFns;
use vstd::utf8::{valid_utf8, encode_utf8};

use crate::Error;

verus! {

pub const MH_MAGIC: u32 = 0xfeedface;

pub const MH_MAGIC_64: u32 = 0xfeedfacf;

pub const LC_SEGMENT: u32 = 0x1;

pub const LC_SEGMENT_64: u32 = 0x19;

pub const LC_LOAD_DYLIB: u32 = 0xc;

pub const LC_LAZY_LOAD_DYLIB: u32 = 0x20;

pub const LC_LOAD_WEAK_DYLIB: u32 = 0x80000018;

pub const LC_REEXPORT_DYLIB: u32 = 0x8000001f;

pub const LC_LOAD_UPWARD_DYLIB: u32 = 0x80000023;

pub const LC_CODE_SIGNATURE: u32 = 0x1d;

pub const LC_BUILD_VERSION: u32 = 0x32;

/// The little-endian 32-bit value at `off`.
pub open spec fn le32(s: Seq<u8>, off: int) -> int {
    s[off] + s[off + 1] * 0x100 + s[off + 2] * 0x10000 + s[off + 3] * 0x1000000
}

/// The little-endian 64-bit value at `off`.
pub open spec fn le64(s: Seq<u8>, off: int) -> int {
    le32(s, off) + le32(s, off + 4) * 0x100000000
}

/// The big-endian 32-bit value at `off` (fat headers, code signatures).
pub open spec fn be32(s: Seq<u8>, off: int) -> int {
    s[off] * 0x1000000 + s[off + 1] * 0x10000 + s[off + 2] * 0x100 + s[off + 3]
}

/// Reads a little-endian `u32` with explicit bounds in the contract.
pub fn read_u32(data: &Vec<u8>, off: usize) -> (r: u32)
    requires
        off + 4 <= data@.len(),
    ensures
        r == le32(data@, off as int),
{
    let n = data.len();
    let b0 = data[off] as u32;
    let b1 = data[off + 1] as u32;
    let b2 = data[off + 2] as u32;
    let b3 = data[off + 3] as u32;
    b0 + b1 * 0x100 + b2 * 0x10000 + b3 * 0x1000000
}

/// Reads a big-endian `u32`.
pub fn read_u32_be(data: &Vec<u8>, off: usize) -> (r: u32)
    requires
        off + 4 <= data@.len(),
    ensures
        r == be32(data@, off as int),
{
    let n = data.len();
    let b0 = data[off] as u32;
    let b1 = data[off + 1] as u32;
    let b2 = data[off + 2] as u32;
    let b3 = data[off + 3] as u32;
    b0 * 0x1000000 + b1 * 0x10000 + b2 * 0x100 + b3
}

/// Reads a little-endian `u64`.
pub fn read_u64(data: &Vec<u8>, off: usize) -> (r: u64)
    requires
        off + 8 <= data@.len(),
    ensures
        r == le64(data@, off as int),
{
    let n = data.len();
    let lo = read_u32(data, off) as u64;
    let hi = read_u32(data, off + 4) as u64;
    lo + hi * 0x100000000
}

/// Whether the buffer opens with a 64-bit Mach-O magic.
pub open spec fn is_magic64(s: Seq<u8>) -> bool {
    le32(s, 0) == MH_MAGIC_64
}

/// Whether the buffer opens with a 32-bit Mach-O magic.
pub open spec fn is_magic32(s: Seq<u8>) -> bool {
    le32(s, 0) == MH_MAGIC
}

/// Header size: 32 bytes for 64-bit images, 28 for 32-bit ones.
pub open spec fn header_size(s: Seq<u8>) -> int {
    if is_magic64(s) {
        32
    } else {
        28
    }
}

/// The image's load-command count, from the header.
pub open spec fn spec_ncmds(s: Seq<u8>) -> int {
    le32(s, 16)
}

/// The image's total load-command size, from the header.
pub open spec fn spec_sizeofcmds(s: Seq<u8>) -> int {
    le32(s, 20)
}

/// Where the load-command region ends.
pub open spec fn region_end(s: Seq<u8>) -> int {
    header_size(s) + spec_sizeofcmds(s)
}

/// A command's kind word.
pub open spec fn cmd_of(s: Seq<u8>, off: int) -> int {
    le32(s, off)
}

/// A command's size word.
pub open spec fn cmdsize_of(s: Seq<u8>, off: int) -> int {
    le32(s, off + 4)
}

/// The offset of the `k`-th load command, walking sizes from the header.
pub open spec fn nth_cmd_off(s: Seq<u8>, k: nat) -> int
    decreases k,
{
    if k == 0 {
        header_size(s)
    } else {
        nth_cmd_off(s, (k - 1) as nat) + cmdsize_of(s, nth_cmd_off(s, (k - 1) as nat))
    }
}

/// Bounds that every load command must satisfy.
pub open spec fn cmd_bounds_ok(s: Seq<u8>, k: nat) -> bool {
    let off = nth_cmd_off(s, k);
    &&& off + 8 <= region_end(s)
    &&& 8 <= cmdsize_of(s, off)
    &&& off + cmdsize_of(s, off) <= region_end(s)
}

/// A well-formed single-architecture Mach-O image: recognized magic, the
/// command region inside the buffer, every command inside the region, and
/// the commands exactly filling the region.
pub open spec fn parses(s: Seq<u8>) -> bool {
    &&& 28 <= s.len()
    &&& (is_magic64(s) || is_magic32(s))
    &&& region_end(s) <= s.len()
    &&& (forall|k: nat| k < spec_ncmds(s) ==> cmd_bounds_ok(s, k))
    &&& nth_cmd_off(s, spec_ncmds(s) as nat) == region_end(s)
}

/// Whether the command at `off` is one of the dylib-load kinds.
pub open spec fn is_dylib_cmd(s: Seq<u8>, off: int) -> bool {
    ||| cmd_of(s, off) == LC_LOAD_DYLIB
    ||| cmd_of(s, off) == LC_LOAD_WEAK_DYLIB
    ||| cmd_of(s, off) == LC_REEXPORT_DYLIB
    ||| cmd_of(s, off) == LC_LAZY_LOAD_DYLIB
    ||| cmd_of(s, off) == LC_LOAD_UPWARD_DYLIB
}

/// The first index in `[from, end)` holding a zero byte, or `end` if none.
pub open spec fn nul_index(s: Seq<u8>, from: int, end: int) -> int
    decreases end - from,
{
    if from >= end {
        end
    } else if s[from] == 0 {
        from
    } else {
        nul_index(s, from + 1, end)
    }
}

pub proof fn lemma_nul_index(s: Seq<u8>, from: int, end: int)
    requires
        from <= end,
    ensures
        from <= nul_index(s, from, end) <= end,
        nul_index(s, from, end) < end ==> s[nul_index(s, from, end)] == 0,
        forall|t: int| from <= t < nul_index(s, from, end) ==> s[t] != 0,
        forall|z: int|
            from <= z < end && s[z] == 0 ==> nul_index(s, from, end) <= z,
    decreases end - from,
{
    if from < end && s[from] != 0 {
        lemma_nul_index(s, from + 1, end);
    }
}

/// The offset, relative to its command, of a dylib command's path string.
pub open spec fn name_off_of(s: Seq<u8>, off: int) -> int {
    le32(s, off + 8)
}

/// The path bytes carried by the dylib command at `off`: from the name
/// offset up to the first NUL, both confined to the command itself.
pub open spec fn path_at(s: Seq<u8>, off: int) -> Option<Seq<u8>> {
    let nameoff = name_off_of(s, off);
    let start = off + nameoff;
    let end = off + cmdsize_of(s, off);
    if 12 <= nameoff && nameoff <= cmdsize_of(s, off) && nul_index(s, start, end) < end {
        Some(s.subrange(start, nul_index(s, start, end)))
    } else {
        None
    }
}

// ------------------------------------------------------------------
// The command-list model: an image's load commands as a list of byte
// chunks.  Mutations are specified as list edits, and two lemmas bridge
// between the list and the raw buffer.
// ------------------------------------------------------------------

/// A plausible load command chunk: at least eight bytes, and its size
/// word equal to its length.
pub open spec fn chunk_ok(c: Seq<u8>) -> bool {
    &&& 8 <= c.len()
    &&& cmdsize_of(c, 0) == c.len()
}

/// Whether a chunk is a dylib-load command.
pub open spec fn chunk_is_dylib(c: Seq<u8>) -> bool {
    is_dylib_cmd(c, 0)
}

/// The path a dylib chunk carries.
pub open spec fn chunk_path(c: Seq<u8>) -> Option<Seq<u8>> {
    path_at(c, 0)
}

/// Whether a chunk is a dylib command carrying exactly `p`.
pub open spec fn chunk_matches(c: Seq<u8>, p: Seq<u8>) -> bool {
    chunk_is_dylib(c) && chunk_path(c) == Some(p)
}

/// The chunks laid out one after another.
pub open spec fn chunks_concat(cs: Seq<Seq<u8>>) -> Seq<u8>
    decreases cs.len(),
{
    if cs.len() == 0 {
        Seq::empty()
    } else {
        chunks_concat(cs.drop_last()) + cs.last()
    }
}

/// The dylib paths carried by a chunk list, in order.
pub open spec fn chunks_paths(cs: Seq<Seq<u8>>) -> Seq<Seq<u8>>
    decreases cs.len(),
{
    if cs.len() == 0 {
        Seq::empty()
    } else {
        let prior = chunks_paths(cs.drop_last());
        if chunk_is_dylib(cs.last()) && chunk_path(cs.last()) is Some {
            prior.push(chunk_path(cs.last())->Some_0)
        } else {
            prior
        }
    }
}

/// How many chunks carry exactly `p`.
pub open spec fn matching_count(cs: Seq<Seq<u8>>, p: Seq<u8>) -> int
    decreases cs.len(),
{
    if cs.len() == 0 {
        0
    } else {
        matching_count(cs.drop_last(), p) + if chunk_matches(cs.last(), p) {
            1int
        } else {
            0int
        }
    }
}

/// The total size of the chunks that carry exactly `p`.
pub open spec fn matching_size(cs: Seq<Seq<u8>>, p: Seq<u8>) -> int
    decreases cs.len(),
{
    if cs.len() == 0 {
        0
    } else {
        matching_size(cs.drop_last(), p) + if chunk_matches(cs.last(), p) {
            cs.last().len() as int
        } else {
            0int
        }
    }
}

/// Every chunk in the list is a plausible command.
pub open spec fn chunks_wf(cs: Seq<Seq<u8>>) -> bool {
    forall|i: int| 0 <= i < cs.len() ==> chunk_ok(#[trigger] cs[i])
}

/// The first `n` command chunks of the image.
pub open spec fn cmds_upto(s: Seq<u8>, n: nat) -> Seq<Seq<u8>>
    decreases n,
{
    if n == 0 {
        Seq::empty()
    } else {
        let off = nth_cmd_off(s, (n - 1) as nat);
        cmds_upto(s, (n - 1) as nat).push(s.subrange(off, off + cmdsize_of(s, off)))
    }
}

/// The image's load commands as a chunk list.
pub open spec fn cmds_of(s: Seq<u8>) -> Seq<Seq<u8>> {
    cmds_upto(s, spec_ncmds(s) as nat)
}

/// All dylib load paths of the image, in command order.
pub open spec fn dylib_paths(s: Seq<u8>) -> Seq<Seq<u8>> {
    chunks_paths(cmds_of(s))
}

/// Whether some dylib command of the image carries exactly `p`.
pub open spec fn has_dylib(s: Seq<u8>, p: Seq<u8>) -> bool {
    dylib_paths(s).contains(p)
}

/// A single-architecture Mach-O image held as owned bytes.
pub struct MachOBinary {
    data: Vec<u8>,
}

impl MachOBinary {
    /// The raw bytes of the image.
    pub closed spec fn view(&self) -> Seq<u8> {
        self.data@
    }

    /// Validates the header and the whole load-command table; accepts the
    /// buffer exactly when it is a well-formed single-architecture image.
    pub fn parse(data: Vec<u8>) -> (r: Result<MachOBinary, Error>)
        ensures
            r matches Ok(m) ==> m@ == data@ && parses(data@),
            r is Err ==> !parses(data@),
            r is Err ==> (r matches Err(e) && e is Parse),
    {
        if data.len() < 28 {
            return Err(Error::Parse);
        }
        let magic = read_u32(&data, 0);
        if magic != MH_MAGIC_64 && magic != MH_MAGIC {
            return Err(Error::Parse);
        }
        let hs: usize = if magic == MH_MAGIC_64 {
            32
        } else {
            28
        };
        if data.len() < hs {
            return Err(Error::Parse);
        }
        let ncmds = read_u32(&data, 16);
        let sizeofcmds = read_u32(&data, 20);
        if (data.len() as u64) < hs as u64 + sizeofcmds as u64 {
            return Err(Error::Parse);
        }
        let rend: usize = hs + sizeofcmds as usize;
        let mut off: usize = hs;
        let mut k: u32 = 0;
        while k < ncmds
            invariant
                parses_header(data@),
                hs == header_size(data@),
                ncmds == spec_ncmds(data@),
                rend == region_end(data@),
                rend <= data@.len(),
                k <= ncmds,
                off == nth_cmd_off(data@, k as nat),
                off <= rend,
                forall|j: nat| j < k ==> cmd_bounds_ok(data@, j),
            decreases ncmds - k,
        {
            if rend - off < 8 {
                assert(!parses(data@)) by {
                    if parses(data@) {
                        assert(cmd_bounds_ok(data@, k as nat));
                    }
                }
                return Err(Error::Parse);
            }
            let csize = read_u32(&data, off + 4);
            if csize < 8 || (csize as u64) > (rend - off) as u64 {
                assert(!parses(data@)) by {
                    if parses(data@) {
                        assert(cmd_bounds_ok(data@, k as nat));
                    }
                }
                return Err(Error::Parse);
            }
            assert(cmd_bounds_ok(data@, k as nat));
            let ghost old_off = off;
            off = off + csize as usize;
            proof {
                assert(nth_cmd_off(data@, (k + 1) as nat) == old_off + cmdsize_of(
                    data@,
                    old_off as int,
                ));
            }
            k = k + 1;
        }
        if off != rend {
            assert(!parses(data@)) by {
                if parses(data@) {
                    assert(nth_cmd_off(data@, spec_ncmds(data@) as nat) == region_end(data@));
                }
            }
            return Err(Error::Parse);
        }
        assert(parses(data@));
        Ok(MachOBinary { data })
    }

    /// Hands the image's bytes back.
    pub fn into_bytes(self) -> (r: Vec<u8>)
        ensures
            r@ == self@,
    {
        self.data
    }

    /// Borrows the image's bytes.
    pub fn bytes(&self) -> (r: &Vec<u8>)
        ensures
            r@ == self@,
    {
        &self.data
    }
}

/// The header part of well-formedness: magic, counts, region inside buffer.
pub open spec fn parses_header(s: Seq<u8>) -> bool {
    &&& 28 <= s.len()
    &&& (is_magic64(s) || is_magic32(s))
    &&& region_end(s) <= s.len()
}

// ------------------------------------------------------------------
// Bridge lemmas between the raw buffer and the command-list model.
// ------------------------------------------------------------------

/// Appending one chunk to a prefix of the list extends its concatenation.
pub proof fn lemma_concat_take(cs: Seq<Seq<u8>>, k: int)
    requires
        0 <= k < cs.len(),
    ensures
        chunks_concat(cs.take(k + 1)) == chunks_concat(cs.take(k)) + cs[k],
{
    assert(cs.take(k + 1).drop_last() =~= cs.take(k));
    assert(cs.take(k + 1).last() == cs[k]);
}

/// Each chunk sits inside the concatenation right after the chunks
/// before it.
pub proof fn lemma_chunk_at(cs: Seq<Seq<u8>>, k: int)
    requires
        0 <= k < cs.len(),
    ensures
        chunks_concat(cs.take(k)).len() + cs[k].len() <= chunks_concat(cs).len(),
        chunks_concat(cs).subrange(
            chunks_concat(cs.take(k)).len() as int,
            chunks_concat(cs.take(k)).len() + cs[k].len() as int,
        ) == cs[k],
    decreases cs.len(),
{
    let plen = chunks_concat(cs.take(k)).len() as int;
    if k == cs.len() - 1 {
        assert(cs.take(k) =~= cs.drop_last());
        assert(chunks_concat(cs).subrange(plen, plen + cs[k].len()) =~= cs[k]);
    } else {
        let head = cs.drop_last();
        assert(head.take(k) =~= cs.take(k));
        lemma_chunk_at(head, k);
        assert(chunks_concat(cs).subrange(plen, plen + cs[k].len()) =~= chunks_concat(
            head,
        ).subrange(plen, plen + cs[k].len()));
    }
}

/// A NUL scan over bytes that mirror a chunk lands at the mirrored spot.
pub proof fn lemma_nul_shift(s: Seq<u8>, c: Seq<u8>, off: int, a: int, b: int)
    requires
        0 <= off,
        off + c.len() <= s.len(),
        s.subrange(off, off + c.len()) == c,
        0 <= a <= b <= c.len(),
    ensures
        nul_index(s, off + a, off + b) == off + nul_index(c, a, b),
    decreases b - a,
{
    if a < b {
        assert(s[off + a] == c[a]);
        if c[a] != 0 {
            lemma_nul_shift(s, c, off, a + 1, b);
        }
    }
}

/// Reading a command whose bytes mirror a chunk gives the chunk's fields.
pub proof fn lemma_chunk_local(s: Seq<u8>, off: int, c: Seq<u8>)
    requires
        chunk_ok(c),
        0 <= off,
        off + c.len() <= s.len(),
        s.subrange(off, off + c.len()) == c,
    ensures
        cmd_of(s, off) == cmd_of(c, 0),
        cmdsize_of(s, off) == c.len(),
        is_dylib_cmd(s, off) == chunk_is_dylib(c),
        path_at(s, off) == chunk_path(c),
        c.len() >= 12 ==> name_off_of(s, off) == name_off_of(c, 0),
{
    assert forall|i: int| 0 <= i < c.len() implies s[off + i] == c[i] by {
        assert(c[i] == s.subrange(off, off + c.len())[i]);
    }
    assert(cmd_of(s, off) == cmd_of(c, 0));
    assert(cmdsize_of(s, off) == cmdsize_of(c, 0));
    if c.len() < 12 {
        assert(path_at(s, off) is None && chunk_path(c) is None);
    } else {
        assert(name_off_of(s, off) == name_off_of(c, 0));
        let nameoff = name_off_of(c, 0);
        if 12 <= nameoff && nameoff <= c.len() {
            lemma_nul_shift(s, c, off, nameoff, c.len() as int);
            let nul = nul_index(c, nameoff, c.len() as int);
            lemma_nul_index(c, nameoff, c.len() as int);
            if nul < c.len() {
                assert(s.subrange(off + nameoff, off + nul) =~= c.subrange(nameoff, nul));
            }
        }
    }
}

/// Walking the buffer of an assembled image recovers the chunk list.
#[verifier::rlimit(100)]
proof fn lemma_assembled_upto(t: Seq<u8>, cs: Seq<Seq<u8>>, k: nat)
    requires
        28 <= t.len(),
        is_magic64(t) || is_magic32(t),
        chunks_wf(cs),
        spec_ncmds(t) == cs.len(),
        spec_sizeofcmds(t) == chunks_concat(cs).len(),
        header_size(t) + chunks_concat(cs).len() <= t.len(),
        t.subrange(header_size(t), header_size(t) + chunks_concat(cs).len()) == chunks_concat(
            cs,
        ),
        k <= cs.len(),
    ensures
        nth_cmd_off(t, k) == header_size(t) + chunks_concat(cs.take(k as int)).len(),
        cmds_upto(t, k) == cs.take(k as int),
        forall|j: nat| j < k ==> cmd_bounds_ok(t, j),
        chunks_concat(cs.take(k as int)).len() <= chunks_concat(cs).len(),
    decreases k,
{
    let hs = header_size(t);
    let clen = chunks_concat(cs).len() as int;
    if k == 0 {
        assert(cs.take(0) =~= Seq::<Seq<u8>>::empty());
        assert(cmds_upto(t, 0) =~= cs.take(0));
    } else {
        let j = (k - 1) as nat;
        lemma_assembled_upto(t, cs, j);
        let plen = chunks_concat(cs.take(j as int)).len() as int;
        let c = cs[j as int];
        assert(chunk_ok(c));
        lemma_chunk_at(cs, j as int);
        let off = hs + plen;
        assert(t.subrange(off, off + c.len()) =~= chunks_concat(cs).subrange(
            plen,
            plen + c.len(),
        ));
        lemma_chunk_local(t, off, c);
        lemma_concat_take(cs, j as int);
        assert(nth_cmd_off(t, k) == off + c.len());
        assert(cmds_upto(t, k) =~= cs.take(k as int));
        assert(cmd_bounds_ok(t, j));
    }
}

/// An image assembled from well-formed chunks parses, and its command
/// list is exactly those chunks.
pub proof fn lemma_assembled(t: Seq<u8>, cs: Seq<Seq<u8>>)
    requires
        28 <= t.len(),
        is_magic64(t) || is_magic32(t),
        chunks_wf(cs),
        spec_ncmds(t) == cs.len(),
        spec_sizeofcmds(t) == chunks_concat(cs).len(),
        header_size(t) + chunks_concat(cs).len() <= t.len(),
        t.subrange(header_size(t), header_size(t) + chunks_concat(cs).len()) == chunks_concat(
            cs,
        ),
    ensures
        parses(t),
        cmds_of(t) == cs,
        forall|k: nat|
            k <= cs.len() ==> nth_cmd_off(t, k) == header_size(t) + chunks_concat(
                cs.take(k as int),
            ).len(),
{
    assert forall|k: nat| k <= cs.len() implies nth_cmd_off(t, k) == header_size(t)
        + chunks_concat(cs.take(k as int)).len() by {
        lemma_assembled_upto(t, cs, k);
    }
    lemma_assembled_upto(t, cs, cs.len() as nat);
    assert(cs.take(cs.len() as int) =~= cs);
    assert(parses(t));
}

/// A parsed image is the assembly of its own command list.
pub proof fn lemma_decompose(s: Seq<u8>)
    requires
        parses(s),
    ensures
        chunks_wf(cmds_of(s)),
        cmds_of(s).len() == spec_ncmds(s),
        chunks_concat(cmds_of(s)).len() == spec_sizeofcmds(s),
        s.subrange(header_size(s), region_end(s)) == chunks_concat(cmds_of(s)),
{
    lemma_decompose_upto(s, spec_ncmds(s) as nat);
    assert(s.subrange(header_size(s), region_end(s)) == chunks_concat(cmds_of(s)));
}

proof fn lemma_decompose_upto(s: Seq<u8>, k: nat)
    requires
        parses(s),
        k <= spec_ncmds(s),
    ensures
        cmds_upto(s, k).len() == k,
        chunks_wf(cmds_upto(s, k)),
        header_size(s) <= nth_cmd_off(s, k) <= region_end(s),
        chunks_concat(cmds_upto(s, k)) == s.subrange(header_size(s), nth_cmd_off(s, k)),
    decreases k,
{
    let hs = header_size(s);
    if k == 0 {
        assert(chunks_concat(cmds_upto(s, 0)) =~= s.subrange(hs, hs));
    } else {
        let j = (k - 1) as nat;
        lemma_decompose_upto(s, j);
        assert(cmd_bounds_ok(s, j));
        let off = nth_cmd_off(s, j);
        let csize = cmdsize_of(s, off);
        let c = s.subrange(off, off + csize);
        assert(cmdsize_of(c, 0) == csize) by {
            assert(c[4] == s[off + 4] && c[5] == s[off + 5] && c[6] == s[off + 6] && c[7] == s[off
                + 7]);
        }
        assert(chunk_ok(c));
        assert(chunks_wf(cmds_upto(s, k))) by {
            assert(forall|i: int|
                0 <= i < k - 1 ==> cmds_upto(s, k)[i] == #[trigger] cmds_upto(s, j)[i]);
            assert(cmds_upto(s, k)[k - 1] == c);
        }
        assert(chunks_concat(cmds_upto(s, k)) =~= s.subrange(hs, nth_cmd_off(s, k))) by {
            assert(cmds_upto(s, k).drop_last() =~= cmds_upto(s, j));
            assert(chunks_concat(cmds_upto(s, k)) == chunks_concat(cmds_upto(s, j)) + c);
        }
    }
}

/// Per-command facts an operation needs while walking the table.
pub proof fn lemma_nth_chunk(s: Seq<u8>, k: nat)
    requires
        parses(s),
        k < spec_ncmds(s),
    ensures
        cmds_of(s)[k as int] == s.subrange(
            nth_cmd_off(s, k),
            nth_cmd_off(s, k) + cmdsize_of(s, nth_cmd_off(s, k)),
        ),
        cmdsize_of(s, nth_cmd_off(s, k)) == cmds_of(s)[k as int].len(),
        is_dylib_cmd(s, nth_cmd_off(s, k)) == chunk_is_dylib(cmds_of(s)[k as int]),
        path_at(s, nth_cmd_off(s, k)) == chunk_path(cmds_of(s)[k as int]),
        cmds_of(s)[k as int].len() >= 12 ==> name_off_of(s, nth_cmd_off(s, k)) == name_off_of(
            cmds_of(s)[k as int],
            0,
        ),
        cmd_bounds_ok(s, k),
        nth_cmd_off(s, (k + 1) as nat) == nth_cmd_off(s, k) + cmds_of(s)[k as int].len(),
        header_size(s) <= nth_cmd_off(s, k),
        nth_cmd_off(s, k) + cmds_of(s)[k as int].len() <= region_end(s),
        chunk_ok(cmds_of(s)[k as int]),
        cmds_of(s).len() == spec_ncmds(s),
{
    let cs = cmds_of(s);
    let hs = header_size(s);
    lemma_decompose(s);
    lemma_assembled_upto(s, cs, k);
    lemma_assembled_upto(s, cs, (k + 1) as nat);
    lemma_chunk_at(cs, k as int);
    let plen = chunks_concat(cs.take(k as int)).len() as int;
    let off = hs + plen;
    assert(s.subrange(off, off + cs[k as int].len()) =~= chunks_concat(cs).subrange(
        plen,
        plen + cs[k as int].len() as int,
    ));
    lemma_chunk_local(s, off, cs[k as int]);
    lemma_concat_take(cs, k as int);
    assert(cmd_bounds_ok(s, k));
}

/// If some chunk carries `p`, the path list contains `p`.
pub proof fn lemma_paths_contains(cs: Seq<Seq<u8>>, k: int, p: Seq<u8>)
    requires
        0 <= k < cs.len(),
        chunk_matches(cs[k], p),
    ensures
        chunks_paths(cs).contains(p),
    decreases cs.len(),
{
    if k == cs.len() - 1 {
        let paths = chunks_paths(cs);
        assert(paths.last() == p);
        assert(paths.contains(p));
    } else {
        lemma_paths_contains(cs.drop_last(), k, p);
        let prior = chunks_paths(cs.drop_last());
        let i = choose|i: int| 0 <= i < prior.len() && prior[i] == p;
        assert(chunks_paths(cs).contains(p)) by {
            assert(chunks_paths(cs)[i] == p);
        }
    }
}

/// Extending a prefix by one non-matching chunk adds no occurrence of `p`.
pub proof fn lemma_paths_step_no_match(cs: Seq<Seq<u8>>, k: int, p: Seq<u8>)
    requires
        0 <= k < cs.len(),
        !chunk_matches(cs[k], p),
        !chunks_paths(cs.take(k)).contains(p),
    ensures
        !chunks_paths(cs.take(k + 1)).contains(p),
{
    let pre = cs.take(k);
    let cur = cs.take(k + 1);
    assert(cur.drop_last() =~= pre);
    assert(cur.last() == cs[k]);
    let prior = chunks_paths(pre);
    if chunk_is_dylib(cs[k]) && chunk_path(cs[k]) is Some {
        let q = chunk_path(cs[k])->Some_0;
        assert(q != p);
        assert forall|i: int| 0 <= i < prior.push(q).len() implies prior.push(q)[i] != p by {
            if i < prior.len() {
                assert(prior.push(q)[i] == prior[i]);
                assert(!prior.contains(p));
            }
        }
    }
}

/// Compares a byte range of the buffer with a slice.
fn range_eq(data: &Vec<u8>, start: usize, end: usize, p: &[u8]) -> (b: bool)
    requires
        start <= end <= data@.len(),
    ensures
        b == (data@.subrange(start as int, end as int) == p@),
{
    let n = data.len();
    let m = p.len();
    if end - start != m {
        return false;
    }
    let mut i: usize = 0;
    while i < m
        invariant
            start <= end <= data@.len(),
            m == p@.len(),
            end - start == m,
            i <= m,
            forall|t: int| 0 <= t < i ==> data@[start + t] == p@[t],
        decreases m - i,
    {
        if data[start + i] != p[i] {
            assert(data@.subrange(start as int, end as int)[i as int] == data@[start + i]);
            return false;
        }
        i += 1;
    }
    assert(data@.subrange(start as int, end as int) =~= p@);
    true
}

/// Copies a byte range of the buffer out.
pub fn copy_range_public(data: &Vec<u8>, start: usize, end: usize) -> (r: Vec<u8>)
    requires
        start <= end <= data@.len(),
    ensures
        r@ == data@.subrange(start as int, end as int),
{
    copy_range(data, start, end)
}

/// Copies a byte range of the buffer out.
fn copy_range(data: &Vec<u8>, start: usize, end: usize) -> (r: Vec<u8>)
    requires
        start <= end <= data@.len(),
    ensures
        r@ == data@.subrange(start as int, end as int),
{
    let mut r: Vec<u8> = Vec::new();
    let mut i: usize = start;
    while i < end
        invariant
            start <= i <= end <= data@.len(),
            r@ == data@.subrange(start as int, i as int),
        decreases end - i,
    {
        r.push(data[i]);
        assert(r@ =~= data@.subrange(start as int, i + 1));
        i += 1;
    }
    r
}

/// Relies on String::from_utf8: it succeeds exactly on valid UTF-8 and
/// returns a string whose bytes are exactly the input.
#[verifier::external_body]
fn string_from_utf8(bytes: Vec<u8>) -> (r: Option<String>)
    ensures
        r is Some <==> valid_utf8(bytes@),
        r matches Some(st) ==> encode_utf8(st@) == bytes@,
{
    String::from_utf8(bytes).ok()
}

/// Locates the path bytes of the command at `off`, bounds-checked.
fn find_path_range(data: &Vec<u8>, off: usize) -> (r: Option<(usize, usize)>)
    requires
        off + 8 <= data@.len(),
        8 <= cmdsize_of(data@, off as int),
        off + cmdsize_of(data@, off as int) <= data@.len(),
    ensures
        r matches Some(se) ==> path_at(data@, off as int) == Some(
            data@.subrange(se.0 as int, se.1 as int),
        ) && off <= se.0 <= se.1 && se.1 <= off + cmdsize_of(data@, off as int),
        r is None ==> path_at(data@, off as int) is None,
{
    let n = data.len();
    let csize = read_u32(data, off + 4) as usize;
    if csize < 12 {
        return None;
    }
    let nameoff = read_u32(data, off + 8);
    if nameoff < 12 || nameoff as usize > csize {
        return None;
    }
    let start = off + nameoff as usize;
    let end = off + csize;
    let mut t = start;
    while t < end
        invariant
            start <= t <= end <= data@.len(),
            off + 8 <= data@.len(),
            csize == cmdsize_of(data@, off as int),
            12 <= nameoff,
            nameoff == name_off_of(data@, off as int),
            nameoff as usize <= csize,
            start == off + nameoff as usize,
            end == off + csize,
            nul_index(data@, start as int, end as int) == nul_index(data@, t as int, end as int),
            forall|u: int| start <= u < t ==> data@[u] != 0,
        decreases end - t,
    {
        if data[t] == 0 {
            assert(nul_index(data@, t as int, end as int) == t as int);
            assert(path_at(data@, off as int) == Some(
                data@.subrange(start as int, t as int),
            ));
            return Some((start, t));
        }
        t += 1;
    }
    assert(nul_index(data@, end as int, end as int) == end as int);
    None
}

/// Whether the command at `off` is a dylib command carrying exactly `p`.
fn cmd_matches_path(data: &Vec<u8>, off: usize, p: &[u8]) -> (b: bool)
    requires
        off + 8 <= data@.len(),
        8 <= cmdsize_of(data@, off as int),
        off + cmdsize_of(data@, off as int) <= data@.len(),
    ensures
        b == (is_dylib_cmd(data@, off as int) && path_at(data@, off as int) == Some(p@)),
{
    let cmd = read_u32(data, off);
    if !(cmd == LC_LOAD_DYLIB || cmd == LC_LOAD_WEAK_DYLIB || cmd == LC_REEXPORT_DYLIB || cmd
        == LC_LAZY_LOAD_DYLIB || cmd == LC_LOAD_UPWARD_DYLIB) {
        return false;
    }
    match find_path_range(data, off) {
        Some((a, b)) => range_eq(data, a, b, p),
        None => false,
    }
}

/// The dylib paths of a chunk list that are valid UTF-8, in order.
pub open spec fn chunks_utf8_paths(cs: Seq<Seq<u8>>) -> Seq<Seq<u8>>
    decreases cs.len(),
{
    if cs.len() == 0 {
        Seq::empty()
    } else {
        let prior = chunks_utf8_paths(cs.drop_last());
        if chunk_is_dylib(cs.last()) && chunk_path(cs.last()) is Some && valid_utf8(
            chunk_path(cs.last())->Some_0,
        ) {
            prior.push(chunk_path(cs.last())->Some_0)
        } else {
            prior
        }
    }
}

impl MachOBinary {
    /// Whether the image already carries `path` as a dylib load path.
    pub fn has_dylib_load_path(&self, path: &str) -> (b: bool)
        requires
            parses(self@),
        ensures
            b == has_dylib(self@, path.spec_bytes()),
    {
        let p = path.as_bytes();
        let ghost s = self@;
        let ghost cs = cmds_of(s);
        let n = self.data.len();
        let magic = read_u32(&self.data, 0);
        let hs: usize = if magic == MH_MAGIC_64 {
            32
        } else {
            28
        };
        let ncmds = read_u32(&self.data, 16);
        let mut off: usize = hs;
        let mut k: u32 = 0;
        proof {
            lemma_decompose(s);
        }
        while k < ncmds
            invariant
                parses(s),
                s == self@,
                s.len() <= usize::MAX,
                cs == cmds_of(s),
                p@ == path.spec_bytes(),
                ncmds == spec_ncmds(s),
                cs.len() == ncmds,
                k <= ncmds,
                off == nth_cmd_off(s, k as nat),
                !chunks_paths(cs.take(k as int)).contains(p@),
            decreases ncmds - k,
        {
            proof {
                lemma_nth_chunk(s, k as nat);
            }
            let csize = read_u32(&self.data, off + 4);
            if cmd_matches_path(&self.data, off, p) {
                proof {
                    lemma_paths_contains(cs, k as int, p@);
                }
                return true;
            }
            proof {
                lemma_paths_step_no_match(cs, k as int, p@);
            }
            off = off + csize as usize;
            k = k + 1;
        }
        proof {
            assert(cs.take(ncmds as int) =~= cs);
        }
        false
    }

    /// All dylib load paths of the image, in command order, as strings;
    /// a path that is not valid UTF-8 is skipped.
    pub fn dylib_load_paths(&self) -> (r: Vec<String>)
        requires
            parses(self@),
        ensures
            r@.map_values(|st: String| encode_utf8(st@)) == chunks_utf8_paths(cmds_of(self@)),
    {
        let ghost s = self@;
        let ghost cs = cmds_of(s);
        let n = self.data.len();
        let magic = read_u32(&self.data, 0);
        let hs: usize = if magic == MH_MAGIC_64 {
            32
        } else {
            28
        };
        let ncmds = read_u32(&self.data, 16);
        let mut r: Vec<String> = Vec::new();
        let mut off: usize = hs;
        let mut k: u32 = 0;
        proof {
            lemma_decompose(s);
            assert(r@.map_values(|st: String| encode_utf8(st@)) =~= chunks_utf8_paths(
                cs.take(0),
            ));
        }
        while k < ncmds
            invariant
                parses(s),
                s == self@,
                s.len() <= usize::MAX,
                cs == cmds_of(s),
                ncmds == spec_ncmds(s),
                cs.len() == ncmds,
                k <= ncmds,
                off == nth_cmd_off(s, k as nat),
                r@.map_values(|st: String| encode_utf8(st@)) == chunks_utf8_paths(
                    cs.take(k as int),
                ),
            decreases ncmds - k,
        {
            proof {
                lemma_nth_chunk(s, k as nat);
                assert(cs.take(k + 1).drop_last() =~= cs.take(k as int));
                assert(cs.take(k + 1).last() == cs[k as int]);
            }
            let csize = read_u32(&self.data, off + 4);
            let cmd = read_u32(&self.data, off);
            let is_dylib = cmd == LC_LOAD_DYLIB || cmd == LC_LOAD_WEAK_DYLIB || cmd
                == LC_REEXPORT_DYLIB || cmd == LC_LAZY_LOAD_DYLIB || cmd == LC_LOAD_UPWARD_DYLIB;
            if is_dylib {
                match find_path_range(&self.data, off) {
                    Some((a, b)) => {
                        let bytes = copy_range(&self.data, a, b);
                        match string_from_utf8(bytes) {
                            Some(st) => {
                                r.push(st);
                                assert(r@.map_values(|q: String| encode_utf8(q@)) =~= chunks_utf8_paths(
                                    cs.take(k + 1),
                                ));
                            },
                            None => {
                                assert(r@.map_values(|q: String| encode_utf8(q@)) =~= chunks_utf8_paths(
                                    cs.take(k + 1),
                                ));
                            },
                        }
                    },
                    None => {
                        assert(r@.map_values(|q: String| encode_utf8(q@)) =~= chunks_utf8_paths(
                            cs.take(k + 1),
                        ));
                    },
                }
            } else {
                assert(r@.map_values(|q: String| encode_utf8(q@)) =~= chunks_utf8_paths(
                    cs.take(k + 1),
                ));
            }
            off = off + csize as usize;
            k = k + 1;
        }
        proof {
            assert(cs.take(ncmds as int) =~= cs);
        }
        r
    }
}

// ------------------------------------------------------------------
// Adding a weak dylib load command.
// ------------------------------------------------------------------

/// Zero padding that brings a path plus its NUL to an 8-byte boundary.
pub open spec fn pad8(l: int) -> int {
    (8 - ((l + 1) % 8)) % 8
}

/// The size of a fresh dylib command for path `p`: a 24-byte header, the
/// path, its NUL, and padding to an 8-byte boundary.
pub open spec fn new_cmd_size(p: Seq<u8>) -> int {
    24 + p.len() + 1 + pad8(p.len() as int)
}

/// The file offset of a segment command, where one is present with a
/// nonzero file offset and size.
pub open spec fn seg_min_fileoff(s: Seq<u8>, off: int) -> Option<int> {
    if cmd_of(s, off) == LC_SEGMENT_64 && cmdsize_of(s, off) >= 56 {
        if le64(s, off + 40) > 0 && le64(s, off + 48) > 0 {
            Some(le64(s, off + 40))
        } else {
            None
        }
    } else if cmd_of(s, off) == LC_SEGMENT && cmdsize_of(s, off) >= 40 {
        if le32(s, off + 32) > 0 && le32(s, off + 36) > 0 {
            Some(le32(s, off + 32))
        } else {
            None
        }
    } else {
        None
    }
}

/// The smallest nonzero segment file offset among the first `n` commands,
/// or the buffer length when no segment constrains the gap.
pub open spec fn data_start_upto(s: Seq<u8>, n: nat) -> int
    decreases n,
{
    if n == 0 {
        s.len() as int
    } else {
        let prior = data_start_upto(s, (n - 1) as nat);
        match seg_min_fileoff(s, nth_cmd_off(s, (n - 1) as nat)) {
            Some(fo) => if fo < prior {
                fo
            } else {
                prior
            },
            None => prior,
        }
    }
}

/// Where the gap after the load commands ends: the first segment byte.
pub open spec fn avail_end(s: Seq<u8>) -> int {
    data_start_upto(s, spec_ncmds(s) as nat)
}

/// Whether a fresh command for `p` fits in the gap and the header fields
/// stay within their 32-bit words.
pub open spec fn fits_gap(s: Seq<u8>, p: Seq<u8>) -> bool {
    &&& p.len() + 32 <= 0xffffffff
    &&& region_end(s) + new_cmd_size(p) <= avail_end(s)
    &&& spec_sizeofcmds(s) + new_cmd_size(p) <= 0xffffffff
    &&& spec_ncmds(s) + 1 <= 0xffffffff
}

/// A chunk that is exactly a weak-dylib load command carrying `p`.
pub open spec fn is_weak_dylib_chunk_for(c: Seq<u8>, p: Seq<u8>) -> bool {
    &&& chunk_ok(c)
    &&& c.len() == new_cmd_size(p)
    &&& cmd_of(c, 0) == LC_LOAD_WEAK_DYLIB
    &&& chunk_path(c) == Some(p)
}

/// What a successful insertion does to the image: one weak-dylib command
/// for `p` appended to the command list, the two header counters grown,
/// and no byte outside the counters and the gap touched.
pub open spec fn add_effect(s1: Seq<u8>, s2: Seq<u8>, p: Seq<u8>) -> bool {
    &&& parses(s2)
    &&& s2.len() == s1.len()
    &&& header_size(s2) == header_size(s1)
    &&& spec_ncmds(s2) == spec_ncmds(s1) + 1
    &&& spec_sizeofcmds(s2) == spec_sizeofcmds(s1) + new_cmd_size(p)
    &&& (exists|c: Seq<u8>|
        cmds_of(s2) == cmds_of(s1).push(c) && #[trigger] is_weak_dylib_chunk_for(c, p))
    &&& dylib_paths(s2) == dylib_paths(s1).push(p)
    &&& forall|i: int|
        0 <= i < s1.len() && !(16 <= i < 24) && !(region_end(s1) <= i < region_end(s1)
            + new_cmd_size(p)) ==> s2[i] == s1[i]
}

/// Writes a little-endian `u32` in place.
fn write_u32(data: &mut Vec<u8>, off: usize, x: u32)
    requires
        off + 4 <= old(data)@.len(),
    ensures
        final(data)@.len() == old(data)@.len(),
        le32(final(data)@, off as int) == x,
        forall|i: int|
            0 <= i < final(data)@.len() && !(off <= i < off + 4) ==> final(data)@[i] == old(
                data,
            )@[i],
{
    let n = data.len();
    let b0 = (x % 0x100) as u8;
    let x1 = x / 0x100;
    let b1 = (x1 % 0x100) as u8;
    let x2 = x1 / 0x100;
    let b2 = (x2 % 0x100) as u8;
    let b3 = (x2 / 0x100) as u8;
    data.set(off, b0);
    data.set(off + 1, b1);
    data.set(off + 2, b2);
    data.set(off + 3, b3);
}

/// Appends a little-endian `u32`.
fn push_u32_le(v: &mut Vec<u8>, x: u32)
    ensures
        final(v)@.len() == old(v)@.len() + 4,
        final(v)@.subrange(0, old(v)@.len() as int) == old(v)@,
        le32(final(v)@, old(v)@.len() as int) == x,
{
    let b0 = (x % 0x100) as u8;
    let x1 = x / 0x100;
    let b1 = (x1 % 0x100) as u8;
    let x2 = x1 / 0x100;
    let b2 = (x2 % 0x100) as u8;
    let b3 = (x2 / 0x100) as u8;
    v.push(b0);
    v.push(b1);
    v.push(b2);
    v.push(b3);
    assert(v@.subrange(0, old(v)@.len() as int) =~= old(v)@);
}

/// Builds the bytes of a weak-dylib load command for `p`.
fn build_weak_chunk(p: &[u8], total: usize) -> (c: Vec<u8>)
    requires
        total == new_cmd_size(p@),
        p@.len() + 32 <= 0xffffffff,
        !p@.contains(0u8),
    ensures
        is_weak_dylib_chunk_for(c@, p@),
        c@.len() == total,
{
    let plen = p.len();
    let mut c: Vec<u8> = Vec::new();
    push_u32_le(&mut c, LC_LOAD_WEAK_DYLIB);
    push_u32_le(&mut c, total as u32);
    push_u32_le(&mut c, 24);
    push_u32_le(&mut c, 2);
    push_u32_le(&mut c, 0x10000);
    push_u32_le(&mut c, 0x10000);
    let ghost hdr = c@;
    assert(le32(hdr, 0) == LC_LOAD_WEAK_DYLIB && le32(hdr, 4) == total && le32(hdr, 8) == 24);
    let mut i: usize = 0;
    while i < plen
        invariant
            i <= plen,
            plen == p@.len(),
            c@.len() == 24 + i,
            c@.subrange(0, 24) == hdr,
            c@.subrange(24, c@.len() as int) == p@.subrange(0, i as int),
        decreases plen - i,
    {
        c.push(p[i]);
        assert(c@.subrange(0, 24) =~= hdr);
        assert(c@.subrange(24, c@.len() as int) =~= p@.subrange(0, i + 1));
        i += 1;
    }
    let zeros = total - 24 - plen;
    let mut j: usize = 0;
    while j < zeros
        invariant
            j <= zeros,
            plen == p@.len(),
            c@.len() == 24 + plen + j,
            c@.subrange(0, 24) == hdr,
            c@.subrange(24, 24 + plen as int) == p@,
            forall|t: int| 24 + plen <= t < c@.len() ==> c@[t] == 0,
        decreases zeros - j,
    {
        c.push(0);
        assert(c@.subrange(0, 24) =~= hdr);
        assert(c@.subrange(24, 24 + plen as int) =~= p@);
        j += 1;
    }
    proof {
        let cv = c@;
        assert(le32(cv, 0) == LC_LOAD_WEAK_DYLIB && le32(cv, 4) == total && le32(cv, 8) == 24)
            by {
            assert(cv[0] == hdr[0] && cv[1] == hdr[1] && cv[2] == hdr[2] && cv[3] == hdr[3]
                && cv[4] == hdr[4] && cv[5] == hdr[5] && cv[6] == hdr[6] && cv[7] == hdr[7]
                && cv[8] == hdr[8] && cv[9] == hdr[9] && cv[10] == hdr[10] && cv[11] == hdr[11])
                by {
                assert(forall|t: int| 0 <= t < 24 ==> cv[t] == #[trigger] cv.subrange(0, 24)[t]);
            }
        }
        assert(chunk_ok(cv));
        assert(forall|t: int| 24 <= t < 24 + plen ==> cv[t] == p@[t - 24]) by {
            assert(forall|t: int|
                24 <= t < 24 + plen ==> #[trigger] cv[t] == cv.subrange(24, 24 + plen as int)[t
                    - 24]);
        }
        assert(forall|t: int| 0 <= t < plen ==> p@[t] != 0) by {
            assert(forall|t: int| 0 <= t < p@.len() ==> p@[t] != 0 || p@.contains(0u8));
        }
        assert(nul_index(cv, 24, cv.len() as int) == 24 + plen) by {
            lemma_nul_index(cv, 24, cv.len() as int);
            assert(cv[24 + plen] == 0);
            assert(forall|t: int| 24 <= t < 24 + plen ==> cv[t] != 0);
        }
        assert(cv.subrange(24, 24 + plen as int) == p@);
        assert(chunk_path(cv) == Some(p@));
    }
    c
}


/// A bound on the gap end: it never passes the end of the buffer.
pub proof fn lemma_data_start_bound(s: Seq<u8>, n: nat)
    ensures
        data_start_upto(s, n) <= s.len(),
    decreases n,
{
    if n > 0 {
        lemma_data_start_bound(s, (n - 1) as nat);
    }
}

/// Inserting a weak-dylib chunk in the gap and bumping the two header
/// counters appends exactly that command to the image.
proof fn lemma_add_assemble(s1: Seq<u8>, s2: Seq<u8>, c: Seq<u8>, p: Seq<u8>)
    requires
        parses(s1),
        is_weak_dylib_chunk_for(c, p),
        s2.len() == s1.len(),
        region_end(s1) + c.len() <= s1.len(),
        le32(s2, 16) == spec_ncmds(s1) + 1,
        le32(s2, 20) == spec_sizeofcmds(s1) + c.len(),
        forall|j: int|
            0 <= j < s1.len() && !(16 <= j < 24) && !(region_end(s1) <= j < region_end(s1)
                + c.len()) ==> s2[j] == s1[j],
        s2.subrange(region_end(s1), region_end(s1) + c.len() as int) == c,
    ensures
        add_effect(s1, s2, p),
{
    let hs = header_size(s1);
    let soc = spec_sizeofcmds(s1);
    let rend = region_end(s1);
    let cs1 = cmds_of(s1);
    let cs2 = cs1.push(c);
    lemma_decompose(s1);
    assert(is_magic64(s2) == is_magic64(s1) && is_magic32(s2) == is_magic32(s1)) by {
        assert(s2[0] == s1[0] && s2[1] == s1[1] && s2[2] == s1[2] && s2[3] == s1[3]);
    }
    assert(header_size(s2) == hs);
    assert(spec_ncmds(s2) == spec_ncmds(s1) + 1);
    assert(spec_sizeofcmds(s2) == soc + c.len());
    assert(chunks_concat(cs2) == chunks_concat(cs1) + c) by {
        assert(cs2.drop_last() =~= cs1);
    }
    assert(forall|t: int| 0 <= t < c.len() ==> s2[rend + t] == c[t]) by {
        assert(forall|t: int|
            0 <= t < c.len() ==> #[trigger] s2[rend + t] == s2.subrange(
                rend,
                rend + c.len() as int,
            )[t]);
    }
    assert(s2.subrange(hs, rend + c.len() as int) =~= chunks_concat(cs2)) by {
        assert(forall|t: int|
            0 <= t < soc ==> s1.subrange(hs, rend)[t] == #[trigger] chunks_concat(cs1)[t]);
        assert(forall|t: int|
            0 <= t < soc ==> #[trigger] s1.subrange(hs, rend)[t] == s1[hs + t]);
        assert(forall|t: int| 0 <= t < soc ==> #[trigger] s2[hs + t] == s1[hs + t]);
    }
    assert(chunks_wf(cs2)) by {
        assert(forall|t: int| 0 <= t < cs1.len() ==> cs2[t] == #[trigger] cs1[t]);
        assert(cs2[cs1.len() as int] == c);
    }
    lemma_assembled(s2, cs2);
    assert(dylib_paths(s2) == dylib_paths(s1).push(p)) by {
        assert(chunks_paths(cs2) == chunks_paths(cs1).push(p)) by {
            assert(cs2.drop_last() =~= cs1);
            assert(cs2.last() == c);
        }
    }
    assert(cmds_of(s2) == cmds_of(s1).push(c) && is_weak_dylib_chunk_for(c, p));
}

impl MachOBinary {
    /// The end of the usable gap between the load commands and the first
    /// segment's file content.
    fn compute_avail_end(&self) -> (r: u64)
        requires
            parses(self@),
        ensures
            r == avail_end(self@),
    {
        let ghost s = self@;
        let n = self.data.len();
        let magic = read_u32(&self.data, 0);
        let hs: usize = if magic == MH_MAGIC_64 {
            32
        } else {
            28
        };
        let ncmds = read_u32(&self.data, 16);
        let mut acc: u64 = n as u64;
        let mut off: usize = hs;
        let mut k: u32 = 0;
        proof {
            lemma_decompose(s);
        }
        while k < ncmds
            invariant
                parses(s),
                s == self@,
                s.len() <= usize::MAX,
                ncmds == spec_ncmds(s),
                cmds_of(s).len() == ncmds,
                k <= ncmds,
                off == nth_cmd_off(s, k as nat),
                acc == data_start_upto(s, k as nat),
            decreases ncmds - k,
        {
            proof {
                lemma_nth_chunk(s, k as nat);
            }
            let cmd = read_u32(&self.data, off);
            let csize = read_u32(&self.data, off + 4);
            if cmd == LC_SEGMENT_64 && csize >= 56 {
                let fo = read_u64(&self.data, off + 40);
                let fs = read_u64(&self.data, off + 48);
                if fo > 0 && fs > 0 && fo < acc {
                    acc = fo;
                }
            } else if cmd == LC_SEGMENT && csize >= 40 {
                let fo = read_u32(&self.data, off + 32);
                let fs = read_u32(&self.data, off + 36);
                if fo > 0 && fs > 0 && (fo as u64) < acc {
                    acc = fo as u64;
                }
            }
            off = off + csize as usize;
            k = k + 1;
        }
        acc
    }

    /// Inserts `path` as a weak dylib load command in the gap after the
    /// command table.  Succeeds without touching the image when the path
    /// is already present; fails with a capacity error, touching nothing,
    /// when the gap cannot hold the new command.
    pub fn add_dylib_load_path(&mut self, path: &str) -> (r: Result<(), Error>)
        requires
            parses(old(self)@),
            !path.spec_bytes().contains(0u8),
        ensures
            has_dylib(old(self)@, path.spec_bytes()) ==> r is Ok && final(self)@ == old(self)@,
            !has_dylib(old(self)@, path.spec_bytes()) && fits_gap(old(self)@, path.spec_bytes())
                ==> r is Ok && add_effect(old(self)@, final(self)@, path.spec_bytes()),
            !has_dylib(old(self)@, path.spec_bytes()) && !fits_gap(old(self)@, path.spec_bytes())
                ==> (r matches Err(e) && e is Capacity) && final(self)@ == old(self)@,
    {
        let ghost s1 = self@;
        let ghost p = path.spec_bytes();
        if self.has_dylib_load_path(path) {
            return Ok(());
        }
        let pb = path.as_bytes();
        let plen = pb.len();
        if plen as u64 > 0xffffffffu64 - 32 {
            return Err(Error::Capacity);
        }
        let pad = (8 - ((plen + 1) % 8)) % 8;
        let csize_new = 24 + plen + 1 + pad;
        assert(csize_new == new_cmd_size(p));
        let ae = self.compute_avail_end();
        let n = self.data.len();
        let magic = read_u32(&self.data, 0);
        let hs: usize = if magic == MH_MAGIC_64 {
            32
        } else {
            28
        };
        let ncmds = read_u32(&self.data, 16);
        let soc = read_u32(&self.data, 20);
        let rend = hs + soc as usize;
        if ncmds == 0xffffffff {
            return Err(Error::Capacity);
        }
        if (soc as u64) + (csize_new as u64) > 0xffffffff {
            return Err(Error::Capacity);
        }
        if (rend as u64) + (csize_new as u64) > ae {
            return Err(Error::Capacity);
        }
        assert(fits_gap(s1, p));
        let chunk = build_weak_chunk(pb, csize_new);
        proof {
            lemma_data_start_bound(s1, spec_ncmds(s1) as nat);
        }
        // the gap ends inside the buffer, so the copy stays in bounds
        assert(rend + csize_new <= n);
        let mut i: usize = 0;
        while i < csize_new
            invariant
                i <= csize_new,
                csize_new == chunk@.len(),
                rend + csize_new <= s1.len(),
                s1.len() <= usize::MAX,
                self.data@.len() == s1.len(),
                forall|j: int| 0 <= j < i ==> self.data@[rend + j] == chunk@[j],
                forall|j: int|
                    0 <= j < s1.len() && !(rend <= j < rend + i) ==> self.data@[j] == s1[j],
            decreases csize_new - i,
        {
            let b = chunk[i];
            self.data.set(rend + i, b);
            i += 1;
        }
        write_u32(&mut self.data, 16, ncmds + 1);
        write_u32(&mut self.data, 20, soc + csize_new as u32);
        proof {
            assert(self.data@.subrange(rend as int, rend + csize_new) =~= chunk@);
            lemma_add_assemble(s1, self.data@, chunk@, p);
        }
        Ok(())
    }
}

// ------------------------------------------------------------------
// Removing dylib load commands.
// ------------------------------------------------------------------

/// The chunks kept when every dylib command carrying `p` is removed.
pub open spec fn chunks_without(cs: Seq<Seq<u8>>, p: Seq<u8>) -> Seq<Seq<u8>> {
    cs.filter(|c: Seq<u8>| !chunk_matches(c, p))
}

/// A path list with every occurrence of `p` dropped.
pub open spec fn paths_without(ps: Seq<Seq<u8>>, p: Seq<u8>) -> Seq<Seq<u8>> {
    ps.filter(|q: Seq<u8>| q != p)
}

/// What removal does to the image: every dylib command carrying `p`
/// dropped from the command list, both header counters shrunk by what
/// left, the buffer shortened by the same amount, and the bytes before
/// and after the command region untouched.
pub open spec fn remove_effect(s1: Seq<u8>, s2: Seq<u8>, p: Seq<u8>) -> bool {
    &&& parses(s2)
    &&& header_size(s2) == header_size(s1)
    &&& cmds_of(s2) == chunks_without(cmds_of(s1), p)
    &&& spec_ncmds(s2) == spec_ncmds(s1) - matching_count(cmds_of(s1), p)
    &&& spec_sizeofcmds(s2) == spec_sizeofcmds(s1) - matching_size(cmds_of(s1), p)
    &&& s2.len() == s1.len() - matching_size(cmds_of(s1), p)
    &&& dylib_paths(s2) == paths_without(dylib_paths(s1), p)
    &&& !has_dylib(s2, p)
    &&& forall|i: int| 0 <= i < 16 ==> s2[i] == s1[i]
    &&& forall|i: int| 24 <= i < header_size(s1) ==> s2[i] == s1[i]
    &&& s2.subrange(region_end(s2), s2.len() as int) == s1.subrange(
        region_end(s1),
        s1.len() as int,
    )
}

/// The matched sizes never exceed the whole region.
pub proof fn lemma_matching_bounds(cs: Seq<Seq<u8>>, p: Seq<u8>)
    ensures
        0 <= matching_count(cs, p) <= cs.len(),
        0 <= matching_size(cs, p) <= chunks_concat(cs).len(),
    decreases cs.len(),
{
    if cs.len() > 0 {
        lemma_matching_bounds(cs.drop_last(), p);
    }
}

/// Filtering out the commands that carry `p` keeps the other commands,
/// their order and their paths, and drops exactly the matched ones.
pub proof fn lemma_filter_stats(cs: Seq<Seq<u8>>, p: Seq<u8>)
    requires
        chunks_wf(cs),
    ensures
        chunks_wf(chunks_without(cs, p)),
        chunks_without(cs, p).len() == cs.len() - matching_count(cs, p),
        chunks_concat(chunks_without(cs, p)).len() == chunks_concat(cs).len() - matching_size(
            cs,
            p,
        ),
        chunks_paths(chunks_without(cs, p)) == paths_without(chunks_paths(cs), p),
        !chunks_paths(chunks_without(cs, p)).contains(p),
    decreases cs.len(),
{
    reveal_with_fuel(Seq::<Seq<u8>>::filter, 2);
    let keep = |c: Seq<u8>| !chunk_matches(c, p);
    let neq = |q: Seq<u8>| q != p;
    if cs.len() == 0 {
        assert(chunks_without(cs, p) =~= cs);
        assert(paths_without(chunks_paths(cs), p) =~= Seq::<Seq<u8>>::empty());
    } else {
        let head = cs.drop_last();
        let c = cs.last();
        assert(chunks_wf(head)) by {
            assert(forall|i: int| 0 <= i < head.len() ==> head[i] == #[trigger] cs[i]);
        }
        lemma_filter_stats(head, p);
        assert(cs.filter(keep) == if keep(c) {
            head.filter(keep).push(c)
        } else {
            head.filter(keep)
        });
        let fh = head.filter(keep);
        if keep(c) {
            assert(chunks_wf(fh.push(c))) by {
                assert(forall|i: int| 0 <= i < fh.len() ==> fh.push(c)[i] == #[trigger] fh[i]);
                assert(fh.push(c)[fh.len() as int] == c);
                assert(chunk_ok(c)) by {
                    assert(cs[cs.len() - 1] == c);
                }
            }
            assert(chunks_concat(fh.push(c)) == chunks_concat(fh) + c) by {
                assert(fh.push(c).drop_last() =~= fh);
            }
            assert(chunks_paths(fh.push(c)) == if chunk_is_dylib(c) && chunk_path(c) is Some {
                chunks_paths(fh).push(chunk_path(c)->Some_0)
            } else {
                chunks_paths(fh)
            }) by {
                assert(fh.push(c).drop_last() =~= fh);
            }
            if chunk_is_dylib(c) && chunk_path(c) is Some {
                let q = chunk_path(c)->Some_0;
                assert(q != p);
                assert(paths_without(chunks_paths(cs), p) == paths_without(
                    chunks_paths(head),
                    p,
                ).push(q)) by {
                    assert(chunks_paths(cs) == chunks_paths(head).push(q));
                    assert(chunks_paths(head).push(q).drop_last() =~= chunks_paths(head));
                }
                let fp = chunks_paths(fh);
                assert(!fp.push(q).contains(p)) by {
                    assert(forall|i: int| 0 <= i < fp.len() ==> fp.push(q)[i] == #[trigger] fp[i]);
                    assert(forall|i: int|
                        0 <= i < fp.push(q).len() ==> #[trigger] fp.push(q)[i] != p);
                }
            } else {
                assert(paths_without(chunks_paths(cs), p) == paths_without(
                    chunks_paths(head),
                    p,
                ));
            }
        } else {
            assert(chunk_is_dylib(c) && chunk_path(c) == Some(p));
            assert(chunks_paths(cs) == chunks_paths(head).push(p));
            assert(paths_without(chunks_paths(cs), p) == paths_without(chunks_paths(head), p))
                by {
                assert(chunks_paths(head).push(p).drop_last() =~= chunks_paths(head));
            }
        }
    }
}


/// One step of the removal walk: how prefix statistics grow at command `k`.
proof fn lemma_remove_step(s1: Seq<u8>, p: Seq<u8>, k: nat)
    requires
        parses(s1),
        k < spec_ncmds(s1),
    ensures
        chunks_without(cmds_of(s1).take(k as int + 1), p) == if chunk_matches(cmds_of(s1)[k as int], p) {
            chunks_without(cmds_of(s1).take(k as int), p)
        } else {
            chunks_without(cmds_of(s1).take(k as int), p).push(cmds_of(s1)[k as int])
        },
        chunks_concat(
            chunks_without(cmds_of(s1).take(k as int), p).push(cmds_of(s1)[k as int]),
        ) == chunks_concat(chunks_without(cmds_of(s1).take(k as int), p)) + cmds_of(s1)[k as int],
        matching_size(cmds_of(s1).take(k as int + 1), p) == matching_size(cmds_of(s1).take(k as int), p)
            + if chunk_matches(cmds_of(s1)[k as int], p) {
            cmds_of(s1)[k as int].len() as int
        } else {
            0int
        },
        chunks_concat(cmds_of(s1).take(k as int + 1)).len() == chunks_concat(
            cmds_of(s1).take(k as int),
        ).len() + cmds_of(s1)[k as int].len(),
        chunks_concat(cmds_of(s1).take(k as int + 1)).len() <= spec_sizeofcmds(s1),
{
    reveal_with_fuel(Seq::<Seq<u8>>::filter, 2);
    let cs1 = cmds_of(s1);
    lemma_decompose(s1);
    lemma_nth_chunk(s1, k);
    lemma_concat_take(cs1, k as int);
    lemma_assembled_upto(s1, cs1, (k + 1) as nat);
    assert(cs1.take(k as int + 1).drop_last() =~= cs1.take(k as int));
    assert(cs1.take(k as int + 1).last() == cs1[k as int]);
    let fh = chunks_without(cs1.take(k as int), p);
    assert(fh.push(cs1[k as int]).drop_last() =~= fh);
}

/// Rebuilding the image from the kept commands gives exactly the removal
/// effect.
#[verifier::rlimit(100)]
proof fn lemma_remove_assemble(s1: Seq<u8>, s2: Seq<u8>, p: Seq<u8>)
    requires
        parses(s1),
        s2.len() == header_size(s1) + chunks_concat(chunks_without(cmds_of(s1), p)).len() + (
        s1.len() - region_end(s1)),
        forall|i: int| 0 <= i < 16 ==> s2[i] == s1[i],
        forall|i: int| 24 <= i < header_size(s1) ==> s2[i] == s1[i],
        le32(s2, 16) == cmds_of(s1).len() - matching_count(cmds_of(s1), p),
        le32(s2, 20) == chunks_concat(chunks_without(cmds_of(s1), p)).len(),
        s2.subrange(
            header_size(s1),
            header_size(s1) + chunks_concat(chunks_without(cmds_of(s1), p)).len() as int,
        ) == chunks_concat(chunks_without(cmds_of(s1), p)),
        s2.subrange(
            header_size(s1) + chunks_concat(chunks_without(cmds_of(s1), p)).len() as int,
            s2.len() as int,
        ) == s1.subrange(region_end(s1), s1.len() as int),
    ensures
        remove_effect(s1, s2, p),
{
    let cs1 = cmds_of(s1);
    let cs2 = chunks_without(cs1, p);
    lemma_decompose(s1);
    lemma_filter_stats(cs1, p);
    lemma_matching_bounds(cs1, p);
    assert(is_magic64(s2) == is_magic64(s1) && is_magic32(s2) == is_magic32(s1)) by {
        assert(s2[0] == s1[0] && s2[1] == s1[1] && s2[2] == s1[2] && s2[3] == s1[3]);
    }
    assert(header_size(s2) == header_size(s1));
    assert(spec_ncmds(s2) == cs2.len());
    assert(spec_sizeofcmds(s2) == chunks_concat(cs2).len());
    lemma_assembled(s2, cs2);
}

impl MachOBinary {
    /// Removes every dylib load command carrying `path`, closing the gaps
    /// and shrinking the header counters and the buffer accordingly.
    #[verifier::rlimit(60)]
    pub fn remove_dylib_load_path(&mut self, path: &str) -> (r: Result<(), Error>)
        requires
            parses(old(self)@),
        ensures
            r is Ok,
            remove_effect(old(self)@, final(self)@, path.spec_bytes()),
    {
        let ghost s1 = self@;
        let ghost cs1 = cmds_of(s1);
        let ghost p = path.spec_bytes();
        let pb = path.as_bytes();
        let n = self.data.len();
        let magic = read_u32(&self.data, 0);
        let hs: usize = if magic == MH_MAGIC_64 {
            32
        } else {
            28
        };
        let ncmds = read_u32(&self.data, 16);
        let soc = read_u32(&self.data, 20);
        let rend = hs + soc as usize;
        proof {
            lemma_decompose(s1);
            reveal_with_fuel(Seq::<Seq<u8>>::filter, 2);
            assert(chunks_without(cs1.take(0), p) =~= Seq::<Seq<u8>>::empty());
        }
        let mut buf: Vec<u8> = Vec::new();
        let mut kept: u32 = 0;
        let mut removed_sz: usize = 0;
        let mut off: usize = hs;
        let mut k: u32 = 0;
        while k < ncmds
            invariant
                parses(s1),
                s1 == self@,
                s1.len() <= usize::MAX,
                cs1 == cmds_of(s1),
                pb@ == p,
                ncmds == spec_ncmds(s1),
                soc == spec_sizeofcmds(s1),
                cs1.len() == ncmds,
                hs == header_size(s1),
                k <= ncmds,
                off == nth_cmd_off(s1, k as nat),
                buf@ == chunks_concat(chunks_without(cs1.take(k as int), p)),
                kept == chunks_without(cs1.take(k as int), p).len(),
                kept <= k,
                removed_sz == matching_size(cs1.take(k as int), p),
                buf@.len() + removed_sz == chunks_concat(cs1.take(k as int)).len(),
                chunks_concat(cs1.take(k as int)).len() <= soc,
            decreases ncmds - k,
        {
            proof {
                lemma_nth_chunk(s1, k as nat);
                lemma_remove_step(s1, p, k as nat);
            }
            let csize = read_u32(&self.data, off + 4);
            if cmd_matches_path(&self.data, off, pb) {
                removed_sz = removed_sz + csize as usize;
            } else {
                let mut tmp = copy_range(&self.data, off, off + csize as usize);
                buf.append(&mut tmp);
                kept = kept + 1;
            }
            off = off + csize as usize;
            k = k + 1;
        }
        proof {
            assert(cs1.take(ncmds as int) =~= cs1);
            lemma_filter_stats(cs1, p);
            lemma_matching_bounds(cs1, p);
        }
        let mut nd = copy_range(&self.data, 0, hs);
        let ghost pre = nd@;
        nd.append(&mut buf);
        let mut tail = copy_range(&self.data, rend, n);
        nd.append(&mut tail);
        write_u32(&mut nd, 16, kept);
        write_u32(&mut nd, 20, soc - removed_sz as u32);
        proof {
            let cs2 = chunks_without(cs1, p);
            let clen2 = chunks_concat(cs2).len() as int;
            let s2 = nd@;
            assert(s2.len() == hs + clen2 + (s1.len() - rend));
            assert(forall|i: int| 0 <= i < 16 ==> s2[i] == s1[i]) by {
                assert(forall|i: int| 0 <= i < hs ==> pre[i] == s1[i]);
                assert(forall|i: int| 0 <= i < 16 ==> s2[i] == pre[i]);
            }
            assert(forall|i: int| 24 <= i < hs ==> s2[i] == s1[i]) by {
                assert(forall|i: int| 0 <= i < hs ==> pre[i] == s1[i]);
                assert(forall|i: int| 24 <= i < hs ==> s2[i] == pre[i]);
            }
            assert(s2.subrange(hs as int, hs + clen2) =~= chunks_concat(cs2));
            assert(s2.subrange(hs + clen2, s2.len() as int) =~= s1.subrange(
                rend as int,
                s1.len() as int,
            ));
            lemma_remove_assemble(s1, s2, p);
        }
        self.data = nd;
        Ok(())
    }
}

// ------------------------------------------------------------------
// Renaming dylib load commands in place.
// ------------------------------------------------------------------

/// Whether `pnew`, with its NUL and padding, fits into every command
/// that carries `pold`.
pub open spec fn replace_fits(cs: Seq<Seq<u8>>, pold: Seq<u8>, pnew: Seq<u8>) -> bool {
    forall|i: int|
        0 <= i < cs.len() && chunk_matches(#[trigger] cs[i], pold) ==> name_off_of(cs[i], 0)
            + pnew.len() + 1 + pad8(pnew.len() as int) <= cs[i].len()
}

/// How a renamed command relates to the original: same length, same kind,
/// and carrying exactly the new path.
pub open spec fn renamed_chunk_ok(c1: Seq<u8>, c2: Seq<u8>, pnew: Seq<u8>) -> bool {
    &&& c2.len() == c1.len()
    &&& chunk_ok(c2)
    &&& cmd_of(c2, 0) == cmd_of(c1, 0)
    &&& chunk_is_dylib(c2) == chunk_is_dylib(c1)
    &&& chunk_path(c2) == Some(pnew)
}

/// A path list with every occurrence of `pold` turned into `pnew`.
pub open spec fn replaced_paths(ps: Seq<Seq<u8>>, pold: Seq<u8>, pnew: Seq<u8>) -> Seq<Seq<u8>> {
    ps.map_values(
        |q: Seq<u8>|
            if q == pold {
                pnew
            } else {
                q
            },
    )
}

/// The command-level relation after a rename pass.
pub open spec fn renamed_cmds_ok(
    cs1: Seq<Seq<u8>>,
    cs2: Seq<Seq<u8>>,
    pold: Seq<u8>,
    pnew: Seq<u8>,
) -> bool {
    &&& cs2.len() == cs1.len()
    &&& forall|i: int|
        0 <= i < cs1.len() ==> if chunk_matches(#[trigger] cs1[i], pold) {
            renamed_chunk_ok(cs1[i], cs2[i], pnew)
        } else {
            cs2[i] == cs1[i]
        }
}

/// What a successful rename does to the image: every command carrying
/// `pold` now carries `pnew` in the same slot, everything else identical.
pub open spec fn replace_effect(s1: Seq<u8>, s2: Seq<u8>, pold: Seq<u8>, pnew: Seq<u8>) -> bool {
    &&& parses(s2)
    &&& s2.len() == s1.len()
    &&& header_size(s2) == header_size(s1)
    &&& spec_ncmds(s2) == spec_ncmds(s1)
    &&& spec_sizeofcmds(s2) == spec_sizeofcmds(s1)
    &&& renamed_cmds_ok(cmds_of(s1), cmds_of(s2), pold, pnew)
    &&& dylib_paths(s2) == replaced_paths(dylib_paths(s1), pold, pnew)
    &&& forall|i: int| 0 <= i < header_size(s1) ==> s2[i] == s1[i]
    &&& s2.subrange(region_end(s1), s2.len() as int) == s1.subrange(
        region_end(s1),
        s1.len() as int,
    )
}

/// Renamed commands carry the renamed paths, in order.
proof fn lemma_paths_replace(cs1: Seq<Seq<u8>>, cs2: Seq<Seq<u8>>, pold: Seq<u8>, pnew: Seq<u8>)
    requires
        renamed_cmds_ok(cs1, cs2, pold, pnew),
    ensures
        chunks_paths(cs2) == replaced_paths(chunks_paths(cs1), pold, pnew),
    decreases cs1.len(),
{
    if cs1.len() == 0 {
        assert(chunks_paths(cs2) =~= replaced_paths(chunks_paths(cs1), pold, pnew));
    } else {
        let h1 = cs1.drop_last();
        let h2 = cs2.drop_last();
        assert(renamed_cmds_ok(h1, h2, pold, pnew)) by {
            assert(forall|i: int|
                0 <= i < h1.len() ==> h1[i] == #[trigger] cs1[i] && h2[i] == cs2[i]);
        }
        lemma_paths_replace(h1, h2, pold, pnew);
        let c1 = cs1.last();
        let c2 = cs2.last();
        assert(cs1[cs1.len() - 1] == c1 && cs2[cs1.len() - 1] == c2);
        if chunk_matches(c1, pold) {
            assert(chunks_paths(cs1) == chunks_paths(h1).push(pold));
            assert(chunks_paths(cs2) == chunks_paths(h2).push(pnew));
            assert(chunks_paths(cs2) =~= replaced_paths(chunks_paths(cs1), pold, pnew));
        } else {
            assert(c2 == c1);
            if chunk_is_dylib(c1) && chunk_path(c1) is Some {
                let q = chunk_path(c1)->Some_0;
                assert(q != pold);
                assert(chunks_paths(cs2) =~= replaced_paths(chunks_paths(cs1), pold, pnew));
            } else {
                assert(chunks_paths(cs2) =~= replaced_paths(chunks_paths(cs1), pold, pnew));
            }
        }
    }
}

/// Builds the bytes of a command renamed to carry `pnew`.
fn build_renamed_chunk(data: &Vec<u8>, off: usize, csize: usize, nameoff: usize, pnew: &[u8]) -> (c:
    Vec<u8>)
    requires
        off + csize <= data@.len(),
        cmdsize_of(data@, off as int) == csize,
        name_off_of(data@, off as int) == nameoff,
        12 <= nameoff <= csize,
        nameoff + pnew@.len() + 1 <= csize,
        !pnew@.contains(0u8),
    ensures
        c@.len() == csize,
        chunk_ok(c@),
        cmd_of(c@, 0) == cmd_of(data@, off as int),
        chunk_is_dylib(c@) == is_dylib_cmd(data@, off as int),
        chunk_path(c@) == Some(pnew@),
{
    let n = data.len();
    let plen = pnew.len();
    let mut c = copy_range(data, off, off + nameoff);
    assert(forall|t: int| 0 <= t < nameoff ==> #[trigger] c@[t] == data@[off + t]);
    let mut i: usize = 0;
    while i < plen
        invariant
            i <= plen,
            plen == pnew@.len(),
            nameoff + plen + 1 <= csize,
            c@.len() == nameoff + i,
            forall|t: int| 0 <= t < nameoff ==> #[trigger] c@[t] == data@[off + t],
            forall|t: int|
                nameoff <= t < nameoff + i ==> #[trigger] c@[t] == pnew@[t - nameoff],
        decreases plen - i,
    {
        c.push(pnew[i]);
        i += 1;
    }
    let mut j: usize = c.len();
    while j < csize
        invariant
            nameoff + plen <= j <= csize,
            j == c@.len(),
            plen == pnew@.len(),
            forall|t: int| 0 <= t < nameoff ==> #[trigger] c@[t] == data@[off + t],
            forall|t: int|
                nameoff <= t < nameoff + plen ==> #[trigger] c@[t] == pnew@[t - nameoff],
            forall|t: int| nameoff + plen <= t < c@.len() ==> #[trigger] c@[t] == 0,
        decreases csize - j,
    {
        c.push(0);
        j += 1;
    }
    proof {
        let cv = c@;
        assert(cv[0] == data@[off as int] && cv[1] == data@[off + 1] && cv[2] == data@[off + 2]
            && cv[3] == data@[off + 3] && cv[4] == data@[off + 4] && cv[5] == data@[off + 5]
            && cv[6] == data@[off + 6] && cv[7] == data@[off + 7] && cv[8] == data@[off + 8]
            && cv[9] == data@[off + 9] && cv[10] == data@[off + 10] && cv[11] == data@[off
            + 11]);
        assert(cmd_of(cv, 0) == cmd_of(data@, off as int) && cmdsize_of(cv, 0) == cmdsize_of(
            data@,
            off as int,
        ) && name_off_of(cv, 0) == name_off_of(data@, off as int));
        assert(chunk_ok(cv));
        assert(forall|t: int| 0 <= t < plen ==> pnew@[t] != 0) by {
            assert(forall|t: int| 0 <= t < pnew@.len() ==> pnew@[t] != 0 || pnew@.contains(0u8));
        }
        assert(nul_index(cv, nameoff as int, csize as int) == nameoff + plen) by {
            lemma_nul_index(cv, nameoff as int, csize as int);
            assert(cv[nameoff + plen] == 0);
            assert(forall|t: int|
                nameoff <= t < nameoff + plen ==> cv[t] == pnew@[t - nameoff] && pnew@[t
                    - nameoff] != 0);
        }
        assert(cv.subrange(nameoff as int, nameoff + plen as int) =~= pnew@);
        assert(chunk_path(cv) == Some(pnew@));
    }
    c
}

/// Rebuilding the image from renamed commands gives the rename effect.
#[verifier::rlimit(100)]
proof fn lemma_replace_assemble(
    s1: Seq<u8>,
    s2: Seq<u8>,
    cs2: Seq<Seq<u8>>,
    pold: Seq<u8>,
    pnew: Seq<u8>,
)
    requires
        parses(s1),
        renamed_cmds_ok(cmds_of(s1), cs2, pold, pnew),
        s2.len() == s1.len(),
        chunks_concat(cs2).len() == spec_sizeofcmds(s1),
        forall|i: int| 0 <= i < header_size(s1) ==> s2[i] == s1[i],
        s2.subrange(header_size(s1), region_end(s1)) == chunks_concat(cs2),
        s2.subrange(region_end(s1), s2.len() as int) == s1.subrange(
            region_end(s1),
            s1.len() as int,
        ),
    ensures
        replace_effect(s1, s2, pold, pnew),
{
    let cs1 = cmds_of(s1);
    lemma_decompose(s1);
    assert(is_magic64(s2) == is_magic64(s1) && is_magic32(s2) == is_magic32(s1)) by {
        assert(s2[0] == s1[0] && s2[1] == s1[1] && s2[2] == s1[2] && s2[3] == s1[3]);
    }
    assert(header_size(s2) == header_size(s1));
    assert(spec_ncmds(s2) == spec_ncmds(s1) && spec_sizeofcmds(s2) == spec_sizeofcmds(s1)) by {
        assert(s2[16] == s1[16] && s2[17] == s1[17] && s2[18] == s1[18] && s2[19] == s1[19]
            && s2[20] == s1[20] && s2[21] == s1[21] && s2[22] == s1[22] && s2[23] == s1[23]);
    }
    assert(chunks_wf(cs2)) by {
        assert(forall|i: int|
            0 <= i < cs2.len() ==> chunk_ok(#[trigger] cs2[i]) == (if chunk_matches(
                cs1[i],
                pold,
            ) {
                chunk_ok(cs2[i])
            } else {
                chunk_ok(cs1[i])
            }));
    }
    lemma_assembled(s2, cs2);
    lemma_paths_replace(cs1, cs2, pold, pnew);
}

impl MachOBinary {
    /// Renames every dylib load command carrying `old_path` to carry
    /// `new_path` in place, never growing a command.  Fails with a
    /// capacity error, touching nothing, when some matching command's
    /// slot cannot hold the new path.
    #[verifier::rlimit(100)]
    pub fn replace_dylib_load_path(&mut self, old_path: &str, new_path: &str) -> (r: Result<
        (),
        Error,
    >)
        requires
            parses(old(self)@),
            !new_path.spec_bytes().contains(0u8),
        ensures
            replace_fits(cmds_of(old(self)@), old_path.spec_bytes(), new_path.spec_bytes())
                ==> r is Ok && replace_effect(
                old(self)@,
                final(self)@,
                old_path.spec_bytes(),
                new_path.spec_bytes(),
            ),
            !replace_fits(cmds_of(old(self)@), old_path.spec_bytes(), new_path.spec_bytes())
                ==> (r matches Err(e) && e is Capacity) && final(self)@ == old(self)@,
    {
        let ghost s1 = self@;
        let ghost cs1 = cmds_of(s1);
        let ghost pold = old_path.spec_bytes();
        let ghost pnew = new_path.spec_bytes();
        let pob = old_path.as_bytes();
        let pnb = new_path.as_bytes();
        let plen_new = pnb.len();
        let n = self.data.len();
        let magic = read_u32(&self.data, 0);
        let hs: usize = if magic == MH_MAGIC_64 {
            32
        } else {
            28
        };
        let ncmds = read_u32(&self.data, 16);
        let soc = read_u32(&self.data, 20);
        let rend = hs + soc as usize;
        proof {
            lemma_decompose(s1);
        }
        // First pass: every matching command must have room for the new
        // path; otherwise nothing is touched.
        let mut off: usize = hs;
        let mut k: u32 = 0;
        while k < ncmds
            invariant
                parses(s1),
                s1 == self@,
                s1 == old(self)@,
                s1.len() <= usize::MAX,
                cs1 == cmds_of(s1),
                pob@ == pold,
                pnb@ == pnew,
                pold == old_path.spec_bytes(),
                pnew == new_path.spec_bytes(),
                plen_new == pnew.len(),
                ncmds == spec_ncmds(s1),
                cs1.len() == ncmds,
                hs == header_size(s1),
                k <= ncmds,
                off == nth_cmd_off(s1, k as nat),
                forall|j: int|
                    0 <= j < k && chunk_matches(#[trigger] cs1[j], pold) ==> name_off_of(cs1[j], 0)
                        + pnew.len() + 1 + pad8(pnew.len() as int) <= cs1[j].len(),
            decreases ncmds - k,
        {
            proof {
                lemma_nth_chunk(s1, k as nat);
            }
            let csize = read_u32(&self.data, off + 4);
            if cmd_matches_path(&self.data, off, pob) {
                proof {
                    assert(chunk_matches(cs1[k as int], pold));
                    assert(cs1[k as int].len() >= 12) by {
                        assert(chunk_path(cs1[k as int]) == Some(pold));
                    }
                    assert(cs1[k as int].len() < 0x100000000);
                    assert(name_off_of(cs1[k as int], 0) >= 0);
                    assert(pad8(pnew.len() as int) >= 0);
                }
                let nameoff = read_u32(&self.data, off + 8) as usize;
                if plen_new as u64 >= 0x100000000u64 {
                    proof {
                        assert(!replace_fits(cs1, pold, pnew));
                    }
                    return Err(Error::Capacity);
                }
                let pad = (8 - ((plen_new as u64 + 1) % 8)) % 8;
                assert(pad == pad8(pnew.len() as int));
                if nameoff as u64 + plen_new as u64 + 1 + pad > csize as u64 {
                    proof {
                        assert(name_off_of(cs1[k as int], 0) + pnew.len() + 1 + pad8(
                            pnew.len() as int,
                        ) > cs1[k as int].len());
                        assert(!replace_fits(cs1, pold, pnew));
                    }
                    return Err(Error::Capacity);
                }
            }
            off = off + csize as usize;
            k = k + 1;
        }
        assert(replace_fits(cs1, pold, pnew)) by {
            assert(forall|j: int|
                0 <= j < cs1.len() && chunk_matches(#[trigger] cs1[j], pold) ==> name_off_of(
                    cs1[j],
                    0,
                ) + pnew.len() + 1 + pad8(pnew.len() as int) <= cs1[j].len());
        }
        // Second pass: rebuild the command region with renamed commands.
        let mut buf: Vec<u8> = Vec::new();
        let ghost mut cs2: Seq<Seq<u8>> = Seq::empty();
        let mut off: usize = hs;
        let mut k: u32 = 0;
        while k < ncmds
            invariant
                parses(s1),
                s1 == self@,
                s1.len() <= usize::MAX,
                cs1 == cmds_of(s1),
                pob@ == pold,
                pnb@ == pnew,
                plen_new == pnew.len(),
                !pnew.contains(0u8),
                replace_fits(cs1, pold, pnew),
                ncmds == spec_ncmds(s1),
                soc == spec_sizeofcmds(s1),
                cs1.len() == ncmds,
                hs == header_size(s1),
                k <= ncmds,
                off == nth_cmd_off(s1, k as nat),
                cs2.len() == k,
                forall|j: int|
                    0 <= j < k ==> if chunk_matches(#[trigger] cs1[j], pold) {
                        renamed_chunk_ok(cs1[j], cs2[j], pnew)
                    } else {
                        cs2[j] == cs1[j]
                    },
                buf@ == chunks_concat(cs2),
                buf@.len() == chunks_concat(cs1.take(k as int)).len(),
            decreases ncmds - k,
        {
            proof {
                lemma_nth_chunk(s1, k as nat);
                lemma_concat_take(cs1, k as int);
            }
            let csize = read_u32(&self.data, off + 4);
            if cmd_matches_path(&self.data, off, pob) {
                let nameoff = read_u32(&self.data, off + 8) as usize;
                proof {
                    assert(chunk_matches(cs1[k as int], pold));
                    assert(cs1[k as int].len() >= 12) by {
                        assert(chunk_path(cs1[k as int]) == Some(pold));
                    }
                    assert(name_off_of(cs1[k as int], 0) + pnew.len() + 1 + pad8(
                        pnew.len() as int,
                    ) <= cs1[k as int].len());
                    assert(pad8(pnew.len() as int) >= 0);
                }
                let mut tmp = build_renamed_chunk(&self.data, off, csize as usize, nameoff, pnb);
                proof {
                    assert(renamed_chunk_ok(cs1[k as int], tmp@, pnew));
                    assert(chunks_concat(cs2.push(tmp@)) == chunks_concat(cs2) + tmp@) by {
                        assert(cs2.push(tmp@).drop_last() =~= cs2);
                    }
                    assert(forall|j: int| 0 <= j < k ==> cs2.push(tmp@)[j] == #[trigger] cs2[j]);
                    assert(cs2.push(tmp@)[k as int] == tmp@);
                    cs2 = cs2.push(tmp@);
                }
                buf.append(&mut tmp);
            } else {
                let mut tmp = copy_range(&self.data, off, off + csize as usize);
                proof {
                    assert(tmp@ == cs1[k as int]);
                    assert(chunks_concat(cs2.push(tmp@)) == chunks_concat(cs2) + tmp@) by {
                        assert(cs2.push(tmp@).drop_last() =~= cs2);
                    }
                    assert(forall|j: int| 0 <= j < k ==> cs2.push(tmp@)[j] == #[trigger] cs2[j]);
                    assert(cs2.push(tmp@)[k as int] == tmp@);
                    cs2 = cs2.push(tmp@);
                }
                buf.append(&mut tmp);
            }
            off = off + csize as usize;
            k = k + 1;
        }
        proof {
            assert(cs1.take(ncmds as int) =~= cs1);
        }
        let mut nd = copy_range(&self.data, 0, hs);
        let ghost pre = nd@;
        nd.append(&mut buf);
        let mut tail = copy_range(&self.data, rend, n);
        nd.append(&mut tail);
        proof {
            let s2 = nd@;
            assert(forall|i: int| 0 <= i < hs ==> s2[i] == s1[i]) by {
                assert(forall|i: int| 0 <= i < hs ==> pre[i] == s1[i]);
                assert(forall|i: int| 0 <= i < hs ==> s2[i] == pre[i]);
            }
            assert(s2.subrange(hs as int, rend as int) =~= chunks_concat(cs2));
            assert(s2.subrange(rend as int, s2.len() as int) =~= s1.subrange(
                rend as int,
                s1.len() as int,
            ));
            lemma_replace_assemble(s1, s2, cs2, pold, pnew);
        }
        self.data = nd;
        Ok(())
    }
}

// ------------------------------------------------------------------
// Laws relating the three mutations.
// ------------------------------------------------------------------

/// No command matches `p` exactly when the path list lacks `p`.
pub proof fn lemma_count_zero(cs: Seq<Seq<u8>>, p: Seq<u8>)
    ensures
        matching_count(cs, p) >= 0,
        (matching_count(cs, p) == 0) <==> !chunks_paths(cs).contains(p),
        matching_count(cs, p) == 0 ==> matching_size(cs, p) == 0,
    decreases cs.len(),
{
    if cs.len() == 0 {
    } else {
        let h = cs.drop_last();
        let c = cs.last();
        lemma_count_zero(h, p);
        let ph = chunks_paths(h);
        if chunk_matches(c, p) {
            assert(chunks_paths(cs).last() == p);
            assert(chunks_paths(cs).contains(p));
        } else if chunk_is_dylib(c) && chunk_path(c) is Some {
            let q = chunk_path(c)->Some_0;
            assert(q != p);
            if ph.contains(p) {
                let i = choose|i: int| 0 <= i < ph.len() && ph[i] == p;
                assert(chunks_paths(cs)[i] == p);
                assert(chunks_paths(cs).contains(p));
            } else {
                assert(!chunks_paths(cs).contains(p)) by {
                    assert(forall|i: int|
                        0 <= i < ph.len() ==> chunks_paths(cs)[i] == #[trigger] ph[i]);
                    assert(chunks_paths(cs)[ph.len() as int] == q);
                    assert(forall|i: int|
                        0 <= i < chunks_paths(cs).len() ==> #[trigger] chunks_paths(cs)[i] != p);
                }
            }
        } else {
            assert(chunks_paths(cs) == ph);
        }
    }
}

/// Adding a path that was absent and then removing it restores the
/// header counters, and the path is gone again.
pub proof fn lemma_add_remove_round_trip(s1: Seq<u8>, s2: Seq<u8>, s3: Seq<u8>, p: Seq<u8>)
    requires
        parses(s1),
        !has_dylib(s1, p),
        add_effect(s1, s2, p),
        remove_effect(s2, s3, p),
    ensures
        has_dylib(s2, p),
        spec_ncmds(s3) == spec_ncmds(s1),
        spec_sizeofcmds(s3) == spec_sizeofcmds(s1),
        s3.len() == s1.len() - new_cmd_size(p),
        !has_dylib(s3, p),
{
    let cs1 = cmds_of(s1);
    let c = choose|c: Seq<u8>|
        cmds_of(s2) == cmds_of(s1).push(c) && #[trigger] is_weak_dylib_chunk_for(c, p);
    let cs2 = cmds_of(s2);
    assert(dylib_paths(s2).last() == p);
    assert(has_dylib(s2, p));
    lemma_count_zero(cs1, p);
    assert(matching_count(cs1, p) == 0 && matching_size(cs1, p) == 0);
    assert(chunk_matches(c, p));
    assert(matching_count(cs2, p) == 1 && matching_size(cs2, p) == c.len()) by {
        assert(cs2.drop_last() =~= cs1);
        assert(cs2.last() == c);
    }
}

/// After an insertion the path is present, so a repeated insertion is
/// the no-op its contract promises.
pub proof fn lemma_add_idempotent(s1: Seq<u8>, s2: Seq<u8>, p: Seq<u8>)
    requires
        parses(s1),
        add_effect(s1, s2, p),
    ensures
        has_dylib(s2, p),
{
    assert(dylib_paths(s2).last() == p);
}

/// A successful rename leaves no command carrying the old path, and a
/// command that carried it now carries the new one.
pub proof fn lemma_replace_swaps_paths(s1: Seq<u8>, s2: Seq<u8>, pold: Seq<u8>, pnew: Seq<u8>)
    requires
        parses(s1),
        replace_effect(s1, s2, pold, pnew),
        pold != pnew,
    ensures
        !has_dylib(s2, pold),
        has_dylib(s1, pold) ==> has_dylib(s2, pnew),
{
    let p1 = dylib_paths(s1);
    let p2 = dylib_paths(s2);
    assert(forall|i: int| 0 <= i < p2.len() ==> #[trigger] p2[i] != pold) by {
        assert(forall|i: int|
            0 <= i < p1.len() ==> #[trigger] p2[i] == (if p1[i] == pold {
                pnew
            } else {
                p1[i]
            }));
    }
    if p1.contains(pold) {
        let i = choose|i: int| 0 <= i < p1.len() && p1[i] == pold;
        assert(p2[i] == pnew);
        assert(p2.contains(pnew));
    }
}

// ------------------------------------------------------------------
// Embedded code-signature entitlements.
// ------------------------------------------------------------------

/// The data range named by the first LC_CODE_SIGNATURE command among the
/// first `n` commands.
pub open spec fn code_sig_range_upto(s: Seq<u8>, n: nat) -> Option<(int, int)>
    decreases n,
{
    if n == 0 {
        None
    } else {
        match code_sig_range_upto(s, (n - 1) as nat) {
            Some(r) => Some(r),
            None => {
                let off = nth_cmd_off(s, (n - 1) as nat);
                if cmd_of(s, off) == LC_CODE_SIGNATURE && cmdsize_of(s, off) >= 16 {
                    Some((le32(s, off + 8), le32(s, off + 12)))
                } else {
                    None
                }
            },
        }
    }
}

/// The code-signature data range of the image.
pub open spec fn code_sig_range(s: Seq<u8>) -> Option<(int, int)> {
    code_sig_range_upto(s, spec_ncmds(s) as nat)
}

/// The blob offset named by the first entitlements entry among the first
/// `i` superblob index entries at `base`.
pub open spec fn ent_entry_upto(s: Seq<u8>, base: int, i: nat) -> Option<int>
    decreases i,
{
    if i == 0 {
        None
    } else {
        match ent_entry_upto(s, base, (i - 1) as nat) {
            Some(r) => Some(r),
            None => {
                let e = base + 12 + 8 * ((i - 1) as int);
                if be32(s, e) == 5 {
                    Some(be32(s, e + 4))
                } else {
                    None
                }
            },
        }
    }
}

/// The XML bytes of the embedded entitlements blob, when the image has a
/// code signature whose superblob carries one.
pub open spec fn entitlements_xml(s: Seq<u8>) -> Option<Seq<u8>> {
    match code_sig_range(s) {
        None => None,
        Some((doff, dsize)) => {
            if doff + dsize <= s.len() && dsize >= 12 && be32(s, doff) == 0xfade0cc0 {
                let count = be32(s, doff + 8);
                if 12 + 8 * count <= dsize {
                    match ent_entry_upto(s, doff, count as nat) {
                        None => None,
                        Some(boff) => {
                            if 0 <= boff && boff + 8 <= dsize && be32(s, doff + boff)
                                == 0xfade7171 {
                                let blen = be32(s, doff + boff + 4);
                                if blen >= 8 && boff + blen <= dsize {
                                    Some(s.subrange(doff + boff + 8, doff + boff + blen))
                                } else {
                                    None
                                }
                            } else {
                                None
                            }
                        },
                    }
                } else {
                    None
                }
            } else {
                None
            }
        },
    }
}

impl MachOBinary {
    /// The code-signature data range, walking the command table.
    fn find_code_sig_range(&self) -> (r: Option<(u32, u32)>)
        requires
            parses(self@),
        ensures
            r matches Some(dd) ==> code_sig_range(self@) == Some((dd.0 as int, dd.1 as int)),
            r is None ==> code_sig_range(self@) is None,
    {
        let ghost s = self@;
        let n = self.data.len();
        let magic = read_u32(&self.data, 0);
        let hs: usize = if magic == MH_MAGIC_64 {
            32
        } else {
            28
        };
        let ncmds = read_u32(&self.data, 16);
        let mut off: usize = hs;
        let mut k: u32 = 0;
        proof {
            lemma_decompose(s);
        }
        while k < ncmds
            invariant
                parses(s),
                s == self@,
                s.len() <= usize::MAX,
                ncmds == spec_ncmds(s),
                cmds_of(s).len() == ncmds,
                k <= ncmds,
                off == nth_cmd_off(s, k as nat),
                code_sig_range_upto(s, k as nat) is None,
            decreases ncmds - k,
        {
            proof {
                lemma_nth_chunk(s, k as nat);
            }
            let cmd = read_u32(&self.data, off);
            let csize = read_u32(&self.data, off + 4);
            if cmd == LC_CODE_SIGNATURE && csize >= 16 {
                let doff = read_u32(&self.data, off + 8);
                let dsize = read_u32(&self.data, off + 12);
                assert(code_sig_range_upto(s, (k + 1) as nat) == Some(
                    (doff as int, dsize as int),
                ));
                proof {
                    lemma_code_sig_stable(s, (k + 1) as nat, spec_ncmds(s) as nat);
                }
                return Some((doff, dsize));
            }
            off = off + csize as usize;
            k = k + 1;
        }
        None
    }

    /// The raw XML bytes of the embedded entitlements, when present.
    /// An unsigned image, or one without an entitlements blob, gives
    /// nothing; that is not an error.
    #[verifier::rlimit(30)]
    pub fn embedded_entitlements(&self) -> (r: Option<Vec<u8>>)
        requires
            parses(self@),
        ensures
            r matches Some(v) ==> entitlements_xml(self@) == Some(v@),
            r is None ==> entitlements_xml(self@) is None,
    {
        let ghost s = self@;
        let n = self.data.len();
        let (doff32, dsize32) = match self.find_code_sig_range() {
            Some(dd) => dd,
            None => {
                return None;
            },
        };
        let doff = doff32 as usize;
        let dsize = dsize32 as usize;
        if !(doff as u64 + dsize as u64 <= n as u64 && dsize >= 12) {
            return None;
        }
        if read_u32_be(&self.data, doff) != 0xfade0cc0 {
            return None;
        }
        let count = read_u32_be(&self.data, doff + 8);
        if 12 + 8 * (count as u64) > dsize as u64 {
            return None;
        }
        let boff = match find_ent_entry(&self.data, doff, dsize, count) {
            Some(b) => b as usize,
            None => {
                return None;
            },
        };
        if !(boff as u64 + 8 <= dsize as u64) {
            return None;
        }
        if read_u32_be(&self.data, doff + boff) != 0xfade7171 {
            return None;
        }
        let blen = read_u32_be(&self.data, doff + boff + 4) as usize;
        if blen < 8 || (boff as u64 + blen as u64) > dsize as u64 {
            return None;
        }
        let v = copy_range(&self.data, doff + boff + 8, doff + boff + blen);
        Some(v)
    }
}

/// Scans a superblob index for the entitlements entry.
fn find_ent_entry(data: &Vec<u8>, doff: usize, dsize: usize, count: u32) -> (r: Option<u32>)
    requires
        doff + dsize <= data@.len(),
        dsize >= 12,
        12 + 8 * (count as int) <= dsize,
    ensures
        r matches Some(b) ==> ent_entry_upto(data@, doff as int, count as nat) == Some(b as int),
        r is None ==> ent_entry_upto(data@, doff as int, count as nat) is None,
{
    let ghost s = data@;
    let n = data.len();
    let mut i: u32 = 0;
    while i < count
        invariant
            s == data@,
            s.len() <= usize::MAX,
            doff + dsize <= s.len(),
            dsize >= 12,
            12 + 8 * (count as int) <= dsize,
            i <= count,
            ent_entry_upto(s, doff as int, i as nat) is None,
        decreases count - i,
    {
        let e = doff + 12 + 8 * (i as usize);
        let ty = read_u32_be(data, e);
        if ty == 5 {
            let boff = read_u32_be(data, e + 4);
            assert(ent_entry_upto(s, doff as int, (i + 1) as nat) == Some(boff as int));
            proof {
                lemma_ent_entry_stable(s, doff as int, (i + 1) as nat, count as nat);
            }
            return Some(boff);
        }
        i = i + 1;
    }
    None
}

/// Once a code-signature command is found, later commands do not change
/// the result.
proof fn lemma_code_sig_stable(s: Seq<u8>, k: nat, n: nat)
    requires
        k <= n,
        code_sig_range_upto(s, k) is Some,
    ensures
        code_sig_range_upto(s, n) == code_sig_range_upto(s, k),
    decreases n,
{
    if n > k {
        lemma_code_sig_stable(s, k, (n - 1) as nat);
    }
}

/// Once an entitlements entry is found, later entries do not change the
/// result.
proof fn lemma_ent_entry_stable(s: Seq<u8>, base: int, i: nat, n: nat)
    requires
        i <= n,
        ent_entry_upto(s, base, i) is Some,
    ensures
        ent_entry_upto(s, base, n) == ent_entry_upto(s, base, i),
    decreases n,
{
    if n > i {
        lemma_ent_entry_stable(s, base, i, (n - 1) as nat);
    }
}

// ------------------------------------------------------------------
// Universal (fat) images: one or more architecture slices.
// ------------------------------------------------------------------

pub const FAT_MAGIC: u32 = 0xcafebabe;

/// Whether a buffer opens with the fat-container magic.
pub open spec fn is_fat(s: Seq<u8>) -> bool {
    s.len() >= 8 && be32(s, 0) == FAT_MAGIC
}

/// One slice entry of a fat table is in bounds and parses.
pub open spec fn fat_slice_ok(s: Seq<u8>, i: int) -> bool {
    let off = be32(s, 8 + 20 * i + 8);
    let size = be32(s, 8 + 20 * i + 12);
    &&& off + size <= s.len()
    &&& parses(s.subrange(off, off + size))
}

/// A well-formed universal container: the magic, at least one slice, the
/// table inside the buffer, and every slice in bounds and parsing.
pub open spec fn fat_wf(s: Seq<u8>) -> bool {
    &&& is_fat(s)
    &&& 1 <= be32(s, 4)
    &&& 8 + 20 * be32(s, 4) <= s.len()
    &&& forall|i: int| 0 <= i < be32(s, 4) ==> fat_slice_ok(s, i)
}

/// One architecture slice of a universal image.
pub struct ArchSlice {
    pub cputype: u32,
    pub cpusubtype: u32,
    pub image: MachOBinary,
}

/// A Mach-O file: a single image or a universal container of slices.
pub struct MachO {
    slices: Vec<ArchSlice>,
}

impl MachO {
    /// How many architecture slices the file carries.
    pub closed spec fn arch_count(&self) -> int {
        self.slices@.len() as int
    }

    /// The bytes of one slice.
    pub closed spec fn slice_bytes(&self, i: int) -> Seq<u8> {
        self.slices@[i].image@
    }

    /// The recorded processor type of one slice.
    pub closed spec fn slice_cputype(&self, i: int) -> int {
        self.slices@[i].cputype as int
    }

    /// The recorded processor subtype of one slice.
    pub closed spec fn slice_cpusubtype(&self, i: int) -> int {
        self.slices@[i].cpusubtype as int
    }

    /// Every slice is a well-formed single-architecture image.
    pub open spec fn wf(&self) -> bool {
        &&& 1 <= self.arch_count()
        &&& forall|i: int| 0 <= i < self.arch_count() ==> parses(#[trigger] self.slice_bytes(i))
    }

    /// How many slices the file has.
    pub fn arch_len(&self) -> (r: usize)
        ensures
            r == self.arch_count(),
    {
        self.slices.len()
    }

    /// Borrows one slice's image.
    pub fn slice_at(&self, i: usize) -> (r: &MachOBinary)
        requires
            0 <= i < self.arch_count(),
        ensures
            r@ == self.slice_bytes(i as int),
    {
        &self.slices[i].image
    }

    /// Parses a file: a fat container is split into its recorded slices,
    /// each of which must parse; anything else must itself parse as a
    /// single-architecture image.
    pub fn parse(data: Vec<u8>) -> (r: Result<MachO, Error>)
        ensures
            r matches Ok(m) ==> m.wf(),
            r matches Ok(m) ==> (!is_fat(data@) ==> m.arch_count() == 1 && m.slice_bytes(0)
                == data@),
            r matches Ok(m) ==> (is_fat(data@) ==> {
                &&& m.arch_count() == be32(data@, 4)
                &&& forall|i: int|
                    0 <= i < m.arch_count() ==> #[trigger] m.slice_bytes(i) == data@.subrange(
                        be32(data@, 8 + 20 * i + 8),
                        be32(data@, 8 + 20 * i + 8) + be32(data@, 8 + 20 * i + 12),
                    ) && m.slice_cputype(i) == be32(data@, 8 + 20 * i) && m.slice_cpusubtype(i)
                        == be32(data@, 8 + 20 * i + 4)
            }),
            (!is_fat(data@) && !parses(data@)) ==> r is Err,
            (!is_fat(data@) && parses(data@)) ==> r is Ok,
            (is_fat(data@) && fat_wf(data@)) ==> r is Ok,
    {
        let n = data.len();
        if n >= 8 {
            let magic = read_u32_be(&data, 0);
            if magic == FAT_MAGIC {
                let nfat = read_u32_be(&data, 4);
                if nfat == 0 {
                    return Err(Error::Parse);
                }
                if 8 + 20 * (nfat as u64) > n as u64 {
                    return Err(Error::Parse);
                }
                assert(is_fat(data@) && nfat == be32(data@, 4));
                let mut slices: Vec<ArchSlice> = Vec::new();
                let mut i: u32 = 0;
                while i < nfat
                    invariant
                        n == data@.len(),
                        n <= usize::MAX,
                        is_fat(data@),
                        nfat == be32(data@, 4),
                        1 <= nfat,
                        8 + 20 * (nfat as int) <= n,
                        i <= nfat,
                        slices@.len() == i,
                        forall|j: int|
                            0 <= j < i ==> parses(#[trigger] slices@[j].image@),
                        forall|j: int|
                            0 <= j < i ==> #[trigger] slices@[j].image@ == data@.subrange(
                                be32(data@, 8 + 20 * j + 8),
                                be32(data@, 8 + 20 * j + 8) + be32(data@, 8 + 20 * j + 12),
                            ) && slices@[j].cputype == be32(data@, 8 + 20 * j)
                                && slices@[j].cpusubtype == be32(data@, 8 + 20 * j + 4),
                    decreases nfat - i,
                {
                    let e = 8 + 20 * (i as usize);
                    let cputype = read_u32_be(&data, e);
                    let cpusubtype = read_u32_be(&data, e + 4);
                    let off = read_u32_be(&data, e + 8);
                    let size = read_u32_be(&data, e + 12);
                    if off as u64 + size as u64 > n as u64 {
                        proof {
                            assert(!fat_wf(data@)) by {
                                if fat_wf(data@) {
                                    assert(fat_slice_ok(data@, i as int));
                                }
                            }
                        }
                        return Err(Error::Parse);
                    }
                    let bytes = copy_range(&data, off as usize, off as usize + size as usize);
                    assert(bytes@ =~= data@.subrange(
                        be32(data@, 8 + 20 * (i as int) + 8),
                        be32(data@, 8 + 20 * (i as int) + 8) + be32(
                            data@,
                            8 + 20 * (i as int) + 12,
                        ),
                    ));
                    let image = match MachOBinary::parse(bytes) {
                        Ok(im) => im,
                        Err(_) => {
                            proof {
                                assert(!fat_wf(data@)) by {
                                    if fat_wf(data@) {
                                        assert(fat_slice_ok(data@, i as int));
                                    }
                                }
                            }
                            return Err(Error::Parse);
                        },
                    };
                    slices.push(ArchSlice { cputype, cpusubtype, image });
                    i = i + 1;
                }
                return Ok(MachO { slices });
            }
        }
        let n2 = data.len();
        let ghost dv = data@;
        let mut cputype: u32 = 0;
        let mut cpusubtype: u32 = 0;
        if n2 >= 12 {
            cputype = read_u32(&data, 4);
            cpusubtype = read_u32(&data, 8);
        }
        let image = match MachOBinary::parse(data) {
            Ok(im) => im,
            Err(_) => {
                return Err(Error::Parse);
            },
        };
        let mut slices: Vec<ArchSlice> = Vec::new();
        slices.push(ArchSlice { cputype, cpusubtype, image });
        Ok(MachO { slices })
    }

    /// Adds `path` as a weak dylib load command to every slice; nothing
    /// is touched unless every slice either already has it or has room.
    pub fn add_dylib(&mut self, path: &str) -> (r: Result<(), Error>)
        requires
            old(self).wf(),
            !path.spec_bytes().contains(0u8),
        ensures
            final(self).wf(),
            final(self).arch_count() == old(self).arch_count(),
            r is Ok <==> (forall|i: int|
                0 <= i < old(self).arch_count() ==> has_dylib(
                    #[trigger] old(self).slice_bytes(i),
                    path.spec_bytes(),
                ) || fits_gap(old(self).slice_bytes(i), path.spec_bytes())),
            r is Ok ==> forall|i: int|
                0 <= i < old(self).arch_count() ==> if has_dylib(
                    #[trigger] old(self).slice_bytes(i),
                    path.spec_bytes(),
                ) {
                    final(self).slice_bytes(i) == old(self).slice_bytes(i)
                } else {
                    add_effect(
                        old(self).slice_bytes(i),
                        final(self).slice_bytes(i),
                        path.spec_bytes(),
                    )
                },
            r is Err ==> *final(self) == *old(self),
            r matches Err(e) ==> e is Capacity,
    {
        let ghost p = path.spec_bytes();
        let count = self.slices.len();
        let mut i: usize = 0;
        while i < count
            invariant
                self == old(self),
                self.wf(),
                p == path.spec_bytes(),
                count == self.arch_count(),
                i <= count,
                forall|j: int|
                    0 <= j < i ==> has_dylib(#[trigger] self.slice_bytes(j), p) || fits_gap(
                        self.slice_bytes(j),
                        p,
                    ),
            decreases count - i,
        {
            assert(parses(self.slice_bytes(i as int)));
            if !self.slices[i].image.has_dylib_load_path(path) {
                if !self.slices[i].image.gap_fits(path) {
                    return Err(Error::Capacity);
                }
            }
            i = i + 1;
        }
        let mut out: Vec<ArchSlice> = Vec::new();
        let mut i: usize = 0;
        while i < count
            invariant
                self.wf(),
                self == old(self),
                p == path.spec_bytes(),
                !p.contains(0u8),
                count == self.arch_count(),
                i <= count,
                out@.len() == i,
                forall|j: int|
                    0 <= j < count ==> has_dylib(#[trigger] self.slice_bytes(j), p) || fits_gap(
                        self.slice_bytes(j),
                        p,
                    ),
                forall|j: int|
                    0 <= j < i ==> parses(#[trigger] out@[j].image@) && out@[j].cputype
                        == self.slices@[j].cputype && out@[j].cpusubtype
                        == self.slices@[j].cpusubtype,
                forall|j: int|
                    0 <= j < i ==> if has_dylib(#[trigger] self.slice_bytes(j), p) {
                        out@[j].image@ == self.slice_bytes(j)
                    } else {
                        add_effect(self.slice_bytes(j), out@[j].image@, p)
                    },
            decreases count - i,
        {
            assert(parses(self.slice_bytes(i as int)));
            let sl = &self.slices[i];
            let bytes = copy_range(sl.image.bytes(), 0, sl.image.bytes().len());
            assert(bytes@ =~= self.slice_bytes(i as int));
            let mut image = match MachOBinary::parse(bytes) {
                Ok(im) => im,
                Err(_) => {
                    proof {
                        assert(false);
                    }
                    return Err(Error::Capacity);
                },
            };
            let res = image.add_dylib_load_path(path);
            proof {
                assert(res is Ok);
            }
            out.push(ArchSlice { cputype: sl.cputype, cpusubtype: sl.cpusubtype, image });
            i = i + 1;
        }
        self.slices = out;
        Ok(())
    }

    /// Removes every dylib load command carrying `path` from every slice.
    pub fn remove_dylib(&mut self, path: &str) -> (r: Result<(), Error>)
        requires
            old(self).wf(),
        ensures
            r is Ok,
            final(self).wf(),
            final(self).arch_count() == old(self).arch_count(),
            forall|i: int|
                0 <= i < old(self).arch_count() ==> remove_effect(
                    #[trigger] old(self).slice_bytes(i),
                    final(self).slice_bytes(i),
                    path.spec_bytes(),
                ),
    {
        let ghost p = path.spec_bytes();
        let count = self.slices.len();
        let mut out: Vec<ArchSlice> = Vec::new();
        let mut i: usize = 0;
        while i < count
            invariant
                self.wf(),
                self == old(self),
                p == path.spec_bytes(),
                count == self.arch_count(),
                i <= count,
                out@.len() == i,
                forall|j: int|
                    0 <= j < i ==> parses(#[trigger] out@[j].image@) && out@[j].cputype
                        == self.slices@[j].cputype && out@[j].cpusubtype
                        == self.slices@[j].cpusubtype,
                forall|j: int|
                    0 <= j < i ==> remove_effect(#[trigger] self.slice_bytes(j), out@[j].image@, p),
            decreases count - i,
        {
            assert(parses(self.slice_bytes(i as int)));
            let sl = &self.slices[i];
            let bytes = copy_range(sl.image.bytes(), 0, sl.image.bytes().len());
            assert(bytes@ =~= self.slice_bytes(i as int));
            let mut image = match MachOBinary::parse(bytes) {
                Ok(im) => im,
                Err(_) => {
                    proof {
                        assert(false);
                    }
                    return Err(Error::Capacity);
                },
            };
            let res = image.remove_dylib_load_path(path);
            out.push(ArchSlice { cputype: sl.cputype, cpusubtype: sl.cpusubtype, image });
            i = i + 1;
        }
        self.slices = out;
        Ok(())
    }

    /// Renames every dylib load command carrying `old_path` in every
    /// slice; nothing is touched unless every slice has room everywhere.
    pub fn replace_dylib(&mut self, old_path: &str, new_path: &str) -> (r: Result<(), Error>)
        requires
            old(self).wf(),
            !new_path.spec_bytes().contains(0u8),
        ensures
            final(self).wf(),
            final(self).arch_count() == old(self).arch_count(),
            r is Ok <==> (forall|i: int|
                0 <= i < old(self).arch_count() ==> replace_fits(
                    cmds_of(#[trigger] old(self).slice_bytes(i)),
                    old_path.spec_bytes(),
                    new_path.spec_bytes(),
                )),
            r is Ok ==> forall|i: int|
                0 <= i < old(self).arch_count() ==> replace_effect(
                    #[trigger] old(self).slice_bytes(i),
                    final(self).slice_bytes(i),
                    old_path.spec_bytes(),
                    new_path.spec_bytes(),
                ),
            r is Err ==> *final(self) == *old(self),
            r matches Err(e) ==> e is Capacity,
    {
        let ghost pold = old_path.spec_bytes();
        let ghost pnew = new_path.spec_bytes();
        let count = self.slices.len();
        let mut i: usize = 0;
        while i < count
            invariant
                self == old(self),
                self.wf(),
                pold == old_path.spec_bytes(),
                pnew == new_path.spec_bytes(),
                count == self.arch_count(),
                i <= count,
                forall|j: int|
                    0 <= j < i ==> replace_fits(
                        cmds_of(#[trigger] self.slice_bytes(j)),
                        pold,
                        pnew,
                    ),
            decreases count - i,
        {
            assert(parses(self.slice_bytes(i as int)));
            if !self.slices[i].image.rename_fits(old_path, new_path) {
                return Err(Error::Capacity);
            }
            i = i + 1;
        }
        let mut out: Vec<ArchSlice> = Vec::new();
        let mut i: usize = 0;
        while i < count
            invariant
                self.wf(),
                self == old(self),
                pold == old_path.spec_bytes(),
                pnew == new_path.spec_bytes(),
                !pnew.contains(0u8),
                count == self.arch_count(),
                i <= count,
                out@.len() == i,
                forall|j: int|
                    0 <= j < count ==> replace_fits(
                        cmds_of(#[trigger] self.slice_bytes(j)),
                        pold,
                        pnew,
                    ),
                forall|j: int|
                    0 <= j < i ==> parses(#[trigger] out@[j].image@) && out@[j].cputype
                        == self.slices@[j].cputype && out@[j].cpusubtype
                        == self.slices@[j].cpusubtype,
                forall|j: int|
                    0 <= j < i ==> replace_effect(
                        #[trigger] self.slice_bytes(j),
                        out@[j].image@,
                        pold,
                        pnew,
                    ),
            decreases count - i,
        {
            assert(parses(self.slice_bytes(i as int)));
            let sl = &self.slices[i];
            let bytes = copy_range(sl.image.bytes(), 0, sl.image.bytes().len());
            assert(bytes@ =~= self.slice_bytes(i as int));
            let mut image = match MachOBinary::parse(bytes) {
                Ok(im) => im,
                Err(_) => {
                    proof {
                        assert(false);
                    }
                    return Err(Error::Capacity);
                },
            };
            let res = image.replace_dylib_load_path(old_path, new_path);
            proof {
                assert(res is Ok);
            }
            out.push(ArchSlice { cputype: sl.cputype, cpusubtype: sl.cpusubtype, image });
            i = i + 1;
        }
        self.slices = out;
        Ok(())
    }
}


/// Whether renaming the command at `off` to carry `pnew` stays within
/// its slot, vacuously true for commands that do not carry `pold`.
fn rename_slot_ok(data: &Vec<u8>, off: usize, pold: &[u8], pnew: &[u8]) -> (b: bool)
    requires
        off + 8 <= data@.len(),
        8 <= cmdsize_of(data@, off as int),
        off + cmdsize_of(data@, off as int) <= data@.len(),
    ensures
        b == ((is_dylib_cmd(data@, off as int) && path_at(data@, off as int) == Some(pold@))
            ==> name_off_of(data@, off as int) + pnew@.len() + 1 + pad8(pnew@.len() as int)
            <= cmdsize_of(data@, off as int)),
{
    if !cmd_matches_path(data, off, pold) {
        return true;
    }
    let n = data.len();
    let csize = read_u32(data, off + 4);
    let nameoff = read_u32(data, off + 8);
    let plen = pnew.len();
    if plen as u64 >= 0x100000000u64 {
        assert(nameoff >= 0 && pad8(pnew@.len() as int) >= 0);
        return false;
    }
    let pad = (8 - ((plen as u64 + 1) % 8)) % 8;
    assert(pad == pad8(pnew@.len() as int));
    nameoff as u64 + plen as u64 + 1 + pad <= csize as u64
}

impl MachOBinary {
    /// Whether a fresh command for `path` would fit in the gap.
    pub fn gap_fits(&self, path: &str) -> (b: bool)
        requires
            parses(self@),
        ensures
            b == fits_gap(self@, path.spec_bytes()),
    {
        let pb = path.as_bytes();
        let plen = pb.len();
        if plen as u64 > 0xffffffffu64 - 32 {
            return false;
        }
        let pad = (8 - ((plen + 1) % 8)) % 8;
        let csize_new = 24 + plen + 1 + pad;
        assert(csize_new == new_cmd_size(path.spec_bytes()));
        let ae = self.compute_avail_end();
        let n = self.data.len();
        let magic = read_u32(&self.data, 0);
        let ncmds = read_u32(&self.data, 16);
        let soc = read_u32(&self.data, 20);
        let hs: usize = if magic == MH_MAGIC_64 {
            32
        } else {
            28
        };
        let rend = hs + soc as usize;
        if ncmds == 0xffffffff {
            return false;
        }
        if (soc as u64) + (csize_new as u64) > 0xffffffff {
            return false;
        }
        if (rend as u64) + (csize_new as u64) > ae {
            return false;
        }
        true
    }

    /// Whether `new_path` fits into every command carrying `old_path`.
    #[verifier::spinoff_prover]
    #[verifier::rlimit(100)]
    pub fn rename_fits(&self, old_path: &str, new_path: &str) -> (b: bool)
        requires
            parses(self@),
        ensures
            b == replace_fits(cmds_of(self@), old_path.spec_bytes(), new_path.spec_bytes()),
    {
        let ghost s1 = self@;
        let ghost cs1 = cmds_of(s1);
        let ghost pold = old_path.spec_bytes();
        let ghost pnew = new_path.spec_bytes();
        let pob = old_path.as_bytes();
        let pnb = new_path.as_bytes();
        let n = self.data.len();
        let magic = read_u32(&self.data, 0);
        let hs: usize = if magic == MH_MAGIC_64 {
            32
        } else {
            28
        };
        let ncmds = read_u32(&self.data, 16);
        let mut off: usize = hs;
        let mut k: u32 = 0;
        proof {
            lemma_decompose(s1);
        }
        while k < ncmds
            invariant
                parses(s1),
                s1 == self@,
                s1.len() <= usize::MAX,
                cs1 == cmds_of(s1),
                pob@ == pold,
                pnb@ == pnew,
                pold == old_path.spec_bytes(),
                pnew == new_path.spec_bytes(),
                ncmds == spec_ncmds(s1),
                cs1.len() == ncmds,
                hs == header_size(s1),
                k <= ncmds,
                off == nth_cmd_off(s1, k as nat),
                forall|j: int|
                    0 <= j < k && chunk_matches(#[trigger] cs1[j], pold) ==> name_off_of(cs1[j], 0)
                        + pnew.len() + 1 + pad8(pnew.len() as int) <= cs1[j].len(),
            decreases ncmds - k,
        {
            proof {
                lemma_nth_chunk(s1, k as nat);
            }
            let csize = read_u32(&self.data, off + 4);
            if !rename_slot_ok(&self.data, off, pob, pnb) {
                proof {
                    assert(chunk_matches(cs1[k as int], pold));
                    assert(cs1[k as int].len() >= 12) by {
                        assert(chunk_path(cs1[k as int]) == Some(pold));
                    }
                    assert(name_off_of(cs1[k as int], 0) + pnew.len() + 1 + pad8(
                        pnew.len() as int,
                    ) > cs1[k as int].len());
                    assert(!replace_fits(cs1, pold, pnew));
                }
                return false;
            }
            off = off + csize as usize;
            k = k + 1;
        }
        assert(replace_fits(cs1, pold, pnew)) by {
            assert(forall|j: int|
                0 <= j < cs1.len() && chunk_matches(#[trigger] cs1[j], pold) ==> name_off_of(
                    cs1[j],
                    0,
                ) + pnew.len() + 1 + pad8(pnew.len() as int) <= cs1[j].len());
        }
        true
    }
}

impl MachO {
    /// The raw XML entitlements embedded in the first slice's code
    /// signature, if any.
    pub fn entitlements(&self) -> (r: Option<Vec<u8>>)
        requires
            self.wf(),
        ensures
            r matches Some(v) ==> entitlements_xml(self.slice_bytes(0)) == Some(v@),
            r is None ==> entitlements_xml(self.slice_bytes(0)) is None,
    {
        assert(parses(self.slice_bytes(0)));
        self.slices[0].image.embedded_entitlements()
    }
}

/// Appends a big-endian `u32`.
fn push_u32_be(v: &mut Vec<u8>, x: u32)
    ensures
        final(v)@.len() == old(v)@.len() + 4,
        final(v)@.subrange(0, old(v)@.len() as int) == old(v)@,
        be32(final(v)@, old(v)@.len() as int) == x,
{
    let b3 = (x % 0x100) as u8;
    let x1 = x / 0x100;
    let b2 = (x1 % 0x100) as u8;
    let x2 = x1 / 0x100;
    let b1 = (x2 % 0x100) as u8;
    let b0 = (x2 / 0x100) as u8;
    v.push(b0);
    v.push(b1);
    v.push(b2);
    v.push(b3);
    assert(v@.subrange(0, old(v)@.len() as int) =~= old(v)@);
}


/// Appends one 20-byte table entry.
fn push_entry(out: &mut Vec<u8>, a: u32, b: u32, c: u32, d: u32, e: u32)
    ensures
        final(out)@.len() == old(out)@.len() + 20,
        final(out)@.subrange(0, old(out)@.len() as int) == old(out)@,
        be32(final(out)@, old(out)@.len() as int) == a,
        be32(final(out)@, old(out)@.len() as int + 4) == b,
        be32(final(out)@, old(out)@.len() as int + 8) == c,
        be32(final(out)@, old(out)@.len() as int + 12) == d,
        be32(final(out)@, old(out)@.len() as int + 16) == e,
{
    let ghost l0 = out@.len() as int;
    push_u32_be(out, a);
    let ghost s1 = out@;
    push_u32_be(out, b);
    let ghost s2 = out@;
    push_u32_be(out, c);
    let ghost s3 = out@;
    push_u32_be(out, d);
    let ghost s4 = out@;
    push_u32_be(out, e);
    proof {
        assert(forall|t: int| 0 <= t < s4.len() ==> #[trigger] out@[t] == s4[t]) by {
            assert(forall|t: int|
                0 <= t < s4.len() ==> #[trigger] out@.subrange(0, s4.len() as int)[t]
                    == out@[t]);
        }
        assert(forall|t: int| 0 <= t < s3.len() ==> #[trigger] s4[t] == s3[t]) by {
            assert(forall|t: int|
                0 <= t < s3.len() ==> #[trigger] s4.subrange(0, s3.len() as int)[t] == s4[t]);
        }
        assert(forall|t: int| 0 <= t < s2.len() ==> #[trigger] s3[t] == s2[t]) by {
            assert(forall|t: int|
                0 <= t < s2.len() ==> #[trigger] s3.subrange(0, s2.len() as int)[t] == s3[t]);
        }
        assert(forall|t: int| 0 <= t < s1.len() ==> #[trigger] s2[t] == s1[t]) by {
            assert(forall|t: int|
                0 <= t < s1.len() ==> #[trigger] s2.subrange(0, s1.len() as int)[t] == s2[t]);
        }
        assert(out@.subrange(0, l0) =~= old(out)@);
        assert(be32(out@, l0) == a && be32(out@, l0 + 4) == b && be32(out@, l0 + 8) == c
            && be32(out@, l0 + 12) == d && be32(out@, l0 + 16) == e);
    }
}

/// The bytes of the first `n` slices, summed.
pub open spec fn slices_total(m: MachO, n: int) -> int
    decreases n,
{
    if n <= 0 {
        0
    } else {
        slices_total(m, n - 1) + m.slice_bytes(n - 1).len()
    }
}

/// The sum grows with the prefix.
pub proof fn lemma_slices_total_mono(m: MachO, a: int, b: int)
    requires
        0 <= a <= b,
    ensures
        0 <= slices_total(m, a) <= slices_total(m, b),
    decreases b,
{
    if b > 0 {
        if a == b {
            lemma_slices_total_mono(m, a - 1, b - 1);
        } else {
            lemma_slices_total_mono(m, a, b - 1);
        }
    }
}

/// Whether the packed layout of all slices stays within the container
/// format's 32-bit offsets.
pub open spec fn fat_layout_fits(m: MachO) -> bool {
    &&& m.arch_count() <= 0xffff
    &&& 8 + 20 * m.arch_count() + slices_total(m, m.arch_count()) <= 0xffffffff
}

/// One entry of the output's own table placed and filled correctly: the
/// recorded kind and size, and the slice bytes at the recorded offset.
pub open spec fn fat_entry_ok(out: Seq<u8>, m: MachO, j: int) -> bool {
    let e = 8 + 20 * j;
    &&& be32(out, e) == m.slice_cputype(j)
    &&& be32(out, e + 4) == m.slice_cpusubtype(j)
    &&& be32(out, e + 12) == m.slice_bytes(j).len()
    &&& be32(out, e + 8) + m.slice_bytes(j).len() <= out.len()
    &&& out.subrange(be32(out, e + 8), be32(out, e + 8) + m.slice_bytes(j).len() as int)
        == m.slice_bytes(j)
}


/// A 32-bit read is stable when the prefix holding it is unchanged.
pub proof fn lemma_be32_prefix(s1: Seq<u8>, s2: Seq<u8>, off: int)
    requires
        0 <= off,
        off + 4 <= s1.len(),
        forall|x: int| 0 <= x < s1.len() ==> #[trigger] s2[x] == s1[x],
    ensures
        be32(s2, off) == be32(s1, off),
{
    assert(s2[off] == s1[off] && s2[off + 1] == s1[off + 1] && s2[off + 2] == s1[off + 2] && s2[off
        + 3] == s1[off + 3]);
}

/// One table entry holding the given slice's kind, offset and size.
pub open spec fn table_entry_ok(t: Seq<u8>, m: MachO, offs: Seq<u64>, j: int) -> bool {
    let e = 8 + 20 * j;
    &&& be32(t, e) == m.slice_cputype(j)
    &&& be32(t, e + 4) == m.slice_cpusubtype(j)
    &&& be32(t, e + 8) == offs[j]
    &&& be32(t, e + 12) == m.slice_bytes(j).len()
}

/// Builds the container's table: magic, count, one entry per slice with
/// the given offsets.
#[verifier::rlimit(100)]
fn build_fat_table(m: &MachO, offs: &Vec<u64>) -> (t: Vec<u8>)
    requires
        1 <= m.arch_count() <= 0xffff,
        offs@.len() == m.arch_count(),
        forall|j: int| 0 <= j < offs@.len() ==> #[trigger] offs@[j] <= 0xffffffff,
        forall|j: int|
            0 <= j < offs@.len() ==> #[trigger] m.slice_bytes(j).len() <= 0xffffffff,
    ensures
        t@.len() == 8 + 20 * m.arch_count(),
        be32(t@, 0) == FAT_MAGIC,
        be32(t@, 4) == m.arch_count(),
        forall|j: int| 0 <= j < m.arch_count() ==> table_entry_ok(t@, *m, offs@, j),
{
    let n = m.arch_len();
    let mut t: Vec<u8> = Vec::new();
    push_u32_be(&mut t, FAT_MAGIC);
    push_u32_be(&mut t, n as u32);
    let mut i: usize = 0;
    while i < n
        invariant
            i <= n,
            n == m.arch_count(),
            1 <= n <= 0xffff,
            offs@.len() == n,
            forall|j: int| 0 <= j < offs@.len() ==> #[trigger] offs@[j] <= 0xffffffff,
            forall|j: int|
                0 <= j < offs@.len() ==> #[trigger] m.slice_bytes(j).len() <= 0xffffffff,
            t@.len() == 8 + 20 * (i as int),
            be32(t@, 0) == FAT_MAGIC,
            be32(t@, 4) == n,
            forall|j: int| 0 <= j < i ==> table_entry_ok(t@, *m, offs@, j),
        decreases n - i,
    {
        let ghost prev = t@;
        proof {
            assert(offs@[i as int] <= 0xffffffff);
            assert(m.slice_bytes(i as int).len() <= 0xffffffff);
        }
        let len_i = m.slice_at(i).bytes().len();
        assert(len_i == m.slice_bytes(i as int).len());
        let (cputype, cpusubtype) = m.slice_cpu(i);
        push_entry(&mut t, cputype, cpusubtype, offs[i] as u32, len_i as u32, 0);
        proof {
            assert(forall|x: int| 0 <= x < prev.len() ==> #[trigger] t@[x] == prev[x]) by {
                assert(forall|x: int|
                    0 <= x < prev.len() ==> #[trigger] t@.subrange(0, prev.len() as int)[x]
                        == t@[x]);
            }
            assert(be32(t@, 8 + 20 * (i as int) + 8) == offs@[i as int]);
            assert(be32(t@, 8 + 20 * (i as int) + 12) == m.slice_bytes(i as int).len());
            assert(be32(t@, 8 + 20 * (i as int)) == m.slice_cputype(i as int));
            assert(be32(t@, 8 + 20 * (i as int) + 4) == m.slice_cpusubtype(i as int));
            assert forall|j: int| 0 <= j < i + 1 implies table_entry_ok(t@, *m, offs@, j) by {
                if j < i {
                    assert(table_entry_ok(prev, *m, offs@, j));
                    lemma_be32_prefix(prev, t@, 8 + 20 * j);
                    lemma_be32_prefix(prev, t@, 8 + 20 * j + 4);
                    lemma_be32_prefix(prev, t@, 8 + 20 * j + 8);
                    lemma_be32_prefix(prev, t@, 8 + 20 * j + 12);
                }
            }
        }
        i += 1;
    }
    t
}


/// The assembled container satisfies its own table: the placement facts
/// of the byte-for-byte table prefix carry over to the whole buffer.
#[verifier::rlimit(100)]
proof fn lemma_fat_assembled(out: Seq<u8>, table: Seq<u8>, m: MachO, offs: Seq<u64>)
    requires
        table.len() == 8 + 20 * m.arch_count(),
        1 <= m.arch_count(),
        table.len() <= out.len(),
        offs.len() == m.arch_count(),
        forall|x: int| 0 <= x < table.len() ==> #[trigger] out[x] == table[x],
        be32(table, 0) == FAT_MAGIC,
        be32(table, 4) == m.arch_count(),
        forall|j: int| 0 <= j < m.arch_count() ==> table_entry_ok(table, m, offs, j),
        forall|j: int|
            0 <= j < m.arch_count() ==> #[trigger] offs[j] + m.slice_bytes(j).len()
                <= out.len(),
        forall|j: int|
            0 <= j < m.arch_count() ==> #[trigger] out.subrange(
                offs[j] as int,
                offs[j] + m.slice_bytes(j).len() as int,
            ) == m.slice_bytes(j),
    ensures
        is_fat(out),
        be32(out, 4) == m.arch_count(),
        forall|j: int| 0 <= j < m.arch_count() ==> fat_entry_ok(out, m, j),
{
    lemma_be32_prefix(table, out, 0);
    lemma_be32_prefix(table, out, 4);
    assert forall|j: int| 0 <= j < m.arch_count() implies fat_entry_ok(out, m, j) by {
        let e = 8 + 20 * j;
        assert(table_entry_ok(table, m, offs, j));
        assert(offs[j] + m.slice_bytes(j).len() <= out.len());
        lemma_be32_prefix(table, out, e);
        lemma_be32_prefix(table, out, e + 4);
        lemma_be32_prefix(table, out, e + 8);
        lemma_be32_prefix(table, out, e + 12);
    }
}

impl MachO {
    /// The recorded processor type and subtype of one slice.
    pub fn slice_cpu(&self, i: usize) -> (r: (u32, u32))
        requires
            0 <= i < self.arch_count(),
        ensures
            r.0 == self.slice_cputype(i as int),
            r.1 == self.slice_cpusubtype(i as int),
    {
        (self.slices[i].cputype, self.slices[i].cpusubtype)
    }

    /// Serializes the file: a single slice writes through as-is; several
    /// slices are rebuilt into a universal container — magic, count, the
    /// table, then the slices packed one after it, each placed where its
    /// own table entry says.  Fails with a capacity error exactly when
    /// the packed layout passes the container format's 32-bit offsets.
    #[verifier::rlimit(100)]
    pub fn to_bytes(&self) -> (r: Result<Vec<u8>, Error>)
        requires
            self.wf(),
        ensures
            self.arch_count() == 1 ==> (r matches Ok(out) && out@ == self.slice_bytes(0)),
            r matches Ok(out) ==> (self.arch_count() > 1 ==> {
                &&& is_fat(out@)
                &&& be32(out@, 4) == self.arch_count()
                &&& forall|j: int| 0 <= j < self.arch_count() ==> fat_entry_ok(out@, *self, j)
            }),
            (self.arch_count() > 1 && fat_layout_fits(*self)) ==> r is Ok,
            r matches Err(e) ==> e is Capacity,
    {
        let n = self.slices.len();
        if n == 1 {
            let len0 = self.slices[0].image.bytes().len();
            let b = copy_range_public(self.slices[0].image.bytes(), 0, len0);
            assert(b@ =~= self.slice_bytes(0));
            return Ok(b);
        }
        if n as u64 > 0xffff {
            return Err(Error::Capacity);
        }
        // Lay the slices out one after the table.
        let header_len: u64 = 8 + 20 * (n as u64);
        let mut offs: Vec<u64> = Vec::new();
        let mut cur: u64 = header_len;
        let mut i: usize = 0;
        while i < n
            invariant
                i <= n,
                n == self.slices@.len(),
                n == self.arch_count(),
                1 < n <= 0xffff,
                header_len == 8 + 20 * (n as int),
                offs@.len() == i,
                cur == header_len + slices_total(*self, i as int),
                header_len <= cur <= 0xffffffff,
                forall|j: int|
                    0 <= j < i ==> #[trigger] offs@[j] == header_len + slices_total(*self, j),
                forall|j: int|
                    0 <= j < i ==> #[trigger] offs@[j] + self.slice_bytes(j).len()
                        <= 0xffffffff,
            decreases n - i,
        {
            let len_i = self.slices[i].image.bytes().len() as u64;
            assert(len_i == self.slice_bytes(i as int).len());
            if len_i > 0xffffffff || cur > 0xffffffff - len_i {
                proof {
                    if fat_layout_fits(*self) {
                        lemma_slices_total_mono(*self, i as int + 1, n as int);
                        assert(cur + len_i == header_len + slices_total(*self, i as int + 1));
                        assert(false);
                    }
                }
                return Err(Error::Capacity);
            }
            let ghost offs0 = offs@;
            offs.push(cur);
            proof {
                assert(forall|j: int| 0 <= j < offs0.len() ==> #[trigger] offs@[j] == offs0[j]);
                assert(offs@[offs0.len() as int] == cur);
            }
            cur = cur + len_i;
            i += 1;
        }
        // Emit the container: the table, then the slices.
        proof {
            assert forall|j: int| 0 <= j < n implies #[trigger] self.slice_bytes(j).len()
                <= 0xffffffff by {
                assert(offs@[j] + self.slice_bytes(j).len() <= 0xffffffff);
            }
            assert forall|j: int| 0 <= j < n implies #[trigger] offs@[j] <= 0xffffffff by {
                assert(offs@[j] + self.slice_bytes(j).len() <= 0xffffffff);
            }
        }
        let mut out = build_fat_table(self, &offs);
        let ghost table = out@;
        proof {
            assert(out@.subrange(0, table.len() as int) =~= table);
        }
        let mut i: usize = 0;
        while i < n
            invariant
                i <= n,
                n == self.slices@.len(),
                n == self.arch_count(),
                1 < n <= 0xffff,
                header_len == 8 + 20 * (n as int),
                offs@.len() == n,
                table.len() == header_len,
                table.len() <= out@.len() <= 0xffffffff,
                out@.len() == header_len + slices_total(*self, i as int),
                out@.subrange(0, table.len() as int) == table,
                forall|j: int|
                    0 <= j < n ==> #[trigger] offs@[j] == header_len + slices_total(*self, j),
                forall|j: int|
                    0 <= j < n ==> #[trigger] offs@[j] + self.slice_bytes(j).len()
                        <= 0xffffffff,
                forall|j: int|
                    0 <= j < i ==> #[trigger] out@.subrange(
                        offs@[j] as int,
                        offs@[j] + self.slice_bytes(j).len() as int,
                    ) == self.slice_bytes(j),
            decreases n - i,
        {
            let ghost prev = out@;
            proof {
                lemma_slices_total_mono(*self, i as int + 1, n as int);
                assert(prev.len() == offs@[i as int]);
            }
            let len_i = self.slices[i].image.bytes().len();
            let mut piece = copy_range_public(self.slices[i].image.bytes(), 0, len_i);
            let ghost pv = piece@;
            out.append(&mut piece);
            proof {
                assert(pv =~= self.slice_bytes(i as int));
                assert(out@.subrange(0, table.len() as int) =~= table);
                assert(out@.subrange(prev.len() as int, out@.len() as int) =~= pv);
                assert forall|j: int|
                    0 <= j < i implies #[trigger] out@.subrange(
                    offs@[j] as int,
                    offs@[j] + self.slice_bytes(j).len() as int,
                ) == prev.subrange(
                    offs@[j] as int,
                    offs@[j] + self.slice_bytes(j).len() as int,
                ) by {
                    lemma_slices_total_mono(*self, j + 1, i as int);
                    assert(offs@[j] + self.slice_bytes(j).len() <= prev.len());
                    assert(out@.subrange(
                        offs@[j] as int,
                        offs@[j] + self.slice_bytes(j).len() as int,
                    ) =~= prev.subrange(
                        offs@[j] as int,
                        offs@[j] + self.slice_bytes(j).len() as int,
                    ));
                }
            }
            i += 1;
        }
        proof {
            assert(forall|x: int| 0 <= x < table.len() ==> #[trigger] out@[x] == table[x]) by {
                assert(forall|x: int|
                    0 <= x < table.len() ==> #[trigger] out@.subrange(0, table.len() as int)[x]
                        == out@[x]);
            }
            assert forall|j: int| 0 <= j < n implies #[trigger] offs@[j] + self.slice_bytes(
                j,
            ).len() <= out@.len() by {
                lemma_slices_total_mono(*self, j + 1, n as int);
            }
            lemma_fat_assembled(out@, table, *self, offs@);
        }
        Ok(out)
    }
}

// ------------------------------------------------------------------
// Patching the build SDK version.
// ------------------------------------------------------------------

/// How a version-patched command relates to the original: same bytes but
/// for the SDK word.
pub open spec fn sdk_patched_chunk(c1: Seq<u8>, c2: Seq<u8>, sdk: u32) -> bool {
    &&& c2.len() == c1.len()
    &&& (forall|t: int| 0 <= t < c1.len() && !(16 <= t < 20) ==> c2[t] == c1[t])
    &&& le32(c2, 16) == sdk
}

/// The command-level relation after an SDK patch: build-version commands
/// carry the new SDK word, everything else is identical.
pub open spec fn sdk_cmds_rel(cs1: Seq<Seq<u8>>, cs2: Seq<Seq<u8>>, sdk: u32) -> bool {
    &&& cs2.len() == cs1.len()
    &&& forall|i: int|
        0 <= i < cs1.len() ==> if cmd_of(#[trigger] cs1[i], 0) == LC_BUILD_VERSION
            && cs1[i].len() >= 24 {
            sdk_patched_chunk(cs1[i], cs2[i], sdk)
        } else {
            cs2[i] == cs1[i]
        }
}

/// What the SDK patch does to the image: every build-version command's
/// SDK word rewritten, nothing else — counters, paths, head and tail
/// bytes all stand.
pub open spec fn sdk_effect(s1: Seq<u8>, s2: Seq<u8>, sdk: u32) -> bool {
    &&& parses(s2)
    &&& s2.len() == s1.len()
    &&& header_size(s2) == header_size(s1)
    &&& spec_ncmds(s2) == spec_ncmds(s1)
    &&& spec_sizeofcmds(s2) == spec_sizeofcmds(s1)
    &&& sdk_cmds_rel(cmds_of(s1), cmds_of(s2), sdk)
    &&& dylib_paths(s2) == dylib_paths(s1)
    &&& (forall|i: int| 0 <= i < header_size(s1) ==> s2[i] == s1[i])
    &&& s2.subrange(region_end(s1), s2.len() as int) == s1.subrange(
        region_end(s1),
        s1.len() as int,
    )
}

/// Patched command lists keep their lengths.
proof fn lemma_sdk_rel_concat(cs1: Seq<Seq<u8>>, cs2: Seq<Seq<u8>>, sdk: u32)
    requires
        sdk_cmds_rel(cs1, cs2, sdk),
    ensures
        chunks_concat(cs2).len() == chunks_concat(cs1).len(),
    decreases cs1.len(),
{
    if cs1.len() > 0 {
        let h1 = cs1.drop_last();
        let h2 = cs2.drop_last();
        assert(sdk_cmds_rel(h1, h2, sdk)) by {
            assert(forall|i: int|
                0 <= i < h1.len() ==> h1[i] == #[trigger] cs1[i] && h2[i] == cs2[i]);
        }
        lemma_sdk_rel_concat(h1, h2, sdk);
        assert(cs1[cs1.len() - 1] == cs1.last() && cs2[cs1.len() - 1] == cs2.last());
        assert(cs2.last().len() == cs1.last().len());
    }
}

/// Patched command lists carry the same dylib paths: a build-version
/// command is no dylib command, and every other command is unchanged.
proof fn lemma_sdk_rel_paths(cs1: Seq<Seq<u8>>, cs2: Seq<Seq<u8>>, sdk: u32)
    requires
        sdk_cmds_rel(cs1, cs2, sdk),
    ensures
        chunks_paths(cs2) == chunks_paths(cs1),
    decreases cs1.len(),
{
    if cs1.len() > 0 {
        let h1 = cs1.drop_last();
        let h2 = cs2.drop_last();
        assert(sdk_cmds_rel(h1, h2, sdk)) by {
            assert(forall|i: int|
                0 <= i < h1.len() ==> h1[i] == #[trigger] cs1[i] && h2[i] == cs2[i]);
        }
        lemma_sdk_rel_paths(h1, h2, sdk);
        let c1 = cs1.last();
        let c2 = cs2.last();
        assert(cs1[cs1.len() - 1] == c1 && cs2[cs1.len() - 1] == c2);
        if cmd_of(c1, 0) == LC_BUILD_VERSION && c1.len() >= 24 {
            assert(cmd_of(c2, 0) == cmd_of(c1, 0)) by {
                assert(c2[0] == c1[0] && c2[1] == c1[1] && c2[2] == c1[2] && c2[3] == c1[3]);
            }
            assert(!chunk_is_dylib(c1) && !chunk_is_dylib(c2));
        }
    }
}

/// Patched command lists stay well-formed.
proof fn lemma_sdk_rel_wf(cs1: Seq<Seq<u8>>, cs2: Seq<Seq<u8>>, sdk: u32)
    requires
        sdk_cmds_rel(cs1, cs2, sdk),
        chunks_wf(cs1),
    ensures
        chunks_wf(cs2),
{
    assert forall|i: int| 0 <= i < cs2.len() implies chunk_ok(#[trigger] cs2[i]) by {
        assert(chunk_ok(cs1[i]));
        if cmd_of(cs1[i], 0) == LC_BUILD_VERSION && cs1[i].len() >= 24 {
            assert(cmdsize_of(cs2[i], 0) == cmdsize_of(cs1[i], 0)) by {
                assert(cs2[i][4] == cs1[i][4] && cs2[i][5] == cs1[i][5] && cs2[i][6]
                    == cs1[i][6] && cs2[i][7] == cs1[i][7]);
            }
        }
    }
}

/// Rebuilding the image from patched commands gives the patch effect.
#[verifier::rlimit(100)]
proof fn lemma_sdk_assemble(s1: Seq<u8>, s2: Seq<u8>, cs2: Seq<Seq<u8>>, sdk: u32)
    requires
        parses(s1),
        sdk_cmds_rel(cmds_of(s1), cs2, sdk),
        s2.len() == s1.len(),
        forall|i: int| 0 <= i < header_size(s1) ==> s2[i] == s1[i],
        s2.subrange(header_size(s1), region_end(s1)) == chunks_concat(cs2),
        s2.subrange(region_end(s1), s2.len() as int) == s1.subrange(
            region_end(s1),
            s1.len() as int,
        ),
    ensures
        sdk_effect(s1, s2, sdk),
{
    let cs1 = cmds_of(s1);
    lemma_decompose(s1);
    lemma_sdk_rel_concat(cs1, cs2, sdk);
    lemma_sdk_rel_wf(cs1, cs2, sdk);
    assert(is_magic64(s2) == is_magic64(s1) && is_magic32(s2) == is_magic32(s1)) by {
        assert(s2[0] == s1[0] && s2[1] == s1[1] && s2[2] == s1[2] && s2[3] == s1[3]);
    }
    assert(header_size(s2) == header_size(s1));
    assert(spec_ncmds(s2) == spec_ncmds(s1) && spec_sizeofcmds(s2) == spec_sizeofcmds(s1)) by {
        assert(s2[16] == s1[16] && s2[17] == s1[17] && s2[18] == s1[18] && s2[19] == s1[19]
            && s2[20] == s1[20] && s2[21] == s1[21] && s2[22] == s1[22] && s2[23] == s1[23]);
    }
    lemma_assembled(s2, cs2);
    lemma_sdk_rel_paths(cs1, cs2, sdk);
}

impl MachOBinary {
    /// Rewrites the SDK word of every build-version load command, in
    /// place; an image without one succeeds untouched.
    #[verifier::rlimit(100)]
    pub fn set_sdk_version(&mut self, sdk: u32) -> (r: Result<(), Error>)
        requires
            parses(old(self)@),
        ensures
            r is Ok,
            sdk_effect(old(self)@, final(self)@, sdk),
    {
        let ghost s1 = self@;
        let ghost cs1 = cmds_of(s1);
        let n = self.data.len();
        let magic = read_u32(&self.data, 0);
        let hs: usize = if magic == MH_MAGIC_64 {
            32
        } else {
            28
        };
        let ncmds = read_u32(&self.data, 16);
        let soc = read_u32(&self.data, 20);
        let rend = hs + soc as usize;
        proof {
            lemma_decompose(s1);
        }
        let mut buf: Vec<u8> = Vec::new();
        let ghost mut cs2: Seq<Seq<u8>> = Seq::empty();
        let mut off: usize = hs;
        let mut k: u32 = 0;
        while k < ncmds
            invariant
                parses(s1),
                s1 == self@,
                s1.len() <= usize::MAX,
                cs1 == cmds_of(s1),
                ncmds == spec_ncmds(s1),
                soc == spec_sizeofcmds(s1),
                cs1.len() == ncmds,
                hs == header_size(s1),
                k <= ncmds,
                off == nth_cmd_off(s1, k as nat),
                cs2.len() == k,
                forall|j: int|
                    0 <= j < k ==> if cmd_of(#[trigger] cs1[j], 0) == LC_BUILD_VERSION
                        && cs1[j].len() >= 24 {
                        sdk_patched_chunk(cs1[j], cs2[j], sdk)
                    } else {
                        cs2[j] == cs1[j]
                    },
                buf@ == chunks_concat(cs2),
                buf@.len() == chunks_concat(cs1.take(k as int)).len(),
            decreases ncmds - k,
        {
            proof {
                lemma_nth_chunk(s1, k as nat);
                lemma_concat_take(cs1, k as int);
            }
            let cmd = read_u32(&self.data, off);
            let csize = read_u32(&self.data, off + 4);
            let mut tmp = copy_range(&self.data, off, off + csize as usize);
            if cmd == LC_BUILD_VERSION && csize >= 24 {
                write_u32(&mut tmp, 16, sdk);
                proof {
                    assert(cmd_of(cs1[k as int], 0) == LC_BUILD_VERSION);
                    assert(sdk_patched_chunk(cs1[k as int], tmp@, sdk));
                }
            } else {
                proof {
                    assert(tmp@ == cs1[k as int]);
                }
            }
            proof {
                assert(chunks_concat(cs2.push(tmp@)) == chunks_concat(cs2) + tmp@) by {
                    assert(cs2.push(tmp@).drop_last() =~= cs2);
                }
                assert(forall|j: int| 0 <= j < k ==> cs2.push(tmp@)[j] == #[trigger] cs2[j]);
                assert(cs2.push(tmp@)[k as int] == tmp@);
                cs2 = cs2.push(tmp@);
            }
            buf.append(&mut tmp);
            off = off + csize as usize;
            k = k + 1;
        }
        proof {
            assert(cs1.take(ncmds as int) =~= cs1);
        }
        let mut nd = copy_range(&self.data, 0, hs);
        let ghost pre = nd@;
        nd.append(&mut buf);
        let mut tail = copy_range(&self.data, rend, n);
        nd.append(&mut tail);
        proof {
            let s2 = nd@;
            assert(sdk_cmds_rel(cs1, cs2, sdk));
            lemma_sdk_rel_concat(cs1, cs2, sdk);
            assert(forall|i: int| 0 <= i < hs ==> s2[i] == s1[i]) by {
                assert(forall|i: int| 0 <= i < hs ==> pre[i] == s1[i]);
                assert(forall|i: int| 0 <= i < hs ==> s2[i] == pre[i]);
            }
            assert(s2.subrange(hs as int, rend as int) =~= chunks_concat(cs2));
            assert(s2.subrange(rend as int, s2.len() as int) =~= s1.subrange(
                rend as int,
                s1.len() as int,
            ));
            lemma_sdk_assemble(s1, s2, cs2, sdk);
        }
        self.data = nd;
        Ok(())
    }
}

impl MachO {
    /// Rewrites the build SDK version of every slice to the encoded
    /// major, minor and patch numbers.
    pub fn replace_sdk_version(&mut self, major: u16, minor: u8, patch: u8) -> (r: Result<
        (),
        Error,
    >)
        requires
            old(self).wf(),
        ensures
            r is Ok,
            final(self).wf(),
            final(self).arch_count() == old(self).arch_count(),
            forall|i: int|
                0 <= i < old(self).arch_count() ==> sdk_effect(
                    #[trigger] old(self).slice_bytes(i),
                    final(self).slice_bytes(i),
                    ((major * 0x10000 + minor * 0x100 + patch) as u32),
                ),
    {
        let sdk: u32 = (major as u32) * 0x10000 + (minor as u32) * 0x100 + (patch as u32);
        let count = self.slices.len();
        let mut out: Vec<ArchSlice> = Vec::new();
        let mut i: usize = 0;
        while i < count
            invariant
                self.wf(),
                self == old(self),
                sdk == (major as u32) * 0x10000 + (minor as u32) * 0x100 + (patch as u32),
                count == self.arch_count(),
                i <= count,
                out@.len() == i,
                forall|j: int|
                    0 <= j < i ==> parses(#[trigger] out@[j].image@) && out@[j].cputype
                        == self.slices@[j].cputype && out@[j].cpusubtype
                        == self.slices@[j].cpusubtype,
                forall|j: int|
                    0 <= j < i ==> sdk_effect(#[trigger] self.slice_bytes(j), out@[j].image@, sdk),
            decreases count - i,
        {
            assert(parses(self.slice_bytes(i as int)));
            let sl = &self.slices[i];
            let bytes = copy_range(sl.image.bytes(), 0, sl.image.bytes().len());
            assert(bytes@ =~= self.slice_bytes(i as int));
            let mut image = match MachOBinary::parse(bytes) {
                Ok(im) => im,
                Err(_) => {
                    proof {
                        assert(false);
                    }
                    return Err(Error::Capacity);
                },
            };
            let res = image.set_sdk_version(sdk);
            out.push(ArchSlice { cputype: sl.cputype, cpusubtype: sl.cpusubtype, image });
            i += 1;
        }
        self.slices = out;
        Ok(())
    }
}

} // verus!