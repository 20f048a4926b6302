//! The ramfb framebuffer set up through QEMU's fw_cfg DMA interface: the
//! big-endian records exchanged with the device, the search for a file in
//! its directory, and clearing the pixels.
use vstd::prelude::*;

verus! {

/// Selector of the fw_cfg file directory.
pub const FW_CFG_FILE_DIR: u16 = 0x0019;

/// DMA control bit: the transfer failed.
pub const CTL_ERROR: u32 = 0x01;

/// DMA control bit: read from the selected item.
pub const CTL_READ: u32 = 0x02;

/// DMA control bit: select the item in the upper half of the word.
pub const CTL_SELECT: u32 = 0x08;

/// DMA control bit: write to the selected item.
pub const CTL_WRITE: u32 = 0x10;

/// The XRGB8888 pixel format, `XR24`.
pub const FOURCC_XRGB8888: u32 = 0x3432_5258;

/// Framebuffer width in pixels.
pub const FB_W: u32 = 800;

/// Framebuffer height in pixels.
pub const FB_H: u32 = 600;

/// Bytes of a ramfb configuration record.
pub const RAMFB_CFG_LEN: u32 = 28;

/// Bytes of a directory entry.
pub const FILE_ENTRY_LEN: usize = 64;

/// Bytes of the name field of a directory entry.
pub const FILE_NAME_LEN: usize = 56;

/// Offset of the name field in a directory entry.
pub const FILE_NAME_OFFSET: usize = 8;

/// Offset of the selector field in a directory entry.
pub const FILE_SELECT_OFFSET: usize = 4;

/// The four bytes of `v`, most significant first.
pub open spec fn be32(v: u32) -> Seq<u8> {
    seq![
        (v / 0x100_0000) as u8,
        (v / 0x1_0000 % 256) as u8,
        (v / 0x100 % 256) as u8,
        (v % 256) as u8,
    ]
}

/// The eight bytes of `v`, most significant first.
pub open spec fn be64(v: u64) -> Seq<u8> {
    seq![
        (v / 0x100_0000_0000_0000) as u8,
        (v / 0x1_0000_0000_0000 % 256) as u8,
        (v / 0x100_0000_0000 % 256) as u8,
        (v / 0x1_0000_0000 % 256) as u8,
        (v / 0x100_0000 % 256) as u8,
        (v / 0x1_0000 % 256) as u8,
        (v / 0x100 % 256) as u8,
        (v % 256) as u8,
    ]
}

/// The number that the bytes `s` denote, most significant first.
pub open spec fn be_value(s: Seq<u8>) -> nat
    decreases s.len(),
{
    if s.len() == 0 {
        0
    } else {
        (be_value(s.drop_last()) * 256 + s.last()) as nat
    }
}

/// The configuration record that points the device at the framebuffer at
/// `fb_addr`: address, pixel format, flags, width, height and stride, each
/// big-endian.
pub open spec fn ramfb_record(fb_addr: u64) -> Seq<u8> {
    be64(fb_addr) + be32(FOURCC_XRGB8888) + be32(0) + be32(FB_W) + be32(FB_H) + be32((FB_W * 4) as u32)
}

/// The DMA descriptor for one transfer: control word, length and address,
/// each big-endian.
pub open spec fn dma_record(control: u32, length: u32, address: u64) -> Seq<u8> {
    be32(control) + be32(length) + be64(address)
}

/// The selector of the directory entry `entry` when its name is `name`
/// followed by a NUL byte.
pub open spec fn entry_selector(entry: Seq<u8>, name: Seq<u8>) -> Option<u16> {
    let off = FILE_NAME_OFFSET as int;
    if entry.subrange(off, off + name.len()) == name && entry[off + name.len()] == 0 {
        Some(be_value(entry.subrange(FILE_SELECT_OFFSET as int, FILE_SELECT_OFFSET + 2)) as u16)
    } else {
        None
    }
}

/// Appends the four bytes of `v`, most significant first.
fn push_be32(out: &mut Vec<u8>, v: u32)
    ensures
        final(out)@ == old(out)@ + be32(v),
{
    out.push((v / 0x100_0000) as u8);
    out.push((v / 0x1_0000 % 256) as u8);
    out.push((v / 0x100 % 256) as u8);
    out.push((v % 256) as u8);
    proof {
        assert(final(out)@ =~= old(out)@ + be32(v));
    }
}

/// Appends the eight bytes of `v`, most significant first.
fn push_be64(out: &mut Vec<u8>, v: u64)
    ensures
        final(out)@ == old(out)@ + be64(v),
{
    out.push((v / 0x100_0000_0000_0000) as u8);
    out.push((v / 0x1_0000_0000_0000 % 256) as u8);
    out.push((v / 0x100_0000_0000 % 256) as u8);
    out.push((v / 0x1_0000_0000 % 256) as u8);
    out.push((v / 0x100_0000 % 256) as u8);
    out.push((v / 0x1_0000 % 256) as u8);
    out.push((v / 0x100 % 256) as u8);
    out.push((v % 256) as u8);
    proof {
        assert(final(out)@ =~= old(out)@ + be64(v));
    }
}

/// The DMA descriptor for one transfer.
pub fn dma_descriptor(control: u32, length: u32, address: u64) -> (out: Vec<u8>)
    ensures
        out@ == dma_record(control, length, address),
{
    let mut out: Vec<u8> = Vec::new();
    push_be32(&mut out, control);
    push_be32(&mut out, length);
    push_be64(&mut out, address);
    proof {
        assert(out@ =~= dma_record(control, length, address));
    }
    out
}

/// The DMA control word that selects item `selector` and then performs
/// `ops`: the selector in the upper half, the select bit and `ops` in the
/// lower half.
pub fn select_control(selector: u16, ops: u32) -> (ctl: u32)
    requires
        ops < 0x1_0000,
    ensures
        ctl == selector as int * 0x1_0000 + (ops | CTL_SELECT) as int,
{
    let s = selector as u32;
    let ctl = (s << 16u32) | CTL_SELECT | ops;
    assert(ctl == s * 0x1_0000 + (ops | 8u32)) by (bit_vector)
        requires
            ctl == (s << 16u32) | 8u32 | ops,
            s < 0x1_0000,
            ops < 0x1_0000,
    ;
    ctl
}

/// The transfer whose final control word is `ctl` failed.
pub fn dma_failed(ctl: u32) -> (failed: bool)
    ensures
        failed == (ctl % 2 == 1),
{
    let failed = ctl & CTL_ERROR != 0;
    assert(failed == (ctl % 2 == 1)) by (bit_vector)
        requires
            failed == (ctl & 1u32 != 0),
    ;
    failed
}

/// The big-endian number in `b[off..off + 4]`.
pub fn read_be32(b: &[u8], off: usize) -> (v: u32)
    requires
        off + 4 <= b@.len(),
    ensures
        v == be_value(b@.subrange(off as int, off + 4)),
{
    let ghost s = b@.subrange(off as int, off + 4);
    reveal_with_fuel(be_value, 5);
    assert(s.drop_last().drop_last().drop_last().drop_last() =~= Seq::<u8>::empty());
    assert(s.drop_last().drop_last().drop_last() =~= seq![b@[off as int]]);
    assert(s.drop_last().drop_last() =~= seq![b@[off as int], b@[off + 1]]);
    assert(s.drop_last() =~= seq![b@[off as int], b@[off + 1], b@[off + 2]]);
    (((b[off] as u32 * 256 + b[off + 1] as u32) * 256 + b[off + 2] as u32) * 256 + b[off
        + 3] as u32)
}

/// The big-endian number in `b[off..off + 2]`.
pub fn read_be16(b: &[u8], off: usize) -> (v: u16)
    requires
        off + 2 <= b@.len(),
    ensures
        v == be_value(b@.subrange(off as int, off + 2)),
{
    let ghost s = b@.subrange(off as int, off + 2);
    reveal_with_fuel(be_value, 3);
    assert(s.drop_last().drop_last() =~= Seq::<u8>::empty());
    assert(s.drop_last() =~= seq![b@[off as int]]);
    b[off] as u16 * 256 + b[off + 1] as u16
}

/// The selector of a directory entry whose name is `name`, or `None` when
/// the entry holds another name.
pub fn file_selector(entry: &[u8], name: &[u8]) -> (sel: Option<u16>)
    requires
        entry@.len() == FILE_ENTRY_LEN,
        name@.len() < FILE_NAME_LEN,
    ensures
        sel == entry_selector(entry@, name@),
{
    let mut i: usize = 0;
    while i < name.len()
        invariant
            i <= name@.len() < FILE_NAME_LEN,
            entry@.len() == FILE_ENTRY_LEN,
            forall|j: int| 0 <= j < i ==> entry@[FILE_NAME_OFFSET + j] == name@[j],
        decreases name@.len() - i,
    {
        if entry[FILE_NAME_OFFSET + i] != name[i] {
            proof {
                let off = FILE_NAME_OFFSET as int;
                assert(entry@.subrange(off, off + name@.len())[i as int] != name@[i as int]);
            }
            return None;
        }
        i = i + 1;
    }
    proof {
        let off = FILE_NAME_OFFSET as int;
        assert(entry@.subrange(off, off + name@.len()) =~= name@);
    }
    if entry[FILE_NAME_OFFSET + name.len()] == 0 {
        Some(read_be16(entry, FILE_SELECT_OFFSET))
    } else {
        None
    }
}

/// What the directory walk does after reading one entry.
#[derive(Debug, PartialEq, Eq)]
pub enum DirStep {
    /// The entry is the file sought; its selector.
    Found(u16),
    /// Read the next entry.
    ReadNext,
    /// That was the last entry; the file is not there.
    NotFound,
}

/// What the walk over a directory of `count` entries does after reading
/// entry number `index` (counted from 0) while looking for `name`.
pub open spec fn dir_step(index: u32, count: u32, entry: Seq<u8>, name: Seq<u8>) -> DirStep {
    match entry_selector(entry, name) {
        Some(sel) => DirStep::Found(sel),
        None => if index + 1 < count {
            DirStep::ReadNext
        } else {
            DirStep::NotFound
        },
    }
}

/// Decides the directory walk after entry number `index` of `count` has
/// been read: stop at the first entry named `name`, else go on while
/// entries remain.
pub fn directory_step(index: u32, count: u32, entry: &[u8], name: &[u8]) -> (r: DirStep)
    requires
        index < count,
        entry@.len() == FILE_ENTRY_LEN,
        name@.len() < FILE_NAME_LEN,
    ensures
        r == dir_step(index, count, entry@, name@),
{
    match file_selector(entry, name) {
        Some(sel) => DirStep::Found(sel),
        None => if index + 1 < count {
            DirStep::ReadNext
        } else {
            DirStep::NotFound
        },
    }
}

/// The configuration record for a framebuffer at `fb_addr`.
pub fn ramfb_config(fb_addr: u64) -> (out: Vec<u8>)
    ensures
        out@ == ramfb_record(fb_addr),
        out@.len() == RAMFB_CFG_LEN,
{
    let mut out: Vec<u8> = Vec::new();
    push_be64(&mut out, fb_addr);
    push_be32(&mut out, FOURCC_XRGB8888);
    push_be32(&mut out, 0);
    push_be32(&mut out, FB_W);
    push_be32(&mut out, FB_H);
    push_be32(&mut out, FB_W * 4);
    out
}

/// Paints every pixel with `color`.
pub fn clear(pixels: &mut [u32], color: u32)
    ensures
        final(pixels)@.len() == old(pixels)@.len(),
        forall|i: int| 0 <= i < final(pixels)@.len() ==> final(pixels)@[i] == color,
{
    let mut i: usize = 0;
    while i < pixels.len()
        invariant
            i <= pixels@.len(),
            pixels@.len() == old(pixels)@.len(),
            forall|j: int| 0 <= j < i ==> pixels@[j] == color,
        decreases pixels@.len() - i,
    {
        pixels[i] = color;
        i = i + 1;
    }
}

/// Reading back the four bytes written for a value gives the value.
pub proof fn lemma_be32_round_trip(v: u32)
    ensures
        be_value(be32(v)) == v,
{
    reveal_with_fuel(be_value, 5);
    let s = be32(v);
    assert(s.drop_last().drop_last().drop_last().drop_last() =~= Seq::<u8>::empty());
    assert(s.drop_last().drop_last().drop_last() =~= seq![s[0]]);
    assert(s.drop_last().drop_last() =~= seq![s[0], s[1]]);
    assert(s.drop_last() =~= seq![s[0], s[1], s[2]]);
}

/// Reading back the eight bytes written for a value gives the value.
pub proof fn lemma_be64_round_trip(v: u64)
    ensures
        be_value(be64(v)) == v,
{
    reveal_with_fuel(be_value, 9);
    let s = be64(v);
    assert(s.drop_last().drop_last().drop_last().drop_last().drop_last().drop_last().drop_last().drop_last()
        =~= Seq::<u8>::empty());
    assert(s.drop_last().drop_last().drop_last().drop_last().drop_last().drop_last().drop_last()
        =~= seq![s[0]]);
    assert(s.drop_last().drop_last().drop_last().drop_last().drop_last().drop_last() =~= seq![s[0], s[1]]);
    assert(s.drop_last().drop_last().drop_last().drop_last().drop_last() =~= seq![s[0], s[1], s[2]]);
    assert(s.drop_last().drop_last().drop_last().drop_last() =~= seq![s[0], s[1], s[2], s[3]]);
    assert(s.drop_last().drop_last().drop_last() =~= seq![s[0], s[1], s[2], s[3], s[4]]);
    assert(s.drop_last().drop_last() =~= seq![s[0], s[1], s[2], s[3], s[4], s[5]]);
    assert(s.drop_last() =~= seq![s[0], s[1], s[2], s[3], s[4], s[5], s[6]]);
}

/// The configuration record points the device at the framebuffer: its
/// first eight bytes read back as the framebuffer address, and its last
/// four as the stride, four bytes per pixel of a row.
pub proof fn lemma_ramfb_record_fields(fb_addr: u64)
    ensures
        be_value(ramfb_record(fb_addr).subrange(0, 8)) == fb_addr,
        be_value(ramfb_record(fb_addr).subrange(24, 28)) == FB_W * 4,
{
    lemma_be64_round_trip(fb_addr);
    lemma_be32_round_trip((FB_W * 4) as u32);
    assert(ramfb_record(fb_addr).subrange(0, 8) =~= be64(fb_addr));
    assert(ramfb_record(fb_addr).subrange(24, 28) =~= be32((FB_W * 4) as u32));
}

/// The DMA descriptor carries the control word, the length and the address
/// of the transfer: each field reads back as the value given.
pub proof fn lemma_dma_record_fields(control: u32, length: u32, address: u64)
    ensures
        be_value(dma_record(control, length, address).subrange(0, 4)) == control,
        be_value(dma_record(control, length, address).subrange(4, 8)) == length,
        be_value(dma_record(control, length, address).subrange(8, 16)) == address,
{
    lemma_be32_round_trip(control);
    lemma_be32_round_trip(length);
    lemma_be64_round_trip(address);
    let r = dma_record(control, length, address);
    assert(r.subrange(0, 4) =~= be32(control));
    assert(r.subrange(4, 8) =~= be32(length));
    assert(r.subrange(8, 16) =~= be64(address));
}

} // verus!
