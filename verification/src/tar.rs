//! Reading a layer's archive: the tar format, as far as layers use it.
//!
//! An archive is a row of blocks of 512 bytes.  Each entry is one header
//! block, followed by its data, padded to whole blocks.  A block of zeros
//! ends the archive.  Numbers in a header are octal text, or, with the top
//! bit of the first byte set, plain binary.

use crate::archive::{layer_view, ArchiveEntry, EntryKind, EntryView, Node, NodeView};
use crate::bytes::copy_range;
use crate::error::Error;
use vstd::prelude::*;

verus! {

/// The size of a block.
pub const BLOCK: usize = 512;

/// The text in a field: its bytes up to the first zero byte, or all of
/// them if there is none.
pub open spec fn text_in(s: Seq<u8>, from: int, to: int) -> Seq<u8>
    decreases to - from,
{
    if from >= to || s[from] == 0 {
        Seq::<u8>::empty()
    } else {
        seq![s[from]] + text_in(s, from + 1, to)
    }
}

/// The position of the first byte of a field that is not a space.
pub open spec fn skip_spaces(s: Seq<u8>, from: int, to: int) -> int
    decreases to - from,
{
    if from < to && s[from] == 32 {
        skip_spaces(s, from + 1, to)
    } else {
        from
    }
}

/// The number that the octal digits from `from` on spell, after the digits
/// that gave `acc`.  The digits end at a space, at a zero byte or with the
/// field; any other byte, or a number too large for 64 bits, gives `None`.
pub open spec fn octal_in(s: Seq<u8>, from: int, to: int, acc: nat) -> Option<nat>
    decreases to - from,
{
    if from >= to || s[from] == 0 || s[from] == 32 {
        Some(acc)
    } else if 48 <= s[from] <= 55 {
        let next = acc * 8 + (s[from] - 48);
        if next > u64::MAX {
            None
        } else {
            octal_in(s, from + 1, to, next as nat)
        }
    } else {
        None
    }
}

/// The number that the bytes from `from` on hold as binary digits, after
/// the bytes that gave `acc`; `None` if it is too large for 64 bits.
pub open spec fn binary_in(s: Seq<u8>, from: int, to: int, acc: nat) -> Option<nat>
    decreases to - from,
{
    if from >= to {
        Some(acc)
    } else {
        let next = acc * 256 + s[from];
        if next > u64::MAX {
            None
        } else {
            binary_in(s, from + 1, to, next as nat)
        }
    }
}

/// The number in a numeric field.  A first byte of 128 or more marks a
/// binary number, which the rest of that byte and the bytes after it hold;
/// one of 192 or more would be negative and is refused.  Otherwise the
/// field holds octal digits after any number of spaces.
pub open spec fn number_in(s: Seq<u8>, from: int, to: int) -> Option<nat> {
    if from < to && s[from] >= 128 {
        if s[from] >= 192 {
            None
        } else {
            binary_in(s, from + 1, to, (s[from] - 128) as nat)
        }
    } else {
        octal_in(s, skip_spaces(s, from, to), to, 0)
    }
}

/// The sum of the bytes of a range.
pub open spec fn sum_in(s: Seq<u8>, from: int, to: int) -> nat
    decreases to - from,
{
    if from >= to {
        0
    } else {
        sum_in(s, from, to - 1) + s[to - 1] as nat
    }
}

/// The checksum of a header block: the sum of its bytes, with the eight
/// bytes of the checksum field itself counted as spaces.
pub open spec fn header_checksum(block: Seq<u8>) -> nat {
    sum_in(block, 0, 148) + 8 * 32 + sum_in(block, 156, 512)
}

/// Whether a block holds nothing but zeros.
pub open spec fn is_zero_block(block: Seq<u8>) -> bool {
    forall|i: int| 0 <= i < block.len() ==> block[i] == 0
}

/// Whether a header is in the format that splits long names into a prefix
/// and a name: its magic field reads `ustar` and ends in a zero byte.
pub open spec fn has_prefix_field(block: Seq<u8>) -> bool {
    block[257] == 117 && block[258] == 115 && block[259] == 116 && block[260] == 97 && block[261] == 114
        && block[262] == 0
}

/// The name that a header gives its entry: the name field, behind the
/// prefix field and a separator where the format has a prefix and the
/// header uses it.
pub open spec fn header_name(block: Seq<u8>) -> Seq<u8> {
    if has_prefix_field(block) && text_in(block, 345, 500).len() > 0 {
        text_in(block, 345, 500).push(47) + text_in(block, 0, 100)
    } else {
        text_in(block, 0, 100)
    }
}

/// What a header block says.
pub struct Header {
    pub typeflag: u8,
    pub size: u64,
    pub name: Vec<u8>,
    pub link: Vec<u8>,
    pub mode: u32,
    pub uid: u64,
    pub gid: u64,
    pub mtime: u64,
    pub dev_major: u32,
    pub dev_minor: u32,
}

/// A header as plain values.
pub struct HeaderView {
    pub typeflag: u8,
    pub size: u64,
    pub name: Seq<u8>,
    pub link: Seq<u8>,
    pub mode: u32,
    pub uid: u64,
    pub gid: u64,
    pub mtime: u64,
    pub dev_major: u32,
    pub dev_minor: u32,
}

impl View for Header {
    type V = HeaderView;

    open spec fn view(&self) -> HeaderView {
        HeaderView {
            typeflag: self.typeflag,
            size: self.size,
            name: self.name@,
            link: self.link@,
            mode: self.mode,
            uid: self.uid,
            gid: self.gid,
            mtime: self.mtime,
            dev_major: self.dev_major,
            dev_minor: self.dev_minor,
        }
    }
}

/// Whether a type flag marks a device node, the one kind of entry whose
/// device numbers are read.
pub open spec fn is_device_flag(typeflag: u8) -> bool {
    typeflag == 51 || typeflag == 52
}

/// A number that has to fit 32 bits.
pub open spec fn small_number_in(s: Seq<u8>, from: int, to: int) -> Option<nat> {
    match number_in(s, from, to) {
        Some(n) => if n <= u32::MAX {
            Some(n)
        } else {
            None
        },
        None => None,
    }
}

/// What a header block says, or `None` for a block that is no header: one
/// that is not 512 bytes long, whose checksum is wrong, or with a numeric
/// field that cannot be read or does not fit.
pub open spec fn header_spec(block: Seq<u8>) -> Option<HeaderView> {
    if block.len() != 512 {
        None
    } else if number_in(block, 148, 156) != Some(header_checksum(block)) {
        None
    } else {
        match (
            small_number_in(block, 100, 108),
            number_in(block, 108, 116),
            number_in(block, 116, 124),
            number_in(block, 124, 136),
            number_in(block, 136, 148),
        ) {
            (Some(mode), Some(uid), Some(gid), Some(size), Some(mtime)) => {
                let plain = HeaderView {
                    typeflag: block[156],
                    size: size as u64,
                    name: header_name(block),
                    link: text_in(block, 157, 257),
                    mode: mode as u32,
                    uid: uid as u64,
                    gid: gid as u64,
                    mtime: mtime as u64,
                    dev_major: 0,
                    dev_minor: 0,
                };
                if is_device_flag(block[156]) {
                    match (small_number_in(block, 329, 337), small_number_in(block, 337, 345)) {
                        (Some(major), Some(minor)) => Some(
                            HeaderView { dev_major: major as u32, dev_minor: minor as u32, ..plain },
                        ),
                        _ => None,
                    }
                } else {
                    Some(plain)
                }
            },
            _ => None,
        }
    }
}

/// Appends the text of a field to `out`.
fn push_text(out: &mut Vec<u8>, block: &Vec<u8>, from: usize, to: usize)
    requires
        from <= to <= block@.len(),
    ensures
        final(out)@ == old(out)@ + text_in(block@, from as int, to as int),
{
    let mut i: usize = from;
    while i < to && block[i] != 0
        invariant
            from <= i <= to <= block@.len(),
            old(out)@ + text_in(block@, from as int, to as int) == out@ + text_in(block@, i as int, to as int),
        decreases to - i,
    {
        let ghost before = out@;
        out.push(block[i]);
        proof {
            assert(before + (seq![block@[i as int]] + text_in(block@, i + 1, to as int)) =~= out@ + text_in(
                block@,
                i + 1,
                to as int,
            ));
        }
        i += 1;
    }
    proof {
        assert(text_in(block@, i as int, to as int) =~= Seq::<u8>::empty());
        assert(out@ + Seq::<u8>::empty() =~= out@);
    }
}

/// The text of a field.
pub fn read_text(block: &Vec<u8>, from: usize, to: usize) -> (r: Vec<u8>)
    requires
        from <= to <= block@.len(),
    ensures
        r@ == text_in(block@, from as int, to as int),
{
    let mut out: Vec<u8> = Vec::new();
    push_text(&mut out, block, from, to);
    assert(Seq::<u8>::empty() + text_in(block@, from as int, to as int) =~= text_in(
        block@,
        from as int,
        to as int,
    ));
    out
}

/// The number in a numeric field.
pub fn read_number(block: &Vec<u8>, from: usize, to: usize) -> (r: Option<u64>)
    requires
        from <= to <= block@.len(),
    ensures
        match r {
            Some(n) => number_in(block@, from as int, to as int) == Some(n as nat),
            None => number_in(block@, from as int, to as int) is None,
        },
{
    if from < to && block[from] >= 128 {
        if block[from] >= 192 {
            return None;
        }
        let mut acc: u64 = (block[from] - 128) as u64;
        let mut i: usize = from + 1;
        while i < to
            invariant
                from < i <= to <= block@.len(),
                number_in(block@, from as int, to as int) == binary_in(block@, i as int, to as int, acc as nat),
            decreases to - i,
        {
            let digit: u64 = block[i] as u64;
            if acc > (u64::MAX - digit) / 256 {
                return None;
            }
            acc = acc * 256 + digit;
            i += 1;
        }
        Some(acc)
    } else {
        let mut i: usize = from;
        while i < to && block[i] == 32
            invariant
                from <= i <= to <= block@.len(),
                skip_spaces(block@, from as int, to as int) == skip_spaces(block@, i as int, to as int),
            decreases to - i,
        {
            i += 1;
        }
        let mut acc: u64 = 0;
        while i < to && block[i] != 0 && block[i] != 32
            invariant
                from <= i <= to <= block@.len(),
                number_in(block@, from as int, to as int) == octal_in(block@, i as int, to as int, acc as nat),
            decreases to - i,
        {
            let byte = block[i];
            if byte < 48 || byte > 55 {
                return None;
            }
            let digit: u64 = (byte - 48) as u64;
            if acc > (u64::MAX - digit) / 8 {
                return None;
            }
            acc = acc * 8 + digit;
            i += 1;
        }
        Some(acc)
    }
}

fn read_small_number(block: &Vec<u8>, from: usize, to: usize) -> (r: Option<u32>)
    requires
        from <= to <= block@.len(),
    ensures
        match r {
            Some(n) => small_number_in(block@, from as int, to as int) == Some(n as nat),
            None => small_number_in(block@, from as int, to as int) is None,
        },
{
    match read_number(block, from, to) {
        Some(n) => if n <= u32::MAX as u64 {
            Some(n as u32)
        } else {
            None
        },
        None => None,
    }
}

fn sum_range(block: &Vec<u8>, from: usize, to: usize) -> (r: u64)
    requires
        from <= to <= block@.len(),
        to - from <= 512,
    ensures
        r == sum_in(block@, from as int, to as int),
        r <= 255 * (to - from),
{
    let mut sum: u64 = 0;
    let mut i: usize = from;
    while i < to
        invariant
            from <= i <= to <= block@.len(),
            to - from <= 512,
            sum == sum_in(block@, from as int, i as int),
            sum <= 255 * (i - from),
        decreases to - i,
    {
        sum = sum + block[i] as u64;
        i += 1;
    }
    sum
}

/// Whether a block holds nothing but zeros.
pub fn block_is_zero(block: &Vec<u8>) -> (r: bool)
    ensures
        r == is_zero_block(block@),
{
    let mut i: usize = 0;
    while i < block.len()
        invariant
            i <= block@.len(),
            forall|j: int| 0 <= j < i ==> block@[j] == 0,
        decreases block@.len() - i,
    {
        if block[i] != 0 {
            return false;
        }
        i += 1;
    }
    true
}

fn magic_has_prefix(block: &Vec<u8>) -> (r: bool)
    requires
        block@.len() == 512,
    ensures
        r == has_prefix_field(block@),
{
    block[257] == 117 && block[258] == 115 && block[259] == 116 && block[260] == 97 && block[261] == 114
        && block[262] == 0
}

fn read_name(block: &Vec<u8>) -> (r: Vec<u8>)
    requires
        block@.len() == 512,
    ensures
        r@ == header_name(block@),
{
    if magic_has_prefix(block) {
        let mut out = read_text(block, 345, 500);
        if out.len() > 0 {
            out.push(47);
            push_text(&mut out, block, 0, 100);
            return out;
        }
    }
    read_text(block, 0, 100)
}

/// Reads a header block.
pub fn parse_header(block: &Vec<u8>) -> (r: Option<Header>)
    ensures
        match r {
            Some(header) => header_spec(block@) == Some(header@),
            None => header_spec(block@) is None,
        },
{
    if block.len() != 512 {
        return None;
    }
    let checksum = sum_range(block, 0, 148) + 256 + sum_range(block, 156, 512);
    match read_number(block, 148, 156) {
        Some(stored) => {
            if stored != checksum {
                return None;
            }
        },
        None => {
            return None;
        },
    }
    let mode = match read_small_number(block, 100, 108) {
        Some(n) => n,
        None => {
            return None;
        },
    };
    let uid = match read_number(block, 108, 116) {
        Some(n) => n,
        None => {
            return None;
        },
    };
    let gid = match read_number(block, 116, 124) {
        Some(n) => n,
        None => {
            return None;
        },
    };
    let size = match read_number(block, 124, 136) {
        Some(n) => n,
        None => {
            return None;
        },
    };
    let mtime = match read_number(block, 136, 148) {
        Some(n) => n,
        None => {
            return None;
        },
    };
    let typeflag = block[156];
    let mut dev_major: u32 = 0;
    let mut dev_minor: u32 = 0;
    if typeflag == 51 || typeflag == 52 {
        match (read_small_number(block, 329, 337), read_small_number(block, 337, 345)) {
            (Some(major), Some(minor)) => {
                dev_major = major;
                dev_minor = minor;
            },
            _ => {
                return None;
            },
        }
    }
    Some(
        Header {
            typeflag,
            size,
            name: read_name(block),
            link: read_text(block, 157, 257),
            mode,
            uid,
            gid,
            mtime,
            dev_major,
            dev_minor,
        },
    )
}

/// What a header stands for.
pub enum Role {
    /// An entry of this kind.
    Entry(EntryKind),
    /// The data is the name of the next entry, too long for its header.
    LongName,
    /// The data is the link target of the next entry, too long for its
    /// header.
    LongLink,
    /// The data is a list of attributes of the next entry.
    Attributes,
    /// The data is a list of attributes of all entries; it is passed over.
    GlobalAttributes,
}

/// What a header with the given type flag stands for, or `None` for a
/// flag that this reader does not know.  A regular file whose name ends in
/// a separator is a directory.
pub open spec fn role_of(typeflag: u8, name: Seq<u8>) -> Option<Role> {
    if typeflag == 0 || typeflag == 48 || typeflag == 55 {
        if name.len() > 0 && name.last() == 47 {
            Some(Role::Entry(EntryKind::Directory))
        } else {
            Some(Role::Entry(EntryKind::File))
        }
    } else if typeflag == 49 {
        Some(Role::Entry(EntryKind::HardLink))
    } else if typeflag == 50 {
        Some(Role::Entry(EntryKind::Symlink))
    } else if typeflag == 51 {
        Some(Role::Entry(EntryKind::CharDevice))
    } else if typeflag == 52 {
        Some(Role::Entry(EntryKind::BlockDevice))
    } else if typeflag == 53 {
        Some(Role::Entry(EntryKind::Directory))
    } else if typeflag == 54 {
        Some(Role::Entry(EntryKind::Fifo))
    } else if typeflag == 76 {
        Some(Role::LongName)
    } else if typeflag == 75 {
        Some(Role::LongLink)
    } else if typeflag == 120 {
        Some(Role::Attributes)
    } else if typeflag == 103 {
        Some(Role::GlobalAttributes)
    } else {
        None
    }
}

/// The entry that a header describes, under the name and with the link
/// target that hold for it, and with the data that follows it.  Only a
/// regular file keeps its data.
pub open spec fn entry_of(header: HeaderView, kind: EntryKind, name: Seq<u8>, link: Seq<u8>, data: Seq<u8>) -> EntryView {
    EntryView {
        path: name,
        node: NodeView {
            kind,
            content: if kind == EntryKind::File {
                data
            } else {
                Seq::<u8>::empty()
            },
            link_target: link,
            dev_major: header.dev_major,
            dev_minor: header.dev_minor,
            mode: header.mode,
            uid: header.uid,
            gid: header.gid,
            mtime: header.mtime,
        },
    }
}

/// Where the header after some data starts: behind the data, padded to
/// whole blocks, or at the end of the archive if the padding is cut short.
pub open spec fn next_header(data: int, size: int, len: int) -> int {
    let end = data + ((size + 511) / 512) * 512;
    if end <= len {
        end
    } else {
        len
    }
}

/// The number that the decimal digits from `from` on spell, after the
/// digits that gave `acc`, with the position of the space that ends them.
pub open spec fn decimal_in(s: Seq<u8>, from: int, to: int, acc: nat) -> Option<(nat, int)>
    decreases to - from,
{
    if from >= to {
        None
    } else if s[from] == 32 {
        Some((acc, from))
    } else if 48 <= s[from] <= 57 {
        let next = acc * 10 + (s[from] - 48);
        if next > u64::MAX {
            None
        } else {
            decimal_in(s, from + 1, to, next as nat)
        }
    } else {
        None
    }
}

/// The position of the first byte of a range that equals `byte`.
pub open spec fn find_byte(s: Seq<u8>, from: int, to: int, byte: u8) -> Option<int>
    decreases to - from,
{
    if from >= to {
        None
    } else if s[from] == byte {
        Some(from)
    } else {
        find_byte(s, from + 1, to, byte)
    }
}

/// The attribute key `path`
pub open spec fn key_path() -> Seq<u8> {
    seq![112u8, 97u8, 116u8, 104u8]
}

/// The attribute key `linkpath`
pub open spec fn key_linkpath() -> Seq<u8> {
    seq![108u8, 105u8, 110u8, 107u8, 112u8, 97u8, 116u8, 104u8]
}

/// The name and the link target that a list of attributes gives the next
/// entry, starting from those that hold so far.
///
/// Each attribute is a record: its own length in decimal digits, a space,
/// a key, an equals sign, a value and a newline.  The keys `path` and
/// `linkpath` set the name and the link target; every other key is passed
/// over.  A record that is not of this form gives `None`.
pub open spec fn attributes_from(
    s: Seq<u8>,
    pos: int,
    end: int,
    name: Option<Seq<u8>>,
    link: Option<Seq<u8>>,
) -> Option<(Option<Seq<u8>>, Option<Seq<u8>>)>
    decreases end - pos,
{
    if pos >= end {
        Some((name, link))
    } else {
        match decimal_in(s, pos, end, 0) {
            None => None,
            Some((length, space)) => {
                let stop = pos + length;
                if space <= pos || stop > end || stop <= space + 1 || s[stop - 1] != 10 {
                    None
                } else {
                    match find_byte(s, space + 1, stop - 1, 61) {
                        None => None,
                        Some(equals) => {
                            let key = s.subrange(space + 1, equals);
                            let value = s.subrange(equals + 1, stop - 1);
                            if key == key_path() {
                                attributes_from(s, stop, end, Some(value), link)
                            } else if key == key_linkpath() {
                                attributes_from(s, stop, end, name, Some(value))
                            } else {
                                attributes_from(s, stop, end, name, link)
                            }
                        },
                    }
                }
            },
        }
    }
}

/// The value of an option, or a fallback.
pub open spec fn or_else(preferred: Option<Seq<u8>>, fallback: Seq<u8>) -> Seq<u8> {
    match preferred {
        Some(value) => value,
        None => fallback,
    }
}

/// An entry in front of the entries that follow it.
pub open spec fn in_front(entry: EntryView, rest: Option<Seq<EntryView>>) -> Option<Seq<EntryView>> {
    match rest {
        Some(entries) => Some(seq![entry] + entries),
        None => None,
    }
}

/// The entries of an archive from the header at `pos` on, where `name`
/// and `link` are the long name and link target that earlier headers have
/// set for the next entry.
///
/// The archive ends at a block of zeros or where the bytes end.  Anything
/// else has to be a header with all of its data.
pub open spec fn archive_from(
    bytes: Seq<u8>,
    pos: int,
    name: Option<Seq<u8>>,
    link: Option<Seq<u8>>,
) -> Option<Seq<EntryView>>
    decreases bytes.len() - pos,
{
    if pos < 0 || pos >= bytes.len() {
        Some(Seq::<EntryView>::empty())
    } else if pos + 512 > bytes.len() {
        None
    } else if is_zero_block(bytes.subrange(pos, pos + 512)) {
        Some(Seq::<EntryView>::empty())
    } else {
        match header_spec(bytes.subrange(pos, pos + 512)) {
            None => None,
            Some(header) => {
                let data = pos + 512;
                let size = header.size as int;
                let next = next_header(data, size, bytes.len() as int);
                let full_name = or_else(name, header.name);
                if data + size > bytes.len() {
                    None
                } else {
                    match role_of(header.typeflag, full_name) {
                        None => None,
                        Some(Role::LongName) => archive_from(
                            bytes,
                            next,
                            Some(text_in(bytes, data, data + size)),
                            link,
                        ),
                        Some(Role::LongLink) => archive_from(
                            bytes,
                            next,
                            name,
                            Some(text_in(bytes, data, data + size)),
                        ),
                        Some(Role::Attributes) => match attributes_from(bytes, data, data + size, name, link) {
                            None => None,
                            Some((new_name, new_link)) => archive_from(bytes, next, new_name, new_link),
                        },
                        Some(Role::GlobalAttributes) => archive_from(bytes, next, name, link),
                        Some(Role::Entry(kind)) => in_front(
                            entry_of(
                                header,
                                kind,
                                full_name,
                                or_else(link, header.link),
                                bytes.subrange(data, data + size),
                            ),
                            archive_from(bytes, next, None, None),
                        ),
                    }
                }
            },
        }
    }
}

/// The entries of an archive, in archive order, or `None` if the bytes are
/// no archive.
pub open spec fn parse_archive_spec(bytes: Seq<u8>) -> Option<Seq<EntryView>> {
    archive_from(bytes, 0, None, None)
}

/// An optional byte string as plain values.
pub open spec fn opt_view(value: Option<Vec<u8>>) -> Option<Seq<u8>> {
    match value {
        Some(bytes) => Some(bytes@),
        None => None,
    }
}

fn role(typeflag: u8, name: &Vec<u8>) -> (r: Option<Role>)
    ensures
        r == role_of(typeflag, name@),
{
    if typeflag == 0 || typeflag == 48 || typeflag == 55 {
        if name.len() > 0 && name[name.len() - 1] == 47 {
            Some(Role::Entry(EntryKind::Directory))
        } else {
            Some(Role::Entry(EntryKind::File))
        }
    } else if typeflag == 49 {
        Some(Role::Entry(EntryKind::HardLink))
    } else if typeflag == 50 {
        Some(Role::Entry(EntryKind::Symlink))
    } else if typeflag == 51 {
        Some(Role::Entry(EntryKind::CharDevice))
    } else if typeflag == 52 {
        Some(Role::Entry(EntryKind::BlockDevice))
    } else if typeflag == 53 {
        Some(Role::Entry(EntryKind::Directory))
    } else if typeflag == 54 {
        Some(Role::Entry(EntryKind::Fifo))
    } else if typeflag == 76 {
        Some(Role::LongName)
    } else if typeflag == 75 {
        Some(Role::LongLink)
    } else if typeflag == 120 {
        Some(Role::Attributes)
    } else if typeflag == 103 {
        Some(Role::GlobalAttributes)
    } else {
        None
    }
}

fn read_decimal(bytes: &Vec<u8>, from: usize, to: usize) -> (r: Option<(u64, usize)>)
    requires
        from <= to <= bytes@.len(),
    ensures
        match r {
            Some((n, space)) => decimal_in(bytes@, from as int, to as int, 0) == Some((n as nat, space as int))
                && from <= space < to,
            None => decimal_in(bytes@, from as int, to as int, 0) is None,
        },
{
    let mut acc: u64 = 0;
    let mut i: usize = from;
    while i < to
        invariant
            from <= i <= to <= bytes@.len(),
            decimal_in(bytes@, from as int, to as int, 0) == decimal_in(bytes@, i as int, to as int, acc as nat),
        decreases to - i,
    {
        let byte = bytes[i];
        if byte == 32 {
            return Some((acc, i));
        }
        if byte < 48 || byte > 57 {
            return None;
        }
        let digit: u64 = (byte - 48) as u64;
        if acc > (u64::MAX - digit) / 10 {
            return None;
        }
        acc = acc * 10 + digit;
        i += 1;
    }
    None
}

fn find_in(bytes: &Vec<u8>, from: usize, to: usize, byte: u8) -> (r: Option<usize>)
    requires
        from <= to <= bytes@.len(),
    ensures
        match r {
            Some(at) => find_byte(bytes@, from as int, to as int, byte) == Some(at as int) && from <= at < to,
            None => find_byte(bytes@, from as int, to as int, byte) is None,
        },
{
    let mut i: usize = from;
    while i < to
        invariant
            from <= i <= to <= bytes@.len(),
            find_byte(bytes@, from as int, to as int, byte) == find_byte(bytes@, i as int, to as int, byte),
        decreases to - i,
    {
        if bytes[i] == byte {
            return Some(i);
        }
        i += 1;
    }
    None
}

fn is_key_path(bytes: &Vec<u8>, from: usize, to: usize) -> (r: bool)
    requires
        from <= to <= bytes@.len(),
    ensures
        r == (bytes@.subrange(from as int, to as int) == key_path()),
{
    let ghost key = bytes@.subrange(from as int, to as int);
    if to - from != 4 {
        assert(key.len() != key_path().len());
        return false;
    }
    let r = bytes[from] == 112 && bytes[from + 1] == 97 && bytes[from + 2] == 116 && bytes[from + 3] == 104;
    proof {
        assert(key[0] == bytes@[from as int] && key[1] == bytes@[from + 1] && key[2] == bytes@[from + 2] && key[3]
            == bytes@[from + 3]);
        if r {
            assert(key =~= key_path());
        }
    }
    r
}

fn is_key_linkpath(bytes: &Vec<u8>, from: usize, to: usize) -> (r: bool)
    requires
        from <= to <= bytes@.len(),
    ensures
        r == (bytes@.subrange(from as int, to as int) == key_linkpath()),
{
    let ghost key = bytes@.subrange(from as int, to as int);
    if to - from != 8 {
        assert(key.len() != key_linkpath().len());
        return false;
    }
    let r = bytes[from] == 108 && bytes[from + 1] == 105 && bytes[from + 2] == 110 && bytes[from + 3] == 107
        && is_key_path(bytes, from + 4, to);
    proof {
        let tail = bytes@.subrange(from + 4, to as int);
        assert(key[0] == bytes@[from as int] && key[1] == bytes@[from + 1] && key[2] == bytes@[from + 2] && key[3]
            == bytes@[from + 3]);
        assert(tail[0] == key[4] && tail[1] == key[5] && tail[2] == key[6] && tail[3] == key[7]);
        if r {
            assert(key =~= key_linkpath());
        } else if key == key_linkpath() {
            assert(tail =~= key_path());
        }
    }
    r
}

/// How reading a list of attributes ended, as plain values.
pub open spec fn attributes_view(r: Option<(Option<Vec<u8>>, Option<Vec<u8>>)>) -> Option<
    (Option<Seq<u8>>, Option<Seq<u8>>),
> {
    match r {
        Some((name, link)) => Some((opt_view(name), opt_view(link))),
        None => None,
    }
}

/// Reads a list of attributes: the name and the link target that it gives
/// the next entry, starting from those that hold so far.
pub fn read_attributes(
    bytes: &Vec<u8>,
    from: usize,
    to: usize,
    name: Option<Vec<u8>>,
    link: Option<Vec<u8>>,
) -> (r: Option<(Option<Vec<u8>>, Option<Vec<u8>>)>)
    requires
        from <= to <= bytes@.len(),
    ensures
        attributes_view(r) == attributes_from(bytes@, from as int, to as int, opt_view(name), opt_view(link)),
{
    let mut new_name = name;
    let mut new_link = link;
    let mut pos: usize = from;
    while pos < to
        invariant
            from <= pos <= to <= bytes@.len(),
            attributes_from(bytes@, from as int, to as int, opt_view(name), opt_view(link)) == attributes_from(
                bytes@,
                pos as int,
                to as int,
                opt_view(new_name),
                opt_view(new_link),
            ),
        decreases to - pos,
    {
        let (length, space) = match read_decimal(bytes, pos, to) {
            Some(found) => found,
            None => {
                return None;
            },
        };
        if space <= pos || length > (to - pos) as u64 {
            return None;
        }
        let stop: usize = pos + length as usize;
        if stop <= space + 1 || bytes[stop - 1] != 10 {
            return None;
        }
        let equals = match find_in(bytes, space + 1, stop - 1, 61) {
            Some(at) => at,
            None => {
                return None;
            },
        };
        if is_key_path(bytes, space + 1, equals) {
            new_name = Some(copy_range(bytes, equals + 1, stop - 1));
        } else if is_key_linkpath(bytes, space + 1, equals) {
            new_link = Some(copy_range(bytes, equals + 1, stop - 1));
        }
        pos = stop;
    }
    Some((new_name, new_link))
}

/// How reading an archive ended, as plain values.
pub open spec fn parsed_view(r: Result<Vec<ArchiveEntry>, Error>) -> Option<Seq<EntryView>> {
    match r {
        Ok(entries) => Some(layer_view(entries@)),
        Err(_) => None,
    }
}

/// Entries in front of the entries that follow them.
pub open spec fn all_in_front(entries: Seq<EntryView>, rest: Option<Seq<EntryView>>) -> Option<Seq<EntryView>> {
    match rest {
        Some(more) => Some(entries + more),
        None => None,
    }
}

fn take_or(preferred: Option<Vec<u8>>, fallback: Vec<u8>) -> (r: Vec<u8>)
    ensures
        r@ == or_else(opt_view(preferred), fallback@),
{
    match preferred {
        Some(value) => value,
        None => fallback,
    }
}

/// Reads an archive: its entries, in archive order.  Bytes that are no
/// archive give `ArchiveParseError`, and nothing else does.
pub fn parse_archive(bytes: &Vec<u8>) -> (r: Result<Vec<ArchiveEntry>, Error>)
    ensures
        parsed_view(r) == parse_archive_spec(bytes@),
        r matches Err(e) ==> e == Error::ArchiveParseError,
{
    let mut out: Vec<ArchiveEntry> = Vec::new();
    let mut name: Option<Vec<u8>> = None;
    let mut link: Option<Vec<u8>> = None;
    let mut pos: usize = 0;
    proof {
        assert(layer_view(out@) =~= Seq::<EntryView>::empty());
        if let Some(entries) = parse_archive_spec(bytes@) {
            assert(Seq::<EntryView>::empty() + entries =~= entries);
        }
    }
    loop
        invariant
            pos <= bytes@.len(),
            parse_archive_spec(bytes@) == all_in_front(
                layer_view(out@),
                archive_from(bytes@, pos as int, opt_view(name), opt_view(link)),
            ),
        decreases bytes@.len() - pos,
    {
        let ghost so_far = layer_view(out@);
        if pos >= bytes.len() {
            assert(so_far + Seq::<EntryView>::empty() =~= so_far);
            return Ok(out);
        }
        if bytes.len() - pos < 512 {
            return Err(Error::ArchiveParseError);
        }
        let block = copy_range(bytes, pos, pos + 512);
        if block_is_zero(&block) {
            assert(so_far + Seq::<EntryView>::empty() =~= so_far);
            return Ok(out);
        }
        let header = match parse_header(&block) {
            Some(header) => header,
            None => {
                return Err(Error::ArchiveParseError);
            },
        };
        let data: usize = pos + 512;
        if header.size > (bytes.len() - data) as u64 {
            return Err(Error::ArchiveParseError);
        }
        let size: usize = header.size as usize;
        let padded: usize = ((size + 511) / 512) * 512;
        let next: usize = if padded <= bytes.len() - data {
            data + padded
        } else {
            bytes.len()
        };
        assert(next == next_header(data as int, size as int, bytes@.len() as int));
        let ghost old_name = opt_view(name);
        let ghost old_link = opt_view(link);
        let ghost header_view = header@;
        let Header {
            typeflag,
            size: _,
            name: short_name,
            link: short_link,
            mode,
            uid,
            gid,
            mtime,
            dev_major,
            dev_minor,
        } = header;
        let found = match &name {
            Some(long_name) => role(typeflag, long_name),
            None => role(typeflag, &short_name),
        };
        match found {
            None => {
                return Err(Error::ArchiveParseError);
            },
            Some(Role::LongName) => {
                name = Some(read_text(bytes, data, data + size));
            },
            Some(Role::LongLink) => {
                link = Some(read_text(bytes, data, data + size));
            },
            Some(Role::Attributes) => {
                match read_attributes(bytes, data, data + size, name, link) {
                    None => {
                        return Err(Error::ArchiveParseError);
                    },
                    Some((new_name, new_link)) => {
                        name = new_name;
                        link = new_link;
                    },
                }
            },
            Some(Role::GlobalAttributes) => {},
            Some(Role::Entry(kind)) => {
                let full_name = take_or(name, short_name);
                let target = take_or(link, short_link);
                name = None;
                link = None;
                let content = match kind {
                    EntryKind::File => copy_range(bytes, data, data + size),
                    _ => Vec::new(),
                };
                let entry = ArchiveEntry {
                    path: full_name,
                    node: Node { kind, content, link_target: target, dev_major, dev_minor, mode, uid, gid, mtime },
                };
                proof {
                    let rest = archive_from(bytes@, next as int, None, None);
                    assert(entry@ == entry_of(
                        header_view,
                        kind,
                        or_else(old_name, header_view.name),
                        or_else(old_link, header_view.link),
                        bytes@.subrange(data as int, data + size),
                    ));
                    assert(layer_view(out@.push(entry)) =~= so_far.push(entry@));
                    if let Some(more) = rest {
                        assert(so_far + (seq![entry@] + more) =~= so_far.push(entry@) + more);
                    }
                }
                out.push(entry);
            },
        }
        pos = next;
    }
}

} // verus!
