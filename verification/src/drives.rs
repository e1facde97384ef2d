//! Removable drives: which logical drives qualify, and what is known of each.
//!
//! The caller reads the logical-drive bitmask, each drive's type, its volume
//! label buffer and its storage device descriptor from the system; the
//! functions here turn those raw answers into the list of drives to offer.

use vstd::prelude::*;
use vstd::utf8::{valid_utf8, decode_utf8};
use crate::utils::{bit_is_set, is_bit_set, utf16_encode, wide_string, lemma_encode_no_zero};
use crate::text::{
    push_char, decode_utf16_lossy, utf16_decode_lossy, lemma_utf16_round_trip, utf8_lossy,
    utf8_decode_lossy, trim_whitespace, trim, is_white_space, lemma_trim_idempotent,
};

verus! {

/// Maximum valid ASCII value
pub const ASCII_MAX: u8 = 127;

/// Drive type reported for drives with removable media.
pub const DRIVE_REMOVABLE: u32 = 2;

/// Drive type reported for fixed disks (external hard drives report this too).
pub const DRIVE_FIXED: u32 = 3;

/// Number of bit positions of the logical-drive bitmask: bit 0 is drive A,
/// bit 25 is drive Z.
pub const DRIVE_BITS: u8 = 26;

/// Storage bus code of IEEE 1394 (FireWire) devices.
pub const STORAGE_BUS_1394: u32 = 4;

/// Storage bus code of USB devices.
pub const STORAGE_BUS_USB: u32 = 7;

/// Byte offset of the vendor-id string offset in a storage device descriptor.
pub const VENDOR_ID_OFFSET_AT: usize = 12;

/// Byte offset of the product-id string offset in a storage device descriptor.
pub const PRODUCT_ID_OFFSET_AT: usize = 16;

/// Byte offset of the bus type in a storage device descriptor.
pub const BUS_TYPE_AT: usize = 28;

/// Number of leading descriptor bytes that hold the fields read here.
pub const DESCRIPTOR_FIXED_LEN: usize = 32;

/// The type of bus a removable device is connected through.
#[derive(Debug, Clone, Copy, PartialEq, Eq, Structural)]
pub enum BusType {
    Usb,
    Firewire,
    Unknown,
}

/// A single removable drive visible to the system.
#[derive(Debug, Clone)]
pub struct RemovableDrive {
    /// Drive letter + backslash, e.g. "E:\"
    pub mount_point: String,
    /// User-visible volume label, e.g. "My USB Drive"
    pub label: String,
    /// Hardware vendor string, e.g. "SanDisk"
    pub vendor: String,
    /// Hardware product string, e.g. "Ultra"
    pub product: String,
    /// Connection bus type
    pub bus_type: BusType,
    /// Whether this device is a card reader (set by user config or detection)
    pub is_card_reader: bool,
}

/// The contents of a `RemovableDrive`, with its strings as character sequences.
pub struct DriveView {
    pub mount_point: Seq<char>,
    pub label: Seq<char>,
    pub vendor: Seq<char>,
    pub product: Seq<char>,
    pub bus_type: BusType,
    pub is_card_reader: bool,
}

impl View for RemovableDrive {
    type V = DriveView;

    open spec fn view(&self) -> DriveView {
        DriveView {
            mount_point: self.mount_point@,
            label: self.label@,
            vendor: self.vendor@,
            product: self.product@,
            bus_type: self.bus_type,
            is_card_reader: self.is_card_reader,
        }
    }
}

/// Generic device properties
#[derive(Debug, Clone)]
pub struct DeviceProperties {
    pub bus_type: BusType,
    pub vendor: String,
    pub product: String,
}

pub struct PropertiesView {
    pub bus_type: BusType,
    pub vendor: Seq<char>,
    pub product: Seq<char>,
}

impl View for DeviceProperties {
    type V = PropertiesView;

    open spec fn view(&self) -> PropertiesView {
        PropertiesView { bus_type: self.bus_type, vendor: self.vendor@, product: self.product@ }
    }
}

/// What the system answered about one logical drive: its drive type, and,
/// where they were queried and the queries succeeded, its volume label and
/// device properties.
pub struct DriveProbe {
    pub drive_type: u32,
    pub label: Option<String>,
    pub properties: Option<DeviceProperties>,
}

pub struct ProbeView {
    pub drive_type: u32,
    pub label: Option<Seq<char>>,
    pub properties: Option<PropertiesView>,
}

pub open spec fn option_string_view(o: Option<String>) -> Option<Seq<char>> {
    match o {
        Some(s) => Some(s@),
        None => None,
    }
}

pub open spec fn option_properties_view(o: Option<DeviceProperties>) -> Option<PropertiesView> {
    match o {
        Some(p) => Some(p@),
        None => None,
    }
}

impl View for DriveProbe {
    type V = ProbeView;

    open spec fn view(&self) -> ProbeView {
        ProbeView {
            drive_type: self.drive_type,
            label: option_string_view(self.label),
            properties: option_properties_view(self.properties),
        }
    }
}

// ---------------------------------------------------------------------------
// Logical drive letters
// ---------------------------------------------------------------------------

/// The root path of the drive at bit position `i`: its letter (`'A'` for
/// bit 0), a colon and a backslash.
pub open spec fn drive_root(i: nat) -> Seq<char> {
    seq![((65 + i) as u8) as char, ':', '\\']
}

/// The root paths for the set bits among the first `n` positions of `mask`,
/// lowest position first.
pub open spec fn drive_roots(mask: u32, n: nat) -> Seq<Seq<char>>
    decreases n,
{
    if n == 0 {
        Seq::empty()
    } else if bit_is_set(mask, (n - 1) as u32) {
        drive_roots(mask, (n - 1) as nat).push(drive_root((n - 1) as nat))
    } else {
        drive_roots(mask, (n - 1) as nat)
    }
}

pub open spec fn string_views(v: Seq<String>) -> Seq<Seq<char>> {
    v.map_values(|s: String| s@)
}

/// Returns drive root paths for every letter present in the system bitmask
/// `logical_drives`, e.g. ["C:\\", "E:\\", "F:\\"].
pub fn logical_drive_letters(logical_drives: u32) -> (drives: Vec<String>)
    ensures
        string_views(drives@) == drive_roots(logical_drives, DRIVE_BITS as nat),
{
    let start_letter: u32 = 65;
    let mut drives: Vec<String> = Vec::new();
    let mut i: u8 = 0;
    while i < DRIVE_BITS
        invariant
            i <= DRIVE_BITS,
            start_letter == 65,
            string_views(drives@) == drive_roots(logical_drives, i as nat),
        decreases DRIVE_BITS - i,
    {
        let ascii_code: u32 = if is_bit_set(logical_drives, i) {
            start_letter + i as u32
        } else {
            0
        };
        if ascii_code != 0 && ascii_code <= ASCII_MAX as u32 {
            let letter: char = (ascii_code as u8) as char;
            let mut root = String::new();
            push_char(&mut root, letter);
            push_char(&mut root, ':');
            push_char(&mut root, '\\');
            let ghost before = drives@;
            drives.push(root);
            proof {
                assert(root@ =~= drive_root(i as nat));
                assert(string_views(drives@) =~= string_views(before).push(root@));
            }
        } else {
            assert(!bit_is_set(logical_drives, i as u32));
        }
        i = i + 1;
    }
    drives
}

/// Every listed root stands for a set bit, and every set bit is listed.
pub proof fn lemma_drive_roots_exact(mask: u32, n: nat, i: nat)
    requires
        i < n,
        n <= 26,
    ensures
        bit_is_set(mask, i as u32) <==> drive_roots(mask, n).contains(drive_root(i)),
    decreases n,
{
    lemma_drive_root_letter(i);
    lemma_drive_root_letter((n - 1) as nat);
    let prev = drive_roots(mask, (n - 1) as nat);
    let cur = drive_roots(mask, n);
    lemma_drive_roots_letters(mask, (n - 1) as nat);
    if n - 1 == i {
        if bit_is_set(mask, i as u32) {
            assert(cur == prev.push(drive_root(i)));
            assert(cur[cur.len() - 1] == drive_root(i));
        } else {
            assert(cur == prev);
            if cur.contains(drive_root(i)) {
                let k = choose|k: int| 0 <= k < cur.len() && cur[k] == drive_root(i);
                assert(prev[k][0] == drive_root(i)[0]);
            }
        }
    } else {
        lemma_drive_roots_exact(mask, (n - 1) as nat, i);
        if bit_is_set(mask, (n - 1) as u32) {
            assert(cur == prev.push(drive_root((n - 1) as nat)));
            if prev.contains(drive_root(i)) {
                let k = choose|k: int| 0 <= k < prev.len() && prev[k] == drive_root(i);
                assert(cur[k] == drive_root(i));
            }
            if cur.contains(drive_root(i)) {
                let k = choose|k: int| 0 <= k < cur.len() && cur[k] == drive_root(i);
                if k == prev.len() {
                    assert(drive_root((n - 1) as nat)[0] == drive_root(i)[0]);
                } else {
                    assert(prev[k] == drive_root(i));
                }
            }
        } else {
            assert(cur == prev);
        }
    }
}

/// The root at position `i` is the letter with code `'A' + i` (an upper-case
/// letter A to Z), a colon and a backslash.
pub proof fn lemma_drive_root_letter(i: nat)
    requires
        i < 26,
    ensures
        drive_root(i)[0] as u32 == 65 + i,
        'A' <= drive_root(i)[0] <= 'Z',
        drive_root(i)[1] == ':',
        drive_root(i)[2] == '\\',
        drive_root(i).len() == 3,
{
    let b = (65 + i) as u8;
    assert(b == 65 + i);
    assert((b as char) as u32 == b as u32);
}

/// Whether `r` is the root of a position below `n` whose bit is set in `mask`.
pub open spec fn root_of_set_bit(mask: u32, n: nat, r: Seq<char>) -> bool {
    exists|j: nat| j < n && bit_is_set(mask, j as u32) && r == drive_root(j)
}

/// Each listed root is the root of a position below `n`, letters strictly
/// increasing.
pub proof fn lemma_drive_roots_letters(mask: u32, n: nat)
    requires
        n <= 26,
    ensures
        forall|k: int|
            0 <= k < drive_roots(mask, n).len() ==> root_of_set_bit(
                mask,
                n,
                #[trigger] drive_roots(mask, n)[k],
            ),
        forall|k: int|
            0 <= k < drive_roots(mask, n).len() ==> (drive_roots(mask, n)[k][0] as u32) < 65 + n,
        forall|a: int, b: int|
            0 <= a < b < drive_roots(mask, n).len() ==> (drive_roots(mask, n)[a][0] as u32) < (
            drive_roots(mask, n)[b][0] as u32),
    decreases n,
{
    if n > 0 {
        lemma_drive_roots_letters(mask, (n - 1) as nat);
        let prev = drive_roots(mask, (n - 1) as nat);
        let cur = drive_roots(mask, n);
        assert forall|k: int| 0 <= k < cur.len() implies root_of_set_bit(mask, n, #[trigger] cur[k]) by {
            if k < prev.len() {
                assert(cur[k] == prev[k]);
                assert(root_of_set_bit(mask, (n - 1) as nat, prev[k]));
                let j = choose|j: nat| j < n - 1 && bit_is_set(mask, j as u32) && prev[k] == drive_root(j);
                assert(cur[k] == drive_root(j));
            } else {
                if !bit_is_set(mask, (n - 1) as u32) {
                    assert(cur == prev);
                }
                let w: nat = (n - 1) as nat;
                assert(bit_is_set(mask, w as u32));
                assert(cur[k] == drive_root(w));
            }
        }
        assert forall|k: int| 0 <= k < cur.len() implies (cur[k][0] as u32) < 65 + n by {
            if k < prev.len() {
                assert(cur[k] == prev[k]);
            } else {
                assert(cur[k] == drive_root((n - 1) as nat));
            }
        }
        assert forall|a: int, b: int| 0 <= a < b < cur.len() implies (cur[a][0] as u32) < (
        cur[b][0] as u32) by {
            if b < prev.len() {
                assert(cur[a] == prev[a]);
                assert(cur[b] == prev[b]);
            } else {
                assert(cur[a] == prev[a]);
                assert(cur[b] == drive_root((n - 1) as nat));
            }
        }
    }
}

// ---------------------------------------------------------------------------
// Drive types and buses
// ---------------------------------------------------------------------------

/// Whether a drive of this type is offered for removal: removable media, or a
/// fixed disk (external hard drives report themselves as fixed).
pub open spec fn removable_or_fixed(drive_type: u32) -> bool {
    drive_type == DRIVE_REMOVABLE || drive_type == DRIVE_FIXED
}

/// Returns true if a drive of type `drive_type` is removable or fixed (for
/// external HDDs).
pub fn is_removable(drive_type: u32) -> (r: bool)
    ensures
        r == removable_or_fixed(drive_type),
{
    drive_type == DRIVE_REMOVABLE || drive_type == DRIVE_FIXED
}

/// Whether the bus is one that devices are removed from: USB or FireWire.
pub open spec fn removable_bus(bus: BusType) -> bool {
    bus == BusType::Usb || bus == BusType::Firewire
}

/// Returns true if the given bus is a removable bus.
pub fn is_removable_bus(bus: &BusType) -> (r: bool)
    ensures
        r == removable_bus(*bus),
{
    *bus == BusType::Usb || *bus == BusType::Firewire
}

/// A drive counts as removable when its type says so or when it sits on a
/// removable bus.
pub fn is_removable_device(drive_type: u32, bus: Option<BusType>) -> (r: bool)
    ensures
        r == (drive_type == DRIVE_REMOVABLE || (bus matches Some(b) && removable_bus(b))),
{
    let removable_flag = drive_type == DRIVE_REMOVABLE;
    let removable_bus = match bus {
        Some(b) => is_removable_bus(&b),
        None => false,
    };
    removable_flag || removable_bus
}

// ---------------------------------------------------------------------------
// Volume labels
// ---------------------------------------------------------------------------

/// The index of the first zero unit at or after `i`, or the length if none.
pub open spec fn first_zero_u16(s: Seq<u16>, i: int) -> int
    decreases s.len() - i,
{
    if i >= s.len() {
        s.len() as int
    } else if s[i] == 0 {
        i
    } else {
        first_zero_u16(s, i + 1)
    }
}

/// The label held in a volume-name buffer: the text before its first NUL, or
/// nothing when the buffer holds no NUL.
pub open spec fn label_of_buffer(buffer: Seq<u16>) -> Seq<char> {
    let end = first_zero_u16(buffer, 0);
    if end < buffer.len() {
        utf16_decode_lossy(buffer.take(end))
    } else {
        Seq::empty()
    }
}

/// Returns the volume label held in `buffer` when the volume query succeeded,
/// or None on failure.
pub fn volume_label(query_succeeded: bool, buffer: &[u16]) -> (label: Option<String>)
    ensures
        query_succeeded <==> label is Some,
        label matches Some(l) ==> l@ == label_of_buffer(buffer@),
{
    let n: usize = buffer.len();
    let mut i: usize = 0;
    while i < n && buffer[i] != 0
        invariant
            n == buffer@.len(),
            i <= n,
            first_zero_u16(buffer@, 0) == first_zero_u16(buffer@, i as int),
        decreases n - i,
    {
        i = i + 1;
    }
    let null_pos: usize = if i < n {
        i
    } else {
        0
    };
    let mut prefix: Vec<u16> = Vec::new();
    let mut k: usize = 0;
    while k < null_pos
        invariant
            n == buffer@.len(),
            k <= null_pos <= n,
            prefix@ == buffer@.take(k as int),
        decreases null_pos - k,
    {
        prefix.push(buffer[k]);
        assert(prefix@ =~= buffer@.take(k + 1));
        k = k + 1;
    }
    let label = decode_utf16_lossy(prefix.as_slice());
    proof {
        if i >= n {
            assert(buffer@.take(0) =~= Seq::<u16>::empty());
            assert(utf16_decode_lossy(Seq::<u16>::empty()) =~= Seq::<char>::empty());
        }
    }
    if query_succeeded {
        Some(label)
    } else {
        None
    }
}

/// A label written into the buffer as a NUL-terminated wide string is read
/// back unchanged, provided the label holds no NUL character.
pub proof fn lemma_volume_label_round_trip(label: Seq<char>, tail: Seq<u16>)
    requires
        !label.contains('\0'),
    ensures
        label_of_buffer(wide_string(label) + tail) == label,
{
    let e = utf16_encode(label);
    let buf = wide_string(label) + tail;
    lemma_encode_no_zero(label);
    assert forall|k: int| 0 <= k < e.len() implies buf[k] != 0u16 by {
        assert(buf[k] == e[k]);
        if e[k] == 0u16 {
            assert(e.contains(0u16));
        }
    }
    assert(first_zero_u16(buf, 0) == e.len()) by {
        lemma_first_zero_prefix(e, buf, 0);
    }
    assert(buf.take(e.len() as int) =~= e);
    lemma_utf16_round_trip(label);
}

proof fn lemma_first_zero_prefix(e: Seq<u16>, buf: Seq<u16>, i: int)
    requires
        0 <= i <= e.len(),
        e.len() < buf.len(),
        buf[e.len() as int] == 0u16,
        forall|k: int| 0 <= k < e.len() ==> buf[k] != 0u16,
    ensures
        first_zero_u16(buf, i) == e.len(),
    decreases e.len() - i,
{
    if i < e.len() {
        lemma_first_zero_prefix(e, buf, i + 1);
    }
}

// ---------------------------------------------------------------------------
// Storage device descriptors
// ---------------------------------------------------------------------------

/// The little-endian 32-bit value stored at `at`.
pub open spec fn le_u32(b: Seq<u8>, at: int) -> int {
    b[at] + b[at + 1] * 0x100 + b[at + 2] * 0x10000 + b[at + 3] * 0x1000000
}

fn read_le_u32(b: &[u8], at: usize) -> (v: u32)
    requires
        at + 4 <= b@.len(),
    ensures
        v as int == le_u32(b@, at as int),
{
    b[at] as u32 + (b[at + 1] as u32) * 0x100 + (b[at + 2] as u32) * 0x10000 + (b[at + 3] as u32)
        * 0x1000000
}

/// The bus named by a storage bus code.
pub open spec fn bus_of_code(code: int) -> BusType {
    if code == STORAGE_BUS_USB {
        BusType::Usb
    } else if code == STORAGE_BUS_1394 {
        BusType::Firewire
    } else {
        BusType::Unknown
    }
}

/// The bus type recorded in a descriptor, when the descriptor is long enough
/// to hold it.
pub open spec fn descriptor_bus(d: Seq<u8>) -> Option<BusType> {
    if d.len() < DESCRIPTOR_FIXED_LEN {
        None
    } else {
        Some(bus_of_code(le_u32(d, BUS_TYPE_AT as int)))
    }
}

/// Returns the bus type recorded in a storage device descriptor; None when the
/// descriptor is too short to hold the bus type.
pub fn bus_type_from_drive(descriptor: &[u8]) -> (bus: Option<BusType>)
    ensures
        bus == descriptor_bus(descriptor@),
{
    if descriptor.len() < DESCRIPTOR_FIXED_LEN {
        return None;
    }
    let code: u32 = read_le_u32(descriptor, BUS_TYPE_AT);
    if code == STORAGE_BUS_USB {
        Some(BusType::Usb)
    } else if code == STORAGE_BUS_1394 {
        Some(BusType::Firewire)
    } else {
        Some(BusType::Unknown)
    }
}

/// The index of the first zero byte at or after `i`, or the length if none.
pub open spec fn first_zero_u8(s: Seq<u8>, i: int) -> int
    decreases s.len() - i,
{
    if i >= s.len() {
        s.len() as int
    } else if s[i] == 0 {
        i
    } else {
        first_zero_u8(s, i + 1)
    }
}

/// The identification string that starts at `offset` in a descriptor: empty
/// for offset zero, otherwise the NUL-terminated bytes there, decoded as UTF-8
/// and trimmed of whitespace. None when the offset lies outside the
/// descriptor or the string has no terminating NUL inside it.
pub open spec fn descriptor_string(d: Seq<u8>, offset: int) -> Option<Seq<char>> {
    if offset == 0 {
        Some(Seq::empty())
    } else if offset < d.len() && first_zero_u8(d, offset) < d.len() {
        Some(trim(utf8_decode_lossy(d.subrange(offset, first_zero_u8(d, offset)))))
    } else {
        None
    }
}

/// Whether the identification string at a nonzero `offset` is terminated
/// inside the descriptor and is well-formed UTF-8.
pub open spec fn plain_descriptor_string(d: Seq<u8>, offset: int) -> bool {
    &&& 0 < offset < d.len()
    &&& first_zero_u8(d, offset) < d.len()
    &&& valid_utf8(d.subrange(offset, first_zero_u8(d, offset)))
}

/// The trimmed text of a well-formed identification string.
pub open spec fn plain_string_text(d: Seq<u8>, offset: int) -> Seq<char> {
    trim(decode_utf8(d.subrange(offset, first_zero_u8(d, offset))))
}

/// Reads the NUL-terminated identification string at `offset`.
fn read_descriptor_string(d: &[u8], offset: u32) -> (s: Option<String>)
    ensures
        option_string_view(s) == descriptor_string(d@, offset as int),
        plain_descriptor_string(d@, offset as int) ==> (s matches Some(t) && t@
            == plain_string_text(d@, offset as int)),
{
    if offset == 0 {
        return Some(String::new());
    }
    let n: usize = d.len();
    if offset as usize >= n {
        return None;
    }
    let start: usize = offset as usize;
    let mut end: usize = start;
    while end < n && d[end] != 0
        invariant
            n == d@.len(),
            start <= end <= n,
            start == offset,
            first_zero_u8(d@, start as int) == first_zero_u8(d@, end as int),
        decreases n - end,
    {
        end = end + 1;
    }
    if end >= n {
        return None;
    }
    let mut bytes: Vec<u8> = Vec::new();
    let mut k: usize = start;
    while k < end
        invariant
            n == d@.len(),
            start <= k <= end < n,
            bytes@ == d@.subrange(start as int, k as int),
        decreases end - k,
    {
        bytes.push(d[k]);
        assert(bytes@ =~= d@.subrange(start as int, k + 1));
        k = k + 1;
    }
    let decoded = utf8_lossy(bytes.as_slice());
    Some(trim_whitespace(decoded.as_str()))
}

/// The properties that a descriptor records: its bus type, vendor string and
/// product string; None when the descriptor is too short or one of the
/// strings cannot be read.
pub open spec fn descriptor_properties(d: Seq<u8>) -> Option<PropertiesView> {
    if d.len() < DESCRIPTOR_FIXED_LEN {
        None
    } else {
        let vendor = descriptor_string(d, le_u32(d, VENDOR_ID_OFFSET_AT as int));
        let product = descriptor_string(d, le_u32(d, PRODUCT_ID_OFFSET_AT as int));
        if vendor is Some && product is Some {
            Some(
                PropertiesView {
                    bus_type: bus_of_code(le_u32(d, BUS_TYPE_AT as int)),
                    vendor: vendor->0,
                    product: product->0,
                },
            )
        } else {
            None
        }
    }
}

/// Reads a device's properties from the storage device descriptor that the
/// device returned.
pub fn query_device_properties(descriptor: &[u8]) -> (props: Option<DeviceProperties>)
    ensures
        option_properties_view(props) == descriptor_properties(descriptor@),
        props matches Some(p) ==> {
            let vendor_at = le_u32(descriptor@, VENDOR_ID_OFFSET_AT as int);
            let product_at = le_u32(descriptor@, PRODUCT_ID_OFFSET_AT as int);
            &&& plain_descriptor_string(descriptor@, vendor_at) ==> p.vendor@ == plain_string_text(
                descriptor@,
                vendor_at,
            )
            &&& plain_descriptor_string(descriptor@, product_at) ==> p.product@
                == plain_string_text(descriptor@, product_at)
        },
{
    let bus_type = match bus_type_from_drive(descriptor) {
        Some(b) => b,
        None => return None,
    };
    let vendor_offset: u32 = read_le_u32(descriptor, VENDOR_ID_OFFSET_AT);
    let product_offset: u32 = read_le_u32(descriptor, PRODUCT_ID_OFFSET_AT);
    let vendor = match read_descriptor_string(descriptor, vendor_offset) {
        Some(v) => v,
        None => return None,
    };
    let product = match read_descriptor_string(descriptor, product_offset) {
        Some(p) => p,
        None => return None,
    };
    Some(DeviceProperties { bus_type, vendor, product })
}

/// The vendor and product strings read from a descriptor neither start nor
/// end with whitespace.
pub proof fn lemma_descriptor_strings_trimmed(d: Seq<u8>)
    ensures
        descriptor_properties(d) matches Some(p) ==> {
            &&& p.vendor.len() > 0 ==> !is_white_space(p.vendor[0]) && !is_white_space(
                p.vendor.last(),
            )
            &&& p.product.len() > 0 ==> !is_white_space(p.product[0]) && !is_white_space(
                p.product.last(),
            )
        },
{
    if d.len() >= DESCRIPTOR_FIXED_LEN {
        let vo = le_u32(d, VENDOR_ID_OFFSET_AT as int);
        let po = le_u32(d, PRODUCT_ID_OFFSET_AT as int);
        if vo != 0 && vo < d.len() && first_zero_u8(d, vo) < d.len() {
            lemma_trim_idempotent(utf8_decode_lossy(d.subrange(vo, first_zero_u8(d, vo))));
        }
        if po != 0 && po < d.len() && first_zero_u8(d, po) < d.len() {
            lemma_trim_idempotent(utf8_decode_lossy(d.subrange(po, first_zero_u8(d, po))));
        }
    }
}

// ---------------------------------------------------------------------------
// Assembling the drive list
// ---------------------------------------------------------------------------

/// The device path of the volume whose root starts with the letter of `root`:
/// two backslashes, a dot, a backslash, the letter and a colon.
pub open spec fn device_path_of(root: Seq<char>) -> Seq<char> {
    seq!['\\', '\\', '.', '\\', root[0], ':']
}

/// Returns the DOS device path (`\\.\X:`) used to open the volume mounted at
/// `drive_letter`.
pub fn device_path(drive_letter: &str) -> (path: String)
    requires
        drive_letter@.len() > 0,
    ensures
        path@ == device_path_of(drive_letter@),
{
    let mut path = String::new();
    push_char(&mut path, '\\');
    push_char(&mut path, '\\');
    push_char(&mut path, '.');
    push_char(&mut path, '\\');
    push_char(&mut path, drive_letter.get_char(0));
    push_char(&mut path, ':');
    assert(path@ =~= device_path_of(drive_letter@));
    path
}

/// The drive made of a root, a label and device properties.
pub open spec fn drive_of(root: Seq<char>, label: Seq<char>, props: PropertiesView) -> DriveView {
    DriveView {
        mount_point: root,
        label: label,
        vendor: props.vendor,
        product: props.product,
        bus_type: props.bus_type,
        is_card_reader: false,
    }
}

/// Combines the answers about the drive at `root` into its description;
/// None if the volume label or the device properties could not be read.
pub fn drive_info(root: &str, label: Option<String>, props: Option<DeviceProperties>) -> (drive:
    Option<RemovableDrive>)
    ensures
        drive is Some <==> (label is Some && props is Some),
        drive matches Some(d) ==> d@ == drive_of(root@, label->0@, props->0@),
{
    let label = match label {
        Some(l) => l,
        None => return None,
    };
    let props = match props {
        Some(p) => p,
        None => return None,
    };
    Some(
        RemovableDrive {
            mount_point: String::from_str(root),
            label,
            vendor: props.vendor,
            product: props.product,
            bus_type: props.bus_type,
            is_card_reader: false,
        },
    )
}

/// The drive that the probe of the drive at `root` yields: one of removable or
/// fixed type, whose label and properties were read, on a removable bus.
pub open spec fn probe_drive(root: Seq<char>, p: ProbeView) -> Option<DriveView> {
    if removable_or_fixed(p.drive_type) && p.label is Some && p.properties is Some && removable_bus(
        p.properties->0.bus_type,
    ) {
        Some(drive_of(root, p.label->0, p.properties->0))
    } else {
        None
    }
}

/// The drives that the first `k` roots and their probes yield, in order.
pub open spec fn probed_drives(roots: Seq<Seq<char>>, ps: Seq<ProbeView>, k: nat) -> Seq<DriveView>
    decreases k,
{
    if k == 0 {
        Seq::empty()
    } else {
        let prev = probed_drives(roots, ps, (k - 1) as nat);
        match probe_drive(roots[k - 1], ps[k - 1]) {
            Some(d) => prev.push(d),
            None => prev,
        }
    }
}

/// The drives listed for the bitmask `mask` when the `k`-th probe answers for
/// the `k`-th drive root of the mask; roots without a probe, and probes
/// without a root, yield nothing.
pub open spec fn listed_drives(mask: u32, ps: Seq<ProbeView>) -> Seq<DriveView> {
    let roots = drive_roots(mask, DRIVE_BITS as nat);
    probed_drives(roots, ps, if roots.len() <= ps.len() {
        roots.len()
    } else {
        ps.len()
    })
}

pub open spec fn probe_views(ps: Seq<DriveProbe>) -> Seq<ProbeView> {
    ps.map_values(|p: DriveProbe| p@)
}

pub open spec fn drive_views(ds: Seq<RemovableDrive>) -> Seq<DriveView> {
    ds.map_values(|d: RemovableDrive| d@)
}

/// Returns all removable drives currently visible to the system, given the
/// logical-drive bitmask and, in the order of `logical_drive_letters`, what
/// the system answered about each of those drives.
pub fn enumerate_drives(logical_drives: u32, probes: Vec<DriveProbe>) -> (drives: Vec<
    RemovableDrive,
>)
    ensures
        drive_views(drives@) == listed_drives(logical_drives, probe_views(probes@)),
{
    let roots = logical_drive_letters(logical_drives);
    let ghost root_views = string_views(roots@);
    let ghost all = probe_views(probes@);
    let total: usize = probes.len();
    let mut rest = probes;
    let mut drives: Vec<RemovableDrive> = Vec::new();
    let mut i: usize = 0;
    let ghost n = all.len();
    while i < roots.len() && rest.len() > 0
        invariant
            total == n,
            n == all.len(),
            root_views == string_views(roots@),
            root_views == drive_roots(logical_drives, DRIVE_BITS as nat),
            i <= roots@.len(),
            i + rest@.len() == n,
            probe_views(rest@) == all.subrange(i as int, n as int),
            drive_views(drives@) == probed_drives(root_views, all, i as nat),
        decreases rest@.len(),
    {
        let ghost before = rest@;
        let probe = rest.remove(0);
        proof {
            assert(probe_views(before)[0] == before[0]@);
            assert(probe@ == all[i as int]);
            assert(probe_views(rest@) =~= all.subrange(i + 1, n as int)) by {
                assert(rest@ =~= before.remove(0));
                assert forall|k: int| 0 <= k < rest@.len() implies probe_views(rest@)[k]
                    == all.subrange(i + 1, n as int)[k] by {
                    assert(rest@[k] == before[k + 1]);
                    assert(probe_views(before)[k + 1] == before[k + 1]@);
                }
            }
            assert(root_views[i as int] == roots@[i as int]@);
        }
        if is_removable(probe.drive_type) {
            let info = drive_info(roots[i].as_str(), probe.label, probe.properties);
            match info {
                Some(d) => {
                    if is_removable_bus(&d.bus_type) {
                        let ghost prev = drives@;
                        drives.push(d);
                        assert(drive_views(drives@) =~= drive_views(prev).push(d@));
                    }
                },
                None => {},
            }
        }
        i = i + 1;
    }
    drives
}

/// Each drive that the first `k` probes yield comes from the probe of one of
/// the first `k` roots, and when the roots' letters increase, so do the
/// drives' mount-point letters.
pub proof fn lemma_probed_drives_in_order(roots: Seq<Seq<char>>, ps: Seq<ProbeView>, k: nat)
    requires
        k <= roots.len(),
        k <= ps.len(),
        forall|j: int| 0 <= j < roots.len() ==> #[trigger] roots[j].len() > 0,
        forall|a: int, b: int|
            0 <= a < b < roots.len() ==> (roots[a][0] as u32) < (roots[b][0] as u32),
    ensures
        forall|a: int|
            0 <= a < probed_drives(roots, ps, k).len() ==> exists|j: int|
                0 <= j < k && probe_drive(roots[j], ps[j]) == Some(
                    #[trigger] probed_drives(roots, ps, k)[a],
                ),
        forall|a: int, b: int|
            0 <= a < b < probed_drives(roots, ps, k).len() ==> (probed_drives(
                roots,
                ps,
                k,
            )[a].mount_point[0] as u32) < (probed_drives(roots, ps, k)[b].mount_point[0] as u32),
    decreases k,
{
    if k > 0 {
        lemma_probed_drives_in_order(roots, ps, (k - 1) as nat);
        let prev = probed_drives(roots, ps, (k - 1) as nat);
        let cur = probed_drives(roots, ps, k);
        assert forall|a: int| 0 <= a < cur.len() implies exists|j: int|
            0 <= j < k && probe_drive(roots[j], ps[j]) == Some(#[trigger] cur[a]) by {
            if a < prev.len() {
                assert(cur[a] == prev[a]);
                let j = choose|j: int|
                    0 <= j < k - 1 && probe_drive(roots[j], ps[j]) == Some(prev[a]);
                assert(probe_drive(roots[j], ps[j]) == Some(cur[a]));
            } else {
                assert(probe_drive(roots[k - 1], ps[k - 1]) == Some(cur[a]));
            }
        }
        assert forall|a: int, b: int| 0 <= a < b < cur.len() implies (cur[a].mount_point[0] as u32)
            < (cur[b].mount_point[0] as u32) by {
            assert(cur[a] == prev[a]);
            if b >= prev.len() {
                let j = choose|j: int|
                    0 <= j < k - 1 && probe_drive(roots[j], ps[j]) == Some(prev[a]);
                assert(cur[a].mount_point == roots[j]);
                assert(cur[b].mount_point == roots[k - 1]);
            } else {
                assert(cur[b] == prev[b]);
            }
        }
    }
}

/// The drive list follows the bitmask: every listed drive is mounted at the
/// root `X:\` of a letter A to Z whose bit is set, lies on a removable bus,
/// is not marked as a card reader, and the mount-point letters strictly
/// increase, so no mount point is listed twice.
pub proof fn lemma_listed_drives_follow_mask(mask: u32, ps: Seq<ProbeView>)
    ensures
        forall|a: int|
            0 <= a < listed_drives(mask, ps).len() ==> exists|j: nat|
                j < DRIVE_BITS && bit_is_set(mask, j as u32) && (#[trigger] listed_drives(
                    mask,
                    ps,
                )[a]).mount_point == drive_root(j),
        forall|a: int|
            0 <= a < listed_drives(mask, ps).len() ==> removable_bus(
                (#[trigger] listed_drives(mask, ps)[a]).bus_type,
            ) && !listed_drives(mask, ps)[a].is_card_reader,
        forall|a: int, b: int|
            0 <= a < b < listed_drives(mask, ps).len() ==> (listed_drives(
                mask,
                ps,
            )[a].mount_point[0] as u32) < (listed_drives(mask, ps)[b].mount_point[0] as u32),
{
    let roots = drive_roots(mask, DRIVE_BITS as nat);
    let k = if roots.len() <= ps.len() {
        roots.len()
    } else {
        ps.len()
    };
    lemma_drive_roots_letters(mask, DRIVE_BITS as nat);
    assert forall|j: int| 0 <= j < roots.len() implies #[trigger] roots[j].len() > 0 by {
        assert(root_of_set_bit(mask, DRIVE_BITS as nat, roots[j]));
        let i = choose|i: nat| i < DRIVE_BITS && bit_is_set(mask, i as u32) && roots[j] == drive_root(i);
        lemma_drive_root_letter(i);
    }
    lemma_probed_drives_in_order(roots, ps, k);
    let res = listed_drives(mask, ps);
    assert forall|a: int| 0 <= a < res.len() implies exists|j: nat|
        j < DRIVE_BITS && bit_is_set(mask, j as u32) && (#[trigger] res[a]).mount_point == drive_root(
            j,
        ) by {
        let j = choose|j: int| 0 <= j < k && probe_drive(roots[j], ps[j]) == Some(res[a]);
        assert(root_of_set_bit(mask, DRIVE_BITS as nat, roots[j]));
        let i = choose|i: nat| i < DRIVE_BITS && bit_is_set(mask, i as u32) && roots[j] == drive_root(i);
        assert(res[a].mount_point == roots[j]);
    }
    assert forall|a: int| 0 <= a < res.len() implies removable_bus((#[trigger] res[a]).bus_type)
        && !res[a].is_card_reader by {
        let j = choose|j: int| 0 <= j < k && probe_drive(roots[j], ps[j]) == Some(res[a]);
    }
}

/// Every probe that qualifies yields a drive among the first `k` drives.
proof fn lemma_probed_drives_complete(roots: Seq<Seq<char>>, ps: Seq<ProbeView>, k: nat)
    requires
        k <= roots.len(),
        k <= ps.len(),
    ensures
        forall|j: int|
            0 <= j < k && (#[trigger] probe_drive(roots[j], ps[j])) is Some ==> probed_drives(
                roots,
                ps,
                k,
            ).contains(probe_drive(roots[j], ps[j])->0),
    decreases k,
{
    if k > 0 {
        lemma_probed_drives_complete(roots, ps, (k - 1) as nat);
        let prev = probed_drives(roots, ps, (k - 1) as nat);
        let cur = probed_drives(roots, ps, k);
        assert forall|j: int|
            0 <= j < k && (#[trigger] probe_drive(roots[j], ps[j])) is Some implies cur.contains(
            probe_drive(roots[j], ps[j])->0,
        ) by {
            let d = probe_drive(roots[j], ps[j])->0;
            if j < k - 1 {
                let a = choose|a: int| 0 <= a < prev.len() && prev[a] == d;
                match probe_drive(roots[k - 1], ps[k - 1]) {
                    Some(e) => assert(cur[a] == d),
                    None => assert(cur[a] == d),
                }
            } else {
                assert(cur[cur.len() - 1] == d);
            }
        }
    }
}

/// The drive list is exactly the qualifying drives. For every drive root of
/// the bitmask that has a probe (the `k`-th probe answering for the `k`-th
/// root): when the probe reports removable media or a fixed disk, a volume
/// label and device properties on a USB or FireWire bus, the list holds that
/// drive, mounted at that root with that label, vendor, product and bus and
/// not marked as a card reader; and every listed drive is such a drive for
/// one of those roots.
pub proof fn lemma_listed_drives_exact(mask: u32, ps: Seq<ProbeView>)
    ensures
        ({
            let roots = drive_roots(mask, DRIVE_BITS as nat);
            let listed = listed_drives(mask, ps);
            &&& forall|k: int|
                0 <= k < roots.len() && k < ps.len() && (ps[k].drive_type == DRIVE_REMOVABLE
                    || ps[k].drive_type == DRIVE_FIXED) && #[trigger] ps[k].label is Some
                    && ps[k].properties is Some && (ps[k].properties->0.bus_type == BusType::Usb
                    || ps[k].properties->0.bus_type == BusType::Firewire) ==> listed.contains(
                    DriveView {
                        mount_point: roots[k],
                        label: ps[k].label->0,
                        vendor: ps[k].properties->0.vendor,
                        product: ps[k].properties->0.product,
                        bus_type: ps[k].properties->0.bus_type,
                        is_card_reader: false,
                    },
                )
            &&& forall|a: int|
                0 <= a < listed.len() ==> exists|k: int|
                    0 <= k < roots.len() && k < ps.len() && (ps[k].drive_type == DRIVE_REMOVABLE
                        || ps[k].drive_type == DRIVE_FIXED) && ps[k].label is Some
                        && ps[k].properties is Some && (ps[k].properties->0.bus_type
                        == BusType::Usb || ps[k].properties->0.bus_type == BusType::Firewire)
                        && #[trigger] listed[a] == DriveView {
                        mount_point: roots[k],
                        label: ps[k].label->0,
                        vendor: ps[k].properties->0.vendor,
                        product: ps[k].properties->0.product,
                        bus_type: ps[k].properties->0.bus_type,
                        is_card_reader: false,
                    }
        }),
{
    let roots = drive_roots(mask, DRIVE_BITS as nat);
    let m = if roots.len() <= ps.len() {
        roots.len()
    } else {
        ps.len()
    };
    lemma_probed_drives_complete(roots, ps, m);
    lemma_drive_roots_letters(mask, DRIVE_BITS as nat);
    assert forall|j: int| 0 <= j < roots.len() implies #[trigger] roots[j].len() > 0 by {
        assert(root_of_set_bit(mask, DRIVE_BITS as nat, roots[j]));
        let i = choose|i: nat| i < DRIVE_BITS && bit_is_set(mask, i as u32) && roots[j] == drive_root(i);
        lemma_drive_root_letter(i);
    }
    lemma_probed_drives_in_order(roots, ps, m);
    let listed = listed_drives(mask, ps);
    assert forall|k: int|
        0 <= k < roots.len() && k < ps.len() && (ps[k].drive_type == DRIVE_REMOVABLE
            || ps[k].drive_type == DRIVE_FIXED) && #[trigger] ps[k].label is Some
            && ps[k].properties is Some && (ps[k].properties->0.bus_type == BusType::Usb
            || ps[k].properties->0.bus_type == BusType::Firewire) implies listed.contains(
        DriveView {
            mount_point: roots[k],
            label: ps[k].label->0,
            vendor: ps[k].properties->0.vendor,
            product: ps[k].properties->0.product,
            bus_type: ps[k].properties->0.bus_type,
            is_card_reader: false,
        },
    ) by {
        assert(probe_drive(roots[k], ps[k]) is Some);
    }
    assert forall|a: int| 0 <= a < listed.len() implies exists|k: int|
        0 <= k < roots.len() && k < ps.len() && (ps[k].drive_type == DRIVE_REMOVABLE
            || ps[k].drive_type == DRIVE_FIXED) && ps[k].label is Some && ps[k].properties is Some
            && (ps[k].properties->0.bus_type == BusType::Usb || ps[k].properties->0.bus_type
            == BusType::Firewire) && #[trigger] listed[a] == DriveView {
            mount_point: roots[k],
            label: ps[k].label->0,
            vendor: ps[k].properties->0.vendor,
            product: ps[k].properties->0.product,
            bus_type: ps[k].properties->0.bus_type,
            is_card_reader: false,
        } by {
        let k = choose|k: int| 0 <= k < m && probe_drive(roots[k], ps[k]) == Some(listed[a]);
    }
}

/// The bus of a descriptor is USB exactly when the bus code (the
/// little-endian value in bytes 28 to 31) is 7, FireWire exactly when it is 4,
/// and unknown for every other code; descriptors shorter than 32 bytes give
/// no bus. The properties read from a descriptor carry that same bus.
pub proof fn lemma_bus_codes(d: Seq<u8>)
    ensures
        ({
            let code = d[28] + d[29] * 0x100 + d[30] * 0x10000 + d[31] * 0x1000000;
            &&& d.len() < 32 ==> descriptor_bus(d) is None
            &&& d.len() >= 32 ==> (descriptor_bus(d) == Some(BusType::Usb) <==> code == 7)
            &&& d.len() >= 32 ==> (descriptor_bus(d) == Some(BusType::Firewire) <==> code == 4)
            &&& d.len() >= 32 ==> (descriptor_bus(d) == Some(BusType::Unknown) <==> (code != 7
                && code != 4))
            &&& descriptor_properties(d) matches Some(p) ==> Some(p.bus_type) == descriptor_bus(d)
        }),
{
}

/// Bus codes name buses one to one: 7 is USB, 4 is FireWire, every other
/// code is unknown.
pub proof fn lemma_bus_of_code(code: int)
    ensures
        bus_of_code(code) == BusType::Usb <==> code == 7,
        bus_of_code(code) == BusType::Firewire <==> code == 4,
        bus_of_code(code) == BusType::Unknown <==> (code != 7 && code != 4),
{
}

/// A volume-name buffer whose first NUL is at `end` holds the label made of
/// the units before it; one with no NUL holds the empty label. A label of
/// ordinary characters (no surrogates) has one character per unit, each with
/// the unit's code.
pub proof fn lemma_label_of_buffer(buffer: Seq<u16>, end: int)
    requires
        0 <= end < buffer.len(),
        buffer[end] == 0u16,
        forall|k: int| 0 <= k < end ==> buffer[k] != 0u16,
        forall|k: int|
            0 <= k < end ==> !(0xD800 <= #[trigger] buffer[k] && buffer[k] <= 0xDFFF),
    ensures
        label_of_buffer(buffer).len() == end,
        forall|k: int| 0 <= k < end ==> (#[trigger] label_of_buffer(buffer)[k]) as u32 == buffer[k],
{
    lemma_first_zero_at(buffer, 0, end);
    crate::text::lemma_decode_plain_units(buffer.take(end));
}

proof fn lemma_first_zero_at(s: Seq<u16>, i: int, end: int)
    requires
        0 <= i <= end < s.len(),
        s[end] == 0u16,
        forall|k: int| 0 <= k < end ==> s[k] != 0u16,
    ensures
        first_zero_u16(s, i) == end,
    decreases end - i,
{
    if i < end {
        lemma_first_zero_at(s, i + 1, end);
    }
}

/// A vendor or product string of printable ASCII is reported character for
/// character: when the bytes from `offset` up to the first NUL after it are
/// ASCII and the first and last of them are neither whitespace nor control
/// characters, the string is well-formed and its text is exactly those bytes
/// as characters.
pub proof fn lemma_ascii_descriptor_string(d: Seq<u8>, offset: int)
    requires
        0 < offset < d.len(),
        first_zero_u8(d, offset) < d.len(),
        offset < first_zero_u8(d, offset),
        forall|k: int| offset <= k < first_zero_u8(d, offset) ==> #[trigger] d[k] < 0x80,
        d[offset] > 0x20,
        d[first_zero_u8(d, offset) - 1] > 0x20,
    ensures
        plain_descriptor_string(d, offset),
        plain_string_text(d, offset) == d.subrange(offset, first_zero_u8(d, offset)).map_values(
            |b: u8| b as char,
        ),
{
    let end = first_zero_u8(d, offset);
    let bytes = d.subrange(offset, end);
    let chars = bytes.map_values(|b: u8| b as char);
    assert(vstd::utf8::is_ascii_chars(chars)) by {
        assert forall|i: int| 0 <= i < chars.len() implies '\0' <= #[trigger] chars[i] <= '\u{7f}' by {
            assert(bytes[i] == d[offset + i]);
            assert(chars[i] == bytes[i] as char);
        }
    }
    vstd::utf8::is_ascii_chars_encode_utf8(chars);
    assert(vstd::utf8::encode_utf8(chars) =~= bytes) by {
        assert forall|i: int| 0 <= i < bytes.len() implies vstd::utf8::encode_utf8(chars)[i]
            == bytes[i] by {
            assert(chars[i] == bytes[i] as char);
            assert(chars[i] as u8 == vstd::utf8::encode_utf8(chars)[i]);
        }
    }
    vstd::utf8::encode_utf8_valid_utf8(chars);
    vstd::utf8::encode_utf8_decode_utf8(chars);
    crate::text::lemma_trim_exact(chars);
    assert(chars[0] == bytes[0] as char);
    assert(bytes[0] == d[offset]);
    assert(chars.last() == bytes[bytes.len() - 1] as char);
    assert(bytes[bytes.len() - 1] == d[end - 1]);
}

} // verus!
