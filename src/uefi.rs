use vstd::prelude::*;

verus! {

/// The category of a physical memory range, in the firmware's numbering
/// (`RESERVED` is 0, `PRESISTENT_MEMORY` is 14).
#[allow(non_camel_case_types)]
#[derive(Clone, Copy, Debug, PartialEq, Eq, Structural)]
pub enum EfiMemoryType {
    RESERVED,
    LOADER_CODE,
    LOADER_DATA,
    BOOT_SERVICES_CODE,
    BOOT_SERVICES_DATA,
    RUNTIME_SERVICES_CODE,
    RUNTIME_SERVICES_DATA,
    /// Ordinary RAM that the kernel may use freely.
    CONVENTIONAL_MEMORY,
    UNUSABLE_MEMORY,
    ACPI_RECLAIM_MEMORY,
    ACPI_MEMORY_NVS,
    MEMORY_MAPPED_IO,
    MEMORY_MAPPED_IO_PORT_SPACE,
    PAL_CODE,
    PRESISTENT_MEMORY,
}

/// The firmware's number for each category.
pub open spec fn memory_type_code(t: EfiMemoryType) -> u32 {
    match t {
        EfiMemoryType::RESERVED => 0,
        EfiMemoryType::LOADER_CODE => 1,
        EfiMemoryType::LOADER_DATA => 2,
        EfiMemoryType::BOOT_SERVICES_CODE => 3,
        EfiMemoryType::BOOT_SERVICES_DATA => 4,
        EfiMemoryType::RUNTIME_SERVICES_CODE => 5,
        EfiMemoryType::RUNTIME_SERVICES_DATA => 6,
        EfiMemoryType::CONVENTIONAL_MEMORY => 7,
        EfiMemoryType::UNUSABLE_MEMORY => 8,
        EfiMemoryType::ACPI_RECLAIM_MEMORY => 9,
        EfiMemoryType::ACPI_MEMORY_NVS => 10,
        EfiMemoryType::MEMORY_MAPPED_IO => 11,
        EfiMemoryType::MEMORY_MAPPED_IO_PORT_SPACE => 12,
        EfiMemoryType::PAL_CODE => 13,
        EfiMemoryType::PRESISTENT_MEMORY => 14,
    }
}

impl EfiMemoryType {
    /// The category with the firmware's number `code`; `None` for numbers
    /// outside the standard range (vendor-defined kinds, for instance).
    pub fn from_code(code: u32) -> (r: Option<EfiMemoryType>)
        ensures
            r is None <==> code > 14,
            r matches Some(t) ==> memory_type_code(t) == code,
    {
        match code {
            0 => Some(EfiMemoryType::RESERVED),
            1 => Some(EfiMemoryType::LOADER_CODE),
            2 => Some(EfiMemoryType::LOADER_DATA),
            3 => Some(EfiMemoryType::BOOT_SERVICES_CODE),
            4 => Some(EfiMemoryType::BOOT_SERVICES_DATA),
            5 => Some(EfiMemoryType::RUNTIME_SERVICES_CODE),
            6 => Some(EfiMemoryType::RUNTIME_SERVICES_DATA),
            7 => Some(EfiMemoryType::CONVENTIONAL_MEMORY),
            8 => Some(EfiMemoryType::UNUSABLE_MEMORY),
            9 => Some(EfiMemoryType::ACPI_RECLAIM_MEMORY),
            10 => Some(EfiMemoryType::ACPI_MEMORY_NVS),
            11 => Some(EfiMemoryType::MEMORY_MAPPED_IO),
            12 => Some(EfiMemoryType::MEMORY_MAPPED_IO_PORT_SPACE),
            13 => Some(EfiMemoryType::PAL_CODE),
            14 => Some(EfiMemoryType::PRESISTENT_MEMORY),
            _ => None,
        }
    }

    /// The firmware's number for this category.
    pub fn code(self) -> (r: u32)
        ensures
            r == memory_type_code(self),
    {
        match self {
            EfiMemoryType::RESERVED => 0,
            EfiMemoryType::LOADER_CODE => 1,
            EfiMemoryType::LOADER_DATA => 2,
            EfiMemoryType::BOOT_SERVICES_CODE => 3,
            EfiMemoryType::BOOT_SERVICES_DATA => 4,
            EfiMemoryType::RUNTIME_SERVICES_CODE => 5,
            EfiMemoryType::RUNTIME_SERVICES_DATA => 6,
            EfiMemoryType::CONVENTIONAL_MEMORY => 7,
            EfiMemoryType::UNUSABLE_MEMORY => 8,
            EfiMemoryType::ACPI_RECLAIM_MEMORY => 9,
            EfiMemoryType::ACPI_MEMORY_NVS => 10,
            EfiMemoryType::MEMORY_MAPPED_IO => 11,
            EfiMemoryType::MEMORY_MAPPED_IO_PORT_SPACE => 12,
            EfiMemoryType::PAL_CODE => 13,
            EfiMemoryType::PRESISTENT_MEMORY => 14,
        }
    }
}

/// One entry of the firmware memory map: a physical range of
/// `number_of_pages` pages of 4096 bytes from `physical_start`.
///
/// `memory_type` is the raw category number, so that entries of kinds this
/// kernel does not know survive decoding (and are never used as heap).
#[derive(Clone, Copy, Debug, PartialEq, Eq, Structural)]
pub struct EfiMemoryDescriptor {
    pub memory_type: u32,
    pub physical_start: u64,
    pub virtual_start: u64,
    pub number_of_pages: u64,
    pub attribute: u64,
}

/// The entry describes ordinary RAM, the only kind the heap takes.
pub open spec fn is_usable(d: EfiMemoryDescriptor) -> bool {
    d.memory_type == memory_type_code(EfiMemoryType::CONVENTIONAL_MEMORY)
}

impl EfiMemoryDescriptor {
    /// The entry's category, if it is one of the standard ones.
    pub fn memory_type(&self) -> (r: Option<EfiMemoryType>)
        ensures
            r is None <==> self.memory_type > 14,
            r matches Some(t) ==> memory_type_code(t) == self.memory_type,
    {
        EfiMemoryType::from_code(self.memory_type)
    }

    pub fn physical_start(&self) -> (r: u64)
        ensures
            r == self.physical_start,
    {
        self.physical_start
    }

    pub fn number_of_pages(&self) -> (r: u64)
        ensures
            r == self.number_of_pages,
    {
        self.number_of_pages
    }

    /// The entry is ordinary RAM.
    pub fn is_conventional(&self) -> (r: bool)
        ensures
            r == is_usable(*self),
    {
        self.memory_type == EfiMemoryType::CONVENTIONAL_MEMORY.code()
    }
}

/// Bytes that one map entry takes at least, as the firmware lays it out: a
/// 4-byte kind, 4 bytes of padding, then start, virtual start, page count and
/// attributes, 8 bytes each, all little-endian.
pub const DESCRIPTOR_LEN: usize = 40;

/// Bytes set aside for the firmware to write its memory map into.
pub const MEMORY_MAP_BUFFER_SIZE: usize = 0x8000;

/// The unsigned little-endian number in the `n` bytes of `b` from `ofs`.
pub open spec fn le_bytes(b: Seq<u8>, ofs: int, n: nat) -> int
    decreases n,
{
    if n == 0 {
        0
    } else {
        b[ofs] + 256 * le_bytes(b, ofs + 1, (n - 1) as nat)
    }
}

/// `256^n`.
pub open spec fn byte_bound(n: nat) -> int
    decreases n,
{
    if n == 0 {
        1
    } else {
        256 * byte_bound((n - 1) as nat)
    }
}

proof fn lemma_le_bytes_bound(b: Seq<u8>, ofs: int, n: nat)
    ensures
        0 <= le_bytes(b, ofs, n) < byte_bound(n),
    decreases n,
{
    if n > 0 {
        lemma_le_bytes_bound(b, ofs + 1, (n - 1) as nat);
    }
}

/// The map entry whose bytes start at `ofs` in `b`.
pub open spec fn decode_descriptor(b: Seq<u8>, ofs: int) -> EfiMemoryDescriptor {
    EfiMemoryDescriptor {
        memory_type: le_bytes(b, ofs, 4) as u32,
        physical_start: le_bytes(b, ofs + 8, 8) as u64,
        virtual_start: le_bytes(b, ofs + 16, 8) as u64,
        number_of_pages: le_bytes(b, ofs + 24, 8) as u64,
        attribute: le_bytes(b, ofs + 32, 8) as u64,
    }
}

/// The entries from offset `ofs` on, one every `step` bytes, for as long as
/// an entry starts before `map_size` and lies wholly inside `b`. A `step` of
/// zero means that the firmware never filled the map: there are none. (The
/// middle branch only stops the recursion where no further entry fits.)
pub open spec fn entries_from(b: Seq<u8>, map_size: int, step: int, ofs: int) -> Seq<EfiMemoryDescriptor>
    decreases b.len() - ofs,
{
    if step <= 0 || ofs < 0 || ofs >= map_size || ofs + DESCRIPTOR_LEN > b.len() {
        Seq::empty()
    } else if ofs + step + DESCRIPTOR_LEN > b.len() {
        seq![decode_descriptor(b, ofs)]
    } else {
        seq![decode_descriptor(b, ofs)] + entries_from(b, map_size, step, ofs + step)
    }
}

/// Reads the unsigned little-endian number in `n` bytes of `b` from `ofs`.
fn read_le(b: &Vec<u8>, ofs: usize, n: usize) -> (r: u64)
    requires
        n <= 8,
        ofs + n <= b@.len(),
    ensures
        r == le_bytes(b@, ofs as int, n as nat),
{
    let len = b.len();
    let mut acc: u64 = 0;
    let mut j: usize = n;
    while j > 0
        invariant
            n <= 8,
            ofs + n <= b@.len(),
            len == b@.len(),
            j <= n,
            acc == le_bytes(b@, ofs + j, (n - j) as nat),
        decreases j,
    {
        proof {
            lemma_le_bytes_bound(b@, ofs + j, (n - j) as nat);
            reveal_with_fuel(byte_bound, 8);
            assert(byte_bound((n - j) as nat) <= 0x100_0000_0000_0000);
        }
        acc = acc * 256 + b[ofs + j - 1] as u64;
        j = j - 1;
    }
    acc
}

/// The firmware memory map as the firmware leaves it: a buffer of entries,
/// the number of bytes of it that hold the map, the key that ends boot
/// services, and the size and version of one entry.
pub struct MemoryMapHolder {
    pub memory_map_buffer: Vec<u8>,
    pub memory_map_size: usize,
    pub map_key: usize,
    pub descriptor_size: usize,
    pub descriptor_version: u32,
}

impl MemoryMapHolder {
    /// The entries of the map, in order.
    pub open spec fn entries(&self) -> Seq<EfiMemoryDescriptor> {
        entries_from(self.memory_map_buffer@, self.memory_map_size as int, self.descriptor_size as int, 0)
    }

    /// An empty holder, ready for the firmware to fill: a zeroed buffer, all of
    /// it offered for the map, and no entry size yet.
    pub fn new() -> (r: MemoryMapHolder)
        ensures
            r.memory_map_buffer@.len() == MEMORY_MAP_BUFFER_SIZE,
            forall|i: int| 0 <= i < MEMORY_MAP_BUFFER_SIZE ==> r.memory_map_buffer@[i] == 0,
            r.memory_map_size == MEMORY_MAP_BUFFER_SIZE,
            r.map_key == 0,
            r.descriptor_size == 0,
            r.descriptor_version == 0,
            r.entries() == Seq::<EfiMemoryDescriptor>::empty(),
    {
        MemoryMapHolder {
            memory_map_buffer: vec![0u8; MEMORY_MAP_BUFFER_SIZE],
            memory_map_size: MEMORY_MAP_BUFFER_SIZE,
            map_key: 0,
            descriptor_size: 0,
            descriptor_version: 0,
        }
    }

    /// Decodes the entries of the map, in order.
    pub fn iter(&self) -> (r: Vec<EfiMemoryDescriptor>)
        ensures
            r@ == self.entries(),
    {
        let b = &self.memory_map_buffer;
        let step = self.descriptor_size;
        let mut out: Vec<EfiMemoryDescriptor> = Vec::new();
        if step == 0 {
            return out;
        }
        let mut ofs: usize = 0;
        while ofs < self.memory_map_size && ofs <= b.len() && DESCRIPTOR_LEN <= b.len() - ofs
            invariant
                step == self.descriptor_size,
                step > 0,
                b == &self.memory_map_buffer,
                out@ + entries_from(b@, self.memory_map_size as int, step as int, ofs as int) == self.entries(),
            decreases b@.len() - ofs,
        {
            let kind = read_le(b, ofs, 4);
            proof {
                lemma_le_bytes_bound(b@, ofs as int, 4);
                reveal_with_fuel(byte_bound, 5);
            }
            let d = EfiMemoryDescriptor {
                memory_type: kind as u32,
                physical_start: read_le(b, ofs + 8, 8),
                virtual_start: read_le(b, ofs + 16, 8),
                number_of_pages: read_le(b, ofs + 24, 8),
                attribute: read_le(b, ofs + 32, 8),
            };
            assert(d == decode_descriptor(b@, ofs as int));
            if step > b.len() - ofs - DESCRIPTOR_LEN {
                proof {
                    assert(out@.push(d) =~= out@ + seq![d]);
                }
                out.push(d);
                return out;
            }
            proof {
                let rest = entries_from(b@, self.memory_map_size as int, step as int, ofs + step);
                assert(out@.push(d) + rest =~= out@ + (seq![d] + rest));
            }
            out.push(d);
            ofs = ofs + step;
        }
        proof {
            let rest = entries_from(b@, self.memory_map_size as int, step as int, ofs as int);
            assert(rest =~= Seq::<EfiMemoryDescriptor>::empty());
            assert(out@ + rest =~= out@);
        }
        out
    }
}

} // verus!
