//! CRC-32 with the ISO-3309 polynomial, computed through a lookup table.

use vstd::prelude::*;

verus! {

/// The reflected ISO-3309 polynomial.
pub const POLYNOMIAL: u32 = 0xEDB88320;

/// One shift of the checksum register: divide by x, subtracting the
/// polynomial when a one falls out.
pub open spec fn bit_step(crc: u32) -> u32 {
    if crc & 1 != 0 {
        (crc >> 1) ^ POLYNOMIAL
    } else {
        crc >> 1
    }
}

/// `bit_step` applied `n` times.
pub open spec fn bit_steps(crc: u32, n: nat) -> u32
    decreases n,
{
    if n == 0 {
        crc
    } else {
        bit_step(bit_steps(crc, (n - 1) as nat))
    }
}

/// The lookup-table entry of a byte value: eight shifts of that value.
pub open spec fn table_entry(index: u8) -> u32 {
    bit_steps(index as u32, 8)
}

/// A table that holds `table_entry` at each of its 256 indices.
pub open spec fn is_crc_table(table: Seq<u32>) -> bool {
    &&& table.len() == 256
    &&& forall|i: int| 0 <= i < 256 ==> #[trigger] table[i] == table_entry(i as u8)
}

/// The register after one more byte of input.
pub open spec fn update(crc: u32, byte: u8) -> u32 {
    table_entry(((crc ^ (byte as u32)) & 0xFF) as u8) ^ (crc >> 8)
}

/// The register after all of `data`, starting from all ones.
pub open spec fn register_after(data: Seq<u8>) -> u32
    decreases data.len(),
{
    if data.len() == 0 {
        0xFFFF_FFFF
    } else {
        update(register_after(data.drop_last()), data.last())
    }
}

/// The CRC-32 of `data`: the final register, inverted.
pub open spec fn crc32_of(data: Seq<u8>) -> u32 {
    register_after(data) ^ 0xFFFF_FFFF
}

/// Builds the 256-entry lookup table.
pub fn generate_crc32_table() -> (table: Vec<u32>)
    ensures
        is_crc_table(table@),
{
    let mut table: Vec<u32> = Vec::with_capacity(256);
    let mut i: u32 = 0;
    while i < 256
        invariant
            i <= 256,
            table@.len() == i,
            forall|k: int| 0 <= k < i ==> #[trigger] table@[k] == table_entry(k as u8),
        decreases 256 - i,
    {
        let mut crc: u32 = i;
        let mut j: u32 = 0;
        while j < 8
            invariant
                j <= 8,
                crc == bit_steps(i, j as nat),
            decreases 8 - j,
        {
            if crc & 1 != 0 {
                crc = (crc >> 1) ^ POLYNOMIAL;
            } else {
                crc = crc >> 1;
            }
            j += 1;
        }
        table.push(crc);
        i += 1;
    }
    table
}

/// Advances the register `crc` over all of `data`, using `table`.
pub fn update_with_table(table: &Vec<u32>, crc: u32, data: &[u8]) -> (next: u32)
    requires
        is_crc_table(table@),
    ensures
        forall|prefix: Seq<u8>|
            crc == register_after(prefix) ==> next == #[trigger] register_after(prefix + data@),
{
    let mut reg: u32 = crc;
    let mut i: usize = 0;
    while i < data.len()
        invariant
            is_crc_table(table@),
            i <= data@.len(),
            forall|prefix: Seq<u8>|
                crc == register_after(prefix) ==> reg == #[trigger] register_after(
                    prefix + data@.subrange(0, i as int),
                ),
        decreases data@.len() - i,
    {
        let byte: u8 = data[i];
        let index: u32 = (reg ^ (byte as u32)) & 0xFF;
        assert(index < 256) by (bit_vector)
            requires
                index == (reg ^ (byte as u32)) & 0xFF,
        ;
        let entry: u32 = table[index as usize];
        let ghost before = reg;
        reg = entry ^ (reg >> 8);
        assert forall|prefix: Seq<u8>| crc == register_after(prefix) implies reg
            == #[trigger] register_after(prefix + data@.subrange(0, i + 1)) by {
            let shorter = prefix + data@.subrange(0, i as int);
            let longer = prefix + data@.subrange(0, i + 1);
            assert(before == register_after(shorter));
            assert(longer.drop_last() =~= shorter);
            assert(longer.last() == byte);
        }
        i += 1;
    }
    assert forall|prefix: Seq<u8>| crc == register_after(prefix) implies reg
        == #[trigger] register_after(prefix + data@) by {
        assert(data@.subrange(0, data@.len() as int) =~= data@);
        assert(reg == register_after(prefix + data@.subrange(0, data@.len() as int)));
    }
    reg
}

/// Computes the CRC-32 of `data` with the table-driven routine.
pub fn compute_software(data: &[u8]) -> (crc: u32)
    ensures
        crc == crc32_of(data@),
{
    let table = generate_crc32_table();
    let reg = update_with_table(&table, 0xFFFF_FFFF, data);
    proof {
        let empty = Seq::<u8>::empty();
        assert(register_after(empty) == 0xFFFF_FFFF);
        assert(empty + data@ =~= data@);
        assert(reg == register_after(empty + data@));
    }
    reg ^ 0xFFFF_FFFF
}

/// Computes the CRC-32 of `data`.
///
/// Always the table-driven routine: the CRC instructions of common
/// processors use the Castagnoli polynomial and give another checksum.
pub fn compute(data: &[u8]) -> (crc: u32)
    ensures
        crc == crc32_of(data@),
{
    compute_software(data)
}

/// Whether a processor instruction computes the checksum: never, since
/// none computes this polynomial.
pub fn is_hardware_accelerated() -> (accelerated: bool)
    ensures
        !accelerated,
{
    false
}

} // verus!
