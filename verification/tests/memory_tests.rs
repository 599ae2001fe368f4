use symmem::memory::Memory;
use symmem::value::BitVal;

/// A 64-bit address value.
fn addr_of(a: u64) -> BitVal {
    BitVal::from_u64(a, 64)
}

/// The single known value of a read, if every bit is known and it fits u64.
fn known_u64(v: &BitVal) -> Option<u64> {
    v.as_u64()
}

#[test]
fn uninitialized() {
    let mem = Memory::new_uninitialized();

    let addr = addr_of(0x10000);

    // A read from uninitialized memory is unknown in every bit: nothing
    // constrains it to any value, positive or negative.
    let read_bv = mem.read(&addr, 64);
    assert!(!read_bv.is_fully_known());
    assert_eq!(known_u64(&read_bv), None);
}

#[test]
fn zero_initialized() {
    let mem = Memory::new_zero_initialized();

    let addr = addr_of(0x10000);

    // Read a value from (zero-initialized) memory and check that the only
    // possible value is 0
    let read_bv = mem.read(&addr, 64);
    assert_eq!(known_u64(&read_bv), Some(0));
}

#[test]
fn read_and_write_to_cell_zero() {
    let mut mem = Memory::new_uninitialized();

    // Store a cell's worth of data to address 0
    let data_val = 0x1234_5678;
    let data = BitVal::from_u64(data_val, 64);
    let zero = addr_of(0);
    mem.write(&zero, data);

    // Ensure that we can read it back again
    let read_bv = mem.read(&zero, 64);
    assert_eq!(known_u64(&read_bv), Some(data_val));
}

#[test]
fn read_and_write_cell_aligned() {
    let mut mem = Memory::new_uninitialized();

    // Store a cell's worth of data to a nonzero, but aligned, address
    let data_val = 0x1234_5678;
    let data = BitVal::from_u64(data_val, 64);
    let aligned = addr_of(0x10000);
    mem.write(&aligned, data);

    // Ensure that we can read it back again
    let read_bv = mem.read(&aligned, 64);
    assert_eq!(known_u64(&read_bv), Some(data_val));
}

#[test]
fn read_and_write_small() {
    let mut mem = Memory::new_uninitialized();

    // Store 8 bits of data to an aligned address
    let data_val = 0x4F;
    let data = BitVal::from_u64(data_val, 8);
    let addr = addr_of(0x10000);
    mem.write(&addr, data);

    // Ensure that we can read it back again
    let read_bv = mem.read(&addr, 8);
    assert_eq!(known_u64(&read_bv), Some(data_val));
}

#[test]
fn read_and_write_unaligned() {
    let mut mem = Memory::new_uninitialized();

    // Store 8 bits of data to offset 1 in a cell
    let data_val = 0x4F;
    let data = BitVal::from_u64(data_val, 8);
    let unaligned = addr_of(0x10001);
    mem.write(&unaligned, data);

    // Ensure that we can read it back again
    let read_bv = mem.read(&unaligned, 8);
    assert_eq!(known_u64(&read_bv), Some(data_val));
}

#[test]
fn read_and_write_across_cell_boundaries() {
    let mut mem = Memory::new_uninitialized();

    // Store 64 bits of data such that half is in one cell and half in the next
    let data_val: u64 = 0x12345678_9abcdef0;
    let data = BitVal::from_u64(data_val, 64);
    let addr = addr_of(0x10004);
    mem.write(&addr, data);

    // Ensure that we can read it back again
    let read_bv = mem.read(&addr, 64);
    assert_eq!(known_u64(&read_bv), Some(data_val));
}

#[test]
fn read_and_write_twocells() {
    let mut mem = Memory::new_uninitialized();

    // Store two cells' worth of data to an aligned address
    let data_val_0: u64 = 0x12345678_9abcdef0;
    let data_val_1: u64 = 0x2468ace0_13579bdf;
    let write_val = BitVal::from_u64(data_val_1, 64).concat(&BitVal::from_u64(data_val_0, 64));
    assert_eq!(write_val.width(), 128);
    let addr = addr_of(0x10000);
    mem.write(&addr, write_val);

    // Ensure that we can read it back again
    let read_bv = mem.read(&addr, 128);
    let read_val_0 = read_bv.slice(63, 0).as_u64().unwrap();
    assert_eq!(
        read_val_0, data_val_0,
        "\nGot value 0x{:x}, expected 0x{:x}",
        read_val_0, data_val_0
    );
    let read_val_1 = read_bv.slice(127, 64).as_u64().unwrap();
    assert_eq!(read_val_1, data_val_1);
}

#[test]
fn read_and_write_200bits() {
    let mut mem = Memory::new_uninitialized();

    // Store 200 bits of data to an aligned address
    let data_val_0: u64 = 0x12345678_9abcdef0;
    let data_val_1: u64 = 0x2468ace0_13579bdf;
    let data_val_2: u64 = 0xfedcba98_76543210;
    let data_val_3: u64 = 0xef;
    let write_val = BitVal::from_u64(data_val_3, 8)
        .concat(&BitVal::from_u64(data_val_2, 64))
        .concat(&BitVal::from_u64(data_val_1, 64))
        .concat(&BitVal::from_u64(data_val_0, 64));
    assert_eq!(write_val.width(), 200);
    let addr = addr_of(0x10000);
    mem.write(&addr, write_val);

    // Ensure that we can read it back again
    let read_bv = mem.read(&addr, 200);
    let read_val_0 = read_bv.slice(63, 0).as_u64().unwrap();
    assert_eq!(read_val_0, data_val_0);
    let read_val_1 = read_bv.slice(127, 64).as_u64().unwrap();
    assert_eq!(read_val_1, data_val_1);
    let read_val_2 = read_bv.slice(191, 128).as_u64().unwrap();
    assert_eq!(read_val_2, data_val_2);
    let read_val_3 = read_bv.slice(199, 192).as_u64().unwrap();
    assert_eq!(read_val_3, data_val_3);
}

#[test]
fn read_and_write_200bits_unaligned() {
    let mut mem = Memory::new_uninitialized();

    // Store 200 bits of data to an unaligned address
    let data_val_0: u64 = 0x12345678_9abcdef0;
    let data_val_1: u64 = 0x2468ace0_13579bdf;
    let data_val_2: u64 = 0xfedcba98_76543210;
    let data_val_3: u64 = 0xef;
    let write_val = BitVal::from_u64(data_val_3, 8)
        .concat(&BitVal::from_u64(data_val_2, 64))
        .concat(&BitVal::from_u64(data_val_1, 64))
        .concat(&BitVal::from_u64(data_val_0, 64));
    assert_eq!(write_val.width(), 200);
    let addr = addr_of(0x10003);
    mem.write(&addr, write_val);

    // Ensure that we can read it back again
    let read_bv = mem.read(&addr, 200);
    let read_val_0 = read_bv.slice(63, 0).as_u64().unwrap();
    assert_eq!(read_val_0, data_val_0);
    let read_val_1 = read_bv.slice(127, 64).as_u64().unwrap();
    assert_eq!(read_val_1, data_val_1);
    let read_val_2 = read_bv.slice(191, 128).as_u64().unwrap();
    assert_eq!(read_val_2, data_val_2);
    let read_val_3 = read_bv.slice(199, 192).as_u64().unwrap();
    assert_eq!(read_val_3, data_val_3);
}

#[test]
fn write_twice_read_once() {
    let mut mem = Memory::new_uninitialized();

    // Store 8 bits of data
    let data_val = 0x4F;
    let data = BitVal::from_u64(data_val, 8);
    let addr = addr_of(0x10000);
    mem.write(&addr, data);

    // Store a different 8 bits of data to the same address
    let data_val = 0x3A;
    let data = BitVal::from_u64(data_val, 8);
    mem.write(&addr, data);

    // Ensure that we get back the most recent data
    let read_bv = mem.read(&addr, 8);
    assert_eq!(known_u64(&read_bv), Some(data_val));
}

#[test]
fn write_different_cells() {
    let mut mem = Memory::new_uninitialized();

    // Store 32 bits of data to a cell
    let data_val = 0x1234_5678;
    let data = BitVal::from_u64(data_val, 32);
    let addr = addr_of(0x10000);
    mem.write(&addr, data);

    // Store a different 32 bits of data to a different cell
    let data_val_2 = 0xfedc_ba98;
    let data_2 = BitVal::from_u64(data_val_2, 32);
    let addr_2 = addr_of(0x10008);
    mem.write(&addr_2, data_2);

    // Ensure that we can read them both individually
    let read_bv = mem.read(&addr, 32);
    assert_eq!(known_u64(&read_bv), Some(data_val));
    let read_bv = mem.read(&addr_2, 32);
    assert_eq!(known_u64(&read_bv), Some(data_val_2));
}

#[test]
fn write_different_places_within_cell() {
    let mut mem = Memory::new_uninitialized();

    // Store 32 bits of data to a cell
    let data_val = 0x1234_5678;
    let data = BitVal::from_u64(data_val, 32);
    let addr = addr_of(0x10000);
    mem.write(&addr, data);

    // Store a different 32 bits of data to the other half of the cell
    let data_val_2 = 0xfedc_ba98;
    let data_2 = BitVal::from_u64(data_val_2, 32);
    let addr_2 = addr_of(0x10004);
    mem.write(&addr_2, data_2);

    // Ensure that we can read them both individually
    let read_bv = mem.read(&addr, 32);
    assert_eq!(known_u64(&read_bv), Some(data_val));
    let read_bv = mem.read(&addr_2, 32);
    assert_eq!(known_u64(&read_bv), Some(data_val_2));
}

#[test]
fn write_small_read_big() {
    let mut mem = Memory::new_zero_initialized();

    // Store 8 bits of data to offset 1 in a cell
    let data_val = 0x4F;
    let data = BitVal::from_u64(data_val, 8);
    let unaligned = addr_of(0x10001);
    mem.write(&unaligned, data);

    // Ensure that reading from beginning of the cell adds zeroed low-order bits
    // (we are little-endian)
    let aligned = addr_of(0x10000);
    let read_bv = mem.read(&aligned, 16);
    assert_eq!(known_u64(&read_bv), Some(0x4F00));

    // Ensure that reading extra bits adds zeroed high-order bits
    let read_bv = mem.read(&unaligned, 16);
    assert_eq!(known_u64(&read_bv), Some(0x004F));

    // Ensure that reading elsewhere gives all zeroes
    let garbage_addr_1 = addr_of(0x10004);
    let garbage_addr_2 = addr_of(0x10008);
    let read_bv_1 = mem.read(&garbage_addr_1, 8);
    let read_bv_2 = mem.read(&garbage_addr_2, 8);
    assert_eq!(known_u64(&read_bv_1), Some(0));
    assert_eq!(known_u64(&read_bv_2), Some(0));
}

#[test]
fn write_big_read_small() {
    let mut mem = Memory::new_uninitialized();

    // Store 32 bits of data to offset 2 in a cell
    let data_val = 0x1234_5678;
    let data = BitVal::from_u64(data_val, 32);
    let offset_2 = addr_of(0x10002);
    mem.write(&offset_2, data);

    // Ensure that reading 8 bits from offset 2 gives the low-order byte
    // (we are little-endian)
    let read_bv = mem.read(&offset_2, 8);
    assert_eq!(known_u64(&read_bv), Some(0x78));

    // Ensure that reading 8 bits from offset 5 gives the high-order byte
    // (we are little-endian)
    let offset_5 = addr_of(0x10005);
    let read_bv = mem.read(&offset_5, 8);
    assert_eq!(known_u64(&read_bv), Some(0x12));

    // Ensure that reading 16 bits from offset 3 gives the middle two bytes
    let offset_3 = addr_of(0x10003);
    let read_bv = mem.read(&offset_3, 16);
    assert_eq!(known_u64(&read_bv), Some(0x3456));
}

#[test]
fn partial_overwrite_aligned() {
    let mut mem = Memory::new_uninitialized();

    // Write an entire cell
    let data = BitVal::from_u64(0x12345678_12345678, 64);
    let addr = addr_of(0x10000);
    mem.write(&addr, data);

    // Write over just the first part
    let overwrite_data_val = 0xdcba;
    let overwrite_data = BitVal::from_u64(overwrite_data_val, 16);
    mem.write(&addr, overwrite_data);

    // Ensure that we can read the smaller overwrite back
    let read_bv = mem.read(&addr, 16);
    assert_eq!(known_u64(&read_bv), Some(overwrite_data_val));

    // Ensure that reading the whole cell back reflects the partial overwrite
    let read_bv = mem.read(&addr, 64);
    assert_eq!(known_u64(&read_bv), Some(0x12345678_1234dcba));
}

#[test]
fn partial_overwrite_unaligned() {
    let mut mem = Memory::new_uninitialized();

    // Write an entire cell
    let data = BitVal::from_u64(0x12345678_12345678, 64);
    let addr = addr_of(0x10000);
    mem.write(&addr, data);

    // Write over just part of the middle
    let overwrite_addr = addr_of(0x10002);
    let overwrite_data_val = 0xdcba;
    let overwrite_data = BitVal::from_u64(overwrite_data_val, 16);
    mem.write(&overwrite_addr, overwrite_data);

    // Ensure that we can read the smaller overwrite back
    let read_bv = mem.read(&overwrite_addr, 16);
    assert_eq!(known_u64(&read_bv), Some(overwrite_data_val));

    // Ensure that reading the whole cell back reflects the partial overwrite
    let read_bv = mem.read(&addr, 64);
    assert_eq!(known_u64(&read_bv), Some(0x12345678_dcba5678));

    // Now a different partial read with some original data and some overwritten
    let new_addr = addr_of(0x10003);
    let read_bv = mem.read(&new_addr, 16);
    assert_eq!(known_u64(&read_bv), Some(0x78dc));
}

#[test]
fn write_at_unknown_address_discards_tracking() {
    let mut mem = Memory::new_zero_initialized();

    // A write whose address is wholly unknown could have hit any cell, so
    // afterwards nothing is known of any address.
    let data = BitVal::from_u64(0x12345678_9abcdef0, 64);
    let unknown_addr = BitVal::unconstrained(64);
    mem.write(&unknown_addr, data);

    let read_bv = mem.read(&addr_of(0x10000), 64);
    assert!(!read_bv.is_fully_known());
    assert_eq!(known_u64(&read_bv), None);

    let read_bv = mem.read(&unknown_addr, 64);
    assert!(!read_bv.is_fully_known());
}

#[test]
fn partially_unknown_data_keeps_known_bytes_apart() {
    let mut mem = Memory::new_zero_initialized();

    // Store an unknown byte; its neighbours stay known zeros.
    let addr = addr_of(0x10001);
    mem.write(&addr, BitVal::unconstrained(8));

    let read_bv = mem.read(&addr, 8);
    assert!(!read_bv.is_fully_known());

    let read_bv = mem.read(&addr_of(0x10000), 8);
    assert_eq!(known_u64(&read_bv), Some(0));
    let read_bv = mem.read(&addr_of(0x10002), 8);
    assert_eq!(known_u64(&read_bv), Some(0));

    // A 24-bit read over the unknown byte is not fully known, but the known
    // byte below it still reads back exactly.
    let read_bv = mem.read(&addr_of(0x10000), 24);
    assert!(!read_bv.is_fully_known());
    assert_eq!(read_bv.slice(7, 0).as_u64(), Some(0));
}

#[test]
fn single_bit_write_and_read() {
    let mut mem = Memory::new_zero_initialized();

    let addr = addr_of(0x10007);
    mem.write(&addr, BitVal::from_u64(1, 1));

    let read_bv = mem.read(&addr, 1);
    assert_eq!(known_u64(&read_bv), Some(1));

    // the remaining bits of that byte are untouched zeros
    let read_bv = mem.read(&addr, 8);
    assert_eq!(known_u64(&read_bv), Some(1));
}

#[test]
fn non_byte_multiple_width_at_known_address() {
    let mut mem = Memory::new_zero_initialized();

    // A 65-bit write: one full cell plus one bit spilling into the next.
    let top = BitVal::from_u64(1, 1);
    let low = BitVal::from_u64(0xaaaa_bbbb_cccc_dddd, 64);
    let write_val = top.concat(&low);
    assert_eq!(write_val.width(), 65);
    let addr = addr_of(0x10000);
    mem.write(&addr, write_val);

    let read_bv = mem.read(&addr, 65);
    assert_eq!(read_bv.slice(63, 0).as_u64(), Some(0xaaaa_bbbb_cccc_dddd));
    assert_eq!(read_bv.slice(64, 64).as_u64(), Some(1));

    // the rest of the second cell is still known zero
    let read_bv = mem.read(&addr_of(0x10009), 8);
    assert_eq!(known_u64(&read_bv), Some(0));
}

#[test]
fn wide_read_agrees_with_byte_by_byte_reads() {
    let mut mem = Memory::new_uninitialized();

    // An unaligned write, then a wide unaligned read: the wide result must
    // equal the bytes read one at a time, little-endian.
    let base = 0x10003u64;
    mem.write(&addr_of(base), BitVal::from_u64(0x1122_3344_5566_7788, 64));

    let wide = mem.read(&addr_of(base), 64);
    for byte in 0..8u32 {
        let one = mem.read(&addr_of(base + byte as u64), 8);
        assert_eq!(
            wide.slice(byte * 8 + 7, byte * 8).as_u64(),
            one.as_u64(),
            "byte {} of the wide read disagrees",
            byte
        );
    }
    assert_eq!(known_u64(&wide), Some(0x1122_3344_5566_7788));
}

#[test]
fn write_near_top_of_address_space_wraps() {
    let mut mem = Memory::new_zero_initialized();

    // The last byte of the address space and the first byte of cell zero are
    // neighbours: a two-byte write at the top wraps around.
    let addr = addr_of(0xffff_ffff_ffff_ffff);
    mem.write(&addr, BitVal::from_u64(0xbeef, 16));

    let read_bv = mem.read(&addr, 16);
    assert_eq!(known_u64(&read_bv), Some(0xbeef));

    let read_bv = mem.read(&addr_of(0), 8);
    assert_eq!(known_u64(&read_bv), Some(0xbe));
    let read_bv = mem.read(&addr, 8);
    assert_eq!(known_u64(&read_bv), Some(0xef));
}
