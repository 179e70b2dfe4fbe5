//! CRC-16/XMODEM.

use vstd::prelude::*;

verus! {

/// One bit of polynomial division by x^16 + x^12 + x^5 + 1.
pub open spec fn crc_shift(crc: u16) -> u16 {
    if crc & 0x8000 != 0 {
        (crc << 1) ^ 0x1021
    } else {
        crc << 1
    }
}

/// Eight bits of it.
pub open spec fn crc_shift8(crc: u16) -> u16 {
    crc_shift(crc_shift(crc_shift(crc_shift(crc_shift(crc_shift(crc_shift(crc_shift(crc))))))))
}

/// The remainder after some bytes, each brought in at the top.
pub open spec fn crc(data: Seq<u8>) -> u16
    decreases data.len(),
{
    if data.len() == 0 {
        0
    } else {
        crc_shift8(crc(data.drop_last()) ^ ((data.last() as u16) << 8))
    }
}

/// What eight shifts do to each value of the upper byte.
pub fn crc_table() -> (r: Vec<u16>)
    ensures
        r@.len() == 256,
        forall|i: int| 0 <= i < 256 ==> #[trigger] r@[i] == crc_shift8((i as u16) << 8),
{
    let mut table: Vec<u16> = Vec::new();
    for i in 0..256usize
        invariant
            table@.len() == i,
            forall|j: int| 0 <= j < i ==> #[trigger] table@[j] == crc_shift8((j as u16) << 8),
    {
        let mut c: u16 = (i as u16) << 8;
        let ghost start = c;
        c = shifted(c);
        c = shifted(c);
        c = shifted(c);
        c = shifted(c);
        c = shifted(c);
        c = shifted(c);
        c = shifted(c);
        c = shifted(c);
        table.push(c);
    }
    table
}

fn shifted(crc: u16) -> (r: u16)
    ensures
        r == crc_shift(crc),
{
    if crc & 0x8000 != 0 {
        (crc << 1) ^ 0x1021
    } else {
        crc << 1
    }
}

/// The lower byte only moves up; the upper byte selects what is subtracted.
proof fn lemma_table_step(c: u16, b: u8)
    ensures
        crc_shift8(c ^ ((b as u16) << 8)) == (c << 8) ^ crc_shift8(
            ((((c >> 8) as u8) ^ b) as u16) << 8,
        ),
{
    assert(crc_shift8(c ^ ((b as u16) << 8)) == (c << 8) ^ crc_shift8(
        ((((c >> 8) as u8) ^ b) as u16) << 8,
    )) by (bit_vector);
}

/// CRC-16/XMODEM (poly 0x1021, init 0), as used by FBB B2 and Winlink.
pub fn crc16(data: &[u8]) -> (r: u16)
    ensures
        r == crc(data@),
{
    let table = crc_table();
    let mut c: u16 = 0;
    for i in 0..data.len()
        invariant
            table@.len() == 256,
            forall|j: int| 0 <= j < 256 ==> #[trigger] table@[j] == crc_shift8((j as u16) << 8),
            c == crc(data@.take(i as int)),
    {
        let b: u8 = data[i];
        let top: u8 = (c >> 8) as u8;
        let index: u8 = top ^ b;
        proof {
            lemma_table_step(c, b);
            assert(data@.take(i + 1).drop_last() =~= data@.take(i as int));
        }
        c = (c << 8) ^ table[index as usize];
    }
    assert(data@.take(data@.len() as int) =~= data@);
    c
}

} // verus!
