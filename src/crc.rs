use vstd::prelude::*;

verus! {

/// One step of the reflected bit-at-a-time construction with polynomial 0xEDB88320.
pub open spec fn crc_shift_bit(c: u32) -> u32 {
    if c & 1 != 0 {
        0xEDB88320u32 ^ (c >> 1)
    } else {
        c >> 1
    }
}

/// `c` after `k` bit steps.
pub open spec fn crc_shift_bits(c: u32, k: nat) -> u32
    decreases k,
{
    if k == 0 {
        c
    } else {
        crc_shift_bit(crc_shift_bits(c, (k - 1) as nat))
    }
}

/// Entry `i` of the 256-entry lookup table.
pub open spec fn crc_table_entry(i: u32) -> u32 {
    crc_shift_bits(i, 8)
}

/// The accumulator after absorbing one byte.
pub open spec fn crc_update(c: u32, b: u8) -> u32 {
    (c >> 8) ^ crc_table_entry((c ^ (b as u32)) & 0xFF)
}

/// The accumulator after absorbing every byte of `s`, starting from all ones.
pub open spec fn crc_state(s: Seq<u8>) -> u32
    decreases s.len(),
{
    if s.len() == 0 {
        0xFFFF_FFFFu32
    } else {
        crc_update(crc_state(s.drop_last()), s.last())
    }
}

/// CRC-32/ISO-HDLC of `s`.
pub open spec fn crc32_of(s: Seq<u8>) -> u32 {
    crc_state(s) ^ 0xFFFF_FFFFu32
}

/// Builds the 256-entry lookup table.
pub fn crc32_table() -> (t: Vec<u32>)
    ensures
        t@.len() == 256,
        forall|i: int| 0 <= i < 256 ==> #[trigger] t@[i] == crc_table_entry(i as u32),
{
    let mut t: Vec<u32> = Vec::new();
    let mut byte: u32 = 0;
    while byte < 256
        invariant
            byte <= 256,
            t@.len() == byte,
            forall|i: int| 0 <= i < byte ==> #[trigger] t@[i] == crc_table_entry(i as u32),
        decreases 256 - byte,
    {
        let mut crc: u32 = byte;
        let mut bit: u32 = 0;
        while bit < 8
            invariant
                bit <= 8,
                crc == crc_shift_bits(byte, bit as nat),
            decreases 8 - bit,
        {
            if crc & 1 != 0 {
                crc = 0xEDB88320u32 ^ (crc >> 1);
            } else {
                crc = crc >> 1;
            }
            bit = bit + 1;
        }
        t.push(crc);
        byte = byte + 1;
    }
    t
}

/// The checksum is zero on the empty input.
pub proof fn lemma_crc32_empty()
    ensures
        crc32_of(Seq::<u8>::empty()) == 0,
{
    let e = Seq::<u8>::empty();
    assert(crc_state(e) == 0xFFFF_FFFFu32);
    assert(0xFFFF_FFFFu32 ^ 0xFFFF_FFFFu32 == 0u32) by (bit_vector);
}

/// CRC-32/ISO-HDLC of `input`, computed with the lookup table.
pub fn crc32(input: &[u8]) -> (r: u32)
    ensures
        r == crc32_of(input@),
{
    let table = crc32_table();
    let mut crc: u32 = 0xFFFF_FFFF;
    let mut i: usize = 0;
    while i < input.len()
        invariant
            i <= input@.len(),
            table@.len() == 256,
            forall|j: int| 0 <= j < 256 ==> #[trigger] table@[j] == crc_table_entry(j as u32),
            crc == crc_state(input@.subrange(0, i as int)),
        decreases input@.len() - i,
    {
        let byte = input[i];
        let idx: u32 = (crc ^ (byte as u32)) & 0xFF;
        assert(((crc ^ (byte as u32)) & 0xFF) < 256) by (bit_vector);
        crc = (crc >> 8) ^ table[idx as usize];
        proof {
            let s = input@.subrange(0, i + 1);
            assert(s.drop_last() =~= input@.subrange(0, i as int));
        }
        i = i + 1;
    }
    assert(input@.subrange(0, input@.len() as int) =~= input@);
    crc ^ 0xFFFF_FFFF
}

} // verus!
