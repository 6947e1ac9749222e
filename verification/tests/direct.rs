use timestore::direct::{read_write_at, round_down, round_up, AlignedWrite, SLACK};
use timestore::error::WriteError;
use timestore::open::{initial_length, read_length};
use timestore::error::OpenError;
use timestore::layout::FileId;
use timestore::reader::{find_table, shift};

#[test]
fn rounding_finds_the_block_boundaries() {
    assert_eq!(round_down(0, 512), 0);
    assert_eq!(round_down(511, 512), 0);
    assert_eq!(round_down(512, 512), 512);
    assert_eq!(round_down(1000, 512), 512);
    assert_eq!(round_down(u64::MAX, 4096), u64::MAX - 4095);
    assert_eq!(round_up(0, 512), 0);
    assert_eq!(round_up(1, 512), 512);
    assert_eq!(round_up(512, 512), 512);
    assert_eq!(round_up(513, 4096), 4096);
    assert_eq!(round_down(10, 3), 9);
    assert_eq!(round_up(10, 3), 12);
}

#[test]
fn rounding_agrees_with_masking_on_powers_of_two() {
    for align in [1u64, 2, 512, 4096] {
        for v in [0u64, 1, 7, 511, 512, 513, 4095, 4096, 123456789] {
            assert_eq!(round_down(v, align), v & !(align - 1));
            assert_eq!(round_up(v, align), (v + align - 1) & !(align - 1));
        }
    }
}

#[test]
fn a_write_starts_at_the_block_below() {
    assert_eq!(read_write_at(0, 8, 4096), AlignedWrite { position: 0, keep: 0, buffer_len: 4096 });
    assert_eq!(read_write_at(1000, 10, 512), AlignedWrite { position: 512, keep: 488, buffer_len: 512 });
    assert_eq!(read_write_at(1000, 17, 512), AlignedWrite { position: 512, keep: 488, buffer_len: 1024 });
    assert_eq!(read_write_at(511, 2, 512), AlignedWrite { position: 0, keep: 511, buffer_len: 1024 });
    assert_eq!(read_write_at(512, 0, 512), AlignedWrite { position: 512, keep: 0, buffer_len: 512 });
    assert_eq!(read_write_at(8, 504, 512), AlignedWrite { position: 0, keep: 8, buffer_len: 1024 });
    assert_eq!(read_write_at(8, 496, 512), AlignedWrite { position: 0, keep: 8, buffer_len: 512 });
    assert_eq!(SLACK, 8);
}

#[test]
fn the_buffer_starts_with_the_kept_bytes() {
    let plan = read_write_at(515, 4, 512);
    assert_eq!(plan.keep, 3);
    assert_eq!(plan.assemble(&[1, 2, 3], &[9, 8, 7, 6]), Ok(vec![1, 2, 3, 9, 8, 7, 6]));
    assert_eq!(plan.assemble(&[1, 2, 3], &[]), Ok(vec![1, 2, 3]));
    let plan = read_write_at(1024, 2, 512);
    assert_eq!(plan.assemble(&[], &[5, 5]), Ok(vec![5, 5]));
}

#[test]
fn a_short_read_fails_the_write() {
    let plan = read_write_at(515, 4, 512);
    assert_eq!(plan.assemble(&[1, 2], &[9]), Err(WriteError::Io));
    assert_eq!(plan.assemble(&[1, 2, 3, 4], &[9]), Err(WriteError::Io));
    assert_eq!(plan.assemble(&[], &[9]), Err(WriteError::Io));
}

#[test]
fn an_aligned_write_equals_a_plain_one() {
    for (pos, data_len) in [(0usize, 8usize), (8, 8), (500, 30), (512, 1), (1023, 2), (700, 0)] {
        let mut file: Vec<u8> = (0..2048u32).map(|i| (i % 251) as u8).collect();
        file.truncate(std::cmp::max(pos, 900));
        let data: Vec<u8> = (0..data_len).map(|i| 200 + i as u8).collect();

        let mut plain = file.clone();
        if plain.len() < pos + data.len() {
            plain.resize(pos + data.len(), 0);
        }
        plain[pos..pos + data.len()].copy_from_slice(&data);

        let plan = read_write_at(pos as u64, data.len(), 512);
        let from = plan.position as usize;
        let mut buffer = plan.assemble(&file[from..from + plan.keep], &data).unwrap();
        buffer.resize(plan.buffer_len, 0xEE);
        let mut aligned = file.clone();
        if aligned.len() < from + buffer.len() {
            aligned.resize(from + buffer.len(), 0);
        }
        aligned[from..from + buffer.len()].copy_from_slice(&buffer);

        assert_eq!(&aligned[..pos + data.len()], &plain[..pos + data.len()]);
    }
}

#[test]
fn a_fresh_length_file_states_zero() {
    assert_eq!(initial_length(0), Some(vec![0; 8]));
    assert_eq!(initial_length(8), None);
    assert_eq!(initial_length(512), None);
}

#[test]
fn the_length_is_the_first_word() {
    assert_eq!(read_length(&[0; 8]), Ok(0));
    assert_eq!(read_length(&[0, 0, 0, 0, 0, 0, 1, 2, 77, 77]), Ok(258));
    assert_eq!(read_length(&[255; 512]), Ok(u64::MAX));
    assert_eq!(read_length(&[0; 7]), Err(OpenError::LengthMismatch(FileId::Length)));
    assert_eq!(read_length(&[]), Err(OpenError::LengthMismatch(FileId::Length)));
}

#[test]
fn tables_are_found_by_name() {
    let names = vec!["a".to_owned(), "bc".to_owned(), "a".to_owned(), "".to_owned()];
    assert_eq!(find_table(&names, "a"), Some(0));
    assert_eq!(find_table(&names, "bc"), Some(1));
    assert_eq!(find_table(&names, ""), Some(3));
    assert_eq!(find_table(&names, "b"), None);
    assert_eq!(find_table(&names, "A"), None);
    assert_eq!(find_table(&[], "a"), None);
}

#[test]
fn sub_ranges_are_shifted_by_the_base() {
    assert_eq!(shift(100, 5, 7), (105, 7));
    assert_eq!(shift(0, 0, 0), (0, 0));
    assert_eq!(shift(u64::MAX - 1, 1, 3), (u64::MAX, 3));
}
