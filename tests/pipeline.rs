#![allow(non_snake_case)]

use std::collections::{HashMap, VecDeque};
use text_blocks::{from_byte_to_bits, segment_bits, Cli, CliTrait, RootTrait, RootTx, BLOCK_SIZE};

#[test]
fn separate_in_3_block_with_third_block_not_full() {
    let mut vec = vec![1u8; 128];
    vec.extend([0u8; 128]);
    // only 48 bits in the last block
    vec.extend([1u8; 48]);

    let mut root = RootTx {
        plain_text: "hello".to_string(),
        bytes_vers: vec![],
        binary_vers: vec,
        blocks: HashMap::new(),
    };
    <RootTx as RootTrait>::separate_block(&mut root);

    let first_block = root.blocks.get(&1).unwrap();
    let mut vecdeque = VecDeque::with_capacity(128);
    vecdeque.extend([1u8; 128]);
    assert_eq!(first_block.store_block, vecdeque);

    let second_block = root.blocks.get(&2).unwrap();
    let mut vecdeque = VecDeque::with_capacity(128);
    vecdeque.extend([0u8; 128]);
    assert_eq!(second_block.store_block, vecdeque);

    // the third block holds the 48 bits at its right end
    let third_block = root.blocks.get(&3).unwrap();
    let mut vecdeque = VecDeque::with_capacity(128);
    vecdeque.extend([0u8; 80]);
    vecdeque.extend([1u8; 48]);
    assert_eq!(third_block.store_block, vecdeque);
}

#[test]
fn convert_a_string_into_bytes() {
    let cli = Cli { plain_text: "hello".to_string() };
    let mut rootTx = CliTrait::calling_root(cli);

    assert!(rootTx.bytes_vers.is_empty());

    <RootTx as RootTrait>::string_to_bytes(&mut rootTx);

    assert_eq!(
        rootTx.bytes_vers,
        vec![104, 101, 108, 108, 111],
        "<BUG> `string_to_bytes()` <BUG>"
    );
}

#[test]
fn convert_bytes_to_bits_function() {
    let cli = Cli { plain_text: "hello".to_string() };
    let mut rootTx = CliTrait::calling_root(cli);

    <RootTx as RootTrait>::string_to_bytes(&mut rootTx);

    <RootTx as RootTrait>::bytes_to_bits(&mut rootTx);

    assert_eq!(
        rootTx.binary_vers,
        vec![
            0, 1, 1, 0, 1, 0, 0, 0, 0, 1, 1, 0, 0, 1, 0, 1, 0, 1, 1, 0, 1, 1, 0, 0, 0, 1, 1, 0,
            1, 1, 0, 0, 0, 1, 1, 0, 1, 1, 1, 1
        ],
        "<BUG> `bytes_to_bits()` <BUG>"
    );
}

#[test]
fn from_byte_to_bits_works() {
    let byte = 3;
    let buffer = [0u8; 8];

    let arr = from_byte_to_bits(byte, buffer, 7); // slots 0..=7

    assert_eq!(arr, [0, 0, 0, 0, 0, 0, 1, 1], "<BUG> `from_byte_to_bits()` <BUG>");
}

fn root_of(text: &str) -> RootTx {
    CliTrait::calling_root(Cli { plain_text: text.to_string() })
}

fn value_of(bits: &[u8]) -> u32 {
    let mut v: u32 = 0;
    for b in bits {
        v = 2 * v + *b as u32;
    }
    v
}

#[test]
fn bytes_of_multibyte_text_follow_its_encoding() {
    let mut root = root_of("aé€");
    <RootTx as RootTrait>::string_to_bytes(&mut root);
    assert_eq!(root.bytes_vers.len(), "aé€".len());
    assert_eq!(root.bytes_vers, vec![97, 0xC3, 0xA9, 0xE2, 0x82, 0xAC]);
    assert_eq!(String::from_utf8(root.bytes_vers.clone()).unwrap(), "aé€");
}

#[test]
fn bits_regroup_into_their_bytes() {
    let mut root = root_of("");
    root.bytes_vers = vec![0, 255, 3, 128, 77];
    <RootTx as RootTrait>::bytes_to_bits(&mut root);
    assert_eq!(root.binary_vers.len(), 40);
    for (i, chunk) in root.binary_vers.chunks(8).enumerate() {
        assert_eq!(value_of(chunk), root.bytes_vers[i] as u32);
    }
    assert_eq!(&root.binary_vers[8..16], &[1, 1, 1, 1, 1, 1, 1, 1]);
    assert_eq!(&root.binary_vers[24..32], &[1, 0, 0, 0, 0, 0, 0, 0]);
}

#[test]
fn byte_expansion_keeps_buffer_outside_the_digits() {
    // 5 is 101: slots 3..=5 get its digits, the rest keep the buffer
    let arr = from_byte_to_bits(5, [7u8; 8], 5);
    assert_eq!(arr, [7, 7, 7, 1, 0, 1, 7, 7]);
    assert_eq!(from_byte_to_bits(0, [9u8; 8], 0), [9u8; 8]);
    assert_eq!(from_byte_to_bits(0, [9u8; 8], 12), [9u8; 8]);
    assert_eq!(from_byte_to_bits(1, [0u8; 8], 0), [1, 0, 0, 0, 0, 0, 0, 0]);
    assert_eq!(from_byte_to_bits(255, [0u8; 8], 7), [1u8; 8]);
}

#[test]
fn empty_text_gives_no_bytes_bits_or_blocks() {
    let mut root = root_of("");
    <RootTx as RootTrait>::string_to_bytes(&mut root);
    <RootTx as RootTrait>::bytes_to_bits(&mut root);
    <RootTx as RootTrait>::separate_block(&mut root);
    assert!(root.bytes_vers.is_empty());
    assert!(root.binary_vers.is_empty());
    assert!(root.blocks.is_empty());
}

#[test]
fn every_block_has_the_full_width() {
    let bits: Vec<u8> = vec![1, 0, 1, 1, 0, 0, 1];
    let mut blocks = HashMap::new();
    segment_bits(&bits, 3, &mut blocks);
    assert_eq!(blocks.len(), 3);
    let mut total = 0;
    for id in 1..=3usize {
        let b = blocks.get(&id).unwrap();
        assert_eq!(b.id, id);
        assert_eq!(b.store_block.len(), 3);
        total += b.store_block.len();
    }
    assert_eq!(total, 3 * 3);
    assert_eq!(blocks.get(&1).unwrap().store_block, VecDeque::from(vec![1, 0, 1]));
    assert_eq!(blocks.get(&2).unwrap().store_block, VecDeque::from(vec![1, 0, 0]));
    assert_eq!(blocks.get(&3).unwrap().store_block, VecDeque::from(vec![0, 0, 1]));
}

#[test]
fn segmenting_twice_gives_the_same_blocks() {
    let bits: Vec<u8> = (0..300).map(|i| ((i * 7) % 3 == 0) as u8).collect();
    let mut first = HashMap::new();
    let mut second = HashMap::new();
    segment_bits(&bits, BLOCK_SIZE, &mut first);
    segment_bits(&bits, BLOCK_SIZE, &mut second);
    assert_eq!(first.len(), 3);
    assert_eq!(second.len(), 3);
    for id in 1..=3usize {
        assert_eq!(first[&id].store_block, second[&id].store_block);
        assert_eq!(first[&id].id, second[&id].id);
    }
}

#[test]
fn exact_multiple_has_no_padding() {
    let mut bits = vec![0u8; 128];
    bits.extend([1u8; 128]);
    let mut blocks = HashMap::new();
    segment_bits(&bits, BLOCK_SIZE, &mut blocks);
    assert_eq!(blocks.len(), 2);
    assert_eq!(blocks[&1].store_block, VecDeque::from(vec![0u8; 128]));
    assert_eq!(blocks[&2].store_block, VecDeque::from(vec![1u8; 128]));
}

#[test]
fn width_one_gives_one_block_per_bit() {
    let bits: Vec<u8> = vec![1, 0, 1];
    let mut blocks = HashMap::new();
    segment_bits(&bits, 1, &mut blocks);
    assert_eq!(blocks.len(), 3);
    assert_eq!(blocks[&2].store_block, VecDeque::from(vec![0u8]));
}

#[test]
fn segmenting_keeps_other_keys() {
    let mut blocks = HashMap::new();
    segment_bits(&vec![1u8, 1, 1, 1], 2, &mut blocks);
    segment_bits(&vec![0u8, 1], 2, &mut blocks);
    assert_eq!(blocks.len(), 2);
    assert_eq!(blocks[&1].store_block, VecDeque::from(vec![0u8, 1]));
    assert_eq!(blocks[&2].store_block, VecDeque::from(vec![1u8, 1]));
}

#[test]
fn hello_goes_through_all_stages() {
    let mut root = root_of("hello");
    <RootTx as RootTrait>::string_to_bytes(&mut root);
    <RootTx as RootTrait>::bytes_to_bits(&mut root);
    <RootTx as RootTrait>::separate_block(&mut root);
    assert_eq!(root.blocks.len(), 1);
    let block = &root.blocks[&1];
    assert_eq!(block.id, 1);
    assert_eq!(block.store_block.len(), 128);
    let stored: Vec<u8> = block.store_block.iter().copied().collect();
    assert_eq!(&stored[..88], &[0u8; 88][..]);
    assert_eq!(&stored[88..], &root.binary_vers[..]);
}

#[test]
fn create_wants_exactly_one_argument() {
    let two = vec!["prog".to_string(), "secret message".to_string()];
    let cli = <Cli as CliTrait>::create(two).unwrap();
    assert_eq!(cli.plain_text, "secret message");
    assert!(<Cli as CliTrait>::create(vec!["prog".to_string()]).is_none());
    assert!(<Cli as CliTrait>::create(vec![]).is_none());
    let three = vec!["prog".to_string(), "a".to_string(), "b".to_string()];
    assert!(<Cli as CliTrait>::create(three).is_none());
}

#[test]
fn calling_root_starts_empty() {
    let root = root_of("abc");
    assert_eq!(root.plain_text, "abc");
    assert!(root.bytes_vers.is_empty());
    assert!(root.binary_vers.is_empty());
    assert!(root.blocks.is_empty());
}
