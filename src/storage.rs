use crate::bits::{bits_of_byte, bits_of_bytes, from_byte_to_bits, lemma_expand_into_zeros};
use crate::blocks::{blocks_inserted, segment_bits, Block, BLOCK_SIZE};
use std::collections::HashMap;
use vstd::prelude::*;
use vstd::utf8::{
    decode_utf8, encode_utf8, encode_utf8_decode_utf8, is_ascii_chars, is_ascii_chars_encode_utf8,
};

verus! {

broadcast use vstd::std_specs::hash::group_hash_axioms;

/// The text given on the command line.
pub struct Cli {
    pub plain_text: String,
}

/// Reading the command line, and starting a transform from it.
pub trait CliTrait: Sized {
    /// Takes the text from the command line (the program's name first):
    /// there must be exactly one argument after the name.
    fn create(args: Vec<String>) -> Option<Cli>;

    /// Starts a transform of the text, with nothing computed yet.
    fn calling_root(cli: Self) -> RootTx;
}

impl CliTrait for Cli {
    fn create(args: Vec<String>) -> (r: Option<Cli>)
        ensures
            match r {
                Some(c) => args@.len() == 2 && c.plain_text@ == args@[1]@,
                None => args@.len() != 2,
            },
    {
        if args.len() != 2 {
            return None;
        }
        let mut args = args;
        let plain_text = args.pop().unwrap();
        Some(Cli { plain_text })
    }

    fn calling_root(cli: Self) -> (r: RootTx)
        ensures
            r.plain_text@ == cli.plain_text@,
            r.bytes_vers@ == Seq::<u8>::empty(),
            r.binary_vers@ == Seq::<u8>::empty(),
            r.blocks@ == Map::<usize, Block>::empty(),
    {
        let bytes_vers = Vec::new();
        let binary_vers = Vec::new();
        let blocks = HashMap::new();
        RootTx { plain_text: cli.plain_text, bytes_vers, binary_vers, blocks }
    }
}

/// One transform of a text: its bytes, their bits, and the blocks of those
/// bits, each filled in by its stage.
pub struct RootTx {
    pub plain_text: String,
    pub bytes_vers: Vec<u8>,
    pub binary_vers: Vec<u8>,
    pub blocks: HashMap<usize, Block>,
}

/// The three stages of the transform.
pub trait RootTrait {
    /// Sets the bytes to the UTF-8 bytes of the text.
    fn string_to_bytes(root: &mut RootTx)
        ensures
            final(root).bytes_vers@ == encode_utf8(old(root).plain_text@),
            final(root).plain_text@ == old(root).plain_text@,
            final(root).binary_vers@ == old(root).binary_vers@,
            final(root).blocks@ == old(root).blocks@,
    ;

    /// Sets the bits to the eight bits of each byte, most significant first.
    fn bytes_to_bits(root: &mut RootTx)
        ensures
            final(root).binary_vers@ == bits_of_bytes(old(root).bytes_vers@),
            final(root).plain_text@ == old(root).plain_text@,
            final(root).bytes_vers@ == old(root).bytes_vers@,
            final(root).blocks@ == old(root).blocks@,
    ;

    /// Cuts the bits into blocks of `BLOCK_SIZE` and stores them under the
    /// keys `1` to the block count.
    fn separate_block(root: &mut RootTx)
        ensures
            blocks_inserted(
                old(root).blocks@,
                final(root).blocks@,
                old(root).binary_vers@,
                BLOCK_SIZE as nat,
            ),
            final(root).plain_text@ == old(root).plain_text@,
            final(root).bytes_vers@ == old(root).bytes_vers@,
            final(root).binary_vers@ == old(root).binary_vers@,
    ;
}

impl RootTrait for RootTx {
    fn string_to_bytes(root: &mut RootTx) {
        let convert = root.plain_text.as_str().as_bytes();
        let convert_length = convert.len();
        let mut bytes_vers: Vec<u8> = Vec::with_capacity(convert_length);
        let mut i: usize = 0;
        while i < convert_length
            invariant
                convert_length == convert@.len(),
                i <= convert_length,
                bytes_vers@ == convert@.subrange(0, i as int),
            decreases convert_length - i,
        {
            bytes_vers.push(convert[i]);
            i += 1;
            assert(bytes_vers@ =~= convert@.subrange(0, i as int));
        }
        assert(bytes_vers@ =~= convert@);
        root.bytes_vers = bytes_vers;
    }

    fn bytes_to_bits(root: &mut RootTx) {
        let bytes = &root.bytes_vers;
        let mut temp: Vec<u8> = Vec::with_capacity(bytes.len());
        let mut i: usize = 0;
        while i < bytes.len()
            invariant
                i <= bytes@.len(),
                temp@.len() == 8 * i,
                forall|k: int|
                    0 <= k < 8 * i ==> #[trigger] temp@[k] == bits_of_byte(bytes@[k / 8])[k % 8],
            decreases bytes.len() - i,
        {
            let byte = bytes[i];
            let zeros: [u8; 8] = [0u8; 8];
            proof {
                lemma_expand_into_zeros(byte, zeros);
            }
            let arr = from_byte_to_bits(byte, zeros, 7);
            let mut j: usize = 0;
            while j < 8
                invariant
                    i < bytes@.len(),
                    byte == bytes@[i as int],
                    j <= 8,
                    temp@.len() == 8 * i + j,
                    forall|t: int| 0 <= t < 8 ==> #[trigger] arr[t] == bits_of_byte(byte)[t],
                    forall|k: int|
                        0 <= k < 8 * i + j ==> #[trigger] temp@[k] == bits_of_byte(
                            bytes@[k / 8],
                        )[k % 8],
                decreases 8 - j,
            {
                temp.push(arr[j]);
                assert((8 * i + j) / 8 == i && (8 * i + j) % 8 == j as int);
                j += 1;
            }
            i += 1;
        }
        assert(temp@ =~= bits_of_bytes(bytes@));
        root.binary_vers = temp;
    }

    fn separate_block(root: &mut RootTx) {
        segment_bits(&root.binary_vers, BLOCK_SIZE, &mut root.blocks);
    }
}

/// The bytes of a text are its UTF-8 encoding, so decoding them gives the
/// text back; for ASCII text there is one byte per character, each the
/// character's code.
pub proof fn lemma_bytes_faithful(text: Seq<char>)
    ensures
        decode_utf8(encode_utf8(text)) == text,
        is_ascii_chars(text) ==> encode_utf8(text).len() == text.len(),
        is_ascii_chars(text) ==> forall|i: int|
            0 <= i < text.len() ==> #[trigger] encode_utf8(text)[i] == text[i] as u8,
{
    encode_utf8_decode_utf8(text);
    if is_ascii_chars(text) {
        is_ascii_chars_encode_utf8(text);
    }
}

} // verus!
