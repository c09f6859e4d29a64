use hashes::md2::sbox::{substitute, MD2_S_TABLE};
use hashes::md2::MD2;
use hashes::{HashFunction, InsufficientBufferError};

fn md2_hex(chunks: &[&[u8]]) -> String {
    let mut engine = MD2::new();
    for chunk in chunks {
        engine.set_input(chunk);
    }
    engine.hash();
    let mut out = [0u8; 16];
    assert_eq!(engine.get_output(&mut out), Ok(()));
    let mut s = String::new();
    for b in out.iter() {
        s.push_str(&format!("{:02x}", b));
    }
    s
}

#[test]
fn md2_empty_message() {
    assert_eq!(md2_hex(&[]), "8350e5a3e24c153df2275c9f80692773");
    assert_eq!(md2_hex(&[b""]), "8350e5a3e24c153df2275c9f80692773");
}

#[test]
fn md2_short_messages() {
    assert_eq!(md2_hex(&[b"a"]), "32ec01ec4a6dac72c0ab96fb34c0b5d1");
    assert_eq!(md2_hex(&[b"abc"]), "da853b0d3f88d99b30283a69e6ded6bb");
    assert_eq!(md2_hex(&[b"message digest"]), "ab4f496bfb2a530b219ff33031fe06b0");
    assert_eq!(
        md2_hex(&[b"abcdefghijklmnopqrstuvwxyz"]),
        "4e8ddff3650292ab5a4108c3aa47940b"
    );
}

#[test]
fn md2_eighty_digits() {
    let digits = b"12345678901234567890123456789012345678901234567890123456789012345678901234567890";
    assert_eq!(md2_hex(&[digits]), "d5976f79d83d3a0dc9806c3c66f3efd8");
}

#[test]
fn md2_around_the_block_size() {
    assert_eq!(md2_hex(&[&[0u8; 15]]), "b20662902185c1c77c964bb7d8fb2279");
    assert_eq!(md2_hex(&[&[0u8; 16]]), "3e32fe6c199520c0ca4f0e8c28ef2786");
    assert_eq!(md2_hex(&[&[0u8; 17]]), "911d898992e34e10326ff9fc42be4dfe");
    assert_eq!(md2_hex(&[&[0u8; 32]]), "8b8830d93e4abef92fba53d7f44327d5");
}

#[test]
fn md2_long_messages() {
    assert_eq!(md2_hex(&[&[b'a'; 1000]]), "dd21a412ef3f285fd1f2e70a6c10a702");
    let all: Vec<u8> = (0..=255u8).collect();
    assert_eq!(md2_hex(&[&all]), "9415bb1a3efd63923944e97c7acc7df2");
}

#[test]
fn md2_every_split_in_two_gives_the_same_digest() {
    let message = b"12345678901234567890123456789012345678901234567890123456789012345678901234567890";
    for cut in 0..=message.len() {
        let (head, tail) = message.split_at(cut);
        assert_eq!(md2_hex(&[head, tail]), "d5976f79d83d3a0dc9806c3c66f3efd8");
    }
}

#[test]
fn md2_byte_by_byte_and_with_empty_chunks() {
    let message = b"abcdefghijklmnopqrstuvwxyz";
    let mut engine = MD2::new();
    for b in message.iter() {
        engine.set_input(&[]);
        engine.set_input(&[*b]);
    }
    engine.set_input(&[]);
    engine.hash();
    let mut out = [0u8; 16];
    assert_eq!(engine.get_output(&mut out), Ok(()));
    assert_eq!(
        out,
        [
            0x4e, 0x8d, 0xdf, 0xf3, 0x65, 0x02, 0x92, 0xab, 0x5a, 0x41, 0x08, 0xc3, 0xaa, 0x47,
            0x94, 0x0b
        ]
    );
}

#[test]
fn md2_uneven_chunks_across_blocks() {
    let message = [0u8; 32];
    assert_eq!(
        md2_hex(&[&message[..5], &message[5..21], &message[21..22], &message[22..]]),
        "8b8830d93e4abef92fba53d7f44327d5"
    );
}

#[test]
fn md2_is_deterministic() {
    let first = md2_hex(&[b"message digest"]);
    let second = md2_hex(&[b"message digest"]);
    assert_eq!(first, second);
    assert_ne!(first, md2_hex(&[b"message digesu"]));
}

#[test]
fn md2_sizes() {
    let engine = MD2::new();
    assert_eq!(engine.get_blocksize(), 16);
    assert_eq!(engine.get_output_length_in_bits(), 128);
    assert_eq!(engine.get_output_length(), 16);
}

#[test]
fn md2_digest_takes_sixteen_bytes_of_a_longer_buffer() {
    let mut engine = MD2::new();
    engine.set_input(b"a");
    engine.hash();
    let mut out = [0xEEu8; 20];
    assert_eq!(engine.get_output(&mut out), Ok(()));
    assert_eq!(
        out,
        [
            0x32, 0xec, 0x01, 0xec, 0x4a, 0x6d, 0xac, 0x72, 0xc0, 0xab, 0x96, 0xfb, 0x34, 0xc0,
            0xb5, 0xd1, 0xEE, 0xEE, 0xEE, 0xEE
        ]
    );
}

#[test]
fn md2_short_buffer_is_refused_and_the_digest_stays() {
    let mut engine = MD2::new();
    engine.set_input(b"a");
    engine.hash();
    let mut short = [0xEEu8; 15];
    assert_eq!(
        engine.get_output(&mut short),
        Err(InsufficientBufferError { needed: 16, given: 15 })
    );
    assert_eq!(short, [0xEEu8; 15]);
    let mut none: [u8; 0] = [];
    assert_eq!(
        engine.get_output(&mut none),
        Err(InsufficientBufferError { needed: 16, given: 0 })
    );
    let mut out = [0u8; 16];
    assert_eq!(engine.get_output(&mut out), Ok(()));
    assert_eq!(
        out,
        [
            0x32, 0xec, 0x01, 0xec, 0x4a, 0x6d, 0xac, 0x72, 0xc0, 0xab, 0x96, 0xfb, 0x34, 0xc0,
            0xb5, 0xd1
        ]
    );
    let mut again = [0u8; 16];
    assert_eq!(engine.get_output(&mut again), Ok(()));
    assert_eq!(again, out);
}

#[test]
fn md2_reset_forgets_the_message() {
    let mut engine = MD2::new();
    engine.set_input(b"some bytes that fill more than one block");
    engine.reset();
    engine.hash();
    let mut out = [0u8; 16];
    assert_eq!(engine.get_output(&mut out), Ok(()));
    assert_eq!(
        out,
        [
            0x83, 0x50, 0xe5, 0xa3, 0xe2, 0x4c, 0x15, 0x3d, 0xf2, 0x27, 0x5c, 0x9f, 0x80, 0x69,
            0x27, 0x73
        ]
    );
}

#[test]
fn md2_feeding_a_finalized_engine_starts_anew() {
    let mut engine = MD2::new();
    engine.set_input(b"first message");
    engine.hash();
    engine.set_input(b"mess");
    engine.set_input(b"age digest");
    engine.hash();
    let mut out = [0u8; 16];
    assert_eq!(engine.get_output(&mut out), Ok(()));
    assert_eq!(
        out,
        [
            0xab, 0x4f, 0x49, 0x6b, 0xfb, 0x2a, 0x53, 0x0b, 0x21, 0x9f, 0xf3, 0x30, 0x31, 0xfe,
            0x06, 0xb0
        ]
    );
}

#[test]
fn md2_table_lookup() {
    assert_eq!(substitute(0), 0x29);
    assert_eq!(substitute(1), 0x2E);
    assert_eq!(substitute(0x10), 0x62);
    assert_eq!(substitute(0xFF), 0x14);
    for b in 0..=255u8 {
        assert_eq!(substitute(b), MD2_S_TABLE[b as usize]);
    }
}

#[test]
fn md2_table_is_a_permutation() {
    let mut seen = [false; 256];
    for b in 0..=255u8 {
        let s = substitute(b) as usize;
        assert!(!seen[s]);
        seen[s] = true;
    }
}
