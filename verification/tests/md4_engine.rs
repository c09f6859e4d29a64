use hashes::md4::schedule::{shift_at, word_index_at, MD4_SHIFTS, MD4_WORD_ORDER};
use hashes::md4::{f, g, h, MD4};
use hashes::{HashFunction, InsufficientBufferError};

fn md4_hex(chunks: &[&[u8]]) -> String {
    let mut engine = MD4::new();
    for chunk in chunks {
        engine.set_input(chunk);
    }
    engine.hash();
    let mut out = [0u8; 16];
    assert_eq!(engine.get_output(&mut out), Ok(()));
    let mut s = String::new();
    for b in out.iter() {
        s.push_str(&format!("{:02x}", b));
    }
    s
}

#[test]
fn md4_empty_message() {
    assert_eq!(md4_hex(&[]), "31d6cfe0d16ae931b73c59d7e0c089c0");
    assert_eq!(md4_hex(&[b""]), "31d6cfe0d16ae931b73c59d7e0c089c0");
}

#[test]
fn md4_short_messages() {
    assert_eq!(md4_hex(&[b"a"]), "bde52cb31de33e46245e05fbdbd6fb24");
    assert_eq!(md4_hex(&[b"abc"]), "a448017aaf21d8525fc10ae87aa6729d");
    assert_eq!(md4_hex(&[b"message digest"]), "d9130a8164549fe818874806e1c7014b");
}

#[test]
fn md4_eighty_digits() {
    let digits = b"12345678901234567890123456789012345678901234567890123456789012345678901234567890";
    assert_eq!(md4_hex(&[digits]), "e33b4ddc9c38f2199c3e7b164fcc0536");
}

#[test]
fn md4_around_the_padding_limits() {
    assert_eq!(md4_hex(&[&[0u8; 55]]), "2df5a83f688f18c0866c64173be82a8f");
    assert_eq!(md4_hex(&[&[0u8; 56]]), "7b9b4593cd9322ea492cf0bcdd84f0ae");
    assert_eq!(md4_hex(&[&[0u8; 63]]), "594697fc0810937e0e899a65911293b5");
    assert_eq!(md4_hex(&[&[0u8; 64]]), "2f6f7b10c5cadca6d5770f428c899ba7");
    assert_eq!(md4_hex(&[&[0u8; 65]]), "4fc27bbf517522311018663e59ced7a5");
    assert_eq!(md4_hex(&[&[0u8; 119]]), "8bf9d82d3cd1246ab64363d6da010259");
    assert_eq!(md4_hex(&[&[0u8; 120]]), "888e0376839fc84239dba15a308df398");
    assert_eq!(md4_hex(&[&[0u8; 128]]), "f620fe08d59ed12ff6d1626c8205bae9");
}

#[test]
fn md4_long_messages() {
    assert_eq!(md4_hex(&[&[b'a'; 1000]]), "5f1bf26a8067c9159b91f1440f7c9e8a");
    let all: Vec<u8> = (0..=255u8).collect();
    assert_eq!(md4_hex(&[&all]), "298a05bc506e1ecd5a47fd41f874f1d2");
}

#[test]
fn md4_every_split_in_two_gives_the_same_digest() {
    let message = b"12345678901234567890123456789012345678901234567890123456789012345678901234567890";
    for cut in 0..=message.len() {
        let (head, tail) = message.split_at(cut);
        assert_eq!(md4_hex(&[head, tail]), "e33b4ddc9c38f2199c3e7b164fcc0536");
    }
}

#[test]
fn md4_byte_by_byte_and_with_empty_chunks() {
    let message = [0u8; 128];
    let mut engine = MD4::new();
    for b in message.iter() {
        engine.set_input(&[]);
        engine.set_input(&[*b]);
    }
    engine.set_input(&[]);
    engine.hash();
    let mut out = [0u8; 16];
    assert_eq!(engine.get_output(&mut out), Ok(()));
    assert_eq!(
        out,
        [
            0xf6, 0x20, 0xfe, 0x08, 0xd5, 0x9e, 0xd1, 0x2f, 0xf6, 0xd1, 0x62, 0x6c, 0x82, 0x05,
            0xba, 0xe9
        ]
    );
}

#[test]
fn md4_uneven_chunks_across_blocks() {
    let message = [0u8; 128];
    assert_eq!(
        md4_hex(&[&message[..1], &message[1..70], &message[70..127], &message[127..]]),
        "f620fe08d59ed12ff6d1626c8205bae9"
    );
}

#[test]
fn md4_is_deterministic() {
    let first = md4_hex(&[b"message digest"]);
    let second = md4_hex(&[b"message digest"]);
    assert_eq!(first, second);
    assert_ne!(first, md4_hex(&[b"message digesu"]));
}

#[test]
fn md4_sizes() {
    let engine = MD4::new();
    assert_eq!(engine.get_blocksize(), 64);
    assert_eq!(engine.get_output_length_in_bits(), 128);
    assert_eq!(engine.get_output_length(), 16);
}

#[test]
fn md4_digest_takes_sixteen_bytes_of_a_longer_buffer() {
    let mut engine = MD4::new();
    engine.set_input(b"abc");
    engine.hash();
    let mut out = [0xEEu8; 18];
    assert_eq!(engine.get_output(&mut out), Ok(()));
    assert_eq!(
        out,
        [
            0xa4, 0x48, 0x01, 0x7a, 0xaf, 0x21, 0xd8, 0x52, 0x5f, 0xc1, 0x0a, 0xe8, 0x7a, 0xa6,
            0x72, 0x9d, 0xEE, 0xEE
        ]
    );
}

#[test]
fn md4_short_buffer_is_refused_and_the_digest_stays() {
    let mut engine = MD4::new();
    engine.set_input(b"abc");
    engine.hash();
    let mut short = [0xEEu8; 15];
    assert_eq!(
        engine.get_output(&mut short),
        Err(InsufficientBufferError { needed: 16, given: 15 })
    );
    assert_eq!(short, [0xEEu8; 15]);
    let mut out = [0u8; 16];
    assert_eq!(engine.get_output(&mut out), Ok(()));
    assert_eq!(
        out,
        [
            0xa4, 0x48, 0x01, 0x7a, 0xaf, 0x21, 0xd8, 0x52, 0x5f, 0xc1, 0x0a, 0xe8, 0x7a, 0xa6,
            0x72, 0x9d
        ]
    );
}

#[test]
fn md4_reset_forgets_the_message() {
    let mut engine = MD4::new();
    engine.set_input(&[7u8; 100]);
    engine.reset();
    engine.hash();
    let mut out = [0u8; 16];
    assert_eq!(engine.get_output(&mut out), Ok(()));
    assert_eq!(
        out,
        [
            0x31, 0xd6, 0xcf, 0xe0, 0xd1, 0x6a, 0xe9, 0x31, 0xb7, 0x3c, 0x59, 0xd7, 0xe0, 0xc0,
            0x89, 0xc0
        ]
    );
}

#[test]
fn md4_feeding_a_finalized_engine_starts_anew() {
    let mut engine = MD4::new();
    engine.set_input(&[7u8; 100]);
    engine.hash();
    engine.set_input(b"a");
    engine.set_input(b"bc");
    engine.hash();
    let mut out = [0u8; 16];
    assert_eq!(engine.get_output(&mut out), Ok(()));
    assert_eq!(
        out,
        [
            0xa4, 0x48, 0x01, 0x7a, 0xaf, 0x21, 0xd8, 0x52, 0x5f, 0xc1, 0x0a, 0xe8, 0x7a, 0xa6,
            0x72, 0x9d
        ]
    );
}

#[test]
fn md4_round_functions() {
    assert_eq!(f(0xFFFF0000, 0x12345678, 0x9ABCDEF0), 0x1234DEF0);
    assert_eq!(f(0, 0x12345678, 0x9ABCDEF0), 0x9ABCDEF0);
    assert_eq!(f(0xFFFFFFFF, 0x12345678, 0x9ABCDEF0), 0x12345678);
    assert_eq!(g(0xFF00FF00, 0xFFFF0000, 0x0F0F0F0F), 0xFF0F0F00);
    assert_eq!(g(0x12345678, 0x12345678, 0x9ABCDEF0), 0x12345678);
    assert_eq!(h(0xFF00FF00, 0xFFFF0000, 0x0F0F0F0F), 0x0FF0F00F);
    assert_eq!(h(0x12345678, 0x12345678, 0x9ABCDEF0), 0x9ABCDEF0);
}

#[test]
fn md4_schedule_lookup() {
    assert_eq!(word_index_at(0), 0);
    assert_eq!(word_index_at(15), 15);
    assert_eq!(word_index_at(17), 4);
    assert_eq!(word_index_at(31), 15);
    assert_eq!(word_index_at(33), 8);
    assert_eq!(word_index_at(46), 7);
    assert_eq!(shift_at(0), 3);
    assert_eq!(shift_at(3), 19);
    assert_eq!(shift_at(17), 5);
    assert_eq!(shift_at(47), 15);
    for i in 0..48 {
        assert_eq!(word_index_at(i), MD4_WORD_ORDER[i]);
        assert_eq!(shift_at(i), MD4_SHIFTS[i]);
    }
}

#[test]
fn md4_each_round_takes_every_word_once() {
    for round in 0..3 {
        let mut seen = [false; 16];
        for step in 0..16 {
            let k = word_index_at(16 * round + step);
            assert!(!seen[k]);
            seen[k] = true;
        }
    }
}
