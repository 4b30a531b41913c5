use fqencoder::base7::{pack_base7, unpack_base7, value_of, CodecError};
use fqencoder::diffusion::{diffuse, undiffuse};
use fqencoder::keystream::{apply_keystream, derive_seed};

#[test]
fn pack_exact_values() {
    assert_eq!(pack_base7(&[0]), "FFF");
    assert_eq!(pack_base7(&[255]), "OUK"); // 255 = 5*49 + 1*7 + 3
    assert_eq!(pack_base7(&[255]).len(), 3);
    assert_eq!(pack_base7(&[1, 7, 49]), "FFUFUFUFF");
    assert_eq!(pack_base7(&[]), "");
}

#[test]
fn unpack_exact_values_and_errors() {
    assert_eq!(unpack_base7("OUK"), Ok(vec![255]));
    assert_eq!(unpack_base7("FFUFUFUFF"), Ok(vec![1, 7, 49]));
    assert_eq!(unpack_base7(""), Ok(vec![]));
    assert_eq!(unpack_base7("OUY"), Err(CodecError::InvalidByte)); // 256
    assert_eq!(unpack_base7("F"), Err(CodecError::InvalidLength));
    assert_eq!(unpack_base7("FUz"), Err(CodecError::InvalidCharacter('z')));
}

#[test]
fn pack_unpack_all_bytes() {
    let all: Vec<u8> = (0..=255).collect();
    let packed = pack_base7(&all);
    assert_eq!(unpack_base7(&packed), Ok(all));
}

#[test]
fn digits_of_symbols() {
    let expected = [('F', 0), ('U', 1), ('C', 2), ('K', 3), ('Y', 4), ('O', 5), ('u', 6)];
    for (c, d) in expected {
        assert_eq!(value_of(c), Some(d));
    }
    assert_eq!(value_of('f'), None);
    assert_eq!(value_of('c'), None);
}

#[test]
fn diffuse_exact_values() {
    let mut b = vec![0u8];
    diffuse(&mut b);
    // forward: 0 + 0x9E = 0x9E; backward: 0x9E + 0x7F = 0x11D -> 0x1D
    assert_eq!(b, vec![0x1D]);
    let mut b = vec![1u8, 2];
    diffuse(&mut b);
    // forward: 0x9F, 0xA1; backward: 0xA1 + 0x7F = 0x20, 0x9F + 0x20 = 0xBF
    assert_eq!(b, vec![0xBF, 0x20]);
    let mut e: Vec<u8> = vec![];
    diffuse(&mut e);
    assert!(e.is_empty());
}

#[test]
fn undiffuse_inverts_diffuse() {
    let orig: Vec<u8> = (0..=255).rev().chain(0..40).collect();
    let mut b = orig.clone();
    diffuse(&mut b);
    assert_ne!(b, orig);
    undiffuse(&mut b);
    assert_eq!(b, orig);
    let mut c = orig.clone();
    undiffuse(&mut c);
    diffuse(&mut c);
    assert_eq!(c, orig);
}

#[test]
fn seed_is_sha256_of_label_and_key() {
    let seed = derive_seed("pw");
    assert_eq!(seed.len(), 32);
    let hex: String = seed.iter().map(|b| format!("{b:02x}")).collect();
    assert_eq!(hex, "e378adfa36406f6decae2a02a5c5f114c3f8a1b6d2d2a6b29424b09c34e8f8ef");
    let hex: String = derive_seed("").iter().map(|b| format!("{b:02x}")).collect();
    assert_eq!(hex, "e1b37d14b58dc8f1ccb003bff9894ccf4612a6f4cd118e975dcacae27703fb86");
}

#[test]
fn keystream_is_an_involution_and_changes_bytes() {
    let orig: Vec<u8> = (0..100).collect();
    let mut b = orig.clone();
    apply_keystream(&mut b, "key");
    assert_ne!(b, orig);
    apply_keystream(&mut b, "key");
    assert_eq!(b, orig);
    let mut e: Vec<u8> = vec![];
    apply_keystream(&mut e, "key");
    assert!(e.is_empty());
}

#[test]
fn keystream_exact_bytes_across_blocks() {
    let mut b: Vec<u8> = (0..40).collect();
    apply_keystream(&mut b, "key");
    assert_eq!((b[0], b[13], b[26], b[39]), (162, 251, 180, 32));
}

#[test]
fn last_diffused_byte_depends_on_each_input_byte() {
    let mut a = vec![0u8, 0];
    let mut b = vec![128u8, 0];
    diffuse(&mut a);
    diffuse(&mut b);
    assert_eq!(a, vec![0xBB, 0x1D]);
    assert_eq!(b, vec![0xBB, 0x9D]);
    // the first byte happens to agree; the last one never does
    assert_ne!(a[1], b[1]);
}

#[test]
fn output_depends_on_input_unless_the_weight_is_a_multiple_of_256() {
    // 256 bytes: output 0 and input 0 are linked by 256 chain sums.
    let a = vec![0u8; 256];
    let mut b = a.clone();
    b[0] = 1;
    let (mut da, mut db) = (a.clone(), b.clone());
    diffuse(&mut da);
    diffuse(&mut db);
    assert_eq!(da[0], db[0]);
    assert_ne!(da[255], db[255]);
    // 255 bytes: the weight is 255, so output 0 changes.
    let a = vec![0u8; 255];
    let mut b = a.clone();
    b[0] = 1;
    let (mut da, mut db) = (a.clone(), b.clone());
    diffuse(&mut da);
    diffuse(&mut db);
    assert_ne!(da[0], db[0]);
}
