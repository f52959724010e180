use kadmium::Id;
use rand::{thread_rng, Rng};

#[test]
fn id() {
    const N: usize = 1000;

    let mut rng = thread_rng();

    for _ in 0..N {
        let a: u16 = rng.gen();
        let b: u16 = rng.gen();

        // Skip as log2 will overflow (-INF).
        if a == b {
            continue;
        }

        let id_a = Id::from_u16(a);
        let id_b = Id::from_u16(b);

        let xor = a ^ b;
        let xor_log2 = u16::BITS - xor.leading_zeros() - 1;

        assert_eq!(id_a.log2_distance(&id_b), Some(xor_log2))
    }
}

#[test]
fn log2_distance_of_equal_ids_is_none() {
    let id = Id::from_u16(0x1234);
    assert_eq!(id.log2_distance(&id), None);
    assert_eq!(Id::new([7u8; 32]).log2_distance(&Id::new([7u8; 32])), None);
}

#[test]
fn log2_distance_high_bytes() {
    let zero = Id::new([0u8; 32]);
    let mut bytes = [0u8; 32];
    bytes[31] = 0x80;
    assert_eq!(zero.log2_distance(&Id::new(bytes)), Some(255));
    bytes[31] = 0x01;
    assert_eq!(zero.log2_distance(&Id::new(bytes)), Some(248));
    let mut low = [0u8; 32];
    low[0] = 1;
    assert_eq!(zero.log2_distance(&Id::new(low)), Some(0));
    low[5] = 0x10;
    assert_eq!(zero.log2_distance(&Id::new(low)), Some(44));
}

#[test]
fn log2_distance_is_symmetric() {
    let a = Id::from_u16(0b1011);
    let b = Id::from_u16(0b0110);
    assert_eq!(a.log2_distance(&b), b.log2_distance(&a));
    assert_eq!(a.log2_distance(&b), Some(3));
}

#[test]
fn id_bytes_round_trip() {
    let mut bytes = [0u8; 32];
    for (i, b) in bytes.iter_mut().enumerate() {
        *b = i as u8;
    }
    assert_eq!(Id::new(bytes).bytes(), bytes);
    let id = Id::from_u16(0x0102);
    let b = id.bytes();
    assert_eq!(b[0], 0x02);
    assert_eq!(b[1], 0x01);
    assert!(b[2..].iter().all(|&x| x == 0));
}

#[test]
fn id_equality() {
    assert_eq!(Id::from_u16(5), Id::from_u16(5));
    assert_ne!(Id::from_u16(5), Id::from_u16(6));
    assert_eq!(Id::BYTES, 32);
    assert_eq!(Id::BITS, 256);
}

#[test]
fn random_ids_differ() {
    // 256 random bits: a collision is not to be expected.
    assert_ne!(Id::rand(), Id::rand());
}

#[test]
fn log2_distance_of_u16_ids_is_the_top_bit_of_their_xor() {
    assert_eq!(Id::from_u16(0).log2_distance(&Id::from_u16(1)), Some(0));
    assert_eq!(Id::from_u16(2).log2_distance(&Id::from_u16(3)), Some(0));
    assert_eq!(Id::from_u16(0).log2_distance(&Id::from_u16(0x80)), Some(7));
    assert_eq!(Id::from_u16(0x0100).log2_distance(&Id::from_u16(0x01ff)), Some(7));
    assert_eq!(Id::from_u16(0).log2_distance(&Id::from_u16(0x0100)), Some(8));
    assert_eq!(Id::from_u16(0x8000).log2_distance(&Id::from_u16(0x7fff)), Some(15));
}
