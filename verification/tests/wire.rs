use yggdrasil::crypto::Crypto;
use yggdrasil::wire::{
    encode_path, encode_traffic_frame, encode_uvarint, path_size, uvarint_size, Announce,
    PacketType, PathBroken, PathLookup, PathNotify, PathNotifyInfo, SigRes, Traffic, UvarintReader,
    UvarintStep, WireReader,
};

#[test]
fn numbers_have_variable_length() {
    for (value, bytes) in [
        (0u64, vec![0u8]),
        (127, vec![127]),
        (128, vec![0x80, 1]),
        (300, vec![0xac, 2]),
        (u64::MAX, vec![255, 255, 255, 255, 255, 255, 255, 255, 255, 1]),
    ] {
        let mut out = Vec::new();
        encode_uvarint(&mut out, value);
        assert_eq!(out, bytes);
        assert_eq!(uvarint_size(value), bytes.len());
        let mut r = WireReader::new(&bytes);
        assert_eq!(r.read_uvarint().unwrap(), value);
        assert!(r.is_done());
    }
    let mut r = WireReader::new(&[0x80]);
    assert!(r.read_uvarint().is_err());
    let mut reader = UvarintReader::new();
    assert!(matches!(reader.feed(0xac), UvarintStep::More));
    assert!(matches!(reader.feed(2), UvarintStep::Done(300)));
}

#[test]
fn paths_end_with_a_zero() {
    let mut out = Vec::new();
    encode_path(&mut out, &[1, 300]);
    assert_eq!(out, vec![1, 0xac, 2, 0]);
    assert_eq!(path_size(&[1, 300]), 4);
    let mut r = WireReader::new(&out);
    assert_eq!(r.read_path().unwrap(), vec![1, 300]);
    let mut r = WireReader::new(&out[..3]);
    assert!(r.read_path().is_err());
}

#[test]
fn messages_are_read_back() {
    let announce = Announce {
        key: [1; 32],
        parent: [2; 32],
        sig_res: SigRes { seq: 3, nonce: 4, port: 5, psig: [6; 64] },
        sig: [7; 64],
    };
    let mut out = Vec::new();
    announce.encode(&mut out);
    let back = Announce::decode(&out).unwrap();
    assert_eq!((back.key, back.parent, back.sig), ([1; 32], [2; 32], [7; 64]));
    assert_eq!((back.sig_res.seq, back.sig_res.nonce, back.sig_res.port), (3, 4, 5));
    assert!(Announce::decode(&out[..out.len() - 1]).is_err());
    out.push(0);
    assert!(Announce::decode(&out).is_err());

    let mut out = Vec::new();
    PathLookup { source: [1; 32], dest: [2; 32], from: vec![3, 4] }.encode(&mut out);
    let back = PathLookup::decode(&out).unwrap();
    assert_eq!((back.source, back.dest, back.from), ([1; 32], [2; 32], vec![3, 4]));

    let mut out = Vec::new();
    let notify = PathNotify {
        path: vec![1],
        watermark: 9,
        source: [1; 32],
        dest: [2; 32],
        info: PathNotifyInfo { seq: 8, path: vec![5], sig: [3; 64] },
    };
    notify.encode(&mut out);
    let back = PathNotify::decode(&out).unwrap();
    assert_eq!((back.path, back.watermark, back.info.seq), (vec![1], 9, 8));
    assert_eq!(back.info.path, vec![5]);

    let mut out = Vec::new();
    PathBroken { path: vec![1], watermark: 2, source: [3; 32], dest: [4; 32] }.encode(&mut out);
    let back = PathBroken::decode(&out).unwrap();
    assert_eq!((back.path, back.watermark, back.source, back.dest), (vec![1], 2, [3; 32], [4; 32]));
}

#[test]
fn traffic_frames() {
    let frame = encode_traffic_frame(&[1], &[2, 3], &[4; 32], &[5; 32], 6, b"hi");
    // One byte of length and one of type, two paths, two keys, the watermark and the payload.
    assert_eq!(frame.len(), 1 + 1 + 2 + 3 + 32 + 32 + 1 + 2);
    assert_eq!(frame[0] as usize, frame.len() - 1);
    assert_eq!(PacketType::from_byte(frame[1]), Some(PacketType::Traffic));
    assert_eq!(PacketType::Traffic.to_byte(), frame[1]);
    assert_eq!(PacketType::from_byte(10), None);
    let t = Traffic::decode(&frame[2..]).unwrap();
    assert_eq!((t.path, t.from, t.watermark), (vec![1], vec![2, 3], 6));
    assert_eq!(t.payload, b"hi");
}

#[test]
fn signatures() {
    let a = Crypto::new([1; 32]);
    let b = Crypto::new([2; 32]);
    assert_ne!(a.public_key, b.public_key);
    let sig = a.sign(b"text");
    assert!(Crypto::verify(&a.public_key, b"text", &sig));
    assert!(!Crypto::verify(&a.public_key, b"Text", &sig));
    assert!(!Crypto::verify(&b.public_key, b"text", &sig));
    assert_eq!(
        hex::encode(Crypto::new([42; 32]).public_key),
        hex::encode(ed25519_dalek::SigningKey::from_bytes(&[42; 32]).verifying_key().to_bytes())
    );
}
