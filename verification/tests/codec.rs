use lwpkt::crc::{crc8_of, crc8_step};
use lwpkt::decoder::{Decoder, Phase, Signal};
use lwpkt::frame::{encode, MAX_DATA_LEN, MAX_FRAME_LEN};
use lwpkt::{DecodeStatus, Error, LwPkt, LwRb, Package};

fn codec() -> LwPkt {
    LwPkt::new(LwRb::new(1024), LwRb::new(1024)).unwrap().0
}

fn hello_from(from: u8) -> Package {
    Package { cmd: 0x85, from, to: 0x11, data: b"some hello".to_vec() }
}

fn hello_frame() -> Vec<u8> {
    vec![
        170, 18, 17, 133, 0, 0, 0, 10, 0, 115, 111, 109, 101, 32, 104, 101, 108, 108, 111, 248, 85,
    ]
}

#[test]
fn crc_check_value() {
    assert_eq!(crc8_of(b"123456789"), 0xA1);
    assert_eq!(crc8_of(b""), 0);
    assert_eq!(crc8_step(0, 0), 0);
    assert_eq!(crc8_step(0, 1), 0x5E);
}

#[test]
fn encode_gives_the_exact_bytes() {
    assert_eq!(encode(&hello_from(0), 0x12), Ok(hello_frame()));
    assert_eq!(
        encode(&Package { cmd: 0, from: 0, to: 0, data: vec![] }, 0),
        Ok(vec![170, 0, 0, 0, 0, 0, 0, 0, 0, 0, 85])
    );
    assert_eq!(
        encode(&Package { cmd: 0x01020304, from: 1, to: 9, data: vec![0xAA, 0x55, 0xAA] }, 7),
        Ok(vec![170, 7, 9, 4, 3, 2, 1, 3, 0, 170, 85, 170, 80, 85])
    );
    let longest =
        encode(&Package { cmd: 1, from: 0, to: 0, data: vec![0; MAX_DATA_LEN] }, 0).unwrap();
    assert_eq!(longest.len(), MAX_FRAME_LEN);
    assert_eq!(&longest[7..9], &[0, 1]);
    assert_eq!(
        encode(&Package { cmd: 1, from: 0, to: 0, data: vec![0; MAX_DATA_LEN + 1] }, 0),
        Err(Error::ErrorMem)
    );
}

#[test]
fn round_trip_of_every_payload_length() {
    let mut c = codec();
    for len in [0usize, 1, 2, 10, 255, 256] {
        let data: Vec<u8> = (0..len).map(|i| (i * 7 + 3) as u8).collect();
        let p = Package { cmd: 0xDEADBEEF, from: 0, to: 0x42, data };
        c.accept(encode(&p, 0x99).unwrap()).unwrap();
        assert_eq!(
            c.decode_one(),
            Ok(DecodeStatus::Valid(Package {
                cmd: 0xDEADBEEF,
                from: 0x99,
                to: 0x42,
                data: p.data.clone()
            }))
        );
        assert_eq!(c.get_data(), &p.data[..]);
        assert_eq!(c.get_cmd(), 0xDEADBEEF);
    }
}

#[test]
fn payload_may_hold_start_and_stop_bytes() {
    let mut c = codec();
    let p = Package { cmd: 0xAA55AA55, from: 0, to: 0xAA, data: vec![0x55, 0xAA, 0xAA, 0x55] };
    c.accept(encode(&p, 0x55).unwrap()).unwrap();
    assert_eq!(
        c.decode(),
        Ok(vec![Package { cmd: 0xAA55AA55, from: 0x55, to: 0xAA, data: vec![0x55, 0xAA, 0xAA, 0x55] }])
    );
}

#[test]
fn decode_one_is_idempotent_without_input() {
    let mut c = codec();
    assert_eq!(c.decode_one(), Ok(DecodeStatus::WaitData));
    assert_eq!(c.decode_one(), Ok(DecodeStatus::WaitData));
    c.accept(hello_frame()).unwrap();
    assert!(matches!(c.decode_one(), Ok(DecodeStatus::Valid(_))));
    for _ in 0..3 {
        assert_eq!(c.decode_one(), Ok(DecodeStatus::WaitData));
        assert_eq!(c.get_cmd(), 0x85);
        assert_eq!(c.get_from(), 0x12);
        assert_eq!(c.get_to(), 0x11);
        assert_eq!(c.get_data(), b"some hello");
    }
}

#[test]
fn decode_one_mid_frame() {
    let mut c = codec();
    let f = hello_frame();
    c.accept(f[..1].to_vec()).unwrap();
    assert_eq!(c.decode_one(), Ok(DecodeStatus::InProgress));
    assert_eq!(c.decode_one(), Ok(DecodeStatus::WaitData));
    c.accept(f[1..20].to_vec()).unwrap();
    assert_eq!(c.decode_one(), Ok(DecodeStatus::InProgress));
    c.accept(f[20..].to_vec()).unwrap();
    assert_eq!(c.decode_one(), Ok(DecodeStatus::Valid(hello_from(0x12))));
}

#[test]
fn noise_between_frames_is_skipped() {
    let mut c = codec();
    c.accept(vec![0, 1, 2, 0x55, 0xFF]).unwrap();
    assert_eq!(c.decode_one(), Ok(DecodeStatus::WaitData));
    let mut s = vec![3, 4];
    s.extend_from_slice(&hello_frame());
    s.push(0x55);
    c.accept(s).unwrap();
    assert_eq!(c.decode(), Ok(vec![hello_from(0x12)]));
}

#[test]
fn batch_decodes_frames_in_order() {
    let mut c = codec();
    let mut stream = Vec::new();
    let mut expected = Vec::new();
    for i in 0..20u8 {
        let p = Package { cmd: i as u32, from: 0, to: i, data: vec![i; i as usize] };
        stream.extend_from_slice(&encode(&p, 3).unwrap());
        expected.push(Package { cmd: i as u32, from: 3, to: i, data: vec![i; i as usize] });
    }
    let partial = hello_frame();
    stream.extend_from_slice(&partial[..9]);
    c.accept(stream).unwrap();
    assert_eq!(c.decode(), Ok(expected));
    assert_eq!(c.decode(), Ok(vec![]));
    c.accept(partial[9..].to_vec()).unwrap();
    assert_eq!(c.decode(), Ok(vec![hello_from(0x12)]));
}

#[test]
fn every_bit_flip_in_payload_or_checksum_is_one_crc_error() {
    let f = hello_frame();
    for i in 9..20 {
        for k in 0..8 {
            let mut bad = f.clone();
            bad[i] ^= 1 << k;
            let mut c = codec();
            let mut stream = bad;
            stream.extend_from_slice(&f);
            c.accept(stream).unwrap();
            assert_eq!(c.decode(), Err(Error::ErrorCRC));
            assert_eq!(c.decode(), Ok(vec![hello_from(0x12)]));
            assert_eq!(c.decode(), Ok(vec![]));
        }
    }
}

#[test]
fn crc_error_step_by_step() {
    let mut bad = hello_frame();
    bad[12] ^= 0x10;
    let mut c = codec();
    let mut stream = bad;
    stream.extend_from_slice(&hello_frame());
    c.accept(stream).unwrap();
    assert_eq!(c.decode_one(), Err(Error::ErrorCRC));
    assert_eq!(c.decode_one(), Ok(DecodeStatus::Valid(hello_from(0x12))));
    assert_eq!(c.decode_one(), Ok(DecodeStatus::WaitData));
}

#[test]
fn packets_before_a_failure_are_returned_first() {
    let f = hello_frame();
    let mut bad = f.clone();
    bad[19] ^= 0x01;
    let mut stream = f.clone();
    stream.extend_from_slice(&bad);
    stream.extend_from_slice(&f);
    let mut c = codec();
    c.accept(stream).unwrap();
    assert_eq!(c.decode(), Ok(vec![hello_from(0x12)]));
    assert_eq!(c.decode(), Err(Error::ErrorCRC));
    assert_eq!(c.decode(), Ok(vec![hello_from(0x12)]));
}

#[test]
fn wrong_stop_byte_is_a_stop_error() {
    let mut bad = hello_frame();
    bad[20] = 0x54;
    let mut c = codec();
    let mut stream = bad;
    stream.extend_from_slice(&hello_frame());
    c.accept(stream).unwrap();
    assert_eq!(c.decode_one(), Err(Error::ErrStop));
    assert_eq!(c.decode(), Ok(vec![hello_from(0x12)]));
}

#[test]
fn announced_length_above_the_limit_is_a_memory_error() {
    let mut c = codec();
    let mut stream = vec![0xAA, 1, 2, 0, 0, 0, 0, 0x01, 0x01];
    stream.extend_from_slice(&hello_frame());
    c.accept(stream).unwrap();
    assert_eq!(c.decode(), Err(Error::ErrorMem));
    assert_eq!(c.decode(), Ok(vec![hello_from(0x12)]));
}

#[test]
fn decoder_byte_by_byte() {
    let mut d = Decoder::new();
    assert!(d.is_idle());
    assert!(d.push(0x00).is_none());
    assert!(d.is_idle());
    let f = hello_frame();
    for (i, b) in f.iter().enumerate() {
        assert!(!d.faults_on(*b));
        let out = d.push(*b);
        if i + 1 < f.len() {
            assert!(out.is_none());
            assert!(!d.is_idle());
        } else {
            match out {
                Some(Signal::Packet(p)) => assert_eq!(p, hello_from(0x12)),
                _ => panic!("no packet"),
            }
        }
        match i {
            0..=7 => assert_eq!(d.phase(), Phase::Header),
            8..=17 => assert_eq!(d.phase(), Phase::Data),
            18 => assert_eq!(d.phase(), Phase::Checksum),
            19 => assert_eq!(d.phase(), Phase::Stop),
            _ => assert_eq!(d.phase(), Phase::Idle),
        }
    }
}

#[test]
fn decoder_sees_a_failure_coming() {
    let mut d = Decoder::new();
    let f = hello_frame();
    for b in &f[..19] {
        assert!(d.push(*b).is_none());
    }
    assert!(d.faults_on(f[19] ^ 1));
    assert!(!d.faults_on(f[19]));
    assert!(d.push(f[19]).is_none());
    assert!(d.faults_on(0x00));
    assert!(!d.faults_on(0x55));
    match d.push(0x00) {
        Some(Signal::Fault(e)) => assert_eq!(e, Error::ErrStop),
        _ => panic!("no failure"),
    }
    assert!(d.is_idle());
}

#[test]
fn message_without_room_is_rejected_and_kept() {
    let mut c = LwPkt::new(LwRb::new(8), LwRb::new(64)).unwrap().0;
    assert_eq!(c.accept(hello_frame()), Err(Error::ErrorMem));
    assert_eq!(c.decode_one(), Ok(DecodeStatus::InProgress));
    assert_eq!(c.accept(vec![]), Err(Error::ErrorMem));
    assert_eq!(c.decode_one(), Ok(DecodeStatus::InProgress));
    assert_eq!(c.accept(vec![]), Ok(()));
    assert_eq!(c.decode_one(), Ok(DecodeStatus::Valid(hello_from(0x12))));
    assert_eq!(c.decode_one(), Ok(DecodeStatus::WaitData));
}

#[test]
fn message_that_just_fits_is_not_rejected() {
    let mut c = LwPkt::new(LwRb::new(21), LwRb::new(64)).unwrap().0;
    assert_eq!(c.accept(hello_frame()), Ok(()));
    assert_eq!(c.accept(vec![0]), Err(Error::ErrorMem));
    assert_eq!(c.decode(), Ok(vec![hello_from(0x12)]));
    assert_eq!(c.accept(hello_frame()[..20].to_vec()), Ok(()));
    assert_eq!(c.decode(), Ok(vec![]));
    assert_eq!(c.accept(hello_frame()[20..].to_vec()), Ok(()));
    assert_eq!(c.decode(), Ok(vec![hello_from(0x12)]));
}

#[test]
fn rejected_bytes_keep_their_order_behind_later_ones() {
    let mut c = LwPkt::new(LwRb::new(16), LwRb::new(64)).unwrap().0;
    let f = hello_frame();
    assert_eq!(c.accept(f.clone()), Err(Error::ErrorMem));
    assert_eq!(c.accept(f.clone()), Err(Error::ErrorMem));
    let mut found = Vec::new();
    for _ in 0..8 {
        found.extend(c.decode().unwrap());
        let _ = c.accept(vec![]);
    }
    assert_eq!(found, vec![hello_from(0x12), hello_from(0x12)]);
}
