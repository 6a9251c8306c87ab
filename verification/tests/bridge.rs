use lwpkt::channel::{Flow, Received, Sent, CHANNEL_CAPACITY};
use lwpkt::codec::sent_result;
use lwpkt::raw::written;
use lwpkt::{DecodeStatus, Error, LwPkt, LwPktRaw, LwRb, Package};

fn pair(rx: usize, tx: usize) -> (LwPkt, LwPktRaw) {
    LwPkt::new(LwRb::new(rx), LwRb::new(tx)).unwrap()
}

fn hello() -> Package {
    Package { cmd: 0x85, from: 0, to: 0x11, data: b"some hello".to_vec() }
}

fn hello_frame() -> Vec<u8> {
    vec![
        170, 18, 17, 133, 0, 0, 0, 10, 0, 115, 111, 109, 101, 32, 104, 101, 108, 108, 111, 248, 85,
    ]
}

fn read_to_end(raw: &mut LwPktRaw, piece: usize) -> Vec<u8> {
    let mut all = Vec::new();
    let mut buf = vec![0u8; piece];
    loop {
        let n = raw.read(&mut buf).unwrap();
        if n == 0 {
            break;
        }
        all.extend_from_slice(&buf[..n]);
    }
    all
}

fn write_all(raw: &mut LwPktRaw, bytes: &[u8]) {
    let n = raw.write(bytes).unwrap();
    assert_eq!(n, bytes.len());
}

#[test]
fn init_test() {
    let rb = LwRb::new(1024);
    let wb = LwRb::new(1024);

    let (mut lwpkt, mut raw_pkt) = LwPkt::new(rb, wb).unwrap();

    lwpkt.set_addres(0x12).unwrap();

    lwpkt
        .write(Package { cmd: 0x85, from: 0, to: 0x11, data: b"some hello".to_vec() })
        .unwrap();

    let buffer = read_to_end(&mut raw_pkt, 1024);

    write_all(&mut raw_pkt, &buffer);

    let s = lwpkt.read().unwrap();

    assert_eq!(
        *s.first().unwrap(),
        Package { cmd: 0x85, from: 0x12, to: 0x11, data: b"some hello".to_vec() }
    )
}

#[test]
fn write_puts_the_exact_frame_on_the_wire() {
    let (mut codec, mut raw) = pair(64, 64);
    codec.set_addres(0x12).unwrap();
    codec.write(hello()).unwrap();
    assert_eq!(read_to_end(&mut raw, 1024), hello_frame());
}

#[test]
fn caller_supplied_sender_is_ignored() {
    let (mut codec, mut raw) = pair(64, 64);
    codec.set_addres(0x12).unwrap();
    let mut p = hello();
    p.from = 0x77;
    codec.write(p).unwrap();
    assert_eq!(read_to_end(&mut raw, 1024), hello_frame());
}

#[test]
fn address_is_zero_until_set() {
    let (mut codec, mut raw) = pair(64, 64);
    codec.write(Package { cmd: 0, from: 9, to: 0, data: vec![] }).unwrap();
    assert_eq!(read_to_end(&mut raw, 64), vec![170, 0, 0, 0, 0, 0, 0, 0, 0, 0, 85]);
}

#[test]
fn raw_read_hides_message_boundaries() {
    let (mut codec, mut raw) = pair(64, 64);
    codec.set_addres(0x12).unwrap();
    codec.write(hello()).unwrap();
    codec.write(hello()).unwrap();
    let mut expected = hello_frame();
    expected.extend_from_slice(&hello_frame());

    let mut buf = [0u8; 8];
    let mut got = Vec::new();
    let mut sizes = Vec::new();
    loop {
        let n = raw.read(&mut buf).unwrap();
        if n == 0 {
            break;
        }
        sizes.push(n);
        got.extend_from_slice(&buf[..n]);
    }
    assert_eq!(got, expected);
    assert_eq!(sizes, vec![8, 8, 8, 8, 8, 2]);
}

#[test]
fn raw_read_joins_messages_in_one_buffer() {
    let (mut codec, mut raw) = pair(64, 64);
    codec.set_addres(0x12).unwrap();
    codec.write(hello()).unwrap();
    codec.write(hello()).unwrap();
    let mut buf = [0u8; 100];
    let n = raw.read(&mut buf).unwrap();
    assert_eq!(n, 42);
    assert_eq!(&buf[..21], &hello_frame()[..]);
    assert_eq!(&buf[21..42], &hello_frame()[..]);
    assert!(buf[42..].iter().all(|b| *b == 0));
    assert_eq!(raw.read(&mut buf).unwrap(), 0);
}

#[test]
fn raw_read_into_empty_buffer_takes_nothing() {
    let (mut codec, mut raw) = pair(64, 64);
    codec.write(hello()).unwrap();
    let mut none: [u8; 0] = [];
    assert_eq!(raw.read(&mut none).unwrap(), 0);
    assert_eq!(read_to_end(&mut raw, 64).len(), 21);
}

#[test]
fn raw_read_returns_zero_when_nothing_waits() {
    let (_codec, mut raw) = pair(64, 64);
    let mut buf = [7u8; 16];
    assert_eq!(raw.read(&mut buf), Ok(0));
    assert_eq!(raw.read(&mut buf), Ok(0));
    assert_eq!(buf, [7u8; 16]);
}

#[test]
fn backpressure_on_the_outbound_channel() {
    let (mut codec, mut raw) = pair(64, 64);
    codec.set_addres(0x12).unwrap();
    for _ in 0..CHANNEL_CAPACITY {
        assert_eq!(codec.write(hello()), Ok(()));
    }
    assert_eq!(codec.write(hello()), Err(Error::ErrorMem));
    assert_eq!(codec.write(hello()), Err(Error::ErrorMem));

    let all = read_to_end(&mut raw, 4096);
    assert_eq!(all.len(), CHANNEL_CAPACITY * 21);
    for frame in all.chunks(21) {
        assert_eq!(frame, &hello_frame()[..]);
    }
    assert_eq!(codec.write(hello()), Ok(()));
    assert_eq!(read_to_end(&mut raw, 4096), hello_frame());
}

#[test]
fn write_rejects_long_payload() {
    let (mut codec, mut raw) = pair(1024, 1024);
    let long = Package { cmd: 1, from: 0, to: 2, data: vec![0u8; 257] };
    assert_eq!(codec.write(long), Err(Error::ErrorMem));
    assert_eq!(read_to_end(&mut raw, 1024), Vec::<u8>::new());
    let full = Package { cmd: 1, from: 0, to: 2, data: vec![0u8; 256] };
    assert_eq!(codec.write(full), Ok(()));
    assert_eq!(read_to_end(&mut raw, 1024).len(), 267);
}

#[test]
fn write_rejects_frame_that_does_not_fit() {
    let (mut codec, mut raw) = pair(64, 20);
    assert_eq!(codec.write(hello()), Err(Error::ErrorMem));
    assert_eq!(read_to_end(&mut raw, 64), Vec::<u8>::new());
    let (mut codec, mut raw) = pair(64, 21);
    assert_eq!(codec.write(hello()), Ok(()));
    assert_eq!(codec.write(hello()), Ok(()));
    assert_eq!(read_to_end(&mut raw, 64).len(), 42);
}

#[test]
fn stage_builds_the_frame_and_leaves_the_buffer_empty() {
    let (mut codec, _raw) = pair(64, 21);
    codec.set_addres(0x12).unwrap();
    assert_eq!(codec.stage(&hello()), Ok(hello_frame()));
    assert_eq!(codec.stage(&hello()), Ok(hello_frame()));
    let long = Package { cmd: 1, from: 0, to: 2, data: vec![0u8; 11] };
    assert_eq!(codec.stage(&long), Err(Error::ErrorMem));
}

#[test]
fn closed_raw_side_fails_write_and_read() {
    let (mut codec, raw) = pair(64, 64);
    drop(raw);
    assert_eq!(codec.write(hello()), Err(Error::ErrorClosedRaw));
    assert_eq!(codec.read(), Err(Error::ErrorClosedRaw));
    assert_eq!(codec.read_one(), Err(Error::ErrorClosedRaw));
}

#[test]
fn closed_codec_fails_raw_write_and_read() {
    let (codec, mut raw) = pair(64, 64);
    drop(codec);
    let mut buf = [0u8; 8];
    assert_eq!(raw.write(&[1]), Err(Error::ErrorClosedRaw));
    assert_eq!(raw.read(&mut buf), Err(Error::ErrorClosedRaw));
    assert_eq!(raw.flush(), Ok(()));
}

#[test]
fn data_comes_before_the_closed_error() {
    let (mut codec, mut raw) = pair(64, 64);
    codec.set_addres(0x12).unwrap();
    codec.write(hello()).unwrap();
    write_all(&mut raw, &hello_frame());
    let mut buf = [0u8; 64];
    let (mut other, other_raw) = pair(64, 64);
    std::mem::swap(&mut codec, &mut other);
    drop(other);
    assert_eq!(raw.read(&mut buf), Ok(21));
    assert_eq!(raw.read(&mut buf), Err(Error::ErrorClosedRaw));
    drop(other_raw);
    drop(codec);
}

#[test]
fn packets_come_before_the_closed_error() {
    let (mut codec, mut raw) = pair(64, 64);
    write_all(&mut raw, &hello_frame());
    drop(raw);
    let got = codec.read().unwrap();
    assert_eq!(got.len(), 1);
    assert_eq!(got[0].data, b"some hello".to_vec());
    assert_eq!(codec.read(), Err(Error::ErrorClosedRaw));
}

#[test]
fn read_with_nothing_new_returns_no_packet() {
    let (mut codec, _raw) = pair(64, 64);
    assert_eq!(codec.read(), Ok(vec![]));
    assert_eq!(codec.read(), Ok(vec![]));
    assert_eq!(codec.read_one(), Ok(DecodeStatus::WaitData));
    assert_eq!(codec.read_one(), Ok(DecodeStatus::WaitData));
}

#[test]
fn read_one_reports_progress_then_waits() {
    let (mut codec, mut raw) = pair(64, 64);
    let f = hello_frame();
    write_all(&mut raw, &f[..5]);
    assert_eq!(codec.read_one(), Ok(DecodeStatus::InProgress));
    assert_eq!(codec.read_one(), Ok(DecodeStatus::WaitData));
    assert_eq!(codec.read_one(), Ok(DecodeStatus::WaitData));
    write_all(&mut raw, &f[5..]);
    assert_eq!(
        codec.read_one(),
        Ok(DecodeStatus::Valid(Package {
            cmd: 0x85,
            from: 0x12,
            to: 0x11,
            data: b"some hello".to_vec()
        }))
    );
    assert_eq!(codec.get_cmd(), 0x85);
    assert_eq!(codec.get_from(), 0x12);
    assert_eq!(codec.get_to(), 0x11);
    assert_eq!(codec.get_data(), b"some hello");
    assert_eq!(codec.read_one(), Ok(DecodeStatus::WaitData));
    assert_eq!(codec.get_data(), b"some hello");
}

#[test]
fn frame_split_over_many_writes_decodes_the_same() {
    let f = hello_frame();
    for piece in 1..=f.len() {
        let (mut codec, mut raw) = pair(64, 64);
        for chunk in f.chunks(piece) {
            write_all(&mut raw, chunk);
        }
        let got = codec.read().unwrap();
        assert_eq!(
            got,
            vec![Package { cmd: 0x85, from: 0x12, to: 0x11, data: b"some hello".to_vec() }]
        );
    }
}

#[test]
fn batch_read_returns_all_frames_and_keeps_the_partial_one() {
    let (mut codec, mut raw) = pair(1024, 64);
    let f = hello_frame();
    let mut stream = Vec::new();
    for _ in 0..5 {
        stream.extend_from_slice(&f);
    }
    stream.extend_from_slice(&f[..13]);
    write_all(&mut raw, &stream);
    let got = codec.read().unwrap();
    assert_eq!(got.len(), 5);
    for p in &got {
        assert_eq!(*p, Package { cmd: 0x85, from: 0x12, to: 0x11, data: b"some hello".to_vec() });
    }
    assert_eq!(codec.read(), Ok(vec![]));
    write_all(&mut raw, &f[13..]);
    assert_eq!(codec.read().unwrap().len(), 1);
}

#[test]
fn channel_answers_map_to_results() {
    assert_eq!(sent_result(Sent::Done), Ok(()));
    assert_eq!(sent_result(Sent::Full), Err(Error::ErrorMem));
    assert_eq!(sent_result(Sent::Closed), Err(Error::ErrorClosedRaw));
    assert_eq!(written(Sent::Done, 5), Ok(5));
    assert_eq!(written(Sent::Full, 5), Ok(0));
    assert_eq!(written(Sent::Closed, 5), Err(Error::ErrorClosedRaw));
}

#[test]
fn raw_take_in_and_serve_move_bytes_in_order() {
    let (_codec, mut raw) = pair(64, 64);
    raw.take_in(vec![1, 2, 3]);
    raw.take_in(vec![4, 5]);
    let mut buf = [0u8; 6];
    assert_eq!(raw.serve(&mut buf, 2), 6);
    assert_eq!(buf, [0, 0, 1, 2, 3, 4]);
    let mut buf = [9u8; 4];
    assert_eq!(raw.serve(&mut buf, 0), 1);
    assert_eq!(buf, [5, 9, 9, 9]);
    assert_eq!(raw.serve(&mut buf, 1), 1);
}

#[test]
fn raw_read_into_empty_buffer_reports_closed_codec() {
    let (codec, mut raw) = pair(64, 64);
    drop(codec);
    let mut none: [u8; 0] = [];
    assert_eq!(raw.read(&mut none), Err(Error::ErrorClosedRaw));
    assert_eq!(raw.read(&mut none), Err(Error::ErrorClosedRaw));
}

#[test]
fn raw_read_into_empty_buffer_keeps_what_it_is_given() {
    let (mut codec, mut raw) = pair(64, 64);
    codec.set_addres(0x12).unwrap();
    codec.write(hello()).unwrap();
    drop(codec);
    let mut none: [u8; 0] = [];
    assert_eq!(raw.read(&mut none), Ok(0));
    assert_eq!(raw.read(&mut none), Ok(0));
    let mut buf = [0u8; 64];
    assert_eq!(raw.read(&mut buf), Ok(21));
    assert_eq!(&buf[..21], &hello_frame()[..]);
    assert_eq!(raw.read(&mut none), Err(Error::ErrorClosedRaw));
}

#[test]
fn raw_receive_fixes_the_result_for_each_answer() {
    let (_codec, mut raw) = pair(64, 64);
    let mut buf = [0u8; 4];
    let mut at = 0usize;
    assert_eq!(raw.receive(Received::Empty, &mut buf, &mut at), Flow::Done);
    assert_eq!(at, 0);
    assert_eq!(
        raw.receive(Received::Closed, &mut buf, &mut at),
        Flow::Failed(Error::ErrorClosedRaw)
    );
    assert_eq!(at, 0);
    assert_eq!(buf, [0, 0, 0, 0]);
    assert_eq!(raw.receive(Received::Chunk(vec![1, 2, 3]), &mut buf, &mut at), Flow::More);
    assert_eq!(at, 3);
    assert_eq!(buf, [1, 2, 3, 0]);
    assert_eq!(raw.receive(Received::Closed, &mut buf, &mut at), Flow::Done);
    assert_eq!(raw.receive(Received::Chunk(vec![4, 5, 6]), &mut buf, &mut at), Flow::More);
    assert_eq!(at, 4);
    assert_eq!(buf, [1, 2, 3, 4]);
    let mut next = [0u8; 4];
    assert_eq!(raw.serve(&mut next, 0), 2);
    assert_eq!(next, [5, 6, 0, 0]);
}

#[test]
fn decoded_payload_is_within_the_limit() {
    let (mut codec, mut raw) = pair(1024, 1024);
    let full = Package { cmd: 1, from: 0, to: 2, data: vec![7u8; 256] };
    codec.write(full).unwrap();
    let frame = read_to_end(&mut raw, 1024);
    write_all(&mut raw, &frame);
    let got = codec.read().unwrap();
    assert_eq!(got.len(), 1);
    assert_eq!(got[0].data.len(), 256);
    assert_eq!(codec.get_data().len(), 256);
    assert!(codec.get_data().len() <= LwPkt::MAX_PACKAGE_SIZE as usize);
}

#[test]
fn backpressure_on_the_inbound_channel() {
    let (mut codec, mut raw) = pair(1024, 64);
    for _ in 0..CHANNEL_CAPACITY {
        assert_eq!(raw.write(&[1, 2, 3]), Ok(3));
    }
    assert_eq!(raw.write(&[1, 2, 3]), Ok(0));
    assert_eq!(codec.read(), Ok(vec![]));
    assert_eq!(raw.write(&[1, 2, 3]), Ok(3));
}

#[test]
fn read_buffer_smaller_than_a_message_rejects_it() {
    for cap in 1..21 {
        let (mut codec, mut raw) = pair(cap, 64);
        let mut two = hello_frame();
        two.extend_from_slice(&hello_frame());
        write_all(&mut raw, &two);
        assert_eq!(codec.read(), Err(Error::ErrorMem));
        assert_eq!(codec.read(), Err(Error::ErrorMem));
        let mut found = Vec::new();
        let mut rounds = 0;
        loop {
            found.extend(codec.decode().unwrap());
            rounds += 1;
            match codec.read() {
                Ok(more) => {
                    found.extend(more);
                    break;
                }
                Err(e) => assert_eq!(e, Error::ErrorMem),
            }
            assert!(rounds <= 42);
        }
        assert_eq!(rounds, (42 + cap - 1) / cap - 1);
        assert_eq!(found.len(), 2);
        assert_eq!(found[0].data, b"some hello".to_vec());
        assert_eq!(found[1].data, b"some hello".to_vec());
    }
}

#[test]
fn read_rejects_when_messages_together_exceed_the_buffer() {
    let (mut codec, mut raw) = pair(30, 64);
    write_all(&mut raw, &hello_frame());
    write_all(&mut raw, &hello_frame());
    assert_eq!(codec.read(), Err(Error::ErrorMem));
    assert_eq!(codec.decode().unwrap().len(), 1);
    assert_eq!(codec.read().unwrap().len(), 1);
    assert_eq!(codec.read(), Ok(vec![]));
}

#[test]
fn read_one_rejects_a_message_without_room() {
    let (mut codec, mut raw) = pair(20, 64);
    write_all(&mut raw, &hello_frame());
    assert_eq!(codec.read_one(), Err(Error::ErrorMem));
    assert_eq!(codec.read_one(), Err(Error::ErrorMem));
    assert_eq!(codec.decode_one(), Ok(DecodeStatus::InProgress));
    assert!(matches!(codec.read_one(), Ok(DecodeStatus::Valid(_))));
    assert_eq!(codec.read_one(), Ok(DecodeStatus::WaitData));
}

#[test]
fn read_buffer_without_capacity_rejects_bytes() {
    let (mut codec, mut raw) = pair(0, 64);
    assert_eq!(codec.read(), Ok(vec![]));
    write_all(&mut raw, &hello_frame());
    assert_eq!(codec.read(), Err(Error::ErrorMem));
    assert_eq!(codec.read(), Err(Error::ErrorMem));
    assert_eq!(codec.read_one(), Err(Error::ErrorMem));
    assert_eq!(codec.decode(), Ok(vec![]));
    assert_eq!(codec.decode_one(), Ok(DecodeStatus::WaitData));
    assert_eq!(codec.read(), Err(Error::ErrorMem));
}

#[test]
fn codec_receive_fixes_the_result_for_each_answer() {
    let (mut codec, _raw) = pair(64, 64);
    let f = hello_frame();
    let mut out = Vec::new();
    assert_eq!(codec.receive(Received::Empty, &mut out), Flow::Done);
    assert_eq!(codec.receive(Received::Closed, &mut out), Flow::Failed(Error::ErrorClosedRaw));
    assert_eq!(codec.receive(Received::Chunk(f[..7].to_vec()), &mut out), Flow::More);
    assert_eq!(codec.receive(Received::Empty, &mut out), Flow::Done);
    assert!(out.is_empty());
    assert_eq!(codec.receive(Received::Chunk(f[7..].to_vec()), &mut out), Flow::More);
    assert!(out.is_empty());
    assert_eq!(codec.receive(Received::Closed, &mut out), Flow::Done);
    assert_eq!(
        out,
        vec![Package { cmd: 0x85, from: 0x12, to: 0x11, data: b"some hello".to_vec() }]
    );
    assert_eq!(codec.receive(Received::Closed, &mut out), Flow::Done);
    assert_eq!(out.len(), 1);

    let mut bad = f.clone();
    bad[19] ^= 1;
    assert_eq!(codec.receive(Received::Chunk(bad), &mut out), Flow::More);
    assert_eq!(codec.receive(Received::Empty, &mut out), Flow::Done);
    assert_eq!(out.len(), 1);
    let mut next = Vec::new();
    assert_eq!(codec.receive(Received::Empty, &mut next), Flow::Failed(Error::ErrorCRC));
    assert!(next.is_empty());
}

#[test]
fn codec_receive_rejects_a_message_without_room() {
    let (mut codec, _raw) = pair(16, 64);
    let f = hello_frame();
    let mut out = Vec::new();
    assert_eq!(codec.receive(Received::Chunk(f), &mut out), Flow::Failed(Error::ErrorMem));
    assert!(out.is_empty());
    assert_eq!(codec.receive(Received::Empty, &mut out), Flow::Done);
    assert!(out.is_empty());
    assert_eq!(codec.receive(Received::Chunk(vec![]), &mut out), Flow::More);
    assert_eq!(codec.receive(Received::Empty, &mut out), Flow::Done);
    assert_eq!(out.len(), 1);
    assert_eq!(out[0].data, b"some hello".to_vec());
}

#[test]
fn codec_receive_one_fixes_the_result_for_each_answer() {
    let (mut codec, _raw) = pair(64, 64);
    let f = hello_frame();
    assert_eq!(codec.receive_one(Received::Empty), Some(Ok(DecodeStatus::WaitData)));
    assert_eq!(codec.receive_one(Received::Closed), Some(Err(Error::ErrorClosedRaw)));
    assert_eq!(codec.receive_one(Received::Chunk(vec![])), None);
    assert_eq!(codec.receive_one(Received::Chunk(f[..7].to_vec())), None);
    assert_eq!(codec.receive_one(Received::Empty), Some(Ok(DecodeStatus::InProgress)));
    assert_eq!(codec.receive_one(Received::Empty), Some(Ok(DecodeStatus::WaitData)));
    assert_eq!(codec.receive_one(Received::Chunk(f[7..].to_vec())), None);
    assert_eq!(
        codec.receive_one(Received::Closed),
        Some(Ok(DecodeStatus::Valid(Package {
            cmd: 0x85,
            from: 0x12,
            to: 0x11,
            data: b"some hello".to_vec()
        })))
    );
    let mut bad = f.clone();
    bad[20] = 0;
    assert_eq!(codec.receive_one(Received::Chunk(bad)), None);
    assert_eq!(codec.receive_one(Received::Closed), Some(Err(Error::ErrStop)));
    let (mut small, _raw) = pair(20, 64);
    assert_eq!(small.receive_one(Received::Chunk(f)), Some(Err(Error::ErrorMem)));
}
