use squid_boot::checksum::crc32;
use squid_boot::codec::{decode_request, decode_response};
use squid_boot::frame::{cobs_stuff, encode_frame};
use squid_boot::icd::{
    BootCommand, DataChunk, Parameters, Request, Response, ResponseError, StartBootload, Status,
};
use squid_boot::machine::{Bootable, Error};

fn body_of(frame: Vec<u8>) -> Vec<u8> {
    assert_eq!(frame.last(), Some(&0u8));
    frame[..frame.len() - 1].to_vec()
}

fn roundtrip_req(req: Request) {
    let body = body_of(req.encode_to_vec());
    let back = decode_request(&body).unwrap();
    assert_eq!(back, req);
}

fn roundtrip_resp(resp: Response) {
    // `Response::encode_to_vec` frames a bare response, without the
    // reply-or-error tag the machine's replies carry
    let body = body_of(resp.encode_to_vec());
    let payload = squid_boot::frame::decode_frame(&body).unwrap();
    let (back, used) = squid_boot::codec::parse_response_exec(&payload, 0).unwrap();
    assert_eq!(used, payload.len());
    assert_eq!(back, resp);
}

#[test]
fn request_variants_roundtrip() {
    roundtrip_req(Request::Ping(0));
    roundtrip_req(Request::Ping(0xDEAD_BEEF));
    roundtrip_req(Request::GetParameters);
    roundtrip_req(Request::StartBootload(StartBootload {
        start_addr: 16 * 1024,
        length: 8 * 1024,
        crc32: 0x1234_5678,
    }));
    roundtrip_req(Request::DataChunk(DataChunk {
        data_addr: 16 * 1024,
        sub_crc32: 0xA5A5_5A5A,
        data: vec![7; 2048],
    }));
    roundtrip_req(Request::DataChunk(DataChunk {
        data_addr: 0,
        sub_crc32: 0,
        data: Vec::new(),
    }));
    roundtrip_req(Request::CompleteBootload { boot: None });
    roundtrip_req(Request::CompleteBootload {
        boot: Some(BootCommand::BootIfBootable),
    });
    roundtrip_req(Request::CompleteBootload {
        boot: Some(BootCommand::ForceBoot),
    });
    roundtrip_req(Request::GetSettings);
    roundtrip_req(Request::WriteSettings {
        data: vec![1, 2, 3, 0, 255],
    });
    roundtrip_req(Request::GetStatus);
    roundtrip_req(Request::ReadRange {
        start_addr: 0x100,
        len: 0x40,
    });
    roundtrip_req(Request::AbortBootload);
    roundtrip_req(Request::IsBootable);
    roundtrip_req(Request::Boot(BootCommand::BootIfBootable));
    roundtrip_req(Request::Boot(BootCommand::ForceBoot));
}

#[test]
fn response_variants_roundtrip() {
    roundtrip_resp(Response::Pong(42));
    roundtrip_resp(Response::Parameters(Parameters {
        settings_max: 2044,
        data_chunk_size: 2048,
        valid_flash_range: (0, 65536),
        valid_app_range: (16384, 65536),
        read_max: 2048,
    }));
    roundtrip_resp(Response::BootloadStarted);
    roundtrip_resp(Response::ChunkAccepted {
        data_addr: 16384,
        data_len: 2048,
        crc32: 0xFFFF_FFFF,
    });
    roundtrip_resp(Response::ConfirmComplete {
        will_boot: true,
        boot_status: Bootable::Yes {
            crc32: 0xCAFE_F00D,
            length: 8192,
        },
    });
    roundtrip_resp(Response::ConfirmComplete {
        will_boot: false,
        boot_status: Bootable::NoInvalidCrc,
    });
    roundtrip_resp(Response::Settings {
        data: vec![9, 8, 7],
    });
    roundtrip_resp(Response::SettingsAccepted { data_len: 3 });
    roundtrip_resp(Response::Status(Status::Idle));
    roundtrip_resp(Response::Status(Status::Started {
        start_addr: 16384,
        length: 8192,
        crc32: 1,
    }));
    roundtrip_resp(Response::Status(Status::Loading {
        start_addr: 16384,
        next_addr: 18432,
        partial_crc32: 2,
        expected_crc32: 3,
    }));
    roundtrip_resp(Response::Status(Status::AwaitingComplete));
    roundtrip_resp(Response::ReadRange {
        start_addr: 0,
        len: 4,
        data: vec![0xA5; 4],
    });
    roundtrip_resp(Response::BadOverfillNak);
    roundtrip_resp(Response::BadPostcardNak);
    roundtrip_resp(Response::BadCrcNak);
    roundtrip_resp(Response::BootloadAborted);
    roundtrip_resp(Response::BootableStatus(Bootable::Unsure));
    roundtrip_resp(Response::BootableStatus(Bootable::NoMissingSettings));
    roundtrip_resp(Response::BootableStatus(Bootable::NoDuplicateSettings));
    roundtrip_resp(Response::BootableStatus(Bootable::NoInvalidSettings));
    roundtrip_resp(Response::ConfirmBootCmd {
        will_boot: false,
        boot_status: Bootable::NoMissingSettings,
    });
}

#[test]
fn response_error_variants_roundtrip() {
    let errors = vec![
        ResponseError::BadStartAddress,
        ResponseError::BadLength,
        ResponseError::BootloadInProgress,
        ResponseError::SkippedRange {
            expected: 1,
            actual: 2,
        },
        ResponseError::IncorrectLength {
            expected: 2048,
            actual: 7,
        },
        ResponseError::BadSubCrc {
            expected: 3,
            actual: 4,
        },
        ResponseError::NoBootloadActive,
        ResponseError::TooManyChunks,
        ResponseError::IncompleteLoad {
            expected_len: 8192,
            actual_len: 6144,
        },
        ResponseError::BadFullCrc {
            expected: 5,
            actual: 6,
        },
        ResponseError::SettingsTooLong {
            max: 2044,
            actual: 5000,
        },
        ResponseError::BadRangeStart,
        ResponseError::BadRangeEnd,
        ResponseError::BadRangeLength { actual: 9, max: 10 },
        ResponseError::LineNak(Error::Underfill),
        ResponseError::LineNak(Error::Overfill),
        ResponseError::LineNak(Error::PostcardDecode),
        ResponseError::LineNak(Error::Cobs),
        ResponseError::LineNak(Error::Crc {
            expected: 11,
            actual: 12,
        }),
        ResponseError::LineNak(Error::LogicError),
        ResponseError::Oops,
    ];
    for e in errors {
        let mut p: Vec<u8> = vec![1];
        squid_boot::codec::enc_response_error_exec(&mut p, &e);
        let body = body_of(encode_frame(&p));
        assert_eq!(decode_response(&body).unwrap(), Err(e));
    }
}

#[test]
fn crc32_matches_cksum_check_vector() {
    // the catalogued check value of the CRC-32/CKSUM parameterization
    assert_eq!(crc32(b"123456789"), 0x765E_7680);
    assert_ne!(crc32(b"123456789"), crc32(b"123456788"));
    assert_eq!(crc32(b""), 0xFFFF_FFFF);
}

#[test]
fn tampered_crc_trailer_fails_with_crc_error() {
    let req = Request::Ping(77);
    let frame = req.encode_to_vec();
    // undo the stuffing, flip a trailer bit, restuff
    let mut unstuffed = squid_boot::frame::decode_frame(&frame[..frame.len() - 1])
        .map(|p| p)
        .unwrap();
    // re-frame with a wrong trailer: rebuild payload || crc+1 by hand
    let actual = crc32(&unstuffed);
    let wrong = actual.wrapping_add(1);
    let mut raw = Vec::new();
    raw.append(&mut unstuffed);
    raw.extend_from_slice(&wrong.to_le_bytes());
    let body = cobs_stuff(&raw);
    match decode_request(&body) {
        Err(Error::Crc { expected, actual: got }) => {
            assert_eq!(expected, wrong);
            assert_eq!(got, actual);
        }
        other => panic!("expected a Crc error, got {:?}", other),
    }
}

#[test]
fn short_frames_underfill() {
    // a two-byte payload unstuffs fine but cannot carry the four-byte trailer
    let body = cobs_stuff(&[1, 2]);
    assert_eq!(decode_request(&body), Err(Error::Underfill));
}

#[test]
fn malformed_stuffing_fails_with_cobs() {
    // an overhead byte that promises six bytes where none follow
    let body = vec![7u8];
    assert_eq!(decode_request(&body), Err(Error::Cobs));
}

#[test]
fn junk_payload_fails_with_postcard_decode() {
    // a well-framed payload whose leading tag no request variant owns
    let payload = vec![200u8, 1, 2, 3];
    let body = body_of(encode_frame(&payload));
    assert_eq!(decode_request(&body), Err(Error::PostcardDecode));
}

#[test]
fn stuffing_removes_and_restores_zeros() {
    let payloads: Vec<Vec<u8>> = vec![
        vec![],
        vec![0],
        vec![0, 0, 0],
        vec![1, 0, 2],
        (0u32..600).map(|i| (i % 256) as u8).collect(),
        vec![7; 254],
        vec![7; 255],
        vec![7; 510],
    ];
    for p in payloads {
        let stuffed = cobs_stuff(&p);
        assert!(!stuffed.contains(&0u8));
        let frame = encode_frame(&p);
        assert_eq!(frame.iter().filter(|b| **b == 0).count(), 1);
        if !p.is_empty() {
            let back = squid_boot::frame::decode_frame(&frame[..frame.len() - 1]).unwrap();
            assert_eq!(back, p);
        }
    }
}
