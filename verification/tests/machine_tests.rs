use std::sync::{Arc, Mutex};

use squid_boot::checksum::crc32;
use squid_boot::codec::decode_response;
use squid_boot::icd::{
    BootCommand, DataChunk, Request, Response, ResponseError, Setting, SettingVal, StartBootload,
    Status,
};
use squid_boot::machine::{stm32g031_params, Bootable, Flash, Machine};
use squid_boot::settings::settings_to_vec;

struct HwInner {
    flash: Vec<u8>,
    settings: Vec<u8>,
    booted: bool,
}

#[derive(Clone)]
struct AtomicHardware {
    inner: Arc<Mutex<HwInner>>,
}

impl AtomicHardware {
    fn new() -> Self {
        let params = stm32g031_params();
        assert_eq!(params.valid_flash_range.0, 0);
        Self {
            inner: Arc::new(Mutex::new(HwInner {
                flash: vec![0xA5u8; params.valid_flash_range.1 as usize],
                settings: vec![0xCCu8; 4usize + params.settings_max as usize],
                booted: false,
            })),
        }
    }
}

impl Flash for AtomicHardware {
    fn parameters(&self) -> squid_boot::icd::Parameters {
        stm32g031_params()
    }

    fn flash_range(&mut self, start: u32, data: &[u8]) {
        let mut inner = self.inner.lock().unwrap();
        let su = start as usize;
        let range = inner.flash.get_mut(su..su + data.len()).unwrap();
        range
            .iter()
            .for_each(|b| assert_eq!(*b, 0xFF, "flash not erased!"));
        range.copy_from_slice(data)
    }

    fn erase_range(&mut self, start: u32, len: u32) {
        let mut inner = self.inner.lock().unwrap();
        let su = start as usize;
        let lu = len as usize;
        inner
            .flash
            .get_mut(su..su + lu)
            .unwrap()
            .iter_mut()
            .for_each(|b| *b = 0xFF);
    }

    fn read_settings_raw(&mut self) -> Vec<u8> {
        self.inner.lock().unwrap().settings.clone()
    }

    fn write_settings(&mut self, data: &[u8]) {
        let mut inner = self.inner.lock().unwrap();
        inner.settings.iter_mut().for_each(|b| *b = 0xFF);
        inner
            .settings
            .get_mut(..data.len())
            .unwrap()
            .copy_from_slice(data);
    }

    fn read_range(&mut self, start: u32, len: u32) -> Vec<u8> {
        let inner = self.inner.lock().unwrap();
        let su = start as usize;
        let lu = len as usize;
        inner.flash.get(su..su + lu).unwrap().to_vec()
    }

    fn boot(&mut self) {
        self.inner.lock().unwrap().booted = true;
    }
}

fn exchange(
    machine: &mut Machine<AtomicHardware>,
    req: &Request,
) -> Result<Response, ResponseError> {
    let frame = req.encode_to_vec();
    assert_eq!(frame.last(), Some(&0u8));
    let body = frame[..frame.len() - 1].to_vec();
    let reply = machine.process(&body);
    assert_eq!(reply.last(), Some(&0u8));
    let rbody = &reply[..reply.len() - 1];
    decode_response(rbody).unwrap()
}

fn chunk(fill: u8, addr: u32) -> Request {
    Request::DataChunk(DataChunk {
        data_addr: addr,
        sub_crc32: crc32(&[fill; 2048]),
        data: vec![fill; 2048],
    })
}

fn app_settings(len: u32, crc: u32) -> Vec<u8> {
    settings_to_vec(&[
        Setting {
            name_ascii: b"app_len".to_vec(),
            val: SettingVal::U32(len),
        },
        Setting {
            name_ascii: b"app_crc".to_vec(),
            val: SettingVal::U32(crc),
        },
    ])
}

fn image_crc() -> u32 {
    let mut all = Vec::new();
    for fill in [16u8, 18, 20, 22] {
        all.extend_from_slice(&[fill; 2048]);
    }
    crc32(&all)
}

#[test]
fn features() {
    // This library always builds with the standard library available;
    // there is no feature to switch on before running the tests.
}

#[test]
fn do_a_bootload() {
    // Create a fake (in-memory) hardware impl
    let hw = AtomicHardware::new();

    // Create the bootload "server": this usually runs on-device
    let mut machine = Machine::new(hw.clone());

    let ttl_crc = image_crc();
    let settings = app_settings(8 * 1024, ttl_crc);

    // The sequence of commands sent and expected responses
    let seq: Vec<(Request, Result<Response, ResponseError>)> = vec![
        (
            Request::GetParameters,
            Ok(Response::Parameters(stm32g031_params())),
        ),
        (
            Request::IsBootable,
            Ok(Response::BootableStatus(Bootable::NoMissingSettings)),
        ),
        (
            Request::StartBootload(StartBootload {
                start_addr: 16 * 1024,
                length: 8 * 1024,
                crc32: ttl_crc,
            }),
            Ok(Response::BootloadStarted),
        ),
        (
            chunk(16, 16 * 1024),
            Ok(Response::ChunkAccepted {
                data_addr: 16 * 1024,
                data_len: 2048,
                crc32: crc32(&[16; 2048]),
            }),
        ),
        (
            chunk(18, 18 * 1024),
            Ok(Response::ChunkAccepted {
                data_addr: 18 * 1024,
                data_len: 2048,
                crc32: crc32(&[18; 2048]),
            }),
        ),
        (
            chunk(20, 20 * 1024),
            Ok(Response::ChunkAccepted {
                data_addr: 20 * 1024,
                data_len: 2048,
                crc32: crc32(&[20; 2048]),
            }),
        ),
        (
            chunk(22, 22 * 1024),
            Ok(Response::ChunkAccepted {
                data_addr: 22 * 1024,
                data_len: 2048,
                crc32: crc32(&[22; 2048]),
            }),
        ),
        (
            Request::WriteSettings {
                data: settings.clone(),
            },
            Ok(Response::SettingsAccepted {
                data_len: settings.len() as u32,
            }),
        ),
        (
            Request::CompleteBootload { boot: None },
            Ok(Response::ConfirmComplete {
                will_boot: false,
                boot_status: Bootable::Yes {
                    crc32: ttl_crc,
                    length: 8 * 1024,
                },
            }),
        ),
    ];

    for (req, exp_res) in &seq {
        let act_res = exchange(&mut machine, req);
        assert_eq!(&act_res, exp_res);
    }

    // Memory test!
    {
        let hwinner = hw.inner.lock().unwrap();
        let flash = &hwinner.flash;

        // Unprogrammed regions
        assert_eq!(&flash[..16 * 1024], [0xA5; 16 * 1024].as_slice());
        assert_eq!(&flash[24 * 1024..], [0xA5; (64 - 24) * 1024].as_slice());

        // Programmed regions
        assert_eq!(&flash[16 * 1024..][..2048], [16; 2048].as_slice());
        assert_eq!(&flash[18 * 1024..][..2048], [18; 2048].as_slice());
        assert_eq!(&flash[20 * 1024..][..2048], [20; 2048].as_slice());
        assert_eq!(&flash[22 * 1024..][..2048], [22; 2048].as_slice());
    }

    // We commanded NO reboot after flashing
    assert!(machine.mode_is_idle());
}

#[test]
fn wrong_start_address_rejected() {
    let hw = AtomicHardware::new();
    let mut machine = Machine::new(hw);
    let r = exchange(
        &mut machine,
        &Request::StartBootload(StartBootload {
            start_addr: 0,
            length: 8192,
            crc32: 0,
        }),
    );
    assert_eq!(r, Err(ResponseError::BadStartAddress));
    assert!(machine.mode_is_idle());

    // a misaligned or oversized length is refused too
    let r = exchange(
        &mut machine,
        &Request::StartBootload(StartBootload {
            start_addr: 16 * 1024,
            length: 1000,
            crc32: 0,
        }),
    );
    assert_eq!(r, Err(ResponseError::BadLength));
    let r = exchange(
        &mut machine,
        &Request::StartBootload(StartBootload {
            start_addr: 16 * 1024,
            length: 64 * 1024,
            crc32: 0,
        }),
    );
    assert_eq!(r, Err(ResponseError::BadLength));
    assert!(machine.mode_is_idle());
}

#[test]
fn bad_sub_crc_keeps_session() {
    let hw = AtomicHardware::new();
    let mut machine = Machine::new(hw);
    let ttl_crc = image_crc();
    let r = exchange(
        &mut machine,
        &Request::StartBootload(StartBootload {
            start_addr: 16 * 1024,
            length: 8 * 1024,
            crc32: ttl_crc,
        }),
    );
    assert_eq!(r, Ok(Response::BootloadStarted));
    let r = exchange(&mut machine, &chunk(16, 16 * 1024));
    assert!(matches!(r, Ok(Response::ChunkAccepted { .. })));

    // second chunk with a sub-CRC that does not match its bytes
    let r = exchange(
        &mut machine,
        &Request::DataChunk(DataChunk {
            data_addr: 18 * 1024,
            sub_crc32: 0xDEAD_BEEF,
            data: vec![18; 2048],
        }),
    );
    assert_eq!(
        r,
        Err(ResponseError::BadSubCrc {
            expected: 0xDEAD_BEEF,
            actual: crc32(&[18; 2048]),
        })
    );

    // the session is intact, still waiting at the same address
    let r = exchange(&mut machine, &Request::GetStatus);
    assert_eq!(
        r,
        Ok(Response::Status(Status::Loading {
            start_addr: 16 * 1024,
            next_addr: 18 * 1024,
            partial_crc32: crc32(&[16; 2048]),
            expected_crc32: ttl_crc,
        }))
    );
}

#[test]
fn incomplete_complete_keeps_session() {
    let hw = AtomicHardware::new();
    let mut machine = Machine::new(hw);
    let ttl_crc = image_crc();
    exchange(
        &mut machine,
        &Request::StartBootload(StartBootload {
            start_addr: 16 * 1024,
            length: 8 * 1024,
            crc32: ttl_crc,
        }),
    )
    .unwrap();
    for (fill, addr) in [(16u8, 16u32), (18, 18), (20, 20)] {
        exchange(&mut machine, &chunk(fill, addr * 1024)).unwrap();
    }

    let status_before = exchange(&mut machine, &Request::GetStatus);
    let r = exchange(&mut machine, &Request::CompleteBootload { boot: None });
    assert_eq!(
        r,
        Err(ResponseError::IncompleteLoad {
            expected_len: 8192,
            actual_len: 6144,
        })
    );
    let status_after = exchange(&mut machine, &Request::GetStatus);
    assert_eq!(status_before, status_after);
    assert!(!machine.mode_is_idle());
}

#[test]
fn full_crc_mismatch_destroys_session_and_does_not_boot() {
    let hw = AtomicHardware::new();
    let mut machine = Machine::new(hw.clone());
    // announce a CRC that cannot match the chunks
    let wrong_crc = image_crc().wrapping_add(1);
    exchange(
        &mut machine,
        &Request::StartBootload(StartBootload {
            start_addr: 16 * 1024,
            length: 8 * 1024,
            crc32: wrong_crc,
        }),
    )
    .unwrap();
    for (fill, addr) in [(16u8, 16u32), (18, 18), (20, 20), (22, 22)] {
        exchange(&mut machine, &chunk(fill, addr * 1024)).unwrap();
    }
    let r = exchange(
        &mut machine,
        &Request::CompleteBootload {
            boot: Some(BootCommand::ForceBoot),
        },
    );
    assert_eq!(
        r,
        Err(ResponseError::BadFullCrc {
            expected: wrong_crc,
            actual: image_crc(),
        })
    );
    assert!(machine.mode_is_idle());
    machine.check_after_send();
    assert!(!hw.inner.lock().unwrap().booted);
}

#[test]
fn force_boot_hands_over_after_send() {
    let hw = AtomicHardware::new();
    let mut machine = Machine::new(hw.clone());
    let ttl_crc = image_crc();
    exchange(
        &mut machine,
        &Request::StartBootload(StartBootload {
            start_addr: 16 * 1024,
            length: 8 * 1024,
            crc32: ttl_crc,
        }),
    )
    .unwrap();
    for (fill, addr) in [(16u8, 16u32), (18, 18), (20, 20), (22, 22)] {
        exchange(&mut machine, &chunk(fill, addr * 1024)).unwrap();
    }
    exchange(
        &mut machine,
        &Request::WriteSettings {
            data: app_settings(8192, ttl_crc),
        },
    )
    .unwrap();
    let r = exchange(
        &mut machine,
        &Request::CompleteBootload {
            boot: Some(BootCommand::ForceBoot),
        },
    );
    assert_eq!(
        r,
        Ok(Response::ConfirmComplete {
            will_boot: true,
            boot_status: Bootable::Yes {
                crc32: ttl_crc,
                length: 8192,
            },
        })
    );
    assert!(!hw.inner.lock().unwrap().booted);
    machine.check_after_send();
    assert!(hw.inner.lock().unwrap().booted);
}

#[test]
fn ping_parameters_settings_ignore_mode() {
    let hw = AtomicHardware::new();
    let mut machine = Machine::new(hw);
    let expected_settings = vec![0xCCu8; 2048];

    let idle_pong = exchange(&mut machine, &Request::Ping(99));
    let idle_params = exchange(&mut machine, &Request::GetParameters);
    let idle_settings = exchange(&mut machine, &Request::GetSettings);
    assert_eq!(idle_pong, Ok(Response::Pong(99)));
    assert_eq!(idle_params, Ok(Response::Parameters(stm32g031_params())));
    assert_eq!(
        idle_settings,
        Ok(Response::Settings {
            data: expected_settings.clone()
        })
    );

    // open a session: the same three requests answer the same
    exchange(
        &mut machine,
        &Request::StartBootload(StartBootload {
            start_addr: 16 * 1024,
            length: 8 * 1024,
            crc32: 0,
        }),
    )
    .unwrap();
    assert_eq!(exchange(&mut machine, &Request::Ping(99)), idle_pong);
    assert_eq!(exchange(&mut machine, &Request::GetParameters), idle_params);
    assert_eq!(exchange(&mut machine, &Request::GetSettings), idle_settings);
}

#[test]
fn abort_then_start_succeeds() {
    let hw = AtomicHardware::new();
    let mut machine = Machine::new(hw);
    let start = Request::StartBootload(StartBootload {
        start_addr: 16 * 1024,
        length: 8 * 1024,
        crc32: 7,
    });

    // from Idle: the abort is refused, the start then succeeds
    assert_eq!(
        exchange(&mut machine, &Request::AbortBootload),
        Err(ResponseError::NoBootloadActive)
    );
    assert_eq!(exchange(&mut machine, &start), Ok(Response::BootloadStarted));

    // from a running session: a second start is refused, abort then start works
    assert_eq!(
        exchange(&mut machine, &start),
        Err(ResponseError::BootloadInProgress)
    );
    exchange(&mut machine, &chunk(16, 16 * 1024)).unwrap();
    assert_eq!(
        exchange(&mut machine, &Request::AbortBootload),
        Ok(Response::BootloadAborted)
    );
    assert_eq!(exchange(&mut machine, &start), Ok(Response::BootloadStarted));
}

#[test]
fn chunk_errors_in_order() {
    let hw = AtomicHardware::new();
    let mut machine = Machine::new(hw);

    // no session: chunks are refused outright
    assert_eq!(
        exchange(&mut machine, &chunk(16, 16 * 1024)),
        Err(ResponseError::NoBootloadActive)
    );

    exchange(
        &mut machine,
        &Request::StartBootload(StartBootload {
            start_addr: 16 * 1024,
            length: 4 * 1024,
            crc32: 0,
        }),
    )
    .unwrap();

    // wrong address
    assert_eq!(
        exchange(&mut machine, &chunk(16, 20 * 1024)),
        Err(ResponseError::SkippedRange {
            expected: 16 * 1024,
            actual: 20 * 1024,
        })
    );

    // wrong length
    assert_eq!(
        exchange(
            &mut machine,
            &Request::DataChunk(DataChunk {
                data_addr: 16 * 1024,
                sub_crc32: crc32(&[1; 100]),
                data: vec![1; 100],
            })
        ),
        Err(ResponseError::IncorrectLength {
            expected: 2048,
            actual: 100,
        })
    );

    // fill the whole announced window, then one chunk too many
    exchange(&mut machine, &chunk(16, 16 * 1024)).unwrap();
    exchange(&mut machine, &chunk(18, 18 * 1024)).unwrap();
    assert_eq!(
        exchange(&mut machine, &chunk(20, 20 * 1024)),
        Err(ResponseError::TooManyChunks)
    );
    assert_eq!(
        exchange(&mut machine, &Request::GetStatus),
        Ok(Response::Status(Status::AwaitingComplete))
    );
}

#[test]
fn read_range_checks_both_ends() {
    let hw = AtomicHardware::new();
    let mut machine = Machine::new(hw);
    assert_eq!(
        exchange(
            &mut machine,
            &Request::ReadRange {
                start_addr: 64,
                len: 8,
            }
        ),
        Ok(Response::ReadRange {
            start_addr: 64,
            len: 8,
            data: vec![0xA5; 8],
        })
    );
    assert_eq!(
        exchange(
            &mut machine,
            &Request::ReadRange {
                start_addr: 65535,
                len: 2,
            }
        ),
        Err(ResponseError::BadRangeEnd)
    );
    // an end past u32 wraps in no way: it is simply out of range
    assert_eq!(
        exchange(
            &mut machine,
            &Request::ReadRange {
                start_addr: 0xFFFF_FFFF,
                len: 2,
            }
        ),
        Err(ResponseError::BadRangeEnd)
    );
}

#[test]
fn write_settings_checks_length() {
    let hw = AtomicHardware::new();
    let mut machine = Machine::new(hw);
    assert_eq!(
        exchange(
            &mut machine,
            &Request::WriteSettings {
                data: vec![0; 2045],
            }
        ),
        Err(ResponseError::SettingsTooLong {
            max: 2044,
            actual: 2045,
        })
    );
    let block = app_settings(8192, 5);
    let block_len = block.len() as u32;
    assert_eq!(
        exchange(&mut machine, &Request::WriteSettings { data: block }),
        Ok(Response::SettingsAccepted {
            data_len: block_len,
        })
    );
}

#[test]
fn boot_command_moves_to_pending() {
    let hw = AtomicHardware::new();
    let mut machine = Machine::new(hw.clone());
    let r = exchange(&mut machine, &Request::Boot(BootCommand::BootIfBootable));
    assert_eq!(
        r,
        Ok(Response::ConfirmBootCmd {
            will_boot: false,
            boot_status: Bootable::NoMissingSettings,
        })
    );
    // pending: session requests are refused, a new start answers Oops
    assert_eq!(
        exchange(&mut machine, &chunk(16, 16 * 1024)),
        Err(ResponseError::NoBootloadActive)
    );
    assert_eq!(
        exchange(
            &mut machine,
            &Request::StartBootload(StartBootload {
                start_addr: 16 * 1024,
                length: 8 * 1024,
                crc32: 0,
            })
        ),
        Err(ResponseError::Oops)
    );
    machine.check_after_send();
    assert!(hw.inner.lock().unwrap().booted);
}

#[test]
fn bootable_reports_each_failure() {
    let hw = AtomicHardware::new();
    let mut machine = Machine::new(hw);

    // fresh page: nothing parses
    assert_eq!(
        exchange(&mut machine, &Request::IsBootable),
        Ok(Response::BootableStatus(Bootable::NoMissingSettings))
    );

    // only one of the two names present
    let only_len = settings_to_vec(&[Setting {
        name_ascii: b"app_len".to_vec(),
        val: SettingVal::U32(8192),
    }]);
    exchange(&mut machine, &Request::WriteSettings { data: only_len }).unwrap();
    assert_eq!(
        exchange(&mut machine, &Request::IsBootable),
        Ok(Response::BootableStatus(Bootable::NoMissingSettings))
    );

    // a duplicated name
    let dup = settings_to_vec(&[
        Setting {
            name_ascii: b"app_len".to_vec(),
            val: SettingVal::U32(8192),
        },
        Setting {
            name_ascii: b"app_len".to_vec(),
            val: SettingVal::U32(4096),
        },
        Setting {
            name_ascii: b"app_crc".to_vec(),
            val: SettingVal::U32(1),
        },
    ]);
    exchange(&mut machine, &Request::WriteSettings { data: dup }).unwrap();
    assert_eq!(
        exchange(&mut machine, &Request::IsBootable),
        Ok(Response::BootableStatus(Bootable::NoDuplicateSettings))
    );

    // a length that is not a power of two
    exchange(
        &mut machine,
        &Request::WriteSettings {
            data: app_settings(3000, 1),
        },
    )
    .unwrap();
    assert_eq!(
        exchange(&mut machine, &Request::IsBootable),
        Ok(Response::BootableStatus(Bootable::NoInvalidSettings))
    );

    // a sane claim over unprogrammed flash: the CRC cannot match
    exchange(
        &mut machine,
        &Request::WriteSettings {
            data: app_settings(8192, 1),
        },
    )
    .unwrap();
    assert_eq!(
        exchange(&mut machine, &Request::IsBootable),
        Ok(Response::BootableStatus(Bootable::NoInvalidCrc))
    );

    // unknown names are tolerated alongside the known ones
    let with_extra = settings_to_vec(&[
        Setting {
            name_ascii: b"colour".to_vec(),
            val: SettingVal::AsciiSlice(b"teal".to_vec()),
        },
        Setting {
            name_ascii: b"app_len".to_vec(),
            val: SettingVal::U32(8192),
        },
        Setting {
            name_ascii: b"app_crc".to_vec(),
            val: SettingVal::U32(crc32(&vec![0xA5; 8192])),
        },
    ]);
    exchange(&mut machine, &Request::WriteSettings { data: with_extra }).unwrap();
    assert_eq!(
        exchange(&mut machine, &Request::IsBootable),
        Ok(Response::BootableStatus(Bootable::Yes {
            crc32: crc32(&vec![0xA5; 8192]),
            length: 8192,
        }))
    );
}

#[test]
fn line_errors_are_nacked() {
    let hw = AtomicHardware::new();
    let mut machine = Machine::new(hw);
    // a malformed stuffed body: the machine answers rather than dying
    let reply = machine.process(&vec![7u8]);
    let rbody = &reply[..reply.len() - 1];
    assert_eq!(
        decode_response(rbody).unwrap(),
        Err(ResponseError::LineNak(squid_boot::machine::Error::Cobs))
    );
}
