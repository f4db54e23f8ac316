use squid_boot::checksum::crc32;
use squid_boot::icd::{Setting, SettingVal};
use squid_boot::settings::{settings_from_raw, settings_to_vec, split_u32le};

#[test]
fn settings_smoke() {
    let stgs = vec![
        Setting {
            name_ascii: b"my".to_vec(),
            val: SettingVal::ByteSlice(b"MY".to_vec()),
        },
        Setting {
            name_ascii: b"eyes".to_vec(),
            val: SettingVal::AsciiSlice(b"BRAND".to_vec()),
        },
        Setting {
            name_ascii: b"are".to_vec(),
            val: SettingVal::U32(0x1234_5678),
        },
        Setting {
            name_ascii: b"special".to_vec(),
            val: SettingVal::F32(core::f32::consts::PI.to_bits()),
        },
    ];

    let stgs_vec = settings_to_vec(&stgs);

    // Now read it back, and collect it so we can check we got the right
    // number of items
    let mut stg_iter = settings_from_raw(&stgs_vec).unwrap();
    let mut des_stgs = Vec::new();
    while let Some(s) = stg_iter.next() {
        des_stgs.push(s);
    }
    assert_eq!(stgs.len(), des_stgs.len());

    // Make sure the items match 1:1 (and the order is the same, but this
    // is more of an impl detail).
    des_stgs.iter().zip(stgs.iter()).for_each(|(des, exp)| {
        assert_eq!(des, exp);
    });
}

#[test]
fn empty_settings_roundtrip() {
    let raw = settings_to_vec(&[]);
    assert_eq!(raw.len(), 8);
    let mut it = settings_from_raw(&raw).unwrap();
    assert_eq!(it.next(), None);
    assert_eq!(it.next(), None);
}

#[test]
fn corrupt_settings_crc_rejected() {
    let raw = settings_to_vec(&[Setting {
        name_ascii: b"app_len".to_vec(),
        val: SettingVal::U32(8192),
    }]);
    let mut bad = raw.clone();
    bad[0] ^= 0x01;
    assert!(settings_from_raw(&bad).is_err());
    assert!(settings_from_raw(&raw).is_ok());
}

#[test]
fn truncated_settings_rejected() {
    let raw = settings_to_vec(&[Setting {
        name_ascii: b"app_len".to_vec(),
        val: SettingVal::U32(8192),
    }]);
    assert!(settings_from_raw(&raw[..raw.len() - 1]).is_err());
    assert!(settings_from_raw(&raw[..7]).is_err());
    assert!(settings_from_raw(&[]).is_err());
}

#[test]
fn settings_page_tolerates_trailing_bytes() {
    // what a freshly-written flash page looks like: block then erased fill
    let mut raw = settings_to_vec(&[Setting {
        name_ascii: b"app_crc".to_vec(),
        val: SettingVal::U32(0xCAFE_F00D),
    }]);
    raw.extend_from_slice(&[0xFF; 64]);
    let mut it = settings_from_raw(&raw).unwrap();
    let s = it.next().unwrap();
    assert_eq!(s.name_ascii, b"app_crc".to_vec());
    assert_eq!(s.val, SettingVal::U32(0xCAFE_F00D));
    assert_eq!(it.next(), None);
}

#[test]
fn settings_block_layout() {
    // crc32_le(4) || length_le(4) || payload, CRC over length_le || payload
    let raw = settings_to_vec(&[Setting {
        name_ascii: b"x".to_vec(),
        val: SettingVal::U32(5),
    }]);
    let (stored_crc, rest) = split_u32le(&raw).unwrap();
    let (stored_len, payload) = split_u32le(rest).unwrap();
    assert_eq!(stored_len as usize, payload.len());
    let mut covered = stored_len.to_le_bytes().to_vec();
    covered.extend_from_slice(payload);
    assert_eq!(stored_crc, crc32(&covered));
    // the one record: name "x" then tag 0 (a 32-bit value) then 5
    assert_eq!(payload, &[1, b'x', 0, 5]);
}

#[test]
fn split_u32le_reads_little_endian() {
    let bytes = [0x78, 0x56, 0x34, 0x12, 0xAA, 0xBB];
    let (v, rest) = split_u32le(&bytes).unwrap();
    assert_eq!(v, 0x1234_5678);
    assert_eq!(rest, &[0xAA, 0xBB]);
    assert!(split_u32le(&[1, 2, 3]).is_err());
}
