//! The structural codec: a compact, self-describing, length-prefixed
//! binary rendering of every request and response value, with proofs
//! that decoding an encoding yields the value back.

use vstd::prelude::*;

use crate::machine::{Bootable, Error};
use crate::icd::{
    BootCommand, DataChunk, DataChunkV, Parameters, ReqV, Request, RespV, Response, ResponseError,
    Setting, SettingV, SettingVal, SettingValV, StartBootload, Status,
};
use crate::wire::{
    enc_vi, lemma_parse_vi, lemma_parse_vi_bound, lemma_pow128_le, lemma_pow128_vals,
    lemma_vi_len, parse_vi, parse_vi_exec, vi,
};

verus! {

// ---------------------------------------------------------------------
// spec-level encoders
// ---------------------------------------------------------------------
/// A 32-bit word as a varint.
pub open spec fn enc_u32(x: u32) -> Seq<u8> {
    vi(x as nat)
}

/// A machine word as a varint.
pub open spec fn enc_usize(x: usize) -> Seq<u8> {
    vi(x as nat)
}

/// A boolean as one byte.
pub open spec fn enc_bool(v: bool) -> Seq<u8> {
    if v {
        seq![1u8]
    } else {
        seq![0u8]
    }
}

/// A byte string: its length as a varint, then its bytes.
pub open spec fn enc_blob(s: Seq<u8>) -> Seq<u8> {
    vi(s.len()) + s
}

/// Two 32-bit fields in order.
pub open spec fn enc2(a: u32, b: u32) -> Seq<u8> {
    enc_u32(a) + enc_u32(b)
}

/// Three 32-bit fields in order.
pub open spec fn enc3(a: u32, b: u32, c: u32) -> Seq<u8> {
    enc_u32(a) + enc_u32(b) + enc_u32(c)
}

pub open spec fn enc_boot_command(c: BootCommand) -> Seq<u8> {
    match c {
        BootCommand::BootIfBootable => seq![0u8],
        BootCommand::ForceBoot => seq![1u8],
    }
}

pub open spec fn enc_opt_boot(o: Option<BootCommand>) -> Seq<u8> {
    match o {
        None => seq![0u8],
        Some(c) => seq![1u8] + enc_boot_command(c),
    }
}

pub open spec fn enc_start_bootload(sb: StartBootload) -> Seq<u8> {
    enc3(sb.start_addr, sb.length, sb.crc32)
}

pub open spec fn enc_data_chunk(dc: DataChunkV) -> Seq<u8> {
    enc2(dc.data_addr, dc.sub_crc32) + enc_blob(dc.data)
}

pub open spec fn enc_parameters(p: Parameters) -> Seq<u8> {
    enc_u32(p.settings_max) + enc_u32(p.data_chunk_size) + enc2(
        p.valid_flash_range.0,
        p.valid_flash_range.1,
    ) + enc2(p.valid_app_range.0, p.valid_app_range.1) + enc_u32(p.read_max)
}

pub open spec fn enc_status(s: Status) -> Seq<u8> {
    match s {
        Status::Idle => seq![0u8],
        Status::Started { start_addr, length, crc32 } => seq![1u8] + enc3(
            start_addr,
            length,
            crc32,
        ),
        Status::Loading { start_addr, next_addr, partial_crc32, expected_crc32 } => seq![2u8]
            + enc2(start_addr, next_addr) + enc2(partial_crc32, expected_crc32),
        Status::AwaitingComplete => seq![3u8],
    }
}

pub open spec fn enc_bootable(b: Bootable) -> Seq<u8> {
    match b {
        Bootable::Unsure => seq![0u8],
        Bootable::NoMissingSettings => seq![1u8],
        Bootable::NoDuplicateSettings => seq![2u8],
        Bootable::NoInvalidSettings => seq![3u8],
        Bootable::NoInvalidCrc => seq![4u8],
        Bootable::Yes { crc32, length } => seq![5u8] + enc_u32(crc32) + enc_usize(length),
    }
}

pub open spec fn enc_line_error(e: Error) -> Seq<u8> {
    match e {
        Error::Underfill => seq![0u8],
        Error::Overfill => seq![1u8],
        Error::PostcardDecode => seq![2u8],
        Error::Cobs => seq![3u8],
        Error::Crc { expected, actual } => seq![4u8] + enc2(expected, actual),
        Error::LogicError => seq![5u8],
    }
}

pub open spec fn enc_response_error(e: ResponseError) -> Seq<u8> {
    match e {
        ResponseError::BadStartAddress => seq![0u8],
        ResponseError::BadLength => seq![1u8],
        ResponseError::BootloadInProgress => seq![2u8],
        ResponseError::SkippedRange { expected, actual } => seq![3u8] + enc2(expected, actual),
        ResponseError::IncorrectLength { expected, actual } => seq![4u8] + enc2(expected, actual),
        ResponseError::BadSubCrc { expected, actual } => seq![5u8] + enc2(expected, actual),
        ResponseError::NoBootloadActive => seq![6u8],
        ResponseError::TooManyChunks => seq![7u8],
        ResponseError::IncompleteLoad { expected_len, actual_len } => seq![8u8] + enc2(
            expected_len,
            actual_len,
        ),
        ResponseError::BadFullCrc { expected, actual } => seq![9u8] + enc2(expected, actual),
        ResponseError::SettingsTooLong { max, actual } => seq![10u8] + enc2(max, actual),
        ResponseError::BadRangeStart => seq![11u8],
        ResponseError::BadRangeEnd => seq![12u8],
        ResponseError::BadRangeLength { actual, max } => seq![13u8] + enc2(actual, max),
        ResponseError::LineNak(inner) => seq![14u8] + enc_line_error(inner),
        ResponseError::Oops => seq![15u8],
    }
}

pub open spec fn enc_request(r: ReqV) -> Seq<u8> {
    match r {
        ReqV::Ping(n) => seq![0u8] + enc_u32(n),
        ReqV::GetParameters => seq![1u8],
        ReqV::StartBootload(sb) => seq![2u8] + enc_start_bootload(sb),
        ReqV::DataChunk(dc) => seq![3u8] + enc_data_chunk(dc),
        ReqV::CompleteBootload { boot } => seq![4u8] + enc_opt_boot(boot),
        ReqV::GetSettings => seq![5u8],
        ReqV::WriteSettings { data } => seq![6u8] + enc_blob(data),
        ReqV::GetStatus => seq![7u8],
        ReqV::ReadRange { start_addr, len } => seq![8u8] + enc2(start_addr, len),
        ReqV::AbortBootload => seq![9u8],
        ReqV::IsBootable => seq![10u8],
        ReqV::Boot(cmd) => seq![11u8] + enc_boot_command(cmd),
    }
}

pub open spec fn enc_response(r: RespV) -> Seq<u8> {
    match r {
        RespV::Pong(n) => seq![0u8] + enc_u32(n),
        RespV::Parameters(p) => seq![1u8] + enc_parameters(p),
        RespV::BootloadStarted => seq![2u8],
        RespV::ChunkAccepted { data_addr, data_len, crc32 } => seq![3u8] + enc3(
            data_addr,
            data_len,
            crc32,
        ),
        RespV::ConfirmComplete { will_boot, boot_status } => seq![4u8] + enc_bool(will_boot)
            + enc_bootable(boot_status),
        RespV::Settings { data } => seq![5u8] + enc_blob(data),
        RespV::SettingsAccepted { data_len } => seq![6u8] + enc_u32(data_len),
        RespV::Status(s) => seq![7u8] + enc_status(s),
        RespV::ReadRange { start_addr, len, data } => seq![8u8] + enc2(start_addr, len)
            + enc_blob(data),
        RespV::BadOverfillNak => seq![9u8],
        RespV::BadPostcardNak => seq![10u8],
        RespV::BadCrcNak => seq![11u8],
        RespV::BootloadAborted => seq![12u8],
        RespV::BootableStatus(b) => seq![13u8] + enc_bootable(b),
        RespV::ConfirmBootCmd { will_boot, boot_status } => seq![14u8] + enc_bool(will_boot)
            + enc_bootable(boot_status),
    }
}

/// A reply-or-error, as it rides inside a frame: the result tag, then
/// the payload.
pub open spec fn enc_resp_result(r: Result<RespV, ResponseError>) -> Seq<u8> {
    match r {
        Ok(resp) => seq![0u8] + enc_response(resp),
        Err(e) => seq![1u8] + enc_response_error(e),
    }
}

pub open spec fn enc_setting_val(v: SettingValV) -> Seq<u8> {
    match v {
        SettingValV::U32(x) => seq![0u8] + enc_u32(x),
        SettingValV::F32(x) => seq![1u8] + enc_u32(x),
        SettingValV::ByteSlice(b) => seq![2u8] + enc_blob(b),
        SettingValV::AsciiSlice(b) => seq![3u8] + enc_blob(b),
    }
}

pub open spec fn enc_setting(s: SettingV) -> Seq<u8> {
    enc_blob(s.name_ascii) + enc_setting_val(s.val)
}

// ---------------------------------------------------------------------
// spec-level parsers: value plus bytes consumed, or None
// ---------------------------------------------------------------------
pub open spec fn parse_u32(b: Seq<u8>) -> Option<(u32, int)> {
    match parse_vi(b, 5) {
        Some((v, n)) => if v <= u32::MAX {
            Some((v as u32, n))
        } else {
            None
        },
        None => None,
    }
}

pub open spec fn parse_usize(b: Seq<u8>) -> Option<(usize, int)> {
    match parse_vi(b, 10) {
        Some((v, n)) => if v <= usize::MAX {
            Some((v as usize, n))
        } else {
            None
        },
        None => None,
    }
}

pub open spec fn parse_bool(b: Seq<u8>) -> Option<(bool, int)> {
    if b.len() == 0 {
        None
    } else if b[0] == 0 {
        Some((false, 1))
    } else if b[0] == 1 {
        Some((true, 1))
    } else {
        None
    }
}

pub open spec fn parse_blob(b: Seq<u8>) -> Option<(Seq<u8>, int)> {
    match parse_vi(b, 10) {
        Some((l, n)) => if n + l <= b.len() {
            Some((b.subrange(n, n + l), n + l))
        } else {
            None
        },
        None => None,
    }
}

pub open spec fn parse2(b: Seq<u8>) -> Option<((u32, u32), int)> {
    match parse_u32(b) {
        None => None,
        Some((x, n1)) => match parse_u32(b.skip(n1)) {
            None => None,
            Some((y, n2)) => Some(((x, y), n1 + n2)),
        },
    }
}

pub open spec fn parse3(b: Seq<u8>) -> Option<((u32, u32, u32), int)> {
    match parse2(b) {
        None => None,
        Some(((x, y), n1)) => match parse_u32(b.skip(n1)) {
            None => None,
            Some((z, n2)) => Some(((x, y, z), n1 + n2)),
        },
    }
}

pub open spec fn parse_boot_command(b: Seq<u8>) -> Option<(BootCommand, int)> {
    if b.len() == 0 {
        None
    } else if b[0] == 0 {
        Some((BootCommand::BootIfBootable, 1))
    } else if b[0] == 1 {
        Some((BootCommand::ForceBoot, 1))
    } else {
        None
    }
}

pub open spec fn parse_opt_boot(b: Seq<u8>) -> Option<(Option<BootCommand>, int)> {
    if b.len() == 0 {
        None
    } else if b[0] == 0 {
        Some((None, 1))
    } else if b[0] == 1 {
        match parse_boot_command(b.skip(1)) {
            None => None,
            Some((c, n)) => Some((Some(c), 1 + n)),
        }
    } else {
        None
    }
}

pub open spec fn parse_start_bootload(b: Seq<u8>) -> Option<(StartBootload, int)> {
    match parse3(b) {
        None => None,
        Some(((a, l, c), n)) => Some(
            (StartBootload { start_addr: a, length: l, crc32: c }, n),
        ),
    }
}

pub open spec fn parse_data_chunk(b: Seq<u8>) -> Option<(DataChunkV, int)> {
    match parse2(b) {
        None => None,
        Some(((addr, crc), n1)) => match parse_blob(b.skip(n1)) {
            None => None,
            Some((data, n2)) => Some(
                (DataChunkV { data_addr: addr, sub_crc32: crc, data }, n1 + n2),
            ),
        },
    }
}

pub open spec fn parse_parameters(b: Seq<u8>) -> Option<(Parameters, int)> {
    match parse3(b) {
        None => None,
        Some(((sm, cs, f0), n1)) => match parse3(b.skip(n1)) {
            None => None,
            Some(((f1, a0, a1), n2)) => match parse_u32(b.skip(n1).skip(n2)) {
                None => None,
                Some((rm, n3)) => Some(
                    (
                        Parameters {
                            settings_max: sm,
                            data_chunk_size: cs,
                            valid_flash_range: (f0, f1),
                            valid_app_range: (a0, a1),
                            read_max: rm,
                        },
                        n1 + n2 + n3,
                    ),
                ),
            },
        },
    }
}

pub open spec fn parse_status(b: Seq<u8>) -> Option<(Status, int)> {
    if b.len() == 0 {
        None
    } else {
        let t = b[0];
        let r = b.skip(1);
        if t == 0 {
            Some((Status::Idle, 1))
        } else if t == 1 {
            match parse3(r) {
                None => None,
                Some(((a, l, c), n)) => Some(
                    (Status::Started { start_addr: a, length: l, crc32: c }, 1 + n),
                ),
            }
        } else if t == 2 {
            match parse2(r) {
                None => None,
                Some(((sa, na), n1)) => match parse2(r.skip(n1)) {
                    None => None,
                    Some(((pc, ec), n2)) => Some(
                        (
                            Status::Loading {
                                start_addr: sa,
                                next_addr: na,
                                partial_crc32: pc,
                                expected_crc32: ec,
                            },
                            1 + n1 + n2,
                        ),
                    ),
                },
            }
        } else if t == 3 {
            Some((Status::AwaitingComplete, 1))
        } else {
            None
        }
    }
}

pub open spec fn parse_bootable(b: Seq<u8>) -> Option<(Bootable, int)> {
    if b.len() == 0 {
        None
    } else {
        let t = b[0];
        let r = b.skip(1);
        if t == 0 {
            Some((Bootable::Unsure, 1))
        } else if t == 1 {
            Some((Bootable::NoMissingSettings, 1))
        } else if t == 2 {
            Some((Bootable::NoDuplicateSettings, 1))
        } else if t == 3 {
            Some((Bootable::NoInvalidSettings, 1))
        } else if t == 4 {
            Some((Bootable::NoInvalidCrc, 1))
        } else if t == 5 {
            match parse_u32(r) {
                None => None,
                Some((c, n1)) => match parse_usize(r.skip(n1)) {
                    None => None,
                    Some((l, n2)) => Some((Bootable::Yes { crc32: c, length: l }, 1 + n1 + n2)),
                },
            }
        } else {
            None
        }
    }
}

pub open spec fn parse_line_error(b: Seq<u8>) -> Option<(Error, int)> {
    if b.len() == 0 {
        None
    } else {
        let t = b[0];
        let r = b.skip(1);
        if t == 0 {
            Some((Error::Underfill, 1))
        } else if t == 1 {
            Some((Error::Overfill, 1))
        } else if t == 2 {
            Some((Error::PostcardDecode, 1))
        } else if t == 3 {
            Some((Error::Cobs, 1))
        } else if t == 4 {
            match parse2(r) {
                None => None,
                Some(((e, a), n)) => Some((Error::Crc { expected: e, actual: a }, 1 + n)),
            }
        } else if t == 5 {
            Some((Error::LogicError, 1))
        } else {
            None
        }
    }
}

pub open spec fn parse_response_error(b: Seq<u8>) -> Option<(ResponseError, int)> {
    if b.len() == 0 {
        None
    } else {
        let t = b[0];
        let r = b.skip(1);
        if t == 0 {
            Some((ResponseError::BadStartAddress, 1))
        } else if t == 1 {
            Some((ResponseError::BadLength, 1))
        } else if t == 2 {
            Some((ResponseError::BootloadInProgress, 1))
        } else if t == 3 {
            match parse2(r) {
                None => None,
                Some(((e, a), n)) => Some(
                    (ResponseError::SkippedRange { expected: e, actual: a }, 1 + n),
                ),
            }
        } else if t == 4 {
            match parse2(r) {
                None => None,
                Some(((e, a), n)) => Some(
                    (ResponseError::IncorrectLength { expected: e, actual: a }, 1 + n),
                ),
            }
        } else if t == 5 {
            match parse2(r) {
                None => None,
                Some(((e, a), n)) => Some(
                    (ResponseError::BadSubCrc { expected: e, actual: a }, 1 + n),
                ),
            }
        } else if t == 6 {
            Some((ResponseError::NoBootloadActive, 1))
        } else if t == 7 {
            Some((ResponseError::TooManyChunks, 1))
        } else if t == 8 {
            match parse2(r) {
                None => None,
                Some(((e, a), n)) => Some(
                    (ResponseError::IncompleteLoad { expected_len: e, actual_len: a }, 1 + n),
                ),
            }
        } else if t == 9 {
            match parse2(r) {
                None => None,
                Some(((e, a), n)) => Some(
                    (ResponseError::BadFullCrc { expected: e, actual: a }, 1 + n),
                ),
            }
        } else if t == 10 {
            match parse2(r) {
                None => None,
                Some(((m, a), n)) => Some(
                    (ResponseError::SettingsTooLong { max: m, actual: a }, 1 + n),
                ),
            }
        } else if t == 11 {
            Some((ResponseError::BadRangeStart, 1))
        } else if t == 12 {
            Some((ResponseError::BadRangeEnd, 1))
        } else if t == 13 {
            match parse2(r) {
                None => None,
                Some(((a, m), n)) => Some(
                    (ResponseError::BadRangeLength { actual: a, max: m }, 1 + n),
                ),
            }
        } else if t == 14 {
            match parse_line_error(r) {
                None => None,
                Some((inner, n)) => Some((ResponseError::LineNak(inner), 1 + n)),
            }
        } else if t == 15 {
            Some((ResponseError::Oops, 1))
        } else {
            None
        }
    }
}

pub open spec fn parse_request(b: Seq<u8>) -> Option<(ReqV, int)> {
    if b.len() == 0 {
        None
    } else {
        let t = b[0];
        let r = b.skip(1);
        if t == 0 {
            match parse_u32(r) {
                None => None,
                Some((n, c)) => Some((ReqV::Ping(n), 1 + c)),
            }
        } else if t == 1 {
            Some((ReqV::GetParameters, 1))
        } else if t == 2 {
            match parse_start_bootload(r) {
                None => None,
                Some((sb, c)) => Some((ReqV::StartBootload(sb), 1 + c)),
            }
        } else if t == 3 {
            match parse_data_chunk(r) {
                None => None,
                Some((dc, c)) => Some((ReqV::DataChunk(dc), 1 + c)),
            }
        } else if t == 4 {
            match parse_opt_boot(r) {
                None => None,
                Some((o, c)) => Some((ReqV::CompleteBootload { boot: o }, 1 + c)),
            }
        } else if t == 5 {
            Some((ReqV::GetSettings, 1))
        } else if t == 6 {
            match parse_blob(r) {
                None => None,
                Some((d, c)) => Some((ReqV::WriteSettings { data: d }, 1 + c)),
            }
        } else if t == 7 {
            Some((ReqV::GetStatus, 1))
        } else if t == 8 {
            match parse2(r) {
                None => None,
                Some(((s, l), c)) => Some((ReqV::ReadRange { start_addr: s, len: l }, 1 + c)),
            }
        } else if t == 9 {
            Some((ReqV::AbortBootload, 1))
        } else if t == 10 {
            Some((ReqV::IsBootable, 1))
        } else if t == 11 {
            match parse_boot_command(r) {
                None => None,
                Some((cmd, c)) => Some((ReqV::Boot(cmd), 1 + c)),
            }
        } else {
            None
        }
    }
}

pub open spec fn parse_response(b: Seq<u8>) -> Option<(RespV, int)> {
    if b.len() == 0 {
        None
    } else {
        let t = b[0];
        let r = b.skip(1);
        if t == 0 {
            match parse_u32(r) {
                None => None,
                Some((n, c)) => Some((RespV::Pong(n), 1 + c)),
            }
        } else if t == 1 {
            match parse_parameters(r) {
                None => None,
                Some((p, c)) => Some((RespV::Parameters(p), 1 + c)),
            }
        } else if t == 2 {
            Some((RespV::BootloadStarted, 1))
        } else if t == 3 {
            match parse3(r) {
                None => None,
                Some(((a, l, c), n)) => Some(
                    (RespV::ChunkAccepted { data_addr: a, data_len: l, crc32: c }, 1 + n),
                ),
            }
        } else if t == 4 {
            match parse_bool(r) {
                None => None,
                Some((wb, n1)) => match parse_bootable(r.skip(n1)) {
                    None => None,
                    Some((bs, n2)) => Some(
                        (RespV::ConfirmComplete { will_boot: wb, boot_status: bs }, 1 + n1 + n2),
                    ),
                },
            }
        } else if t == 5 {
            match parse_blob(r) {
                None => None,
                Some((d, c)) => Some((RespV::Settings { data: d }, 1 + c)),
            }
        } else if t == 6 {
            match parse_u32(r) {
                None => None,
                Some((dl, c)) => Some((RespV::SettingsAccepted { data_len: dl }, 1 + c)),
            }
        } else if t == 7 {
            match parse_status(r) {
                None => None,
                Some((s, c)) => Some((RespV::Status(s), 1 + c)),
            }
        } else if t == 8 {
            match parse2(r) {
                None => None,
                Some(((sa, l), n1)) => match parse_blob(r.skip(n1)) {
                    None => None,
                    Some((d, n2)) => Some(
                        (RespV::ReadRange { start_addr: sa, len: l, data: d }, 1 + n1 + n2),
                    ),
                },
            }
        } else if t == 9 {
            Some((RespV::BadOverfillNak, 1))
        } else if t == 10 {
            Some((RespV::BadPostcardNak, 1))
        } else if t == 11 {
            Some((RespV::BadCrcNak, 1))
        } else if t == 12 {
            Some((RespV::BootloadAborted, 1))
        } else if t == 13 {
            match parse_bootable(r) {
                None => None,
                Some((b2, c)) => Some((RespV::BootableStatus(b2), 1 + c)),
            }
        } else if t == 14 {
            match parse_bool(r) {
                None => None,
                Some((wb, n1)) => match parse_bootable(r.skip(n1)) {
                    None => None,
                    Some((bs, n2)) => Some(
                        (RespV::ConfirmBootCmd { will_boot: wb, boot_status: bs }, 1 + n1 + n2),
                    ),
                },
            }
        } else {
            None
        }
    }
}

pub open spec fn parse_resp_result(b: Seq<u8>) -> Option<(Result<RespV, ResponseError>, int)> {
    if b.len() == 0 {
        None
    } else if b[0] == 0 {
        match parse_response(b.skip(1)) {
            None => None,
            Some((v, n)) => Some((Ok(v), 1 + n)),
        }
    } else if b[0] == 1 {
        match parse_response_error(b.skip(1)) {
            None => None,
            Some((e, n)) => Some((Err(e), 1 + n)),
        }
    } else {
        None
    }
}

pub open spec fn parse_setting_val(b: Seq<u8>) -> Option<(SettingValV, int)> {
    if b.len() == 0 {
        None
    } else {
        let t = b[0];
        let r = b.skip(1);
        if t == 0 {
            match parse_u32(r) {
                None => None,
                Some((x, n)) => Some((SettingValV::U32(x), 1 + n)),
            }
        } else if t == 1 {
            match parse_u32(r) {
                None => None,
                Some((x, n)) => Some((SettingValV::F32(x), 1 + n)),
            }
        } else if t == 2 {
            match parse_blob(r) {
                None => None,
                Some((d, n)) => Some((SettingValV::ByteSlice(d), 1 + n)),
            }
        } else if t == 3 {
            match parse_blob(r) {
                None => None,
                Some((d, n)) => Some((SettingValV::AsciiSlice(d), 1 + n)),
            }
        } else {
            None
        }
    }
}

pub open spec fn parse_setting(b: Seq<u8>) -> Option<(SettingV, int)> {
    match parse_blob(b) {
        None => None,
        Some((name, n1)) => match parse_setting_val(b.skip(n1)) {
            None => None,
            Some((v, n2)) => Some((SettingV { name_ascii: name, val: v }, n1 + n2)),
        },
    }
}

// ---------------------------------------------------------------------
// value well-formedness: every byte string fits the machine
// ---------------------------------------------------------------------
/// A request the machine can hold: its byte strings fit in memory.
pub open spec fn req_wf(r: ReqV) -> bool {
    match r {
        ReqV::DataChunk(dc) => dc.data.len() <= usize::MAX,
        ReqV::WriteSettings { data } => data.len() <= usize::MAX,
        _ => true,
    }
}

/// A response the machine can hold: its byte strings fit in memory.
pub open spec fn resp_wf(r: RespV) -> bool {
    match r {
        RespV::Settings { data } => data.len() <= usize::MAX,
        RespV::ReadRange { start_addr, len, data } => data.len() <= usize::MAX,
        _ => true,
    }
}

pub open spec fn rr_wf(r: Result<RespV, ResponseError>) -> bool {
    match r {
        Ok(resp) => resp_wf(resp),
        Err(_) => true,
    }
}

// ---------------------------------------------------------------------
// round-trip lemmas: parsing an encoding yields the value back
// ---------------------------------------------------------------------
pub proof fn lemma_parse_u32(x: u32, rest: Seq<u8>)
    ensures
        parse_u32(enc_u32(x) + rest) == Some((x, enc_u32(x).len() as int)),
        1 <= enc_u32(x).len() <= 5,
{
    lemma_pow128_vals();
    lemma_vi_len(x as nat, 5);
    lemma_parse_vi(x as nat, rest, 5);
}

pub proof fn lemma_parse_usize(x: usize, rest: Seq<u8>)
    ensures
        parse_usize(enc_usize(x) + rest) == Some((x, enc_usize(x).len() as int)),
        1 <= enc_usize(x).len() <= 10,
{
    lemma_pow128_vals();
    assert(x as nat <= 0xFFFFFFFFFFFFFFFF);
    lemma_vi_len(x as nat, 10);
    lemma_parse_vi(x as nat, rest, 10);
}

pub proof fn lemma_parse_bool(v: bool, rest: Seq<u8>)
    ensures
        parse_bool(enc_bool(v) + rest) == Some((v, 1int)),
{
    assert((enc_bool(v) + rest)[0] == enc_bool(v)[0]);
}

pub proof fn lemma_parse_blob(s: Seq<u8>, rest: Seq<u8>)
    requires
        s.len() <= usize::MAX,
    ensures
        parse_blob(enc_blob(s) + rest) == Some((s, enc_blob(s).len() as int)),
        1 + s.len() <= enc_blob(s).len() <= 10 + s.len(),
{
    lemma_pow128_vals();
    assert(s.len() <= 0xFFFFFFFFFFFFFFFF);
    lemma_vi_len(s.len(), 10);
    let b = enc_blob(s) + rest;
    assert(b =~= vi(s.len()) + (s + rest));
    lemma_parse_vi(s.len(), s + rest, 10);
    let n = vi(s.len()).len() as int;
    assert(b.subrange(n, n + s.len() as int) =~= s);
}

pub proof fn lemma_parse2(x: u32, y: u32, rest: Seq<u8>)
    ensures
        parse2(enc2(x, y) + rest) == Some(((x, y), enc2(x, y).len() as int)),
{
    let e1 = enc_u32(x);
    let e2 = enc_u32(y);
    let b = enc2(x, y) + rest;
    assert(b =~= e1 + (e2 + rest));
    lemma_parse_u32(x, e2 + rest);
    assert(b.skip(e1.len() as int) =~= e2 + rest);
    lemma_parse_u32(y, rest);
}

pub proof fn lemma_parse3(x: u32, y: u32, z: u32, rest: Seq<u8>)
    ensures
        parse3(enc3(x, y, z) + rest) == Some(((x, y, z), enc3(x, y, z).len() as int)),
{
    let e12 = enc2(x, y);
    let e3 = enc_u32(z);
    let b = enc3(x, y, z) + rest;
    assert(b =~= e12 + (e3 + rest));
    lemma_parse2(x, y, e3 + rest);
    assert(b.skip(e12.len() as int) =~= e3 + rest);
    lemma_parse_u32(z, rest);
}

pub proof fn lemma_parse_boot_command(c: BootCommand, rest: Seq<u8>)
    ensures
        parse_boot_command(enc_boot_command(c) + rest) == Some((c, 1int)),
{
    assert((enc_boot_command(c) + rest)[0] == enc_boot_command(c)[0]);
}

pub proof fn lemma_parse_opt_boot(o: Option<BootCommand>, rest: Seq<u8>)
    ensures
        parse_opt_boot(enc_opt_boot(o) + rest) == Some((o, enc_opt_boot(o).len() as int)),
{
    let b = enc_opt_boot(o) + rest;
    match o {
        None => {
            assert(b[0] == 0);
        },
        Some(c) => {
            assert(b =~= seq![1u8] + (enc_boot_command(c) + rest));
            assert(b[0] == 1);
            assert(b.skip(1) =~= enc_boot_command(c) + rest);
            lemma_parse_boot_command(c, rest);
        },
    }
}

pub proof fn lemma_parse_start_bootload(sb: StartBootload, rest: Seq<u8>)
    ensures
        parse_start_bootload(enc_start_bootload(sb) + rest) == Some(
            (sb, enc_start_bootload(sb).len() as int),
        ),
{
    lemma_parse3(sb.start_addr, sb.length, sb.crc32, rest);
}

pub proof fn lemma_parse_data_chunk(dc: DataChunkV, rest: Seq<u8>)
    requires
        dc.data.len() <= usize::MAX,
    ensures
        parse_data_chunk(enc_data_chunk(dc) + rest) == Some(
            (dc, enc_data_chunk(dc).len() as int),
        ),
{
    let e1 = enc2(dc.data_addr, dc.sub_crc32);
    let e2 = enc_blob(dc.data);
    let b = enc_data_chunk(dc) + rest;
    assert(b =~= e1 + (e2 + rest));
    lemma_parse2(dc.data_addr, dc.sub_crc32, e2 + rest);
    assert(b.skip(e1.len() as int) =~= e2 + rest);
    lemma_parse_blob(dc.data, rest);
}

#[verifier::rlimit(60)]
#[verifier::spinoff_prover]
pub proof fn lemma_parse_parameters(p: Parameters, rest: Seq<u8>)
    ensures
        parse_parameters(enc_parameters(p) + rest) == Some(
            (p, enc_parameters(p).len() as int),
        ),
{
    let g1 = enc3(p.settings_max, p.data_chunk_size, p.valid_flash_range.0);
    let g2 = enc3(p.valid_flash_range.1, p.valid_app_range.0, p.valid_app_range.1);
    let g3 = enc_u32(p.read_max);
    let b = enc_parameters(p) + rest;
    assert(b =~= g1 + (g2 + (g3 + rest)));
    lemma_parse3(p.settings_max, p.data_chunk_size, p.valid_flash_range.0, g2 + (g3 + rest));
    assert(b.skip(g1.len() as int) =~= g2 + (g3 + rest));
    lemma_parse3(p.valid_flash_range.1, p.valid_app_range.0, p.valid_app_range.1, g3 + rest);
    assert(b.skip(g1.len() as int).skip(g2.len() as int) =~= g3 + rest);
    lemma_parse_u32(p.read_max, rest);
    assert(parse_parameters(b) == Some((p, enc_parameters(p).len() as int)));
}

pub proof fn lemma_parse_status(s: Status, rest: Seq<u8>)
    ensures
        parse_status(enc_status(s) + rest) == Some((s, enc_status(s).len() as int)),
{
    let b = enc_status(s) + rest;
    match s {
        Status::Idle => {
            assert(b[0] == 0);
        },
        Status::Started { start_addr, length, crc32 } => {
            let e = enc3(start_addr, length, crc32);
            assert(b =~= seq![1u8] + (e + rest));
            assert(b[0] == 1);
            assert(b.skip(1) =~= e + rest);
            lemma_parse3(start_addr, length, crc32, rest);
        },
        Status::Loading { start_addr, next_addr, partial_crc32, expected_crc32 } => {
            let e1 = enc2(start_addr, next_addr);
            let e2 = enc2(partial_crc32, expected_crc32);
            assert(b =~= seq![2u8] + (e1 + (e2 + rest)));
            assert(b[0] == 2);
            assert(b.skip(1) =~= e1 + (e2 + rest));
            lemma_parse2(start_addr, next_addr, e2 + rest);
            assert(b.skip(1).skip(e1.len() as int) =~= e2 + rest);
            lemma_parse2(partial_crc32, expected_crc32, rest);
        },
        Status::AwaitingComplete => {
            assert(b[0] == 3);
        },
    }
}

pub proof fn lemma_parse_bootable(v: Bootable, rest: Seq<u8>)
    ensures
        parse_bootable(enc_bootable(v) + rest) == Some((v, enc_bootable(v).len() as int)),
{
    let b = enc_bootable(v) + rest;
    match v {
        Bootable::Yes { crc32, length } => {
            let e1 = enc_u32(crc32);
            let e2 = enc_usize(length);
            assert(b =~= seq![5u8] + (e1 + (e2 + rest)));
            assert(b[0] == 5);
            assert(b.skip(1) =~= e1 + (e2 + rest));
            lemma_parse_u32(crc32, e2 + rest);
            assert(b.skip(1).skip(e1.len() as int) =~= e2 + rest);
            lemma_parse_usize(length, rest);
        },
        _ => {
            assert(b[0] == enc_bootable(v)[0]);
        },
    }
}

pub proof fn lemma_parse_line_error(e: Error, rest: Seq<u8>)
    ensures
        parse_line_error(enc_line_error(e) + rest) == Some((e, enc_line_error(e).len() as int)),
{
    let b = enc_line_error(e) + rest;
    match e {
        Error::Crc { expected, actual } => {
            let p = enc2(expected, actual);
            assert(b =~= seq![4u8] + (p + rest));
            assert(b[0] == 4);
            assert(b.skip(1) =~= p + rest);
            lemma_parse2(expected, actual, rest);
        },
        _ => {
            assert(b[0] == enc_line_error(e)[0]);
        },
    }
}

pub proof fn lemma_parse_response_error(e: ResponseError, rest: Seq<u8>)
    ensures
        parse_response_error(enc_response_error(e) + rest) == Some(
            (e, enc_response_error(e).len() as int),
        ),
{
    let b = enc_response_error(e) + rest;
    match e {
        ResponseError::SkippedRange { expected, actual } => {
            let p = enc2(expected, actual);
            assert(b =~= seq![3u8] + (p + rest));
            assert(b.skip(1) =~= p + rest);
            lemma_parse2(expected, actual, rest);
        },
        ResponseError::IncorrectLength { expected, actual } => {
            let p = enc2(expected, actual);
            assert(b =~= seq![4u8] + (p + rest));
            assert(b.skip(1) =~= p + rest);
            lemma_parse2(expected, actual, rest);
        },
        ResponseError::BadSubCrc { expected, actual } => {
            let p = enc2(expected, actual);
            assert(b =~= seq![5u8] + (p + rest));
            assert(b.skip(1) =~= p + rest);
            lemma_parse2(expected, actual, rest);
        },
        ResponseError::IncompleteLoad { expected_len, actual_len } => {
            let p = enc2(expected_len, actual_len);
            assert(b =~= seq![8u8] + (p + rest));
            assert(b.skip(1) =~= p + rest);
            lemma_parse2(expected_len, actual_len, rest);
        },
        ResponseError::BadFullCrc { expected, actual } => {
            let p = enc2(expected, actual);
            assert(b =~= seq![9u8] + (p + rest));
            assert(b.skip(1) =~= p + rest);
            lemma_parse2(expected, actual, rest);
        },
        ResponseError::SettingsTooLong { max, actual } => {
            let p = enc2(max, actual);
            assert(b =~= seq![10u8] + (p + rest));
            assert(b.skip(1) =~= p + rest);
            lemma_parse2(max, actual, rest);
        },
        ResponseError::BadRangeLength { actual, max } => {
            let p = enc2(actual, max);
            assert(b =~= seq![13u8] + (p + rest));
            assert(b.skip(1) =~= p + rest);
            lemma_parse2(actual, max, rest);
        },
        ResponseError::LineNak(inner) => {
            let p = enc_line_error(inner);
            assert(b =~= seq![14u8] + (p + rest));
            assert(b.skip(1) =~= p + rest);
            lemma_parse_line_error(inner, rest);
        },
        _ => {
            assert(b[0] == enc_response_error(e)[0]);
        },
    }
}

/// Parsing an encoded request, whatever follows it, yields the request.
pub proof fn lemma_parse_request(r: ReqV, rest: Seq<u8>)
    requires
        req_wf(r),
    ensures
        parse_request(enc_request(r) + rest) == Some((r, enc_request(r).len() as int)),
        enc_request(r).len() >= 1,
{
    let b = enc_request(r) + rest;
    match r {
        ReqV::Ping(n) => {
            assert(b =~= seq![0u8] + (enc_u32(n) + rest));
            assert(b.skip(1) =~= enc_u32(n) + rest);
            lemma_parse_u32(n, rest);
        },
        ReqV::GetParameters => {
            assert(b[0] == 1);
        },
        ReqV::StartBootload(sb) => {
            assert(b =~= seq![2u8] + (enc_start_bootload(sb) + rest));
            assert(b.skip(1) =~= enc_start_bootload(sb) + rest);
            lemma_parse_start_bootload(sb, rest);
        },
        ReqV::DataChunk(dc) => {
            assert(b =~= seq![3u8] + (enc_data_chunk(dc) + rest));
            assert(b.skip(1) =~= enc_data_chunk(dc) + rest);
            lemma_parse_data_chunk(dc, rest);
        },
        ReqV::CompleteBootload { boot } => {
            assert(b =~= seq![4u8] + (enc_opt_boot(boot) + rest));
            assert(b.skip(1) =~= enc_opt_boot(boot) + rest);
            lemma_parse_opt_boot(boot, rest);
        },
        ReqV::GetSettings => {
            assert(b[0] == 5);
        },
        ReqV::WriteSettings { data } => {
            assert(b =~= seq![6u8] + (enc_blob(data) + rest));
            assert(b.skip(1) =~= enc_blob(data) + rest);
            lemma_parse_blob(data, rest);
        },
        ReqV::GetStatus => {
            assert(b[0] == 7);
        },
        ReqV::ReadRange { start_addr, len } => {
            assert(b =~= seq![8u8] + (enc2(start_addr, len) + rest));
            assert(b.skip(1) =~= enc2(start_addr, len) + rest);
            lemma_parse2(start_addr, len, rest);
        },
        ReqV::AbortBootload => {
            assert(b[0] == 9);
        },
        ReqV::IsBootable => {
            assert(b[0] == 10);
        },
        ReqV::Boot(cmd) => {
            assert(b =~= seq![11u8] + (enc_boot_command(cmd) + rest));
            assert(b.skip(1) =~= enc_boot_command(cmd) + rest);
            lemma_parse_boot_command(cmd, rest);
        },
    }
}

/// Parsing an encoded response, whatever follows it, yields the response.
#[verifier::rlimit(60)]
#[verifier::spinoff_prover]
pub proof fn lemma_parse_response(r: RespV, rest: Seq<u8>)
    requires
        resp_wf(r),
    ensures
        parse_response(enc_response(r) + rest) == Some((r, enc_response(r).len() as int)),
{
    let b = enc_response(r) + rest;
    match r {
        RespV::Pong(n) => {
            assert(b =~= seq![0u8] + (enc_u32(n) + rest));
            assert(b.skip(1) =~= enc_u32(n) + rest);
            lemma_parse_u32(n, rest);
        },
        RespV::Parameters(p) => {
            assert(b =~= seq![1u8] + (enc_parameters(p) + rest));
            assert(b.skip(1) =~= enc_parameters(p) + rest);
            lemma_parse_parameters(p, rest);
        },
        RespV::BootloadStarted => {
            assert(b[0] == 2);
        },
        RespV::ChunkAccepted { data_addr, data_len, crc32 } => {
            assert(b =~= seq![3u8] + (enc3(data_addr, data_len, crc32) + rest));
            assert(b.skip(1) =~= enc3(data_addr, data_len, crc32) + rest);
            lemma_parse3(data_addr, data_len, crc32, rest);
        },
        RespV::ConfirmComplete { will_boot, boot_status } => {
            let e1 = enc_bool(will_boot);
            let e2 = enc_bootable(boot_status);
            assert(b =~= seq![4u8] + (e1 + (e2 + rest)));
            assert(b.skip(1) =~= e1 + (e2 + rest));
            lemma_parse_bool(will_boot, e2 + rest);
            assert(b.skip(1).skip(1) =~= e2 + rest);
            lemma_parse_bootable(boot_status, rest);
        },
        RespV::Settings { data } => {
            assert(b =~= seq![5u8] + (enc_blob(data) + rest));
            assert(b.skip(1) =~= enc_blob(data) + rest);
            lemma_parse_blob(data, rest);
        },
        RespV::SettingsAccepted { data_len } => {
            assert(b =~= seq![6u8] + (enc_u32(data_len) + rest));
            assert(b.skip(1) =~= enc_u32(data_len) + rest);
            lemma_parse_u32(data_len, rest);
        },
        RespV::Status(s) => {
            assert(b =~= seq![7u8] + (enc_status(s) + rest));
            assert(b.skip(1) =~= enc_status(s) + rest);
            lemma_parse_status(s, rest);
        },
        RespV::ReadRange { start_addr, len, data } => {
            let e1 = enc2(start_addr, len);
            let e2 = enc_blob(data);
            assert(b =~= seq![8u8] + (e1 + (e2 + rest)));
            assert(b.skip(1) =~= e1 + (e2 + rest));
            lemma_parse2(start_addr, len, e2 + rest);
            assert(b.skip(1).skip(e1.len() as int) =~= e2 + rest);
            lemma_parse_blob(data, rest);
        },
        RespV::BadOverfillNak => {
            assert(b[0] == 9);
        },
        RespV::BadPostcardNak => {
            assert(b[0] == 10);
        },
        RespV::BadCrcNak => {
            assert(b[0] == 11);
        },
        RespV::BootloadAborted => {
            assert(b[0] == 12);
        },
        RespV::BootableStatus(v) => {
            assert(b =~= seq![13u8] + (enc_bootable(v) + rest));
            assert(b.skip(1) =~= enc_bootable(v) + rest);
            lemma_parse_bootable(v, rest);
        },
        RespV::ConfirmBootCmd { will_boot, boot_status } => {
            let e1 = enc_bool(will_boot);
            let e2 = enc_bootable(boot_status);
            assert(b =~= seq![14u8] + (e1 + (e2 + rest)));
            assert(b.skip(1) =~= e1 + (e2 + rest));
            lemma_parse_bool(will_boot, e2 + rest);
            assert(b.skip(1).skip(1) =~= e2 + rest);
            lemma_parse_bootable(boot_status, rest);
        },
    }
}

/// Parsing an encoded reply-or-error yields it back.
pub proof fn lemma_parse_resp_result(r: Result<RespV, ResponseError>, rest: Seq<u8>)
    requires
        rr_wf(r),
    ensures
        parse_resp_result(enc_resp_result(r) + rest) == Some(
            (r, enc_resp_result(r).len() as int),
        ),
        enc_resp_result(r).len() >= 1,
{
    let b = enc_resp_result(r) + rest;
    match r {
        Ok(resp) => {
            assert(b =~= seq![0u8] + (enc_response(resp) + rest));
            assert(b.skip(1) =~= enc_response(resp) + rest);
            lemma_parse_response(resp, rest);
        },
        Err(e) => {
            assert(b =~= seq![1u8] + (enc_response_error(e) + rest));
            assert(b.skip(1) =~= enc_response_error(e) + rest);
            lemma_parse_response_error(e, rest);
        },
    }
}

/// A settings record the machine can hold: its byte strings fit in
/// memory.
pub open spec fn setting_wf(s: SettingV) -> bool {
    &&& s.name_ascii.len() <= usize::MAX
    &&& match s.val {
        SettingValV::ByteSlice(d) => d.len() <= usize::MAX,
        SettingValV::AsciiSlice(d) => d.len() <= usize::MAX,
        _ => true,
    }
}

/// A parsed settings record consumes at least one byte and at most the
/// whole input.
pub proof fn lemma_parse_setting_bound(b: Seq<u8>)
    ensures
        match parse_setting(b) {
            Some((s, n)) => 1 <= n <= b.len(),
            None => true,
        },
{
    lemma_parse_vi_bound(b, 10);
    if let Some((name, n1)) = parse_blob(b) {
        let r2 = b.skip(n1);
        if r2.len() > 0 {
            lemma_parse_vi_bound(r2.skip(1), 5);
            lemma_parse_vi_bound(r2.skip(1), 10);
        }
    }
}

/// Parsing an encoded settings record, whatever follows it, yields the
/// record back; the encoding is never empty.
pub proof fn lemma_parse_setting(s: SettingV, rest: Seq<u8>)
    requires
        setting_wf(s),
    ensures
        parse_setting(enc_setting(s) + rest) == Some((s, enc_setting(s).len() as int)),
        enc_setting(s).len() >= 1,
{
    let e1 = enc_blob(s.name_ascii);
    let e2 = enc_setting_val(s.val);
    let b = enc_setting(s) + rest;
    assert(b =~= e1 + (e2 + rest));
    lemma_parse_blob(s.name_ascii, e2 + rest);
    assert(b.skip(e1.len() as int) =~= e2 + rest);
    match s.val {
        SettingValV::U32(x) => {
            assert(e2 + rest =~= seq![0u8] + (enc_u32(x) + rest));
            assert((e2 + rest).skip(1) =~= enc_u32(x) + rest);
            lemma_parse_u32(x, rest);
        },
        SettingValV::F32(x) => {
            assert(e2 + rest =~= seq![1u8] + (enc_u32(x) + rest));
            assert((e2 + rest).skip(1) =~= enc_u32(x) + rest);
            lemma_parse_u32(x, rest);
        },
        SettingValV::ByteSlice(d) => {
            assert(e2 + rest =~= seq![2u8] + (enc_blob(d) + rest));
            assert((e2 + rest).skip(1) =~= enc_blob(d) + rest);
            lemma_parse_blob(d, rest);
        },
        SettingValV::AsciiSlice(d) => {
            assert(e2 + rest =~= seq![3u8] + (enc_blob(d) + rest));
            assert((e2 + rest).skip(1) =~= enc_blob(d) + rest);
            lemma_parse_blob(d, rest);
        },
    }
}

// ---------------------------------------------------------------------
// executable encoders
// ---------------------------------------------------------------------
pub fn enc_u32_exec(out: &mut Vec<u8>, x: u32)
    ensures
        final(out)@ == old(out)@ + enc_u32(x),
{
    enc_vi(out, x as u64);
}

pub fn enc_usize_exec(out: &mut Vec<u8>, x: usize)
    ensures
        final(out)@ == old(out)@ + enc_usize(x),
{
    enc_vi(out, x as u64);
}

pub fn enc_bool_exec(out: &mut Vec<u8>, v: bool)
    ensures
        final(out)@ == old(out)@ + enc_bool(v),
{
    if v {
        out.push(1u8);
    } else {
        out.push(0u8);
    }
    proof {
        assert(out@ =~= old(out)@ + enc_bool(v));
    }
}

pub fn enc_blob_exec(out: &mut Vec<u8>, data: &[u8])
    ensures
        final(out)@ == old(out)@ + enc_blob(data@),
{
    enc_vi(out, data.len() as u64);
    out.extend_from_slice(data);
    proof {
        assert(out@ =~= old(out)@ + enc_blob(data@));
    }
}

pub fn enc_boot_command_exec(out: &mut Vec<u8>, c: &BootCommand)
    ensures
        final(out)@ == old(out)@ + enc_boot_command(*c),
{
    match c {
        BootCommand::BootIfBootable => out.push(0u8),
        BootCommand::ForceBoot => out.push(1u8),
    }
    proof {
        assert(out@ =~= old(out)@ + enc_boot_command(*c));
    }
}

pub fn enc_opt_boot_exec(out: &mut Vec<u8>, o: &Option<BootCommand>)
    ensures
        final(out)@ == old(out)@ + enc_opt_boot(*o),
{
    match o {
        None => {
            out.push(0u8);
        },
        Some(c) => {
            out.push(1u8);
            enc_boot_command_exec(out, c);
        },
    }
    proof {
        assert(out@ =~= old(out)@ + enc_opt_boot(*o));
    }
}

pub fn enc_start_bootload_exec(out: &mut Vec<u8>, sb: &StartBootload)
    ensures
        final(out)@ == old(out)@ + enc_start_bootload(*sb),
{
    enc_u32_exec(out, sb.start_addr);
    enc_u32_exec(out, sb.length);
    enc_u32_exec(out, sb.crc32);
    proof {
        assert(out@ =~= old(out)@ + enc_start_bootload(*sb));
    }
}

pub fn enc_parameters_exec(out: &mut Vec<u8>, p: &Parameters)
    ensures
        final(out)@ == old(out)@ + enc_parameters(*p),
{
    enc_u32_exec(out, p.settings_max);
    enc_u32_exec(out, p.data_chunk_size);
    enc_u32_exec(out, p.valid_flash_range.0);
    enc_u32_exec(out, p.valid_flash_range.1);
    enc_u32_exec(out, p.valid_app_range.0);
    enc_u32_exec(out, p.valid_app_range.1);
    enc_u32_exec(out, p.read_max);
    proof {
        assert(out@ =~= old(out)@ + enc_parameters(*p));
    }
}

pub fn enc_status_exec(out: &mut Vec<u8>, s: &Status)
    ensures
        final(out)@ == old(out)@ + enc_status(*s),
{
    match s {
        Status::Idle => {
            out.push(0u8);
        },
        Status::Started { start_addr, length, crc32 } => {
            out.push(1u8);
            enc_u32_exec(out, *start_addr);
            enc_u32_exec(out, *length);
            enc_u32_exec(out, *crc32);
        },
        Status::Loading { start_addr, next_addr, partial_crc32, expected_crc32 } => {
            out.push(2u8);
            enc_u32_exec(out, *start_addr);
            enc_u32_exec(out, *next_addr);
            enc_u32_exec(out, *partial_crc32);
            enc_u32_exec(out, *expected_crc32);
        },
        Status::AwaitingComplete => {
            out.push(3u8);
        },
    }
    proof {
        assert(out@ =~= old(out)@ + enc_status(*s));
    }
}

pub fn enc_bootable_exec(out: &mut Vec<u8>, b: &Bootable)
    ensures
        final(out)@ == old(out)@ + enc_bootable(*b),
{
    match b {
        Bootable::Unsure => {
            out.push(0u8);
        },
        Bootable::NoMissingSettings => {
            out.push(1u8);
        },
        Bootable::NoDuplicateSettings => {
            out.push(2u8);
        },
        Bootable::NoInvalidSettings => {
            out.push(3u8);
        },
        Bootable::NoInvalidCrc => {
            out.push(4u8);
        },
        Bootable::Yes { crc32, length } => {
            out.push(5u8);
            enc_u32_exec(out, *crc32);
            enc_usize_exec(out, *length);
        },
    }
    proof {
        assert(out@ =~= old(out)@ + enc_bootable(*b));
    }
}

pub fn enc_line_error_exec(out: &mut Vec<u8>, e: &Error)
    ensures
        final(out)@ == old(out)@ + enc_line_error(*e),
{
    match e {
        Error::Underfill => {
            out.push(0u8);
        },
        Error::Overfill => {
            out.push(1u8);
        },
        Error::PostcardDecode => {
            out.push(2u8);
        },
        Error::Cobs => {
            out.push(3u8);
        },
        Error::Crc { expected, actual } => {
            out.push(4u8);
            enc_u32_exec(out, *expected);
            enc_u32_exec(out, *actual);
        },
        Error::LogicError => {
            out.push(5u8);
        },
    }
    proof {
        assert(out@ =~= old(out)@ + enc_line_error(*e));
    }
}

pub fn enc_response_error_exec(out: &mut Vec<u8>, e: &ResponseError)
    ensures
        final(out)@ == old(out)@ + enc_response_error(*e),
{
    match e {
        ResponseError::BadStartAddress => {
            out.push(0u8);
        },
        ResponseError::BadLength => {
            out.push(1u8);
        },
        ResponseError::BootloadInProgress => {
            out.push(2u8);
        },
        ResponseError::SkippedRange { expected, actual } => {
            out.push(3u8);
            enc_u32_exec(out, *expected);
            enc_u32_exec(out, *actual);
        },
        ResponseError::IncorrectLength { expected, actual } => {
            out.push(4u8);
            enc_u32_exec(out, *expected);
            enc_u32_exec(out, *actual);
        },
        ResponseError::BadSubCrc { expected, actual } => {
            out.push(5u8);
            enc_u32_exec(out, *expected);
            enc_u32_exec(out, *actual);
        },
        ResponseError::NoBootloadActive => {
            out.push(6u8);
        },
        ResponseError::TooManyChunks => {
            out.push(7u8);
        },
        ResponseError::IncompleteLoad { expected_len, actual_len } => {
            out.push(8u8);
            enc_u32_exec(out, *expected_len);
            enc_u32_exec(out, *actual_len);
        },
        ResponseError::BadFullCrc { expected, actual } => {
            out.push(9u8);
            enc_u32_exec(out, *expected);
            enc_u32_exec(out, *actual);
        },
        ResponseError::SettingsTooLong { max, actual } => {
            out.push(10u8);
            enc_u32_exec(out, *max);
            enc_u32_exec(out, *actual);
        },
        ResponseError::BadRangeStart => {
            out.push(11u8);
        },
        ResponseError::BadRangeEnd => {
            out.push(12u8);
        },
        ResponseError::BadRangeLength { actual, max } => {
            out.push(13u8);
            enc_u32_exec(out, *actual);
            enc_u32_exec(out, *max);
        },
        ResponseError::LineNak(inner) => {
            out.push(14u8);
            enc_line_error_exec(out, inner);
        },
        ResponseError::Oops => {
            out.push(15u8);
        },
    }
    proof {
        assert(out@ =~= old(out)@ + enc_response_error(*e));
    }
}

pub fn enc_request_exec(out: &mut Vec<u8>, r: &Request)
    ensures
        final(out)@ == old(out)@ + enc_request(r@),
{
    match r {
        Request::Ping(n) => {
            out.push(0u8);
            enc_u32_exec(out, *n);
        },
        Request::GetParameters => {
            out.push(1u8);
        },
        Request::StartBootload(sb) => {
            out.push(2u8);
            enc_start_bootload_exec(out, sb);
        },
        Request::DataChunk(dc) => {
            out.push(3u8);
            enc_u32_exec(out, dc.data_addr);
            enc_u32_exec(out, dc.sub_crc32);
            enc_blob_exec(out, dc.data.as_slice());
        },
        Request::CompleteBootload { boot } => {
            out.push(4u8);
            enc_opt_boot_exec(out, boot);
        },
        Request::GetSettings => {
            out.push(5u8);
        },
        Request::WriteSettings { data } => {
            out.push(6u8);
            enc_blob_exec(out, data.as_slice());
        },
        Request::GetStatus => {
            out.push(7u8);
        },
        Request::ReadRange { start_addr, len } => {
            out.push(8u8);
            enc_u32_exec(out, *start_addr);
            enc_u32_exec(out, *len);
        },
        Request::AbortBootload => {
            out.push(9u8);
        },
        Request::IsBootable => {
            out.push(10u8);
        },
        Request::Boot(cmd) => {
            out.push(11u8);
            enc_boot_command_exec(out, cmd);
        },
    }
    proof {
        assert(out@ =~= old(out)@ + enc_request(r@));
    }
}

pub fn enc_response_exec(out: &mut Vec<u8>, r: &Response)
    ensures
        final(out)@ == old(out)@ + enc_response(r@),
{
    match r {
        Response::Pong(n) => {
            out.push(0u8);
            enc_u32_exec(out, *n);
        },
        Response::Parameters(p) => {
            out.push(1u8);
            enc_parameters_exec(out, p);
        },
        Response::BootloadStarted => {
            out.push(2u8);
        },
        Response::ChunkAccepted { data_addr, data_len, crc32 } => {
            out.push(3u8);
            enc_u32_exec(out, *data_addr);
            enc_u32_exec(out, *data_len);
            enc_u32_exec(out, *crc32);
        },
        Response::ConfirmComplete { will_boot, boot_status } => {
            out.push(4u8);
            enc_bool_exec(out, *will_boot);
            enc_bootable_exec(out, boot_status);
        },
        Response::Settings { data } => {
            out.push(5u8);
            enc_blob_exec(out, data.as_slice());
        },
        Response::SettingsAccepted { data_len } => {
            out.push(6u8);
            enc_u32_exec(out, *data_len);
        },
        Response::Status(s) => {
            out.push(7u8);
            enc_status_exec(out, s);
        },
        Response::ReadRange { start_addr, len, data } => {
            out.push(8u8);
            enc_u32_exec(out, *start_addr);
            enc_u32_exec(out, *len);
            enc_blob_exec(out, data.as_slice());
        },
        Response::BadOverfillNak => {
            out.push(9u8);
        },
        Response::BadPostcardNak => {
            out.push(10u8);
        },
        Response::BadCrcNak => {
            out.push(11u8);
        },
        Response::BootloadAborted => {
            out.push(12u8);
        },
        Response::BootableStatus(b) => {
            out.push(13u8);
            enc_bootable_exec(out, b);
        },
        Response::ConfirmBootCmd { will_boot, boot_status } => {
            out.push(14u8);
            enc_bool_exec(out, *will_boot);
            enc_bootable_exec(out, boot_status);
        },
    }
    proof {
        assert(out@ =~= old(out)@ + enc_response(r@));
    }
}

pub fn enc_resp_result_exec(out: &mut Vec<u8>, r: &Result<Response, ResponseError>)
    ensures
        final(out)@ == old(out)@ + enc_resp_result(crate::icd::rr_view(*r)),
{
    match r {
        Ok(resp) => {
            out.push(0u8);
            enc_response_exec(out, resp);
        },
        Err(e) => {
            out.push(1u8);
            enc_response_error_exec(out, e);
        },
    }
    proof {
        assert(out@ =~= old(out)@ + enc_resp_result(crate::icd::rr_view(*r)));
    }
}

// ---------------------------------------------------------------------
// executable parsers; each mirrors its spec parser and consumes from
// `pos`, returning the value and the position after it
// ---------------------------------------------------------------------
pub fn parse_u32_exec(buf: &[u8], pos: usize) -> (r: Option<(u32, usize)>)
    requires
        pos <= buf@.len(),
    ensures
        match parse_u32(buf@.skip(pos as int)) {
            Some((v, n)) => r == Some::<(u32, usize)>((v, (pos + n) as usize)) && 1 <= n && pos + n <= buf@.len(),
            None => r is None,
        },
{
    proof {
        lemma_parse_vi_bound(buf@.skip(pos as int), 5);
        lemma_pow128_vals();
        if let Some((v, n)) = parse_vi(buf@.skip(pos as int), 5) {
            lemma_pow128_le(n as nat, 5);
        }
    }
    match parse_vi_exec(buf, pos, 5) {
        Some((v, np)) => {
            if v <= u32::MAX as u128 {
                Some((v as u32, np))
            } else {
                None
            }
        },
        None => None,
    }
}

pub fn parse_usize_exec(buf: &[u8], pos: usize) -> (r: Option<(usize, usize)>)
    requires
        pos <= buf@.len(),
    ensures
        match parse_usize(buf@.skip(pos as int)) {
            Some((v, n)) => r == Some::<(usize, usize)>((v, (pos + n) as usize)) && 1 <= n && pos + n <= buf@.len(),
            None => r is None,
        },
{
    proof {
        lemma_parse_vi_bound(buf@.skip(pos as int), 10);
        lemma_pow128_vals();
        if let Some((v, n)) = parse_vi(buf@.skip(pos as int), 10) {
            lemma_pow128_le(n as nat, 10);
        }
    }
    match parse_vi_exec(buf, pos, 10) {
        Some((v, np)) => {
            if v <= usize::MAX as u128 {
                Some((v as usize, np))
            } else {
                None
            }
        },
        None => None,
    }
}

pub fn parse_bool_exec(buf: &[u8], pos: usize) -> (r: Option<(bool, usize)>)
    requires
        pos <= buf@.len(),
    ensures
        match parse_bool(buf@.skip(pos as int)) {
            Some((v, n)) => r == Some::<(bool, usize)>((v, (pos + n) as usize)) && 1 <= n && pos + n <= buf@.len(),
            None => r is None,
        },
{
    if pos >= buf.len() {
        None
    } else {
        let t = buf[pos];
        if t == 0 {
            Some((false, pos + 1))
        } else if t == 1 {
            Some((true, pos + 1))
        } else {
            None
        }
    }
}

pub fn parse_blob_exec(buf: &[u8], pos: usize) -> (r: Option<(Vec<u8>, usize)>)
    requires
        pos <= buf@.len(),
    ensures
        match parse_blob(buf@.skip(pos as int)) {
            Some((v, n)) => r matches Some(p) && p.0@ == v && p.1 == pos + n && 1 <= n && pos + n <= buf@.len(),
            None => r is None,
        },
{
    let ghost b = buf@.skip(pos as int);
    proof {
        lemma_parse_vi_bound(b, 10);
        lemma_pow128_vals();
        if let Some((v, n)) = parse_vi(b, 10) {
            lemma_pow128_le(n as nat, 10);
        }
    }
    match parse_vi_exec(buf, pos, 10) {
        None => None,
        Some((l, np)) => {
            if l > (buf.len() - np) as u128 {
                None
            } else {
                let lu = l as usize;
                let mut v: Vec<u8> = Vec::new();
                v.extend_from_slice(vstd::slice::slice_subrange(buf, np, np + lu));
                proof {
                    let n1 = np - pos;
                    assert(buf@.subrange(np as int, np as int + lu as int) =~= b.subrange(
                        n1 as int,
                        n1 + lu as int,
                    ));
                    assert(v@ =~= buf@.subrange(np as int, np as int + lu as int));
                }
                Some((v, np + lu))
            }
        },
    }
}

pub fn parse2_exec(buf: &[u8], pos: usize) -> (r: Option<((u32, u32), usize)>)
    requires
        pos <= buf@.len(),
    ensures
        match parse2(buf@.skip(pos as int)) {
            Some((v, n)) => r == Some::<((u32, u32), usize)>((v, (pos + n) as usize)) && 1 <= n && pos + n <= buf@.len(),
            None => r is None,
        },
{
    // seeing `len()` bounds the slice's length for the prover
    let _blen: usize = buf.len();
    match parse_u32_exec(buf, pos) {
        None => None,
        Some((x, np1)) => {
            proof {
                lemma_skip_skip(buf@, pos as int, np1 - pos);
            }
            match parse_u32_exec(buf, np1) {
                None => None,
                Some((y, np2)) => Some(((x, y), np2)),
            }
        },
    }
}

pub fn parse3_exec(buf: &[u8], pos: usize) -> (r: Option<((u32, u32, u32), usize)>)
    requires
        pos <= buf@.len(),
    ensures
        match parse3(buf@.skip(pos as int)) {
            Some((v, n)) => r == Some::<((u32, u32, u32), usize)>((v, (pos + n) as usize)) && 1 <= n && pos + n <= buf@.len(),
            None => r is None,
        },
{
    // seeing `len()` bounds the slice's length for the prover
    let _blen: usize = buf.len();
    match parse2_exec(buf, pos) {
        None => None,
        Some(((x, y), np1)) => {
            proof {
                lemma_skip_skip(buf@, pos as int, np1 - pos);
            }
            match parse_u32_exec(buf, np1) {
                None => None,
                Some((z, np2)) => Some(((x, y, z), np2)),
            }
        },
    }
}

/// Skipping in two steps is skipping the sum: the glue every sequenced
/// parser needs.
pub proof fn lemma_skip_skip(s: Seq<u8>, a: int, b: int)
    requires
        0 <= a,
        0 <= b,
        a + b <= s.len(),
    ensures
        s.skip(a).skip(b) == s.skip(a + b),
{
    assert(s.skip(a).skip(b) =~= s.skip(a + b));
}

pub fn parse_boot_command_exec(buf: &[u8], pos: usize) -> (r: Option<(BootCommand, usize)>)
    requires
        pos <= buf@.len(),
    ensures
        match parse_boot_command(buf@.skip(pos as int)) {
            Some((v, n)) => r == Some::<(BootCommand, usize)>((v, (pos + n) as usize)) && 1 <= n && pos + n <= buf@.len(),
            None => r is None,
        },
{
    if pos >= buf.len() {
        None
    } else {
        let t = buf[pos];
        if t == 0 {
            Some((BootCommand::BootIfBootable, pos + 1))
        } else if t == 1 {
            Some((BootCommand::ForceBoot, pos + 1))
        } else {
            None
        }
    }
}

pub fn parse_opt_boot_exec(buf: &[u8], pos: usize) -> (r: Option<(Option<BootCommand>, usize)>)
    requires
        pos <= buf@.len(),
    ensures
        match parse_opt_boot(buf@.skip(pos as int)) {
            Some((v, n)) => r == Some::<(Option<BootCommand>, usize)>((v, (pos + n) as usize)) && 1 <= n && pos + n <= buf@.len(),
            None => r is None,
        },
{
    if pos >= buf.len() {
        None
    } else {
        let t = buf[pos];
        proof {
            lemma_skip_skip(buf@, pos as int, 1);
        }
        if t == 0 {
            Some((None, pos + 1))
        } else if t == 1 {
            match parse_boot_command_exec(buf, pos + 1) {
                None => None,
                Some((c, np)) => Some((Some(c), np)),
            }
        } else {
            None
        }
    }
}

pub fn parse_start_bootload_exec(buf: &[u8], pos: usize) -> (r: Option<(StartBootload, usize)>)
    requires
        pos <= buf@.len(),
    ensures
        match parse_start_bootload(buf@.skip(pos as int)) {
            Some((v, n)) => r == Some::<(StartBootload, usize)>((v, (pos + n) as usize)) && 1 <= n && pos + n <= buf@.len(),
            None => r is None,
        },
{
    // seeing `len()` bounds the slice's length for the prover
    let _blen: usize = buf.len();
    match parse3_exec(buf, pos) {
        None => None,
        Some(((a, l, c), np)) => Some(
            (StartBootload { start_addr: a, length: l, crc32: c }, np),
        ),
    }
}

pub fn parse_data_chunk_exec(buf: &[u8], pos: usize) -> (r: Option<(DataChunk, usize)>)
    requires
        pos <= buf@.len(),
    ensures
        match parse_data_chunk(buf@.skip(pos as int)) {
            Some((v, n)) => r matches Some(p) && p.0@ == v && p.1 == pos + n && 1 <= n && pos + n <= buf@.len(),
            None => r is None,
        },
{
    // seeing `len()` bounds the slice's length for the prover
    let _blen: usize = buf.len();
    match parse2_exec(buf, pos) {
        None => None,
        Some(((addr, crc), np1)) => {
            proof {
                lemma_skip_skip(buf@, pos as int, np1 - pos);
            }
            match parse_blob_exec(buf, np1) {
                None => None,
                Some((data, np2)) => Some(
                    (DataChunk { data_addr: addr, sub_crc32: crc, data }, np2),
                ),
            }
        },
    }
}

pub fn parse_parameters_exec(buf: &[u8], pos: usize) -> (r: Option<(Parameters, usize)>)
    requires
        pos <= buf@.len(),
    ensures
        match parse_parameters(buf@.skip(pos as int)) {
            Some((v, n)) => r == Some::<(Parameters, usize)>((v, (pos + n) as usize)) && 1 <= n && pos + n <= buf@.len(),
            None => r is None,
        },
{
    // seeing `len()` bounds the slice's length for the prover
    let _blen: usize = buf.len();
    match parse3_exec(buf, pos) {
        None => None,
        Some(((sm, cs, f0), np1)) => {
            proof {
                lemma_skip_skip(buf@, pos as int, np1 - pos);
            }
            match parse3_exec(buf, np1) {
                None => None,
                Some(((f1, a0, a1), np2)) => {
                    proof {
                        lemma_skip_skip(buf@, np1 as int, np2 - np1);
                        lemma_skip_skip(buf@, pos as int, np2 - pos);
                    }
                    match parse_u32_exec(buf, np2) {
                        None => None,
                        Some((rm, np3)) => Some(
                            (
                                Parameters {
                                    settings_max: sm,
                                    data_chunk_size: cs,
                                    valid_flash_range: (f0, f1),
                                    valid_app_range: (a0, a1),
                                    read_max: rm,
                                },
                                np3,
                            ),
                        ),
                    }
                },
            }
        },
    }
}

pub fn parse_status_exec(buf: &[u8], pos: usize) -> (r: Option<(Status, usize)>)
    requires
        pos <= buf@.len(),
    ensures
        match parse_status(buf@.skip(pos as int)) {
            Some((v, n)) => r == Some::<(Status, usize)>((v, (pos + n) as usize)) && 1 <= n && pos + n <= buf@.len(),
            None => r is None,
        },
{
    if pos >= buf.len() {
        return None;
    }
    let t = buf[pos];
    proof {
        lemma_skip_skip(buf@, pos as int, 1);
    }
    if t == 0 {
        Some((Status::Idle, pos + 1))
    } else if t == 1 {
        match parse3_exec(buf, pos + 1) {
            None => None,
            Some(((a, l, c), np)) => Some(
                (Status::Started { start_addr: a, length: l, crc32: c }, np),
            ),
        }
    } else if t == 2 {
        match parse2_exec(buf, pos + 1) {
            None => None,
            Some(((sa, na), np1)) => {
                proof {
                    lemma_skip_skip(buf@, pos as int + 1, np1 - pos - 1);
                }
                match parse2_exec(buf, np1) {
                    None => None,
                    Some(((pc, ec), np2)) => Some(
                        (
                            Status::Loading {
                                start_addr: sa,
                                next_addr: na,
                                partial_crc32: pc,
                                expected_crc32: ec,
                            },
                            np2,
                        ),
                    ),
                }
            },
        }
    } else if t == 3 {
        Some((Status::AwaitingComplete, pos + 1))
    } else {
        None
    }
}

pub fn parse_bootable_exec(buf: &[u8], pos: usize) -> (r: Option<(Bootable, usize)>)
    requires
        pos <= buf@.len(),
    ensures
        match parse_bootable(buf@.skip(pos as int)) {
            Some((v, n)) => r == Some::<(Bootable, usize)>((v, (pos + n) as usize)) && 1 <= n && pos + n <= buf@.len(),
            None => r is None,
        },
{
    if pos >= buf.len() {
        return None;
    }
    let t = buf[pos];
    proof {
        lemma_skip_skip(buf@, pos as int, 1);
    }
    if t == 0 {
        Some((Bootable::Unsure, pos + 1))
    } else if t == 1 {
        Some((Bootable::NoMissingSettings, pos + 1))
    } else if t == 2 {
        Some((Bootable::NoDuplicateSettings, pos + 1))
    } else if t == 3 {
        Some((Bootable::NoInvalidSettings, pos + 1))
    } else if t == 4 {
        Some((Bootable::NoInvalidCrc, pos + 1))
    } else if t == 5 {
        match parse_u32_exec(buf, pos + 1) {
            None => None,
            Some((c, np1)) => {
                proof {
                    lemma_skip_skip(buf@, pos as int + 1, np1 - pos - 1);
                }
                match parse_usize_exec(buf, np1) {
                    None => None,
                    Some((l, np2)) => Some((Bootable::Yes { crc32: c, length: l }, np2)),
                }
            },
        }
    } else {
        None
    }
}

pub fn parse_line_error_exec(buf: &[u8], pos: usize) -> (r: Option<(Error, usize)>)
    requires
        pos <= buf@.len(),
    ensures
        match parse_line_error(buf@.skip(pos as int)) {
            Some((v, n)) => r == Some::<(Error, usize)>((v, (pos + n) as usize)) && 1 <= n && pos + n <= buf@.len(),
            None => r is None,
        },
{
    if pos >= buf.len() {
        return None;
    }
    let t = buf[pos];
    proof {
        lemma_skip_skip(buf@, pos as int, 1);
    }
    if t == 0 {
        Some((Error::Underfill, pos + 1))
    } else if t == 1 {
        Some((Error::Overfill, pos + 1))
    } else if t == 2 {
        Some((Error::PostcardDecode, pos + 1))
    } else if t == 3 {
        Some((Error::Cobs, pos + 1))
    } else if t == 4 {
        match parse2_exec(buf, pos + 1) {
            None => None,
            Some(((e, a), np)) => Some((Error::Crc { expected: e, actual: a }, np)),
        }
    } else if t == 5 {
        Some((Error::LogicError, pos + 1))
    } else {
        None
    }
}

pub fn parse_response_error_exec(buf: &[u8], pos: usize) -> (r: Option<(ResponseError, usize)>)
    requires
        pos <= buf@.len(),
    ensures
        match parse_response_error(buf@.skip(pos as int)) {
            Some((v, n)) => r == Some::<(ResponseError, usize)>((v, (pos + n) as usize)) && 1 <= n && pos + n <= buf@.len(),
            None => r is None,
        },
{
    if pos >= buf.len() {
        return None;
    }
    let t = buf[pos];
    proof {
        lemma_skip_skip(buf@, pos as int, 1);
    }
    if t == 0 {
        Some((ResponseError::BadStartAddress, pos + 1))
    } else if t == 1 {
        Some((ResponseError::BadLength, pos + 1))
    } else if t == 2 {
        Some((ResponseError::BootloadInProgress, pos + 1))
    } else if t == 3 {
        match parse2_exec(buf, pos + 1) {
            None => None,
            Some(((e, a), np)) => Some(
                (ResponseError::SkippedRange { expected: e, actual: a }, np),
            ),
        }
    } else if t == 4 {
        match parse2_exec(buf, pos + 1) {
            None => None,
            Some(((e, a), np)) => Some(
                (ResponseError::IncorrectLength { expected: e, actual: a }, np),
            ),
        }
    } else if t == 5 {
        match parse2_exec(buf, pos + 1) {
            None => None,
            Some(((e, a), np)) => Some(
                (ResponseError::BadSubCrc { expected: e, actual: a }, np),
            ),
        }
    } else if t == 6 {
        Some((ResponseError::NoBootloadActive, pos + 1))
    } else if t == 7 {
        Some((ResponseError::TooManyChunks, pos + 1))
    } else if t == 8 {
        match parse2_exec(buf, pos + 1) {
            None => None,
            Some(((e, a), np)) => Some(
                (ResponseError::IncompleteLoad { expected_len: e, actual_len: a }, np),
            ),
        }
    } else if t == 9 {
        match parse2_exec(buf, pos + 1) {
            None => None,
            Some(((e, a), np)) => Some(
                (ResponseError::BadFullCrc { expected: e, actual: a }, np),
            ),
        }
    } else if t == 10 {
        match parse2_exec(buf, pos + 1) {
            None => None,
            Some(((m, a), np)) => Some(
                (ResponseError::SettingsTooLong { max: m, actual: a }, np),
            ),
        }
    } else if t == 11 {
        Some((ResponseError::BadRangeStart, pos + 1))
    } else if t == 12 {
        Some((ResponseError::BadRangeEnd, pos + 1))
    } else if t == 13 {
        match parse2_exec(buf, pos + 1) {
            None => None,
            Some(((a, m), np)) => Some(
                (ResponseError::BadRangeLength { actual: a, max: m }, np),
            ),
        }
    } else if t == 14 {
        match parse_line_error_exec(buf, pos + 1) {
            None => None,
            Some((inner, np)) => Some((ResponseError::LineNak(inner), np)),
        }
    } else if t == 15 {
        Some((ResponseError::Oops, pos + 1))
    } else {
        None
    }
}

pub fn parse_request_exec(buf: &[u8], pos: usize) -> (r: Option<(Request, usize)>)
    requires
        pos <= buf@.len(),
    ensures
        match parse_request(buf@.skip(pos as int)) {
            Some((v, n)) => r matches Some(p) && p.0@ == v && p.1 == pos + n && 1 <= n && pos + n <= buf@.len(),
            None => r is None,
        },
{
    if pos >= buf.len() {
        return None;
    }
    let t = buf[pos];
    proof {
        lemma_skip_skip(buf@, pos as int, 1);
    }
    if t == 0 {
        match parse_u32_exec(buf, pos + 1) {
            None => None,
            Some((n, np)) => Some((Request::Ping(n), np)),
        }
    } else if t == 1 {
        Some((Request::GetParameters, pos + 1))
    } else if t == 2 {
        match parse_start_bootload_exec(buf, pos + 1) {
            None => None,
            Some((sb, np)) => Some((Request::StartBootload(sb), np)),
        }
    } else if t == 3 {
        match parse_data_chunk_exec(buf, pos + 1) {
            None => None,
            Some((dc, np)) => Some((Request::DataChunk(dc), np)),
        }
    } else if t == 4 {
        match parse_opt_boot_exec(buf, pos + 1) {
            None => None,
            Some((o, np)) => Some((Request::CompleteBootload { boot: o }, np)),
        }
    } else if t == 5 {
        Some((Request::GetSettings, pos + 1))
    } else if t == 6 {
        match parse_blob_exec(buf, pos + 1) {
            None => None,
            Some((d, np)) => Some((Request::WriteSettings { data: d }, np)),
        }
    } else if t == 7 {
        Some((Request::GetStatus, pos + 1))
    } else if t == 8 {
        match parse2_exec(buf, pos + 1) {
            None => None,
            Some(((s, l), np)) => Some((Request::ReadRange { start_addr: s, len: l }, np)),
        }
    } else if t == 9 {
        Some((Request::AbortBootload, pos + 1))
    } else if t == 10 {
        Some((Request::IsBootable, pos + 1))
    } else if t == 11 {
        match parse_boot_command_exec(buf, pos + 1) {
            None => None,
            Some((cmd, np)) => Some((Request::Boot(cmd), np)),
        }
    } else {
        None
    }
}

pub fn parse_response_exec(buf: &[u8], pos: usize) -> (r: Option<(Response, usize)>)
    requires
        pos <= buf@.len(),
    ensures
        match parse_response(buf@.skip(pos as int)) {
            Some((v, n)) => r matches Some(p) && p.0@ == v && p.1 == pos + n && 1 <= n && pos + n <= buf@.len(),
            None => r is None,
        },
{
    if pos >= buf.len() {
        return None;
    }
    let t = buf[pos];
    proof {
        lemma_skip_skip(buf@, pos as int, 1);
    }
    if t == 0 {
        match parse_u32_exec(buf, pos + 1) {
            None => None,
            Some((n, np)) => Some((Response::Pong(n), np)),
        }
    } else if t == 1 {
        match parse_parameters_exec(buf, pos + 1) {
            None => None,
            Some((p, np)) => Some((Response::Parameters(p), np)),
        }
    } else if t == 2 {
        Some((Response::BootloadStarted, pos + 1))
    } else if t == 3 {
        match parse3_exec(buf, pos + 1) {
            None => None,
            Some(((a, l, c), np)) => Some(
                (Response::ChunkAccepted { data_addr: a, data_len: l, crc32: c }, np),
            ),
        }
    } else if t == 4 {
        match parse_bool_exec(buf, pos + 1) {
            None => None,
            Some((wb, np1)) => {
                proof {
                    lemma_skip_skip(buf@, pos as int + 1, np1 - pos - 1);
                }
                match parse_bootable_exec(buf, np1) {
                    None => None,
                    Some((bs, np2)) => Some(
                        (Response::ConfirmComplete { will_boot: wb, boot_status: bs }, np2),
                    ),
                }
            },
        }
    } else if t == 5 {
        match parse_blob_exec(buf, pos + 1) {
            None => None,
            Some((d, np)) => Some((Response::Settings { data: d }, np)),
        }
    } else if t == 6 {
        match parse_u32_exec(buf, pos + 1) {
            None => None,
            Some((dl, np)) => Some((Response::SettingsAccepted { data_len: dl }, np)),
        }
    } else if t == 7 {
        match parse_status_exec(buf, pos + 1) {
            None => None,
            Some((s, np)) => Some((Response::Status(s), np)),
        }
    } else if t == 8 {
        match parse2_exec(buf, pos + 1) {
            None => None,
            Some(((sa, l), np1)) => {
                proof {
                    lemma_skip_skip(buf@, pos as int + 1, np1 - pos - 1);
                }
                match parse_blob_exec(buf, np1) {
                    None => None,
                    Some((d, np2)) => Some(
                        (Response::ReadRange { start_addr: sa, len: l, data: d }, np2),
                    ),
                }
            },
        }
    } else if t == 9 {
        Some((Response::BadOverfillNak, pos + 1))
    } else if t == 10 {
        Some((Response::BadPostcardNak, pos + 1))
    } else if t == 11 {
        Some((Response::BadCrcNak, pos + 1))
    } else if t == 12 {
        Some((Response::BootloadAborted, pos + 1))
    } else if t == 13 {
        match parse_bootable_exec(buf, pos + 1) {
            None => None,
            Some((b, np)) => Some((Response::BootableStatus(b), np)),
        }
    } else if t == 14 {
        match parse_bool_exec(buf, pos + 1) {
            None => None,
            Some((wb, np1)) => {
                proof {
                    lemma_skip_skip(buf@, pos as int + 1, np1 - pos - 1);
                }
                match parse_bootable_exec(buf, np1) {
                    None => None,
                    Some((bs, np2)) => Some(
                        (Response::ConfirmBootCmd { will_boot: wb, boot_status: bs }, np2),
                    ),
                }
            },
        }
    } else {
        None
    }
}

pub fn parse_resp_result_exec(buf: &[u8], pos: usize) -> (r: Option<
    (Result<Response, ResponseError>, usize),
>)
    requires
        pos <= buf@.len(),
    ensures
        match parse_resp_result(buf@.skip(pos as int)) {
            Some((v, n)) => r matches Some(p) && crate::icd::rr_view(p.0) == v && p.1 == pos + n && 1 <= n && pos + n <= buf@.len(),
            None => r is None,
        },
{
    if pos >= buf.len() {
        return None;
    }
    let t = buf[pos];
    proof {
        lemma_skip_skip(buf@, pos as int, 1);
    }
    if t == 0 {
        match parse_response_exec(buf, pos + 1) {
            None => None,
            Some((v, np)) => Some((Ok(v), np)),
        }
    } else if t == 1 {
        match parse_response_error_exec(buf, pos + 1) {
            None => None,
            Some((e, np)) => Some((Err(e), np)),
        }
    } else {
        None
    }
}

pub fn parse_setting_exec(buf: &[u8], pos: usize) -> (r: Option<(Setting, usize)>)
    requires
        pos <= buf@.len(),
    ensures
        match parse_setting(buf@.skip(pos as int)) {
            Some((v, n)) => r matches Some(p) && p.0@ == v && p.1 == pos + n && 1 <= n && pos + n <= buf@.len(),
            None => r is None,
        },
{
    // seeing `len()` bounds the slice's length for the prover
    let _blen: usize = buf.len();
    match parse_blob_exec(buf, pos) {
        None => None,
        Some((name, np1)) => {
            proof {
                lemma_skip_skip(buf@, pos as int, np1 - pos);
            }
            if np1 >= buf.len() {
                return None;
            }
            let t = buf[np1];
            proof {
                lemma_skip_skip(buf@, np1 as int, 1);
            }
            if t == 0 {
                match parse_u32_exec(buf, np1 + 1) {
                    None => None,
                    Some((x, np2)) => Some(
                        (Setting { name_ascii: name, val: SettingVal::U32(x) }, np2),
                    ),
                }
            } else if t == 1 {
                match parse_u32_exec(buf, np1 + 1) {
                    None => None,
                    Some((x, np2)) => Some(
                        (Setting { name_ascii: name, val: SettingVal::F32(x) }, np2),
                    ),
                }
            } else if t == 2 {
                match parse_blob_exec(buf, np1 + 1) {
                    None => None,
                    Some((d, np2)) => Some(
                        (Setting { name_ascii: name, val: SettingVal::ByteSlice(d) }, np2),
                    ),
                }
            } else if t == 3 {
                match parse_blob_exec(buf, np1 + 1) {
                    None => None,
                    Some((d, np2)) => Some(
                        (Setting { name_ascii: name, val: SettingVal::AsciiSlice(d) }, np2),
                    ),
                }
            } else {
                None
            }
        },
    }
}

// ---------------------------------------------------------------------
// the whole pipeline: structural encoding inside a checksummed frame
// ---------------------------------------------------------------------
/// What decoding a received request frame body yields: the request, or
/// the exact transport error.
pub open spec fn spec_decode_request(body: Seq<u8>) -> Result<ReqV, Error> {
    match crate::frame::frame_parse(body) {
        Err(e) => Err(e),
        Ok(d) => match parse_request(d) {
            Some((v, n)) => Ok(v),
            None => Err(Error::PostcardDecode),
        },
    }
}

/// What decoding a received response frame body yields.
pub open spec fn spec_decode_response(body: Seq<u8>) -> Result<
    Result<RespV, ResponseError>,
    Error,
> {
    match crate::frame::frame_parse(body) {
        Err(e) => Err(e),
        Ok(d) => match parse_resp_result(d) {
            Some((v, n)) => Ok(v),
            None => Err(Error::PostcardDecode),
        },
    }
}

impl Request {
    /// Encode a request as one whole frame: structural encoding, CRC-32
    /// trailer, byte stuffing, and the `0x00` terminator.
    pub fn encode_to_vec(&self) -> (r: Vec<u8>)
        ensures
            r@ == crate::frame::frame_bytes(enc_request(self@)),
    {
        let mut p: Vec<u8> = Vec::new();
        enc_request_exec(&mut p, self);
        crate::frame::encode_frame(&p)
    }
}

impl Response {
    /// Encode a response as one whole frame, as `Request::encode_to_vec`
    /// does for requests.
    pub fn encode_to_vec(&self) -> (r: Vec<u8>)
        ensures
            r@ == crate::frame::frame_bytes(enc_response(self@)),
    {
        let mut p: Vec<u8> = Vec::new();
        enc_response_exec(&mut p, self);
        crate::frame::encode_frame(&p)
    }
}

/// Encode a reply-or-error as one whole frame: what the machine sends.
pub fn encode_resp_to_vec(resp: &Result<Response, ResponseError>) -> (r: Vec<u8>)
    ensures
        r@ == crate::frame::frame_bytes(enc_resp_result(crate::icd::rr_view(*resp))),
{
    let mut p: Vec<u8> = Vec::new();
    enc_resp_result_exec(&mut p, resp);
    crate::frame::encode_frame(&p)
}

/// Decode a received frame body (the bytes before the terminator) as a
/// request.
pub fn decode_request(buf: &[u8]) -> (r: Result<Request, Error>)
    ensures
        match spec_decode_request(buf@) {
            Ok(v) => r matches Ok(req) && req@ == v,
            Err(e) => r == Err::<Request, Error>(e),
        },
{
    let d = match crate::frame::decode_frame(buf) {
        Ok(d) => d,
        Err(e) => {
            return Err(e);
        },
    };
    proof {
        assert(d@.skip(0) =~= d@);
    }
    match parse_request_exec(d.as_slice(), 0) {
        Some((req, _n)) => Ok(req),
        None => Err(Error::PostcardDecode),
    }
}

/// Decode a received frame body as a reply-or-error: what the peer does
/// with what the machine sent.
pub fn decode_response(buf: &[u8]) -> (r: Result<Result<Response, ResponseError>, Error>)
    ensures
        match spec_decode_response(buf@) {
            Ok(v) => r matches Ok(resp) && crate::icd::rr_view(resp) == v,
            Err(e) => r == Err::<Result<Response, ResponseError>, Error>(e),
        },
{
    let d = match crate::frame::decode_frame(buf) {
        Ok(d) => d,
        Err(e) => {
            return Err(e);
        },
    };
    proof {
        assert(d@.skip(0) =~= d@);
    }
    match parse_resp_result_exec(d.as_slice(), 0) {
        Some((resp, _n)) => Ok(resp),
        None => Err(Error::PostcardDecode),
    }
}

/// Law: decoding an encoded request yields the original request, for
/// every request value, bit for bit.
pub proof fn lemma_request_round_trip(r: ReqV)
    requires
        req_wf(r),
    ensures
        spec_decode_request(crate::frame::frame_body(enc_request(r))) == Ok::<ReqV, Error>(r),
{
    lemma_parse_request(r, Seq::empty());
    assert(enc_request(r) + Seq::<u8>::empty() =~= enc_request(r));
    crate::frame::lemma_frame_round_trip(enc_request(r));
}

/// Law: a frame whose four CRC trailer bytes were tampered with before
/// stuffing is rejected as a request with exactly the `Crc` transport
/// error; the machine then answers `LineNak` and changes no state.
pub proof fn lemma_tampered_request_rejected(p: Seq<u8>, c: Seq<u8>)
    requires
        p.len() >= 1,
        c.len() == 4,
        crate::le_value(c) != crate::checksum::crc32_of(p),
    ensures
        spec_decode_request(crate::frame::cobs_encode(p + c)) == Err::<ReqV, Error>(
            Error::Crc {
                expected: crate::le_value(c) as u32,
                actual: crate::checksum::crc32_of(p),
            },
        ),
{
    crate::frame::lemma_frame_tamper(p, c);
}

/// Law: decoding an encoded reply-or-error yields the original value,
/// for every response and every protocol error, bit for bit.
pub proof fn lemma_response_round_trip(r: Result<RespV, ResponseError>)
    requires
        rr_wf(r),
    ensures
        spec_decode_response(crate::frame::frame_body(enc_resp_result(r))) == Ok::<
            Result<RespV, ResponseError>,
            Error,
        >(r),
{
    lemma_parse_resp_result(r, Seq::empty());
    assert(enc_resp_result(r) + Seq::<u8>::empty() =~= enc_resp_result(r));
    crate::frame::lemma_frame_round_trip(enc_resp_result(r));
}

pub fn enc_setting_exec(out: &mut Vec<u8>, s: &Setting)
    ensures
        final(out)@ == old(out)@ + enc_setting(s@),
{
    enc_blob_exec(out, s.name_ascii.as_slice());
    match &s.val {
        SettingVal::U32(x) => {
            out.push(0u8);
            enc_u32_exec(out, *x);
        },
        SettingVal::F32(x) => {
            out.push(1u8);
            enc_u32_exec(out, *x);
        },
        SettingVal::ByteSlice(d) => {
            out.push(2u8);
            enc_blob_exec(out, d.as_slice());
        },
        SettingVal::AsciiSlice(d) => {
            out.push(3u8);
            enc_blob_exec(out, d.as_slice());
        },
    }
    proof {
        assert(out@ =~= old(out)@ + enc_setting(s@));
    }
}

} // verus!
