//! Interface control document: the typed values that cross the wire,
//! and their ghost views.
//!
//! Tag discriminators of the sum types are single-byte zero-based indices
//! in declaration order; both peers must agree on that order.

use vstd::prelude::*;

use crate::machine::{Bootable, Error};

verus! {

/// One unit of program data for the flash, with its own checksum.
#[derive(Debug, PartialEq)]
pub struct DataChunk {
    pub data_addr: u32,
    pub sub_crc32: u32,
    pub data: Vec<u8>,
}

/// Ghost view of a data chunk.
#[verifier::ext_equal]
pub struct DataChunkV {
    pub data_addr: u32,
    pub sub_crc32: u32,
    pub data: Seq<u8>,
}

impl View for DataChunk {
    type V = DataChunkV;

    open spec fn view(&self) -> DataChunkV {
        DataChunkV { data_addr: self.data_addr, sub_crc32: self.sub_crc32, data: self.data@ }
    }
}

/// The opening command of a programming session.
#[derive(Debug, PartialEq, Eq, Structural, Clone, Copy)]
pub struct StartBootload {
    pub start_addr: u32,
    pub length: u32,
    pub crc32: u32,
}

/// How a boot request gates on the image check.
#[derive(Debug, PartialEq, Eq, Structural, Clone, Copy)]
pub enum BootCommand {
    BootIfBootable,
    ForceBoot,
}

/// A command frame from the peer.
#[derive(Debug, PartialEq)]
pub enum Request {
    Ping(u32),
    GetParameters,
    StartBootload(StartBootload),
    DataChunk(DataChunk),
    CompleteBootload { boot: Option<BootCommand> },
    GetSettings,
    WriteSettings { data: Vec<u8> },
    GetStatus,
    ReadRange { start_addr: u32, len: u32 },
    AbortBootload,
    IsBootable,
    Boot(BootCommand),
}

/// Ghost view of a request.
#[verifier::ext_equal]
pub enum ReqV {
    Ping(u32),
    GetParameters,
    StartBootload(StartBootload),
    DataChunk(DataChunkV),
    CompleteBootload { boot: Option<BootCommand> },
    GetSettings,
    WriteSettings { data: Seq<u8> },
    GetStatus,
    ReadRange { start_addr: u32, len: u32 },
    AbortBootload,
    IsBootable,
    Boot(BootCommand),
}

impl View for Request {
    type V = ReqV;

    open spec fn view(&self) -> ReqV {
        match self {
            Request::Ping(n) => ReqV::Ping(*n),
            Request::GetParameters => ReqV::GetParameters,
            Request::StartBootload(sb) => ReqV::StartBootload(*sb),
            Request::DataChunk(dc) => ReqV::DataChunk(dc@),
            Request::CompleteBootload { boot } => ReqV::CompleteBootload { boot: *boot },
            Request::GetSettings => ReqV::GetSettings,
            Request::WriteSettings { data } => ReqV::WriteSettings { data: data@ },
            Request::GetStatus => ReqV::GetStatus,
            Request::ReadRange { start_addr, len } => ReqV::ReadRange {
                start_addr: *start_addr,
                len: *len,
            },
            Request::AbortBootload => ReqV::AbortBootload,
            Request::IsBootable => ReqV::IsBootable,
            Request::Boot(cmd) => ReqV::Boot(*cmd),
        }
    }
}

/// The protocol errors, returned verbatim to the peer.
#[derive(Debug, PartialEq, Eq, Structural, Clone, Copy)]
pub enum ResponseError {
    BadStartAddress,
    BadLength,
    BootloadInProgress,
    SkippedRange { expected: u32, actual: u32 },
    IncorrectLength { expected: u32, actual: u32 },
    BadSubCrc { expected: u32, actual: u32 },
    NoBootloadActive,
    TooManyChunks,
    IncompleteLoad { expected_len: u32, actual_len: u32 },
    BadFullCrc { expected: u32, actual: u32 },
    SettingsTooLong { max: u32, actual: u32 },
    BadRangeStart,
    BadRangeEnd,
    BadRangeLength { actual: u32, max: u32 },
    LineNak(Error),
    Oops,
}

/// Progress of the in-memory session, as reported to the peer.
#[derive(Debug, PartialEq, Eq, Structural, Clone, Copy)]
pub enum Status {
    Idle,
    Started { start_addr: u32, length: u32, crc32: u32 },
    Loading { start_addr: u32, next_addr: u32, partial_crc32: u32, expected_crc32: u32 },
    AwaitingComplete,
}

/// The static configuration known to both sides.
#[derive(Debug, PartialEq, Clone, Copy)]
pub struct Parameters {
    pub settings_max: u32,
    pub data_chunk_size: u32,
    pub valid_flash_range: (u32, u32),
    pub valid_app_range: (u32, u32),
    pub read_max: u32,
}

/// A reply frame to the peer.
#[derive(Debug, PartialEq)]
pub enum Response {
    Pong(u32),
    Parameters(Parameters),
    BootloadStarted,
    ChunkAccepted { data_addr: u32, data_len: u32, crc32: u32 },
    ConfirmComplete { will_boot: bool, boot_status: Bootable },
    Settings { data: Vec<u8> },
    SettingsAccepted { data_len: u32 },
    Status(Status),
    ReadRange { start_addr: u32, len: u32, data: Vec<u8> },
    BadOverfillNak,
    BadPostcardNak,
    BadCrcNak,
    BootloadAborted,
    BootableStatus(Bootable),
    ConfirmBootCmd { will_boot: bool, boot_status: Bootable },
}

/// Ghost view of a response.
#[verifier::ext_equal]
pub enum RespV {
    Pong(u32),
    Parameters(Parameters),
    BootloadStarted,
    ChunkAccepted { data_addr: u32, data_len: u32, crc32: u32 },
    ConfirmComplete { will_boot: bool, boot_status: Bootable },
    Settings { data: Seq<u8> },
    SettingsAccepted { data_len: u32 },
    Status(Status),
    ReadRange { start_addr: u32, len: u32, data: Seq<u8> },
    BadOverfillNak,
    BadPostcardNak,
    BadCrcNak,
    BootloadAborted,
    BootableStatus(Bootable),
    ConfirmBootCmd { will_boot: bool, boot_status: Bootable },
}

impl View for Response {
    type V = RespV;

    open spec fn view(&self) -> RespV {
        match self {
            Response::Pong(n) => RespV::Pong(*n),
            Response::Parameters(p) => RespV::Parameters(*p),
            Response::BootloadStarted => RespV::BootloadStarted,
            Response::ChunkAccepted { data_addr, data_len, crc32 } => RespV::ChunkAccepted {
                data_addr: *data_addr,
                data_len: *data_len,
                crc32: *crc32,
            },
            Response::ConfirmComplete { will_boot, boot_status } => RespV::ConfirmComplete {
                will_boot: *will_boot,
                boot_status: *boot_status,
            },
            Response::Settings { data } => RespV::Settings { data: data@ },
            Response::SettingsAccepted { data_len } => RespV::SettingsAccepted {
                data_len: *data_len,
            },
            Response::Status(s) => RespV::Status(*s),
            Response::ReadRange { start_addr, len, data } => RespV::ReadRange {
                start_addr: *start_addr,
                len: *len,
                data: data@,
            },
            Response::BadOverfillNak => RespV::BadOverfillNak,
            Response::BadPostcardNak => RespV::BadPostcardNak,
            Response::BadCrcNak => RespV::BadCrcNak,
            Response::BootloadAborted => RespV::BootloadAborted,
            Response::BootableStatus(b) => RespV::BootableStatus(*b),
            Response::ConfirmBootCmd { will_boot, boot_status } => RespV::ConfirmBootCmd {
                will_boot: *will_boot,
                boot_status: *boot_status,
            },
        }
    }
}

/// The view of a reply-or-error, as the machine's contracts speak of it.
pub open spec fn rr_view(r: Result<Response, ResponseError>) -> Result<RespV, ResponseError> {
    match r {
        Ok(resp) => Ok(resp@),
        Err(e) => Err(e),
    }
}

/// One typed record of the settings block.
#[derive(Debug, PartialEq)]
pub struct Setting {
    pub name_ascii: Vec<u8>,
    pub val: SettingVal,
}

/// The value a settings record carries. The `F32` variant holds the bit
/// pattern of a 32-bit floating-point value; the codec only ever moves
/// those bits, it never does arithmetic on them.
#[derive(Debug, PartialEq)]
pub enum SettingVal {
    U32(u32),
    F32(u32),
    ByteSlice(Vec<u8>),
    AsciiSlice(Vec<u8>),
}

/// Ghost view of a settings record.
#[verifier::ext_equal]
pub struct SettingV {
    pub name_ascii: Seq<u8>,
    pub val: SettingValV,
}

/// Ghost view of a settings value.
#[verifier::ext_equal]
pub enum SettingValV {
    U32(u32),
    F32(u32),
    ByteSlice(Seq<u8>),
    AsciiSlice(Seq<u8>),
}

impl View for SettingVal {
    type V = SettingValV;

    open spec fn view(&self) -> SettingValV {
        match self {
            SettingVal::U32(x) => SettingValV::U32(*x),
            SettingVal::F32(x) => SettingValV::F32(*x),
            SettingVal::ByteSlice(b) => SettingValV::ByteSlice(b@),
            SettingVal::AsciiSlice(b) => SettingValV::AsciiSlice(b@),
        }
    }
}

impl View for Setting {
    type V = SettingV;

    open spec fn view(&self) -> SettingV {
        SettingV { name_ascii: self.name_ascii@, val: self.val@ }
    }
}

} // verus!
