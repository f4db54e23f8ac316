//! The bootload state machine: session lifecycle, chunk validation,
//! image integrity, and boot gating.
//!
//! The whole engine is modelled by one deterministic spec function,
//! `spec_step`, over a ghost machine state (`MachV`): mode, flash
//! contents, settings page, and parameters. Every handler is proved to
//! implement its slice of `spec_step`.

use vstd::prelude::*;

use crate::checksum::{crc32, crc32_of};
use crate::codec::{encode_resp_to_vec, decode_request, enc_resp_result, spec_decode_request};
use crate::icd::{
    BootCommand, DataChunk, DataChunkV, Parameters, ReqV, Request, RespV, Response, ResponseError,
    SettingV, SettingVal, StartBootload, Status, rr_view,
};
use crate::settings::{settings_from_raw, spec_settings_records};

verus! {

/// Transport-level decode failures, reported to the peer as `LineNak`.
#[derive(Debug, PartialEq, Eq, Structural, Clone, Copy)]
pub enum Error {
    Underfill,
    Overfill,
    PostcardDecode,
    Cobs,
    Crc { expected: u32, actual: u32 },
    LogicError,
}

/// Whether the device can hand control to the application, and why not.
#[derive(Debug, PartialEq, Eq, Structural, Clone, Copy)]
pub enum Bootable {
    Unsure,
    NoMissingSettings,
    NoDuplicateSettings,
    NoInvalidSettings,
    NoInvalidCrc,
    Yes { crc32: u32, length: usize },
}

// ---------------------------------------------------------------------
// ghost model of the machine
// ---------------------------------------------------------------------
/// Ghost record of an in-progress programming session. `data` is the
/// concatenation of the accepted chunk payloads in address order: the
/// bytes the running digest has consumed.
#[verifier::ext_equal]
pub struct MetaV {
    pub start: u32,
    pub cur: u32,
    pub len: u32,
    pub exp: u32,
    pub data: Seq<u8>,
}

/// Ghost mode of the engine.
#[verifier::ext_equal]
pub enum ModeV {
    Idle,
    BootLoad(MetaV),
    BootPending,
}

/// Ghost state of the whole engine: mode plus what the hardware holds.
/// Flash bytes are indexed from `valid_flash_range.0`.
#[verifier::ext_equal]
pub struct MachV {
    pub mode: ModeV,
    pub flash: Seq<u8>,
    pub settings: Seq<u8>,
    pub params: Parameters,
}

/// A positive power of two.
pub open spec fn is_pow2(x: nat) -> bool
    decreases x,
{
    if x == 0 {
        false
    } else if x == 1 {
        true
    } else {
        x % 2 == 0 && is_pow2(x / 2)
    }
}

/// The static configuration both peers agreed on: app range inside
/// flash range, chunk size a power of two of at least 8 that fits the
/// app range, reads of at least one chunk.
pub open spec fn params_wf(p: Parameters) -> bool {
    &&& p.valid_flash_range.0 <= p.valid_app_range.0
    &&& p.valid_app_range.0 <= p.valid_app_range.1
    &&& p.valid_app_range.1 <= p.valid_flash_range.1
    &&& p.data_chunk_size >= 8
    &&& is_pow2(p.data_chunk_size as nat)
    &&& p.valid_app_range.0 + p.data_chunk_size <= p.valid_app_range.1
    &&& p.read_max >= p.data_chunk_size
}

/// The session invariant: chunk-aligned progress inside the app range,
/// with the digest buffer tracking exactly the accepted bytes.
pub open spec fn meta_wf(s: MetaV, p: Parameters) -> bool {
    &&& s.start == p.valid_app_range.0
    &&& s.len <= p.valid_app_range.1 - p.valid_app_range.0
    &&& s.len % p.data_chunk_size == 0
    &&& s.start <= s.cur <= s.start + s.len
    &&& (s.cur - s.start) % (p.data_chunk_size as int) == 0
    &&& s.data.len() == s.cur - s.start
}

/// The machine invariant: sane parameters, a flash model that spans the
/// flash range, a settings page at least as large as the biggest write,
/// and a well-formed session when one is open.
pub open spec fn mach_wf(m: MachV) -> bool {
    &&& params_wf(m.params)
    &&& m.flash.len() == m.params.valid_flash_range.1 - m.params.valid_flash_range.0
    &&& m.settings.len() >= m.params.settings_max
    &&& match m.mode {
        ModeV::BootLoad(s) => meta_wf(s, m.params),
        _ => true,
    }
}

/// Overwrite `d.len()` bytes of `s` at offset `off`.
pub open spec fn splice(s: Seq<u8>, off: int, d: Seq<u8>) -> Seq<u8>
    recommends
        0 <= off,
        off + d.len() <= s.len(),
{
    s.subrange(0, off) + d + s.subrange(off + d.len(), s.len() as int)
}

/// The erased state of `n` flash bytes.
pub open spec fn erased(n: nat) -> Seq<u8> {
    Seq::new(n, |i: int| 0xFFu8)
}

// ---------------------------------------------------------------------
// settings interpretation: what image the device claims to hold
// ---------------------------------------------------------------------
/// The bytes of the name `app_len`.
pub open spec fn app_len_name() -> Seq<u8> {
    seq![97u8, 112u8, 112u8, 95u8, 108u8, 101u8, 110u8]
}

/// The bytes of the name `app_crc`.
pub open spec fn app_crc_name() -> Seq<u8> {
    seq![97u8, 112u8, 112u8, 95u8, 99u8, 114u8, 99u8]
}

/// A record carrying a 32-bit value under the given name.
pub open spec fn is_named_u32(s: SettingV, name: Seq<u8>) -> bool {
    s.name_ascii == name && s.val is U32
}

/// How many records carry a 32-bit value under the given name.
pub open spec fn count_named_u32(rs: Seq<SettingV>, name: Seq<u8>) -> nat
    decreases rs.len(),
{
    if rs.len() == 0 {
        0
    } else {
        (if is_named_u32(rs[0], name) {
            1nat
        } else {
            0nat
        }) + count_named_u32(rs.skip(1), name)
    }
}

/// The first 32-bit value recorded under the given name.
pub open spec fn first_named_u32(rs: Seq<SettingV>, name: Seq<u8>) -> u32
    decreases rs.len(),
{
    if rs.len() == 0 {
        0
    } else if is_named_u32(rs[0], name) {
        rs[0].val->U32_0
    } else {
        first_named_u32(rs.skip(1), name)
    }
}

/// What the settings page claims: the app's length and CRC, or the exact
/// reason the claim cannot be read. A page that does not parse reads as
/// missing settings; a duplicated name is reported before a missing one.
pub open spec fn spec_get_app_info(raw: Seq<u8>, p: Parameters) -> Bootable {
    match spec_settings_records(raw) {
        None => Bootable::NoMissingSettings,
        Some(rs) => {
            let nl = count_named_u32(rs, app_len_name());
            let nc = count_named_u32(rs, app_crc_name());
            if nl >= 2 || nc >= 2 {
                Bootable::NoDuplicateSettings
            } else if nl == 0 || nc == 0 {
                Bootable::NoMissingSettings
            } else {
                let app_len = first_named_u32(rs, app_len_name());
                let app_crc = first_named_u32(rs, app_crc_name());
                if app_len > p.valid_app_range.1 - p.valid_app_range.0 || app_len
                    < p.data_chunk_size || !is_pow2(app_len as nat) {
                    Bootable::NoInvalidSettings
                } else {
                    Bootable::Yes { crc32: app_crc, length: app_len as usize }
                }
            }
        },
    }
}

/// Whether the device can boot: the settings claim a sane image, and the
/// flashed bytes' CRC-32 matches the claimed one.
pub open spec fn spec_is_bootable(settings: Seq<u8>, flash: Seq<u8>, p: Parameters) -> Bootable {
    match spec_get_app_info(settings, p) {
        Bootable::Yes { crc32: app_crc, length } => {
            let off = p.valid_app_range.0 - p.valid_flash_range.0;
            let image = flash.subrange(off as int, off + length as int);
            let act = crc32_of(image);
            if act == app_crc {
                Bootable::Yes { crc32: act, length }
            } else {
                Bootable::NoInvalidCrc
            }
        },
        nope => nope,
    }
}

// ---------------------------------------------------------------------
// the transition relation, as one deterministic spec function
// ---------------------------------------------------------------------
/// One turn of the engine: the next state and the reply. Replies that
/// carry a flash view (`Settings`, `ReadRange`) carry an empty one here;
/// `spec_fill` puts the bytes in, as the engine does after the handler
/// releases the buffer.
pub open spec fn spec_step(m: MachV, r: ReqV) -> (MachV, Result<RespV, ResponseError>) {
    let p = m.params;
    match r {
        ReqV::Ping(n) => (m, Ok(RespV::Pong(n))),
        ReqV::GetParameters => (m, Ok(RespV::Parameters(p))),
        ReqV::StartBootload(sb) => match m.mode {
            ModeV::Idle => if sb.start_addr != p.valid_app_range.0 {
                (m, Err(ResponseError::BadStartAddress))
            } else if sb.length > p.valid_app_range.1 - p.valid_app_range.0 || sb.length
                % p.data_chunk_size != 0 {
                (m, Err(ResponseError::BadLength))
            } else {
                let off = sb.start_addr - p.valid_flash_range.0;
                (
                    MachV {
                        mode: ModeV::BootLoad(
                            MetaV {
                                start: sb.start_addr,
                                cur: sb.start_addr,
                                len: sb.length,
                                exp: sb.crc32,
                                data: Seq::empty(),
                            },
                        ),
                        flash: splice(m.flash, off as int, erased(sb.length as nat)),
                        ..m
                    },
                    Ok(RespV::BootloadStarted),
                )
            },
            ModeV::BootLoad(_) => (m, Err(ResponseError::BootloadInProgress)),
            ModeV::BootPending => (m, Err(ResponseError::Oops)),
        },
        ReqV::DataChunk(dc) => match m.mode {
            ModeV::BootLoad(s) => if dc.data_addr != s.cur {
                (m, Err(ResponseError::SkippedRange { expected: s.cur, actual: dc.data_addr }))
            } else if dc.data.len() != p.data_chunk_size {
                (
                    m,
                    Err(
                        ResponseError::IncorrectLength {
                            expected: p.data_chunk_size,
                            actual: dc.data.len() as u32,
                        },
                    ),
                )
            } else if s.cur >= s.start + s.len {
                (m, Err(ResponseError::TooManyChunks))
            } else if crc32_of(dc.data) != dc.sub_crc32 {
                (
                    m,
                    Err(
                        ResponseError::BadSubCrc {
                            expected: dc.sub_crc32,
                            actual: crc32_of(dc.data),
                        },
                    ),
                )
            } else {
                let off = dc.data_addr - p.valid_flash_range.0;
                (
                    MachV {
                        mode: ModeV::BootLoad(
                            MetaV {
                                cur: (s.cur + p.data_chunk_size) as u32,
                                data: s.data + dc.data,
                                ..s
                            },
                        ),
                        flash: splice(m.flash, off as int, dc.data),
                        ..m
                    },
                    Ok(
                        RespV::ChunkAccepted {
                            data_addr: dc.data_addr,
                            data_len: dc.data.len() as u32,
                            crc32: crc32_of(dc.data),
                        },
                    ),
                )
            },
            _ => (m, Err(ResponseError::NoBootloadActive)),
        },
        ReqV::CompleteBootload { boot } => match m.mode {
            ModeV::BootLoad(s) => if s.cur != s.start + s.len {
                (
                    m,
                    Err(
                        ResponseError::IncompleteLoad {
                            expected_len: s.len,
                            actual_len: (s.cur - s.start) as u32,
                        },
                    ),
                )
            } else if crc32_of(s.data) != s.exp {
                (
                    MachV { mode: ModeV::Idle, ..m },
                    Err(ResponseError::BadFullCrc { expected: s.exp, actual: crc32_of(s.data) }),
                )
            } else {
                let bs = spec_is_bootable(m.settings, m.flash, p);
                let will_boot = match boot {
                    Some(BootCommand::ForceBoot) => true,
                    Some(BootCommand::BootIfBootable) => bs is Yes,
                    None => false,
                };
                (
                    MachV {
                        mode: if will_boot {
                            ModeV::BootPending
                        } else {
                            ModeV::Idle
                        },
                        ..m
                    },
                    Ok(RespV::ConfirmComplete { will_boot, boot_status: bs }),
                )
            },
            _ => (m, Err(ResponseError::NoBootloadActive)),
        },
        ReqV::GetSettings => (m, Ok(RespV::Settings { data: Seq::empty() })),
        ReqV::WriteSettings { data } => if data.len() > p.settings_max {
            (
                m,
                Err(
                    ResponseError::SettingsTooLong {
                        max: p.settings_max,
                        actual: data.len() as u32,
                    },
                ),
            )
        } else {
            (
                MachV {
                    settings: data + erased((m.settings.len() - data.len()) as nat),
                    ..m
                },
                Ok(RespV::SettingsAccepted { data_len: data.len() as u32 }),
            )
        },
        ReqV::GetStatus => (
            m,
            Ok(
                RespV::Status(
                    match m.mode {
                        ModeV::BootLoad(s) => if s.cur == s.start {
                            Status::Started { start_addr: s.start, length: s.len, crc32: s.exp }
                        } else if s.cur == s.start + s.len {
                            Status::AwaitingComplete
                        } else {
                            Status::Loading {
                                start_addr: s.start,
                                next_addr: s.cur,
                                partial_crc32: crc32_of(s.data),
                                expected_crc32: s.exp,
                            }
                        },
                        _ => Status::Idle,
                    },
                ),
            ),
        ),
        ReqV::ReadRange { start_addr, len } => if start_addr < p.valid_flash_range.0 {
            (m, Err(ResponseError::BadRangeStart))
        } else if start_addr + len > p.valid_flash_range.1 {
            (m, Err(ResponseError::BadRangeEnd))
        } else {
            (m, Ok(RespV::ReadRange { start_addr, len, data: Seq::empty() }))
        },
        ReqV::AbortBootload => match m.mode {
            ModeV::BootLoad(_) => (MachV { mode: ModeV::Idle, ..m }, Ok(RespV::BootloadAborted)),
            _ => (m, Err(ResponseError::NoBootloadActive)),
        },
        ReqV::IsBootable => (
            m,
            Ok(RespV::BootableStatus(spec_is_bootable(m.settings, m.flash, p))),
        ),
        ReqV::Boot(cmd) => {
            let bs = spec_is_bootable(m.settings, m.flash, p);
            let will_boot = match cmd {
                BootCommand::BootIfBootable => bs is Yes,
                BootCommand::ForceBoot => true,
            };
            (
                MachV { mode: ModeV::BootPending, ..m },
                Ok(RespV::ConfirmBootCmd { will_boot, boot_status: bs }),
            )
        },
    }
}

/// Fill the flash-backed views of a reply, as the engine does once the
/// handler has released the receive buffer.
pub open spec fn spec_fill(
    rr: Result<RespV, ResponseError>,
    flash: Seq<u8>,
    settings: Seq<u8>,
    p: Parameters,
) -> Result<RespV, ResponseError> {
    match rr {
        Ok(RespV::ReadRange { start_addr, len, data }) => {
            let off = start_addr - p.valid_flash_range.0;
            Ok(
                RespV::ReadRange {
                    start_addr,
                    len,
                    data: flash.subrange(off as int, off + len as int),
                },
            )
        },
        Ok(RespV::Settings { data }) => Ok(RespV::Settings { data: settings }),
        other => other,
    }
}

// ---------------------------------------------------------------------
// the flash abstraction
// ---------------------------------------------------------------------
/// The narrow interface through which the engine touches hardware. The
/// three spec functions model the device: its parameters, the flash
/// bytes (indexed from `valid_flash_range.0`), and the raw settings
/// page. Implementations live outside the library; the contracts here
/// are what the verified engine relies on.
pub trait Flash: Sized {
    /// The static configuration of this device. The default leaves the
    /// model unspecified; an implementation outside the verifier can
    /// keep it, a verified one overrides it to model its device.
    open spec fn sparams(&self) -> Parameters {
        arbitrary()
    }

    /// Model of the flash contents over `valid_flash_range`.
    open spec fn sflash(&self) -> Seq<u8> {
        arbitrary()
    }

    /// Model of the raw settings page.
    open spec fn ssettings(&self) -> Seq<u8> {
        arbitrary()
    }

    /// The compile-time parameters, as a value.
    fn parameters(&self) -> (p: Parameters)
        ensures
            p == self.sparams(),
    ;

    /// Program bytes at `start`; the caller has erased the range.
    fn flash_range(&mut self, start: u32, data: &[u8])
        requires
            params_wf(old(self).sparams()),
            old(self).sflash().len() == old(self).sparams().valid_flash_range.1
                - old(self).sparams().valid_flash_range.0,
            old(self).ssettings().len() >= old(self).sparams().settings_max,
            old(self).sparams().valid_flash_range.0 <= start,
            start + data@.len() <= old(self).sparams().valid_flash_range.1,
        ensures
            final(self).sparams() == old(self).sparams(),
            final(self).ssettings() == old(self).ssettings(),
            final(self).sflash() == splice(
                old(self).sflash(),
                start - old(self).sparams().valid_flash_range.0,
                data@,
            ),
    ;

    /// Erase a range: its bytes read back as `0xFF`.
    fn erase_range(&mut self, start: u32, len: u32)
        requires
            params_wf(old(self).sparams()),
            old(self).sflash().len() == old(self).sparams().valid_flash_range.1
                - old(self).sparams().valid_flash_range.0,
            old(self).ssettings().len() >= old(self).sparams().settings_max,
            old(self).sparams().valid_flash_range.0 <= start,
            start + len <= old(self).sparams().valid_flash_range.1,
        ensures
            final(self).sparams() == old(self).sparams(),
            final(self).ssettings() == old(self).ssettings(),
            final(self).sflash() == splice(
                old(self).sflash(),
                start - old(self).sparams().valid_flash_range.0,
                erased(len as nat),
            ),
    ;

    /// Read the whole raw settings page, header included.
    fn read_settings_raw(&mut self) -> (r: Vec<u8>)
        requires
            params_wf(old(self).sparams()),
            old(self).sflash().len() == old(self).sparams().valid_flash_range.1
                - old(self).sparams().valid_flash_range.0,
            old(self).ssettings().len() >= old(self).sparams().settings_max,
        ensures
            final(self).sparams() == old(self).sparams(),
            final(self).ssettings() == old(self).ssettings(),
            final(self).sflash() == old(self).sflash(),
            r@ == old(self).ssettings(),
    ;

    /// Erase the settings page and program these bytes at its base; the
    /// rest of the page reads back erased.
    fn write_settings(&mut self, data: &[u8])
        requires
            params_wf(old(self).sparams()),
            old(self).sflash().len() == old(self).sparams().valid_flash_range.1
                - old(self).sparams().valid_flash_range.0,
            old(self).ssettings().len() >= old(self).sparams().settings_max,
            data@.len() <= old(self).sparams().settings_max,
        ensures
            final(self).sparams() == old(self).sparams(),
            final(self).sflash() == old(self).sflash(),
            final(self).ssettings() == data@ + erased(
                (old(self).ssettings().len() - data@.len()) as nat,
            ),
    ;

    /// Read a contiguous flash range.
    fn read_range(&mut self, start_addr: u32, len: u32) -> (r: Vec<u8>)
        requires
            params_wf(old(self).sparams()),
            old(self).sflash().len() == old(self).sparams().valid_flash_range.1
                - old(self).sparams().valid_flash_range.0,
            old(self).ssettings().len() >= old(self).sparams().settings_max,
            old(self).sparams().valid_flash_range.0 <= start_addr,
            start_addr + len <= old(self).sparams().valid_flash_range.1,
        ensures
            final(self).sparams() == old(self).sparams(),
            final(self).ssettings() == old(self).ssettings(),
            final(self).sflash() == old(self).sflash(),
            r@ == old(self).sflash().subrange(
                start_addr - old(self).sparams().valid_flash_range.0,
                start_addr - old(self).sparams().valid_flash_range.0 + len,
            ),
    ;

    /// Transfer control to the application. On real hardware this call
    /// never returns; nothing may be promised beyond the device model.
    fn boot(&mut self)
        ensures
            final(self).sparams() == old(self).sparams(),
            final(self).ssettings() == old(self).ssettings(),
            final(self).sflash() == old(self).sflash(),
    ;

    /// Is the system currently capable of booting into the application?
    fn is_bootable(&mut self) -> (r: Bootable)
        requires
            params_wf(old(self).sparams()),
            old(self).sflash().len() == old(self).sparams().valid_flash_range.1
                - old(self).sparams().valid_flash_range.0,
            old(self).ssettings().len() >= old(self).sparams().settings_max,
        ensures
            final(self).sparams() == old(self).sparams(),
            final(self).ssettings() == old(self).ssettings(),
            final(self).sflash() == old(self).sflash(),
            r == spec_is_bootable(old(self).ssettings(), old(self).sflash(), old(self).sparams()),
    {
        let params = self.parameters();
        let raw = self.read_settings_raw();
        proof {
            lemma_app_info_yes_bounds(old(self).ssettings(), params);
        }
        let pre_check = get_app_info(raw.as_slice(), &params);
        let (app_crc, app_len) = match pre_check {
            Bootable::Yes { crc32: c, length: l } => (c, l as u32),
            nope => {
                return nope;
            },
        };
        let start = params.valid_app_range.0;
        let end = start + app_len;
        let chunk_len = params.data_chunk_size;
        let lo = params.valid_flash_range.0;
        proof {
            lemma_pow2_divides(chunk_len as nat, app_len as nat);
        }
        let ghost flash0 = self.sflash();
        let ghost settings0 = self.ssettings();
        let mut acc: Vec<u8> = Vec::new();
        let mut cur = start;
        proof {
            assert(acc@ =~= flash0.subrange(start - lo, start - lo));
            vstd::arithmetic::div_mod::lemma_small_mod(0, chunk_len as nat);
        }
        while cur < end
            invariant
                self.sparams() == params,
                self.sflash() == flash0,
                self.ssettings() == settings0,
                self.ssettings().len() >= params.settings_max,
                params_wf(self.sparams()),
                self.sflash().len() == self.sparams().valid_flash_range.1
                    - self.sparams().valid_flash_range.0,
                params.valid_flash_range.0 == lo,
                params_wf(params),
                lo <= start,
                start == params.valid_app_range.0,
                chunk_len == params.data_chunk_size,
                start <= cur <= end,
                end == start + app_len,
                end <= params.valid_app_range.1,
                (cur - start) % chunk_len as int == 0,
                app_len % chunk_len == 0,
                chunk_len >= 1,
                acc@ == flash0.subrange(start - lo, cur - lo),
            decreases end - cur,
        {
            proof {
                lemma_chunk_step(start as int, cur as int, end as int, chunk_len as int);
            }
            let mut cur_page = self.read_range(cur, chunk_len);
            acc.append(&mut cur_page);
            proof {
                assert(acc@ =~= flash0.subrange(start - lo, cur + chunk_len - lo));
            }
            cur = cur + chunk_len;
        }
        let act_crc = crc32(acc.as_slice());
        if act_crc == app_crc {
            Bootable::Yes { crc32: act_crc, length: app_len as usize }
        } else {
            Bootable::NoInvalidCrc
        }
    }
}

/// Whether a 32-bit word is a power of two.
pub fn is_power_of_two_u32(x: u32) -> (r: bool)
    ensures
        r == is_pow2(x as nat),
{
    let mut v = x;
    while v > 1 && v % 2 == 0
        invariant
            is_pow2(x as nat) == is_pow2(v as nat),
        decreases v,
    {
        v = v / 2;
    }
    v == 1
}

/// Whether a record name reads `app_len`.
fn name_is_app_len(name: &Vec<u8>) -> (r: bool)
    ensures
        r == (name@ == app_len_name()),
{
    let r = name.len() == 7 && name[0] == 97 && name[1] == 112 && name[2] == 112 && name[3] == 95
        && name[4] == 108 && name[5] == 101 && name[6] == 110;
    proof {
        if r {
            assert(name@ =~= app_len_name());
        }
    }
    r
}

/// Whether a record name reads `app_crc`.
fn name_is_app_crc(name: &Vec<u8>) -> (r: bool)
    ensures
        r == (name@ == app_crc_name()),
{
    let r = name.len() == 7 && name[0] == 97 && name[1] == 112 && name[2] == 112 && name[3] == 95
        && name[4] == 99 && name[5] == 114 && name[6] == 99;
    proof {
        if r {
            assert(name@ =~= app_crc_name());
        }
    }
    r
}

/// Extract the app's claimed length and CRC from a raw settings page,
/// reporting duplicated or missing names and out-of-bounds lengths.
pub fn get_app_info(raw_stg: &[u8], params: &Parameters) -> (r: Bootable)
    requires
        params_wf(*params),
    ensures
        r == spec_get_app_info(raw_stg@, *params),
{
    let mut app_len: Option<u32> = None;
    let mut app_crc: Option<u32> = None;

    let mut settings_iter = match settings_from_raw(raw_stg) {
        Ok(si) => si,
        Err(_) => {
            return Bootable::NoMissingSettings;
        },
    };
    let ghost rs = settings_iter@;
    let ghost ln = app_len_name();
    let ghost cn = app_crc_name();
    let ghost mut k: int = 0;
    proof {
        assert(rs.skip(0) =~= rs);
    }
    let mut cur = settings_iter.next();
    proof {
        if rs.len() > 0 {
            assert(rs[0] == rs.skip(0)[0]);
        }
    }
    while cur.is_some()
        invariant
            ln == app_len_name(),
            cn == app_crc_name(),
            0 <= k <= rs.len(),
            cur matches Some(s) ==> k < rs.len() && s@ == rs[k] && settings_iter@ == rs.skip(k + 1),
            cur is None ==> k == rs.len(),
            app_len is None ==> count_named_u32(rs, ln) == count_named_u32(rs.skip(k), ln)
                && first_named_u32(rs, ln) == first_named_u32(rs.skip(k), ln),
            app_len matches Some(v) ==> count_named_u32(rs, ln) == 1 + count_named_u32(
                rs.skip(k),
                ln,
            ) && v == first_named_u32(rs, ln),
            app_crc is None ==> count_named_u32(rs, cn) == count_named_u32(rs.skip(k), cn)
                && first_named_u32(rs, cn) == first_named_u32(rs.skip(k), cn),
            app_crc matches Some(v) ==> count_named_u32(rs, cn) == 1 + count_named_u32(
                rs.skip(k),
                cn,
            ) && v == first_named_u32(rs, cn),
            spec_settings_records(raw_stg@) == Some(rs),
        decreases rs.len() - k + (if cur.is_some() {
            1int
        } else {
            0int
        }),
    {
        let stg = cur.unwrap();
        proof {
            assert(app_len_name()[4] != app_crc_name()[4]);
            assert(app_len_name() != app_crc_name());
            assert(rs.skip(k)[0] == rs[k]);
            assert(rs.skip(k).skip(1) =~= rs.skip(k + 1));
            assert(count_named_u32(rs.skip(k), ln) == (if is_named_u32(rs[k], ln) {
                1nat
            } else {
                0nat
            }) + count_named_u32(rs.skip(k + 1), ln));
            assert(count_named_u32(rs.skip(k), cn) == (if is_named_u32(rs[k], cn) {
                1nat
            } else {
                0nat
            }) + count_named_u32(rs.skip(k + 1), cn));
            assert(first_named_u32(rs.skip(k), ln) == (if is_named_u32(rs[k], ln) {
                rs[k].val->U32_0
            } else {
                first_named_u32(rs.skip(k + 1), ln)
            }));
            assert(first_named_u32(rs.skip(k), cn) == (if is_named_u32(rs[k], cn) {
                rs[k].val->U32_0
            } else {
                first_named_u32(rs.skip(k + 1), cn)
            }));
        }
        match &stg.val {
            SettingVal::U32(v) => {
                if name_is_app_len(&stg.name_ascii) {
                    if app_len.is_some() {
                        return Bootable::NoDuplicateSettings;
                    }
                    app_len = Some(*v);
                } else if name_is_app_crc(&stg.name_ascii) {
                    if app_crc.is_some() {
                        return Bootable::NoDuplicateSettings;
                    }
                    app_crc = Some(*v);
                }
            },
            _ => {},
        }
        proof {
            k = k + 1;
        }
        cur = settings_iter.next();
        proof {
            if k < rs.len() {
                assert(rs.skip(k)[0] == rs[k]);
                assert(rs.skip(k).skip(1) =~= rs.skip(k + 1));
            } else {
                assert(rs.skip(k).len() == 0);
            }
        }
    }
    proof {
        assert(rs.skip(rs.len() as int).len() == 0);
        assert(count_named_u32(rs.skip(rs.len() as int), ln) == 0);
        assert(count_named_u32(rs.skip(rs.len() as int), cn) == 0);
    }
    let len_val = match app_len {
        Some(l) => l,
        None => {
            return Bootable::NoMissingSettings;
        },
    };
    let crc_val = match app_crc {
        Some(c) => c,
        None => {
            return Bootable::NoMissingSettings;
        },
    };

    let ttl_len = params.valid_app_range.1 - params.valid_app_range.0;
    let too_long = len_val > ttl_len;
    let too_short = len_val < params.data_chunk_size;
    let not_pow2 = !is_power_of_two_u32(len_val);
    if too_long || too_short || not_pow2 {
        return Bootable::NoInvalidSettings;
    }

    Bootable::Yes { crc32: crc_val, length: len_val as usize }
}

/// A coherent device: sane parameters, a flash model spanning the
/// flash range, a settings page of at least `settings_max` bytes.
pub open spec fn flash_wf<HW: Flash>(hw: &HW) -> bool {
    &&& params_wf(hw.sparams())
    &&& hw.sflash().len() == hw.sparams().valid_flash_range.1
        - hw.sparams().valid_flash_range.0
    &&& hw.ssettings().len() >= hw.sparams().settings_max
}

/// A power of two divides every power of two at least as large.
pub proof fn lemma_pow2_divides(a: nat, b: nat)
    requires
        is_pow2(a),
        is_pow2(b),
        a <= b,
    ensures
        b % a == 0,
    decreases b,
{
    if a == 1 {
    } else if a == b {
        vstd::arithmetic::div_mod::lemma_mod_self_0(a as int);
    } else {
        lemma_pow2_divides(a / 2, b / 2);
        let a2 = a / 2;
        let b2 = b / 2;
        vstd::arithmetic::div_mod::lemma_fundamental_div_mod(b2 as int, a2 as int);
        let q = b2 as int / a2 as int;
        assert(b2 == a2 * q);
        assert(b == (a * q)) by (nonlinear_arith)
            requires
                a % 2 == 0,
                b % 2 == 0,
                a2 == a / 2,
                b2 == b / 2,
                b2 == a2 * q,
        ;
        vstd::arithmetic::div_mod::lemma_mod_multiples_basic(q, a as int);
    }
}

/// From a chunk-aligned position strictly before a chunk-aligned end,
/// one whole chunk still fits.
pub proof fn lemma_chunk_step(start: int, cur: int, end: int, chunk: int)
    requires
        chunk >= 1,
        start <= cur < end,
        (cur - start) % chunk == 0,
        (end - start) % chunk == 0,
    ensures
        cur + chunk <= end,
        (cur + chunk - start) % chunk == 0,
{
    let i = (cur - start) / chunk;
    let n = (end - start) / chunk;
    vstd::arithmetic::div_mod::lemma_fundamental_div_mod(cur - start, chunk);
    vstd::arithmetic::div_mod::lemma_fundamental_div_mod(end - start, chunk);
    assert(cur + chunk <= end && cur + chunk - start == (i + 1) * chunk) by (nonlinear_arith)
        requires
            chunk >= 1,
            start <= cur < end,
            cur - start == chunk * i,
            end - start == chunk * n,
    ;
    vstd::arithmetic::div_mod::lemma_mod_multiples_basic(i + 1, chunk);
}

/// Splicing keeps the length.
pub proof fn lemma_splice_len(s: Seq<u8>, off: int, d: Seq<u8>)
    requires
        0 <= off,
        off + d.len() <= s.len(),
    ensures
        splice(s, off, d).len() == s.len(),
{
}

/// An in-memory session: where the load started, where the next chunk
/// goes, how long and with what CRC the image was announced, and the
/// accepted bytes so far (the running digest's input; its value is the
/// CRC-32 of these bytes).
struct BootLoadMeta {
    digest_data: Vec<u8>,
    addr_start: u32,
    addr_current: u32,
    length: u32,
    exp_crc: u32,
}

impl View for BootLoadMeta {
    type V = MetaV;

    closed spec fn view(&self) -> MetaV {
        MetaV {
            start: self.addr_start,
            cur: self.addr_current,
            len: self.length,
            exp: self.exp_crc,
            data: self.digest_data@,
        }
    }
}

/// The engine's mode: nothing in progress, a session, or a boot waiting
/// for the reply to drain.
enum Mode {
    Idle,
    BootLoad(BootLoadMeta),
    BootPending,
}

impl View for Mode {
    type V = ModeV;

    closed spec fn view(&self) -> ModeV {
        match self {
            Mode::Idle => ModeV::Idle,
            Mode::BootLoad(meta) => ModeV::BootLoad(meta@),
            Mode::BootPending => ModeV::BootPending,
        }
    }
}

/// The reference parameters of the 64 KiB part the protocol was built
/// around: a 2 KiB settings page (4 bytes of which hold the CRC) and a
/// 48 KiB application region in 2 KiB chunks.
pub fn stm32g031_params() -> (p: Parameters)
    ensures
        p == (Parameters {
            settings_max: 2044,
            data_chunk_size: 2048,
            valid_flash_range: (0, 65536),
            valid_app_range: (16384, 65536),
            read_max: 2048,
        }),
        params_wf(p),
{
    let p = Parameters {
        settings_max: (2 * 1024) - 4,
        data_chunk_size: 2 * 1024,
        valid_flash_range: (0, 64 * 1024),
        valid_app_range: (16 * 1024, 64 * 1024),
        read_max: 2 * 1024,
    };
    proof {
        assert(is_pow2(2048)) by {
            reveal_with_fuel(is_pow2, 13);
        }
    }
    p
}

/// The protocol engine: one decoded request in, one encoded reply out,
/// against a flash abstraction.
pub struct Machine<HW: Flash> {
    mode: Mode,
    hardware: HW,
}

impl<HW: Flash> View for Machine<HW> {
    type V = MachV;

    closed spec fn view(&self) -> MachV {
        MachV {
            mode: self.mode@,
            flash: self.hardware.sflash(),
            settings: self.hardware.ssettings(),
            params: self.hardware.sparams(),
        }
    }
}

impl<HW: Flash> Machine<HW> {
    /// The machine invariant over the ghost state.
    pub open spec fn wf(&self) -> bool {
        mach_wf(self@)
    }

    /// A fresh engine in `Idle`, owning its hardware.
    pub fn new(hw: HW) -> (r: Machine<HW>)
        requires
            flash_wf(&hw),
        ensures
            r.wf(),
            r@ == (MachV {
                mode: ModeV::Idle,
                flash: hw.sflash(),
                settings: hw.ssettings(),
                params: hw.sparams(),
            }),
    {
        Machine { mode: Mode::Idle, hardware: hw }
    }

    /// Whether the engine is idle: no session open, no boot pending.
    pub fn mode_is_idle(&self) -> (r: bool)
        ensures
            r == (self@.mode is Idle),
    {
        matches!(self.mode, Mode::Idle)
    }

    /// This function should be called after each reply has been sent in
    /// full: when a boot is pending it hands control to the application,
    /// and on real hardware it then never returns.
    pub fn check_after_send(&mut self)
        requires
            old(self).wf(),
        ensures
            final(self).wf(),
            final(self)@ == old(self)@,
    {
        if matches!(self.mode, Mode::BootPending) {
            self.hardware.boot();
        }
    }

    /// Process one received frame body (the bytes before the `0x00`
    /// terminator), mutate the state as `spec_step` says, and hand back
    /// the encoded reply frame.
    pub fn process(&mut self, buf: &Vec<u8>) -> (out: Vec<u8>)
        requires
            old(self).wf(),
        ensures
            final(self).wf(),
            ({
                match spec_decode_request(buf@) {
                    Ok(rv) => {
                        let (m1, rr) = spec_step(old(self)@, rv);
                        &&& final(self)@ == m1
                        &&& out@ == crate::frame::frame_bytes(
                            enc_resp_result(spec_fill(rr, m1.flash, m1.settings, m1.params)),
                        )
                    },
                    Err(e) => final(self)@ == old(self)@ && out@ == crate::frame::frame_bytes(
                        enc_resp_result(Err(ResponseError::LineNak(e))),
                    ),
                }
            }),
    {
        let resp: Result<Response, ResponseError> = match decode_request(buf.as_slice()) {
            Ok(req) => match req {
                Request::Ping(n) => Ok(Response::Pong(n)),
                Request::GetParameters => Ok(Response::Parameters(self.hardware.parameters())),
                Request::StartBootload(sb) => self.handle_start_bootload(sb),
                Request::DataChunk(dc) => self.handle_data_chunk(dc),
                Request::CompleteBootload { boot } => self.handle_complete_bootload(boot),
                Request::GetSettings => Ok(Response::Settings { data: Vec::new() }),
                Request::WriteSettings { data } => self.handle_write_settings(&data),
                Request::GetStatus => self.handle_get_status(),
                Request::ReadRange { start_addr, len } => self.handle_read_range(start_addr, len),
                Request::AbortBootload => self.handle_abort_bootload(),
                Request::IsBootable => Ok(Response::BootableStatus(self.hardware.is_bootable())),
                Request::Boot(cmd) => self.handle_boot(cmd),
            },
            Err(e) => Err(ResponseError::LineNak(e)),
        };
        self.respond(resp)
    }

    /// Fetch the flash-backed views a reply carries, then frame it. The
    /// fetch happens here, after the handler has released the receive
    /// buffer.
    fn respond(&mut self, msg: Result<Response, ResponseError>) -> (out: Vec<u8>)
        requires
            old(self).wf(),
            (match rr_view(msg) {
                Ok(RespV::ReadRange { start_addr, len, data }) => {
                    &&& old(self)@.params.valid_flash_range.0 <= start_addr
                    &&& start_addr + len <= old(self)@.params.valid_flash_range.1
                },
                _ => true,
            }),
        ensures
            final(self).wf(),
            final(self)@ == old(self)@,
            out@ == crate::frame::frame_bytes(
                enc_resp_result(
                    spec_fill(
                        rr_view(msg),
                        old(self)@.flash,
                        old(self)@.settings,
                        old(self)@.params,
                    ),
                ),
            ),
    {
        let msg = match msg {
            Ok(ok_msg) => Ok(
                match ok_msg {
                    Response::ReadRange { start_addr, len, data: _ } => {
                        let read = self.hardware.read_range(start_addr, len);
                        Response::ReadRange { start_addr, len, data: read }
                    },
                    Response::Settings { data: _ } => Response::Settings {
                        data: self.hardware.read_settings_raw(),
                    },
                    other => other,
                },
            ),
            Err(err_msg) => Err(err_msg),
        };
        encode_resp_to_vec(&msg)
    }

    /// Handles `Request::StartBootload`: only from `Idle`.
    fn handle_start_bootload(&mut self, sb: StartBootload) -> (r: Result<Response, ResponseError>)
        requires
            old(self).wf(),
        ensures
            final(self).wf(),
            ({
                let (m1, rr) = spec_step(old(self)@, ReqV::StartBootload(sb));
                final(self)@ == m1 && rr_view(r) == rr
            }),
    {
        let mut taken = Mode::Idle;
        core::mem::swap(&mut self.mode, &mut taken);
        let (response, new_mode) = match taken {
            Mode::Idle => self.start_inner(sb),
            Mode::BootLoad(meta) => (
                Err(ResponseError::BootloadInProgress),
                Mode::BootLoad(meta),
            ),
            Mode::BootPending => (Err(ResponseError::Oops), Mode::BootPending),
        };
        self.mode = new_mode;
        proof {
            assert(final(self)@ =~= spec_step(old(self)@, ReqV::StartBootload(sb)).0);
        }
        response
    }

    /// Validate a start request and open the session: the start address
    /// must be the app base, the length a whole number of chunks that
    /// fits the app range. On success the app range prefix is erased.
    fn start_inner(&mut self, sb: StartBootload) -> (r: (Result<Response, ResponseError>, Mode))
        requires
            old(self).wf(),
        ensures
            final(self)@.params == old(self)@.params,
            final(self)@.settings == old(self)@.settings,
            final(self)@.mode == old(self)@.mode,
            final(self)@.flash.len() == old(self)@.flash.len(),
            ({
                let m0 = MachV { mode: ModeV::Idle, ..old(self)@ };
                let (m1, rr) = spec_step(m0, ReqV::StartBootload(sb));
                &&& rr_view(r.0) == rr
                &&& r.1@ == m1.mode
                &&& final(self)@.flash == m1.flash
                &&& (match r.1@ {
                    ModeV::BootLoad(s) => meta_wf(s, old(self)@.params),
                    _ => true,
                })
            }),
    {
        let params = self.hardware.parameters();
        if sb.start_addr != params.valid_app_range.0 {
            return (Err(ResponseError::BadStartAddress), Mode::Idle);
        }
        let max_app_len = params.valid_app_range.1 - params.valid_app_range.0;
        let too_long = sb.length > max_app_len;
        let not_full = sb.length % params.data_chunk_size != 0;
        if too_long || not_full {
            return (Err(ResponseError::BadLength), Mode::Idle);
        }

        self.hardware.erase_range(sb.start_addr, sb.length);
        proof {
            vstd::arithmetic::div_mod::lemma_small_mod(
                0,
                old(self)@.params.data_chunk_size as nat,
            );
            lemma_splice_len(
                old(self)@.flash,
                sb.start_addr - old(self)@.params.valid_flash_range.0,
                erased(sb.length as nat),
            );
        }

        (
            Ok(Response::BootloadStarted),
            Mode::BootLoad(
                BootLoadMeta {
                    digest_data: Vec::new(),
                    addr_start: sb.start_addr,
                    addr_current: sb.start_addr,
                    length: sb.length,
                    exp_crc: sb.crc32,
                },
            ),
        )
    }

    /// Handles `Request::DataChunk`: only inside a session.
    fn handle_data_chunk(&mut self, dc: DataChunk) -> (r: Result<Response, ResponseError>)
        requires
            old(self).wf(),
        ensures
            final(self).wf(),
            ({
                let (m1, rr) = spec_step(old(self)@, ReqV::DataChunk(dc@));
                final(self)@ == m1 && rr_view(r) == rr
            }),
    {
        let mut taken = Mode::Idle;
        core::mem::swap(&mut self.mode, &mut taken);
        let (response, new_mode) = match taken {
            Mode::Idle => (Err(ResponseError::NoBootloadActive), Mode::Idle),
            Mode::BootLoad(meta) => self.data_chunk_inner(meta, dc),
            Mode::BootPending => (Err(ResponseError::NoBootloadActive), Mode::BootPending),
        };
        self.mode = new_mode;
        proof {
            assert(final(self)@ =~= spec_step(old(self)@, ReqV::DataChunk(dc@)).0);
        }
        response
    }

    /// Validate one chunk against the session, in order: address,
    /// length, room, sub-CRC. An accepted chunk is programmed, folded
    /// into the running digest, and advances the session; a rejected one
    /// leaves the session as it was.
    fn data_chunk_inner(&mut self, meta: BootLoadMeta, dc: DataChunk) -> (r: (
        Result<Response, ResponseError>,
        Mode,
    ))
        requires
            old(self).wf(),
            meta_wf(meta@, old(self)@.params),
        ensures
            final(self)@.params == old(self)@.params,
            final(self)@.settings == old(self)@.settings,
            final(self)@.mode == old(self)@.mode,
            final(self)@.flash.len() == old(self)@.flash.len(),
            ({
                let m0 = MachV { mode: ModeV::BootLoad(meta@), ..old(self)@ };
                let (m1, rr) = spec_step(m0, ReqV::DataChunk(dc@));
                &&& rr_view(r.0) == rr
                &&& r.1@ == m1.mode
                &&& final(self)@.flash == m1.flash
                &&& (match r.1@ {
                    ModeV::BootLoad(s) => meta_wf(s, old(self)@.params),
                    _ => true,
                })
            }),
    {
        let mut meta = meta;
        let params = self.hardware.parameters();
        if dc.data_addr != meta.addr_current {
            return (
                Err(
                    ResponseError::SkippedRange {
                        expected: meta.addr_current,
                        actual: dc.data_addr,
                    },
                ),
                Mode::BootLoad(meta),
            );
        }
        if dc.data.len() != params.data_chunk_size as usize {
            return (
                Err(
                    ResponseError::IncorrectLength {
                        expected: params.data_chunk_size,
                        actual: #[verifier::truncate] (dc.data.len() as u32),
                    },
                ),
                Mode::BootLoad(meta),
            );
        }
        if meta.addr_current >= meta.addr_start + meta.length {
            return (Err(ResponseError::TooManyChunks), Mode::BootLoad(meta));
        }

        let calc_crc = crate::checksum::crc32(dc.data.as_slice());
        if calc_crc != dc.sub_crc32 {
            return (
                Err(ResponseError::BadSubCrc { expected: dc.sub_crc32, actual: calc_crc }),
                Mode::BootLoad(meta),
            );
        }

        proof {
            lemma_chunk_step(
                meta@.start as int,
                meta@.cur as int,
                meta@.start + meta@.len,
                old(self)@.params.data_chunk_size as int,
            );
            lemma_splice_len(
                old(self)@.flash,
                dc.data_addr - old(self)@.params.valid_flash_range.0,
                dc.data@,
            );
        }
        self.hardware.flash_range(dc.data_addr, dc.data.as_slice());
        meta.digest_data.extend_from_slice(dc.data.as_slice());
        proof {
            assert(meta.digest_data@ =~= meta@.data);
        }
        meta.addr_current = meta.addr_current + params.data_chunk_size;

        (
            Ok(
                Response::ChunkAccepted {
                    data_addr: dc.data_addr,
                    data_len: dc.data.len() as u32,
                    crc32: calc_crc,
                },
            ),
            Mode::BootLoad(meta),
        )
    }

    /// Handles `Request::CompleteBootload`: only inside a session.
    fn handle_complete_bootload(&mut self, boot: Option<BootCommand>) -> (r: Result<
        Response,
        ResponseError,
    >)
        requires
            old(self).wf(),
        ensures
            final(self).wf(),
            ({
                let (m1, rr) = spec_step(old(self)@, ReqV::CompleteBootload { boot });
                final(self)@ == m1 && rr_view(r) == rr
            }),
    {
        let mut taken = Mode::Idle;
        core::mem::swap(&mut self.mode, &mut taken);
        let (response, new_mode) = match taken {
            Mode::Idle => (Err(ResponseError::NoBootloadActive), Mode::Idle),
            Mode::BootLoad(meta) => self.complete_inner(meta, boot),
            Mode::BootPending => (Err(ResponseError::NoBootloadActive), Mode::BootPending),
        };
        self.mode = new_mode;
        proof {
            assert(final(self)@ =~= spec_step(old(self)@, ReqV::CompleteBootload { boot }).0);
        }
        response
    }

    /// Check a completion: every chunk must have arrived and the running
    /// digest must match the announced CRC. A short load keeps the
    /// session; a full-CRC mismatch destroys it. On a match, the boot
    /// command decides whether the next `check_after_send` boots.
    fn complete_inner(&mut self, meta: BootLoadMeta, boot_cmd: Option<BootCommand>) -> (r: (
        Result<Response, ResponseError>,
        Mode,
    ))
        requires
            old(self).wf(),
            meta_wf(meta@, old(self)@.params),
        ensures
            final(self)@.params == old(self)@.params,
            final(self)@.settings == old(self)@.settings,
            final(self)@.mode == old(self)@.mode,
            final(self)@.flash == old(self)@.flash,
            ({
                let m0 = MachV { mode: ModeV::BootLoad(meta@), ..old(self)@ };
                let (m1, rr) = spec_step(m0, ReqV::CompleteBootload { boot: boot_cmd });
                &&& rr_view(r.0) == rr
                &&& r.1@ == m1.mode
                &&& (match r.1@ {
                    ModeV::BootLoad(s) => meta_wf(s, old(self)@.params),
                    _ => true,
                })
            }),
    {
        let complete = meta.addr_current == meta.addr_start + meta.length;
        if !complete {
            return (
                Err(
                    ResponseError::IncompleteLoad {
                        expected_len: meta.length,
                        actual_len: meta.addr_current - meta.addr_start,
                    },
                ),
                Mode::BootLoad(meta),
            );
        }
        let calc_crc = crate::checksum::crc32(meta.digest_data.as_slice());
        if calc_crc != meta.exp_crc {
            return (
                Err(ResponseError::BadFullCrc { expected: meta.exp_crc, actual: calc_crc }),
                Mode::Idle,
            );
        }
        let boot_status = self.hardware.is_bootable();

        let will_boot = match boot_cmd {
            Some(BootCommand::ForceBoot) => true,
            Some(BootCommand::BootIfBootable) => matches!(boot_status, Bootable::Yes { .. }),
            None => false,
        };

        let mode = if will_boot {
            Mode::BootPending
        } else {
            Mode::Idle
        };
        (Ok(Response::ConfirmComplete { will_boot, boot_status }), mode)
    }

    /// Handles `Request::WriteSettings`: allowed in any mode; only the
    /// length is checked, the page itself is opaque here.
    fn handle_write_settings(&mut self, data: &Vec<u8>) -> (r: Result<Response, ResponseError>)
        requires
            old(self).wf(),
        ensures
            final(self).wf(),
            ({
                let (m1, rr) = spec_step(old(self)@, ReqV::WriteSettings { data: data@ });
                final(self)@ == m1 && rr_view(r) == rr
            }),
    {
        let params = self.hardware.parameters();
        if data.len() > params.settings_max as usize {
            return Err(
                ResponseError::SettingsTooLong {
                    max: params.settings_max,
                    actual: #[verifier::truncate] (data.len() as u32),
                },
            );
        }
        self.hardware.write_settings(data.as_slice());
        Ok(Response::SettingsAccepted { data_len: data.len() as u32 })
    }

    /// Handles `Request::GetStatus`: derive the progress report; the
    /// partial CRC is the running digest finalized without touching the
    /// session.
    fn handle_get_status(&mut self) -> (r: Result<Response, ResponseError>)
        requires
            old(self).wf(),
        ensures
            final(self).wf(),
            ({
                let (m1, rr) = spec_step(old(self)@, ReqV::GetStatus);
                final(self)@ == m1 && rr_view(r) == rr
            }),
    {
        Ok(
            Response::Status(
                match &self.mode {
                    Mode::Idle => Status::Idle,
                    Mode::BootPending => Status::Idle,
                    Mode::BootLoad(meta) => {
                        if meta.addr_start == meta.addr_current {
                            Status::Started {
                                start_addr: meta.addr_start,
                                length: meta.length,
                                crc32: meta.exp_crc,
                            }
                        } else if meta.addr_current == meta.addr_start + meta.length {
                            Status::AwaitingComplete
                        } else {
                            Status::Loading {
                                start_addr: meta.addr_start,
                                next_addr: meta.addr_current,
                                partial_crc32: crate::checksum::crc32(
                                    meta.digest_data.as_slice(),
                                ),
                                expected_crc32: meta.exp_crc,
                            }
                        }
                    },
                },
            ),
        )
    }

    /// Handles `Request::ReadRange`: both ends of the window must lie in
    /// the flash range; an overflowing end is rejected.
    fn handle_read_range(&mut self, start_addr: u32, len: u32) -> (r: Result<
        Response,
        ResponseError,
    >)
        requires
            old(self).wf(),
        ensures
            final(self).wf(),
            ({
                let (m1, rr) = spec_step(old(self)@, ReqV::ReadRange { start_addr, len });
                final(self)@ == m1 && rr_view(r) == rr
            }),
    {
        let params = self.hardware.parameters();
        if start_addr < params.valid_flash_range.0 {
            return Err(ResponseError::BadRangeStart);
        }
        if (start_addr as u64) + (len as u64) > params.valid_flash_range.1 as u64 {
            return Err(ResponseError::BadRangeEnd);
        }
        Ok(Response::ReadRange { start_addr, len, data: Vec::new() })
    }

    /// Handles `Request::AbortBootload`: destroy the session and go
    /// idle; the erased region stays erased.
    fn handle_abort_bootload(&mut self) -> (r: Result<Response, ResponseError>)
        requires
            old(self).wf(),
        ensures
            final(self).wf(),
            ({
                let (m1, rr) = spec_step(old(self)@, ReqV::AbortBootload);
                final(self)@ == m1 && rr_view(r) == rr
            }),
    {
        let mut taken = Mode::Idle;
        core::mem::swap(&mut self.mode, &mut taken);
        let (response, new_mode): (Result<Response, ResponseError>, Mode) = match taken {
            Mode::Idle => (Err(ResponseError::NoBootloadActive), Mode::Idle),
            Mode::BootLoad(_meta) => (Ok(Response::BootloadAborted), Mode::Idle),
            Mode::BootPending => (Err(ResponseError::NoBootloadActive), Mode::BootPending),
        };
        self.mode = new_mode;
        proof {
            assert(final(self)@ =~= spec_step(old(self)@, ReqV::AbortBootload).0);
        }
        response
    }

    /// Handles `Request::Boot`: report the would-boot decision and move
    /// to `BootPending` unconditionally.
    fn handle_boot(&mut self, cmd: BootCommand) -> (r: Result<Response, ResponseError>)
        requires
            old(self).wf(),
        ensures
            final(self).wf(),
            ({
                let (m1, rr) = spec_step(old(self)@, ReqV::Boot(cmd));
                final(self)@ == m1 && rr_view(r) == rr
            }),
    {
        let boot_status = self.hardware.is_bootable();
        let will_boot = match cmd {
            BootCommand::BootIfBootable => matches!(boot_status, Bootable::Yes { .. }),
            BootCommand::ForceBoot => true,
        };
        self.mode = Mode::BootPending;
        Ok(Response::ConfirmBootCmd { will_boot, boot_status })
    }
}

/// When the settings claim an image, its length is a whole number of
/// chunks inside the app range.
pub proof fn lemma_app_info_yes_bounds(raw: Seq<u8>, p: Parameters)
    requires
        params_wf(p),
    ensures
        match spec_get_app_info(raw, p) {
            Bootable::Yes { crc32, length } => {
                &&& p.data_chunk_size <= length <= p.valid_app_range.1 - p.valid_app_range.0
                &&& is_pow2(length as nat)
            },
            _ => true,
        },
{
}


// ---------------------------------------------------------------------
// laws of the transition relation
// ---------------------------------------------------------------------
/// Law: the replies to `Ping`, `GetParameters`, and `GetSettings` do not
/// depend on the machine's mode, and none of these requests changes the
/// state.
pub proof fn lemma_mode_independent_requests(m1: MachV, m2: MachV, n: u32)
    requires
        m1.flash == m2.flash,
        m1.settings == m2.settings,
        m1.params == m2.params,
    ensures
        spec_step(m1, ReqV::Ping(n)).1 == spec_step(m2, ReqV::Ping(n)).1,
        spec_step(m1, ReqV::GetParameters).1 == spec_step(m2, ReqV::GetParameters).1,
        spec_fill(spec_step(m1, ReqV::GetSettings).1, m1.flash, m1.settings, m1.params)
            == spec_fill(spec_step(m2, ReqV::GetSettings).1, m2.flash, m2.settings, m2.params),
        spec_step(m1, ReqV::Ping(n)).0 == m1,
        spec_step(m1, ReqV::GetParameters).0 == m1,
        spec_step(m1, ReqV::GetSettings).0 == m1,
{
}

/// Law: `AbortBootload` followed by a valid `StartBootload` succeeds
/// from any state the run loop can hand a request to (a pending boot
/// never returns to the loop).
pub proof fn lemma_abort_then_start(m: MachV, sb: StartBootload)
    requires
        mach_wf(m),
        !(m.mode is BootPending),
        sb.start_addr == m.params.valid_app_range.0,
        sb.length <= m.params.valid_app_range.1 - m.params.valid_app_range.0,
        sb.length % m.params.data_chunk_size == 0,
    ensures
        ({
            let m1 = spec_step(m, ReqV::AbortBootload).0;
            &&& spec_step(m1, ReqV::StartBootload(sb)).1 == Ok::<RespV, ResponseError>(
                RespV::BootloadStarted,
            )
            &&& spec_step(m1, ReqV::StartBootload(sb)).0.mode is BootLoad
        }),
{
}

/// Law: after a chunk is accepted, the status reports `Loading` or
/// `AwaitingComplete`, with the next address exactly one chunk past the
/// accepted bytes: `next_addr = addr_start + chunks_accepted * data_chunk_size`,
/// where the accepted bytes are `chunks_accepted` whole chunks.
pub proof fn lemma_chunk_then_status(m: MachV, dc: DataChunkV)
    requires
        mach_wf(m),
        spec_step(m, ReqV::DataChunk(dc)).1 is Ok,
    ensures
        ({
            let m1 = spec_step(m, ReqV::DataChunk(dc)).0;
            m1.mode matches ModeV::BootLoad(s1) && {
                &&& s1.cur == s1.start + s1.data.len()
                &&& s1.data.len() % (m.params.data_chunk_size as nat) == 0
                &&& s1.data.len() > 0
                &&& spec_step(m1, ReqV::GetStatus).1 == Ok::<RespV, ResponseError>(
                    RespV::Status(
                        if s1.cur == s1.start + s1.len {
                            Status::AwaitingComplete
                        } else {
                            Status::Loading {
                                start_addr: s1.start,
                                next_addr: s1.cur,
                                partial_crc32: crc32_of(s1.data),
                                expected_crc32: s1.exp,
                            }
                        },
                    ),
                )
            }
        }),
{
    if let ModeV::BootLoad(s) = m.mode {
        let p = m.params;
        if s.cur < s.start + s.len {
            lemma_chunk_step(
                s.start as int,
                s.cur as int,
                s.start + s.len,
                p.data_chunk_size as int,
            );
        }
    }
}

/// Law: `CompleteBootload` with too few chunks leaves the whole state,
/// the session included, exactly as it was, answers `IncompleteLoad`,
/// and `GetStatus` still reports the same progress.
pub proof fn lemma_incomplete_complete(m: MachV, boot: Option<BootCommand>)
    requires
        mach_wf(m),
        m.mode matches ModeV::BootLoad(s) && s.cur != s.start + s.len,
    ensures
        ({
            let (m1, rr) = spec_step(m, ReqV::CompleteBootload { boot });
            &&& m1 == m
            &&& (m.mode matches ModeV::BootLoad(s) ==> rr == Err::<RespV, ResponseError>(
                ResponseError::IncompleteLoad {
                    expected_len: s.len,
                    actual_len: (s.cur - s.start) as u32,
                },
            ))
            &&& spec_step(m1, ReqV::GetStatus).1 == spec_step(m, ReqV::GetStatus).1
        }),
{
}

/// Law: the bootable check answers `Yes` exactly when the settings page
/// parses, holds `app_len` and `app_crc` each exactly once, `app_len` is
/// a power of two between one chunk and the app range's size, and the
/// CRC-32 of the first `app_len` flashed bytes of the app range equals
/// `app_crc`; the reported CRC and length are then those values.
pub proof fn lemma_is_bootable_yes(settings: Seq<u8>, flash: Seq<u8>, p: Parameters)
    ensures
        (spec_is_bootable(settings, flash, p) is Yes) <==> ({
            &&& spec_settings_records(settings) is Some
            &&& {
                let rs = spec_settings_records(settings).unwrap();
                let app_len = first_named_u32(rs, app_len_name());
                let app_crc = first_named_u32(rs, app_crc_name());
                let off = p.valid_app_range.0 - p.valid_flash_range.0;
                &&& count_named_u32(rs, app_len_name()) == 1
                &&& count_named_u32(rs, app_crc_name()) == 1
                &&& p.data_chunk_size <= app_len <= p.valid_app_range.1 - p.valid_app_range.0
                &&& is_pow2(app_len as nat)
                &&& crc32_of(flash.subrange(off as int, off + app_len as int)) == app_crc
            }
        }),
        spec_is_bootable(settings, flash, p) matches Bootable::Yes { crc32: c, length: l }
            ==> ({
            let rs = spec_settings_records(settings).unwrap();
            c == first_named_u32(rs, app_crc_name()) && l == first_named_u32(
                rs,
                app_len_name(),
            )
        }),
{
}

} // verus!

