//! The settings block: typed tag-value records in a CRC-protected
//! persistent page, laid out as `crc32_le ‖ length_le ‖ payload`, with
//! the CRC computed over `length_le ‖ payload`.

use vstd::prelude::*;

use crate::checksum::{crc32, crc32_of};
use crate::codec::{
    enc_setting, enc_setting_exec, lemma_parse_setting, lemma_parse_setting_bound, parse_setting,
    parse_setting_exec, setting_wf,
};
use crate::frame::{push_le32, read_le32};
use crate::icd::{Setting, SettingV};
use crate::{le32, le_value, lemma_le32};

verus! {

/// The records of a slice of settings, as ghost values.
pub open spec fn settings_views(items: Seq<Setting>) -> Seq<SettingV> {
    items.map_values(|s: Setting| s@)
}

/// The concatenated encodings of a list of records: the payload of a
/// settings block.
pub open spec fn enc_settings_payload(xs: Seq<SettingV>) -> Seq<u8>
    decreases xs.len(),
{
    if xs.len() == 0 {
        Seq::empty()
    } else {
        enc_setting(xs[0]) + enc_settings_payload(xs.skip(1))
    }
}

/// The whole settings block for a list of records.
pub open spec fn settings_block(xs: Seq<SettingV>) -> Seq<u8> {
    let payload = enc_settings_payload(xs);
    let len = payload.len() as u32;
    le32(crc32_of(le32(len) + payload)) + le32(len) + payload
}

/// The records read off a payload, one after another; reading stops at
/// the first position that does not parse as a record.
pub open spec fn iter_records(b: Seq<u8>) -> Seq<SettingV>
    decreases b.len(),
{
    match parse_setting(b) {
        None => Seq::empty(),
        Some((s, n)) => if 0 < n <= b.len() {
            seq![s] + iter_records(b.skip(n))
        } else {
            seq![s]
        },
    }
}

/// The payload of a settings page, if its header and CRC check out.
pub open spec fn parse_settings_block(raw: Seq<u8>) -> Option<Seq<u8>> {
    if raw.len() < 8 {
        None
    } else {
        let exp_crc = le_value(raw.subrange(0, 4)) as u32;
        let exp_len = le_value(raw.subrange(4, 8)) as u32;
        if raw.len() < 8 + exp_len {
            None
        } else {
            let payload = raw.subrange(8, 8 + exp_len as int);
            if crc32_of(le32(exp_len) + payload) == exp_crc {
                Some(payload)
            } else {
                None
            }
        }
    }
}

/// The records a settings page holds, if it reads back at all.
pub open spec fn spec_settings_records(raw: Seq<u8>) -> Option<Seq<SettingV>> {
    match parse_settings_block(raw) {
        Some(p) => Some(iter_records(p)),
        None => None,
    }
}

/// Reading the records off a written payload yields the same records.
pub proof fn lemma_iter_records(xs: Seq<SettingV>)
    requires
        forall|i: int| 0 <= i < xs.len() ==> setting_wf(#[trigger] xs[i]),
    ensures
        iter_records(enc_settings_payload(xs)) == xs,
    decreases xs.len(),
{
    let p = enc_settings_payload(xs);
    if xs.len() == 0 {
        assert(parse_setting(p) is None);
        assert(iter_records(p) =~= xs);
    } else {
        let e = enc_setting(xs[0]);
        let rest = enc_settings_payload(xs.skip(1));
        lemma_parse_setting(xs[0], rest);
        assert(p.skip(e.len() as int) =~= rest);
        assert(forall|i: int|
            0 <= i < xs.skip(1).len() ==> setting_wf(#[trigger] xs.skip(1)[i]) && xs.skip(1)[i]
                == xs[i + 1]);
        lemma_iter_records(xs.skip(1));
        assert(iter_records(p) =~= xs);
    }
}

/// Law: reading a written settings block back yields the same records,
/// in the same order.
pub proof fn lemma_settings_round_trip(xs: Seq<SettingV>)
    requires
        enc_settings_payload(xs).len() <= u32::MAX,
        forall|i: int| 0 <= i < xs.len() ==> setting_wf(#[trigger] xs[i]),
    ensures
        spec_settings_records(settings_block(xs)) == Some(xs),
{
    let payload = enc_settings_payload(xs);
    let len = payload.len() as u32;
    let crc = crc32_of(le32(len) + payload);
    lemma_le32(crc);
    lemma_le32(len);
    let raw = settings_block(xs);
    assert(raw.subrange(0, 4) =~= le32(crc));
    assert(raw.subrange(4, 8) =~= le32(len));
    assert(raw.subrange(8, 8 + len as int) =~= payload);
    lemma_iter_records(xs);
}

/// Serialize records and wrap them in the settings-block header. The
/// four-byte length field is what limits the payload.
pub fn settings_to_vec(items: &[Setting]) -> (r: Vec<u8>)
    requires
        enc_settings_payload(settings_views(items@)).len() <= u32::MAX,
    ensures
        r@ == settings_block(settings_views(items@)),
{
    let ghost vs = settings_views(items@);
    let mut payload: Vec<u8> = Vec::new();
    let mut i: usize = 0;
    proof {
        assert(vs.skip(0) =~= vs);
        assert(payload@ + enc_settings_payload(vs) =~= enc_settings_payload(vs));
    }
    while i < items.len()
        invariant
            i <= items@.len(),
            items@.len() == vs.len(),
            forall|j: int| 0 <= j < vs.len() ==> vs[j] == #[trigger] items@[j]@,
            payload@ + enc_settings_payload(vs.skip(i as int)) == enc_settings_payload(vs),
        decreases items@.len() - i,
    {
        let ghost before = payload@;
        enc_setting_exec(&mut payload, &items[i]);
        proof {
            let rem = vs.skip(i as int);
            assert(rem[0] == vs[i as int]);
            assert(enc_settings_payload(rem) == enc_setting(rem[0]) + enc_settings_payload(
                rem.skip(1),
            ));
            assert(rem.skip(1) =~= vs.skip(i as int + 1));
            assert(payload@ + enc_settings_payload(vs.skip(i as int + 1)) =~= before
                + enc_settings_payload(rem));
        }
        i += 1;
    }
    proof {
        assert(vs.skip(items@.len() as int) =~= Seq::<SettingV>::empty());
        assert(payload@ + Seq::<u8>::empty() =~= payload@);
        assert(payload@ =~= enc_settings_payload(vs));
    }
    let len: u32 = payload.len() as u32;
    let mut covered: Vec<u8> = Vec::new();
    push_le32(&mut covered, len);
    covered.extend_from_slice(payload.as_slice());
    proof {
        assert(covered@ =~= le32(len) + payload@);
    }
    let crc = crc32(covered.as_slice());
    let mut out: Vec<u8> = Vec::new();
    push_le32(&mut out, crc);
    push_le32(&mut out, len);
    out.extend_from_slice(payload.as_slice());
    proof {
        assert(out@ =~= settings_block(vs));
    }
    out
}

/// An iterator over the records of a verified settings payload; it ends
/// at the first position that does not parse.
pub struct SettingsIter {
    remain: Vec<u8>,
    pos: usize,
}

impl View for SettingsIter {
    type V = Seq<SettingV>;

    closed spec fn view(&self) -> Seq<SettingV> {
        if self.pos <= self.remain@.len() {
            iter_records(self.remain@.skip(self.pos as int))
        } else {
            Seq::empty()
        }
    }
}

impl SettingsIter {
    /// The next record, if one parses where the previous one ended.
    pub fn next(&mut self) -> (r: Option<Setting>)
        ensures
            old(self)@.len() == 0 ==> r is None && final(self)@ == old(self)@,
            old(self)@.len() > 0 ==> (r matches Some(s) && s@ == old(self)@[0] && final(self)@
                == old(self)@.skip(1)),
    {
        if self.pos > self.remain.len() {
            proof {
                assert(old(self)@ =~= Seq::<SettingV>::empty());
            }
            return None;
        }
        let ghost b = self.remain@.skip(self.pos as int);
        proof {
            lemma_parse_setting_bound(b);
        }
        match parse_setting_exec(self.remain.as_slice(), self.pos) {
            Some((s, np)) => {
                proof {
                    let n = np - self.pos;
                    assert(self.remain@.skip(np as int) =~= b.skip(n));
                }
                self.pos = np;
                Some(s)
            },
            None => {
                self.pos = self.remain.len();
                proof {
                    assert(self.remain@.skip(self.remain@.len() as int) =~= Seq::<u8>::empty());
                    assert(parse_setting(Seq::<u8>::empty()) is None);
                }
                None
            },
        }
    }
}

/// Read a settings page: check the length and the CRC over
/// `length_le ‖ payload`, and hand back an iterator over the records.
pub fn settings_from_raw(sli: &[u8]) -> (r: Result<SettingsIter, ()>)
    ensures
        match spec_settings_records(sli@) {
            Some(recs) => r matches Ok(it) && it@ == recs,
            None => r is Err,
        },
{
    let (exp_crc, sli1) = match split_u32le(sli) {
        Ok(p) => p,
        Err(()) => {
            return Err(());
        },
    };
    let (exp_len, sli2) = match split_u32le(sli1) {
        Ok(p) => p,
        Err(()) => {
            return Err(());
        },
    };
    proof {
        assert(sli1@.take(4) =~= sli@.subrange(4, 8));
        assert(sli@.take(4) =~= sli@.subrange(0, 4));
        crate::lemma_le_value4(sli@.subrange(0, 4));
        crate::lemma_le_value4(sli@.subrange(4, 8));
    }
    if (sli2.len() as u64) < (exp_len as u64) {
        return Err(());
    }
    let payload = vstd::slice::slice_subrange(sli2, 0, exp_len as usize);
    proof {
        assert(payload@ =~= sli@.subrange(8, 8 + exp_len as int));
    }
    let mut covered: Vec<u8> = Vec::new();
    push_le32(&mut covered, exp_len);
    covered.extend_from_slice(payload);
    proof {
        assert(covered@ =~= le32(exp_len) + payload@);
    }
    let act_crc = crc32(covered.as_slice());
    if act_crc == exp_crc {
        let mut remain: Vec<u8> = Vec::new();
        remain.extend_from_slice(payload);
        let it = SettingsIter { remain, pos: 0 };
        proof {
            assert(it.remain@ =~= payload@);
            assert(it.remain@.skip(0) =~= payload@);
        }
        Ok(it)
    } else {
        Err(())
    }
}

/// Split a four-byte little-endian word off the front of a slice.
pub fn split_u32le(sli: &[u8]) -> (r: Result<(u32, &[u8]), ()>)
    ensures
        match r {
            Ok((v, rem)) => sli@.len() >= 4 && v == le_value(sli@.take(4)) as u32 && rem@
                == sli@.skip(4),
            Err(()) => sli@.len() < 4,
        },
{
    if sli.len() < 4 {
        return Err(());
    }
    let v = read_le32(sli, 0);
    let rem = vstd::slice::slice_subrange(sli, 4, sli.len());
    proof {
        assert(sli@.subrange(0, 4) =~= sli@.take(4));
        assert(sli@.subrange(4, sli@.len() as int) =~= sli@.skip(4));
    }
    Ok((v, rem))
}

} // verus!
