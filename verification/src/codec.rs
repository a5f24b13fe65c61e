//! Compact binary serialization of the operation list, and its URL-safe
//! unpadded base64 transport armor.
//!
//! The wire format is a protobuf-style tag/length encoding. Every
//! numeric field is a little-endian base-128 varint carrying a value
//! below 2^32 (at most five bytes); the signed contrast level is
//! zigzag-mapped first. Each list element is a length-delimited
//! message holding exactly one operation field, and all fields are
//! always written, in field order, so that decoding an encoded list
//! returns it exactly.

use vstd::prelude::*;

use base64::Engine;

use crate::ops::Contrast;
use crate::ops::Crop;
use crate::ops::Filter;
use crate::ops::FilterPreset;
use crate::ops::Fliph;
use crate::ops::Flipv;
use crate::ops::ImageSpec;
use crate::ops::Resize;
use crate::ops::ResizeType;
use crate::ops::SampleFilter;
use crate::ops::Spec;
use crate::ops::SpecData;
use crate::ops::Watermark;

verus! {

/// Why a transported operation list could not be decoded.
#[derive(Clone, Copy, PartialEq, Eq, Structural, Debug)]
pub enum SpecDecodeError {
    /// The string is not URL-safe unpadded base64.
    InvalidBase64,
    /// The decoded bytes do not frame a well-formed operation list.
    InvalidData,
}

/// Little-endian base-128 encoding with continuation bits: the low
/// seven bits of each byte carry a digit, the high bit says whether
/// more digits follow.
pub open spec fn varint(v: nat) -> Seq<u8>
    decreases v,
{
    if v < 128 {
        seq![v as u8]
    } else {
        seq![(128 + (v % 128)) as u8] + varint((v / 128) as nat)
    }
}

/// The multipliers a five-byte varint walks through.
pub open spec fn mult_ok(m: nat) -> bool {
    m == 1 || m == 0x80 || m == 0x4000 || m == 0x200000 || m == 0x10000000
}

/// Decoding a varint, digit by digit: `acc` holds the digits read so
/// far and `mult` the weight of the next one. The fifth byte may carry
/// at most four bits and no continuation, so the value stays below
/// 2^32.
pub open spec fn dec_varint_from(s: Seq<u8>, mult: nat, acc: nat) -> Option<(nat, Seq<u8>)>
    decreases s.len(),
{
    if s.len() == 0 {
        None
    } else {
        let b = s[0];
        let digit = (b % 128) as nat;
        if mult == 0x10000000 {
            if b >= 128 || digit > 15 {
                None
            } else {
                Some(((acc + digit * mult) as nat, s.drop_first()))
            }
        } else if b >= 128 {
            dec_varint_from(s.drop_first(), (mult * 128) as nat, (acc + digit * mult) as nat)
        } else {
            Some(((acc + digit * mult) as nat, s.drop_first()))
        }
    }
}

/// The value at the head of `s` and what follows it, or `None` when no
/// well-formed varint starts `s`.
pub open spec fn dec_varint(s: Seq<u8>) -> Option<(nat, Seq<u8>)> {
    dec_varint_from(s, 1, 0)
}

/// An encoded value below 2^32 takes one to five bytes.
pub proof fn lemma_varint_len(v: nat)
    requires
        v < 0x100000000,
    ensures
        1 <= varint(v).len() <= 5,
{
    let v1 = (v / 128) as nat;
    let v2 = (v1 / 128) as nat;
    let v3 = (v2 / 128) as nat;
    let v4 = (v3 / 128) as nat;
    if v >= 128 {
        assert(varint(v).len() == 1 + varint(v1).len());
        if v1 >= 128 {
            assert(varint(v1).len() == 1 + varint(v2).len());
            if v2 >= 128 {
                assert(varint(v2).len() == 1 + varint(v3).len());
                if v3 >= 128 {
                    assert(varint(v3).len() == 1 + varint(v4).len());
                    assert(v4 < 128);
                    assert(varint(v4).len() == 1);
                }
            }
        }
    }
}

proof fn lemma_dec_prepends(v: nat, rest: Seq<u8>, mult: nat, acc: nat)
    requires
        mult_ok(mult),
        acc + v * mult < 0x100000000,
    ensures
        dec_varint_from(varint(v) + rest, mult, acc) == Some(((acc + v * mult) as nat, rest)),
    decreases v,
{
    let s = varint(v) + rest;
    if v < 128 {
        assert(s[0] == v as u8);
        assert(s.drop_first() =~= rest);
        if mult == 0x10000000 {
            assert(v <= 15) by (nonlinear_arith)
                requires
                    acc + v * mult < 0x100000000,
                    mult == 0x10000000,
                    0 <= v,
                    0 <= acc,
            ;
        }
    } else {
        assert(mult != 0x10000000) by (nonlinear_arith)
            requires
                v >= 128,
                acc + v * mult < 0x100000000,
                0 <= acc,
                mult_ok(mult),
        ;
        assert(s[0] == (128 + (v % 128)) as u8);
        assert(s.drop_first() =~= varint((v / 128) as nat) + rest);
        let digit = (v % 128) as nat;
        assert((v / 128) * (mult * 128) + digit * mult == v * mult) by (nonlinear_arith)
            requires
                v >= 0,
                digit == v % 128,
        ;
        assert((v / 128) * (mult * 128) <= v * mult) by (nonlinear_arith)
            requires
                v >= 0,
                mult >= 1,
                digit == v % 128,
                (v / 128) * (mult * 128) + digit * mult == v * mult,
        ;
        assert(digit * mult <= v * mult) by (nonlinear_arith)
            requires
                v >= 0,
                mult >= 1,
                digit == v % 128,
                (v / 128) * (mult * 128) + digit * mult == v * mult,
        ;
        lemma_dec_prepends((v / 128) as nat, rest, (mult * 128) as nat, (acc + digit * mult)
            as nat);
    }
}

/// Decoding undoes encoding: a varint for `v` at the head of a byte
/// string decodes to `v` and leaves exactly the tail.
pub proof fn lemma_varint_round_trip(v: nat, rest: Seq<u8>)
    requires
        v < 0x100000000,
    ensures
        dec_varint(varint(v) + rest) == Some((v, rest)),
{
    assert(v * 1 == v) by (nonlinear_arith);
    lemma_dec_prepends(v, rest, 1, 0);
}

/// Appends the varint encoding of `v`.
pub fn write_varint(out: &mut Vec<u8>, v: u32)
    ensures
        final(out)@ == old(out)@ + varint(v as nat),
{
    let mut x: u32 = v;
    loop
        invariant
            out@ + varint(x as nat) == old(out)@ + varint(v as nat),
        decreases x,
    {
        if x < 128 {
            out.push(x as u8);
            proof {
                assert(out@ =~= old(out)@ + varint(v as nat));
            }
            return ;
        } else {
            out.push((128 + (x % 128) as u32) as u8);
            proof {
                assert(out@ + varint((x as nat / 128) as nat) =~= old(out)@ + varint(v as nat));
            }
            x = x / 128;
        }
    }
}

/// Reads the varint starting at `pos`; on success the value and the
/// position after it, on failure exactly when no well-formed varint
/// starts there.
pub fn read_varint(buf: &Vec<u8>, pos: usize) -> (r: Result<(u32, usize), ()>)
    requires
        pos <= buf@.len(),
    ensures
        r matches Ok(t) ==> pos < t.1 <= buf@.len() && dec_varint(buf@.skip(pos as int)) == Some(
            (t.0 as nat, buf@.skip(t.1 as int))),
        r is Err ==> dec_varint(buf@.skip(pos as int)) is None,
{
    let n = buf.len();
    let mut mult: u32 = 1;
    let mut acc: u32 = 0;
    let mut i: usize = pos;
    loop
        invariant
            pos <= i <= n,
            n == buf@.len(),
            mult_ok(mult as nat),
            acc < mult,
            dec_varint(buf@.skip(pos as int)) == dec_varint_from(buf@.skip(i as int), mult as nat,
                acc as nat),
        decreases n - i,
    {
        if i >= n {
            proof {
                assert(buf@.skip(i as int) =~= Seq::<u8>::empty());
            }
            return Err(());
        }
        let b = buf[i];
        let digit: u32 = (b % 128) as u32;
        proof {
            assert(buf@.skip(i as int)[0] == buf@[i as int]);
            assert(buf@.skip(i as int).drop_first() =~= buf@.skip(i as int + 1));
        }
        if mult == 0x10000000 {
            if b >= 128 || digit > 15 {
                return Err(());
            }
            return Ok((acc + digit * mult, i + 1));
        } else if b >= 128 {
            proof {
                assert((digit as int) * (mult as int) <= 127 * 0x200000) by (nonlinear_arith)
                    requires
                        0 <= digit as int <= 127,
                        0 <= mult as int <= 0x200000,
                ;
                assert((digit as int) * (mult as int) + (acc as int) < (mult as int) * 128)
                    by (nonlinear_arith)
                    requires
                        0 <= digit as int <= 127,
                        acc < mult,
                        0 <= mult as int,
                ;
            }
            acc = acc + digit * mult;
            mult = mult * 128;
            i = i + 1;
        } else {
            proof {
                assert((digit as int) * (mult as int) + (acc as int) < (mult as int) * 128)
                    by (nonlinear_arith)
                    requires
                        0 <= digit as int <= 127,
                        acc < mult,
                        0 <= mult as int,
                ;
            }
            return Ok((acc + digit * mult, i + 1));
        }
    }
}

/// The zigzag image of a signed level: nonnegative values map to the
/// even numbers, negative ones to the odd.
pub open spec fn zigzag(v: i32) -> int {
    if v >= 0 {
        2 * (v as int)
    } else {
        -2 * (v as int) - 1
    }
}

/// The level a zigzag value stands for.
pub open spec fn unzigzag(n: int) -> int {
    if n % 2 == 0 {
        n / 2
    } else {
        -(n / 2) - 1
    }
}

/// Unzigzag undoes zigzag.
pub proof fn lemma_zigzag_round_trip(v: i32)
    ensures
        0 <= zigzag(v) < 0x100000000,
        unzigzag(zigzag(v)) == v as int,
{
}

fn zigzag_enc(v: i32) -> (r: u32)
    ensures
        r as int == zigzag(v),
{
    if v >= 0 {
        (v as u32) * 2
    } else {
        let m = -(v + 1);
        (m as u32) * 2 + 1
    }
}

fn zigzag_dec(n: u32) -> (r: i32)
    ensures
        r as int == unzigzag(n as int),
{
    if n % 2 == 0 {
        (n / 2) as i32
    } else {
        let m = (n / 2) as i32;
        -m - 1
    }
}

/// The wire code of a resize mode.
pub open spec fn rtype_code(t: ResizeType) -> nat {
    match t {
        ResizeType::Normal => 0,
        ResizeType::SeamCarve => 1,
    }
}

/// The resize mode a wire code stands for; unknown codes degrade to
/// the normal mode.
pub open spec fn code_rtype(n: nat) -> ResizeType {
    if n == 1 {
        ResizeType::SeamCarve
    } else {
        ResizeType::Normal
    }
}

/// The wire code of a sampling filter.
pub open spec fn filter_code(f: SampleFilter) -> nat {
    match f {
        SampleFilter::Undefined => 0,
        SampleFilter::Nearest => 1,
        SampleFilter::Triangle => 2,
        SampleFilter::CatmullRom => 3,
        SampleFilter::Gaussian => 4,
        SampleFilter::Lanczos3 => 5,
    }
}

/// The sampling filter a wire code stands for; unknown codes degrade
/// to the undefined filter.
pub open spec fn code_filter(n: nat) -> SampleFilter {
    if n == 1 {
        SampleFilter::Nearest
    } else if n == 2 {
        SampleFilter::Triangle
    } else if n == 3 {
        SampleFilter::CatmullRom
    } else if n == 4 {
        SampleFilter::Gaussian
    } else if n == 5 {
        SampleFilter::Lanczos3
    } else {
        SampleFilter::Undefined
    }
}

/// The wire code of a tint preset.
pub open spec fn preset_code(p: FilterPreset) -> nat {
    match p {
        FilterPreset::Unspecified => 0,
        FilterPreset::Oceanic => 1,
        FilterPreset::Islands => 2,
        FilterPreset::Marine => 3,
    }
}

/// The tint preset a wire code stands for; unknown codes degrade to
/// the unspecified preset.
pub open spec fn code_preset(n: nat) -> FilterPreset {
    if n == 1 {
        FilterPreset::Oceanic
    } else if n == 2 {
        FilterPreset::Islands
    } else if n == 3 {
        FilterPreset::Marine
    } else {
        FilterPreset::Unspecified
    }
}

/// The bytes of a resize message: width, height, mode and filter, in
/// field order.
pub open spec fn enc_resize(r: Resize) -> Seq<u8> {
    seq![0x08u8] + varint(r.width as nat) + seq![0x10u8] + varint(r.height as nat) + seq![0x18u8]
        + varint(rtype_code(r.rtype)) + seq![0x20u8] + varint(filter_code(r.filter))
}

/// The bytes of a crop message: the four corner coordinates in order.
pub open spec fn enc_crop(c: Crop) -> Seq<u8> {
    seq![0x08u8] + varint(c.x1 as nat) + seq![0x10u8] + varint(c.y1 as nat) + seq![0x18u8]
        + varint(c.x2 as nat) + seq![0x20u8] + varint(c.y2 as nat)
}

/// The bytes of a contrast message: the zigzag-mapped level.
pub open spec fn enc_contrast(c: Contrast) -> Seq<u8> {
    seq![0x08u8] + varint(zigzag(c.contrast) as nat)
}

/// The bytes of a filter message: the preset code.
pub open spec fn enc_filter(f: Filter) -> Seq<u8> {
    seq![0x08u8] + varint(preset_code(f.filter))
}

/// The bytes of a watermark message: the two placement coordinates.
pub open spec fn enc_watermark(w: Watermark) -> Seq<u8> {
    seq![0x08u8] + varint(w.x as nat) + seq![0x10u8] + varint(w.y as nat)
}

/// The payload of one list element: a single length-delimited field
/// numbered by the operation's variant; an empty step encodes to
/// nothing.
pub open spec fn enc_spec_payload(sp: Spec) -> Seq<u8> {
    match sp.data {
        Option::None => Seq::<u8>::empty(),
        Option::Some(SpecData::Resize(r)) => seq![0x0au8] + varint(enc_resize(r).len())
            + enc_resize(r),
        Option::Some(SpecData::Crop(c)) => seq![0x12u8] + varint(enc_crop(c).len()) + enc_crop(c),
        Option::Some(SpecData::Flipv(_)) => seq![0x1au8] + varint(0),
        Option::Some(SpecData::Fliph(_)) => seq![0x22u8] + varint(0),
        Option::Some(SpecData::Contrast(c)) => seq![0x2au8] + varint(enc_contrast(c).len())
            + enc_contrast(c),
        Option::Some(SpecData::Filter(f)) => seq![0x32u8] + varint(enc_filter(f).len())
            + enc_filter(f),
        Option::Some(SpecData::Watermark(w)) => seq![0x3au8] + varint(enc_watermark(w).len())
            + enc_watermark(w),
    }
}

/// One list element on the wire: its payload behind the list field's
/// tag and a length.
pub open spec fn enc_item(sp: Spec) -> Seq<u8> {
    seq![0x0au8] + varint(enc_spec_payload(sp).len()) + enc_spec_payload(sp)
}

/// A whole operation list on the wire: its elements in order.
pub open spec fn enc_image_spec(l: Seq<Spec>) -> Seq<u8>
    decreases l.len(),
{
    if l.len() == 0 {
        Seq::<u8>::empty()
    } else {
        enc_item(l[0]) + enc_image_spec(l.drop_first())
    }
}

/// Consumes one expected byte.
pub open spec fn expect_byte(s: Seq<u8>, b: u8) -> Option<Seq<u8>> {
    if s.len() > 0 && s[0] == b {
        Some(s.drop_first())
    } else {
        None
    }
}

/// Decodes a resize message from exactly the given bytes.
pub open spec fn dec_resize(s: Seq<u8>) -> Option<Resize> {
    match expect_byte(s, 0x08) {
        None => None,
        Some(s1) => match dec_varint(s1) {
            None => None,
            Some((w, s2)) => match expect_byte(s2, 0x10) {
                None => None,
                Some(s3) => match dec_varint(s3) {
                    None => None,
                    Some((h, s4)) => match expect_byte(s4, 0x18) {
                        None => None,
                        Some(s5) => match dec_varint(s5) {
                            None => None,
                            Some((rt, s6)) => match expect_byte(s6, 0x20) {
                                None => None,
                                Some(s7) => match dec_varint(s7) {
                                    None => None,
                                    Some((f, s8)) => if s8.len() == 0 {
                                        Some(Resize {
                                            width: w as u32,
                                            height: h as u32,
                                            rtype: code_rtype(rt),
                                            filter: code_filter(f),
                                        })
                                    } else {
                                        None
                                    },
                                },
                            },
                        },
                    },
                },
            },
        },
    }
}

/// Decodes a crop message from exactly the given bytes.
pub open spec fn dec_crop(s: Seq<u8>) -> Option<Crop> {
    match expect_byte(s, 0x08) {
        None => None,
        Some(s1) => match dec_varint(s1) {
            None => None,
            Some((x1, s2)) => match expect_byte(s2, 0x10) {
                None => None,
                Some(s3) => match dec_varint(s3) {
                    None => None,
                    Some((y1, s4)) => match expect_byte(s4, 0x18) {
                        None => None,
                        Some(s5) => match dec_varint(s5) {
                            None => None,
                            Some((x2, s6)) => match expect_byte(s6, 0x20) {
                                None => None,
                                Some(s7) => match dec_varint(s7) {
                                    None => None,
                                    Some((y2, s8)) => if s8.len() == 0 {
                                        Some(Crop {
                                            x1: x1 as u32,
                                            y1: y1 as u32,
                                            x2: x2 as u32,
                                            y2: y2 as u32,
                                        })
                                    } else {
                                        None
                                    },
                                },
                            },
                        },
                    },
                },
            },
        },
    }
}

/// Decodes a contrast message from exactly the given bytes.
pub open spec fn dec_contrast(s: Seq<u8>) -> Option<Contrast> {
    match expect_byte(s, 0x08) {
        None => None,
        Some(s1) => match dec_varint(s1) {
            None => None,
            Some((z, s2)) => if s2.len() == 0 {
                Some(Contrast { contrast: unzigzag(z as int) as i32 })
            } else {
                None
            },
        },
    }
}

/// Decodes a filter message from exactly the given bytes.
pub open spec fn dec_filter(s: Seq<u8>) -> Option<Filter> {
    match expect_byte(s, 0x08) {
        None => None,
        Some(s1) => match dec_varint(s1) {
            None => None,
            Some((p, s2)) => if s2.len() == 0 {
                Some(Filter { filter: code_preset(p) })
            } else {
                None
            },
        },
    }
}

/// Decodes a watermark message from exactly the given bytes.
pub open spec fn dec_watermark(s: Seq<u8>) -> Option<Watermark> {
    match expect_byte(s, 0x08) {
        None => None,
        Some(s1) => match dec_varint(s1) {
            None => None,
            Some((x, s2)) => match expect_byte(s2, 0x10) {
                None => None,
                Some(s3) => match dec_varint(s3) {
                    None => None,
                    Some((y, s4)) => if s4.len() == 0 {
                        Some(Watermark { x: x as u32, y: y as u32 })
                    } else {
                        None
                    },
                },
            },
        },
    }
}

/// Whether a tag byte names an operation field this format does not
/// know; such a field is read and ignored.
pub open spec fn unknown_op_tag(b: u8) -> bool {
    b % 8 == 2 && b / 8 >= 8
}

/// Decodes one list element's payload: empty means an empty step, a
/// known field carries one operation, an unknown field is ignored.
pub open spec fn dec_spec_payload(s: Seq<u8>) -> Option<Spec> {
    if s.len() == 0 {
        Some(Spec { data: None })
    } else {
        let b = s[0];
        match dec_varint(s.drop_first()) {
            None => None,
            Some((n, body)) => if body.len() != n {
                None
            } else if b == 0x0a {
                match dec_resize(body) {
                    None => None,
                    Some(r) => Some(Spec { data: Some(SpecData::Resize(r)) }),
                }
            } else if b == 0x12 {
                match dec_crop(body) {
                    None => None,
                    Some(c) => Some(Spec { data: Some(SpecData::Crop(c)) }),
                }
            } else if b == 0x1a {
                if n == 0 {
                    Some(Spec { data: Some(SpecData::Flipv(Flipv {  })) })
                } else {
                    None
                }
            } else if b == 0x22 {
                if n == 0 {
                    Some(Spec { data: Some(SpecData::Fliph(Fliph {  })) })
                } else {
                    None
                }
            } else if b == 0x2a {
                match dec_contrast(body) {
                    None => None,
                    Some(c) => Some(Spec { data: Some(SpecData::Contrast(c)) }),
                }
            } else if b == 0x32 {
                match dec_filter(body) {
                    None => None,
                    Some(f) => Some(Spec { data: Some(SpecData::Filter(f)) }),
                }
            } else if b == 0x3a {
                match dec_watermark(body) {
                    None => None,
                    Some(w) => Some(Spec { data: Some(SpecData::Watermark(w)) }),
                }
            } else if unknown_op_tag(b) {
                Some(Spec { data: None })
            } else {
                None
            },
        }
    }
}

/// Decodes a whole operation list; `None` exactly when the bytes do
/// not frame one.
pub open spec fn dec_image_spec(s: Seq<u8>) -> Option<Seq<Spec>>
    decreases s.len(),
    via dec_image_spec_decreases
{
    if s.len() == 0 {
        Some(Seq::<Spec>::empty())
    } else {
        match expect_byte(s, 0x0a) {
            None => None,
            Some(s1) => match dec_varint(s1) {
                None => None,
                Some((n, s2)) => if s2.len() < n {
                    None
                } else {
                    match dec_spec_payload(s2.take(n as int)) {
                        None => None,
                        Some(sp) => match dec_image_spec(s2.skip(n as int)) {
                            None => None,
                            Some(tail) => Some(seq![sp] + tail),
                        },
                    }
                },
            },
        }
    }
}

/// A successful varint read consumes at least one byte.
proof fn lemma_dec_varint_consumes(s: Seq<u8>, mult: nat, acc: nat)
    ensures
        dec_varint_from(s, mult, acc) matches Some(t) ==> t.1.len() < s.len(),
    decreases s.len(),
{
    if s.len() > 0 {
        let b = s[0];
        let digit = (b % 128) as nat;
        if mult != 0x10000000 && b >= 128 {
            lemma_dec_varint_consumes(s.drop_first(), (mult * 128) as nat, (acc + digit * mult)
                as nat);
        }
    }
}

#[via_fn]
proof fn dec_image_spec_decreases(s: Seq<u8>) {
    if s.len() != 0 {
        match expect_byte(s, 0x0a) {
            None => {},
            Some(s1) => {
                lemma_dec_varint_consumes(s1, 1, 0);
            },
        }
    }
}

/// Consuming a tagged varint field from the head of a byte string.
proof fn lemma_field_step(tag: u8, v: nat, rest: Seq<u8>)
    requires
        v < 0x100000000,
    ensures
        expect_byte(seq![tag] + varint(v) + rest, tag) == Some(varint(v) + rest),
        dec_varint(varint(v) + rest) == Some((v, rest)),
{
    let s = seq![tag] + varint(v) + rest;
    assert(s[0] == tag);
    assert(s.len() > 0);
    assert(s.drop_first() =~= varint(v) + rest);
    lemma_varint_round_trip(v, rest);
}

/// Decoding a resize message undoes encoding it.
proof fn lemma_resize_round_trip(r: Resize)
    ensures
        dec_resize(enc_resize(r)) == Some(r),
        enc_resize(r).len() <= 24,
{
    let pw = varint(r.width as nat);
    let ph = varint(r.height as nat);
    let prt = varint(rtype_code(r.rtype));
    let pf = varint(filter_code(r.filter));
    let s3 = seq![0x20u8] + pf + Seq::<u8>::empty();
    let s2 = seq![0x18u8] + prt + s3;
    let s1 = seq![0x10u8] + ph + s2;
    let s0 = seq![0x08u8] + pw + s1;
    assert(enc_resize(r) =~= s0);
    lemma_field_step(0x08, r.width as nat, s1);
    lemma_field_step(0x10, r.height as nat, s2);
    lemma_field_step(0x18, rtype_code(r.rtype), s3);
    lemma_field_step(0x20, filter_code(r.filter), Seq::<u8>::empty());
    assert(code_rtype(rtype_code(r.rtype)) == r.rtype);
    assert(code_filter(filter_code(r.filter)) == r.filter);
    lemma_varint_len(r.width as nat);
    lemma_varint_len(r.height as nat);
    lemma_varint_len(rtype_code(r.rtype));
    lemma_varint_len(filter_code(r.filter));
}

/// Decoding a crop message undoes encoding it.
proof fn lemma_crop_round_trip(c: Crop)
    ensures
        dec_crop(enc_crop(c)) == Some(c),
        enc_crop(c).len() <= 24,
{
    let p1 = varint(c.x1 as nat);
    let p2 = varint(c.y1 as nat);
    let p3 = varint(c.x2 as nat);
    let p4 = varint(c.y2 as nat);
    let s3 = seq![0x20u8] + p4 + Seq::<u8>::empty();
    let s2 = seq![0x18u8] + p3 + s3;
    let s1 = seq![0x10u8] + p2 + s2;
    let s0 = seq![0x08u8] + p1 + s1;
    assert(enc_crop(c) =~= s0);
    lemma_field_step(0x08, c.x1 as nat, s1);
    lemma_field_step(0x10, c.y1 as nat, s2);
    lemma_field_step(0x18, c.x2 as nat, s3);
    lemma_field_step(0x20, c.y2 as nat, Seq::<u8>::empty());
    lemma_varint_len(c.x1 as nat);
    lemma_varint_len(c.y1 as nat);
    lemma_varint_len(c.x2 as nat);
    lemma_varint_len(c.y2 as nat);
}

/// Decoding a contrast message undoes encoding it.
proof fn lemma_contrast_round_trip(c: Contrast)
    ensures
        dec_contrast(enc_contrast(c)) == Some(c),
        enc_contrast(c).len() <= 6,
{
    lemma_zigzag_round_trip(c.contrast);
    let pz = varint(zigzag(c.contrast) as nat);
    assert(enc_contrast(c) =~= seq![0x08u8] + pz + Seq::<u8>::empty());
    lemma_field_step(0x08, zigzag(c.contrast) as nat, Seq::<u8>::empty());
    lemma_varint_len(zigzag(c.contrast) as nat);
}

/// Decoding a filter message undoes encoding it.
proof fn lemma_filter_round_trip(f: Filter)
    ensures
        dec_filter(enc_filter(f)) == Some(f),
        enc_filter(f).len() <= 6,
{
    let pp = varint(preset_code(f.filter));
    assert(enc_filter(f) =~= seq![0x08u8] + pp + Seq::<u8>::empty());
    lemma_field_step(0x08, preset_code(f.filter), Seq::<u8>::empty());
    assert(code_preset(preset_code(f.filter)) == f.filter);
    lemma_varint_len(preset_code(f.filter));
}

/// Decoding a watermark message undoes encoding it.
proof fn lemma_watermark_round_trip(w: Watermark)
    ensures
        dec_watermark(enc_watermark(w)) == Some(w),
        enc_watermark(w).len() <= 12,
{
    let px = varint(w.x as nat);
    let py = varint(w.y as nat);
    let s1 = seq![0x10u8] + py + Seq::<u8>::empty();
    let s0 = seq![0x08u8] + px + s1;
    assert(enc_watermark(w) =~= s0);
    lemma_field_step(0x08, w.x as nat, s1);
    lemma_field_step(0x10, w.y as nat, Seq::<u8>::empty());
    lemma_varint_len(w.x as nat);
    lemma_varint_len(w.y as nat);
}

/// Every element payload is short, so its length always fits a varint.
pub proof fn lemma_payload_len(sp: Spec)
    ensures
        enc_spec_payload(sp).len() <= 32,
{
    match sp.data {
        Option::None => {},
        Option::Some(SpecData::Resize(r)) => {
            lemma_resize_round_trip(r);
        },
        Option::Some(SpecData::Crop(c)) => {
            lemma_crop_round_trip(c);
        },
        Option::Some(SpecData::Flipv(_)) => {},
        Option::Some(SpecData::Fliph(_)) => {},
        Option::Some(SpecData::Contrast(c)) => {
            lemma_contrast_round_trip(c);
        },
        Option::Some(SpecData::Filter(f)) => {
            lemma_filter_round_trip(f);
        },
        Option::Some(SpecData::Watermark(w)) => {
            lemma_watermark_round_trip(w);
        },
    }
}

/// Decoding one element's payload undoes encoding it.
#[verifier::rlimit(80)]
proof fn lemma_spec_payload_round_trip(sp: Spec)
    ensures
        dec_spec_payload(enc_spec_payload(sp)) == Some(sp),
{
    let s = enc_spec_payload(sp);
    match sp.data {
        Option::None => {
            assert(s.len() == 0);
        },
        Option::Some(SpecData::Resize(r)) => {
            let body = enc_resize(r);
            lemma_resize_round_trip(r);
            assert(s[0] == 0x0au8);
            assert(s.drop_first() =~= varint(body.len()) + body);
            lemma_varint_round_trip(body.len(), body);
        },
        Option::Some(SpecData::Crop(c)) => {
            let body = enc_crop(c);
            lemma_crop_round_trip(c);
            assert(s[0] == 0x12u8);
            assert(s.drop_first() =~= varint(body.len()) + body);
            lemma_varint_round_trip(body.len(), body);
        },
        Option::Some(SpecData::Flipv(_)) => {
            assert(s[0] == 0x1au8);
            assert(s.drop_first() =~= varint(0) + Seq::<u8>::empty());
            lemma_varint_round_trip(0, Seq::<u8>::empty());
        },
        Option::Some(SpecData::Fliph(_)) => {
            assert(s[0] == 0x22u8);
            assert(s.drop_first() =~= varint(0) + Seq::<u8>::empty());
            lemma_varint_round_trip(0, Seq::<u8>::empty());
        },
        Option::Some(SpecData::Contrast(c)) => {
            let body = enc_contrast(c);
            lemma_contrast_round_trip(c);
            assert(s[0] == 0x2au8);
            assert(s.drop_first() =~= varint(body.len()) + body);
            lemma_varint_round_trip(body.len(), body);
        },
        Option::Some(SpecData::Filter(f)) => {
            let body = enc_filter(f);
            lemma_filter_round_trip(f);
            assert(s[0] == 0x32u8);
            assert(s.drop_first() =~= varint(body.len()) + body);
            lemma_varint_round_trip(body.len(), body);
        },
        Option::Some(SpecData::Watermark(w)) => {
            let body = enc_watermark(w);
            lemma_watermark_round_trip(w);
            assert(s[0] == 0x3au8);
            assert(s.drop_first() =~= varint(body.len()) + body);
            lemma_varint_round_trip(body.len(), body);
        },
    }
}

/// Decoding an encoded operation list returns exactly that list.
pub proof fn lemma_image_spec_round_trip(l: Seq<Spec>)
    ensures
        dec_image_spec(enc_image_spec(l)) == Some(l),
    decreases l.len(),
{
    if l.len() == 0 {
        assert(dec_image_spec(enc_image_spec(l)) == Some(Seq::<Spec>::empty()));
        assert(l =~= Seq::<Spec>::empty());
    } else {
        let sp = l[0];
        let body = enc_spec_payload(sp);
        let tail = enc_image_spec(l.drop_first());
        let s = enc_image_spec(l);
        lemma_payload_len(sp);
        assert(s =~= seq![0x0au8] + varint(body.len()) + (body + tail));
        lemma_field_step(0x0a, body.len(), body + tail);
        let s2 = body + tail;
        assert(s2.take(body.len() as int) =~= body);
        assert(s2.skip(body.len() as int) =~= tail);
        lemma_spec_payload_round_trip(sp);
        lemma_image_spec_round_trip(l.drop_first());
        assert(seq![sp] + l.drop_first() =~= l);
    }
}

/// Appending one element to a list appends its wire form.
pub proof fn lemma_enc_image_spec_push(l: Seq<Spec>, sp: Spec)
    ensures
        enc_image_spec(l.push(sp)) == enc_image_spec(l) + enc_item(sp),
    decreases l.len(),
{
    let s = l.push(sp);
    if l.len() == 0 {
        assert(s.drop_first() =~= Seq::<Spec>::empty());
        assert(enc_image_spec(s.drop_first()) == Seq::<u8>::empty());
        assert(enc_image_spec(s) =~= enc_image_spec(l) + enc_item(sp));
    } else {
        assert(s.drop_first() =~= l.drop_first().push(sp));
        lemma_enc_image_spec_push(l.drop_first(), sp);
        assert(enc_image_spec(s) =~= enc_image_spec(l) + enc_item(sp));
    }
}

fn append_bytes(out: &mut Vec<u8>, src: &Vec<u8>)
    ensures
        final(out)@ == old(out)@ + src@,
{
    let n = src.len();
    let mut i: usize = 0;
    while i < n
        invariant
            0 <= i <= n,
            n == src@.len(),
            out@ == old(out)@ + src@.take(i as int),
        decreases n - i,
    {
        let b = src[i];
        proof {
            assert(old(out)@ + src@.take(i as int + 1) =~= (old(out)@ + src@.take(i as int)).push(
                b));
        }
        out.push(b);
        i = i + 1;
    }
    proof {
        assert(old(out)@ + src@.take(n as int) =~= old(out)@ + src@);
    }
}

fn encode_resize(r: &Resize) -> (out: Vec<u8>)
    ensures
        out@ == enc_resize(*r),
{
    let mut out: Vec<u8> = Vec::new();
    out.push(0x08);
    write_varint(&mut out, r.width);
    out.push(0x10);
    write_varint(&mut out, r.height);
    out.push(0x18);
    let rt: u32 = match r.rtype {
        ResizeType::Normal => 0,
        ResizeType::SeamCarve => 1,
    };
    write_varint(&mut out, rt);
    out.push(0x20);
    let f: u32 = match r.filter {
        SampleFilter::Undefined => 0,
        SampleFilter::Nearest => 1,
        SampleFilter::Triangle => 2,
        SampleFilter::CatmullRom => 3,
        SampleFilter::Gaussian => 4,
        SampleFilter::Lanczos3 => 5,
    };
    write_varint(&mut out, f);
    proof {
        assert(out@ =~= enc_resize(*r));
    }
    out
}

fn encode_crop(c: &Crop) -> (out: Vec<u8>)
    ensures
        out@ == enc_crop(*c),
{
    let mut out: Vec<u8> = Vec::new();
    out.push(0x08);
    write_varint(&mut out, c.x1);
    out.push(0x10);
    write_varint(&mut out, c.y1);
    out.push(0x18);
    write_varint(&mut out, c.x2);
    out.push(0x20);
    write_varint(&mut out, c.y2);
    proof {
        assert(out@ =~= enc_crop(*c));
    }
    out
}

fn encode_contrast(c: &Contrast) -> (out: Vec<u8>)
    ensures
        out@ == enc_contrast(*c),
{
    let mut out: Vec<u8> = Vec::new();
    out.push(0x08);
    let z = zigzag_enc(c.contrast);
    write_varint(&mut out, z);
    proof {
        assert(out@ =~= enc_contrast(*c));
    }
    out
}

fn encode_filter(f: &Filter) -> (out: Vec<u8>)
    ensures
        out@ == enc_filter(*f),
{
    let mut out: Vec<u8> = Vec::new();
    out.push(0x08);
    let p: u32 = match f.filter {
        FilterPreset::Unspecified => 0,
        FilterPreset::Oceanic => 1,
        FilterPreset::Islands => 2,
        FilterPreset::Marine => 3,
    };
    write_varint(&mut out, p);
    proof {
        assert(out@ =~= enc_filter(*f));
    }
    out
}

fn encode_watermark(w: &Watermark) -> (out: Vec<u8>)
    ensures
        out@ == enc_watermark(*w),
{
    let mut out: Vec<u8> = Vec::new();
    out.push(0x08);
    write_varint(&mut out, w.x);
    out.push(0x10);
    write_varint(&mut out, w.y);
    proof {
        assert(out@ =~= enc_watermark(*w));
    }
    out
}

fn encode_spec(sp: &Spec) -> (out: Vec<u8>)
    ensures
        out@ == enc_spec_payload(*sp),
{
    proof {
        lemma_payload_len(*sp);
    }
    let mut out: Vec<u8> = Vec::new();
    match &sp.data {
        Option::None => {},
        Option::Some(SpecData::Resize(r)) => {
            let body = encode_resize(r);
            out.push(0x0a);
            write_varint(&mut out, body.len() as u32);
            append_bytes(&mut out, &body);
        },
        Option::Some(SpecData::Crop(c)) => {
            let body = encode_crop(c);
            out.push(0x12);
            write_varint(&mut out, body.len() as u32);
            append_bytes(&mut out, &body);
        },
        Option::Some(SpecData::Flipv(_)) => {
            out.push(0x1a);
            write_varint(&mut out, 0);
        },
        Option::Some(SpecData::Fliph(_)) => {
            out.push(0x22);
            write_varint(&mut out, 0);
        },
        Option::Some(SpecData::Contrast(c)) => {
            let body = encode_contrast(c);
            out.push(0x2a);
            write_varint(&mut out, body.len() as u32);
            append_bytes(&mut out, &body);
        },
        Option::Some(SpecData::Filter(f)) => {
            let body = encode_filter(f);
            out.push(0x32);
            write_varint(&mut out, body.len() as u32);
            append_bytes(&mut out, &body);
        },
        Option::Some(SpecData::Watermark(w)) => {
            let body = encode_watermark(w);
            out.push(0x3a);
            write_varint(&mut out, body.len() as u32);
            append_bytes(&mut out, &body);
        },
    }
    proof {
        assert(out@ =~= enc_spec_payload(*sp));
    }
    out
}

/// Serializes an operation list to its compact binary form.
pub fn encode_image_spec(is: &ImageSpec) -> (out: Vec<u8>)
    ensures
        out@ == enc_image_spec(is.specs@),
{
    let mut out: Vec<u8> = Vec::new();
    let n = is.specs.len();
    let mut i: usize = 0;
    proof {
        assert(is.specs@.take(0) =~= Seq::<Spec>::empty());
    }
    while i < n
        invariant
            0 <= i <= n,
            n == is.specs@.len(),
            out@ == enc_image_spec(is.specs@.take(i as int)),
        decreases n - i,
    {
        let sp = &is.specs[i];
        proof {
            lemma_payload_len(*sp);
        }
        let body = encode_spec(sp);
        out.push(0x0a);
        write_varint(&mut out, body.len() as u32);
        append_bytes(&mut out, &body);
        proof {
            lemma_enc_image_spec_push(is.specs@.take(i as int), *sp);
            assert(is.specs@.take(i as int + 1) =~= is.specs@.take(i as int).push(*sp));
            assert(out@ =~= enc_image_spec(is.specs@.take(i as int)) + enc_item(*sp));
        }
        i = i + 1;
    }
    proof {
        assert(is.specs@.take(n as int) =~= is.specs@);
    }
    out
}

/// Reads one expected tag byte and the varint field behind it.
fn read_field(buf: &Vec<u8>, pos: usize, tag: u8) -> (r: Result<(u32, usize), ()>)
    requires
        pos <= buf@.len(),
    ensures
        r matches Ok(t) ==> pos + 1 <= buf@.len() && expect_byte(buf@.skip(pos as int), tag)
            == Some(buf@.skip(pos as int + 1)) && dec_varint(buf@.skip(pos as int + 1)) == Some(
            (t.0 as nat, buf@.skip(t.1 as int))) && pos < t.1 <= buf@.len(),
        r is Err ==> (match expect_byte(buf@.skip(pos as int), tag) {
            Option::None => true,
            Option::Some(s1) => dec_varint(s1) is None,
        }),
{
    if pos >= buf.len() || buf[pos] != tag {
        proof {
            if pos < buf@.len() {
                assert(buf@.skip(pos as int)[0] == buf@[pos as int]);
            }
        }
        return Err(());
    }
    proof {
        assert(buf@.skip(pos as int)[0] == buf@[pos as int]);
        assert(buf@.skip(pos as int).drop_first() =~= buf@.skip(pos as int + 1));
    }
    match read_varint(buf, pos + 1) {
        Ok(t) => Ok(t),
        Err(()) => Err(()),
    }
}

fn decode_resize(payload: &Vec<u8>) -> (r: Result<Resize, ()>)
    ensures
        r matches Ok(v) ==> dec_resize(payload@) == Some(v),
        r is Err ==> dec_resize(payload@) is None,
{
    proof {
        assert(payload@.skip(0) =~= payload@);
    }
    let (w, p1) = match read_field(payload, 0, 0x08) {
        Ok(t) => t,
        Err(()) => {
            return Err(());
        },
    };
    let (h, p2) = match read_field(payload, p1, 0x10) {
        Ok(t) => t,
        Err(()) => {
            return Err(());
        },
    };
    let (rt, p3) = match read_field(payload, p2, 0x18) {
        Ok(t) => t,
        Err(()) => {
            return Err(());
        },
    };
    let (f, p4) = match read_field(payload, p3, 0x20) {
        Ok(t) => t,
        Err(()) => {
            return Err(());
        },
    };
    if p4 != payload.len() {
        return Err(());
    }
    proof {
        assert(payload@.skip(p4 as int) =~= Seq::<u8>::empty());
    }
    let rtype = if rt == 1 {
        ResizeType::SeamCarve
    } else {
        ResizeType::Normal
    };
    let filter = if f == 1 {
        SampleFilter::Nearest
    } else if f == 2 {
        SampleFilter::Triangle
    } else if f == 3 {
        SampleFilter::CatmullRom
    } else if f == 4 {
        SampleFilter::Gaussian
    } else if f == 5 {
        SampleFilter::Lanczos3
    } else {
        SampleFilter::Undefined
    };
    Ok(Resize { width: w, height: h, rtype, filter })
}

fn decode_crop(payload: &Vec<u8>) -> (r: Result<Crop, ()>)
    ensures
        r matches Ok(v) ==> dec_crop(payload@) == Some(v),
        r is Err ==> dec_crop(payload@) is None,
{
    proof {
        assert(payload@.skip(0) =~= payload@);
    }
    let (x1, p1) = match read_field(payload, 0, 0x08) {
        Ok(t) => t,
        Err(()) => {
            return Err(());
        },
    };
    let (y1, p2) = match read_field(payload, p1, 0x10) {
        Ok(t) => t,
        Err(()) => {
            return Err(());
        },
    };
    let (x2, p3) = match read_field(payload, p2, 0x18) {
        Ok(t) => t,
        Err(()) => {
            return Err(());
        },
    };
    let (y2, p4) = match read_field(payload, p3, 0x20) {
        Ok(t) => t,
        Err(()) => {
            return Err(());
        },
    };
    if p4 != payload.len() {
        return Err(());
    }
    proof {
        assert(payload@.skip(p4 as int) =~= Seq::<u8>::empty());
    }
    Ok(Crop { x1, y1, x2, y2 })
}

fn decode_contrast(payload: &Vec<u8>) -> (r: Result<Contrast, ()>)
    ensures
        r matches Ok(v) ==> dec_contrast(payload@) == Some(v),
        r is Err ==> dec_contrast(payload@) is None,
{
    proof {
        assert(payload@.skip(0) =~= payload@);
    }
    let (z, p1) = match read_field(payload, 0, 0x08) {
        Ok(t) => t,
        Err(()) => {
            return Err(());
        },
    };
    if p1 != payload.len() {
        return Err(());
    }
    proof {
        assert(payload@.skip(p1 as int) =~= Seq::<u8>::empty());
    }
    let level = zigzag_dec(z);
    Ok(Contrast { contrast: level })
}

fn decode_filter(payload: &Vec<u8>) -> (r: Result<Filter, ()>)
    ensures
        r matches Ok(v) ==> dec_filter(payload@) == Some(v),
        r is Err ==> dec_filter(payload@) is None,
{
    proof {
        assert(payload@.skip(0) =~= payload@);
    }
    let (p, p1) = match read_field(payload, 0, 0x08) {
        Ok(t) => t,
        Err(()) => {
            return Err(());
        },
    };
    if p1 != payload.len() {
        return Err(());
    }
    proof {
        assert(payload@.skip(p1 as int) =~= Seq::<u8>::empty());
    }
    let preset = if p == 1 {
        FilterPreset::Oceanic
    } else if p == 2 {
        FilterPreset::Islands
    } else if p == 3 {
        FilterPreset::Marine
    } else {
        FilterPreset::Unspecified
    };
    Ok(Filter { filter: preset })
}

fn decode_watermark(payload: &Vec<u8>) -> (r: Result<Watermark, ()>)
    ensures
        r matches Ok(v) ==> dec_watermark(payload@) == Some(v),
        r is Err ==> dec_watermark(payload@) is None,
{
    proof {
        assert(payload@.skip(0) =~= payload@);
    }
    let (x, p1) = match read_field(payload, 0, 0x08) {
        Ok(t) => t,
        Err(()) => {
            return Err(());
        },
    };
    let (y, p2) = match read_field(payload, p1, 0x10) {
        Ok(t) => t,
        Err(()) => {
            return Err(());
        },
    };
    if p2 != payload.len() {
        return Err(());
    }
    proof {
        assert(payload@.skip(p2 as int) =~= Seq::<u8>::empty());
    }
    Ok(Watermark { x, y })
}

fn decode_spec(payload: &Vec<u8>) -> (r: Result<Spec, ()>)
    ensures
        r matches Ok(v) ==> dec_spec_payload(payload@) == Some(v),
        r is Err ==> dec_spec_payload(payload@) is None,
{
    let len = payload.len();
    if len == 0 {
        return Ok(Spec { data: None });
    }
    let b = payload[0];
    proof {
        assert(payload@.drop_first() =~= payload@.skip(1));
    }
    let (n, pos) = match read_varint(payload, 1) {
        Ok(t) => t,
        Err(()) => {
            return Err(());
        },
    };
    if (len - pos) as u64 != n as u64 {
        return Err(());
    }
    let body = copy_range(payload, pos, len - pos);
    proof {
        assert(body@ =~= payload@.skip(pos as int));
    }
    if b == 0x0a {
        match decode_resize(&body) {
            Ok(v) => Ok(Spec { data: Some(SpecData::Resize(v)) }),
            Err(()) => Err(()),
        }
    } else if b == 0x12 {
        match decode_crop(&body) {
            Ok(v) => Ok(Spec { data: Some(SpecData::Crop(v)) }),
            Err(()) => Err(()),
        }
    } else if b == 0x1a {
        if n == 0 {
            Ok(Spec { data: Some(SpecData::Flipv(Flipv {  })) })
        } else {
            Err(())
        }
    } else if b == 0x22 {
        if n == 0 {
            Ok(Spec { data: Some(SpecData::Fliph(Fliph {  })) })
        } else {
            Err(())
        }
    } else if b == 0x2a {
        match decode_contrast(&body) {
            Ok(v) => Ok(Spec { data: Some(SpecData::Contrast(v)) }),
            Err(()) => Err(()),
        }
    } else if b == 0x32 {
        match decode_filter(&body) {
            Ok(v) => Ok(Spec { data: Some(SpecData::Filter(v)) }),
            Err(()) => Err(()),
        }
    } else if b == 0x3a {
        match decode_watermark(&body) {
            Ok(v) => Ok(Spec { data: Some(SpecData::Watermark(v)) }),
            Err(()) => Err(()),
        }
    } else if b % 8 == 2 && b / 8 >= 8 {
        Ok(Spec { data: None })
    } else {
        Err(())
    }
}

/// Parses a compact binary operation list; fails exactly on bytes that
/// do not frame one.
pub fn decode_image_spec(buf: &Vec<u8>) -> (r: Result<ImageSpec, SpecDecodeError>)
    ensures
        r matches Ok(v) ==> dec_image_spec(buf@) == Some(v.specs@),
        r is Err ==> dec_image_spec(buf@) is None,
{
    let len = buf.len();
    let mut acc: Vec<Spec> = Vec::new();
    let mut pos: usize = 0;
    proof {
        assert(buf@.skip(0) =~= buf@);
    }
    while pos < len
        invariant
            0 <= pos <= len,
            len == buf@.len(),
            dec_image_spec(buf@.skip(pos as int)) matches Some(tail) ==> dec_image_spec(buf@)
                == Some(acc@ + tail),
            dec_image_spec(buf@.skip(pos as int)) is None ==> dec_image_spec(buf@) is None,
        decreases len - pos,
    {
        let ghost s = buf@.skip(pos as int);
        if buf[pos] != 0x0a {
            proof {
                assert(s[0] == buf@[pos as int]);
            }
            return Err(SpecDecodeError::InvalidData);
        }
        proof {
            assert(s[0] == buf@[pos as int]);
            assert(s.drop_first() =~= buf@.skip(pos as int + 1));
        }
        let (n, pos2) = match read_varint(buf, pos + 1) {
            Ok(t) => t,
            Err(()) => {
                return Err(SpecDecodeError::InvalidData);
            },
        };
        if ((len - pos2) as u64) < n as u64 {
            return Err(SpecDecodeError::InvalidData);
        }
        let nn = n as usize;
        let body = copy_range(buf, pos2, nn);
        proof {
            assert(body@ =~= buf@.skip(pos2 as int).take(n as int));
        }
        let sp = match decode_spec(&body) {
            Ok(v) => v,
            Err(()) => {
                return Err(SpecDecodeError::InvalidData);
            },
        };
        proof {
            assert(buf@.skip(pos2 as int).skip(n as int) =~= buf@.skip(pos2 as int + n as int));
            match dec_image_spec(buf@.skip(pos2 as int + n as int)) {
                Option::Some(t) => {
                    assert(dec_image_spec(s) == Some(seq![sp] + t));
                    assert(acc@ + (seq![sp] + t) =~= acc@.push(sp) + t);
                },
                Option::None => {},
            }
        }
        acc.push(sp);
        pos = pos2 + nn;
    }
    proof {
        assert(buf@.skip(pos as int) =~= Seq::<u8>::empty());
        assert(acc@ + Seq::<Spec>::empty() =~= acc@);
    }
    Ok(ImageSpec { specs: acc })
}

/// What base64's URL-safe unpadded engine makes of a byte string; a
/// function of the bytes alone.
pub uninterp spec fn b64_of(bytes: Seq<u8>) -> Seq<char>;

/// A character of the URL-safe base64 alphabet: `A`-`Z`, `a`-`z`,
/// `0`-`9`, `-` or `_`; in particular never the `=` padding.
pub open spec fn b64url_char(c: char) -> bool {
    ||| 65 <= c as int <= 90
    ||| 97 <= c as int <= 122
    ||| 48 <= c as int <= 57
    ||| c as int == 45
    ||| c as int == 95
}

/// Relies on base64's `URL_SAFE_NO_PAD` engine: `encode` returns the
/// URL-safe unpadded encoding, which depends on the bytes alone and
/// uses only the URL-safe alphabet, without padding.
#[verifier::external_body]
fn b64_encode(data: &Vec<u8>) -> (r: String)
    ensures
        r@ == b64_of(data@),
        forall|i: int| 0 <= i < r@.len() ==> b64url_char(#[trigger] r@[i]),
{
    base64::engine::general_purpose::URL_SAFE_NO_PAD.encode(data.as_slice())
}

/// Relies on base64's `URL_SAFE_NO_PAD` engine: `decode` inverts
/// `encode`, so a string that is the encoding of some bytes decodes
/// successfully to exactly those bytes.
#[verifier::external_body]
fn b64_decode(s: &str) -> (r: Result<Vec<u8>, ()>)
    ensures
        r matches Ok(v) ==> forall|b: Seq<u8>| s@ == #[trigger] b64_of(b) ==> v@ == b,
        r is Err ==> forall|b: Seq<u8>| s@ != #[trigger] b64_of(b),
{
    match base64::engine::general_purpose::URL_SAFE_NO_PAD.decode(s) {
        Ok(v) => Ok(v),
        Err(_) => Err(()),
    }
}

impl ImageSpec {
    /// The transport form of this operation list: its compact binary
    /// serialization in URL-safe unpadded base64. Equal lists encode
    /// to equal strings, and the string holds only characters of the
    /// URL-safe alphabet, never padding.
    pub fn to_base64(&self) -> (r: String)
        ensures
            r@ == b64_of(enc_image_spec(self.specs@)),
            forall|i: int| 0 <= i < r@.len() ==> b64url_char(#[trigger] r@[i]),
    {
        let bytes = encode_image_spec(self);
        b64_encode(&bytes)
    }

    /// Decodes a transport string back into an operation list. Any
    /// string produced by `to_base64` decodes to exactly the list it
    /// was produced from.
    pub fn try_from_base64(s: &str) -> (r: Result<ImageSpec, SpecDecodeError>)
        ensures
            forall|l: Seq<Spec>| s@ == b64_of(#[trigger] enc_image_spec(l)) ==> (r matches Ok(v)
                && v.specs@ == l),
    {
        let bytes = match b64_decode(s) {
            Ok(v) => v,
            Err(()) => {
                proof {
                    assert forall|l: Seq<Spec>| s@ != b64_of(#[trigger] enc_image_spec(l)) by {
                        if s@ == b64_of(enc_image_spec(l)) {
                        }
                    }
                }
                return Err(SpecDecodeError::InvalidBase64);
            },
        };
        match decode_image_spec(&bytes) {
            Ok(v) => {
                proof {
                    assert forall|l: Seq<Spec>| s@ == b64_of(#[trigger] enc_image_spec(l))
                        implies v.specs@ == l by {
                        assert(bytes@ == enc_image_spec(l));
                        lemma_image_spec_round_trip(l);
                    }
                }
                Ok(v)
            },
            Err(e) => {
                proof {
                    assert forall|l: Seq<Spec>| s@ != b64_of(#[trigger] enc_image_spec(l)) by {
                        if s@ == b64_of(enc_image_spec(l)) {
                            assert(bytes@ == enc_image_spec(l));
                            lemma_image_spec_round_trip(l);
                        }
                    }
                }
                Err(e)
            },
        }
    }
}

fn copy_range(buf: &Vec<u8>, start: usize, n: usize) -> (r: Vec<u8>)
    requires
        start + n <= buf@.len(),
    ensures
        r@ == buf@.subrange(start as int, start as int + n as int),
{
    let mut out: Vec<u8> = Vec::new();
    let len = buf.len();
    let mut i: usize = 0;
    while i < n
        invariant
            0 <= i <= n,
            len == buf@.len(),
            start + n <= len,
            out@ == buf@.subrange(start as int, start as int + i as int),
        decreases n - i,
    {
        let b = buf[start + i];
        proof {
            assert(buf@.subrange(start as int, start as int + i as int + 1) =~= buf@.subrange(
                start as int, start as int + i as int).push(b));
        }
        out.push(b);
        i = i + 1;
    }
    out
}

} // verus!
