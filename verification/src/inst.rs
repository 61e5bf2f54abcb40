//! Instruction records and the grammar of trace lines.
//!
//! A trace line has five space-separated fields: a functional-unit class, a
//! destination register token, two source register tokens, and a latency.
//! A register token is a one-letter class prefix (`f` or `r`) followed by a
//! decimal index; anything else stands for "no register". A line whose five
//! fields cannot be read this way is malformed and is reported as an error,
//! to be dropped by the caller.

use vstd::prelude::*;
use vstd::string::StringSliceAdditionalSpecFns;

use crate::reg::VReg;

verus! {

/// One trace entry: functional-unit class, optional destination register,
/// up to two optional source registers, and the remaining execution latency,
/// which the execute stage decrements in place.
#[derive(Clone, Copy, Debug)]
pub struct Inst {
    pub fu: u32,
    pub rt: Option<VReg>,
    pub rs1: Option<VReg>,
    pub rs2: Option<VReg>,
    pub delay: u32,
}

/// The byte is an ASCII decimal digit.
pub open spec fn is_digit(b: u8) -> bool {
    48 <= b && b <= 57
}

/// Every byte of the sequence is an ASCII decimal digit.
pub open spec fn all_digits(s: Seq<u8>) -> bool {
    forall|i: int| 0 <= i < s.len() ==> is_digit(#[trigger] s[i])
}

/// The value of a sequence of ASCII digits read as a decimal numeral.
pub open spec fn digits_val(s: Seq<u8>) -> int
    decreases s.len(),
{
    if s.len() == 0 {
        0
    } else {
        digits_val(s.drop_last()) * 10 + (s.last() - 48)
    }
}

/// How a numeric field parses: one or more decimal digits whose value fits
/// in a `u32`, else nothing.
pub open spec fn spec_parse_u32(s: Seq<u8>) -> Option<u32> {
    if s.len() >= 1 && all_digits(s) && digits_val(s) <= u32::MAX {
        Some(digits_val(s) as u32)
    } else {
        None
    }
}

/// How a register token parses: `f` or `r` followed by a decimal index,
/// else no register.
pub open spec fn spec_parse_reg(s: Seq<u8>) -> Option<VReg> {
    if s.len() >= 2 && (s[0] == 102 || s[0] == 114) {
        match spec_parse_u32(s.skip(1)) {
            Some(x) => if s[0] == 102 {
                Some(VReg::F(x))
            } else {
                Some(VReg::R(x))
            },
            None => None,
        }
    } else {
        None
    }
}

/// The fields of a byte sequence, split at every space byte. Splitting the
/// empty sequence gives one empty field, and every space adds a field, so
/// the result is never empty.
pub open spec fn spec_split(s: Seq<u8>) -> Seq<Seq<u8>>
    decreases s.len(),
{
    if s.len() == 0 {
        seq![Seq::<u8>::empty()]
    } else if s.last() == 32 {
        spec_split(s.drop_last()).push(Seq::<u8>::empty())
    } else {
        let r = spec_split(s.drop_last());
        r.update(r.len() - 1, r.last().push(s.last()))
    }
}

/// How a whole trace line parses: exactly five fields, of which the first
/// and last are numeric; the middle three are register tokens, each of which
/// may stand for "no register".
pub open spec fn spec_parse_line(s: Seq<u8>) -> Option<Inst> {
    let f = spec_split(s);
    if f.len() == 5 {
        match (spec_parse_u32(f[0]), spec_parse_u32(f[4])) {
            (Some(fu), Some(delay)) => Some(
                Inst {
                    fu,
                    rt: spec_parse_reg(f[1]),
                    rs1: spec_parse_reg(f[2]),
                    rs2: spec_parse_reg(f[3]),
                    delay,
                },
            ),
            _ => None,
        }
    } else {
        None
    }
}

/// A sequence of digits has a non-negative value.
proof fn lemma_digits_val_nonneg(s: Seq<u8>)
    requires
        all_digits(s),
    ensures
        digits_val(s) >= 0,
    decreases s.len(),
{
    if s.len() > 0 {
        assert(is_digit(s[s.len() - 1]));
        assert(all_digits(s.drop_last()));
        lemma_digits_val_nonneg(s.drop_last());
    }
}

/// Reading more digits never shrinks the value of a numeral.
proof fn lemma_digits_val_mono(s: Seq<u8>, i: int)
    requires
        0 <= i <= s.len(),
        all_digits(s),
    ensures
        digits_val(s.take(i)) <= digits_val(s),
    decreases s.len() - i,
{
    if i == s.len() {
        assert(s.take(i) =~= s);
    } else {
        assert(all_digits(s.take(i)));
        lemma_digits_val_nonneg(s.take(i));
        assert(s.take(i + 1).drop_last() =~= s.take(i));
        assert(is_digit(s[i]));
        assert(digits_val(s.take(i + 1)) == digits_val(s.take(i)) * 10 + (s[i] - 48));
        lemma_digits_val_mono(s, i + 1);
    }
}

/// Reads a decimal `u32` from a whole byte field.
pub fn parse_u32_bytes(s: &[u8]) -> (r: Option<u32>)
    ensures
        r == spec_parse_u32(s@),
{
    if s.len() == 0 {
        return None;
    }
    let mut val: u64 = 0;
    let mut i: usize = 0;
    while i < s.len()
        invariant
            0 <= i <= s@.len(),
            all_digits(s@.take(i as int)),
            val == digits_val(s@.take(i as int)),
            val <= u32::MAX,
        decreases s@.len() - i,
    {
        let b = s[i];
        if b < 48 || b > 57 {
            assert(!is_digit(s@[i as int]));
            return None;
        }
        assert(s@.take(i as int + 1).drop_last() =~= s@.take(i as int));
        assert(all_digits(s@.take(i as int + 1)));
        val = val * 10 + ((b - 48) as u64);
        i = i + 1;
        if val > u32::MAX as u64 {
            proof {
                if all_digits(s@) {
                    lemma_digits_val_mono(s@, i as int);
                }
            }
            return None;
        }
    }
    assert(s@.take(i as int) =~= s@);
    Some(val as u32)
}

/// Reads a register token from a whole byte field.
pub fn parse_reg_bytes(s: &[u8]) -> (r: Option<VReg>)
    ensures
        r == spec_parse_reg(s@),
{
    if s.len() < 2 {
        return None;
    }
    let c = s[0];
    if c != 102 && c != 114 {
        return None;
    }
    let rest: &[u8] = &s[1..s.len()];
    assert(rest@ =~= s@.skip(1));
    match parse_u32_bytes(rest) {
        Some(x) => if c == 102 {
            Some(VReg::F(x))
        } else {
            Some(VReg::R(x))
        },
        None => None,
    }
}

/// Reads a register token: a class prefix `f` or `r` followed by a decimal
/// index. A malformed token stands for "no register".
pub fn parse_reg_str(r_s: &str) -> (r: Option<VReg>)
    ensures
        r == spec_parse_reg(r_s.spec_bytes()),
{
    parse_reg_bytes(r_s.as_bytes())
}

impl Inst {
    /// Builds an instruction from already-separated fields, reading the three
    /// register tokens.
    pub fn new(fu: u32, rt_s: &str, rs1_s: &str, rs2_s: &str, delay: u32) -> (r: Inst)
        ensures
            r.fu == fu,
            r.delay == delay,
            r.rt == spec_parse_reg(rt_s.spec_bytes()),
            r.rs1 == spec_parse_reg(rs1_s.spec_bytes()),
            r.rs2 == spec_parse_reg(rs2_s.spec_bytes()),
    {
        let rt = parse_reg_str(rt_s);
        let rs1 = parse_reg_str(rs1_s);
        let rs2 = parse_reg_str(rs2_s);
        Inst { fu, rt, rs1, rs2, delay }
    }

    /// Reads one whole trace line; a line that does not have exactly five
    /// fields with numeric first and last fields is reported as malformed.
    pub fn from_trace_line(line: &str) -> (r: Result<Inst, String>)
        ensures
            match spec_parse_line(line.spec_bytes()) {
                Some(inst) => r == Ok::<Inst, String>(inst),
                None => r is Err,
            },
    {
        let b = line.as_bytes();
        let ghost bs = b@;
        let mut fields: Vec<Vec<u8>> = Vec::new();
        let mut cur: Vec<u8> = Vec::new();
        let mut i: usize = 0;
        while i < b.len()
            invariant
                0 <= i <= bs.len(),
                b@ == bs,
                fields@.map_values(|f: Vec<u8>| f@).push(cur@) == spec_split(bs.take(i as int)),
            decreases bs.len() - i,
        {
            let ghost before = fields@.map_values(|f: Vec<u8>| f@).push(cur@);
            assert(bs.take(i as int + 1).drop_last() =~= bs.take(i as int));
            let byte = b[i];
            if byte == 32 {
                fields.push(cur);
                cur = Vec::new();
                assert(fields@.map_values(|f: Vec<u8>| f@).push(cur@) =~= before.push(
                    Seq::<u8>::empty(),
                ));
            } else {
                cur.push(byte);
                assert(fields@.map_values(|f: Vec<u8>| f@).push(cur@) =~= before.update(
                    before.len() - 1,
                    before.last().push(byte),
                ));
            }
            i = i + 1;
        }
        assert(bs.take(i as int) =~= bs);
        fields.push(cur);
        assert(fields@.map_values(|f: Vec<u8>| f@) =~= spec_split(bs));
        if fields.len() != 5 {
            return Err("Line improperly formatted.".to_owned());
        }
        let fu = match parse_u32_bytes(fields[0].as_slice()) {
            Some(x) => x,
            None => {
                return Err("Line improperly formatted.".to_owned());
            },
        };
        let delay = match parse_u32_bytes(fields[4].as_slice()) {
            Some(x) => x,
            None => {
                return Err("Line improperly formatted.".to_owned());
            },
        };
        let rt = parse_reg_bytes(fields[1].as_slice());
        let rs1 = parse_reg_bytes(fields[2].as_slice());
        let rs2 = parse_reg_bytes(fields[3].as_slice());
        Ok(Inst { fu, rt, rs1, rs2, delay })
    }
}

} // verus!
