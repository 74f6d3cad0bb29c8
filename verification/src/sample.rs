//! The sample reader: turns the text of a process's memory-map summary
//! (the pre-aggregated rollup record or the full per-mapping listing,
//! whichever the caller could read) into (rss, pss, uss) byte counts.
//!
//! USS is approximated as the sum of private-clean and private-dirty
//! sizes across all mappings. The parse is all-or-nothing: a malformed
//! field line discards everything already summed.

use vstd::prelude::*;
use vstd::string::StringSliceAdditionalSpecFns;

use crate::text::{all_digits, bytes_eq, digits_value, parse_u64, spec_lines, spec_tokens,
    split_lines, tokens};

verus! {

/// The memory fields of one process, in bytes.
#[derive(Debug, Clone, Copy, PartialEq, Eq, Structural)]
pub struct MemorySample {
    pub rss_bytes: u64,
    pub pss_bytes: u64,
    pub uss_bytes: u64,
}

/// Why a memory-map summary could not be used.
#[derive(Debug, Clone, Copy, PartialEq, Eq, Structural)]
pub enum SampleError {
    /// A recognized field line carried no parseable value.
    Malformed,
    /// A field sum does not fit in 64 bits of bytes.
    Overflow,
}

/// The field a summary line contributes to, if any.
#[derive(Debug, Clone, Copy, PartialEq, Eq, Structural)]
pub enum MemField {
    Rss,
    Pss,
    PrivateClean,
    PrivateDirty,
}

/// What one line of the summary means.
pub enum LineClass {
    /// No recognized field name; the line is skipped.
    NotRelevant,
    /// A recognized field with its value in KiB.
    Field(MemField, int),
    /// A recognized field name without a usable number.
    Malformed,
}

/// The field name that opens a recognized line.
pub open spec fn spec_field_of(tok: Seq<u8>) -> Option<MemField> {
    if tok == "Rss:".spec_bytes() {
        Some(MemField::Rss)
    } else if tok == "Pss:".spec_bytes() {
        Some(MemField::Pss)
    } else if tok == "Private_Clean:".spec_bytes() {
        Some(MemField::PrivateClean)
    } else if tok == "Private_Dirty:".spec_bytes() {
        Some(MemField::PrivateDirty)
    } else {
        None
    }
}

/// Classifies one line of the summary: a recognized field name must be
/// followed by a decimal KiB value.
pub open spec fn spec_classify_line(line: Seq<u8>) -> LineClass {
    let toks = spec_tokens(line);
    if toks.len() == 0 {
        LineClass::NotRelevant
    } else {
        match spec_field_of(toks[0]) {
            None => LineClass::NotRelevant,
            Some(f) => {
                if toks.len() >= 2 && toks[1].len() > 0 && all_digits(toks[1]) {
                    LineClass::Field(f, digits_value(toks[1]))
                } else {
                    LineClass::Malformed
                }
            },
        }
    }
}

/// The per-field KiB sums of a sequence of lines: (rss, pss,
/// private-clean, private-dirty), or nothing if any line is malformed.
pub open spec fn spec_kb_sums(ls: Seq<Seq<u8>>) -> Option<(int, int, int, int)>
    decreases ls.len(),
{
    if ls.len() == 0 {
        Some((0, 0, 0, 0))
    } else {
        match spec_kb_sums(ls.drop_last()) {
            None => None,
            Some(acc) => match spec_classify_line(ls.last()) {
                LineClass::Malformed => None,
                LineClass::NotRelevant => Some(acc),
                LineClass::Field(f, v) => match f {
                    MemField::Rss => Some((acc.0 + v, acc.1, acc.2, acc.3)),
                    MemField::Pss => Some((acc.0, acc.1 + v, acc.2, acc.3)),
                    MemField::PrivateClean => Some((acc.0, acc.1, acc.2 + v, acc.3)),
                    MemField::PrivateDirty => Some((acc.0, acc.1, acc.2, acc.3 + v)),
                },
            },
        }
    }
}

/// What a whole summary text yields: the three byte counts, a malformed
/// parse, or sums too large for 64 bits.
pub open spec fn spec_parse_memory(s: Seq<u8>) -> Result<MemorySample, SampleError> {
    match spec_kb_sums(spec_lines(s)) {
        None => Err(SampleError::Malformed),
        Some((rss, pss, clean, dirty)) => {
            if rss * 1024 <= u64::MAX && pss * 1024 <= u64::MAX && (clean + dirty) * 1024
                <= u64::MAX {
                Ok(
                    MemorySample {
                        rss_bytes: (rss * 1024) as u64,
                        pss_bytes: (pss * 1024) as u64,
                        uss_bytes: ((clean + dirty) * 1024) as u64,
                    },
                )
            } else {
                Err(SampleError::Overflow)
            }
        },
    }
}

/// A recognized field line always carries a nonnegative KiB value.
pub proof fn lemma_classify_field_nonneg(line: Seq<u8>)
    ensures
        match spec_classify_line(line) {
            LineClass::Field(f, v) => v >= 0,
            _ => true,
        },
{
    let toks = spec_tokens(line);
    if toks.len() > 0 && spec_field_of(toks[0]) is Some && toks.len() >= 2 && toks[1].len()
        > 0 && all_digits(toks[1]) {
        crate::text::lemma_digits_value_nonneg(toks[1]);
    }
}

/// Per-field KiB sums are nonnegative and never shrink as lines are
/// consumed.
pub proof fn lemma_kb_sums_nonneg(ls: Seq<Seq<u8>>)
    ensures
        match spec_kb_sums(ls) {
            Some(acc) => acc.0 >= 0 && acc.1 >= 0 && acc.2 >= 0 && acc.3 >= 0,
            None => true,
        },
    decreases ls.len(),
{
    if ls.len() > 0 {
        lemma_kb_sums_nonneg(ls.drop_last());
        lemma_classify_field_nonneg(ls.last());
    }
}

/// One malformed line poisons the whole summary.
pub proof fn lemma_kb_sums_malformed(ls: Seq<Seq<u8>>, i: int)
    requires
        0 <= i < ls.len(),
        spec_classify_line(ls[i]) is Malformed,
    ensures
        spec_kb_sums(ls) is None,
    decreases ls.len(),
{
    if i == ls.len() - 1 {
    } else {
        assert(ls.drop_last()[i] == ls[i]);
        lemma_kb_sums_malformed(ls.drop_last(), i);
    }
}

/// Classifies one line, mirroring `spec_classify_line`.
fn classify_line(line: &[u8]) -> (r: (Option<MemField>, Option<u64>, bool))
    ensures
        match spec_classify_line(line@) {
            LineClass::NotRelevant => r.0 is None && !r.2,
            LineClass::Malformed => r.2,
            LineClass::Field(f, v) => {
                &&& r.0 == Some(f)
                &&& !r.2
                &&& match r.1 {
                    Some(x) => x == v,
                    None => v > u64::MAX,
                }
            },
        },
{
    let toks = tokens(line);
    if toks.len() == 0 {
        return (None, None, false);
    }
    let head = toks[0].as_slice();
    let field = if bytes_eq(head, "Rss:".as_bytes()) {
        Some(MemField::Rss)
    } else if bytes_eq(head, "Pss:".as_bytes()) {
        Some(MemField::Pss)
    } else if bytes_eq(head, "Private_Clean:".as_bytes()) {
        Some(MemField::PrivateClean)
    } else if bytes_eq(head, "Private_Dirty:".as_bytes()) {
        Some(MemField::PrivateDirty)
    } else {
        None
    };
    proof {
        assert(toks@.map_values(|t: Vec<u8>| t@)[0] == toks@[0]@);
    }
    let f = match field {
        None => {
            return (None, None, false);
        },
        Some(f) => f,
    };
    if toks.len() < 2 {
        return (Some(f), None, true);
    }
    proof {
        assert(toks@.map_values(|t: Vec<u8>| t@)[1] == toks@[1]@);
    }
    match parse_u64(toks[1].as_slice()) {
        Some(v) => (Some(f), Some(v), false),
        None => {
            // A nonempty all-digit value too large for 64 bits is still a
            // well-formed line; it only fails the later overflow check.
            let t = toks[1].as_slice();
            let mut i: usize = 0;
            let mut digits_ok = t.len() > 0;
            while i < t.len()
                invariant
                    i <= t@.len(),
                    digits_ok == (t@.len() > 0 && forall|k: int|
                        0 <= k < i ==> crate::text::is_digit(#[trigger] t@[k])),
                decreases t@.len() - i,
            {
                if !(48 <= t[i] && t[i] <= 57) {
                    digits_ok = false;
                    proof {
                        assert(!crate::text::is_digit(t@[i as int]));
                    }
                    i = t.len();
                } else {
                    i = i + 1;
                }
            }
            if digits_ok {
                (Some(f), None, false)
            } else {
                (Some(f), None, true)
            }
        },
    }
}

/// Parses a memory-map summary into byte counts.
///
/// Returns the per-field sums exactly when every recognized field line
/// is well formed and each sum fits in 64 bits of bytes; a malformed
/// line or an oversized sum yields its error, and nothing partial.
pub fn parse_memory_summary(s: &[u8]) -> (r: Result<MemorySample, SampleError>)
    ensures
        r == spec_parse_memory(s@),
{
    let ls = split_lines(s);
    let ghost lsv = ls@.map_values(|t: Vec<u8>| t@);
    let mut rss_kb: u64 = 0;
    let mut pss_kb: u64 = 0;
    let mut clean_kb: u64 = 0;
    let mut dirty_kb: u64 = 0;
    let mut too_big = false;
    let mut i: usize = 0;
    proof {
        assert(lsv.subrange(0, 0) =~= Seq::<Seq<u8>>::empty());
    }
    while i < ls.len()
        invariant
            i <= ls@.len(),
            lsv == ls@.map_values(|t: Vec<u8>| t@),
            lsv == spec_lines(s@),
            match spec_kb_sums(lsv.subrange(0, i as int)) {
                None => false,
                Some(acc) => {
                    &&& (!too_big ==> rss_kb == acc.0 && pss_kb == acc.1 && clean_kb == acc.2
                        && dirty_kb == acc.3)
                    &&& (too_big ==> acc.0 > u64::MAX || acc.1 > u64::MAX || acc.2 > u64::MAX
                        || acc.3 > u64::MAX)
                },
            },
        decreases ls@.len() - i,
    {
        let ghost prefix = lsv.subrange(0, i as int);
        let (field, value, malformed) = classify_line(ls[i].as_slice());
        proof {
            assert(lsv[i as int] == ls@[i as int]@);
            assert(lsv.subrange(0, i as int + 1).drop_last() =~= prefix);
            assert(lsv.subrange(0, i as int + 1).last() == lsv[i as int]);
            lemma_kb_sums_nonneg(prefix);
            lemma_classify_field_nonneg(lsv[i as int]);
        }
        if malformed {
            proof {
                lemma_kb_sums_malformed(lsv, i as int);
                assert(lsv == spec_lines(s@));
            }
            return Err(SampleError::Malformed);
        }
        match field {
            None => {},
            Some(f) => {
                match value {
                    None => {
                        too_big = true;
                    },
                    Some(v) => {
                        match f {
                            MemField::Rss => {
                                let wide: u128 = (rss_kb as u128) + (v as u128);
                                if wide > u64::MAX as u128 {
                                    too_big = true;
                                } else {
                                    rss_kb = wide as u64;
                                }
                            },
                            MemField::Pss => {
                                let wide: u128 = (pss_kb as u128) + (v as u128);
                                if wide > u64::MAX as u128 {
                                    too_big = true;
                                } else {
                                    pss_kb = wide as u64;
                                }
                            },
                            MemField::PrivateClean => {
                                let wide: u128 = (clean_kb as u128) + (v as u128);
                                if wide > u64::MAX as u128 {
                                    too_big = true;
                                } else {
                                    clean_kb = wide as u64;
                                }
                            },
                            MemField::PrivateDirty => {
                                let wide: u128 = (dirty_kb as u128) + (v as u128);
                                if wide > u64::MAX as u128 {
                                    too_big = true;
                                } else {
                                    dirty_kb = wide as u64;
                                }
                            },
                        }
                    },
                }
            },
        }
        i = i + 1;
    }
    proof {
        assert(lsv.subrange(0, i as int) =~= lsv);
        assert(lsv == spec_lines(s@));
        lemma_kb_sums_nonneg(lsv);
    }
    if too_big {
        return Err(SampleError::Overflow);
    }
    let uss_wide: u128 = (clean_kb as u128) + (dirty_kb as u128);
    let rss_wide: u128 = (rss_kb as u128) * 1024;
    let pss_wide: u128 = (pss_kb as u128) * 1024;
    let uss_bytes_wide: u128 = uss_wide * 1024;
    if rss_wide > u64::MAX as u128 || pss_wide > u64::MAX as u128 || uss_bytes_wide
        > u64::MAX as u128 {
        return Err(SampleError::Overflow);
    }
    Ok(
        MemorySample {
            rss_bytes: rss_wide as u64,
            pss_bytes: pss_wide as u64,
            uss_bytes: uss_bytes_wide as u64,
        },
    )
}

} // verus!
