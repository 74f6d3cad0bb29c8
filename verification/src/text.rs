//! Byte-level text helpers shared by the record parsers and the
//! classifier: whitespace tokenization, decimal parsing, case-insensitive
//! comparison and substring search.
//!
//! All contracts speak of byte sequences. A `&str` enters this layer
//! through `as_bytes`, whose view is the UTF-8 encoding of the string's
//! characters.

use vstd::prelude::*;

verus! {

/// Whitespace as the process table's text records use it.
pub open spec fn is_space(b: u8) -> bool {
    b == 32 || b == 9 || b == 10 || b == 13
}

/// ASCII decimal digit.
pub open spec fn is_digit(b: u8) -> bool {
    48 <= b <= 57
}

/// ASCII lower-casing of a single byte.
pub open spec fn lower_byte(b: u8) -> u8 {
    if 65 <= b <= 90 {
        (b + 32) as u8
    } else {
        b
    }
}

/// ASCII lower-casing of a byte sequence.
pub open spec fn lower_bytes(s: Seq<u8>) -> Seq<u8> {
    s.map_values(|b: u8| lower_byte(b))
}

/// Byte sequences equal up to ASCII case.
pub open spec fn eq_ignore_case(a: Seq<u8>, b: Seq<u8>) -> bool {
    lower_bytes(a) == lower_bytes(b)
}

/// `needle` occurs in `hay` starting at position `i`.
pub open spec fn occurs_at(hay: Seq<u8>, needle: Seq<u8>, i: int) -> bool {
    0 <= i && i + needle.len() <= hay.len() && hay.subrange(i, i + needle.len() as int)
        == needle
}

/// `needle` is a contiguous subsequence of `hay`.
pub open spec fn contains_bytes(hay: Seq<u8>, needle: Seq<u8>) -> bool {
    exists|i: int| occurs_at(hay, needle, i)
}

/// Value of a decimal digit string, most significant digit first.
pub open spec fn digits_value(s: Seq<u8>) -> int
    decreases s.len(),
{
    if s.len() == 0 {
        0
    } else {
        digits_value(s.drop_last()) * 10 + (s.last() - 48)
    }
}

/// All bytes are decimal digits.
pub open spec fn all_digits(s: Seq<u8>) -> bool {
    forall|i: int| 0 <= i < s.len() ==> is_digit(#[trigger] s[i])
}

/// Length of the leading run of non-space bytes.
pub open spec fn first_break(s: Seq<u8>) -> int
    decreases s.len(),
{
    if s.len() == 0 {
        0
    } else if is_space(s[0]) {
        0
    } else {
        1 + first_break(s.drop_first())
    }
}

pub proof fn lemma_first_break_bounds(s: Seq<u8>)
    ensures
        0 <= first_break(s) <= s.len(),
        forall|i: int| 0 <= i < first_break(s) ==> !is_space(#[trigger] s[i]),
        first_break(s) < s.len() ==> is_space(s[first_break(s)]),
    decreases s.len(),
{
    if s.len() == 0 {
    } else if is_space(s[0]) {
    } else {
        lemma_first_break_bounds(s.drop_first());
        assert forall|i: int| 0 <= i < first_break(s) implies !is_space(#[trigger] s[i]) by {
            if i > 0 {
                assert(!is_space(s.drop_first()[i - 1]));
            }
        }
        if first_break(s) < s.len() {
            assert(s.drop_first()[first_break(s) - 1] == s[first_break(s)]);
        }
    }
}

/// `first_break` is pinned down by its characteristic properties.
pub proof fn lemma_first_break_is(s: Seq<u8>, k: int)
    requires
        0 <= k <= s.len(),
        forall|i: int| 0 <= i < k ==> !is_space(#[trigger] s[i]),
        k < s.len() ==> is_space(s[k]),
    ensures
        first_break(s) == k,
    decreases s.len(),
{
    if s.len() == 0 {
    } else if is_space(s[0]) {
    } else {
        assert forall|i: int| 0 <= i < k - 1 implies !is_space(#[trigger] s.drop_first()[i]) by {
            assert(s.drop_first()[i] == s[i + 1]);
        }
        if k - 1 < s.drop_first().len() {
            assert(s.drop_first()[k - 1] == s[k]);
        }
        lemma_first_break_is(s.drop_first(), k - 1);
    }
}

/// The whitespace-separated tokens of a byte sequence, in order.
pub open spec fn spec_tokens(s: Seq<u8>) -> Seq<Seq<u8>>
    decreases s.len(),
    via spec_tokens_decreases
{
    if s.len() == 0 {
        Seq::<Seq<u8>>::empty()
    } else if is_space(s[0]) {
        spec_tokens(s.drop_first())
    } else {
        seq![s.subrange(0, first_break(s))] + spec_tokens(
            s.subrange(first_break(s), s.len() as int),
        )
    }
}

#[via_fn]
proof fn spec_tokens_decreases(s: Seq<u8>) {
    if s.len() > 0 && !is_space(s[0]) {
        lemma_first_break_bounds(s);
    }
}

/// Splits a byte slice into its whitespace-separated tokens.
pub fn tokens(s: &[u8]) -> (r: Vec<Vec<u8>>)
    ensures
        r@.map_values(|t: Vec<u8>| t@) == spec_tokens(s@),
{
    let mut out: Vec<Vec<u8>> = Vec::new();
    let mut i: usize = 0;
    proof {
        assert(s@.subrange(0, s@.len() as int) =~= s@);
        assert(out@.map_values(|t: Vec<u8>| t@) + spec_tokens(s@) =~= spec_tokens(s@));
    }
    while i < s.len()
        invariant
            i <= s@.len(),
            spec_tokens(s@) == out@.map_values(|t: Vec<u8>| t@) + spec_tokens(
                s@.subrange(i as int, s@.len() as int),
            ),
        decreases s@.len() - i,
    {
        if s[i] == 32 || s[i] == 9 || s[i] == 10 || s[i] == 13 {
            proof {
                let rest = s@.subrange(i as int, s@.len() as int);
                assert(is_space(rest[0]));
                assert(rest.drop_first() =~= s@.subrange(i as int + 1, s@.len() as int));
            }
            i = i + 1;
        } else {
            let start = i;
            let mut tok: Vec<u8> = Vec::new();
            proof {
                assert(tok@ =~= s@.subrange(start as int, start as int));
            }
            while i < s.len() && !(s[i] == 32 || s[i] == 9 || s[i] == 10 || s[i] == 13)
                invariant
                    start <= i <= s@.len(),
                    tok@ == s@.subrange(start as int, i as int),
                    forall|j: int| start <= j < i ==> !is_space(#[trigger] s@[j]),
                decreases s@.len() - i,
            {
                tok.push(s[i]);
                proof {
                    assert(tok@ =~= s@.subrange(start as int, i as int + 1));
                }
                i = i + 1;
            }
            proof {
                let rest = s@.subrange(start as int, s@.len() as int);
                let k = i - start;
                assert forall|j: int| 0 <= j < k implies !is_space(#[trigger] rest[j]) by {
                    assert(rest[j] == s@[start + j]);
                }
                if k < rest.len() {
                    assert(rest[k] == s@[i as int]);
                }
                lemma_first_break_is(rest, k);
                assert(rest.subrange(0, k) =~= s@.subrange(start as int, i as int));
                assert(rest.subrange(k, rest.len() as int) =~= s@.subrange(
                    i as int,
                    s@.len() as int,
                ));
                assert(spec_tokens(rest) == seq![tok@] + spec_tokens(
                    s@.subrange(i as int, s@.len() as int),
                ));
            }
            let ghost prev_map = out@.map_values(|t: Vec<u8>| t@);
            let ghost tok_view = tok@;
            out.push(tok);
            proof {
                assert(out@.map_values(|t: Vec<u8>| t@) =~= prev_map.push(tok_view));
                assert(prev_map.push(tok_view) + spec_tokens(
                    s@.subrange(i as int, s@.len() as int),
                ) =~= prev_map + (seq![tok_view] + spec_tokens(
                    s@.subrange(i as int, s@.len() as int),
                )));
            }
        }
    }
    proof {
        assert(s@.subrange(i as int, s@.len() as int) =~= Seq::<u8>::empty());
        assert(spec_tokens(Seq::<u8>::empty()) =~= Seq::<Seq<u8>>::empty());
        assert(spec_tokens(s@) =~= out@.map_values(|t: Vec<u8>| t@));
    }
    out
}

/// Index of the first occurrence of a byte, or the length when absent.
pub open spec fn first_occurrence(s: Seq<u8>, b: u8) -> int
    decreases s.len(),
{
    if s.len() == 0 {
        0
    } else if s[0] == b {
        0
    } else {
        1 + first_occurrence(s.drop_first(), b)
    }
}

pub proof fn lemma_first_occurrence_bounds(s: Seq<u8>, b: u8)
    ensures
        0 <= first_occurrence(s, b) <= s.len(),
        forall|i: int| 0 <= i < first_occurrence(s, b) ==> #[trigger] s[i] != b,
        first_occurrence(s, b) < s.len() ==> s[first_occurrence(s, b)] == b,
    decreases s.len(),
{
    if s.len() == 0 {
    } else if s[0] == b {
    } else {
        lemma_first_occurrence_bounds(s.drop_first(), b);
        assert forall|i: int| 0 <= i < first_occurrence(s, b) implies #[trigger] s[i] != b by {
            if i > 0 {
                assert(s.drop_first()[i - 1] != b);
            }
        }
        if first_occurrence(s, b) < s.len() {
            assert(s.drop_first()[first_occurrence(s, b) - 1] == s[first_occurrence(s, b)]);
        }
    }
}

/// `first_occurrence` is pinned down by its characteristic properties.
pub proof fn lemma_first_occurrence_is(s: Seq<u8>, b: u8, k: int)
    requires
        0 <= k <= s.len(),
        forall|i: int| 0 <= i < k ==> #[trigger] s[i] != b,
        k < s.len() ==> s[k] == b,
    ensures
        first_occurrence(s, b) == k,
    decreases s.len(),
{
    if s.len() == 0 {
    } else if s[0] == b {
    } else {
        assert forall|i: int| 0 <= i < k - 1 implies #[trigger] s.drop_first()[i] != b by {
            assert(s.drop_first()[i] == s[i + 1]);
        }
        if k - 1 < s.drop_first().len() {
            assert(s.drop_first()[k - 1] == s[k]);
        }
        lemma_first_occurrence_is(s.drop_first(), b, k - 1);
    }
}

/// Finds the first occurrence of a byte in a slice.
pub fn find_byte(s: &[u8], b: u8) -> (r: usize)
    ensures
        r == first_occurrence(s@, b),
{
    let mut i: usize = 0;
    while i < s.len() && s[i] != b
        invariant
            i <= s@.len(),
            forall|k: int| 0 <= k < i ==> #[trigger] s@[k] != b,
        decreases s@.len() - i,
    {
        i = i + 1;
    }
    proof {
        lemma_first_occurrence_is(s@, b, i as int);
    }
    i
}

/// Line separator.
pub open spec fn is_newline(b: u8) -> bool {
    b == 10
}

/// Length of the leading run of bytes before a newline.
pub open spec fn first_newline(s: Seq<u8>) -> int
    decreases s.len(),
{
    if s.len() == 0 {
        0
    } else if is_newline(s[0]) {
        0
    } else {
        1 + first_newline(s.drop_first())
    }
}

pub proof fn lemma_first_newline_bounds(s: Seq<u8>)
    ensures
        0 <= first_newline(s) <= s.len(),
        forall|i: int| 0 <= i < first_newline(s) ==> !is_newline(#[trigger] s[i]),
        first_newline(s) < s.len() ==> is_newline(s[first_newline(s)]),
    decreases s.len(),
{
    if s.len() == 0 {
    } else if is_newline(s[0]) {
    } else {
        lemma_first_newline_bounds(s.drop_first());
        assert forall|i: int| 0 <= i < first_newline(s) implies !is_newline(
            #[trigger] s[i],
        ) by {
            if i > 0 {
                assert(!is_newline(s.drop_first()[i - 1]));
            }
        }
        if first_newline(s) < s.len() {
            assert(s.drop_first()[first_newline(s) - 1] == s[first_newline(s)]);
        }
    }
}

/// `first_newline` is pinned down by its characteristic properties.
pub proof fn lemma_first_newline_is(s: Seq<u8>, k: int)
    requires
        0 <= k <= s.len(),
        forall|i: int| 0 <= i < k ==> !is_newline(#[trigger] s[i]),
        k < s.len() ==> is_newline(s[k]),
    ensures
        first_newline(s) == k,
    decreases s.len(),
{
    if s.len() == 0 {
    } else if is_newline(s[0]) {
    } else {
        assert forall|i: int| 0 <= i < k - 1 implies !is_newline(
            #[trigger] s.drop_first()[i],
        ) by {
            assert(s.drop_first()[i] == s[i + 1]);
        }
        if k - 1 < s.drop_first().len() {
            assert(s.drop_first()[k - 1] == s[k]);
        }
        lemma_first_newline_is(s.drop_first(), k - 1);
    }
}

/// The nonempty lines of a byte sequence, in order; empty lines carry
/// no fields and are dropped.
pub open spec fn spec_lines(s: Seq<u8>) -> Seq<Seq<u8>>
    decreases s.len(),
    via spec_lines_decreases
{
    if s.len() == 0 {
        Seq::<Seq<u8>>::empty()
    } else if is_newline(s[0]) {
        spec_lines(s.drop_first())
    } else {
        seq![s.subrange(0, first_newline(s))] + spec_lines(
            s.subrange(first_newline(s), s.len() as int),
        )
    }
}

#[via_fn]
proof fn spec_lines_decreases(s: Seq<u8>) {
    if s.len() > 0 && !is_newline(s[0]) {
        lemma_first_newline_bounds(s);
    }
}

/// Splits a byte slice into its nonempty lines.
pub fn split_lines(s: &[u8]) -> (r: Vec<Vec<u8>>)
    ensures
        r@.map_values(|t: Vec<u8>| t@) == spec_lines(s@),
{
    let mut out: Vec<Vec<u8>> = Vec::new();
    let mut i: usize = 0;
    proof {
        assert(s@.subrange(0, s@.len() as int) =~= s@);
        assert(out@.map_values(|t: Vec<u8>| t@) + spec_lines(s@) =~= spec_lines(s@));
    }
    while i < s.len()
        invariant
            i <= s@.len(),
            spec_lines(s@) == out@.map_values(|t: Vec<u8>| t@) + spec_lines(
                s@.subrange(i as int, s@.len() as int),
            ),
        decreases s@.len() - i,
    {
        if s[i] == 10 {
            proof {
                let rest = s@.subrange(i as int, s@.len() as int);
                assert(is_newline(rest[0]));
                assert(rest.drop_first() =~= s@.subrange(i as int + 1, s@.len() as int));
            }
            i = i + 1;
        } else {
            let start = i;
            let mut line: Vec<u8> = Vec::new();
            proof {
                assert(line@ =~= s@.subrange(start as int, start as int));
            }
            while i < s.len() && s[i] != 10
                invariant
                    start <= i <= s@.len(),
                    line@ == s@.subrange(start as int, i as int),
                    forall|j: int| start <= j < i ==> !is_newline(#[trigger] s@[j]),
                decreases s@.len() - i,
            {
                line.push(s[i]);
                proof {
                    assert(line@ =~= s@.subrange(start as int, i as int + 1));
                }
                i = i + 1;
            }
            proof {
                let rest = s@.subrange(start as int, s@.len() as int);
                let k = i - start;
                assert forall|j: int| 0 <= j < k implies !is_newline(#[trigger] rest[j]) by {
                    assert(rest[j] == s@[start + j]);
                }
                if k < rest.len() {
                    assert(rest[k] == s@[i as int]);
                }
                lemma_first_newline_is(rest, k);
                assert(rest.subrange(0, k) =~= s@.subrange(start as int, i as int));
                assert(rest.subrange(k, rest.len() as int) =~= s@.subrange(
                    i as int,
                    s@.len() as int,
                ));
                assert(spec_lines(rest) == seq![line@] + spec_lines(
                    s@.subrange(i as int, s@.len() as int),
                ));
            }
            let ghost prev_map = out@.map_values(|t: Vec<u8>| t@);
            let ghost line_view = line@;
            out.push(line);
            proof {
                assert(out@.map_values(|t: Vec<u8>| t@) =~= prev_map.push(line_view));
                assert(prev_map.push(line_view) + spec_lines(
                    s@.subrange(i as int, s@.len() as int),
                ) =~= prev_map + (seq![line_view] + spec_lines(
                    s@.subrange(i as int, s@.len() as int),
                )));
            }
        }
    }
    proof {
        assert(s@.subrange(i as int, s@.len() as int) =~= Seq::<u8>::empty());
        assert(spec_lines(Seq::<u8>::empty()) =~= Seq::<Seq<u8>>::empty());
        assert(spec_lines(s@) =~= out@.map_values(|t: Vec<u8>| t@));
    }
    out
}

/// The value of a digit string is nonnegative.
pub proof fn lemma_digits_value_nonneg(s: Seq<u8>)
    requires
        all_digits(s),
    ensures
        digits_value(s) >= 0,
    decreases s.len(),
{
    if s.len() > 0 {
        assert(all_digits(s.drop_last())) by {
            assert(forall|i: int|
                0 <= i < s.drop_last().len() ==> s.drop_last()[i] == #[trigger] s[i]);
        }
        lemma_digits_value_nonneg(s.drop_last());
    }
}

/// Extending a digit string never lowers its value.
pub proof fn lemma_digits_value_prefix(s: Seq<u8>, k: int)
    requires
        all_digits(s),
        0 <= k <= s.len(),
    ensures
        digits_value(s) >= digits_value(s.subrange(0, k)),
    decreases s.len(),
{
    if k == s.len() {
        assert(s.subrange(0, k) =~= s);
    } else {
        let dl = s.drop_last();
        assert(all_digits(dl)) by {
            assert(forall|i: int| 0 <= i < dl.len() ==> dl[i] == #[trigger] s[i]);
        }
        assert(dl.subrange(0, k) =~= s.subrange(0, k));
        lemma_digits_value_prefix(dl, k);
        lemma_digits_value_nonneg(dl);
        assert(is_digit(s.last()));
    }
}

/// Parses an unsigned decimal number.
///
/// Returns the value exactly when the slice is a nonempty all-digit
/// string whose value fits in 64 bits.
pub fn parse_u64(s: &[u8]) -> (r: Option<u64>)
    ensures
        match r {
            Some(v) => s@.len() > 0 && all_digits(s@) && v == digits_value(s@),
            None => s@.len() == 0 || !all_digits(s@) || digits_value(s@) > u64::MAX,
        },
{
    if s.len() == 0 {
        return None;
    }
    let mut acc: u64 = 0;
    let mut i: usize = 0;
    proof {
        assert(s@.subrange(0, 0) =~= Seq::<u8>::empty());
    }
    while i < s.len()
        invariant
            i <= s@.len(),
            all_digits(s@.subrange(0, i as int)),
            acc == digits_value(s@.subrange(0, i as int)),
        decreases s@.len() - i,
    {
        let b = s[i];
        if !(48 <= b && b <= 57) {
            assert(!is_digit(s@[i as int]));
            return None;
        }
        let wide: u128 = (acc as u128) * 10 + ((b - 48) as u128);
        proof {
            let p = s@.subrange(0, i as int + 1);
            assert(p.drop_last() =~= s@.subrange(0, i as int));
            assert(p.last() == s@[i as int]);
            assert(all_digits(p)) by {
                assert(forall|j: int|
                    0 <= j < i ==> p[j] == #[trigger] s@.subrange(0, i as int)[j]);
            }
            assert(digits_value(p) == acc * 10 + (b - 48));
        }
        if wide > u64::MAX as u128 {
            proof {
                let p = s@.subrange(0, i as int + 1);
                if all_digits(s@) {
                    lemma_digits_value_prefix(s@, i as int + 1);
                    assert(digits_value(s@) >= digits_value(p));
                }
            }
            return None;
        }
        acc = wide as u64;
        i = i + 1;
    }
    proof {
        assert(s@.subrange(0, i as int) =~= s@);
    }
    Some(acc)
}

/// Byte-for-byte equality of two slices.
pub fn bytes_eq(a: &[u8], b: &[u8]) -> (r: bool)
    ensures
        r == (a@ == b@),
{
    if a.len() != b.len() {
        return false;
    }
    let mut i: usize = 0;
    while i < a.len()
        invariant
            a@.len() == b@.len(),
            i <= a@.len(),
            forall|j: int| 0 <= j < i ==> a@[j] == #[trigger] b@[j],
        decreases a@.len() - i,
    {
        if a[i] != b[i] {
            return false;
        }
        i = i + 1;
    }
    proof {
        assert(a@ =~= b@);
    }
    true
}

/// Lower-cases one byte.
pub fn to_lower(b: u8) -> (r: u8)
    ensures
        r == lower_byte(b),
{
    if 65 <= b && b <= 90 {
        b + 32
    } else {
        b
    }
}

/// Equality of two slices up to ASCII case.
pub fn bytes_eq_ignore_case(a: &[u8], b: &[u8]) -> (r: bool)
    ensures
        r == eq_ignore_case(a@, b@),
{
    if a.len() != b.len() {
        return false;
    }
    let mut i: usize = 0;
    while i < a.len()
        invariant
            a@.len() == b@.len(),
            i <= a@.len(),
            forall|j: int|
                0 <= j < i ==> lower_byte(a@[j]) == lower_byte(#[trigger] b@[j]),
        decreases a@.len() - i,
    {
        if to_lower(a[i]) != to_lower(b[i]) {
            proof {
                assert(lower_bytes(a@)[i as int] != lower_bytes(b@)[i as int]);
            }
            return false;
        }
        i = i + 1;
    }
    proof {
        assert(lower_bytes(a@) =~= lower_bytes(b@));
    }
    true
}

/// Whether `needle` occurs in `hay` as a contiguous run of bytes.
pub fn bytes_contain(hay: &[u8], needle: &[u8]) -> (r: bool)
    ensures
        r == contains_bytes(hay@, needle@),
{
    if needle.len() > hay.len() {
        proof {
            assert(forall|i: int| !occurs_at(hay@, needle@, i));
        }
        return false;
    }
    if needle.len() == 0 {
        proof {
            assert(hay@.subrange(0, 0) =~= needle@);
            assert(occurs_at(hay@, needle@, 0));
        }
        return true;
    }
    let mut i: usize = 0;
    let last = hay.len() - needle.len();
    while i <= last
        invariant
            hay@.len() >= needle@.len() > 0,
            hay@.len() <= usize::MAX,
            last == hay@.len() - needle@.len(),
            i <= last + 1,
            forall|k: int| 0 <= k < i ==> !occurs_at(hay@, needle@, k),
        decreases last + 1 - i,
    {
        let mut j: usize = 0;
        let mut all: bool = true;
        while j < needle.len()
            invariant
                i + needle@.len() <= hay@.len(),
                hay@.len() <= usize::MAX,
                j <= needle@.len(),
                all ==> forall|m: int| 0 <= m < j ==> hay@[i + m] == #[trigger] needle@[m],
                !all ==> !occurs_at(hay@, needle@, i as int),
            decreases needle@.len() - j,
        {
            if hay[i + j] != needle[j] {
                proof {
                    if occurs_at(hay@, needle@, i as int) {
                        assert(hay@.subrange(i as int, i + needle@.len() as int)[j as int]
                            == needle@[j as int]);
                    }
                }
                all = false;
                j = needle.len();
            } else {
                j = j + 1;
            }
        }
        if all {
            proof {
                assert(hay@.subrange(i as int, i + needle@.len() as int) =~= needle@);
                assert(occurs_at(hay@, needle@, i as int));
            }
            return true;
        }
        i = i + 1;
    }
    proof {
        assert forall|k: int| !occurs_at(hay@, needle@, k) by {
            if 0 <= k && k + needle@.len() <= hay@.len() {
                assert(k < i);
            }
        }
    }
    false
}

} // verus!
