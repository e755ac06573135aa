//! Byte-level text helpers: line splitting, whitespace trimming, and
//! decimal / hexadecimal number parsing.
//!
//! Every loader in this crate reads ASCII text handed to it as a byte
//! slice; these helpers give each of them the same, fully specified
//! primitives.

use vstd::prelude::*;

verus! {

/// Line feed.
pub const LF: u8 = 10;

/// Carriage return.
pub const CR: u8 = 13;

/// Space.
pub const SP: u8 = 32;

/// A line with a trailing carriage return removed.
pub open spec fn strip_cr(s: Seq<u8>) -> Seq<u8> {
    if s.len() > 0 && s.last() == CR {
        s.drop_last()
    } else {
        s
    }
}

/// Splitting on line feeds, processed front to back: `cur` is the line
/// being accumulated and `acc` the lines already finished.
pub open spec fn split_acc(s: Seq<u8>, i: int, cur: Seq<u8>, acc: Seq<Seq<u8>>) -> Seq<Seq<u8>>
    decreases s.len() - i,
{
    if i < 0 || i >= s.len() {
        acc.push(strip_cr(cur))
    } else if s[i] == LF {
        split_acc(s, i + 1, Seq::empty(), acc.push(strip_cr(cur)))
    } else {
        split_acc(s, i + 1, cur.push(s[i]), acc)
    }
}

/// The lines of a byte text: pieces between line feeds, each with a
/// trailing carriage return removed. The text always yields at least one
/// (possibly empty) line.
pub open spec fn spec_lines(s: Seq<u8>) -> Seq<Seq<u8>> {
    split_acc(s, 0, Seq::empty(), Seq::empty())
}

/// Remove a trailing carriage return from a finished line.
fn finish_line(line: Vec<u8>) -> (r: Vec<u8>)
    ensures
        r@ == strip_cr(line@),
{
    let mut out = line;
    if out.len() > 0 && out[out.len() - 1] == CR {
        let _last = out.pop();
    }
    out
}

/// Split a byte text into its lines.
pub fn split_lines(data: &[u8]) -> (r: Vec<Vec<u8>>)
    ensures
        r@.map_values(|v: Vec<u8>| v@) == spec_lines(data@),
        r@.len() >= 1,
{
    let mut acc: Vec<Vec<u8>> = Vec::new();
    let mut cur: Vec<u8> = Vec::new();
    let mut i: usize = 0;
    proof {
        assert(acc@.map_values(|v: Vec<u8>| v@) =~= Seq::<Seq<u8>>::empty());
    }
    while i < data.len()
        invariant
            0 <= i <= data@.len(),
            spec_lines(data@) == split_acc(
                data@,
                i as int,
                cur@,
                acc@.map_values(|v: Vec<u8>| v@),
            ),
        decreases data@.len() - i,
    {
        let ghost pre_acc = acc@.map_values(|v: Vec<u8>| v@);
        let ghost pre_cur = cur@;
        if data[i] == LF {
            let done = finish_line(cur);
            cur = Vec::new();
            acc.push(done);
            proof {
                assert(acc@.map_values(|v: Vec<u8>| v@) =~= pre_acc.push(strip_cr(pre_cur)));
            }
        } else {
            cur.push(data[i]);
        }
        i = i + 1;
    }
    let done = finish_line(cur);
    acc.push(done);
    proof {
        assert(acc@.map_values(|v: Vec<u8>| v@) =~= spec_lines(data@));
    }
    acc
}

/// Decimal digit test.
pub open spec fn is_digit(c: u8) -> bool {
    48 <= c <= 57
}

/// Every byte a decimal digit.
pub open spec fn all_digits(s: Seq<u8>) -> bool {
    forall|j: int| 0 <= j < s.len() ==> is_digit(#[trigger] s[j])
}

/// The value of a digit string, most significant digit first.
pub open spec fn dec_val(s: Seq<u8>) -> int
    decreases s.len(),
{
    if s.len() == 0 {
        0
    } else {
        dec_val(s.drop_last()) * 10 + (s.last() - 48)
    }
}

/// A digit string's value never goes negative.
pub proof fn lemma_dec_val_nonneg(s: Seq<u8>)
    requires
        all_digits(s),
    ensures
        dec_val(s) >= 0,
    decreases s.len(),
{
    if s.len() > 0 {
        assert(all_digits(s.drop_last())) by {
            assert(forall|j: int|
                0 <= j < s.drop_last().len() ==> s.drop_last()[j] == s[j]);
        }
        lemma_dec_val_nonneg(s.drop_last());
    }
}

/// Extending a digit string on the right never lowers its value.
pub proof fn lemma_dec_val_prefix(s: Seq<u8>, k: int)
    requires
        all_digits(s),
        0 <= k <= s.len(),
    ensures
        dec_val(s.take(k)) <= dec_val(s),
    decreases s.len() - k,
{
    if k < s.len() {
        lemma_dec_val_prefix(s, k + 1);
        assert(s.take(k + 1).drop_last() =~= s.take(k));
        assert(s.take(k + 1).last() == s[k]);
        assert(all_digits(s.take(k))) by {
            assert(forall|j: int| 0 <= j < k ==> s.take(k)[j] == s[j]);
        }
        lemma_dec_val_nonneg(s.take(k));
        assert(dec_val(s.take(k + 1)) == dec_val(s.take(k)) * 10 + (s[k] - 48));
    } else {
        assert(s.take(k) =~= s);
    }
}

/// A valid unsigned decimal field: nonempty, all digits, value within
/// the given bound.
pub open spec fn valid_dec(s: Seq<u8>, bound: int) -> bool {
    s.len() > 0 && all_digits(s) && dec_val(s) <= bound
}

/// Parse an unsigned decimal field.
///
/// Returns the value exactly when the whole slice is a nonempty digit
/// string whose value fits the bound, and fails otherwise.
pub fn parse_dec_u64(s: &[u8], bound: u64) -> (r: Result<u64, ()>)
    ensures
        r is Ok <==> valid_dec(s@, bound as int),
        r is Ok ==> r->Ok_0 == dec_val(s@) && r->Ok_0 <= bound,
{
    if s.len() == 0 {
        return Err(());
    }
    let mut acc: u64 = 0;
    let mut i: usize = 0;
    while i < s.len()
        invariant
            0 <= i <= s@.len(),
            s@.len() > 0,
            all_digits(s@.take(i as int)),
            acc == dec_val(s@.take(i as int)),
            acc <= bound,
            bound <= u64::MAX,
        decreases s@.len() - i,
    {
        let c = s[i];
        if c < 48 || c > 57 {
            return Err(());
        }
        let d: u64 = (c - 48) as u64;
        proof {
            lemma_dec_val_nonneg(s@.take(i as int));
            assert(s@.take(i + 1).drop_last() =~= s@.take(i as int));
        }
        if acc > bound / 10 || (acc == bound / 10 && d > bound % 10) {
            // The value so far already overflows the bound, and digits can
            // only raise it further.
            proof {
                assert(acc * 10 + d > bound) by (nonlinear_arith)
                    requires
                        acc > bound / 10 || (acc == bound / 10 && d > bound % 10),
                        acc >= 0,
                        d >= 0,
                        bound >= 0,
                ;
                assert(all_digits(s@.take(i + 1)));
                assert(dec_val(s@.take(i + 1)) == acc * 10 + d);
                if all_digits(s@) {
                    lemma_dec_val_prefix(s@, i + 1);
                    assert(s@.take(s@.len() as int) =~= s@);
                }
            }
            return Err(());
        }
        proof {
            assert(acc * 10 + d <= bound) by (nonlinear_arith)
                requires
                    acc <= bound / 10,
                    acc == bound / 10 ==> d <= bound % 10,
                    acc >= 0,
                    0 <= d <= 9,
                    bound >= 0,
            ;
        }
        acc = acc * 10 + d;
        i = i + 1;
    }
    proof {
        assert(s@.take(s@.len() as int) =~= s@);
    }
    Ok(acc)
}

/// Hexadecimal digit test (both cases accepted).
pub open spec fn is_hex_digit(c: u8) -> bool {
    (48 <= c <= 57) || (97 <= c <= 102) || (65 <= c <= 70)
}

/// The numeric value of one hexadecimal digit.
pub open spec fn hex_digit_val(c: u8) -> int {
    if 48 <= c <= 57 {
        c - 48
    } else if 97 <= c <= 102 {
        c - 87
    } else {
        c - 55
    }
}

/// The value of a hexadecimal digit string, most significant first.
pub open spec fn hex_val(s: Seq<u8>) -> int
    decreases s.len(),
{
    if s.len() == 0 {
        0
    } else {
        hex_val(s.drop_last()) * 16 + hex_digit_val(s.last())
    }
}

/// Every byte a hexadecimal digit.
pub open spec fn all_hex_digits(s: Seq<u8>) -> bool {
    forall|j: int| 0 <= j < s.len() ==> is_hex_digit(#[trigger] s[j])
}

/// A valid hexadecimal field for a 32-bit value: one to eight digits.
pub open spec fn valid_hex_u32(s: Seq<u8>) -> bool {
    1 <= s.len() <= 8 && all_hex_digits(s)
}

/// Parse a hexadecimal field into a 32-bit value.
///
/// Succeeds exactly on one to eight hexadecimal digits, upper or lower
/// case, and returns their value.
pub fn parse_hex_u32(s: &[u8]) -> (r: Result<u32, ()>)
    ensures
        r is Ok <==> valid_hex_u32(s@),
        r is Ok ==> r->Ok_0 == hex_val(s@),
{
    if s.len() == 0 || s.len() > 8 {
        return Err(());
    }
    let mut acc: u32 = 0;
    let mut i: usize = 0;
    while i < s.len()
        invariant
            0 <= i <= s@.len(),
            s@.len() <= 8,
            all_hex_digits(s@.take(i as int)),
            acc == hex_val(s@.take(i as int)),
            acc < 0x10000000 || i == s@.len(),
        decreases s@.len() - i,
    {
        let c = s[i];
        let d: u32;
        if c >= 48 && c <= 57 {
            d = (c - 48) as u32;
        } else if c >= 97 && c <= 102 {
            d = (c - 87) as u32;
        } else if c >= 65 && c <= 70 {
            d = (c - 55) as u32;
        } else {
            return Err(());
        }
        proof {
            assert(s@.take(i + 1).drop_last() =~= s@.take(i as int));
            lemma_hex_val_bound(s@.take(i as int));
        }
        acc = acc * 16 + d;
        i = i + 1;
        proof {
            lemma_hex_val_bound(s@.take(i as int));
        }
    }
    proof {
        assert(s@.take(s@.len() as int) =~= s@);
    }
    Ok(acc)
}

/// Sixteen to the given power.
pub open spec fn pow16(n: nat) -> int
    decreases n,
{
    if n == 0 {
        1
    } else {
        16 * pow16((n - 1) as nat)
    }
}

/// A hexadecimal string's value stays below sixteen to its length.
pub proof fn lemma_hex_val_pow(s: Seq<u8>)
    requires
        all_hex_digits(s),
    ensures
        0 <= hex_val(s) < pow16(s.len()),
    decreases s.len(),
{
    if s.len() > 0 {
        assert(all_hex_digits(s.drop_last())) by {
            assert(forall|j: int|
                0 <= j < s.drop_last().len() ==> s.drop_last()[j] == s[j]);
        }
        lemma_hex_val_pow(s.drop_last());
        assert(0 <= hex_digit_val(s.last()) < 16);
    }
}

/// A hexadecimal string of at most eight digits fits in 32 bits.
pub proof fn lemma_hex_val_bound(s: Seq<u8>)
    requires
        all_hex_digits(s),
        s.len() <= 8,
    ensures
        0 <= hex_val(s) < 0x100000000,
        s.len() < 8 ==> hex_val(s) < 0x10000000,
{
    lemma_hex_val_pow(s);
    assert(pow16(0) == 1);
    assert(pow16(1) == 16);
    assert(pow16(2) == 0x100);
    assert(pow16(3) == 0x1000);
    assert(pow16(4) == 0x10000);
    assert(pow16(5) == 0x100000);
    assert(pow16(6) == 0x1000000);
    assert(pow16(7) == 0x10000000);
    assert(pow16(8) == 0x100000000);
    if s.len() < 8 {
        lemma_pow16_mono(s.len(), 7);
    }
    lemma_pow16_mono(s.len(), 8);
}

/// `pow16` grows with its argument.
proof fn lemma_pow16_mono(a: nat, b: nat)
    requires
        a <= b,
    ensures
        pow16(a) <= pow16(b),
    decreases b,
{
    if a < b {
        lemma_pow16_mono(a, (b - 1) as nat);
        assert(pow16((b - 1) as nat) >= 1) by {
            lemma_pow16_pos((b - 1) as nat);
        }
    }
}

/// `pow16` is positive.
proof fn lemma_pow16_pos(n: nat)
    ensures
        pow16(n) >= 1,
    decreases n,
{
    if n > 0 {
        lemma_pow16_pos((n - 1) as nat);
    }
}

/// The slice with leading and trailing spaces removed, as the inclusive
/// range of surviving indices would give it.
pub open spec fn skip_leading_sp(s: Seq<u8>) -> Seq<u8>
    decreases s.len(),
{
    if s.len() > 0 && s[0] == SP {
        skip_leading_sp(s.drop_first())
    } else {
        s
    }
}

/// Trailing spaces removed.
pub open spec fn skip_trailing_sp(s: Seq<u8>) -> Seq<u8>
    decreases s.len(),
{
    if s.len() > 0 && s.last() == SP {
        skip_trailing_sp(s.drop_last())
    } else {
        s
    }
}

/// Leading and trailing spaces removed.
pub open spec fn trim_sp(s: Seq<u8>) -> Seq<u8> {
    skip_trailing_sp(skip_leading_sp(s))
}

proof fn lemma_skip_leading_sp_range(s: Seq<u8>, i: int)
    requires
        0 <= i <= s.len(),
        forall|j: int| 0 <= j < i ==> s[j] == SP,
        i < s.len() ==> s[i] != SP,
    ensures
        skip_leading_sp(s) == s.skip(i),
    decreases i,
{
    if i == 0 {
        assert(s.skip(0) =~= s);
    } else {
        assert(s.len() > 0 && s[0] == SP);
        let t = s.drop_first();
        assert(forall|j: int| 0 <= j < i - 1 ==> t[j] == s[j + 1]);
        lemma_skip_leading_sp_range(t, i - 1);
        assert(t.skip(i - 1) =~= s.skip(i));
    }
}

proof fn lemma_skip_trailing_sp_range(s: Seq<u8>, j: int)
    requires
        0 <= j <= s.len(),
        forall|k: int| j <= k < s.len() ==> s[k] == SP,
        j > 0 ==> s[j - 1] != SP,
    ensures
        skip_trailing_sp(s) == s.take(j),
    decreases s.len() - j,
{
    if j == s.len() {
        assert(s.take(j) =~= s);
    } else {
        assert(s.last() == SP);
        let t = s.drop_last();
        lemma_skip_trailing_sp_range(t, j);
        assert(t.take(j) =~= s.take(j));
    }
}

/// Trim spaces from both ends of a slice, handing back the trimmed copy.
pub fn trim_spaces(s: &[u8]) -> (r: Vec<u8>)
    ensures
        r@ == trim_sp(s@),
{
    let mut start: usize = 0;
    while start < s.len() && s[start] == SP
        invariant
            0 <= start <= s@.len(),
            forall|j: int| 0 <= j < start ==> s@[j] == SP,
        decreases s@.len() - start,
    {
        start = start + 1;
    }
    proof {
        lemma_skip_leading_sp_range(s@, start as int);
    }
    let mut end: usize = s.len();
    while end > start && s[end - 1] == SP
        invariant
            start <= end <= s@.len(),
            forall|k: int| end <= k < s@.len() ==> s@[k] == SP,
        decreases end,
    {
        end = end - 1;
    }
    let ghost mid = s@.skip(start as int);
    proof {
        assert(forall|k: int|
            (end - start) <= k < mid.len() ==> mid[k] == s@[k + start]);
        if end > start {
            assert(mid[end - start - 1] == s@[end - 1]);
        }
        lemma_skip_trailing_sp_range(mid, end - start);
    }
    let mut out: Vec<u8> = Vec::new();
    let mut i: usize = start;
    while i < end
        invariant
            start <= i <= end <= s@.len(),
            out@ =~= s@.subrange(start as int, i as int),
        decreases end - i,
    {
        out.push(s[i]);
        i = i + 1;
    }
    proof {
        assert(out@ =~= mid.take(end - start));
    }
    out
}

/// Copy a subrange of a slice.
pub fn subvec(s: &[u8], start: usize, end: usize) -> (r: Vec<u8>)
    requires
        start <= end <= s@.len(),
    ensures
        r@ == s@.subrange(start as int, end as int),
{
    let mut out: Vec<u8> = Vec::new();
    let mut i: usize = start;
    while i < end
        invariant
            start <= i <= end <= s@.len(),
            out@ =~= s@.subrange(start as int, i as int),
        decreases end - i,
    {
        out.push(s[i]);
        i = i + 1;
    }
    out
}

} // verus!
