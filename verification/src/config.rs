//! Validation of the capture configuration: the resolution string a user
//! types is parsed and bounds-checked here; collecting the string is the
//! front end's job.

use vstd::prelude::*;

verus! {

/// An ASCII decimal digit.
pub open spec fn is_ascii_digit(b: u8) -> bool {
    48 <= b <= 57
}

/// A non-empty run of ASCII digits.
pub open spec fn all_digits(s: Seq<u8>) -> bool {
    s.len() > 0 && forall|i: int| 0 <= i < s.len() ==> is_ascii_digit(#[trigger] s[i])
}

/// The number a digit run denotes.
pub open spec fn dec_value(s: Seq<u8>) -> int
    decreases s.len(),
{
    if s.len() == 0 {
        0
    } else {
        dec_value(s.drop_last()) * 10 + (s.last() - 48)
    }
}

/// Position of the first `x` separator, if any.
pub open spec fn first_x(s: Seq<u8>, i: int) -> Option<int>
    decreases s.len() - i,
{
    if i < 0 || i >= s.len() {
        None
    } else if s[i] == 120 {
        Some(i)
    } else {
        first_x(s, i + 1)
    }
}

/// The string is `WIDTHxHEIGHT` with exactly one `x` and digit runs on
/// both sides.
pub open spec fn well_formed_resolution(s: Seq<u8>) -> bool {
    match first_x(s, 0) {
        Some(k) => {
            &&& all_digits(s.take(k))
            &&& all_digits(s.skip(k + 1))
            &&& forall|m: int| k < m < s.len() ==> s[m] != 120
        },
        None => false,
    }
}

/// The width such a string denotes.
pub open spec fn resolution_width(s: Seq<u8>) -> int {
    dec_value(s.take(first_x(s, 0)->0))
}

/// The height such a string denotes.
pub open spec fn resolution_height(s: Seq<u8>) -> int {
    dec_value(s.skip(first_x(s, 0)->0 + 1))
}

/// Digit runs denote non-negative numbers.
proof fn lemma_dec_value_nonneg(s: Seq<u8>)
    requires
        forall|i: int| 0 <= i < s.len() ==> is_ascii_digit(#[trigger] s[i]),
    ensures
        dec_value(s) >= 0,
    decreases s.len(),
{
    if s.len() > 0 {
        lemma_dec_value_nonneg(s.drop_last());
    }
}

/// A digit run denotes at least as much as any of its prefixes.
proof fn lemma_dec_value_prefix_le(s: Seq<u8>, i: int)
    requires
        0 <= i <= s.len(),
        forall|m: int| 0 <= m < s.len() ==> is_ascii_digit(#[trigger] s[m]),
    ensures
        dec_value(s) >= dec_value(s.take(i)),
    decreases s.len() - i,
{
    if i < s.len() {
        lemma_dec_value_prefix_le(s, i + 1);
        assert(s.take(i + 1).drop_last() =~= s.take(i));
        lemma_dec_value_nonneg(s.take(i));
        assert(dec_value(s.take(i + 1)) == dec_value(s.take(i)) * 10 + (s[i] - 48));
        assert(dec_value(s.take(i)) * 10 >= dec_value(s.take(i)));
    } else {
        assert(s.take(i) =~= s);
    }
}

/// `first_x` finds the least separator position.
proof fn lemma_first_x(s: Seq<u8>, i: int)
    requires
        0 <= i,
    ensures
        match first_x(s, i) {
            Some(k) => i <= k < s.len() && s[k] == 120 && forall|m: int| i <= m < k ==> s[m] != 120,
            None => forall|m: int| i <= m < s.len() ==> s[m] != 120,
        },
    decreases s.len() - i,
{
    if i < s.len() && s[i] != 120 {
        lemma_first_x(s, i + 1);
    }
}

/// Parses a non-empty digit run as a number, refusing anything else and
/// anything too large for a `u32`.
fn parse_u32_digits(s: &[u8]) -> (r: Option<u32>)
    ensures
        r matches Some(v) <==> all_digits(s@) && dec_value(s@) <= u32::MAX,
        r matches Some(v) ==> v == dec_value(s@),
{
    let n = s.len();
    if n == 0 {
        return None;
    }
    let mut acc: u32 = 0;
    let mut i: usize = 0;
    while i < n
        invariant
            i <= n == s@.len(),
            forall|m: int| 0 <= m < i ==> is_ascii_digit(#[trigger] s@[m]),
            acc == dec_value(s@.take(i as int)),
        decreases n - i,
    {
        let b = s[i];
        if b < 48 || b > 57 {
            return None;
        }
        let d: u32 = (b - 48) as u32;
        let next = match acc.checked_mul(10) {
            Some(m) => m.checked_add(d),
            None => None,
        };
        proof {
            assert(s@.take(i + 1).drop_last() =~= s@.take(i as int));
            assert(s@.take(i + 1).last() == s@[i as int]);
        }
        match next {
            Some(v) => {
                acc = v;
            },
            None => {
                // the run so far already exceeds u32::MAX, so the whole
                // run does too
                proof {
                    if all_digits(s@) {
                        lemma_dec_value_prefix_le(s@, i + 1);
                    }
                }
                return None;
            },
        }
        i = i + 1;
    }
    proof {
        assert(s@.take(n as int) =~= s@);
    }
    Some(acc)
}

/// Parses a `WIDTHxHEIGHT` resolution string and bounds-checks it: both
/// sides must be decimal numbers, at least 100x100 and at most 7680x4320.
/// Each rejection names its reason.
pub fn parse_resolution(resolution: &[u8]) -> (r: Result<(u32, u32), String>)
    ensures
        r matches Ok(wh) <==> {
            &&& well_formed_resolution(resolution@)
            &&& 100 <= resolution_width(resolution@) <= 7680
            &&& 100 <= resolution_height(resolution@) <= 4320
        },
        r matches Ok(wh) ==> wh.0 == resolution_width(resolution@) && wh.1 == resolution_height(
            resolution@,
        ),
{
    let ghost s = resolution@;
    proof {
        lemma_first_x(s, 0);
    }
    let n = resolution.len();
    let mut k: usize = 0;
    let mut found = false;
    while k < n && !found
        invariant
            s == resolution@,
            k <= n == s.len(),
            !found ==> forall|m: int| 0 <= m < k ==> s[m] != 120,
            found ==> k < n && s[k as int] == 120 && forall|m: int| 0 <= m < k ==> s[m] != 120,
        decreases n - k + (if found { 0int } else { 1int }),
    {
        if resolution[k] == 120 {
            found = true;
        } else {
            k = k + 1;
        }
    }
    if !found {
        proof {
            assert(first_x(s, 0) is None);
        }
        return Err(message("Resolution must be in format WIDTHxHEIGHT (e.g., 1920x1080)"));
    }
    proof {
        assert(first_x(s, 0) == Some(k as int));
    }
    // a second separator anywhere after the first makes the string invalid
    let mut m: usize = k + 1;
    while m < n
        invariant
            s == resolution@,
            k + 1 <= m <= n == s.len(),
            k < n && s[k as int] == 120,
            first_x(s, 0) == Some(k as int),
            forall|j: int| k < j < m ==> s[j] != 120,
        decreases n - m,
    {
        if resolution[m] == 120 {
            proof {
                assert(s[m as int] == 120);
            }
            return Err(message("Resolution must be in format WIDTHxHEIGHT (e.g., 1920x1080)"));
        }
        m = m + 1;
    }
    let width = match parse_u32_digits(slice_range(resolution, 0, k)) {
        Some(w) => w,
        None => {
            return Err(message("Invalid width"));
        },
    };
    let height = match parse_u32_digits(slice_range(resolution, k + 1, n)) {
        Some(h) => h,
        None => {
            return Err(message("Invalid height"));
        },
    };
    proof {
        assert(s.subrange(0, k as int) =~= s.take(k as int));
        assert(s.subrange(k + 1, n as int) =~= s.skip(k + 1));
    }
    if width < 100 || height < 100 {
        return Err(message("Resolution too small: minimum 100x100"));
    }
    if width > 7680 || height > 4320 {
        return Err(message("Resolution too large: maximum 7680x4320"));
    }
    Ok((width, height))
}

/// An owned copy of a static message.
fn message(msg: &str) -> (r: String)
    ensures
        r@ == msg@,
{
    msg.to_owned()
}

/// The sub-slice `[from, to)` of a byte slice.
fn slice_range(s: &[u8], from: usize, to: usize) -> (r: &[u8])
    requires
        from <= to <= s@.len(),
    ensures
        r@ == s@.subrange(from as int, to as int),
{
    &s[from..to]
}

} // verus!
