use vstd::prelude::*;
use vstd::string::StringSliceAdditionalSpecFns;

verus! {

/// ASCII whitespace: space, tab, line feed, vertical tab, form feed,
/// carriage return.
pub open spec fn is_ascii_ws(b: u8) -> bool {
    b == 0x20 || (0x09 <= b <= 0x0D)
}

/// The bytes with their whitespace front removed.
pub open spec fn trim_front(s: Seq<u8>) -> Seq<u8>
    decreases s.len(),
{
    if s.len() > 0 && is_ascii_ws(s[0]) {
        trim_front(s.drop_first())
    } else {
        s
    }
}

/// The bytes with their whitespace tail removed.
pub open spec fn trim_back(s: Seq<u8>) -> Seq<u8>
    decreases s.len(),
{
    if s.len() > 0 && is_ascii_ws(s.last()) {
        trim_back(s.drop_last())
    } else {
        s
    }
}

/// The bytes with a leading `0x` or `0X` removed.
pub open spec fn strip_radix_prefix(s: Seq<u8>) -> Seq<u8> {
    if s.len() >= 2 && s[0] == 0x30 && (s[1] == 0x78 || s[1] == 0x58) {
        s.skip(2)
    } else {
        s
    }
}

/// An ASCII hexadecimal digit, either case.
pub open spec fn is_hex_digit(b: u8) -> bool {
    (0x30 <= b <= 0x39) || (0x41 <= b <= 0x46) || (0x61 <= b <= 0x66)
}

/// The numeric value of a hexadecimal digit byte.
pub open spec fn hex_digit_val(b: u8) -> int {
    if 0x30 <= b <= 0x39 {
        b - 0x30
    } else if 0x41 <= b <= 0x46 {
        b - 0x41 + 10
    } else if 0x61 <= b <= 0x66 {
        b - 0x61 + 10
    } else {
        0
    }
}

pub open spec fn all_hex(s: Seq<u8>) -> bool {
    forall|k: int| 0 <= k < s.len() ==> is_hex_digit(s[k])
}

/// The value of a sequence of hexadecimal digit bytes, most significant
/// first.
pub open spec fn hex_value(s: Seq<u8>) -> int
    decreases s.len(),
{
    if s.len() == 0 {
        0
    } else {
        hex_value(s.drop_last()) * 16 + hex_digit_val(s.last())
    }
}

/// What parsing a color string yields: trim ASCII whitespace, allow one
/// `0x`/`0X` prefix, then require at least one hexadecimal digit and a
/// value that fits 32 bits.
pub open spec fn spec_parse_hex_color(bytes: Seq<u8>) -> Option<u32> {
    let t = strip_radix_prefix(trim_back(trim_front(bytes)));
    if t.len() > 0 && all_hex(t) && hex_value(t) <= u32::MAX {
        Some(hex_value(t) as u32)
    } else {
        None
    }
}

proof fn lemma_trim_front_idx(s: Seq<u8>, k: int)
    requires
        0 <= k <= s.len(),
        forall|j: int| 0 <= j < k ==> is_ascii_ws(s[j]),
        k == s.len() || !is_ascii_ws(s[k]),
    ensures
        trim_front(s) == s.subrange(k, s.len() as int),
    decreases k,
{
    if k == 0 {
        assert(trim_front(s) =~= s.subrange(0, s.len() as int));
    } else {
        lemma_trim_front_idx(s.drop_first(), k - 1);
        assert(s.drop_first().subrange(k - 1, s.drop_first().len() as int) =~= s.subrange(
            k,
            s.len() as int,
        ));
    }
}

proof fn lemma_trim_back_idx(s: Seq<u8>, k: int)
    requires
        0 <= k <= s.len(),
        forall|j: int| k <= j < s.len() ==> is_ascii_ws(s[j]),
        k == 0 || !is_ascii_ws(s[k - 1]),
    ensures
        trim_back(s) == s.subrange(0, k),
    decreases s.len(),
{
    if k == s.len() {
        if s.len() > 0 {
            assert(!is_ascii_ws(s.last()));
        }
        assert(trim_back(s) =~= s.subrange(0, k));
    } else {
        assert(is_ascii_ws(s.last()));
        lemma_trim_back_idx(s.drop_last(), k);
        assert(s.drop_last().subrange(0, k) =~= s.subrange(0, k));
    }
}

proof fn lemma_hex_value_nonneg(s: Seq<u8>)
    ensures
        hex_value(s) >= 0,
    decreases s.len(),
{
    if s.len() > 0 {
        lemma_hex_value_nonneg(s.drop_last());
    }
}

proof fn lemma_hex_value_prefix_bound(s: Seq<u8>, j: int)
    requires
        0 <= j <= s.len(),
    ensures
        hex_value(s) >= hex_value(s.subrange(0, j)),
    decreases s.len() - j,
{
    if j == s.len() {
        assert(s.subrange(0, j) =~= s);
    } else {
        lemma_hex_value_prefix_bound(s, j + 1);
        let p = s.subrange(0, j + 1);
        assert(p.drop_last() =~= s.subrange(0, j));
        lemma_hex_value_nonneg(p.drop_last());
        assert(hex_value(p) == hex_value(p.drop_last()) * 16 + hex_digit_val(p.last()));
        assert(hex_digit_val(p.last()) >= 0);
    }
}

fn ws_byte(b: u8) -> (r: bool)
    ensures
        r == is_ascii_ws(b),
{
    b == 0x20 || (0x09 <= b && b <= 0x0D)
}

fn hex_byte_val(b: u8) -> (r: Option<u8>)
    ensures
        match r {
            Some(v) => is_hex_digit(b) && v == hex_digit_val(b),
            None => !is_hex_digit(b),
        },
{
    if 0x30 <= b && b <= 0x39 {
        Some(b - 0x30)
    } else if 0x41 <= b && b <= 0x46 {
        Some(b - 0x41 + 10)
    } else if 0x61 <= b && b <= 0x66 {
        Some(b - 0x61 + 10)
    } else {
        None
    }
}

/// Parse a packed color written in hexadecimal, such as `0xFF0000FF`:
/// ASCII whitespace around it is ignored, one `0x`/`0X` prefix is
/// allowed, and the digits must be non-empty and fit 32 bits.
pub fn parse_hex_color(s: &str) -> (color: Option<u32>)
    ensures
        color == spec_parse_hex_color(s.spec_bytes()),
{
    let bytes = s.as_bytes();
    let n = bytes.len();

    let mut start: usize = 0;
    while start < n && ws_byte(bytes[start])
        invariant
            n == bytes@.len(),
            start <= n,
            forall|j: int| 0 <= j < start ==> is_ascii_ws(bytes@[j]),
        decreases n - start,
    {
        start += 1;
    }
    proof {
        lemma_trim_front_idx(bytes@, start as int);
    }

    let mut end: usize = n;
    while end > start && ws_byte(bytes[end - 1])
        invariant
            n == bytes@.len(),
            start <= end <= n,
            forall|j: int| 0 <= j < start ==> is_ascii_ws(bytes@[j]),
            forall|j: int| end <= j < n ==> is_ascii_ws(bytes@[j]),
        decreases end,
    {
        end -= 1;
    }
    let ghost front = bytes@.subrange(start as int, n as int);
    proof {
        lemma_trim_back_idx(front, end - start);
        assert(front.subrange(0, end - start) =~= bytes@.subrange(start as int, end as int));
    }

    if end - start >= 2 && bytes[start] == 0x30 && (bytes[start + 1] == 0x78 || bytes[start + 1]
        == 0x58) {
        proof {
            assert(bytes@.subrange(start as int, end as int).skip(2) =~= bytes@.subrange(
                start + 2,
                end as int,
            ));
        }
        start += 2;
    }
    let ghost t = bytes@.subrange(start as int, end as int);
    assert(strip_radix_prefix(trim_back(trim_front(bytes@))) == t);

    if start == end {
        return None;
    }
    let mut acc: u64 = 0;
    let mut k: usize = start;
    while k < end
        invariant
            n == bytes@.len(),
            bytes@ == s.spec_bytes(),
            start <= k <= end <= n,
            t == bytes@.subrange(start as int, end as int),
            t == strip_radix_prefix(trim_back(trim_front(s.spec_bytes()))),
            start < end,
            acc <= u32::MAX,
            all_hex(t.subrange(0, k - start)),
            acc == hex_value(t.subrange(0, k - start)),
        decreases end - k,
    {
        let ghost prefix = t.subrange(0, k - start);
        match hex_byte_val(bytes[k]) {
            Some(d) => {
                proof {
                    assert(t.subrange(0, k + 1 - start).drop_last() =~= prefix);
                }
                acc = acc * 16 + d as u64;
                if acc > 0xFFFF_FFFF {
                    proof {
                        lemma_hex_value_prefix_bound(t, k + 1 - start);
                    }
                    return None;
                }
            },
            None => {
                proof {
                    assert(!is_hex_digit(t[k - start]));
                }
                return None;
            },
        }
        k += 1;
    }
    proof {
        assert(t.subrange(0, end - start) =~= t);
    }
    Some(acc as u32)
}

} // verus!
