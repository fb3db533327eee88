//! Helpers on inbound chat payloads: cleaning the text before it is decoded,
//! and the repeating-key XOR mask.
use vstd::prelude::*;
use crate::json::chars_of;

verus! {

/// Unicode `White_Space`, the set that `char::is_whitespace` tests.
pub open spec fn is_ws(c: char) -> bool {
    let u = c as u32;
    (9 <= u && u <= 13) || u == 32 || u == 0x85 || u == 0xa0 || u == 0x1680 || (0x2000 <= u && u
        <= 0x200a) || u == 0x2028 || u == 0x2029 || u == 0x202f || u == 0x205f || u == 0x3000
}

/// First position at or after `i` that holds no whitespace.
pub open spec fn lead_end(s: Seq<char>, i: int) -> int
    decreases s.len() - i,
{
    if 0 <= i < s.len() && is_ws(s[i]) {
        lead_end(s, i + 1)
    } else {
        i
    }
}

/// End of `s.take(j)` without its trailing whitespace.
pub open spec fn trail_end(s: Seq<char>, j: int) -> int
    decreases j,
{
    if 0 < j <= s.len() && is_ws(s[j - 1]) {
        trail_end(s, j - 1)
    } else {
        j
    }
}

/// `s` without leading and trailing whitespace, as `str::trim` gives it.
pub open spec fn trimmed(s: Seq<char>) -> Seq<char> {
    let a = lead_end(s, 0);
    if a >= s.len() {
        Seq::empty()
    } else {
        s.subrange(a, trail_end(s, s.len() as int))
    }
}

/// `s` without one pair of surrounding double quotes, if it has them.
pub open spec fn unquoted(s: Seq<char>) -> Seq<char> {
    if s.len() >= 2 && s[0] == '"' && s.last() == '"' {
        s.subrange(1, s.len() - 1)
    } else {
        s
    }
}

/// The cleaned payload: trimmed, unquoted, and with a leading
/// `[UNREADABLE] ` marker removed and the rest trimmed again.
pub open spec fn cleaned(s: Seq<char>) -> Seq<char> {
    let t = unquoted(trimmed(s));
    let marker = "[UNREADABLE] "@;
    if t.len() >= marker.len() && t.take(marker.len() as int) == marker {
        trimmed(t.skip(marker.len() as int))
    } else {
        t
    }
}

fn is_ws_exec(c: char) -> (r: bool)
    ensures
        r == is_ws(c),
{
    let u = c as u32;
    (9 <= u && u <= 13) || u == 32 || u == 0x85 || u == 0xa0 || u == 0x1680 || (0x2000 <= u && u
        <= 0x200a) || u == 0x2028 || u == 0x2029 || u == 0x202f || u == 0x205f || u == 0x3000
}

proof fn lemma_lead_end_run(s: Seq<char>, i: int, k: int)
    requires
        0 <= i <= k <= s.len(),
        forall|m: int| i <= m < k ==> is_ws(#[trigger] s[m]),
    ensures
        lead_end(s, i) == lead_end(s, k),
    decreases k - i,
{
    if i < k {
        lemma_lead_end_run(s, i + 1, k);
    }
}

proof fn lemma_trail_end_run(s: Seq<char>, j: int, k: int)
    requires
        0 <= k <= j <= s.len(),
        forall|m: int| k <= m < j ==> is_ws(#[trigger] s[m]),
    ensures
        trail_end(s, j) == trail_end(s, k),
    decreases j - k,
{
    if k < j {
        lemma_trail_end_run(s, j - 1, k);
    }
}

/// Bounds of the trimmed part of `cs[from..to]`.
pub(crate) fn trim_bounds(cs: &Vec<char>, from: usize, to: usize) -> (r: (usize, usize))
    requires
        from <= to <= cs@.len(),
    ensures
        from <= r.0 <= r.1 <= to,
        trimmed(cs@.subrange(from as int, to as int)) == cs@.subrange(r.0 as int, r.1 as int),
{
    let ghost t = cs@.subrange(from as int, to as int);
    let mut a: usize = from;
    while a < to && is_ws_exec(cs[a])
        invariant
            from <= a <= to <= cs@.len(),
            forall|m: int| from <= m < a ==> is_ws(#[trigger] cs@[m]),
        decreases to - a,
    {
        a = a + 1;
    }
    proof {
        assert forall|m: int| 0 <= m < a - from implies is_ws(#[trigger] t[m]) by {
            assert(t[m] == cs@[from + m]);
        }
        lemma_lead_end_run(t, 0, (a - from) as int);
        if a < to {
            assert(t[a - from] == cs@[a as int]);
        }
    }
    if a == to {
        assert(trimmed(t) =~= cs@.subrange(a as int, a as int));
        return (a, a);
    }
    let mut b: usize = to;
    while b > a && is_ws_exec(cs[b - 1])
        invariant
            from <= a < to <= cs@.len(),
            a <= b <= to,
            !is_ws(cs@[a as int]),
            forall|m: int| b <= m < to ==> is_ws(#[trigger] cs@[m]),
        decreases b,
    {
        b = b - 1;
    }
    proof {
        assert(t[a - from] == cs@[a as int]);
        assert(b > a);
        assert forall|m: int| b - from <= m < t.len() implies is_ws(#[trigger] t[m]) by {
            assert(t[m] == cs@[from + m]);
        }
        lemma_trail_end_run(t, t.len() as int, (b - from) as int);
        assert(t[b - from - 1] == cs@[b - 1]);
        assert(t.subrange((a - from) as int, (b - from) as int) =~= cs@.subrange(a as int, b as int));
    }
    (a, b)
}

/// Cleans an inbound payload before it is decoded: trims whitespace, strips
/// one pair of surrounding quotes, and strips a leading `[UNREADABLE] `
/// marker, trimming again after it.
pub fn clean_transport_payload(s: &str) -> (r: &str)
    ensures
        r@ == cleaned(s@),
{
    let cs = chars_of(s);
    let (a0, b0) = trim_bounds(&cs, 0, cs.len());
    assert(cs@.subrange(0, cs@.len() as int) =~= s@);
    let mut a = a0;
    let mut b = b0;
    if b - a >= 2 && cs[a] == '"' && cs[b - 1] == '"' {
        a = a + 1;
        b = b - 1;
    }
    let ghost t = cs@.subrange(a as int, b as int);
    assert(t =~= unquoted(trimmed(s@)));
    let marker = chars_of("[UNREADABLE] ");
    let mut has_marker = b - a >= marker.len();
    let mut k: usize = 0;
    while has_marker && k < marker.len()
        invariant
            a <= b <= cs@.len(),
            t == cs@.subrange(a as int, b as int),
            has_marker ==> b - a >= marker@.len(),
            has_marker ==> forall|m: int| 0 <= m < k ==> cs@[a + m] == marker@[m],
            !has_marker ==> !(t.len() >= marker@.len() && t.take(marker@.len() as int) == marker@),
            k <= marker@.len(),
        decreases marker@.len() - k,
    {
        if cs[a + k] != marker[k] {
            assert(t.take(marker@.len() as int)[k as int] == cs@[a + k]);
            has_marker = false;
        }
        k = k + 1;
    }
    if has_marker {
        assert(t.take(marker@.len() as int) =~= marker@);
        let (c, d) = trim_bounds(&cs, a + marker.len(), b);
        assert(t.skip(marker@.len() as int) =~= cs@.subrange(a + marker@.len(), b as int));
        s.substring_char(c, d)
    } else {
        s.substring_char(a, b)
    }
}

/// XOR of `data` with `key` repeated over its length.
pub fn xor_with_key(data: &[u8], key: &[u8]) -> (r: Vec<u8>)
    requires
        data@.len() == 0 || key@.len() > 0,
    ensures
        r@.len() == data@.len(),
        forall|i: int| 0 <= i < data@.len() ==> #[trigger] r@[i] == data@[i] ^ key@[i % key@.len() as int],
{
    let mut r: Vec<u8> = Vec::new();
    let mut i: usize = 0;
    while i < data.len()
        invariant
            data@.len() == 0 || key@.len() > 0,
            i <= data@.len(),
            r@.len() == i,
            forall|m: int| 0 <= m < i ==> #[trigger] r@[m] == data@[m] ^ key@[m % key@.len() as int],
        decreases data@.len() - i,
    {
        r.push(data[i] ^ key[i % key.len()]);
        i = i + 1;
    }
    r
}

} // verus!
