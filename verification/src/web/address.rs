//! The listening address given on the command line.

use vstd::prelude::*;

verus! {

/// The index of the first ':' in `s` from `i` on (or the length).
pub open spec fn colon_at(s: Seq<char>, i: nat) -> nat
    decreases s.len() - i,
{
    if i >= s.len() {
        s.len()
    } else if s[i as int] == ':' {
        i
    } else {
        colon_at(s, i + 1)
    }
}

/// Whether every character of `s` is an ASCII digit.
pub open spec fn all_digits(s: Seq<char>) -> bool {
    forall|i: int| 0 <= i < s.len() ==> '0' <= #[trigger] s[i] <= '9'
}

/// The decimal value of a string of digits.
pub open spec fn decimal_value(s: Seq<char>) -> nat
    decreases s.len(),
{
    if s.len() == 0 {
        0
    } else {
        decimal_value(s.drop_last()) * 10 + ((s.last() as u32) - ('0' as u32)) as nat
    }
}

/// The port number `s` denotes, as `str::parse::<u16>` reads it: an
/// optional '+' followed by at least one ASCII digit, of value at most
/// 65535.
pub open spec fn spec_parse_port(s: Seq<char>) -> Option<u16> {
    let digits = if s.len() > 0 && s[0] == '+' {
        s.drop_first()
    } else {
        s
    };
    if digits.len() > 0 && all_digits(digits) && decimal_value(digits) <= 65535 {
        Some(decimal_value(digits) as u16)
    } else {
        None
    }
}

/// The host part of an address: the text before the first ':'.
pub open spec fn spec_host(addr: Seq<char>) -> Seq<char> {
    addr.take(colon_at(addr, 0) as int)
}

/// The port of an address: the text between its first ':' and the next
/// (or the end) read as a port number; 8080 when there is no ':' or that
/// text is no port number.
pub open spec fn spec_port(addr: Seq<char>) -> u16 {
    let c = colon_at(addr, 0);
    if c < addr.len() {
        let rest = addr.skip(c + 1 as int);
        match spec_parse_port(rest.take(colon_at(rest, 0) as int)) {
            Some(p) => p,
            None => 8080,
        }
    } else {
        8080
    }
}

proof fn lemma_colon_at(s: Seq<char>, i: nat)
    requires
        i <= s.len(),
    ensures
        i <= colon_at(s, i) <= s.len(),
        colon_at(s, i) < s.len() ==> s[colon_at(s, i) as int] == ':',
        forall|k: int| i <= k < colon_at(s, i) ==> s[k] != ':',
    decreases s.len() - i,
{
    if i < s.len() && s[i as int] != ':' {
        lemma_colon_at(s, i + 1);
    }
}

/// The index of the first ':' at or after `from` in `s`.
fn find_colon(s: &str, from: usize) -> (k: usize)
    requires
        from <= s@.len(),
    ensures
        k == colon_at(s@, from as nat),
{
    let n = s.unicode_len();
    let mut k = from;
    while k < n
        invariant
            from <= k <= n,
            n == s@.len(),
            colon_at(s@, from as nat) == colon_at(s@, k as nat),
        decreases n - k,
    {
        if s.get_char(k) == ':' {
            return k;
        }
        k = k + 1;
    }
    k
}

proof fn lemma_colon_shift(s: Seq<char>, c: nat, i: nat)
    requires
        c < s.len(),
        i <= s.len() - (c + 1),
    ensures
        colon_at(s.skip((c + 1) as int), i) + c + 1 == colon_at(s, c + 1 + i),
    decreases s.len() - (c + 1) - i,
{
    if i < s.len() - (c + 1) {
        assert(s.skip((c + 1) as int)[i as int] == s[(c + 1 + i) as int]);
        if s[(c + 1 + i) as int] != ':' {
            lemma_colon_shift(s, c, i + 1);
        }
    }
}

/// Reads the characters of `s` from `from` to `to` as a port number.
fn parse_port(s: &str, from: usize, to: usize) -> (p: Option<u16>)
    requires
        from <= to <= s@.len(),
    ensures
        p == spec_parse_port(s@.subrange(from as int, to as int)),
{
    let ghost seg = s@.subrange(from as int, to as int);
    let mut start = from;
    if from < to && s.get_char(from) == '+' {
        start = from + 1;
    }
    let ghost digits = s@.subrange(start as int, to as int);
    assert(digits =~= (if seg.len() > 0 && seg[0] == '+' {
        seg.drop_first()
    } else {
        seg
    }));
    if start == to {
        return None;
    }
    let mut value: u32 = 0;
    let mut k = start;
    while k < to
        invariant
            from <= start <= k <= to,
            to <= s@.len(),
            digits == s@.subrange(start as int, to as int),
            digits.len() > 0,
            seg == s@.subrange(from as int, to as int),
            digits == (if seg.len() > 0 && seg[0] == '+' {
                seg.drop_first()
            } else {
                seg
            }),
            all_digits(s@.subrange(start as int, k as int)),
            value == decimal_value(s@.subrange(start as int, k as int)),
            value <= 65535,
        decreases to - k,
    {
        let ch = s.get_char(k);
        let ghost prefix = s@.subrange(start as int, k as int);
        let ghost next = s@.subrange(start as int, k + 1);
        assert(next.drop_last() =~= prefix);
        assert(next.last() == ch);
        if ch < '0' || ch > '9' {
            assert(digits[k - start] == ch);
            assert(!all_digits(digits));
            return None;
        }
        let d = (ch as u32) - ('0' as u32);
        if value > 6553 || (value == 6553 && d > 5) {
            proof {
                if all_digits(digits) {
                    lemma_decimal_grows(digits, next.len() as int);
                    assert(digits.take(next.len() as int) =~= next);
                }
            }
            return None;
        }
        value = value * 10 + d;
        k = k + 1;
    }
    assert(s@.subrange(start as int, to as int) =~= digits);
    Some(value as u16)
}

/// A string of digits is worth at least any of its prefixes.
proof fn lemma_decimal_grows(s: Seq<char>, i: int)
    requires
        0 <= i <= s.len(),
        all_digits(s),
    ensures
        decimal_value(s.take(i)) <= decimal_value(s),
    decreases s.len(),
{
    if i < s.len() {
        lemma_decimal_grows(s.drop_last(), i);
        assert(s.drop_last().take(i) =~= s.take(i));
    } else {
        assert(s.take(i) =~= s);
    }
}

/// Splits a `host:port` address: the host is the text before the first
/// ':', the port the text between it and the next ':' read as a port
/// number, 8080 when missing or invalid.
pub fn parse_addr_parts(addr: &str) -> (parts: (String, u16))
    ensures
        parts.0@ == spec_host(addr@),
        parts.1 == spec_port(addr@),
{
    let n = addr.unicode_len();
    let c = find_colon(addr, 0);
    proof {
        lemma_colon_at(addr@, 0);
    }
    let host = addr.substring_char(0, c).to_string();
    let port = if c < n {
        let c2 = find_colon(addr, c + 1);
        proof {
            lemma_colon_at(addr@, (c + 1) as nat);
            lemma_colon_shift(addr@, c as nat, 0);
            let rest = addr@.skip(c + 1);
            assert(rest.take(colon_at(rest, 0) as int) =~= addr@.subrange(c + 1, c2 as int));
        }
        match parse_port(addr, c + 1, c2) {
            Some(p) => p,
            None => 8080,
        }
    } else {
        8080
    };
    (host, port)
}

} // verus!
