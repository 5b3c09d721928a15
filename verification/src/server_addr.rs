//! Socket addresses as plain values, and the ICE-candidate helper that
//! extracts one from a candidate string.
//!
//! The candidate grammar is an IPv4 dotted quad followed by one space and
//! a port: one to three digits in each octet group, one to five digits of
//! port, delimited by word boundaries. The first such window whose numbers
//! fit (octets below 256, port below 65536) wins.

use vstd::prelude::*;
use vstd::string::*;

verus! {

/// An IPv4 address and port as plain values.
#[derive(Clone, Copy, PartialEq, Eq, Structural, Debug)]
pub struct SocketAddress {
    /// The first (most significant) octet.
    pub ip0: u8,
    /// The second octet.
    pub ip1: u8,
    /// The third octet.
    pub ip2: u8,
    /// The fourth octet.
    pub ip3: u8,
    /// The UDP port.
    pub port: u16,
}

/// Where the transport's address discovery stands.
#[derive(Clone, Copy, PartialEq, Eq, Structural, Debug)]
pub enum ServerAddr {
    /// The address is not known yet.
    Finding,
    /// The address was found.
    Found(SocketAddress),
}

/// Whether `b` is an ASCII digit.
pub open spec fn spec_is_digit(b: u8) -> bool {
    0x30 <= b <= 0x39
}

/// The number denoted by the digits `s[from..to]`.
pub open spec fn spec_digits_value(s: Seq<u8>, from: int, to: int) -> int
    decreases to - from,
{
    if to <= from {
        0
    } else {
        spec_digits_value(s, from, to - 1) * 10 + (s[to - 1] - 0x30)
    }
}

/// Reads the number denoted by `data[from..to]`, all digits, at most five
/// of them so the value fits comfortably in 32 bits.
fn digits_value(data: &[u8], from: usize, to: usize) -> (v: u32)
    requires
        from <= to <= data@.len(),
        to - from <= 5,
        forall|j: int| from <= j < to ==> spec_is_digit(#[trigger] data@[j]),
    ensures
        v == spec_digits_value(data@, from as int, to as int),
        v <= 99999,
{
    let mut v: u32 = 0;
    let mut i: usize = from;
    while i < to
        invariant
            from <= i <= to <= data@.len(),
            to - from <= 5,
            forall|j: int| from <= j < to ==> spec_is_digit(#[trigger] data@[j]),
            v == spec_digits_value(data@, from as int, i as int),
            v <= spec_pow10((i - from) as nat) - 1,
        decreases to - i,
    {
        proof {
            lemma_digits_value_bound(data@, from as int, i as int);
            lemma_pow10_small((i - from) as nat);
            lemma_pow10_small((i + 1 - from) as nat);
            assert(spec_is_digit(data@[i as int]));
        }
        v = v * 10 + ((data[i] - 0x30) as u32);
        i = i + 1;
    }
    proof {
        lemma_digits_value_bound(data@, from as int, to as int);
        lemma_pow10_small((to - from) as nat);
    }
    v
}

/// Ten to the `n`.
pub open spec fn spec_pow10(n: nat) -> int
    decreases n,
{
    if n == 0 {
        1
    } else {
        10 * spec_pow10((n - 1) as nat)
    }
}

/// Ten to a small power stays small.
pub proof fn lemma_pow10_small(n: nat)
    requires
        n <= 5,
    ensures
        spec_pow10(n) <= 100000,
{
    assert(spec_pow10(0) == 1);
    assert(spec_pow10(1) == 10);
    assert(spec_pow10(2) == 100);
    assert(spec_pow10(3) == 1000);
    assert(spec_pow10(4) == 10000);
    assert(spec_pow10(5) == 100000);
}

/// A run of at most five digits denotes a value below ten to its length.
pub proof fn lemma_digits_value_bound(s: Seq<u8>, from: int, to: int)
    requires
        0 <= from <= to <= s.len(),
        forall|j: int| from <= j < to ==> spec_is_digit(#[trigger] s[j]),
    ensures
        0 <= spec_digits_value(s, from, to) < spec_pow10((to - from) as nat),
    decreases to - from,
{
    if to > from {
        lemma_digits_value_bound(s, from, to - 1);
    }
}

/// A candidate window at position `at`: four digit groups of the given
/// lengths separated by dots, then a space, then the port digits, with
/// word boundaries on both sides.
pub open spec fn spec_window_at(
    s: Seq<u8>,
    at: int,
    l0: int,
    l1: int,
    l2: int,
    l3: int,
    lp: int,
) -> bool {
    let d0 = at;
    let d1 = d0 + l0 + 1;
    let d2 = d1 + l1 + 1;
    let d3 = d2 + l2 + 1;
    let sp = d3 + l3;
    let p0 = sp + 1;
    let end = p0 + lp;
    &&& 1 <= l0 <= 3 && 1 <= l1 <= 3 && 1 <= l2 <= 3 && 1 <= l3 <= 3 && 1 <= lp <= 5
    &&& 0 <= at
    &&& end <= s.len()
    &&& (forall|j: int| d0 <= j < d0 + l0 ==> spec_is_digit(#[trigger] s[j]))
    &&& s[d1 - 1] == 0x2e
    &&& (forall|j: int| d1 <= j < d1 + l1 ==> spec_is_digit(#[trigger] s[j]))
    &&& s[d2 - 1] == 0x2e
    &&& (forall|j: int| d2 <= j < d2 + l2 ==> spec_is_digit(#[trigger] s[j]))
    &&& s[d3 - 1] == 0x2e
    &&& (forall|j: int| d3 <= j < d3 + l3 ==> spec_is_digit(#[trigger] s[j]))
    &&& s[sp] == 0x20
    &&& (forall|j: int| p0 <= j < end ==> spec_is_digit(#[trigger] s[j]))
    &&& (at == 0 || !spec_is_digit(s[at - 1]))
    &&& (end == s.len() || !spec_is_digit(s[end]))
}

/// The numbers a window denotes are in range for an address and a port.
pub open spec fn spec_values_ok(
    s: Seq<u8>,
    at: int,
    l0: int,
    l1: int,
    l2: int,
    l3: int,
    lp: int,
) -> bool {
    let d1 = at + l0 + 1;
    let d2 = d1 + l1 + 1;
    let d3 = d2 + l2 + 1;
    let p0 = d3 + l3 + 1;
    &&& spec_digits_value(s, at, at + l0) <= 255
    &&& spec_digits_value(s, d1, d1 + l1) <= 255
    &&& spec_digits_value(s, d2, d2 + l2) <= 255
    &&& spec_digits_value(s, d3, d3 + l3) <= 255
    &&& spec_digits_value(s, p0, p0 + lp) <= 65535
}

/// A digit group of a window must coincide with the maximal digit run at
/// its position: shorter leaves a digit where the window wants its
/// delimiter or boundary, longer wants a digit where the run stopped.
pub proof fn lemma_forced(s: Seq<u8>, from: int, cap: int, rl: int, lw: int)
    requires
        0 <= from,
        from + rl <= s.len(),
        0 <= rl <= cap,
        forall|j: int| from <= j < from + rl ==> spec_is_digit(#[trigger] s[j]),
        rl < cap && from + rl < s.len() ==> !spec_is_digit(s[from + rl]),
        1 <= lw <= cap,
        from + lw <= s.len(),
        forall|j: int| from <= j < from + lw ==> spec_is_digit(#[trigger] s[j]),
        from + lw == s.len() || !spec_is_digit(s[from + lw]),
    ensures
        lw == rl,
{
    if lw < rl {
        assert(spec_is_digit(s[from + lw]));
    }
    if lw > rl {
        assert(spec_is_digit(s[from + rl]));
    }
}

/// The window at `at` with the given group lengths denotes exactly the
/// fields of `a`: each octet and the port are its digit-group values.
pub open spec fn spec_window_denotes(
    s: Seq<u8>,
    at: int,
    l0: int,
    l1: int,
    l2: int,
    l3: int,
    lp: int,
    a: SocketAddress,
) -> bool {
    let d1 = at + l0 + 1;
    let d2 = d1 + l1 + 1;
    let d3 = d2 + l2 + 1;
    let p0 = d3 + l3 + 1;
    &&& a.ip0 == spec_digits_value(s, at, at + l0)
    &&& a.ip1 == spec_digits_value(s, d1, d1 + l1)
    &&& a.ip2 == spec_digits_value(s, d2, d2 + l2)
    &&& a.ip3 == spec_digits_value(s, d3, d3 + l3)
    &&& a.port == spec_digits_value(s, p0, p0 + lp)
}

/// Parses the first address-and-port window out of an ICE candidate
/// string. `Found` carries exactly the octets and port denoted by a
/// grammar window with in-range numbers; `Finding` means no such window
/// was accepted.
#[verifier::loop_isolation(false)]
pub fn candidate_to_addr(candidate_str: &str) -> (r: ServerAddr)
    ensures
        r matches ServerAddr::Found(a) ==> exists|at: int, l0: int, l1: int, l2: int, l3: int,
            lp: int|
            spec_window_at(candidate_str.spec_bytes(), at, l0, l1, l2, l3, lp)
                && spec_window_denotes(
                candidate_str.spec_bytes(),
                at,
                l0,
                l1,
                l2,
                l3,
                lp,
                a,
            ),
        // Nothing is found only when no window with in-range numbers
        // exists anywhere in the string.
        r is Finding ==> forall|at: int, l0: int, l1: int, l2: int, l3: int, lp: int|
            !(spec_window_at(candidate_str.spec_bytes(), at, l0, l1, l2, l3, lp)
                && spec_values_ok(candidate_str.spec_bytes(), at, l0, l1, l2, l3, lp)),
{
    let data = candidate_str.as_bytes();
    let n = data.len();
    let mut at: usize = 0;
    while at < n
        invariant
            n == data@.len(),
            at <= n,
            data@ == candidate_str.spec_bytes(),
            forall|a: int, l0: int, l1: int, l2: int, l3: int, lp: int|
                a < at as int ==> !(spec_window_at(data@, a, l0, l1, l2, l3, lp)
                    && spec_values_ok(data@, a, l0, l1, l2, l3, lp)),
        decreases n - at,
    {
        // A window can only start on a digit at a word boundary.
        let boundary_ok = at == 0 || !(0x30 <= data[at - 1] && data[at - 1] <= 0x39);
        if boundary_ok && 0x30 <= data[at] && data[at] <= 0x39 {
            match try_window(data, at) {
                Some(addr) => {
                    return ServerAddr::Found(addr);
                },
                None => {},
            }
        } else {
            proof {
                assert forall|l0: int, l1: int, l2: int, l3: int, lp: int|
                    !(spec_window_at(data@, at as int, l0, l1, l2, l3, lp) && spec_values_ok(
                        data@,
                        at as int,
                        l0,
                        l1,
                        l2,
                        l3,
                        lp,
                    )) by {
                    if spec_window_at(data@, at as int, l0, l1, l2, l3, lp) {
                        assert(spec_is_digit(data@[at as int]));
                    }
                }
            }
        }
        at = at + 1;
    }
    proof {
        assert forall|a: int, l0: int, l1: int, l2: int, l3: int, lp: int|
            !(spec_window_at(data@, a, l0, l1, l2, l3, lp) && spec_values_ok(
                data@,
                a,
                l0,
                l1,
                l2,
                l3,
                lp,
            )) by {
            if spec_window_at(data@, a, l0, l1, l2, l3, lp) {
                // A window needs at least nine characters from its start.
                assert(a < data@.len());
            }
        }
    }
    ServerAddr::Finding
}

/// Measures a digit run starting at `from`, up to `cap` digits.
fn digit_run(data: &[u8], from: usize, cap: usize) -> (len: usize)
    requires
        from <= data@.len(),
    ensures
        len <= cap,
        from + len <= data@.len(),
        forall|j: int| from <= j < from + len ==> spec_is_digit(#[trigger] data@[j]),
        len < cap && from + len < data@.len() ==> !spec_is_digit(data@[from + len]),
    decreases cap,
{
    let mut len: usize = 0;
    while len < cap && len < data.len() - from && 0x30 <= data[from + len] && data[from + len]
        <= 0x39
        invariant
            from + len <= data@.len(),
            len <= cap,
            forall|j: int| from <= j < from + len ==> spec_is_digit(#[trigger] data@[j]),
        decreases cap - len,
    {
        len = len + 1;
    }
    len
}

/// Tries to read a full candidate window starting at `at`; `at` sits on a
/// digit at a word boundary.
#[verifier::loop_isolation(false)]
#[verifier::rlimit(100)]
#[verifier::spinoff_prover]
fn try_window(data: &[u8], at: usize) -> (r: Option<SocketAddress>)
    requires
        at < data@.len(),
        at == 0 || !spec_is_digit(data@[at as int - 1]),
    ensures
        r matches Some(a) ==> exists|l0: int, l1: int, l2: int, l3: int, lp: int|
            spec_window_at(data@, at as int, l0, l1, l2, l3, lp) && spec_window_denotes(
                data@,
                at as int,
                l0,
                l1,
                l2,
                l3,
                lp,
                a,
            ),
        r is None ==> forall|l0: int, l1: int, l2: int, l3: int, lp: int|
            !(spec_window_at(data@, at as int, l0, l1, l2, l3, lp) && spec_values_ok(
                data@,
                at as int,
                l0,
                l1,
                l2,
                l3,
                lp,
            )),
    {
        let n = data.len();
        let l0 = digit_run(data, at, 3);
        if l0 == 0 || at + l0 >= n || data[at + l0] != 0x2e {
            proof {
                assert forall|a0: int, a1: int, a2: int, a3: int, ap: int|
                    !(spec_window_at(data@, at as int, a0, a1, a2, a3, ap) && spec_values_ok(
                        data@,
                        at as int,
                        a0,
                        a1,
                        a2,
                        a3,
                        ap,
                    )) by {
                    if spec_window_at(data@, at as int, a0, a1, a2, a3, ap) {
                        if l0 == 0 {
                            assert(spec_is_digit(data@[at as int]));
                        } else {
                            lemma_forced(data@, at as int, 3, l0 as int, a0);
                        }
                    }
                }
            }
            return None;
        }
        let d1 = at + l0 + 1;
        let l1 = digit_run(data, d1, 3);
        if l1 == 0 || d1 + l1 >= n || data[d1 + l1] != 0x2e {
            proof {
                assert forall|a0: int, a1: int, a2: int, a3: int, ap: int|
                    !(spec_window_at(data@, at as int, a0, a1, a2, a3, ap) && spec_values_ok(
                        data@,
                        at as int,
                        a0,
                        a1,
                        a2,
                        a3,
                        ap,
                    )) by {
                    if spec_window_at(data@, at as int, a0, a1, a2, a3, ap) {
                        lemma_forced(data@, at as int, 3, l0 as int, a0);
                        if l1 == 0 {
                            assert(spec_is_digit(data@[d1 as int]));
                        } else {
                            lemma_forced(data@, d1 as int, 3, l1 as int, a1);
                        }
                    }
                }
            }
            return None;
        }
        let d2 = d1 + l1 + 1;
        let l2 = digit_run(data, d2, 3);
        if l2 == 0 || d2 + l2 >= n || data[d2 + l2] != 0x2e {
            proof {
                assert forall|a0: int, a1: int, a2: int, a3: int, ap: int|
                    !(spec_window_at(data@, at as int, a0, a1, a2, a3, ap) && spec_values_ok(
                        data@,
                        at as int,
                        a0,
                        a1,
                        a2,
                        a3,
                        ap,
                    )) by {
                    if spec_window_at(data@, at as int, a0, a1, a2, a3, ap) {
                        lemma_forced(data@, at as int, 3, l0 as int, a0);
                        lemma_forced(data@, d1 as int, 3, l1 as int, a1);
                        if l2 == 0 {
                            assert(spec_is_digit(data@[d2 as int]));
                        } else {
                            lemma_forced(data@, d2 as int, 3, l2 as int, a2);
                        }
                    }
                }
            }
            return None;
        }
        let d3 = d2 + l2 + 1;
        let l3 = digit_run(data, d3, 3);
        if l3 == 0 || d3 + l3 >= n || data[d3 + l3] != 0x20 {
            proof {
                assert forall|a0: int, a1: int, a2: int, a3: int, ap: int|
                    !(spec_window_at(data@, at as int, a0, a1, a2, a3, ap) && spec_values_ok(
                        data@,
                        at as int,
                        a0,
                        a1,
                        a2,
                        a3,
                        ap,
                    )) by {
                    if spec_window_at(data@, at as int, a0, a1, a2, a3, ap) {
                        lemma_forced(data@, at as int, 3, l0 as int, a0);
                        lemma_forced(data@, d1 as int, 3, l1 as int, a1);
                        lemma_forced(data@, d2 as int, 3, l2 as int, a2);
                        if l3 == 0 {
                            assert(spec_is_digit(data@[d3 as int]));
                        } else {
                            lemma_forced(data@, d3 as int, 3, l3 as int, a3);
                        }
                    }
                }
            }
            return None;
        }
        let p0 = d3 + l3 + 1;
        if p0 >= n {
            proof {
                assert forall|a0: int, a1: int, a2: int, a3: int, ap: int|
                    !(spec_window_at(data@, at as int, a0, a1, a2, a3, ap) && spec_values_ok(
                        data@,
                        at as int,
                        a0,
                        a1,
                        a2,
                        a3,
                        ap,
                    )) by {
                    if spec_window_at(data@, at as int, a0, a1, a2, a3, ap) {
                        lemma_forced(data@, at as int, 3, l0 as int, a0);
                        lemma_forced(data@, d1 as int, 3, l1 as int, a1);
                        lemma_forced(data@, d2 as int, 3, l2 as int, a2);
                        lemma_forced(data@, d3 as int, 3, l3 as int, a3);
                        assert(spec_is_digit(data@[p0 as int]));
                    }
                }
            }
            return None;
        }
        let lp = digit_run(data, p0, 5);
        if lp == 0 {
            proof {
                assert forall|a0: int, a1: int, a2: int, a3: int, ap: int|
                    !(spec_window_at(data@, at as int, a0, a1, a2, a3, ap) && spec_values_ok(
                        data@,
                        at as int,
                        a0,
                        a1,
                        a2,
                        a3,
                        ap,
                    )) by {
                    if spec_window_at(data@, at as int, a0, a1, a2, a3, ap) {
                        lemma_forced(data@, at as int, 3, l0 as int, a0);
                        lemma_forced(data@, d1 as int, 3, l1 as int, a1);
                        lemma_forced(data@, d2 as int, 3, l2 as int, a2);
                        lemma_forced(data@, d3 as int, 3, l3 as int, a3);
                        assert(spec_is_digit(data@[p0 as int]));
                    }
                }
            }
            return None;
        }
        // Word boundaries: the run before the first dot must not extend
        // past three digits, and the port run must end the digits.
        if at + l0 < n && 0x30 <= data[at + l0] && data[at + l0] <= 0x39 {
            return None;
        }
        if p0 + lp < n && 0x30 <= data[p0 + lp] && data[p0 + lp] <= 0x39 {
            proof {
                assert forall|a0: int, a1: int, a2: int, a3: int, ap: int|
                    !(spec_window_at(data@, at as int, a0, a1, a2, a3, ap) && spec_values_ok(
                        data@,
                        at as int,
                        a0,
                        a1,
                        a2,
                        a3,
                        ap,
                    )) by {
                    if spec_window_at(data@, at as int, a0, a1, a2, a3, ap) {
                        lemma_forced(data@, at as int, 3, l0 as int, a0);
                        lemma_forced(data@, d1 as int, 3, l1 as int, a1);
                        lemma_forced(data@, d2 as int, 3, l2 as int, a2);
                        lemma_forced(data@, d3 as int, 3, l3 as int, a3);
                        // Every admissible port group ends on a digit here,
                        // which the window's trailing boundary refuses.
                        if ap < lp as int {
                            assert(spec_is_digit(data@[p0 + ap]));
                        } else {
                            assert(spec_is_digit(data@[p0 + lp as int]));
                            assert(p0 + ap <= data@.len());
                            if ap > lp as int {
                                assert(spec_is_digit(data@[p0 + lp as int]));
                                assert(!spec_is_digit(data@[p0 + lp as int])
                                    || spec_is_digit(data@[p0 + ap - 1]));
                            }
                        }
                    }
                }
            }
            return None;
        }
        let o0 = digits_value(data, at, at + l0);
        let o1 = digits_value(data, d1, d1 + l1);
        let o2 = digits_value(data, d2, d2 + l2);
        let o3 = digits_value(data, d3, d3 + l3);
        let port = digits_value(data, p0, p0 + lp);
        if o0 > 255 || o1 > 255 || o2 > 255 || o3 > 255 || port > 65535 {
            proof {
                assert forall|a0: int, a1: int, a2: int, a3: int, ap: int|
                    !(spec_window_at(data@, at as int, a0, a1, a2, a3, ap) && spec_values_ok(
                        data@,
                        at as int,
                        a0,
                        a1,
                        a2,
                        a3,
                        ap,
                    )) by {
                    if spec_window_at(data@, at as int, a0, a1, a2, a3, ap) {
                        lemma_forced(data@, at as int, 3, l0 as int, a0);
                        lemma_forced(data@, d1 as int, 3, l1 as int, a1);
                        lemma_forced(data@, d2 as int, 3, l2 as int, a2);
                        lemma_forced(data@, d3 as int, 3, l3 as int, a3);
                        lemma_forced(data@, p0 as int, 5, lp as int, ap);
                    }
                }
            }
            return None;
        }
        let found = SocketAddress {
            ip0: o0 as u8,
            ip1: o1 as u8,
            ip2: o2 as u8,
            ip3: o3 as u8,
            port: port as u16,
        };
        proof {
            assert(spec_window_at(
                data@,
                at as int,
                l0 as int,
                l1 as int,
                l2 as int,
                l3 as int,
                lp as int,
            ));
            assert(spec_window_denotes(
                data@,
                at as int,
                l0 as int,
                l1 as int,
                l2 as int,
                l3 as int,
                lp as int,
                found,
            ));
        }
        Some(found)
    }

} // verus!
