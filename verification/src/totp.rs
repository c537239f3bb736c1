use vstd::arithmetic::div_mod::{lemma_fundamental_div_mod, lemma_fundamental_div_mod_converse};
use vstd::prelude::*;
use vstd::string::StringExecFns;

use crate::order::chars_of;

verus! {

// ------------------------------------------------------------------
// trusted names and wrappers
// ------------------------------------------------------------------

/// The HMAC-SHA-1 digest of a message under a key. The algorithm is outside
/// work; the digest is a fixed function of key and message, so it only gets
/// a name here.
pub uninterp spec fn hmac_sha1_of(key: Seq<u8>, msg: Seq<u8>) -> Seq<u8>;

/// Relies on `hmac::Hmac<sha1::Sha1>`: an HMAC instance accepts a key of any
/// length, so `new_from_slice` never fails, and the SHA-1 output is 20 bytes.
#[verifier::external_body]
fn hmac_sha1(key: &Vec<u8>, msg: &Vec<u8>) -> (r: Vec<u8>)
    ensures
        r@ == hmac_sha1_of(key@, msg@),
        r@.len() == 20,
{
    let mut mac = <hmac::Hmac<sha1::Sha1> as hmac::KeyInit>::new_from_slice(key.as_slice())
        .expect("an HMAC accepts keys of any length");
    hmac::Mac::update(&mut mac, msg.as_slice());
    hmac::Mac::finalize(mac).into_bytes().to_vec()
}

/// Relies on `chrono::Utc::now`: seconds since the Unix epoch. Which second
/// it is cannot be promised, but `now` refuses a clock set before the epoch,
/// so the count is never negative.
#[verifier::external_body]
pub(crate) fn current_unix_seconds() -> (t: i64)
    ensures
        t >= 0,
{
    chrono::Utc::now().timestamp()
}

// ------------------------------------------------------------------
// code derivation: dynamic truncation and decimal formatting
// ------------------------------------------------------------------

pub open spec fn digit_char(d: u32) -> char {
    if d == 0 {
        '0'
    } else if d == 1 {
        '1'
    } else if d == 2 {
        '2'
    } else if d == 3 {
        '3'
    } else if d == 4 {
        '4'
    } else if d == 5 {
        '5'
    } else if d == 6 {
        '6'
    } else if d == 7 {
        '7'
    } else if d == 8 {
        '8'
    } else {
        '9'
    }
}

/// Six decimal digits, zero padded on the left.
pub open spec fn digits6(n: u32) -> Seq<char> {
    seq![
        digit_char((n / 100000) % 10),
        digit_char((n / 10000) % 10),
        digit_char((n / 1000) % 10),
        digit_char((n / 100) % 10),
        digit_char((n / 10) % 10),
        digit_char(n % 10),
    ]
}

/// The dynamic truncation rule of the one-time-password standard: the low
/// four bits of the last digest byte pick an offset, four bytes from there
/// form a 31-bit integer, and the code keeps its last six decimal digits.
pub open spec fn truncated_code(digest: Seq<u8>) -> u32
    recommends
        digest.len() == 20,
{
    let off = (digest[19] & 0xf) as int;
    let b0 = (digest[off] & 0x7f) as u32;
    let b1 = digest[off + 1] as u32;
    let b2 = digest[off + 2] as u32;
    let b3 = digest[off + 3] as u32;
    let bin = (b0 << 24) | (b1 << 16) | (b2 << 8) | b3;
    bin % 1000000
}

/// The counter in big-endian byte order, as the standard hashes it.
pub open spec fn be_bytes(c: u64) -> Seq<u8> {
    seq![
        (((c >> 56) & 0xff) as u8),
        (((c >> 48) & 0xff) as u8),
        (((c >> 40) & 0xff) as u8),
        (((c >> 32) & 0xff) as u8),
        (((c >> 24) & 0xff) as u8),
        (((c >> 16) & 0xff) as u8),
        (((c >> 8) & 0xff) as u8),
        ((c & 0xff) as u8),
    ]
}

/// The six-digit code for a secret at a time, over the named digest.
pub open spec fn totp_code(secret: Seq<u8>, period: u64, now: u64) -> Seq<char>
    recommends
        period > 0,
{
    digits6(truncated_code(hmac_sha1_of(secret, be_bytes(now / period))))
}

proof fn lemma_digit_char_value(d: u32)
    requires
        d < 10,
    ensures
        dec_digit(digit_char(d)) == Some(d as int),
{
}

proof fn lemma_dec_value_push(s: Seq<char>, c: char)
    ensures
        dec_value(s.push(c)) == dec_value(s) * 10 + (match dec_digit(c) {
            Some(d) => d,
            None => 0,
        }),
{
    assert(s.push(c).drop_last() =~= s);
    assert(s.push(c).last() == c);
}

/// Six zero-padded decimal digits, spelling exactly `n` when `n` is below
/// one million.
pub proof fn lemma_digits6_spells(n: u32)
    ensures
        digits6(n).len() == 6,
        all_digits(digits6(n)),
        n < 1000000 ==> dec_value(digits6(n)) == n as int,
{
    let d5 = ((n / 100000) % 10) as int;
    let d4 = ((n / 10000) % 10) as int;
    let d3 = ((n / 1000) % 10) as int;
    let d2 = ((n / 100) % 10) as int;
    let d1 = ((n / 10) % 10) as int;
    let d0 = (n % 10) as int;
    lemma_digit_char_value((n / 100000) % 10);
    lemma_digit_char_value((n / 10000) % 10);
    lemma_digit_char_value((n / 1000) % 10);
    lemma_digit_char_value((n / 100) % 10);
    lemma_digit_char_value((n / 10) % 10);
    lemma_digit_char_value(n % 10);
    let e = Seq::<char>::empty();
    let p1 = e.push(digit_char((n / 100000) % 10));
    let p2 = p1.push(digit_char((n / 10000) % 10));
    let p3 = p2.push(digit_char((n / 1000) % 10));
    let p4 = p3.push(digit_char((n / 100) % 10));
    let p5 = p4.push(digit_char((n / 10) % 10));
    let p6 = p5.push(digit_char(n % 10));
    assert(digits6(n) =~= p6);
    lemma_dec_value_push(e, digit_char((n / 100000) % 10));
    lemma_dec_value_push(p1, digit_char((n / 10000) % 10));
    lemma_dec_value_push(p2, digit_char((n / 1000) % 10));
    lemma_dec_value_push(p3, digit_char((n / 100) % 10));
    lemma_dec_value_push(p4, digit_char((n / 10) % 10));
    lemma_dec_value_push(p5, digit_char(n % 10));
    assert(dec_value(digits6(n)) == ((((d5 * 10 + d4) * 10 + d3) * 10 + d2) * 10 + d1) * 10 + d0);
    if n < 1000000 {
        lemma_fundamental_div_mod(n as int, 10);
        lemma_fundamental_div_mod(n as int / 10, 10);
        lemma_fundamental_div_mod(n as int / 100, 10);
        lemma_fundamental_div_mod(n as int / 1000, 10);
        lemma_fundamental_div_mod(n as int / 10000, 10);
        lemma_fundamental_div_mod(n as int / 100000, 10);
        vstd::arithmetic::div_mod::lemma_div_denominator(n as int, 10, 10);
        vstd::arithmetic::div_mod::lemma_div_denominator(n as int, 100, 10);
        vstd::arithmetic::div_mod::lemma_div_denominator(n as int, 1000, 10);
        vstd::arithmetic::div_mod::lemma_div_denominator(n as int, 10000, 10);
        vstd::arithmetic::div_mod::lemma_div_denominator(n as int, 100000, 10);
        assert(n as int / 1000000 == 0);
        assert(dec_value(digits6(n)) == n as int);
    }
}

/// A derived code is six characters, each a decimal digit — the zero-padded
/// form the standard asks for — and spells in decimal exactly the truncated
/// value of the digest: the formatting of the one-time-password pipeline,
/// stated once for every secret, period and time.
pub proof fn lemma_code_shape(secret: Seq<u8>, period: u64, now: u64)
    ensures
        totp_code(secret, period, now).len() == 6,
        all_digits(totp_code(secret, period, now)),
        dec_value(totp_code(secret, period, now)) == truncated_code(
            hmac_sha1_of(secret, be_bytes(now / period)),
        ) as int,
{
    let t = truncated_code(hmac_sha1_of(secret, be_bytes(now / period)));
    assert(t < 1000000);
    lemma_digits6_spells(t);
}

fn digit_str(d: u32) -> (r: &'static str)
    requires
        d < 10,
    ensures
        r@ == seq![digit_char(d)],
{
    proof {
        reveal_strlit("0");
        reveal_strlit("1");
        reveal_strlit("2");
        reveal_strlit("3");
        reveal_strlit("4");
        reveal_strlit("5");
        reveal_strlit("6");
        reveal_strlit("7");
        reveal_strlit("8");
        reveal_strlit("9");
    }
    if d == 0 {
        proof {
            assert("0"@ =~= seq![digit_char(d)]);
        }
        "0"
    } else if d == 1 {
        proof {
            assert("1"@ =~= seq![digit_char(d)]);
        }
        "1"
    } else if d == 2 {
        proof {
            assert("2"@ =~= seq![digit_char(d)]);
        }
        "2"
    } else if d == 3 {
        proof {
            assert("3"@ =~= seq![digit_char(d)]);
        }
        "3"
    } else if d == 4 {
        proof {
            assert("4"@ =~= seq![digit_char(d)]);
        }
        "4"
    } else if d == 5 {
        proof {
            assert("5"@ =~= seq![digit_char(d)]);
        }
        "5"
    } else if d == 6 {
        proof {
            assert("6"@ =~= seq![digit_char(d)]);
        }
        "6"
    } else if d == 7 {
        proof {
            assert("7"@ =~= seq![digit_char(d)]);
        }
        "7"
    } else if d == 8 {
        proof {
            assert("8"@ =~= seq![digit_char(d)]);
        }
        "8"
    } else {
        proof {
            assert("9"@ =~= seq![digit_char(d)]);
        }
        "9"
    }
}

fn format_digits6(n: u32) -> (r: String)
    ensures
        r@ == digits6(n),
{
    let mut s = String::new();
    s.append(digit_str((n / 100000) % 10));
    s.append(digit_str((n / 10000) % 10));
    s.append(digit_str((n / 1000) % 10));
    s.append(digit_str((n / 100) % 10));
    s.append(digit_str((n / 10) % 10));
    s.append(digit_str(n % 10));
    proof {
        assert(s@ =~= digits6(n));
    }
    s
}

fn code_digits(digest: &Vec<u8>) -> (r: String)
    requires
        digest@.len() == 20,
    ensures
        r@ == digits6(truncated_code(digest@)),
{
    let last = digest[19];
    proof {
        assert(last & 0xf < 16) by (bit_vector);
    }
    let off = (last & 0xf) as usize;
    let b0 = digest[off];
    let b1 = digest[off + 1];
    let b2 = digest[off + 2];
    let b3 = digest[off + 3];
    let bin: u32 = (((b0 & 0x7f) as u32) << 24) | ((b1 as u32) << 16) | ((b2 as u32) << 8) | (
    b3 as u32);
    format_digits6(bin % 1000000)
}

fn byte_of(x: u64) -> (r: u8)
    ensures
        r == ((x & 0xff) as u8),
{
    proof {
        assert(x & 0xff < 256) by (bit_vector);
    }
    (x & 0xff) as u8
}

fn be_bytes_exec(c: u64) -> (r: Vec<u8>)
    ensures
        r@ == be_bytes(c),
{
    let mut v: Vec<u8> = Vec::new();
    v.push(byte_of(c >> 56));
    v.push(byte_of(c >> 48));
    v.push(byte_of(c >> 40));
    v.push(byte_of(c >> 32));
    v.push(byte_of(c >> 24));
    v.push(byte_of(c >> 16));
    v.push(byte_of(c >> 8));
    v.push(byte_of(c));
    proof {
        assert(c & 0xff == (c >> 0) & 0xff) by (bit_vector);
        assert(v@ =~= be_bytes(c));
    }
    v
}

// ------------------------------------------------------------------
// otpauth URI grammar
// ------------------------------------------------------------------

/// `c` first occurs in `s` at `i`.
pub open spec fn found_at(s: Seq<char>, c: char, i: int) -> bool {
    0 <= i < s.len() && s[i] == c && forall|k: int| 0 <= k < i ==> s[k] != c
}

/// The position of the first `c` in `s`.
pub open spec fn find_char(s: Seq<char>, c: char) -> Option<int> {
    if exists|i: int| found_at(s, c, i) {
        Some(choose|i: int| found_at(s, c, i))
    } else {
        None
    }
}

pub proof fn lemma_find_char_at(s: Seq<char>, c: char, i: int)
    requires
        found_at(s, c, i),
    ensures
        find_char(s, c) == Some(i),
{
    let j = choose|j: int| found_at(s, c, j);
    if j < i {
        assert(s[j] != c);
    } else if i < j {
        assert(s[i] != c);
    }
}

pub proof fn lemma_find_char_none(s: Seq<char>, c: char)
    requires
        forall|k: int| 0 <= k < s.len() ==> s[k] != c,
    ensures
        find_char(s, c) is None,
{
    if exists|i: int| found_at(s, c, i) {
        let i = choose|i: int| found_at(s, c, i);
        assert(s[i] != c);
    }
}

/// First `c` in `s[from..to]`, reported as an index into `s`.
fn find_char_to(s: &Vec<char>, from: usize, to: usize, c: char) -> (r: Option<usize>)
    requires
        from <= to <= s@.len(),
    ensures
        match r {
            Some(i) => from <= i < to && find_char(s@.subrange(from as int, to as int), c) == Some(
                i - from,
            ),
            None => find_char(s@.subrange(from as int, to as int), c) is None,
        },
{
    let ghost sub = s@.subrange(from as int, to as int);
    let mut i: usize = from;
    while i < to
        invariant
            from <= i <= to <= s@.len(),
            sub == s@.subrange(from as int, to as int),
            forall|k: int| 0 <= k < i - from ==> sub[k] != c,
        decreases to - i,
    {
        if s[i] == c {
            proof {
                assert(sub[i - from] == s@[i as int]);
                lemma_find_char_at(sub, c, i - from);
            }
            return Some(i);
        }
        proof {
            assert(sub[i - from] == s@[i as int]);
        }
        i += 1;
    }
    proof {
        lemma_find_char_none(sub, c);
    }
    None
}

/// The characters of `s[from..to]`.
fn slice_chars(s: &Vec<char>, from: usize, to: usize) -> (r: Vec<char>)
    requires
        from <= to <= s@.len(),
    ensures
        r@ == s@.subrange(from as int, to as int),
{
    let mut r: Vec<char> = Vec::new();
    let mut i: usize = from;
    while i < to
        invariant
            from <= i <= to <= s@.len(),
            r@ =~= s@.subrange(from as int, i as int),
        decreases to - i,
    {
        r.push(s[i]);
        i += 1;
    }
    proof {
        assert(r@ =~= s@.subrange(from as int, to as int));
    }
    r
}

/// Whether `s[from..to]` spells exactly `key`.
fn range_eq(s: &Vec<char>, from: usize, to: usize, key: &Vec<char>) -> (r: bool)
    requires
        from <= to <= s@.len(),
    ensures
        r == (s@.subrange(from as int, to as int) == key@),
{
    if to - from != key.len() {
        proof {
            assert(s@.subrange(from as int, to as int).len() != key@.len());
        }
        return false;
    }
    let mut i: usize = 0;
    while i < key.len()
        invariant
            from + key@.len() == to,
            to <= s@.len(),
            i <= key@.len(),
            forall|k: int| 0 <= k < i ==> s@.subrange(from as int, to as int)[k] == key@[k],
        decreases key@.len() - i,
    {
        if s[from + i] != key[i] {
            proof {
                assert(s@.subrange(from as int, to as int)[i as int] != key@[i as int]);
            }
            return false;
        }
        proof {
            assert(s@.subrange(from as int, to as int)[i as int] == s@[from + i]);
        }
        i += 1;
    }
    proof {
        assert(s@.subrange(from as int, to as int) =~= key@);
    }
    true
}

/// The value of the last `key=value` query parameter under `key`: the query
/// is read as `&`-separated segments, each split at its first `=`, and a
/// repeated parameter is overridden by its later occurrence; a segment
/// without `=` names a parameter with an empty value. The characters are
/// taken raw — a descriptor is `secret=<base32>&period=<digits>`, and
/// neither value has anything to percent-encode; anything stranger is
/// malformed input, which yields no code rather than an error.
pub open spec fn param_value(q: Seq<char>, key: Seq<char>) -> Option<Seq<char>>
    decreases q.len(),
{
    let seg_end = match find_char(q, '&') {
        Some(i) => i,
        None => q.len() as int,
    };
    let seg = q.subrange(0, seg_end);
    let eq = find_char(seg, '=');
    let k = match eq {
        Some(j) => seg.subrange(0, j),
        None => seg,
    };
    let v = match eq {
        Some(j) => seg.subrange(j + 1, seg.len() as int),
        None => Seq::empty(),
    };
    let here = if k == key {
        Some(v)
    } else {
        None
    };
    if seg_end == q.len() {
        here
    } else {
        match param_value(q.skip(seg_end + 1), key) {
            Some(later) => Some(later),
            None => here,
        }
    }
}

fn param_value_exec(q: &Vec<char>, key: &Vec<char>) -> (r: Option<Vec<char>>)
    ensures
        match r {
            Some(v) => param_value(q@, key@) == Some(v@),
            None => param_value(q@, key@) is None,
        },
{
    let mut p: usize = 0;
    let mut best: Option<Vec<char>> = None;
    proof {
        assert(q@.skip(0) =~= q@);
    }
    loop
        invariant
            p <= q@.len(),
            param_value(q@, key@) == (match param_value(q@.skip(p as int), key@) {
                Some(later) => Some(later),
                None => match best {
                    Some(b) => Some(b@),
                    None => None,
                },
            }),
        decreases q@.len() - p,
    {
        let ghost tail = q@.skip(p as int);
        let seg_end = match find_char_to(q, p, q.len(), '&') {
            Some(i) => {
                proof {
                    assert(tail == q@.subrange(p as int, q@.len() as int));
                }
                i
            },
            None => {
                proof {
                    assert(tail == q@.subrange(p as int, q@.len() as int));
                }
                q.len()
            },
        };
        proof {
            assert(match find_char(tail, '&') {
                Some(i) => i == seg_end - p,
                None => seg_end == q@.len(),
            });
        }
        let ghost seg_end_spec: int = match find_char(tail, '&') {
            Some(i) => i,
            None => tail.len() as int,
        };
        proof {
            assert(seg_end_spec == seg_end - p);
        }
        let ghost seg = tail.subrange(0, seg_end_spec);
        proof {
            assert(seg =~= q@.subrange(p as int, seg_end as int));
        }
        let eq = find_char_to(q, p, seg_end, '=');
        let key_end = match eq {
            Some(j) => j,
            None => seg_end,
        };
        proof {
            match eq {
                Some(j) => {
                    assert(find_char(seg, '=') == Some(j - p));
                    assert(seg.subrange(0, j - p) =~= q@.subrange(p as int, j as int));
                },
                None => {
                    assert(find_char(seg, '=') is None);
                },
            }
        }
        let matches_key = range_eq(q, p, key_end, key);
        proof {
            match eq {
                Some(j) => {
                    assert(q@.subrange(p as int, key_end as int) == seg.subrange(0, j - p));
                },
                None => {
                    assert(q@.subrange(p as int, key_end as int) == seg);
                },
            }
        }
        let ghost here: Option<Seq<char>> = if matches_key {
            Some(
                match find_char(seg, '=') {
                    Some(j) => seg.subrange(j + 1, seg.len() as int),
                    None => Seq::empty(),
                },
            )
        } else {
            None
        };
        if matches_key {
            let value = match eq {
                Some(j) => slice_chars(q, j + 1, seg_end),
                None => Vec::new(),
            };
            proof {
                match eq {
                    Some(j) => {
                        assert(seg.subrange(j - p + 1, seg.len() as int) =~= q@.subrange(
                            j + 1,
                            seg_end as int,
                        ));
                        assert(here == Some(value@));
                    },
                    None => {
                        assert(value@ =~= Seq::<char>::empty());
                        assert(here == Some(value@));
                    },
                }
            }
            best = Some(value);
        }
        if seg_end == q.len() {
            proof {
                assert(seg_end_spec == tail.len());
                assert(param_value(tail, key@) == here);
            }
            return best;
        }
        proof {
            assert(seg_end_spec < tail.len());
            assert(tail.skip(seg_end_spec + 1) =~= q@.skip(seg_end + 1));
            assert(param_value(tail, key@) == (match param_value(q@.skip(seg_end + 1), key@) {
                Some(later) => Some(later),
                None => here,
            }));
        }
        p = seg_end + 1;
    }
}

// ------------------------------------------------------------------
// base32 (RFC 4648 alphabet, unpadded)
// ------------------------------------------------------------------

/// The value of one base32 character: the RFC 4648 alphabet read strictly,
/// upper case letters and the digits two to seven, nothing else.
pub open spec fn b32_val(c: char) -> Option<u8> {
    if 'A' <= c && c <= 'Z' {
        Some((((c as u32) - ('A' as u32)) as u8))
    } else if '2' <= c && c <= '7' {
        Some(((((c as u32) - ('2' as u32)) + 26) as u8))
    } else {
        None
    }
}

pub open spec fn b32_ok(s: Seq<char>) -> bool {
    forall|i: int| 0 <= i < s.len() ==> (#[trigger] b32_val(s[i])) is Some
}

pub open spec fn b32_vals(s: Seq<char>) -> Seq<u8> {
    s.map_values(
        |c: char|
            match b32_val(c) {
                Some(v) => v,
                None => 0u8,
            },
    )
}

/// Byte `j` of the decoded stream: the five-bit groups are packed from the
/// left, eight characters to five bytes.
pub open spec fn b32_byte(v: Seq<u8>, j: int) -> u8 {
    let g = 8 * (j / 5);
    let r = j % 5;
    if r == 0 {
        (v[g] << 3) | (v[g + 1] >> 2)
    } else if r == 1 {
        ((v[g + 1] & 0x3) << 6) | (v[g + 2] << 1) | (v[g + 3] >> 4)
    } else if r == 2 {
        ((v[g + 3] & 0xf) << 4) | (v[g + 4] >> 1)
    } else if r == 3 {
        ((v[g + 4] & 0x1) << 7) | (v[g + 5] << 2) | (v[g + 6] >> 3)
    } else {
        ((v[g + 6] & 0x7) << 5) | v[g + 7]
    }
}

/// The decoded bytes: five bits per character, trailing bits dropped;
/// any character outside the alphabet fails the decode.
pub open spec fn b32_decode(s: Seq<char>) -> Option<Seq<u8>> {
    if b32_ok(s) {
        Some(Seq::new(((5 * s.len()) / 8) as nat, |j: int| b32_byte(b32_vals(s), j)))
    } else {
        None
    }
}

fn b32_val_exec(c: char) -> (r: Option<u8>)
    ensures
        r == b32_val(c),
{
    if 'A' <= c && c <= 'Z' {
        Some(((c as u32) - ('A' as u32)) as u8)
    } else if '2' <= c && c <= '7' {
        Some((((c as u32) - ('2' as u32)) + 26) as u8)
    } else {
        None
    }
}

proof fn lemma_small_div(q: int, t: int)
    requires
        0 <= q,
        0 <= t < 5,
    ensures
        (5 * q + t) / 5 == q,
        (5 * q + t) % 5 == t,
{
    lemma_fundamental_div_mod_converse(5 * q + t, 5, q, t);
}

fn b32_decode_exec(s: &Vec<char>) -> (r: Option<Vec<u8>>)
    ensures
        match r {
            Some(v) => b32_decode(s@) == Some(v@),
            None => b32_decode(s@) is None,
        },
{
    let n = s.len();
    let mut vals: Vec<u8> = Vec::new();
    let mut i: usize = 0;
    while i < n
        invariant
            i <= n,
            n == s@.len(),
            vals@.len() == i,
            forall|k: int| 0 <= k < i ==> (#[trigger] b32_val(s@[k])) is Some,
            forall|k: int| 0 <= k < i ==> #[trigger] vals@[k] == b32_vals(s@)[k],
        decreases n - i,
    {
        match b32_val_exec(s[i]) {
            Some(v) => {
                vals.push(v);
            },
            None => {
                proof {
                    assert(!b32_ok(s@));
                }
                return None;
            },
        }
        i += 1;
    }
    assert(b32_ok(s@));
    let mut out: Vec<u8> = Vec::new();
    let mut pos: usize = 0;
    let ghost mut groups: int = 0;
    while n - pos >= 8
        invariant
            pos <= n,
            n == s@.len(),
            vals@.len() == n,
            b32_ok(s@),
            forall|k: int| 0 <= k < n ==> #[trigger] vals@[k] == b32_vals(s@)[k],
            pos == 8 * groups,
            out@.len() == 5 * groups,
            0 <= groups,
            forall|k: int| 0 <= k < out@.len() ==> #[trigger] out@[k] == b32_byte(vals@, k),
        decreases n - pos,
    {
        let v0 = vals[pos];
        let v1 = vals[pos + 1];
        let v2 = vals[pos + 2];
        let v3 = vals[pos + 3];
        let v4 = vals[pos + 4];
        let v5 = vals[pos + 5];
        let v6 = vals[pos + 6];
        let v7 = vals[pos + 7];
        proof {
            lemma_small_div(groups, 0);
            lemma_small_div(groups, 1);
            lemma_small_div(groups, 2);
            lemma_small_div(groups, 3);
            lemma_small_div(groups, 4);
        }
        out.push((v0 << 3) | (v1 >> 2));
        out.push(((v1 & 0x3) << 6) | (v2 << 1) | (v3 >> 4));
        out.push(((v3 & 0xf) << 4) | (v4 >> 1));
        out.push(((v4 & 0x1) << 7) | (v5 << 2) | (v6 >> 3));
        out.push(((v6 & 0x7) << 5) | v7);
        pos += 8;
        proof {
            groups = groups + 1;
        }
    }
    let rem = n - pos;
    proof {
        lemma_small_div(groups, 0);
        lemma_small_div(groups, 1);
        lemma_small_div(groups, 2);
        lemma_small_div(groups, 3);
    }
    if rem >= 2 {
        out.push((vals[pos] << 3) | (vals[pos + 1] >> 2));
    }
    if rem >= 4 {
        out.push(((vals[pos + 1] & 0x3) << 6) | (vals[pos + 2] << 1) | (vals[pos + 3] >> 4));
    }
    if rem >= 5 {
        out.push(((vals[pos + 3] & 0xf) << 4) | (vals[pos + 4] >> 1));
    }
    if rem >= 7 {
        out.push(((vals[pos + 4] & 0x1) << 7) | (vals[pos + 5] << 2) | (vals[pos + 6] >> 3));
    }
    proof {
        assert(5 * n as int == 8 * (5 * groups) + 5 * rem) by (nonlinear_arith)
            requires
                n as int == 8 * groups + rem,
        ;
        assert((5 * n as int) / 8 == 5 * groups + (5 * rem) / 8) by {
            lemma_fundamental_div_mod_converse(
                5 * n as int,
                8,
                5 * groups + (5 * rem) / 8,
                (5 * rem) % 8,
            );
        }
        assert(out@.len() == (5 * s@.len()) / 8);
        assert(vals@ =~= b32_vals(s@));
        assert(out@ =~= Seq::new(((5 * s@.len()) / 8) as nat, |j: int| b32_byte(b32_vals(s@), j)));
    }
    Some(out)
}

// ------------------------------------------------------------------
// the otpauth descriptor and the current code
// ------------------------------------------------------------------

pub open spec fn otp_uri_prefix() -> Seq<char> {
    "otpauth://totp/"@
}

pub open spec fn has_otp_prefix(s: Seq<char>) -> bool {
    otp_uri_prefix().is_prefix_of(s)
}

/// Everything after the first `?`, or nothing when there is no query.
pub open spec fn query_of(s: Seq<char>) -> Seq<char> {
    match find_char(s, '?') {
        Some(i) => s.skip(i + 1),
        None => Seq::empty(),
    }
}

/// The period in seconds: the `period` parameter when it parses as a
/// positive integer, thirty otherwise.
pub open spec fn period_of(q: Seq<char>) -> u64 {
    match param_value(q, "period"@) {
        Some(pv) => match parse_u64(pv) {
            Some(p) => if p > 0 {
                p
            } else {
                30
            },
            None => 30,
        },
        None => 30,
    }
}

/// The secret bytes and period of an otpauth descriptor, or nothing when
/// the prefix, the `secret` parameter or its base32 form is wrong.
pub open spec fn otp_params(s: Seq<char>) -> Option<(Seq<u8>, u64)> {
    if !has_otp_prefix(s) {
        None
    } else {
        let q = query_of(s);
        match param_value(q, "secret"@) {
            Some(sv) => match b32_decode(sv) {
                Some(bytes) => Some((bytes, period_of(q))),
                None => None,
            },
            None => None,
        }
    }
}

/// The code a value yields at a time, or nothing: parsing is total, and any
/// failure — wrong prefix, missing secret, bad base32, a clock before the
/// epoch — yields no code rather than an error.
pub open spec fn code_for(s: Seq<char>, now: i64) -> Option<Seq<char>> {
    match otp_params(s) {
        Some((secret, period)) => if now >= 0 {
            Some(totp_code(secret, period, now as u64))
        } else {
            None
        },
        None => None,
    }
}

/// What a field value resolves to: the current code for an otpauth
/// descriptor, the raw value itself otherwise.
pub open spec fn resolved_value(s: Seq<char>, now: i64) -> Seq<char> {
    match code_for(s, now) {
        Some(c) => c,
        None => s,
    }
}

// ------------------------------------------------------------------
// decimal parsing for the period parameter
// ------------------------------------------------------------------

pub open spec fn dec_digit(c: char) -> Option<int> {
    if '0' <= c && c <= '9' {
        Some((c as u32) - ('0' as u32))
    } else {
        None
    }
}

pub open spec fn all_digits(s: Seq<char>) -> bool {
    forall|i: int| 0 <= i < s.len() ==> (#[trigger] dec_digit(s[i])) is Some
}

pub open spec fn dec_value(s: Seq<char>) -> int
    decreases s.len(),
{
    if s.len() == 0 {
        0
    } else {
        dec_value(s.drop_last()) * 10 + (match dec_digit(s.last()) {
            Some(d) => d,
            None => 0,
        })
    }
}

/// A non-empty string of decimal digits whose value fits, or nothing.
pub open spec fn parse_u64(s: Seq<char>) -> Option<u64> {
    if s.len() > 0 && all_digits(s) && dec_value(s) <= u64::MAX {
        Some(dec_value(s) as u64)
    } else {
        None
    }
}

proof fn lemma_dec_value_nonneg(s: Seq<char>)
    ensures
        dec_value(s) >= 0,
    decreases s.len(),
{
    if s.len() > 0 {
        lemma_dec_value_nonneg(s.drop_last());
    }
}

proof fn lemma_dec_value_prefix(s: Seq<char>, k: int)
    requires
        0 <= k <= s.len(),
    ensures
        dec_value(s.subrange(0, k)) <= dec_value(s),
    decreases s.len(),
{
    if k == s.len() {
        assert(s.subrange(0, k) =~= s);
    } else {
        assert(s.drop_last() =~= s.subrange(0, s.len() - 1));
        assert(s.subrange(0, k) =~= s.drop_last().subrange(0, k));
        lemma_dec_value_prefix(s.drop_last(), k);
        lemma_dec_value_nonneg(s.drop_last());
    }
}

fn parse_u64_exec(s: &Vec<char>) -> (r: Option<u64>)
    ensures
        r == parse_u64(s@),
{
    if s.len() == 0 {
        return None;
    }
    let mut acc: u64 = 0;
    let mut i: usize = 0;
    proof {
        assert(s@.subrange(0, 0) =~= Seq::<char>::empty());
    }
    while i < s.len()
        invariant
            i <= s@.len(),
            acc == dec_value(s@.subrange(0, i as int)),
            forall|k: int| 0 <= k < i ==> (#[trigger] dec_digit(s@[k])) is Some,
        decreases s@.len() - i,
    {
        let c = s[i];
        if c < '0' || c > '9' {
            proof {
                assert(dec_digit(s@[i as int]) is None);
                assert(!all_digits(s@));
            }
            return None;
        }
        let d: u64 = ((c as u32) - ('0' as u32)) as u64;
        proof {
            assert(s@.subrange(0, i as int + 1).drop_last() =~= s@.subrange(0, i as int));
            assert(s@.subrange(0, i as int + 1).last() == s@[i as int]);
        }
        if acc > (u64::MAX - d) / 10 {
            proof {
                assert(10 * acc + d > u64::MAX) by (nonlinear_arith)
                    requires
                        acc > (u64::MAX - d) / 10,
                        d <= 9,
                        u64::MAX - d == 10 * ((u64::MAX - d) / 10) + (u64::MAX - d) % 10,
                        0 <= (u64::MAX - d) % 10 < 10,
                {
                }
                lemma_fundamental_div_mod(u64::MAX - d, 10);
                assert(dec_value(s@.subrange(0, i as int + 1)) > u64::MAX);
                lemma_dec_value_prefix(s@, i as int + 1);
                assert(dec_value(s@) > u64::MAX);
            }
            return None;
        }
        proof {
            lemma_fundamental_div_mod(u64::MAX - d, 10);
            assert(10 * acc + d <= u64::MAX) by (nonlinear_arith)
                requires
                    acc <= (u64::MAX - d) / 10,
                    d <= 9,
                    u64::MAX - d == 10 * ((u64::MAX - d) / 10) + (u64::MAX - d) % 10,
                    0 <= (u64::MAX - d) % 10 < 10,
            {
            }
        }
        acc = acc * 10 + d;
        i += 1;
    }
    proof {
        assert(s@.subrange(0, s@.len() as int) =~= s@);
    }
    Some(acc)
}

// ------------------------------------------------------------------
// executable derivation
// ------------------------------------------------------------------

fn starts_with_chars(s: &Vec<char>, p: &Vec<char>) -> (r: bool)
    ensures
        r == p@.is_prefix_of(s@),
{
    if s.len() < p.len() {
        proof {
            assert(!p@.is_prefix_of(s@));
        }
        return false;
    }
    let mut i: usize = 0;
    while i < p.len()
        invariant
            p@.len() <= s@.len(),
            i <= p@.len(),
            forall|k: int| 0 <= k < i ==> s@[k] == p@[k],
        decreases p@.len() - i,
    {
        if s[i] != p[i] {
            proof {
                assert(s@.subrange(0, p@.len() as int)[i as int] != p@[i as int]);
                assert(!p@.is_prefix_of(s@));
            }
            return false;
        }
        i += 1;
    }
    proof {
        assert(p@ =~= s@.subrange(0, p@.len() as int));
    }
    true
}

/// The code an otpauth descriptor yields at the given time: exactly
/// `code_for` on the value's characters.
pub fn generate_totp_code_at(otpauth_url: &str, now: i64) -> (r: Option<String>)
    ensures
        match r {
            Some(code) => code_for(otpauth_url@, now) == Some(code@),
            None => code_for(otpauth_url@, now) is None,
        },
{
    let cs = chars_of(otpauth_url);
    let prefix = chars_of("otpauth://totp/");
    if !starts_with_chars(&cs, &prefix) {
        return None;
    }
    let query: Vec<char> = match find_char_to(&cs, 0, cs.len(), '?') {
        Some(i) => {
            proof {
                assert(cs@.subrange(0, cs@.len() as int) =~= cs@);
                assert(cs@.subrange(i + 1, cs@.len() as int) =~= cs@.skip(i + 1));
            }
            slice_chars(&cs, i + 1, cs.len())
        },
        None => {
            proof {
                assert(cs@.subrange(0, cs@.len() as int) =~= cs@);
            }
            Vec::new()
        },
    };
    proof {
        assert(query@ =~= query_of(otpauth_url@));
    }
    let secret_key = chars_of("secret");
    let sv = match param_value_exec(&query, &secret_key) {
        Some(sv) => sv,
        None => {
            return None;
        },
    };
    let secret = match b32_decode_exec(&sv) {
        Some(bytes) => bytes,
        None => {
            return None;
        },
    };
    let period_key = chars_of("period");
    let period: u64 = match param_value_exec(&query, &period_key) {
        Some(pv) => match parse_u64_exec(&pv) {
            Some(p) => if p > 0 {
                p
            } else {
                30
            },
            None => 30,
        },
        None => 30,
    };
    if now < 0 {
        return None;
    }
    let counter = (now as u64) / period;
    let msg = be_bytes_exec(counter);
    let digest = hmac_sha1(&secret, &msg);
    Some(code_digits(&digest))
}

/// The current code of an otpauth descriptor, read against the clock; the
/// time is the only part of the outcome that no contract can pin down.
pub fn generate_totp_code(otpauth_url: &str) -> (r: Option<String>)
    ensures
        exists|t: i64|
            t >= 0 && match r {
                Some(code) => #[trigger] code_for(otpauth_url@, t) == Some(code@),
                None => code_for(otpauth_url@, t) is None,
            },
{
    let now = current_unix_seconds();
    generate_totp_code_at(otpauth_url, now)
}

/// What the point lookup hands back for a raw field value at a time: the
/// derived code where the value is a good otpauth descriptor, the raw value
/// itself on any failure.
pub fn code_or_value_at(value: String, now: i64) -> (r: String)
    ensures
        r@ == resolved_value(value@, now),
{
    match generate_totp_code_at(value.as_str(), now) {
        Some(code) => code,
        None => value,
    }
}

/// As `code_or_value_at`, against the clock.
pub fn code_or_value(value: String) -> (r: String)
    ensures
        exists|t: i64| t >= 0 && r@ == #[trigger] resolved_value(value@, t),
{
    let now = current_unix_seconds();
    code_or_value_at(value, now)
}

} // verus!
