//! Shared text helpers: character vectors, string building, ASCII case
//! folding and the character classes of the rule language.

use vstd::prelude::*;

verus! {

/// Lower-case an ASCII letter; every other character is left alone.
pub open spec fn lower_char(c: char) -> char {
    if 65 <= c as u32 && c as u32 <= 90 {
        ((c as u32 + 32) as u8) as char
    } else {
        c
    }
}

/// ASCII-lower-case every character of a sequence.
pub open spec fn lower_seq(s: Seq<char>) -> Seq<char> {
    s.map_values(|c: char| lower_char(c))
}

/// ASCII whitespace.
pub open spec fn is_space_char(c: char) -> bool {
    c == ' ' || c == '\t' || c == '\n' || c == '\r'
}

/// Collect the characters of a string slice into a vector.
pub fn str_chars(s: &str) -> (v: Vec<char>)
    ensures
        v@ == s@,
{
    let mut v: Vec<char> = Vec::new();
    for c in it: s.chars()
        invariant
            it.seq() == s@,
            v@ == it.seq().take(it.index() as int),
    {
        v.push(c);
    }
    proof {
        assert(v@ =~= s@);
    }
    v
}

/// Relies on `String::push`: appends one character at the end of the string.
#[verifier::external_body]
pub fn push_char(s: &mut String, c: char)
    ensures
        final(s)@ == old(s)@.push(c),
{
    s.push(c);
}

/// Build a string out of a vector of characters.
pub fn chars_to_string(v: &Vec<char>) -> (s: String)
    ensures
        s@ == v@,
{
    let mut s = String::new();
    let mut i: usize = 0;
    while i < v.len()
        invariant
            0 <= i <= v.len(),
            s@ == v@.take(i as int),
        decreases v.len() - i,
    {
        push_char(&mut s, v[i]);
        proof {
            assert(v@.take(i as int).push(v@[i as int]) =~= v@.take(i as int + 1));
        }
        i = i + 1;
    }
    proof {
        assert(v@.take(v@.len() as int) =~= v@);
    }
    s
}

/// Executable ASCII lower-casing of one character.
pub fn lower_char_exec(c: char) -> (r: char)
    ensures
        r == lower_char(c),
{
    let u = c as u32;
    if 65 <= u && u <= 90 {
        ((u + 32) as u8) as char
    } else {
        c
    }
}

/// Lower-case a slice `[from, to)` of a character vector.
pub fn lower_range(v: &Vec<char>, from: usize, to: usize) -> (w: Vec<char>)
    requires
        from <= to <= v.len(),
    ensures
        w@ == lower_seq(v@.subrange(from as int, to as int)),
{
    let mut w: Vec<char> = Vec::new();
    let mut i: usize = from;
    while i < to
        invariant
            from <= i <= to <= v.len(),
            w@ == lower_seq(v@.subrange(from as int, i as int)),
        decreases to - i,
    {
        w.push(lower_char_exec(v[i]));
        proof {
            assert(lower_seq(v@.subrange(from as int, i as int)).push(lower_char(v@[i as int]))
                =~= lower_seq(v@.subrange(from as int, i as int + 1)));
        }
        i = i + 1;
    }
    w
}

} // verus!

// ---------------------------------------------------------------------------
// Hexadecimal rendering and integer parsing of window ids.
// ---------------------------------------------------------------------------

verus! {

/// The lowercase hexadecimal digit character of a nibble value.
pub open spec fn hex_digit_char(d: int) -> char {
    if d < 10 {
        ((48 + d) as u8) as char
    } else {
        ((87 + d) as u8) as char
    }
}

/// Hexadecimal digits of `v`, most significant first, empty for zero.
pub open spec fn hex_digits_of(v: nat) -> Seq<char>
    decreases v,
{
    if v == 0 {
        Seq::empty()
    } else {
        hex_digits_of(v / 16).push(hex_digit_char((v % 16) as int))
    }
}

/// Lowercase hexadecimal rendering of `v` without a prefix; zero is "0".
pub open spec fn hex_seq(v: nat) -> Seq<char> {
    if v == 0 {
        seq!['0']
    } else {
        hex_digits_of(v)
    }
}

/// The `0x`-prefixed lowercase hexadecimal rendering of a window id.
pub open spec fn id_hex_seq(id: u32) -> Seq<char> {
    seq!['0', 'x'] + hex_seq(id as nat)
}

/// Append the hexadecimal digits of `v` to `out`.
fn push_hex_digits(v: u32, out: &mut Vec<char>)
    ensures
        final(out)@ == old(out)@ + hex_digits_of(v as nat),
    decreases v,
{
    if v == 0 {
        proof {
            assert(old(out)@ + hex_digits_of(0) =~= old(out)@);
        }
        return;
    }
    push_hex_digits(v / 16, out);
    let d = (v % 16) as u8;
    let c: char = if d < 10 {
        (48 + d) as char
    } else {
        (87 + d) as char
    };
    out.push(c);
    proof {
        assert(c == hex_digit_char(((v as nat) % 16) as int));
        assert((old(out)@ + hex_digits_of(v as nat / 16)).push(c) =~= old(out)@ + hex_digits_of(
            v as nat,
        ));
    }
}

/// The `0x`-prefixed lowercase hexadecimal rendering of a window id.
pub fn id_hex_string(id: u32) -> (s: String)
    ensures
        s@ == id_hex_seq(id),
{
    let mut cs: Vec<char> = Vec::new();
    cs.push('0');
    cs.push('x');
    if id == 0 {
        cs.push('0');
        proof {
            assert(cs@ =~= id_hex_seq(0));
        }
    } else {
        push_hex_digits(id, &mut cs);
        proof {
            assert(cs@ =~= id_hex_seq(id));
        }
    }
    chars_to_string(&cs)
}

/// Hexadecimal digit (after lower-casing).
pub open spec fn is_hex_digit(c: char) -> bool {
    (48 <= c as u32 && c as u32 <= 57) || (97 <= c as u32 && c as u32 <= 102)
}

pub open spec fn hex_digit_val(c: char) -> int {
    if 48 <= c as u32 && c as u32 <= 57 {
        c as u32 - 48
    } else {
        c as u32 - 87
    }
}

pub open spec fn all_hex_digits(s: Seq<char>) -> bool {
    forall|i: int| 0 <= i < s.len() ==> is_hex_digit(#[trigger] s[i])
}

/// Value of a hexadecimal digit string.
pub open spec fn hex_val(s: Seq<char>) -> int
    decreases s.len(),
{
    if s.len() == 0 {
        0
    } else {
        hex_val(s.take(s.len() - 1)) * 16 + hex_digit_val(s.last())
    }
}

/// Decimal digit.
pub open spec fn is_dec_digit(c: char) -> bool {
    48 <= c as u32 && c as u32 <= 57
}

pub open spec fn dec_digit_val(c: char) -> int {
    c as u32 - 48
}

pub open spec fn all_dec_digits(s: Seq<char>) -> bool {
    forall|i: int| 0 <= i < s.len() ==> is_dec_digit(#[trigger] s[i])
}

/// Value of a decimal digit string.
pub open spec fn dec_val(s: Seq<char>) -> int
    decreases s.len(),
{
    if s.len() == 0 {
        0
    } else {
        dec_val(s.take(s.len() - 1)) * 10 + dec_digit_val(s.last())
    }
}

/// What parsing an id literal yields: the literal is lower-cased; a `0x`
/// prefix asks for hexadecimal, otherwise decimal (an optional `+` sign
/// allowed); anything unparsable, including an out-of-range value, is 0.
pub open spec fn parse_id_spec(s: Seq<char>) -> u32 {
    let low = lower_seq(s);
    if low.len() >= 2 && low[0] == '0' && low[1] == 'x' {
        let h = low.skip(2);
        if h.len() > 0 && all_hex_digits(h) && hex_val(h) <= u32::MAX {
            hex_val(h) as u32
        } else {
            0
        }
    } else {
        let d = if low.len() >= 1 && low[0] == '+' {
            low.skip(1)
        } else {
            low
        };
        if d.len() > 0 && all_dec_digits(d) && dec_val(d) <= u32::MAX {
            dec_val(d) as u32
        } else {
            0
        }
    }
}

/// Accumulate the value of lower-cased digit characters `v[start..]` in the
/// given base (10 or 16), saturating once the value can no longer be a u32.
#[verifier::loop_isolation(false)]
fn digits_to_u32(v: &Vec<char>, start: usize, hex: bool) -> (r: Option<u32>)
    requires
        start <= v.len(),
    ensures
        ({
            let d = v@.skip(start as int);
            let ok = d.len() > 0 && (if hex {
                all_hex_digits(d) && hex_val(d) <= u32::MAX
            } else {
                all_dec_digits(d) && dec_val(d) <= u32::MAX
            });
            if ok {
                r matches Some(x) && x == (if hex {
                    hex_val(d)
                } else {
                    dec_val(d)
                })
            } else {
                r is None
            }
        }),
{
    let ghost d = v@.skip(start as int);
    proof {
        assert(d =~= v@.subrange(start as int, v@.len() as int));
    }
    if v.len() == start {
        return None;
    }
    let base: u64 = if hex {
        16
    } else {
        10
    };
    let mut acc: u64 = 0;
    let mut k: usize = start;
    proof {
        assert(v@.subrange(start as int, start as int) =~= Seq::<char>::empty());
    }
    while k < v.len()
        invariant
            start <= k <= v.len(),
            ({
                let pre = v@.subrange(start as int, k as int);
                let pv = if hex {
                    hex_val(pre)
                } else {
                    dec_val(pre)
                };
                &&& (if hex {
                    all_hex_digits(pre)
                } else {
                    all_dec_digits(pre)
                })
                &&& (pv <= u32::MAX ==> acc == pv)
                &&& (pv > u32::MAX ==> acc > u32::MAX)
                &&& acc <= 0xf_ffff_ffffu64
            }),
        decreases v.len() - k,
    {
        let c = v[k];
        let u = c as u32;
        let dv: u64 = if 48 <= u && u <= 57 {
            (u - 48) as u64
        } else if hex && 97 <= u && u <= 102 {
            (u - 87) as u64
        } else {
            proof {
                assert(d[k - start] == v@[k as int]);
            }
            return None;
        };
        let ghost pre = v@.subrange(start as int, k as int);
        let ghost cur = v@.subrange(start as int, k as int + 1);
        proof {
            assert(cur.last() == v@[k as int]);
            assert(cur.take(cur.len() - 1) =~= pre);
            assert forall|i: int| 0 <= i < cur.len() implies (if hex {
                is_hex_digit(#[trigger] cur[i])
            } else {
                is_dec_digit(cur[i])
            }) by {
                if i < pre.len() {
                    assert(cur[i] == pre[i]);
                }
            }
        }
        if acc <= u32::MAX as u64 {
            acc = acc * base + dv;
        }
        k = k + 1;
    }
    proof {
        assert(v@.subrange(start as int, v@.len() as int) =~= d);
    }
    if acc <= u32::MAX as u64 {
        Some(acc as u32)
    } else {
        None
    }
}

/// Parse a window id literal: lower-cased, `0x`-prefixed hexadecimal or
/// plain decimal, with anything unparsable giving 0.
pub fn parse_id(id_str: &str) -> (r: u32)
    ensures
        r == parse_id_spec(id_str@),
{
    let cs = str_chars(id_str);
    let low = lower_range(&cs, 0, cs.len());
    proof {
        assert(cs@.subrange(0, cs@.len() as int) =~= id_str@);
        assert(low@ == lower_seq(id_str@));
    }
    if low.len() >= 2 && low[0] == '0' && low[1] == 'x' {
        let r = match digits_to_u32(&low, 2, true) {
            Some(x) => x,
            None => 0,
        };
        proof {
            assert(r == parse_id_spec(id_str@));
        }
        r
    } else {
        let start: usize = if low.len() >= 1 && low[0] == '+' {
            1
        } else {
            0
        };
        proof {
            assert(low@.skip(0) =~= low@);
        }
        match digits_to_u32(&low, start, false) {
            Some(x) => x,
            None => 0,
        }
    }
}

} // verus!

verus! {

/// Decimal digits of `v`, most significant first, empty for zero.
pub open spec fn dec_digits_of(v: nat) -> Seq<char>
    decreases v,
{
    if v == 0 {
        Seq::empty()
    } else {
        dec_digits_of(v / 10).push((48 + (v % 10)) as u8 as char)
    }
}

/// Decimal rendering of `v`; zero is "0".
pub open spec fn dec_seq(v: nat) -> Seq<char> {
    if v == 0 {
        seq!['0']
    } else {
        dec_digits_of(v)
    }
}

/// Append the decimal digits of `v` to `out`.
fn push_dec_digits(v: u64, out: &mut Vec<char>)
    ensures
        final(out)@ == old(out)@ + dec_digits_of(v as nat),
    decreases v,
{
    if v == 0 {
        proof {
            assert(old(out)@ + dec_digits_of(0) =~= old(out)@);
        }
        return;
    }
    push_dec_digits(v / 10, out);
    let c: char = (48 + (v % 10) as u8) as char;
    out.push(c);
    proof {
        assert((old(out)@ + dec_digits_of(v as nat / 10)).push(c) =~= old(out)@ + dec_digits_of(
            v as nat,
        ));
    }
}

/// The decimal rendering of a number.
pub fn dec_string(v: u64) -> (s: String)
    ensures
        s@ == dec_seq(v as nat),
{
    let mut cs: Vec<char> = Vec::new();
    if v == 0 {
        cs.push('0');
        proof {
            assert(cs@ =~= dec_seq(0));
        }
    } else {
        push_dec_digits(v, &mut cs);
        proof {
            assert(cs@ =~= dec_seq(v as nat));
        }
    }
    chars_to_string(&cs)
}

} // verus!

verus! {

use crate::types::WindowId;

/// What a hex-rendered id list looks like: ids as `0x`-prefixed lowercase
/// hexadecimal, comma-separated, in brackets.
pub open spec fn hexed_ids_seq(ids: Seq<WindowId>) -> Seq<char>
    decreases ids.len(),
{
    if ids.len() == 0 {
        Seq::empty()
    } else if ids.len() == 1 {
        id_hex_seq(ids[0])
    } else {
        id_hex_seq(ids[0]) + seq![',', ' '] + hexed_ids_seq(ids.skip(1))
    }
}

/// Append the `0x`-prefixed hexadecimal rendering of one id.
fn push_id_hex(out: &mut Vec<char>, id: WindowId)
    ensures
        final(out)@ == old(out)@ + id_hex_seq(id),
{
    out.push('0');
    out.push('x');
    if id == 0 {
        out.push('0');
        proof {
            assert(out@ =~= old(out)@ + id_hex_seq(0));
        }
    } else {
        push_hex_digits(id, out);
        proof {
            assert(out@ =~= old(out)@ + id_hex_seq(id));
        }
    }
}

/// Helper to render a vector of window ids in hexadecimal, for diagnostics.
pub struct HexedVec<'a>(pub &'a Vec<WindowId>);

impl<'a> HexedVec<'a> {
    /// The bracketed, comma-separated hexadecimal rendering of the ids.
    #[verifier::loop_isolation(false)]
    pub fn text(&self) -> (r: String)
        ensures
            r@ == seq!['['] + hexed_ids_seq(self.0@) + seq![']'],
    {
        let ids = self.0;
        let mut out: Vec<char> = Vec::new();
        out.push('[');
        let mut i: usize = 0;
        proof {
            assert(ids@.skip(0) =~= ids@);
            if ids@.len() == 0 {
                assert(out@ =~= seq!['['] + hexed_ids_seq(ids@));
            }
        }
        while i < ids.len()
            invariant
                0 <= i <= ids.len(),
                seq!['['] + hexed_ids_seq(ids@) == out@ + (if i < ids.len() {
                    (if i > 0 {
                        seq![',', ' ']
                    } else {
                        Seq::<char>::empty()
                    }) + hexed_ids_seq(ids@.skip(i as int))
                } else {
                    Seq::<char>::empty()
                }),
            decreases ids.len() - i,
        {
            proof {
                assert(ids@.skip(i as int)[0] == ids@[i as int]);
                assert(ids@.skip(i as int).skip(1) =~= ids@.skip(i as int + 1));
            }
            if i > 0 {
                out.push(',');
                out.push(' ');
            }
            push_id_hex(&mut out, ids[i]);
            i = i + 1;
            proof {
                if i < ids.len() {
                    assert(seq!['['] + hexed_ids_seq(ids@) =~= out@ + (seq![',', ' ']
                        + hexed_ids_seq(ids@.skip(i as int))));
                } else {
                    assert(seq!['['] + hexed_ids_seq(ids@) =~= out@);
                }
            }
        }
        out.push(']');
        let r = chars_to_string(&out);
        proof {
            assert(r@ =~= seq!['['] + hexed_ids_seq(ids@) + seq![']']);
        }
        r
    }
}

} // verus!
