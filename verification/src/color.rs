use vstd::prelude::*;

use vstd::string::StringExecFns;
use vstd::string::StrSliceExecFns;

use crate::parse::all_digits;
use crate::parse::char_is_digit;
use crate::parse::dec_val;
use crate::parse::find_char;
use crate::parse::lemma_find_char;

verus! {

/// The character is a hexadecimal digit.
pub open spec fn char_is_hex(c: char) -> bool {
    ||| 48 <= c as u32 <= 57
    ||| 97 <= c as u32 <= 102
    ||| 65 <= c as u32 <= 70
}

/// The value of a hexadecimal digit.
pub open spec fn hex_digit_val(c: char) -> int {
    if 48 <= c as u32 <= 57 {
        c as u32 - 48
    } else if 97 <= c as u32 <= 102 {
        c as u32 - 87
    } else {
        c as u32 - 55
    }
}

/// The value of the two hexadecimal digits of `s` at `at`.
pub open spec fn hex_val2(s: Seq<char>, at: int) -> int {
    16 * hex_digit_val(s[at]) + hex_digit_val(s[at + 1])
}

/// `t` is the decimal rendering of `v`: digits only, no leading zero.
pub open spec fn dec_rep(t: Seq<char>, v: int) -> bool {
    &&& t.len() >= 1
    &&& all_digits(t)
    &&& dec_val(t) == v
    &&& (t.len() > 1 ==> t[0] as u32 != 48)
}

/// The value of one decimal digit character.
pub proof fn lemma_dec_val_digits(a: char, b: char, c: char)
    ensures
        dec_val(seq![a]) == a as u32 - 48,
        dec_val(seq![a, b]) == (a as u32 - 48) * 10 + (b as u32 - 48),
        dec_val(seq![a, b, c]) == ((a as u32 - 48) * 10 + (b as u32 - 48)) * 10 + (c as u32
            - 48),
{
    assert(dec_val(Seq::<char>::empty()) == 0);
    assert(seq![a].drop_last() =~= Seq::<char>::empty());
    assert(seq![a].last() == a);
    assert(dec_val(seq![a]) == dec_val(Seq::<char>::empty()) * 10 + (a as u32 - 48));
    assert(seq![a, b].drop_last() =~= seq![a]);
    assert(seq![a, b].last() == b);
    assert(dec_val(seq![a, b]) == dec_val(seq![a]) * 10 + (b as u32 - 48));
    assert(seq![a, b, c].drop_last() =~= seq![a, b]);
    assert(seq![a, b, c].last() == c);
    assert(dec_val(seq![a, b, c]) == dec_val(seq![a, b]) * 10 + (c as u32 - 48));
}

/// One decimal digit as text.
fn digit_str(d: usize) -> (r: &'static str)
    requires
        d < 10,
    ensures
        r@.len() == 1,
        r@[0] as u32 == 48 + d,
        char_is_digit(r@[0]),
{
    proof {
        reveal_strlit("0");
        reveal_strlit("1");
        reveal_strlit("2");
        reveal_strlit("3");
        reveal_strlit("4");
        reveal_strlit("5");
        reveal_strlit("6");
        reveal_strlit("7");
        reveal_strlit("8");
        reveal_strlit("9");
    }
    match d {
        0 => "0",
        1 => "1",
        2 => "2",
        3 => "3",
        4 => "4",
        5 => "5",
        6 => "6",
        7 => "7",
        8 => "8",
        _ => "9",
    }
}

/// Append the decimal rendering of `v` (below 256, no leading zero).
fn push_dec(out: &mut String, v: usize)
    requires
        v < 256,
    ensures
        final(out)@.len() > old(out)@.len(),
        final(out)@.subrange(0, old(out)@.len() as int) == old(out)@,
        dec_rep(final(out)@.subrange(old(out)@.len() as int, final(out)@.len() as int), v as int),
{
    let ghost base = out@;
    if v >= 100 {
        out.append(digit_str(v / 100));
        out.append(digit_str((v / 10) % 10));
        out.append(digit_str(v % 10));
        proof {
            let t = out@.subrange(base.len() as int, out@.len() as int);
            assert(t =~= seq![t[0], t[1], t[2]]);
            lemma_dec_val_digits(t[0], t[1], t[2]);
            assert(t[0] as u32 == 48 + v / 100 && t[1] as u32 == 48 + (v / 10) % 10 && t[2] as u32
                == 48 + v % 10);
            assert(((v / 100) * 10 + (v / 10) % 10) * 10 + v % 10 == v) by (nonlinear_arith)
                requires
                    100 <= v < 256,
            ;
        }
    } else if v >= 10 {
        out.append(digit_str(v / 10));
        out.append(digit_str(v % 10));
        proof {
            let t = out@.subrange(base.len() as int, out@.len() as int);
            assert(t =~= seq![t[0], t[1]]);
            lemma_dec_val_digits(t[0], t[1], t[1]);
            assert((v / 10) * 10 + v % 10 == v) by (nonlinear_arith)
                requires
                    10 <= v < 100,
            ;
        }
    } else {
        out.append(digit_str(v));
        proof {
            let t = out@.subrange(base.len() as int, out@.len() as int);
            assert(t =~= seq![t[0]]);
            lemma_dec_val_digits(t[0], t[0], t[0]);
        }
    }
}

/// The value of the hexadecimal digit at `at`.
fn hex_digit_at(color: &str, at: usize) -> (r: usize)
    requires
        at < color@.len(),
        char_is_hex(color@[at as int]),
    ensures
        r == hex_digit_val(color@[at as int]),
        r < 16,
{
    let u = color.get_char(at) as u32;
    if 48 <= u && u <= 57 {
        (u - 48) as usize
    } else if 97 <= u && u <= 102 {
        (u - 87) as usize
    } else {
        (u - 55) as usize
    }
}

/// Turn a six-digit hexadecimal colour in blue, green, red order into the
/// decimal `red;green;blue` triple a terminal escape expects.
pub fn color_code(color: &String) -> (r: String)
    requires
        color@.len() >= 6,
        forall|i: int| 0 <= i < 6 ==> char_is_hex(#[trigger] color@[i]),
    ensures
        ({
            let q0 = find_char(r@, 0, ';');
            let q1 = find_char(r@, q0 + 1, ';');
            &&& q0 < r@.len()
            &&& q1 < r@.len()
            &&& dec_rep(r@.subrange(0, q0), hex_val2(color@, 4))
            &&& dec_rep(r@.subrange(q0 + 1, q1), hex_val2(color@, 2))
            &&& dec_rep(r@.subrange(q1 + 1, r@.len() as int), hex_val2(color@, 0))
        }),
{
    let cs = color.as_str();
    let b: usize = 16 * hex_digit_at(cs, 0) + hex_digit_at(cs, 1);
    let g: usize = 16 * hex_digit_at(cs, 2) + hex_digit_at(cs, 3);
    let red: usize = 16 * hex_digit_at(cs, 4) + hex_digit_at(cs, 5);
    let mut out = String::new();
    push_dec(&mut out, red);
    let ghost e0 = out@.len() as int;
    let ghost seg_r = out@;
    proof {
        reveal_strlit(";");
    }
    out.append(";");
    let ghost s2 = out@;
    push_dec(&mut out, g);
    let ghost e1 = out@.len() as int;
    let ghost s3 = out@;
    out.append(";");
    let ghost s4 = out@;
    push_dec(&mut out, b);
    proof {
        assert(seg_r.subrange(0, e0) =~= seg_r);
        assert(dec_rep(seg_r, red as int));
        assert(s2 == seg_r + ";"@);
        assert(s2.len() == e0 + 1);
        assert(s3.subrange(0, e0 + 1) == s2);
        assert(s4 == s3 + ";"@);
        assert(s4.len() == e1 + 1);
        assert(out@.subrange(0, e1 + 1) == s4);
        assert forall|j: int| 0 <= j < e0 implies out@.subrange(0, e0)[j] == seg_r[j] by {
            assert(out@.subrange(0, e1 + 1)[j] == s4[j]);
            assert(s4[j] == s3[j]);
            assert(s3.subrange(0, e0 + 1)[j] == s2[j]);
            assert(s2[j] == seg_r[j]);
        }
        assert(out@.subrange(0, e0) =~= seg_r);
        assert forall|j: int|
            #![trigger out@.subrange(e0 + 1, e1)[j]]
            0 <= j < e1 - (e0 + 1) implies out@.subrange(e0 + 1, e1)[j] == s3.subrange(
            e0 + 1,
            e1,
        )[j] by {
            assert(out@.subrange(0, e1 + 1)[j + e0 + 1] == s4[j + e0 + 1]);
            assert(s4[j + e0 + 1] == s3[j + e0 + 1]);
        }
        assert(out@.subrange(e0 + 1, e1) =~= s3.subrange(e0 + 1, e1));
        assert(dec_rep(s3.subrange(e0 + 1, e1), g as int));
        assert(dec_rep(out@.subrange(e1 + 1, out@.len() as int), b as int));
        assert(out@.subrange(0, e1 + 1)[e0] == s4[e0]);
        assert(s4[e0] == s3[e0]);
        assert(s3.subrange(0, e0 + 1)[e0] == s2[e0]);
        assert(s2[e0] == ";"@[0]);
        assert(out@[e0] == ';');
        assert(out@.subrange(0, e1 + 1)[e1] == s4[e1]);
        assert(s4[e1] == ";"@[0]);
        assert(out@[e1] == ';');
        let q0 = find_char(out@, 0, ';');
        assert forall|j: int| 0 <= j < e0 implies out@[j] != ';' by {
            assert(char_is_digit(out@.subrange(0, e0)[j]));
        }
        lemma_find_char(out@, 0, ';');
        assert(q0 == e0);
        let q1 = find_char(out@, q0 + 1, ';');
        assert forall|j: int| e0 + 1 <= j < e1 implies out@[j] != ';' by {
            assert(char_is_digit(out@.subrange(e0 + 1, e1)[j - (e0 + 1)]));
        }
        lemma_find_char(out@, q0 + 1, ';');
        assert(q1 == e1);
        assert(dec_rep(out@.subrange(0, q0), hex_val2(color@, 4)));
        assert(dec_rep(out@.subrange(q0 + 1, q1), hex_val2(color@, 2)));
        assert(dec_rep(out@.subrange(q1 + 1, out@.len() as int), hex_val2(color@, 0)));
    }
    out
}

} // verus!
