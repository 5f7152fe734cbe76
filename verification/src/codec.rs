//! The identifier half of the message codec.
//!
//! On the wire a client identifier travels as text: 32 lowercase
//! hexadecimal digits in five dash-separated groups of 8, 4, 4, 4 and 12
//! — the canonical form of a 128-bit identifier. [`id_text`] is that
//! text, defined position by position; the formatter produces it and the
//! parser accepts exactly it, so the two compose to the identity.

use vstd::prelude::*;

use vstd::arithmetic::div_mod::lemma_div_denominator;
use vstd::arithmetic::div_mod::lemma_fundamental_div_mod;
use vstd::arithmetic::div_mod::lemma_fundamental_div_mod_converse;

verus! {

/// `16^k`.
pub open spec fn pow16(k: nat) -> int
    decreases k,
{
    if k == 0 {
        1
    } else {
        16 * pow16((k - 1) as nat)
    }
}

/// The value of the `i`-th hexadecimal digit of `id`, most significant
/// first, for `0 <= i < 32`.
pub open spec fn nibble(id: u128, i: int) -> int {
    (id as int / pow16((31 - i) as nat)) % 16
}

/// The lowercase hexadecimal digit for a value below 16.
pub open spec fn hex_char(d: int) -> u8 {
    if d < 10 {
        (0x30 + d) as u8
    } else {
        (0x57 + d) as u8
    }
}

/// Whether `c` is a lowercase hexadecimal digit.
pub open spec fn is_hex_char(c: u8) -> bool {
    (0x30 <= c && c <= 0x39) || (0x61 <= c && c <= 0x66)
}

/// The value of a lowercase hexadecimal digit.
pub open spec fn hex_val(c: u8) -> int {
    if c <= 0x39 {
        c - 0x30
    } else {
        c - 0x57
    }
}

/// The positions of the four dashes in the canonical text.
pub open spec fn dash_at(p: int) -> bool {
    p == 8 || p == 13 || p == 18 || p == 23
}

/// Which hexadecimal digit (most significant first) sits at text
/// position `p`, for the non-dash positions.
pub open spec fn digit_index(p: int) -> int {
    if p < 8 {
        p
    } else if p < 13 {
        p - 1
    } else if p < 18 {
        p - 2
    } else if p < 23 {
        p - 3
    } else {
        p - 4
    }
}

/// The canonical text of `id`: 36 bytes, dashes at positions 8, 13, 18
/// and 23, the identifier's hexadecimal digits everywhere else.
pub open spec fn id_text(id: u128) -> Seq<u8> {
    Seq::new(
        36,
        |p: int|
            if dash_at(p) {
                0x2d
            } else {
                hex_char(nibble(id, digit_index(p)))
            },
    )
}

/// `16^k` is positive.
proof fn lemma_pow16_pos(k: nat)
    ensures
        pow16(k) > 0,
    decreases k,
{
    if k > 0 {
        lemma_pow16_pos((k - 1) as nat);
    }
}

/// `16^k` never shrinks as `k` grows.
proof fn lemma_pow16_mono(a: nat, b: nat)
    requires
        a <= b,
    ensures
        pow16(a) <= pow16(b),
    decreases b - a,
{
    if a < b {
        lemma_pow16_mono(a, (b - 1) as nat);
        lemma_pow16_pos((b - 1) as nat);
    }
}

/// Thirty-two hexadecimal digits cover the whole identifier space:
/// `16^32` is one past the largest identifier.
proof fn lemma_pow16_32()
    ensures
        pow16(32) == u128::MAX as int + 1,
{
    reveal_with_fuel(pow16, 33);
}

/// The lowercase hexadecimal digit of a value below 16.
fn hex_byte(d: u128) -> (c: u8)
    requires
        d < 16,
    ensures
        c == hex_char(d as int),
        is_hex_char(c),
        hex_val(c) == d as int,
{
    if d < 10 {
        0x30 + (d as u8)
    } else {
        0x57 + (d as u8)
    }
}

/// The canonical 36-byte text of `id`.
pub fn format_client_id(id: u128) -> (out: Vec<u8>)
    ensures
        out@ == id_text(id),
{
    // The digits, least significant first: ls[t] is the digit of weight
    // 16^t, that is, the most-significant digit number 31 - t.
    let mut ls: Vec<u8> = Vec::new();
    let mut v: u128 = id;
    let mut k: usize = 0;
    while k < 32
        invariant
            k <= 32,
            ls@.len() == k,
            v as int == id as int / pow16(k as nat),
            forall|t: int| 0 <= t < k ==> ls@[t] == hex_char(nibble(id, 31 - t)),
        decreases 32 - k,
    {
        proof {
            lemma_pow16_pos(k as nat);
            lemma_div_denominator(id as int, pow16(k as nat), 16);
            assert(pow16((k + 1) as nat) == 16 * pow16(k as nat));
            assert(pow16(k as nat) * 16 == 16 * pow16(k as nat)) by (nonlinear_arith);
            assert((v as int) % 16 == nibble(id, 31 - k));
        }
        let d = v % 16;
        ls.push(hex_byte(d));
        v = v / 16;
        k = k + 1;
    }
    let mut out: Vec<u8> = Vec::new();
    let mut p: usize = 0;
    while p < 36
        invariant
            p <= 36,
            ls@.len() == 32,
            forall|t: int| 0 <= t < 32 ==> ls@[t] == hex_char(nibble(id, 31 - t)),
            out@ == id_text(id).take(p as int),
        decreases 36 - p,
    {
        if p == 8 || p == 13 || p == 18 || p == 23 {
            out.push(0x2d);
        } else {
            let di = if p < 8 {
                p
            } else if p < 13 {
                p - 1
            } else if p < 18 {
                p - 2
            } else if p < 23 {
                p - 3
            } else {
                p - 4
            };
            out.push(ls[31 - di]);
        }
        proof {
            assert(id_text(id).take(p as int + 1) =~= id_text(id).take(p as int).push(
                id_text(id)[p as int],
            ));
        }
        p = p + 1;
    }
    proof {
        assert(id_text(id).take(36) =~= id_text(id));
    }
    out
}

/// The value of a digit sequence read most significant first.
pub open spec fn digits_value(ds: Seq<int>) -> int
    decreases ds.len(),
{
    if ds.len() == 0 {
        0
    } else {
        digits_value(ds.drop_last()) * 16 + ds.last()
    }
}

/// A digit sequence's value is bounded by `16^len`, and dividing it back
/// out recovers each digit.
proof fn lemma_digits_value(ds: Seq<int>)
    requires
        forall|t: int| 0 <= t < ds.len() ==> 0 <= #[trigger] ds[t] < 16,
    ensures
        0 <= digits_value(ds) < pow16(ds.len()),
        forall|t: int|
            0 <= t < ds.len() ==> (digits_value(ds) / pow16((ds.len() - 1 - t) as nat)) % 16
                == ds[t],
    decreases ds.len(),
{
    if ds.len() == 0 {
    } else {
        let pre = ds.drop_last();
        let n = pre.len() as nat;
        assert(forall|t: int| 0 <= t < pre.len() ==> pre[t] == ds[t]);
        lemma_digits_value(pre);
        let h = digits_value(pre);
        let v = digits_value(ds);
        let d = ds.last();
        assert(v == h * 16 + d);
        assert(0 <= v < pow16((n + 1) as nat)) by {
            assert(pow16((n + 1) as nat) == 16 * pow16(n));
            assert(h <= pow16(n) - 1);
            assert(h * 16 <= (pow16(n) - 1) * 16) by (nonlinear_arith)
                requires
                    h <= pow16(n) - 1,
            ;
        }
        lemma_fundamental_div_mod_converse(v, 16, h, d);
        assert forall|t: int|
            0 <= t < ds.len() implies (v / pow16((ds.len() - 1 - t) as nat)) % 16 == ds[t] by {
            if t == ds.len() - 1 {
                assert(v / pow16(0) == v);
                assert(v % 16 == d);
            } else {
                let e = (pre.len() - 1 - t) as nat;
                lemma_pow16_pos(e);
                lemma_div_denominator(v, 16, pow16(e));
                assert(16 * pow16(e) == pow16((e + 1) as nat));
                assert((v / 16) / pow16(e) == v / (16 * pow16(e)));
                assert(v / 16 == h);
                assert((h / pow16(e)) % 16 == pre[t]);
            }
        }
    }
}

/// Every identifier is the value of its own digit sequence: reading the
/// hexadecimal digits back recovers the identifier.
proof fn lemma_digits_of_id(id: u128)
    ensures
        digits_value(Seq::new(32, |i: int| nibble(id, i))) == id,
{
    lemma_digits_prefix(id, 32);
    assert(pow16(0) == 1);
}

/// The first `k` digits of `id` are worth exactly the top `k` nibbles:
/// `id / 16^(32 - k)`.
proof fn lemma_digits_prefix(id: u128, k: int)
    requires
        0 <= k <= 32,
    ensures
        digits_value(Seq::new(k as nat, |i: int| nibble(id, i))) == id as int / pow16(
            (32 - k) as nat,
        ),
    decreases k,
{
    let ds = Seq::new(k as nat, |i: int| nibble(id, i));
    if k == 0 {
        assert((id as int) < pow16(32)) by {
            lemma_pow16_32();
        }
        lemma_pow16_pos(32);
        assert(id as int / pow16(32) == 0) by {
            vstd::arithmetic::div_mod::lemma_basic_div(id as int, pow16(32));
        }
    } else {
        lemma_digits_prefix(id, k - 1);
        let pre = Seq::new((k - 1) as nat, |i: int| nibble(id, i));
        assert(ds.drop_last() =~= pre);
        assert(ds.last() == nibble(id, k - 1));
        let e = (32 - k) as nat;
        let x = id as int / pow16(e);
        lemma_pow16_pos(e);
        lemma_div_denominator(id as int, pow16(e), 16);
        assert(pow16(e) * 16 == 16 * pow16(e)) by (nonlinear_arith);
        assert(16 * pow16(e) == pow16((e + 1) as nat));
        assert(x / 16 == id as int / pow16((33 - k) as nat));
        lemma_fundamental_div_mod(x, 16);
        assert(x == 16 * (x / 16) + x % 16);
        assert(x % 16 == nibble(id, k - 1));
        assert(digits_value(ds) == digits_value(pre) * 16 + nibble(id, k - 1));
    }
}

/// No two identifiers share their canonical text.
pub proof fn lemma_id_text_injective(a: u128, b: u128)
    requires
        id_text(a) == id_text(b),
    ensures
        a == b,
{
    let na = Seq::new(32, |i: int| nibble(a, i));
    let nb = Seq::new(32, |i: int| nibble(b, i));
    assert forall|i: int| 0 <= i < 32 implies na[i] == nb[i] by {
        let p: int = if i < 8 {
            i
        } else if i < 12 {
            i + 1
        } else if i < 16 {
            i + 2
        } else if i < 20 {
            i + 3
        } else {
            i + 4
        };
        assert(!dash_at(p) && digit_index(p) == i && 0 <= p < 36);
        assert(id_text(a)[p] == hex_char(nibble(a, i)));
        assert(id_text(b)[p] == hex_char(nibble(b, i)));
        assert(id_text(a)[p] == id_text(b)[p]);
        assert(0 <= nibble(a, i) < 16 && 0 <= nibble(b, i) < 16) by {
            lemma_pow16_pos((31 - i) as nat);
        }
        assert(hex_char(nibble(a, i)) == hex_char(nibble(b, i)));
    }
    assert(na =~= nb);
    lemma_digits_of_id(a);
    lemma_digits_of_id(b);
}

/// The identifier whose canonical text `s` is, if it is one. Exactly the
/// canonical form is accepted: 36 bytes, dashes at positions 8, 13, 18
/// and 23, lowercase hexadecimal digits everywhere else. For any other
/// byte sequence — in particular any uppercase or differently grouped
/// spelling — no identifier matches and `None` is returned.
pub fn parse_client_id(s: &[u8]) -> (r: Option<u128>)
    ensures
        match r {
            Some(id) => s@ == id_text(id),
            None => forall|id: u128| s@ != id_text(id),
        },
{
    if s.len() != 36 {
        proof {
            assert forall|id: u128| s@ != id_text(id) by {
                assert(id_text(id).len() == 36);
            }
        }
        return None;
    }
    let mut acc: u128 = 0;
    let ghost mut ds: Seq<int> = Seq::empty();
    let mut p: usize = 0;
    while p < 36
        invariant
            s@.len() == 36,
            p <= 36,
            ds.len() == digit_index(p as int) + (if dash_at(p as int) {
                1int
            } else {
                0int
            }),
            forall|t: int| 0 <= t < ds.len() ==> 0 <= #[trigger] ds[t] < 16,
            acc as int == digits_value(ds),
            (acc as int) < pow16(ds.len()),
            forall|t: int|
                0 <= t < p ==> if dash_at(t) {
                    s@[t] == 0x2d
                } else {
                    is_hex_char(#[trigger] s@[t]) && hex_val(s@[t]) == ds[digit_index(t)]
                },
        decreases 36 - p,
    {
        let c = s[p];
        if p == 8 || p == 13 || p == 18 || p == 23 {
            if c != 0x2d {
                proof {
                    assert forall|id: u128| s@ != id_text(id) by {
                        assert(id_text(id)[p as int] == 0x2d);
                    }
                }
                return None;
            }
        } else {
            let d: u128;
            if 0x30 <= c && c <= 0x39 {
                d = (c - 0x30) as u128;
            } else if 0x61 <= c && c <= 0x66 {
                d = (c - 0x57) as u128;
            } else {
                proof {
                    assert forall|id: u128| s@ != id_text(id) by {
                        let i = digit_index(p as int);
                        assert(0 <= nibble(id, i) < 16) by {
                            lemma_pow16_pos((31 - i) as nat);
                        }
                        assert(is_hex_char(id_text(id)[p as int]));
                    }
                }
                return None;
            }
            proof {
                lemma_digits_value(ds.push(d as int));
                assert(ds.push(d as int).drop_last() =~= ds);
                assert(pow16(ds.len() + 1) <= pow16(32)) by {
                    lemma_pow16_mono((ds.len() + 1) as nat, 32);
                }
                lemma_pow16_32();
            }
            acc = acc * 16 + d;
            proof {
                ds = ds.push(d as int);
            }
        }
        p = p + 1;
    }
    proof {
        lemma_digits_value(ds);
        assert forall|t: int| 0 <= t < 36 implies s@[t] == id_text(acc)[t] by {
            if !dash_at(t) {
                let i = digit_index(t);
                assert((digits_value(ds) / pow16((31 - i) as nat)) % 16 == ds[i]);
                assert(nibble(acc, i) == ds[i]);
                assert(hex_char(hex_val(s@[t])) == s@[t]);
            }
        }
        assert(s@ =~= id_text(acc));
    }
    Some(acc)
}

} // verus!
