use vstd::prelude::*;
use vstd::arithmetic::power2::{pow2, lemma2_to64, lemma_pow2_unfold};
use vstd::arithmetic::div_mod::{lemma_div_decreases, lemma_div_is_ordered_by_denominator, lemma_div_is_ordered, lemma_fundamental_div_mod};

verus! {

/// Calls `it` on each of `lo`, `lo + 1`, ..., `hi - 1` in turn.
pub fn range<F: Fn(usize)>(lo: usize, hi: usize, it: F)
    requires
        forall|i: usize| lo <= i < hi ==> call_requires(it, (i,)),
{
    let mut iter = lo;
    while iter < hi
        invariant
            lo <= iter,
            forall|i: usize| lo <= i < hi ==> call_requires(it, (i,)),
        decreases hi - iter,
    {
        it(iter);
        iter = iter + 1;
    }
}

/// The absolute value.
pub open spec fn abs_int(a: int) -> int {
    if a < 0 {
        -a
    } else {
        a
    }
}

/// Division rounded toward zero.
pub open spec fn trunc_div(a: int, b: int) -> int {
    if (a >= 0) == (b > 0) {
        abs_int(a) / abs_int(b)
    } else {
        -(abs_int(a) / abs_int(b))
    }
}

/// The remainder of [`trunc_div`]: it has the sign of `a`.
pub open spec fn trunc_rem(a: int, b: int) -> int {
    if a >= 0 {
        abs_int(a) % abs_int(b)
    } else {
        -(abs_int(a) % abs_int(b))
    }
}

/// The digits of `c` in base `b`, least significant first, as repeated
/// division rounded toward zero gives them (a digit may be negative when `c`
/// is, or when the base is negative).
pub open spec fn low_digits(c: int, b: int) -> Seq<int>
    decreases abs_int(c),
{
    if c == 0 || abs_int(b) < 2 {
        Seq::empty()
    } else {
        proof {
            lemma_div_decreases(abs_int(c), abs_int(b));
        }
        seq![trunc_rem(c, b)] + low_digits(trunc_div(c, b), b)
    }
}

/// The character of a digit in `0123456789ABCDEF`.
pub open spec fn hex_digit(d: int) -> u8 {
    if d < 10 {
        (48 + d) as u8
    } else {
        (55 + d) as u8
    }
}

/// Every digit of `|num|` in base `base` has a character.
pub open spec fn digits_printable(num: int, base: int) -> bool {
    forall|k: int|
        0 <= k < low_digits(abs_int(num), base).len() ==> 0 <= #[trigger] low_digits(
            abs_int(num),
            base,
        )[k] < 16
}

/// The text of `num` in base `base`: a minus sign when negative, then the
/// digits, most significant first.
pub open spec fn int_text(num: int, base: int) -> Seq<u8> {
    if num == 0 {
        seq![48u8]
    } else {
        (if num < 0 {
            seq![45u8]
        } else {
            Seq::empty()
        }) + low_digits(abs_int(num), base).reverse().map_values(|d: int| hex_digit(d))
    }
}

/// The number that digits `ds` (least significant first) stand for in base `b`.
pub open spec fn digits_value(ds: Seq<int>, b: int) -> int
    decreases ds.len(),
{
    if ds.len() == 0 {
        0
    } else {
        ds[0] + b * digits_value(ds.drop_first(), b)
    }
}

/// The digits that repeated division gives add back up to the number: each
/// step splits `c` into `b * trunc_div(c, b) + trunc_rem(c, b)`.
pub proof fn lemma_low_digits_value(c: int, b: int)
    requires
        abs_int(b) >= 2,
    ensures
        digits_value(low_digits(c, b), b) == c,
    decreases abs_int(c),
{
    if c != 0 {
        let q = trunc_div(c, b);
        let r = trunc_rem(c, b);
        lemma_div_decreases(abs_int(c), abs_int(b));
        lemma_low_digits_value(q, b);
        let ds = low_digits(c, b);
        assert(ds.drop_first() =~= low_digits(q, b));
        lemma_fundamental_div_mod(abs_int(c), abs_int(b));
        let aq = abs_int(c) / abs_int(b);
        let ar = abs_int(c) % abs_int(b);
        assert(b * q + r == c) by (nonlinear_arith)
            requires
                abs_int(c) == abs_int(b) * aq + ar,
                q == (if (c >= 0) == (b > 0) { aq } else { -aq }),
                r == (if c >= 0 { ar } else { -ar }),
                abs_int(c) == (if c < 0 { -c } else { c }),
                abs_int(b) == (if b < 0 { -b } else { b }),
                b != 0,
        ;
    }
}

/// Size of the text buffer of a number.
pub const TEXT_SIZE: usize = 65;

/// Number of binary digits of `x`.
pub open spec fn bit_len(x: nat) -> nat
    decreases x,
{
    if x == 0 {
        0
    } else {
        1 + bit_len(x / 2)
    }
}

proof fn lemma_bit_len_mono(x: nat, y: nat)
    requires
        x <= y,
    ensures
        bit_len(x) <= bit_len(y),
    decreases y,
{
    if x != 0 {
        lemma_div_is_ordered(x as int, y as int, 2);
        lemma_bit_len_mono(x / 2, y / 2);
    }
}

proof fn lemma_low_digits_len(c: int, b: int)
    requires
        abs_int(b) >= 2,
    ensures
        low_digits(c, b).len() <= bit_len(abs_int(c) as nat),
    decreases abs_int(c),
{
    if c != 0 {
        let d = trunc_div(c, b);
        lemma_div_decreases(abs_int(c), abs_int(b));
        lemma_low_digits_len(d, b);
        lemma_div_is_ordered_by_denominator(abs_int(c), 2, abs_int(b));
        lemma_bit_len_mono(abs_int(d) as nat, (abs_int(c) / 2) as nat);
    }
}

proof fn lemma_bit_len_pow2(x: nat, k: nat)
    requires
        x < pow2(k),
    ensures
        bit_len(x) <= k,
    decreases k,
{
    if x != 0 {
        if k == 0 {
            lemma2_to64();
        } else {
            lemma_pow2_unfold(k);
            lemma_bit_len_pow2(x / 2, (k - 1) as nat);
        }
    }
}

proof fn lemma_bit_len_i32()
    ensures
        bit_len(0x7fff_ffff) <= 31,
{
    lemma2_to64();
    lemma_bit_len_pow2(0x7fff_ffff, 31);
}

/// The text of a number is at most 32 bytes (a sign and 31 digits), none of
/// them zero.
pub proof fn lemma_int_text_shape(num: i32, base: i32)
    requires
        num != i32::MIN,
        abs_int(base as int) >= 2,
        digits_printable(num as int, base as int),
    ensures
        int_text(num as int, base as int).len() <= 32,
        forall|k: int| 0 <= k < int_text(num as int, base as int).len() ==> #[trigger] int_text(num as int, base as int)[k] != 0,
{
    let m = abs_int(num as int);
    lemma_low_digits_len(m, base as int);
    lemma_bit_len_mono(m as nat, 0x7fff_ffff);
    lemma_bit_len_i32();
    if num != 0 {
        let ds = low_digits(m, base as int);
        let t = int_text(num as int, base as int);
        let sign: Seq<u8> = if num < 0 { seq![45u8] } else { Seq::empty() };
        let body = ds.reverse().map_values(|d: int| hex_digit(d));
        assert(t == sign + body);
        assert forall|k: int| 0 <= k < t.len() implies #[trigger] t[k] != 0 by {
            if k >= sign.len() {
                let j = k - sign.len();
                assert(body[j] == hex_digit(ds[ds.len() - 1 - j]));
                assert(0 <= ds[ds.len() - 1 - j] < 16);
            }
        }
    }
}

/// Whether `num` can be converted to text in base `base` (see
/// [`to_str_bytes`]); the kernel tests this first and halts when it fails.
pub fn int_text_ok(num: i32, base: i32) -> (b: bool)
    ensures
        b == (num != i32::MIN && abs_int(base as int) >= 2 && digits_printable(num as int, base as int)),
{
    if num == i32::MIN || base == 0 || base == 1 || base == -1 {
        return false;
    }
    let m: u32 = if num < 0 {
        (-num) as u32
    } else {
        num as u32
    };
    let bneg = base < 0;
    let bm: u32 = if bneg {
        (-(base as i64)) as u32
    } else {
        base as u32
    };
    let ghost all = low_digits(m as int, base as int);
    let mut c: u32 = m;
    let mut c_neg = false;
    let ghost mut cur: int = m as int;
    let ghost mut k: int = 0;
    proof {
        assert(abs_int(num as int) == m as int);
        assert(all == all.subrange(0, 0) + low_digits(cur, base as int));
    }
    while c != 0
        invariant
            bm as int == abs_int(base as int),
            bm >= 2,
            bneg == (base < 0),
            cur == (if c_neg {
                -(c as int)
            } else {
                c as int
            }),
            all == low_digits(m as int, base as int),
            abs_int(num as int) == m as int,
            0 <= k <= all.len(),
            all == all.subrange(0, k) + low_digits(cur, base as int),
            forall|j: int| 0 <= j < k ==> 0 <= #[trigger] all[j] < 16,
        decreases c,
    {
        let r = c % bm;
        proof {
            assert(low_digits(cur, base as int) == seq![trunc_rem(cur, base as int)] + low_digits(
                trunc_div(cur, base as int),
                base as int,
            ));
            assert(all[k] == trunc_rem(cur, base as int));
        }
        if (c_neg && r != 0) || r >= 16 {
            assert(!(0 <= all[k] < 16));
            return false;
        }
        proof {
            assert(all =~= all.subrange(0, k + 1) + low_digits(trunc_div(cur, base as int), base as int));
            lemma_div_decreases(c as int, bm as int);
        }
        c = c / bm;
        c_neg = c_neg != bneg;
        proof {
            cur = trunc_div(cur, base as int);
            k = k + 1;
        }
    }
    proof {
        assert(low_digits(cur, base as int) =~= Seq::<int>::empty());
        assert(k == all.len());
    }
    true
}

/// Converts `num` to text in base `base`, in a zero-filled buffer of 65 bytes.
///
/// Not for `num == i32::MIN` (its negation does not fit), bases -1, 0 and 1
/// (the division never ends, or divides by zero), nor numbers with a digit
/// outside `0..16` in the given base (no character for it).
pub fn to_str_bytes(num: i32, base: i32) -> (r: Vec<u8>)
    requires
        num != i32::MIN,
        abs_int(base as int) >= 2,
        digits_printable(num as int, base as int),
    ensures
        r.len() == TEXT_SIZE,
        int_text(num as int, base as int).len() <= TEXT_SIZE,
        r@ == int_text(num as int, base as int) + Seq::new(
            (TEXT_SIZE - int_text(num as int, base as int).len()) as nat,
            |i: int| 0u8,
        ),
{
    let ghost text = int_text(num as int, base as int);
    let mut ret: Vec<u8> = Vec::new();
    if num == 0 {
        ret.push(48);
    } else {
        if num < 0 {
            ret.push(45);
        }
        let m: u32 = if num < 0 {
            (-num) as u32
        } else {
            num as u32
        };
        let bneg = base < 0;
        let bm: u32 = if bneg {
            (-(base as i64)) as u32
        } else {
            base as u32
        };
        let ghost all = low_digits(m as int, base as int);
        // Digits, least significant first.
        let mut ds: Vec<u8> = Vec::new();
        let mut c: u32 = m;
        let mut c_neg = false;
        let ghost mut cur: int = m as int;
        proof {
            assert(abs_int(num as int) == m as int);
            assert(all == ds@.map_values(|d: u8| d as int) + low_digits(cur, base as int));
            lemma_low_digits_len(m as int, base as int);
            lemma_bit_len_mono(m as nat, 0x7fff_ffff);
            lemma_bit_len_i32();
        }
        while c != 0
            invariant
                bm as int == abs_int(base as int),
                bm >= 2,
                bneg == (base < 0),
                cur == (if c_neg {
                    -(c as int)
                } else {
                    c as int
                }),
                all == low_digits(m as int, base as int),
                all.len() <= 31,
                digits_printable(num as int, base as int),
                abs_int(num as int) == m as int,
                all == ds@.map_values(|d: u8| d as int) + low_digits(cur, base as int),
            decreases c,
        {
            let ghost k = ds.len() as int;
            let r = c % bm;
            proof {
                assert(low_digits(cur, base as int) == seq![trunc_rem(cur, base as int)] + low_digits(
                    trunc_div(cur, base as int),
                    base as int,
                ));
                assert(all[k] == trunc_rem(cur, base as int));
                assert(0 <= all[k] < 16);
                assert(trunc_rem(cur, base as int) == r as int);
            }
            let ghost old_ds = ds@;
            ds.push(r as u8);
            proof {
                assert(ds@.map_values(|d: u8| d as int) =~= old_ds.map_values(|d: u8| d as int).push(
                    r as int,
                ));
                assert(all =~= ds@.map_values(|d: u8| d as int) + low_digits(
                    trunc_div(cur, base as int),
                    base as int,
                ));
                lemma_div_decreases(c as int, bm as int);
            }
            c = c / bm;
            c_neg = c_neg != bneg;
            proof {
                cur = trunc_div(cur, base as int);
            }
        }
        proof {
            assert(low_digits(cur, base as int) =~= Seq::<int>::empty());
            assert(all =~= ds@.map_values(|d: u8| d as int));
        }
        // Most significant first.
        let ghost pre = ret@;
        let mut k: usize = ds.len();
        while k > 0
            invariant
                k <= ds.len(),
                ds.len() == all.len(),
                all.len() <= 31,
                all == ds@.map_values(|d: u8| d as int),
                forall|i: int| 0 <= i < all.len() ==> 0 <= #[trigger] all[i] < 16,
                ret@ == pre + all.subrange(k as int, all.len() as int).reverse().map_values(
                    |d: int| hex_digit(d),
                ),
            decreases k,
        {
            k = k - 1;
            let d = ds[k];
            assert(all[k as int] == d as int);
            let ch: u8 = if d < 10 {
                48 + d
            } else {
                55 + d
            };
            proof {
                assert(all[k as int] == d as int);
                assert(all.subrange(k as int, all.len() as int).reverse() =~= all.subrange(
                    k + 1,
                    all.len() as int,
                ).reverse().push(all[k as int]));
            }
            ret.push(ch);
        }
        assert(all.subrange(0, all.len() as int) =~= all);
        assert(ret@ =~= text);
    }
    assert(ret@ =~= text);
    let ghost tlen = ret.len();
    while ret.len() < TEXT_SIZE
        invariant
            tlen <= ret.len() <= TEXT_SIZE,
            ret@ == text + Seq::new((ret.len() - tlen) as nat, |i: int| 0u8),
        decreases TEXT_SIZE - ret.len(),
    {
        ret.push(0);
        assert(ret@ =~= text + Seq::new((ret.len() - tlen) as nat, |i: int| 0u8));
    }
    ret
}

/// The value of the digit character `ch` of `0123456789ABCDEF`.
pub open spec fn digit_of(ch: u8) -> int {
    if ch <= 57 {
        ch - 48
    } else {
        ch - 55
    }
}

/// The number that the digit characters `t` (most significant first) stand
/// for in base `b`.
pub open spec fn text_digits_value(t: Seq<u8>, b: int) -> int
    decreases t.len(),
{
    if t.len() == 0 {
        0
    } else {
        text_digits_value(t.drop_last(), b) * b + digit_of(t.last())
    }
}

/// The number that the text `t` stands for in base `b`: an optional minus
/// sign, then digits.
pub open spec fn text_value(t: Seq<u8>, b: int) -> int {
    if t.len() > 0 && t[0] == 45 {
        -text_digits_value(t.drop_first(), b)
    } else {
        text_digits_value(t, b)
    }
}

proof fn lemma_low_digits_range(c: int, b: int)
    requires
        c >= 0,
        b >= 2,
    ensures
        forall|k: int| 0 <= k < low_digits(c, b).len() ==> 0 <= #[trigger] low_digits(c, b)[k] < b,
        c != 0 ==> low_digits(c, b).len() > 0 && low_digits(c, b).last() != 0,
    decreases c,
{
    if c != 0 {
        let q = c / b;
        lemma_div_decreases(c, b);
        assert(trunc_div(c, b) == q);
        assert(trunc_rem(c, b) == c % b);
        lemma_low_digits_range(q, b);
        let ds = low_digits(c, b);
        assert(ds == seq![c % b] + low_digits(q, b));
        if q == 0 {
            lemma_fundamental_div_mod(c, b);
            assert(c % b == c);
        }
    }
}

proof fn lemma_text_digits(ds: Seq<int>, b: int)
    requires
        forall|k: int| 0 <= k < ds.len() ==> 0 <= #[trigger] ds[k] < 16,
    ensures
        text_digits_value(ds.reverse().map_values(|d: int| hex_digit(d)), b) == digits_value(ds, b),
    decreases ds.len(),
{
    if ds.len() > 0 {
        let rest = ds.drop_first();
        lemma_text_digits(rest, b);
        let t = ds.reverse().map_values(|d: int| hex_digit(d));
        assert(t.drop_last() =~= rest.reverse().map_values(|d: int| hex_digit(d)));
        assert(t.last() == hex_digit(ds[0]));
        assert(digit_of(hex_digit(ds[0])) == ds[0]);
        let v = digits_value(rest, b);
        assert(v * b == b * v) by (nonlinear_arith);
    }
}

/// The text of a number in a base from 2 to 16 reads back to the number, and
/// has no leading zero: after the sign (present just for a negative number)
/// comes a digit other than `0`, unless the number is 0.
pub proof fn lemma_int_text_reads_back(num: int, base: int)
    requires
        2 <= base <= 16,
    ensures
        text_value(int_text(num, base), base) == num,
        (int_text(num, base)[0] == 45) == (num < 0),
        num != 0 ==> int_text(num, base)[if num < 0 { 1int } else { 0int }] != 48,
{
    let t = int_text(num, base);
    if num == 0 {
        assert(t.drop_last() =~= Seq::<u8>::empty());
        assert(text_digits_value(t.drop_last(), base) == 0);
        assert(0 * base == 0);
        assert(text_digits_value(t, base) == 0);
    } else {
        let m = abs_int(num);
        let ds = low_digits(m, base);
        lemma_low_digits_range(m, base);
        lemma_low_digits_value(m, base);
        lemma_text_digits(ds, base);
        let body = ds.reverse().map_values(|d: int| hex_digit(d));
        assert(body[0] == hex_digit(ds[ds.len() - 1]));
        if num < 0 {
            assert(t == seq![45u8] + body);
            assert(t.drop_first() =~= body);
            assert(t[1] == body[0]);
        } else {
            assert(t =~= body);
            assert(0 <= ds[ds.len() - 1] < 16);
            assert(t[0] != 45);
        }
    }
}

} // verus!
