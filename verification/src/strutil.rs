use vstd::prelude::*;

verus! {

/// The decimal digit character for `d` (0 through 9).
pub open spec fn digit_char(d: int) -> char {
    if d == 0 {
        '0'
    } else if d == 1 {
        '1'
    } else if d == 2 {
        '2'
    } else if d == 3 {
        '3'
    } else if d == 4 {
        '4'
    } else if d == 5 {
        '5'
    } else if d == 6 {
        '6'
    } else if d == 7 {
        '7'
    } else if d == 8 {
        '8'
    } else {
        '9'
    }
}

/// The decimal representation of `n`, most significant digit first,
/// with no leading zeros (a single `'0'` for zero).
pub open spec fn dec_rep(n: nat) -> Seq<char>
    decreases n,
{
    if n < 10 {
        seq![digit_char(n as int)]
    } else {
        dec_rep(n / 10) + seq![digit_char((n % 10) as int)]
    }
}

fn digit_str(d: u64) -> (r: &'static str)
    requires
        d < 10,
    ensures
        r@ == seq![digit_char(d as int)],
{
    match d {
        0 => {
            proof {
                reveal_strlit("0");
            }
            let r = "0";
            proof {
                assert(r@ =~= seq![digit_char(0)]);
            }
            r
        },
        1 => {
            proof {
                reveal_strlit("1");
            }
            let r = "1";
            proof {
                assert(r@ =~= seq![digit_char(1)]);
            }
            r
        },
        2 => {
            proof {
                reveal_strlit("2");
            }
            let r = "2";
            proof {
                assert(r@ =~= seq![digit_char(2)]);
            }
            r
        },
        3 => {
            proof {
                reveal_strlit("3");
            }
            let r = "3";
            proof {
                assert(r@ =~= seq![digit_char(3)]);
            }
            r
        },
        4 => {
            proof {
                reveal_strlit("4");
            }
            let r = "4";
            proof {
                assert(r@ =~= seq![digit_char(4)]);
            }
            r
        },
        5 => {
            proof {
                reveal_strlit("5");
            }
            let r = "5";
            proof {
                assert(r@ =~= seq![digit_char(5)]);
            }
            r
        },
        6 => {
            proof {
                reveal_strlit("6");
            }
            let r = "6";
            proof {
                assert(r@ =~= seq![digit_char(6)]);
            }
            r
        },
        7 => {
            proof {
                reveal_strlit("7");
            }
            let r = "7";
            proof {
                assert(r@ =~= seq![digit_char(7)]);
            }
            r
        },
        8 => {
            proof {
                reveal_strlit("8");
            }
            let r = "8";
            proof {
                assert(r@ =~= seq![digit_char(8)]);
            }
            r
        },
        _ => {
            proof {
                reveal_strlit("9");
            }
            let r = "9";
            proof {
                assert(r@ =~= seq![digit_char(9)]);
            }
            r
        },
    }
}

/// Renders `n` in decimal.
pub fn u64_to_string(n: u64) -> (s: String)
    ensures
        s@ == dec_rep(n as nat),
    decreases n,
{
    if n < 10 {
        String::from_str(digit_str(n))
    } else {
        let mut s = u64_to_string(n / 10);
        s.append(digit_str(n % 10));
        s
    }
}

/// Ten to the power `e`.
pub open spec fn pow10(e: nat) -> nat
    decreases e,
{
    if e == 0 {
        1
    } else {
        10 * pow10((e - 1) as nat)
    }
}

/// The last `d` decimal digits of `n`, zero-padded to exactly `d` characters.
pub open spec fn frac_digits(n: nat, d: nat) -> Seq<char>
    decreases d,
{
    if d == 0 {
        Seq::empty()
    } else {
        frac_digits(n / 10, (d - 1) as nat) + seq![digit_char((n % 10) as int)]
    }
}

/// The rendering of the fixed-point value `v` (in thousandths of a unit)
/// with `d` digits after the decimal point: the magnitude is rounded
/// half-up to the requested precision, a minus sign is kept for negative
/// inputs, and the point is omitted when `d` is zero.
pub open spec fn fixed_rep(v: int, d: nat) -> Seq<char>
    recommends
        d <= 3,
{
    let mag = if v < 0 {
        -v
    } else {
        v
    };
    let pow = pow10((3 - d) as nat) as int;
    let r = (mag + pow / 2) / pow;
    let whole = dec_rep((r / pow10(d) as int) as nat);
    let frac = if d == 0 {
        Seq::<char>::empty()
    } else {
        seq!['.'] + frac_digits((r % pow10(d) as int) as nat, d)
    };
    if v < 0 {
        seq!['-'] + whole + frac
    } else {
        whole + frac
    }
}

fn frac_string(n: u64, d: u64) -> (s: String)
    requires
        d <= 3,
    ensures
        s@ == frac_digits(n as nat, d as nat),
    decreases d,
{
    if d == 0 {
        let s = String::new();
        proof {
            assert(s@ =~= frac_digits(n as nat, 0));
        }
        s
    } else {
        let mut s = frac_string(n / 10, d - 1);
        s.append(digit_str(n % 10));
        s
    }
}

fn pow10_u64(e: u64) -> (r: u64)
    requires
        e <= 3,
    ensures
        r == pow10(e as nat),
        1 <= r <= 1000,
{
    proof {
        reveal_with_fuel(pow10, 4);
    }
    if e == 0 {
        1
    } else if e == 1 {
        10
    } else if e == 2 {
        100
    } else {
        1000
    }
}

/// Renders a fixed-point value held in thousandths of a unit with `d`
/// digits after the point, rounding the magnitude half-up.
pub fn fixed_to_string(v: i64, d: u64) -> (s: String)
    requires
        d <= 3,
        -0x4000_0000_0000_0000 < v < 0x4000_0000_0000_0000,
    ensures
        s@ == fixed_rep(v as int, d as nat),
{
    let mag: u64 = if v < 0 {
        (-v) as u64
    } else {
        v as u64
    };
    let pow: u64 = pow10_u64(3 - d);
    let r: u64 = (mag + pow / 2) / pow;
    let scale: u64 = pow10_u64(d);
    let whole = u64_to_string(r / scale);
    if v < 0 {
        proof {
            reveal_strlit("-");
        }
        let mut s = String::from_str("-");
        proof {
            assert(s@ =~= seq!['-']);
        }
        s.append(whole.as_str());
        if d > 0 {
            proof {
                reveal_strlit(".");
            }
            s.append(".");
            proof {
                assert("."@ =~= seq!['.']);
            }
            let frac = frac_string(r % scale, d);
            s.append(frac.as_str());
            proof {
                assert(s@ =~= fixed_rep(v as int, d as nat));
            }
            s
        } else {
            proof {
                assert(s@ =~= fixed_rep(v as int, d as nat));
            }
            s
        }
    } else {
        let mut s = whole;
        if d > 0 {
            proof {
                reveal_strlit(".");
            }
            s.append(".");
            proof {
                assert("."@ =~= seq!['.']);
            }
            let frac = frac_string(r % scale, d);
            s.append(frac.as_str());
            proof {
                assert(s@ =~= fixed_rep(v as int, d as nat));
            }
            s
        } else {
            proof {
                assert(s@ =~= fixed_rep(v as int, d as nat));
            }
            s
        }
    }
}

/// Lexicographic order on character sequences: `a` is a prefix of `b`,
/// or the two agree up to some position where `a` holds the smaller character.
pub open spec fn lex_le(a: Seq<char>, b: Seq<char>) -> bool {
    ||| (a.len() <= b.len() && a == b.subrange(0, a.len() as int))
    ||| (exists|i: int|
        0 <= i < a.len() && i < b.len() && a.subrange(0, i) == b.subrange(0, i) && (a[i] as int)
            < (b[i] as int))
}

/// Decides the lexicographic order of two strings by their characters.
pub fn str_lex_le(a: &str, b: &str) -> (r: bool)
    ensures
        r == lex_le(a@, b@),
{
    let la: usize = a.unicode_len();
    let lb: usize = b.unicode_len();
    let mut i: usize = 0;
    while i < la && i < lb
        invariant
            la == a@.len(),
            lb == b@.len(),
            i <= la,
            i <= lb,
            a@.subrange(0, i as int) == b@.subrange(0, i as int),
        decreases la - i,
    {
        let ca = a.get_char(i);
        let cb = b.get_char(i);
        if (ca as u32) < (cb as u32) {
            proof {
                assert(0 <= i < a@.len() && i < b@.len() && a@.subrange(0, i as int)
                    == b@.subrange(0, i as int) && (a@[i as int] as int) < (b@[i as int] as int));
            }
            return true;
        } else if (ca as u32) > (cb as u32) {
            proof {
                assert forall|j: int|
                    0 <= j < a@.len() && j < b@.len() && a@.subrange(0, j) == b@.subrange(
                        0,
                        j,
                    ) implies !((a@[j] as int) < (b@[j] as int)) by {
                    if j > i {
                        assert(a@.subrange(0, j)[i as int] == b@.subrange(0, j)[i as int]);
                    } else if j < i {
                        assert(a@.subrange(0, i as int)[j] == b@.subrange(0, i as int)[j]);
                    }
                }
                if a@.len() <= b@.len() && a@ == b@.subrange(0, a@.len() as int) {
                    assert(a@[i as int] == b@.subrange(0, a@.len() as int)[i as int]);
                }
            }
            return false;
        }
        proof {
            assert(a@.subrange(0, i + 1) =~= b@.subrange(0, i + 1)) by {
                assert forall|j: int| 0 <= j < i + 1 implies #[trigger] a@.subrange(0, i + 1)[j]
                    == b@.subrange(0, i + 1)[j] by {
                    if j < i {
                        assert(a@.subrange(0, i as int)[j] == b@.subrange(0, i as int)[j]);
                    }
                }
            }
        }
        i += 1;
    }
    if la <= lb {
        proof {
            assert(a@ =~= b@.subrange(0, a@.len() as int)) by {
                assert(i == la);
                assert forall|j: int| 0 <= j < a@.len() implies a@[j] == b@.subrange(
                    0,
                    a@.len() as int,
                )[j] by {
                    assert(a@.subrange(0, i as int)[j] == b@.subrange(0, i as int)[j]);
                }
            }
        }
        true
    } else {
        proof {
            assert forall|j: int|
                0 <= j < a@.len() && j < b@.len() && a@.subrange(0, j) == b@.subrange(
                    0,
                    j,
                ) implies !((a@[j] as int) < (b@[j] as int)) by {
                assert(j < i);
                assert(a@.subrange(0, i as int)[j] == b@.subrange(0, i as int)[j]);
            }
        }
        false
    }
}

proof fn lemma_lex_le_lift(a: Seq<char>, b: Seq<char>)
    requires
        a.len() > 0,
        b.len() > 0,
        a[0] == b[0],
        lex_le(a.skip(1), b.skip(1)),
    ensures
        lex_le(a, b),
{
    let x = a.skip(1);
    let y = b.skip(1);
    if x.len() <= y.len() && x == y.subrange(0, x.len() as int) {
        assert(a =~= b.subrange(0, a.len() as int)) by {
            assert forall|j: int| 0 <= j < a.len() implies a[j] == #[trigger] b.subrange(
                0,
                a.len() as int,
            )[j] by {
                if j > 0 {
                    assert(x[j - 1] == y.subrange(0, x.len() as int)[j - 1]);
                }
            }
        }
    } else {
        let i = choose|i: int|
            0 <= i < x.len() && i < y.len() && x.subrange(0, i) == y.subrange(0, i) && (
            x[i] as int) < (y[i] as int);
        assert(a.subrange(0, i + 1) =~= b.subrange(0, i + 1)) by {
            assert forall|j: int| 0 <= j < i + 1 implies #[trigger] a.subrange(0, i + 1)[j]
                == b.subrange(0, i + 1)[j] by {
                if j > 0 {
                    assert(x.subrange(0, i)[j - 1] == y.subrange(0, i)[j - 1]);
                }
            }
        }
        assert(a[i + 1] == x[i]);
        assert(b[i + 1] == y[i]);
        assert(0 <= i + 1 < a.len() && i + 1 < b.len() && a.subrange(0, i + 1) == b.subrange(
            0,
            i + 1,
        ) && (a[i + 1] as int) < (b[i + 1] as int));
    }
}

/// Law: any two character sequences are lexicographically comparable.
pub proof fn lemma_lex_le_total(a: Seq<char>, b: Seq<char>)
    ensures
        lex_le(a, b) || lex_le(b, a),
    decreases a.len(),
{
    if a.len() == 0 {
        assert(a =~= b.subrange(0, 0));
    } else if b.len() == 0 {
        assert(b =~= a.subrange(0, 0));
    } else if (a[0] as int) < (b[0] as int) {
        assert(a.subrange(0, 0) =~= b.subrange(0, 0));
        assert(0 <= 0 < a.len() && 0 < b.len() && a.subrange(0, 0) == b.subrange(0, 0) && (
        a[0] as int) < (b[0] as int));
    } else if (a[0] as int) > (b[0] as int) {
        assert(b.subrange(0, 0) =~= a.subrange(0, 0));
        assert(0 <= 0 < b.len() && 0 < a.len() && b.subrange(0, 0) == a.subrange(0, 0) && (
        b[0] as int) < (a[0] as int));
    } else {
        lemma_lex_le_total(a.skip(1), b.skip(1));
        if lex_le(a.skip(1), b.skip(1)) {
            lemma_lex_le_lift(a, b);
        } else {
            lemma_lex_le_lift(b, a);
        }
    }
}

/// Law: the lexicographic order is transitive.
pub proof fn lemma_lex_le_trans(a: Seq<char>, b: Seq<char>, c: Seq<char>)
    requires
        lex_le(a, b),
        lex_le(b, c),
    ensures
        lex_le(a, c),
{
    if a.len() <= b.len() && a == b.subrange(0, a.len() as int) {
        if b.len() <= c.len() && b == c.subrange(0, b.len() as int) {
            assert(a =~= c.subrange(0, a.len() as int)) by {
                assert forall|j: int| 0 <= j < a.len() implies a[j] == #[trigger] c.subrange(
                    0,
                    a.len() as int,
                )[j] by {
                    assert(a[j] == b.subrange(0, a.len() as int)[j]);
                    assert(b[j] == c.subrange(0, b.len() as int)[j]);
                }
            }
        } else {
            let i = choose|i: int|
                0 <= i < b.len() && i < c.len() && b.subrange(0, i) == c.subrange(0, i) && (
                b[i] as int) < (c[i] as int);
            if i < a.len() {
                assert(a.subrange(0, i) =~= c.subrange(0, i)) by {
                    assert forall|j: int| 0 <= j < i implies #[trigger] a.subrange(0, i)[j]
                        == c.subrange(0, i)[j] by {
                        assert(a[j] == b.subrange(0, a.len() as int)[j]);
                        assert(b.subrange(0, i)[j] == c.subrange(0, i)[j]);
                    }
                }
                assert(a[i] == b.subrange(0, a.len() as int)[i]);
                assert(0 <= i < a.len() && i < c.len() && a.subrange(0, i) == c.subrange(0, i) && (
                a[i] as int) < (c[i] as int));
            } else {
                assert(a =~= c.subrange(0, a.len() as int)) by {
                    assert forall|j: int| 0 <= j < a.len() implies a[j] == #[trigger] c.subrange(
                        0,
                        a.len() as int,
                    )[j] by {
                        assert(a[j] == b.subrange(0, a.len() as int)[j]);
                        assert(b.subrange(0, i)[j] == c.subrange(0, i)[j]);
                    }
                }
            }
        }
    } else {
        let i = choose|i: int|
            0 <= i < a.len() && i < b.len() && a.subrange(0, i) == b.subrange(0, i) && (
            a[i] as int) < (b[i] as int);
        if b.len() <= c.len() && b == c.subrange(0, b.len() as int) {
            assert(a.subrange(0, i) =~= c.subrange(0, i)) by {
                assert forall|j: int| 0 <= j < i implies #[trigger] a.subrange(0, i)[j]
                    == c.subrange(0, i)[j] by {
                    assert(a.subrange(0, i)[j] == b.subrange(0, i)[j]);
                    assert(b[j] == c.subrange(0, b.len() as int)[j]);
                }
            }
            assert(b[i] == c.subrange(0, b.len() as int)[i]);
            assert(0 <= i < a.len() && i < c.len() && a.subrange(0, i) == c.subrange(0, i) && (
            a[i] as int) < (c[i] as int));
        } else {
            let k = choose|k: int|
                0 <= k < b.len() && k < c.len() && b.subrange(0, k) == c.subrange(0, k) && (
                b[k] as int) < (c[k] as int);
            if i <= k {
                assert(a.subrange(0, i) =~= c.subrange(0, i)) by {
                    assert forall|j: int| 0 <= j < i implies #[trigger] a.subrange(0, i)[j]
                        == c.subrange(0, i)[j] by {
                        assert(a.subrange(0, i)[j] == b.subrange(0, i)[j]);
                        assert(b.subrange(0, k)[j] == c.subrange(0, k)[j]);
                    }
                }
                if i < k {
                    assert(b.subrange(0, k)[i] == c.subrange(0, k)[i]);
                }
                assert(0 <= i < a.len() && i < c.len() && a.subrange(0, i) == c.subrange(0, i) && (
                a[i] as int) < (c[i] as int));
            } else {
                assert(a.subrange(0, k) =~= c.subrange(0, k)) by {
                    assert forall|j: int| 0 <= j < k implies #[trigger] a.subrange(0, k)[j]
                        == c.subrange(0, k)[j] by {
                        assert(a.subrange(0, i)[j] == b.subrange(0, i)[j]);
                        assert(b.subrange(0, k)[j] == c.subrange(0, k)[j]);
                    }
                }
                assert(a.subrange(0, i)[k] == b.subrange(0, i)[k]);
                assert(0 <= k < a.len() && k < c.len() && a.subrange(0, k) == c.subrange(0, k) && (
                a[k] as int) < (c[k] as int));
            }
        }
    }
}

/// Law: sequences ordered both ways are equal.
pub proof fn lemma_lex_le_antisym(a: Seq<char>, b: Seq<char>)
    requires
        lex_le(a, b),
        lex_le(b, a),
    ensures
        a == b,
{
    if a.len() <= b.len() && a == b.subrange(0, a.len() as int) {
        if b.len() <= a.len() && b == a.subrange(0, b.len() as int) {
            assert(a =~= b) by {
                assert forall|j: int| 0 <= j < a.len() implies a[j] == b[j] by {
                    assert(a[j] == b.subrange(0, a.len() as int)[j]);
                }
            }
        } else {
            let i = choose|i: int|
                0 <= i < b.len() && i < a.len() && b.subrange(0, i) == a.subrange(0, i) && (
                b[i] as int) < (a[i] as int);
            assert(a[i] == b.subrange(0, a.len() as int)[i]);
            assert(false);
        }
    } else {
        let i = choose|i: int|
            0 <= i < a.len() && i < b.len() && a.subrange(0, i) == b.subrange(0, i) && (
            a[i] as int) < (b[i] as int);
        if b.len() <= a.len() && b == a.subrange(0, b.len() as int) {
            assert(b[i] == a.subrange(0, b.len() as int)[i]);
            assert(false);
        } else {
            let k = choose|k: int|
                0 <= k < b.len() && k < a.len() && b.subrange(0, k) == a.subrange(0, k) && (
                b[k] as int) < (a[k] as int);
            if i < k {
                assert(b.subrange(0, k)[i] == a.subrange(0, k)[i]);
                assert(false);
            } else if k < i {
                assert(a.subrange(0, i)[k] == b.subrange(0, i)[k]);
                assert(false);
            } else {
                assert(false);
            }
        }
    }
}

/// Decides character-for-character equality of two strings.
pub fn chars_eq(a: &str, b: &str) -> (r: bool)
    ensures
        r == (a@ == b@),
{
    let la: usize = a.unicode_len();
    let lb: usize = b.unicode_len();
    if la != lb {
        return false;
    }
    let mut i: usize = 0;
    while i < la
        invariant
            la == a@.len(),
            lb == b@.len(),
            la == lb,
            i <= la,
            forall|j: int| 0 <= j < i ==> a@[j] == b@[j],
        decreases la - i,
    {
        let ca = a.get_char(i);
        let cb = b.get_char(i);
        if (ca as u32) != (cb as u32) {
            proof {
                assert(a@[i as int] != b@[i as int]);
            }
            return false;
        }
        i += 1;
    }
    proof {
        assert(a@ =~= b@);
    }
    true
}

} // verus!
