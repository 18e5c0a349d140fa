//! Character-level helpers shared by the naming rules: code-point order on
//! strings, zero-padded decimal rendering and path joining.

use vstd::prelude::*;
use vstd::string::*;

verus! {

/// The code point of a character.
pub open spec fn code(c: char) -> int {
    c as int
}

/// Lexicographic order on strings by code point: `a` comes no later than `b`.
///
/// This is the order that `str` comparison implements.
pub open spec fn lex_le(a: Seq<char>, b: Seq<char>) -> bool
    decreases a.len(),
{
    if a.len() == 0 {
        true
    } else if b.len() == 0 {
        false
    } else if a[0] != b[0] {
        code(a[0]) < code(b[0])
    } else {
        lex_le(a.drop_first(), b.drop_first())
    }
}

/// Any two strings are comparable.
pub proof fn lemma_lex_le_total(a: Seq<char>, b: Seq<char>)
    ensures
        lex_le(a, b) || lex_le(b, a),
    decreases a.len(),
{
    if a.len() > 0 && b.len() > 0 && a[0] == b[0] {
        lemma_lex_le_total(a.drop_first(), b.drop_first());
    }
}

/// Two strings that precede each other are the same string.
pub proof fn lemma_lex_le_antisymmetric(a: Seq<char>, b: Seq<char>)
    requires
        lex_le(a, b),
        lex_le(b, a),
    ensures
        a == b,
    decreases a.len(),
{
    if a.len() == 0 || b.len() == 0 {
        assert(a =~= b);
    } else {
        lemma_lex_le_antisymmetric(a.drop_first(), b.drop_first());
        assert(a =~= seq![a[0]] + a.drop_first());
        assert(b =~= seq![b[0]] + b.drop_first());
    }
}

/// The order is transitive.
pub proof fn lemma_lex_le_transitive(a: Seq<char>, b: Seq<char>, c: Seq<char>)
    requires
        lex_le(a, b),
        lex_le(b, c),
    ensures
        lex_le(a, c),
    decreases a.len(),
{
    if a.len() > 0 && b.len() > 0 && c.len() > 0 && a[0] == b[0] && b[0] == c[0] {
        lemma_lex_le_transitive(a.drop_first(), b.drop_first(), c.drop_first());
    }
}

/// The characters of `s`, in order.
pub fn chars_of(s: &str) -> (out: Vec<char>)
    ensures
        out@ == s@,
{
    let n: usize = s.unicode_len();
    let mut out: Vec<char> = Vec::new();
    let mut i: usize = 0;
    while i < n
        invariant
            n == s@.len(),
            i <= n,
            out@ == s@.subrange(0, i as int),
        decreases n - i,
    {
        let c = s.get_char(i);
        out.push(c);
        assert(out@ =~= s@.subrange(0, i + 1));
        i += 1;
    }
    assert(out@ =~= s@);
    out
}

/// Decides `lex_le` on two strings.
pub fn str_le(a: &str, b: &str) -> (r: bool)
    ensures
        r == lex_le(a@, b@),
{
    let x = chars_of(a);
    let y = chars_of(b);
    let mut i: usize = 0;
    assert(x@.subrange(0, x.len() as int) =~= x@ && y@.subrange(0, y.len() as int) =~= y@);
    loop
        invariant
            x@ == a@,
            y@ == b@,
            i <= x.len(),
            i <= y.len(),
            lex_le(a@, b@) == lex_le(x@.subrange(i as int, x.len() as int), y@.subrange(i as int, y.len() as int)),
        decreases x.len() - i,
    {
        let ghost xs = x@.subrange(i as int, x.len() as int);
        let ghost ys = y@.subrange(i as int, y.len() as int);
        if i == x.len() {
            return true;
        }
        if i == y.len() {
            return false;
        }
        let cx: char = x[i];
        let cy: char = y[i];
        if cx != cy {
            assert(xs[0] == x@[i as int] && ys[0] == y@[i as int]);
            return cx < cy;
        }
        proof {
            assert(xs[0] == x@[i as int] && ys[0] == y@[i as int]);
            assert(xs.drop_first() =~= x@.subrange(i + 1, x.len() as int));
            assert(ys.drop_first() =~= y@.subrange(i + 1, y.len() as int));
        }
        i += 1;
    }
}

/// The character that writes the digit `d`.
pub open spec fn digit_char(d: nat) -> char {
    if d == 0 {
        '0'
    } else if d == 1 {
        '1'
    } else if d == 2 {
        '2'
    } else if d == 3 {
        '3'
    } else if d == 4 {
        '4'
    } else if d == 5 {
        '5'
    } else if d == 6 {
        '6'
    } else if d == 7 {
        '7'
    } else if d == 8 {
        '8'
    } else {
        '9'
    }
}

/// The decimal numeral of `n`, without leading zeros (`"0"` for zero).
pub open spec fn decimal(n: nat) -> Seq<char>
    decreases n,
{
    if n < 10 {
        seq![digit_char(n)]
    } else {
        decimal(n / 10).push(digit_char(n % 10))
    }
}

/// `count` zeros.
pub open spec fn zeros(count: nat) -> Seq<char> {
    Seq::new(count, |i: int| '0')
}

/// The decimal numeral of `n`, filled up with leading zeros to `width`
/// characters. A numeral longer than `width` is kept whole.
pub open spec fn zero_padded(n: nat, width: nat) -> Seq<char> {
    let d = decimal(n);
    if d.len() >= width {
        d
    } else {
        zeros((width - d.len()) as nat) + d
    }
}

/// Ten to the power `e`.
pub open spec fn pow10(e: nat) -> nat
    decreases e,
{
    if e == 0 {
        1
    } else {
        10 * pow10((e - 1) as nat)
    }
}

/// The last `width` decimal digits of `n`, leading zeros included.
pub open spec fn fixed_digits(n: nat, width: nat) -> Seq<char>
    decreases width,
{
    if width == 0 {
        Seq::empty()
    } else {
        fixed_digits(n / 10, (width - 1) as nat).push(digit_char(n % 10))
    }
}

/// `fixed_digits` is `width` characters long, and zeros throughout for
/// zero.
pub proof fn lemma_fixed_digits_len(n: nat, width: nat)
    ensures
        fixed_digits(n, width).len() == width,
        n == 0 ==> fixed_digits(n, width) == zeros(width),
    decreases width,
{
    if width > 0 {
        lemma_fixed_digits_len(n / 10, (width - 1) as nat);
        if n == 0 {
            assert(fixed_digits(n, width) =~= zeros(width));
        }
    }
}

/// A number below `pow10(width)`, for a `width` of one or more, has a
/// numeral of at most `width` digits, and padded to `width` it reads as
/// its last `width` digits.
pub proof fn lemma_zero_padded_is_fixed(n: nat, width: nat)
    requires
        width >= 1,
        n < pow10(width),
    ensures
        decimal(n).len() <= width,
        zero_padded(n, width) == fixed_digits(n, width),
        zero_padded(n, width).len() == width,
    decreases width,
{
    lemma_fixed_digits_len(n, width);
    lemma_fixed_digits_len(n / 10, (width - 1) as nat);
    if n < 10 {
        assert(zero_padded(n, width) =~= zeros((width - 1) as nat).push(digit_char(n)));
        assert(fixed_digits(n, width) =~= zero_padded(n, width));
    } else {
        assert(width >= 2) by {
            assert(pow10(1) == 10 * pow10(0));
        }
        lemma_zero_padded_is_fixed(n / 10, (width - 1) as nat);
        let d = decimal(n / 10);
        assert(decimal(n) == d.push(digit_char(n % 10)));
        assert(zero_padded(n, width) =~= zero_padded(n / 10, (width - 1) as nat).push(digit_char(n % 10)));
    }
}

/// Strings of one length that differ are ordered as they are, whatever
/// follows them.
pub proof fn lemma_lex_le_by_front(a: Seq<char>, b: Seq<char>, s: Seq<char>, t: Seq<char>)
    requires
        a.len() == b.len(),
        a != b,
    ensures
        lex_le(a + s, b + t) == lex_le(a, b),
        !(lex_le(a, b) && lex_le(b, a)),
    decreases a.len(),
{
    if a.len() == 0 {
        assert(a =~= b);
    } else {
        assert((a + s)[0] == a[0] && (b + t)[0] == b[0]);
        if a[0] == b[0] {
            assert(a.drop_first() != b.drop_first()) by {
                if a.drop_first() == b.drop_first() {
                    assert(a =~= seq![a[0]] + a.drop_first());
                    assert(b =~= seq![b[0]] + b.drop_first());
                }
            }
            assert((a + s).drop_first() =~= a.drop_first() + s);
            assert((b + t).drop_first() =~= b.drop_first() + t);
            lemma_lex_le_by_front(a.drop_first(), b.drop_first(), s, t);
        }
    }
}

/// Behind a common front, strings are ordered as what follows it.
pub proof fn lemma_lex_le_behind_front(front: Seq<char>, s: Seq<char>, t: Seq<char>)
    ensures
        lex_le(front + s, front + t) == lex_le(s, t),
    decreases front.len(),
{
    if front.len() == 0 {
        assert(front + s =~= s);
        assert(front + t =~= t);
    } else {
        assert((front + s)[0] == front[0] && (front + t)[0] == front[0]);
        assert((front + s).drop_first() =~= front.drop_first() + s);
        assert((front + t).drop_first() =~= front.drop_first() + t);
        lemma_lex_le_behind_front(front.drop_first(), s, t);
    }
}

/// Of two numbers, the smaller has the fixed-width numeral that comes
/// first, where the width takes both.
pub proof fn lemma_fixed_digits_order(i: nat, j: nat, width: nat)
    requires
        i < j < pow10(width),
    ensures
        fixed_digits(i, width) != fixed_digits(j, width),
        lex_le(fixed_digits(i, width), fixed_digits(j, width)),
        !lex_le(fixed_digits(j, width), fixed_digits(i, width)),
    decreases width,
{
    if width > 0 {
        let w = (width - 1) as nat;
        let a = fixed_digits(i / 10, w);
        let b = fixed_digits(j / 10, w);
        let x = seq![digit_char(i % 10)];
        let y = seq![digit_char(j % 10)];
        lemma_fixed_digits_len(i / 10, w);
        lemma_fixed_digits_len(j / 10, w);
        assert(fixed_digits(i, width) =~= a + x);
        assert(fixed_digits(j, width) =~= b + y);
        if i / 10 < j / 10 {
            lemma_fixed_digits_order(i / 10, j / 10, w);
            lemma_lex_le_by_front(a, b, x, y);
            lemma_lex_le_by_front(b, a, y, x);
            assert((a + x).subrange(0, w as int) =~= a);
            assert((b + y).subrange(0, w as int) =~= b);
        } else {
            assert(i / 10 == j / 10 && i % 10 < j % 10);
            lemma_lex_le_behind_front(a, x, y);
            lemma_lex_le_behind_front(a, y, x);
            assert(code(x[0]) < code(y[0]));
            assert(lex_le(x, y));
            assert(!lex_le(y, x));
            assert((a + x)[w as int] == x[0]);
            assert((a + y)[w as int] == y[0]);
        }
    }
}

/// The one-character string of a digit.
fn digit_str(d: usize) -> (r: &'static str)
    requires
        d < 10,
    ensures
        r@ == seq![digit_char(d as nat)],
{
    proof {
        reveal_strlit("0");
        reveal_strlit("1");
        reveal_strlit("2");
        reveal_strlit("3");
        reveal_strlit("4");
        reveal_strlit("5");
        reveal_strlit("6");
        reveal_strlit("7");
        reveal_strlit("8");
        reveal_strlit("9");
    }
    let r = if d == 0 {
        "0"
    } else if d == 1 {
        "1"
    } else if d == 2 {
        "2"
    } else if d == 3 {
        "3"
    } else if d == 4 {
        "4"
    } else if d == 5 {
        "5"
    } else if d == 6 {
        "6"
    } else if d == 7 {
        "7"
    } else if d == 8 {
        "8"
    } else {
        "9"
    };
    assert(r@ =~= seq![digit_char(d as nat)]);
    r
}

/// Writes `n` in decimal.
pub fn decimal_string(n: usize) -> (s: String)
    ensures
        s@ == decimal(n as nat),
    decreases n,
{
    if n < 10 {
        String::from_str(digit_str(n))
    } else {
        let mut s = decimal_string(n / 10);
        s.append(digit_str(n % 10));
        assert(s@ =~= decimal(n as nat));
        s
    }
}

/// Writes `n` in decimal with leading zeros up to `width` characters.
pub fn zero_padded_string(n: usize, width: usize) -> (s: String)
    ensures
        s@ == zero_padded(n as nat, width as nat),
{
    let digits = decimal_string(n);
    let len: usize = digits.as_str().unicode_len();
    let mut s = String::new();
    if len < width {
        let fill: usize = width - len;
        let mut i: usize = 0;
        while i < fill
            invariant
                i <= fill,
                s@ == zeros(i as nat),
            decreases fill - i,
        {
            proof {
                reveal_strlit("0");
            }
            s.append("0");
            i += 1;
            assert(s@ =~= zeros(i as nat));
        }
    } else {
        assert(s@ + digits@ =~= digits@);
    }
    s.append(digits.as_str());
    s
}

/// `dir` and `name` as one path: `name` alone under an empty `dir`, else
/// the two with exactly one separator between them where `dir` does not
/// already end in one.
pub open spec fn joined(dir: Seq<char>, name: Seq<char>) -> Seq<char> {
    if dir.len() == 0 || dir.last() == '/' {
        dir + name
    } else {
        dir + seq!['/'] + name
    }
}

/// Builds the path of `name` inside `dir`.
pub fn join_path(dir: &str, name: &str) -> (path: String)
    ensures
        path@ == joined(dir@, name@),
{
    let n: usize = dir.unicode_len();
    let mut path = String::from_str(dir);
    if n > 0 && dir.get_char(n - 1) != '/' {
        proof {
            reveal_strlit("/");
        }
        path.append("/");
        assert(path@ =~= dir@ + seq!['/']);
    }
    path.append(name);
    path
}

} // verus!
