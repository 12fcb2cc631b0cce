//! Text: coordinates written with four decimals, and the order of strings.
use vstd::prelude::*;

verus! {

/// The character of a decimal digit.
pub open spec fn digit(d: int) -> char {
    if d == 0 {
        '0'
    } else if d == 1 {
        '1'
    } else if d == 2 {
        '2'
    } else if d == 3 {
        '3'
    } else if d == 4 {
        '4'
    } else if d == 5 {
        '5'
    } else if d == 6 {
        '6'
    } else if d == 7 {
        '7'
    } else if d == 8 {
        '8'
    } else {
        '9'
    }
}

/// A whole number in decimal digits.
pub open spec fn natural(n: nat) -> Seq<char>
    decreases n,
{
    if n < 10 {
        seq![digit(n as int)]
    } else {
        natural(n / 10).push(digit((n % 10) as int))
    }
}

/// Ten-thousandths of a degree in one unit of angle: the nearest whole number, and the even
/// one of two equally near.
pub open spec fn ten_thousandths(size: nat) -> nat {
    let q = size / 128_000;
    let r = size % 128_000;
    if r > 64_000 || (r == 64_000 && q % 2 == 1) {
        q + 1
    } else {
        q
    }
}

/// A number of ten-thousandths as digits with four decimals.
pub open spec fn with_decimals(m: nat) -> Seq<char> {
    natural(m / 10_000) + seq![
        '.',
        digit((m / 1_000 % 10) as int),
        digit((m / 100 % 10) as int),
        digit((m / 10 % 10) as int),
        digit((m % 10) as int),
    ]
}

/// An angle in degrees with four decimals; the sign stays where all digits are zero.
pub open spec fn four_decimals(x: i64) -> Seq<char> {
    if x < 0 {
        seq!['-'] + with_decimals(ten_thousandths((-x) as nat))
    } else {
        with_decimals(ten_thousandths(x as nat))
    }
}

proof fn lemma_digit(a: int, b: int)
    requires
        0 <= a < 10,
        0 <= b < 10,
        digit(a) == digit(b),
    ensures
        a == b,
{
}

proof fn lemma_natural_len(n: nat)
    ensures
        natural(n).len() >= 1,
        n >= 10 ==> natural(n).len() >= 2,
    decreases n,
{
    if n >= 10 {
        lemma_natural_len(n / 10);
    }
}

/// Different numbers are written differently.
pub proof fn lemma_natural(a: nat, b: nat)
    requires
        natural(a) == natural(b),
    ensures
        a == b,
    decreases a,
{
    lemma_natural_len(a);
    lemma_natural_len(b);
    if a < 10 {
        assert(natural(a)[0] == digit(a as int));
        assert(natural(b)[0] == digit(b as int));
        lemma_digit(a as int, b as int);
    } else {
        let x = natural(a / 10).push(digit((a % 10) as int));
        let y = natural(b / 10).push(digit((b % 10) as int));
        assert(x == y);
        assert(x.drop_last() =~= natural(a / 10));
        assert(y.drop_last() =~= natural(b / 10));
        assert(x.last() == y.last());
        lemma_natural(a / 10, b / 10);
        lemma_digit((a % 10) as int, (b % 10) as int);
    }
}

/// A whole number is written with digits only.
pub proof fn lemma_natural_digits(n: nat, i: int)
    requires
        0 <= i < natural(n).len(),
    ensures
        '0' <= natural(n)[i] <= '9',
    decreases n,
{
    if n >= 10 && i < natural(n).len() - 1 {
        lemma_natural_digits(n / 10, i);
    }
}

proof fn lemma_with_decimals(a: nat, b: nat)
    requires
        with_decimals(a) == with_decimals(b),
    ensures
        a == b,
{
    let x = with_decimals(a);
    let y = with_decimals(b);
    let k = x.len() - 5;
    assert(x.take(k) =~= natural(a / 10_000));
    assert(y.take(k) =~= natural(b / 10_000));
    lemma_natural(a / 10_000, b / 10_000);
    assert(x[k + 1] == y[k + 1] && x[k + 2] == y[k + 2] && x[k + 3] == y[k + 3] && x[k + 4] == y[k + 4]);
    lemma_digit((a / 1_000 % 10) as int, (b / 1_000 % 10) as int);
    lemma_digit((a / 100 % 10) as int, (b / 100 % 10) as int);
    lemma_digit((a / 10 % 10) as int, (b / 10 % 10) as int);
    lemma_digit((a % 10) as int, (b % 10) as int);
}

/// The size of an angle, in ten-thousandths of a degree.
pub open spec fn rounded_size(x: i64) -> nat {
    ten_thousandths(if x < 0 {
        (-x) as nat
    } else {
        x as nat
    })
}

proof fn lemma_sign(x: i64)
    ensures
        four_decimals(x).len() > 0,
        (four_decimals(x)[0] == '-') == (x < 0),
{
    let m = rounded_size(x);
    lemma_natural_len(m / 10_000);
    lemma_natural_digits(m / 10_000, 0);
    if x >= 0 {
        assert(four_decimals(x)[0] == natural(m / 10_000)[0]);
    }
}

proof fn lemma_ten_thousandths(x: nat, y: nat)
    requires
        ten_thousandths(x) == ten_thousandths(y),
    ensures
        -128_000 <= x - y <= 128_000,
{
    let m = ten_thousandths(x);
    assert(128_000 * m - 64_000 <= x <= 128_000 * m + 64_000);
    assert(128_000 * m - 64_000 <= y <= 128_000 * m + 64_000);
}

/// Angles that are written alike are at most a ten-thousandth of a degree apart.
pub proof fn lemma_written_alike(x: i64, y: i64)
    requires
        four_decimals(x) == four_decimals(y),
    ensures
        -128_000 <= x - y <= 128_000,
{
    lemma_sign(x);
    lemma_sign(y);
    if x < 0 {
        assert(four_decimals(x).drop_first() =~= with_decimals(rounded_size(x)));
        assert(four_decimals(y).drop_first() =~= with_decimals(rounded_size(y)));
        lemma_with_decimals(rounded_size(x), rounded_size(y));
        lemma_ten_thousandths((-x) as nat, (-y) as nat);
    } else {
        lemma_with_decimals(rounded_size(x), rounded_size(y));
        lemma_ten_thousandths(x as nat, y as nat);
    }
}

/// An angle is written without comma or bar.
pub proof fn lemma_angle_marks(x: i64, i: int)
    requires
        0 <= i < four_decimals(x).len(),
    ensures
        four_decimals(x)[i] != ',',
        four_decimals(x)[i] != '|',
{
    let m = rounded_size(x);
    let j = if x < 0 {
        i - 1
    } else {
        i
    };
    if 0 <= j < natural(m / 10_000).len() {
        lemma_natural_digits(m / 10_000, j);
    }
}

fn append_digit(s: &mut String, d: u64)
    requires
        d < 10,
    ensures
        final(s)@ == old(s)@.push(digit(d as int)),
{
    proof {
        reveal_strlit("0");
        reveal_strlit("1");
        reveal_strlit("2");
        reveal_strlit("3");
        reveal_strlit("4");
        reveal_strlit("5");
        reveal_strlit("6");
        reveal_strlit("7");
        reveal_strlit("8");
        reveal_strlit("9");
    }
    let text = if d == 0 {
        "0"
    } else if d == 1 {
        "1"
    } else if d == 2 {
        "2"
    } else if d == 3 {
        "3"
    } else if d == 4 {
        "4"
    } else if d == 5 {
        "5"
    } else if d == 6 {
        "6"
    } else if d == 7 {
        "7"
    } else if d == 8 {
        "8"
    } else {
        "9"
    };
    s.append(text);
    assert(text@ =~= seq![digit(d as int)]);
    assert(s@ =~= old(s)@.push(digit(d as int)));
}

fn append_natural(s: &mut String, n: u64)
    ensures
        final(s)@ == old(s)@ + natural(n as nat),
    decreases n,
{
    if n >= 10 {
        append_natural(s, n / 10);
    }
    append_digit(s, n % 10);
    assert(s@ =~= old(s)@ + natural(n as nat));
}

/// Appends an angle in degrees with four decimals.
pub fn append_angle(s: &mut String, x: i64)
    ensures
        final(s)@ == old(s)@ + four_decimals(x),
{
    proof {
        reveal_strlit("-");
        reveal_strlit(".");
    }
    let ghost start = s@;
    let size: u64 = if x < 0 {
        s.append("-");
        (-(x as i128)) as u64
    } else {
        x as u64
    };
    let ghost signed = s@;
    let q = size / 128_000;
    let r = size % 128_000;
    let m: u64 = if r > 64_000 || (r == 64_000 && q % 2 == 1) {
        q + 1
    } else {
        q
    };
    assert(m == ten_thousandths(size as nat));
    append_natural(s, m / 10_000);
    s.append(".");
    append_digit(s, m / 1_000 % 10);
    append_digit(s, m / 100 % 10);
    append_digit(s, m / 10 % 10);
    append_digit(s, m % 10);
    assert(s@ =~= signed + with_decimals(m as nat));
    assert(s@ =~= start + four_decimals(x));
}

/// Text `a` comes before text `b`: at the first difference its character has the smaller
/// code, or it ends there.
pub open spec fn text_before(a: Seq<char>, b: Seq<char>) -> bool {
    exists|i: int| #[trigger] differs_at(a, b, i)
}

/// The texts agree up to position `i`, where `a` ends or has the smaller character.
pub open spec fn differs_at(a: Seq<char>, b: Seq<char>, i: int) -> bool {
    &&& 0 <= i <= a.len()
    &&& i < b.len()
    &&& forall|j: int| 0 <= j < i ==> a[j] == b[j]
    &&& i < a.len() ==> (a[i] as int) < (b[i] as int)
}

/// Of two different texts one comes before the other.
pub proof fn lemma_text_total(a: Seq<char>, b: Seq<char>)
    ensures
        a == b || text_before(a, b) || text_before(b, a),
{
    lemma_total_from(a, b, 0);
}

proof fn lemma_total_from(a: Seq<char>, b: Seq<char>, i: int)
    requires
        0 <= i <= a.len(),
        i <= b.len(),
        forall|j: int| 0 <= j < i ==> a[j] == b[j],
    ensures
        a == b || text_before(a, b) || text_before(b, a),
    decreases a.len() - i,
{
    if i == a.len() {
        if i == b.len() {
            assert(a =~= b);
        } else {
            assert(differs_at(a, b, i));
        }
    } else if i == b.len() {
        assert(differs_at(b, a, i));
    } else if (a[i] as int) < (b[i] as int) {
        assert(differs_at(a, b, i));
    } else if (b[i] as int) < (a[i] as int) {
        assert(differs_at(b, a, i));
    } else {
        assert(a[i] == b[i]);
        lemma_total_from(a, b, i + 1);
    }
}

/// Of two texts not both come before the other, and none comes before itself.
pub proof fn lemma_text_one_way(a: Seq<char>, b: Seq<char>)
    requires
        text_before(a, b),
    ensures
        !text_before(b, a),
        a != b,
{
    let i = choose|i: int| #[trigger] differs_at(a, b, i);
    assert forall|k: int| !#[trigger] differs_at(b, a, k) by {
        if differs_at(b, a, k) {
            if k < i {
                assert(a[k] == b[k]);
            } else if i < k {
                assert(a[i] == b[i]);
            }
        }
    }
}

/// The order of texts is transitive.
pub proof fn lemma_text_chain(a: Seq<char>, b: Seq<char>, c: Seq<char>)
    requires
        text_before(a, b),
        text_before(b, c),
    ensures
        text_before(a, c),
{
    let i = choose|i: int| #[trigger] differs_at(a, b, i);
    let k = choose|k: int| #[trigger] differs_at(b, c, k);
    let m = if i < k {
        i
    } else {
        k
    };
    assert(differs_at(a, c, m)) by {
        assert forall|j: int| 0 <= j < m implies a[j] == c[j] by {
            assert(a[j] == b[j]);
            assert(b[j] == c[j]);
        }
    }
}

/// Whether text `a` comes before text `b`.
pub fn is_text_before(a: &str, b: &str) -> (r: bool)
    ensures
        r == text_before(a@, b@),
{
    let n = a.unicode_len();
    let m = b.unicode_len();
    let mut i: usize = 0;
    while i < n && i < m
        invariant
            n == a@.len(),
            m == b@.len(),
            i <= n,
            i <= m,
            forall|j: int| 0 <= j < i ==> a@[j] == b@[j],
        decreases n - i,
    {
        let x = a.get_char(i) as u32;
        let y = b.get_char(i) as u32;
        if x < y {
            assert(differs_at(a@, b@, i as int));
            return true;
        }
        if y < x {
            proof {
                assert(differs_at(b@, a@, i as int));
                lemma_text_one_way(b@, a@);
            }
            return false;
        }
        assert(a@[i as int] == b@[i as int]);
        i = i + 1;
    }
    proof {
        if i < m {
            assert(differs_at(a@, b@, i as int));
        } else if i < n {
            assert(differs_at(b@, a@, i as int));
            lemma_text_one_way(b@, a@);
        } else {
            assert(a@ =~= b@);
            if text_before(a@, b@) {
                lemma_text_one_way(a@, b@);
            }
        }
    }
    i < m
}

} // verus!
