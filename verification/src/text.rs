//! Verified text helpers: character classes, trimming, whitespace
//! tokenizing, searching, decimal parsing and decimal rendering.
use vstd::prelude::*;
use vstd::string::StrSliceExecFns;
use vstd::string::StringExecFns;

verus! {

/// ASCII whitespace.
pub open spec fn is_space(c: char) -> bool {
    c == ' ' || c == '\t' || c == '\n' || c == '\r' || c == '\u{b}' || c == '\u{c}'
}

/// ASCII decimal digit.
pub open spec fn is_digit(c: char) -> bool {
    '0' <= c && c <= '9'
}

pub open spec fn all_digits(s: Seq<char>) -> bool {
    forall|i: int| 0 <= i < s.len() ==> is_digit(#[trigger] s[i])
}

fn is_space_ex(c: char) -> (r: bool)
    ensures
        r == is_space(c),
{
    c == ' ' || c == '\t' || c == '\n' || c == '\r' || c == '\u{b}' || c == '\u{c}'
}

/// Equality of two string slices by contents.
pub fn str_eq(a: &str, b: &str) -> (r: bool)
    ensures
        r == (a@ == b@),
{
    let na = a.unicode_len();
    let nb = b.unicode_len();
    if na != nb {
        return false;
    }
    let mut i: usize = 0;
    while i < na
        invariant
            na == a@.len(),
            na == b@.len(),
            0 <= i <= na,
            forall|k: int| 0 <= k < i ==> a@[k] == b@[k],
        decreases na - i,
    {
        if a.get_char(i) != b.get_char(i) {
            return false;
        }
        i += 1;
    }
    proof {
        assert(a@ =~= b@);
    }
    true
}

/// The string with leading whitespace removed.
pub open spec fn trim_start_spec(s: Seq<char>) -> Seq<char>
    decreases s.len(),
{
    if s.len() > 0 && is_space(s[0]) {
        trim_start_spec(s.skip(1))
    } else {
        s
    }
}

/// The string with trailing whitespace removed.
pub open spec fn trim_end_spec(s: Seq<char>) -> Seq<char>
    decreases s.len(),
{
    if s.len() > 0 && is_space(s.last()) {
        trim_end_spec(s.drop_last())
    } else {
        s
    }
}

/// The string with whitespace removed on both sides.
pub open spec fn trim_spec(s: Seq<char>) -> Seq<char> {
    trim_end_spec(trim_start_spec(s))
}

/// Index just past the leading whitespace of `s`.
fn scan_start(s: &str) -> (a: usize)
    ensures
        a <= s@.len(),
        trim_start_spec(s@) == s@.skip(a as int),
        a < s@.len() ==> !is_space(s@[a as int]),
{
    let n = s.unicode_len();
    let mut a: usize = 0;
    proof {
        assert(s@.skip(0) =~= s@);
    }
    while a < n && is_space_ex(s.get_char(a))
        invariant
            n == s@.len(),
            0 <= a <= n,
            trim_start_spec(s@) == trim_start_spec(s@.skip(a as int)),
        decreases n - a,
    {
        proof {
            assert(s@.skip(a as int).skip(1) =~= s@.skip(a + 1));
        }
        a += 1;
    }
    proof {
        assert(trim_start_spec(s@.skip(a as int)) == s@.skip(a as int));
    }
    a
}

/// Index of the end of `s` once trailing whitespace is dropped, not going
/// below `a`; `from` is the sequence `s` is known to equal from `a` on.
fn scan_end(s: &str, a: usize) -> (b: usize)
    requires
        a <= s@.len(),
    ensures
        a <= b <= s@.len(),
        trim_end_spec(s@.subrange(a as int, s@.len() as int)) == s@.subrange(a as int, b as int),
{
    let n = s.unicode_len();
    let mut b: usize = n;
    while b > a && is_space_ex(s.get_char(b - 1))
        invariant
            n == s@.len(),
            a <= b <= n,
            trim_end_spec(s@.subrange(a as int, n as int)) == trim_end_spec(
                s@.subrange(a as int, b as int),
            ),
        decreases b,
    {
        proof {
            assert(s@.subrange(a as int, b as int).drop_last() =~= s@.subrange(
                a as int,
                b - 1,
            ));
        }
        b -= 1;
    }
    proof {
        assert(trim_end_spec(s@.subrange(a as int, b as int)) == s@.subrange(a as int, b as int));
    }
    b
}

/// Remove whitespace on both sides.
pub fn trim(s: &str) -> (r: String)
    ensures
        r@ == trim_spec(s@),
{
    let a = scan_start(s);
    let b = scan_end(s, a);
    proof {
        assert(s@.skip(a as int) =~= s@.subrange(a as int, s@.len() as int));
    }
    s.substring_char(a, b).to_owned()
}

/// Remove trailing whitespace.
pub fn trim_end(s: &str) -> (r: String)
    ensures
        r@ == trim_end_spec(s@),
{
    let b = scan_end(s, 0);
    proof {
        assert(s@.subrange(0, s@.len() as int) =~= s@);
    }
    s.substring_char(0, b).to_owned()
}

/// Position of the first occurrence of `c` at or after `i`.
pub open spec fn find_from(s: Seq<char>, c: char, i: int) -> Option<int>
    decreases s.len() - i,
{
    if i < 0 || i >= s.len() {
        None
    } else if s[i] == c {
        Some(i)
    } else {
        find_from(s, c, i + 1)
    }
}

/// Find the first occurrence of `c` in `s`.
pub fn find_char(s: &str, c: char) -> (r: Option<usize>)
    ensures
        (match r {
            Some(i) => i < s@.len() && find_from(s@, c, 0) == Some(i as int),
            None => find_from(s@, c, 0) is None,
        }),
{
    let n = s.unicode_len();
    let mut i: usize = 0;
    while i < n
        invariant
            n == s@.len(),
            0 <= i <= n,
            find_from(s@, c, 0) == find_from(s@, c, i as int),
        decreases n - i,
    {
        if s.get_char(i) == c {
            return Some(i);
        }
        i += 1;
    }
    None
}

/// Whitespace tokenizing, one character at a time: `cur` is the token read
/// so far, `acc` the tokens already complete.
pub open spec fn split_ws_acc(s: Seq<char>, i: int, cur: Seq<char>, acc: Seq<Seq<char>>) -> Seq<
    Seq<char>,
>
    decreases s.len() - i,
{
    if i < 0 || i >= s.len() {
        if cur.len() > 0 {
            acc.push(cur)
        } else {
            acc
        }
    } else if is_space(s[i]) {
        if cur.len() > 0 {
            split_ws_acc(s, i + 1, Seq::empty(), acc.push(cur))
        } else {
            split_ws_acc(s, i + 1, Seq::empty(), acc)
        }
    } else {
        split_ws_acc(s, i + 1, cur.push(s[i]), acc)
    }
}

/// The maximal whitespace-free tokens of `s`, in order.
pub open spec fn tokens_of(s: Seq<char>) -> Seq<Seq<char>> {
    split_ws_acc(s, 0, Seq::empty(), Seq::empty())
}

pub open spec fn str_views(v: Seq<String>) -> Seq<Seq<char>> {
    v.map_values(|s: String| s@)
}

/// Split into maximal whitespace-free tokens.
pub fn split_whitespace(s: &str) -> (r: Vec<String>)
    ensures
        str_views(r@) == tokens_of(s@),
{
    let n = s.unicode_len();
    let mut acc: Vec<String> = Vec::new();
    let mut start: usize = 0;
    let mut in_token = false;
    let mut i: usize = 0;
    proof {
        assert(str_views(acc@) =~= Seq::<Seq<char>>::empty());
    }
    while i < n
        invariant
            n == s@.len(),
            0 <= i <= n,
            in_token ==> start <= i,
            in_token ==> s@.subrange(start as int, i as int).len() > 0,
            tokens_of(s@) == split_ws_acc(
                s@,
                i as int,
                (if in_token {
                    s@.subrange(start as int, i as int)
                } else {
                    Seq::empty()
                }),
                str_views(acc@),
            ),
        decreases n - i,
    {
        let ghost cur0: Seq<char> = if in_token {
            s@.subrange(start as int, i as int)
        } else {
            Seq::empty()
        };
        let c = s.get_char(i);
        if is_space_ex(c) {
            proof {
                assert(split_ws_acc(s@, i as int, cur0, str_views(acc@)) == (if cur0.len() > 0 {
                    split_ws_acc(s@, i + 1, Seq::empty(), str_views(acc@).push(cur0))
                } else {
                    split_ws_acc(s@, i + 1, Seq::empty(), str_views(acc@))
                }));
            }
            if in_token {
                let t = s.substring_char(start, i).to_owned();
                proof {
                    assert(str_views(acc@.push(t)) =~= str_views(acc@).push(cur0));
                }
                acc.push(t);
                in_token = false;
            }
        } else {
            proof {
                assert(split_ws_acc(s@, i as int, cur0, str_views(acc@)) == split_ws_acc(
                    s@,
                    i + 1,
                    cur0.push(s@[i as int]),
                    str_views(acc@),
                ));
            }
            if !in_token {
                start = i;
                in_token = true;
            }
            proof {
                assert(s@.subrange(start as int, i + 1) =~= cur0.push(s@[i as int]));
            }
        }
        i += 1;
    }
    let ghost cur0: Seq<char> = if in_token {
        s@.subrange(start as int, i as int)
    } else {
        Seq::empty()
    };
    proof {
        assert(split_ws_acc(s@, i as int, cur0, str_views(acc@)) == (if cur0.len() > 0 {
            str_views(acc@).push(cur0)
        } else {
            str_views(acc@)
        }));
    }
    if in_token {
        let t = s.substring_char(start, n).to_owned();
        proof {
            assert(str_views(acc@.push(t)) =~= str_views(acc@).push(cur0));
        }
        acc.push(t);
    }
    acc
}

/// Every underscore replaced by a forward slash.
pub open spec fn underscores_to_slashes(s: Seq<char>) -> Seq<char> {
    s.map_values(
        |c: char|
            if c == '_' {
                '/'
            } else {
                c
            },
    )
}

/// Does `name`, with underscores read as slashes, equal `other`?
pub fn underscored_eq(name: &str, other: &str) -> (r: bool)
    ensures
        r == (underscores_to_slashes(name@) == other@),
{
    let n = name.unicode_len();
    if n != other.unicode_len() {
        return false;
    }
    let mut i: usize = 0;
    while i < n
        invariant
            n == name@.len(),
            n == other@.len(),
            0 <= i <= n,
            forall|k: int| 0 <= k < i ==> underscores_to_slashes(name@)[k] == other@[k],
        decreases n - i,
    {
        let c = name.get_char(i);
        let c2 = if c == '_' {
            '/'
        } else {
            c
        };
        if c2 != other.get_char(i) {
            return false;
        }
        i += 1;
    }
    proof {
        assert(underscores_to_slashes(name@) =~= other@);
    }
    true
}

/// Numeric value of a digit character.
pub open spec fn digit_val(c: char) -> int {
    c as int - 48
}

/// Value of a digit string, most significant digit first.
pub open spec fn digits_val(s: Seq<char>) -> int
    decreases s.len(),
{
    if s.len() == 0 {
        0
    } else {
        digits_val(s.drop_last()) * 10 + digit_val(s.last())
    }
}

/// The integer a decimal literal denotes: an optional sign followed by at
/// least one digit and nothing else.
pub open spec fn parse_int_spec(s: Seq<char>) -> Option<int> {
    let signed = s.len() > 0 && (s[0] == '-' || s[0] == '+');
    let neg = s.len() > 0 && s[0] == '-';
    let ds = if signed {
        s.skip(1)
    } else {
        s
    };
    if ds.len() > 0 && all_digits(ds) {
        Some(
            if neg {
                -digits_val(ds)
            } else {
                digits_val(ds)
            },
        )
    } else {
        None
    }
}

/// The value a decimal literal denotes as an `i32`, if it has one and it
/// fits; the acceptance matches `i32::from_str`.
pub open spec fn parse_i32_spec(s: Seq<char>) -> Option<i32> {
    match parse_int_spec(s) {
        Some(v) => if i32::MIN <= v <= i32::MAX {
            Some(v as i32)
        } else {
            None
        },
        None => None,
    }
}

proof fn lemma_digits_val_nonneg(s: Seq<char>)
    requires
        all_digits(s),
    ensures
        digits_val(s) >= 0,
    decreases s.len(),
{
    if s.len() > 0 {
        assert(all_digits(s.drop_last()));
        lemma_digits_val_nonneg(s.drop_last());
    }
}

/// Parse a decimal integer exactly as `i32::from_str` accepts one.
pub fn parse_i32(s: &str) -> (r: Option<i32>)
    ensures
        r == parse_i32_spec(s@),
{
    let n = s.unicode_len();
    if n == 0 {
        return None;
    }
    let first = s.get_char(0);
    let signed = first == '-' || first == '+';
    let neg = first == '-';
    let start: usize = if signed {
        1
    } else {
        0
    };
    if start == n {
        return None;
    }
    let ghost ds: Seq<char> = if signed {
        s@.skip(1)
    } else {
        s@
    };
    let mut i: usize = start;
    let mut acc: u64 = 0;
    proof {
        assert(ds.take(0) =~= Seq::<char>::empty());
    }
    while i < n
        invariant
            n == s@.len(),
            n > 0,
            start <= i <= n,
            start <= 1,
            (signed ==> start == 1) && (!signed ==> start == 0),
            signed == (s@[0] == '-' || s@[0] == '+'),
            neg == (s@[0] == '-'),
            ds == (if signed {
                s@.skip(1)
            } else {
                s@
            }),
            ds.len() == n - start,
            forall|k: int| 0 <= k < ds.len() ==> ds[k] == s@[k + start],
            all_digits(ds.take(i - start)),
            acc <= 0x1_0000_0000u64,
            digits_val(ds.take(i - start)) < 0x1_0000_0000 ==> acc == digits_val(
                ds.take(i - start),
            ),
            digits_val(ds.take(i - start)) >= 0x1_0000_0000 ==> acc == 0x1_0000_0000u64,
        decreases n - i,
    {
        let c = s.get_char(i);
        if !(c >= '0' && c <= '9') {
            proof {
                assert(ds[i - start] == s@[i as int]);
                assert(!is_digit(ds[i - start]));
                assert(!all_digits(ds));
            }
            return None;
        }
        let d = (c as u32 - 48) as u64;
        let ghost pre = ds.take(i - start);
        let ghost post = ds.take(i + 1 - start);
        proof {
            assert(post.drop_last() =~= pre);
            assert(post.last() == ds[i - start]);
            assert(digits_val(post) == digits_val(pre) * 10 + digit_val(ds[i - start]));
            lemma_digits_val_nonneg(pre);
        }
        if acc >= 0x1_0000_0000u64 {
            acc = 0x1_0000_0000u64;
        } else {
            let t = acc * 10 + d;
            if t > 0x1_0000_0000u64 {
                acc = 0x1_0000_0000u64;
            } else {
                acc = t;
            }
        }
        i += 1;
    }
    proof {
        assert(ds.take(n - start) =~= ds);
        lemma_digits_val_nonneg(ds);
    }
    if neg {
        if acc > 0x8000_0000u64 {
            None
        } else if acc == 0x8000_0000u64 {
            Some(i32::MIN)
        } else {
            Some(-(acc as i32))
        }
    } else {
        if acc > 0x7FFF_FFFFu64 {
            None
        } else {
            Some(acc as i32)
        }
    }
}

/// The character of a single decimal digit.
pub open spec fn digit_char(d: int) -> char {
    if d == 0 {
        '0'
    } else if d == 1 {
        '1'
    } else if d == 2 {
        '2'
    } else if d == 3 {
        '3'
    } else if d == 4 {
        '4'
    } else if d == 5 {
        '5'
    } else if d == 6 {
        '6'
    } else if d == 7 {
        '7'
    } else if d == 8 {
        '8'
    } else {
        '9'
    }
}

/// Decimal rendering of a nonnegative integer, no sign, no leading zeros.
pub open spec fn dec_nat(n: int) -> Seq<char>
    decreases n,
{
    if n < 10 {
        seq![digit_char(n)]
    } else {
        dec_nat(n / 10).push(digit_char(n % 10))
    }
}

/// Decimal rendering of an integer, with a leading minus sign if negative.
pub open spec fn dec_int(n: int) -> Seq<char> {
    if n < 0 {
        seq!['-'] + dec_nat(-n)
    } else {
        dec_nat(n)
    }
}

fn digit_str(d: u32) -> (r: &'static str)
    requires
        d < 10,
    ensures
        r@ =~= seq![digit_char(d as int)],
{
    proof {
        reveal_strlit("0");
        reveal_strlit("1");
        reveal_strlit("2");
        reveal_strlit("3");
        reveal_strlit("4");
        reveal_strlit("5");
        reveal_strlit("6");
        reveal_strlit("7");
        reveal_strlit("8");
        reveal_strlit("9");
    }
    match d {
        0 => "0",
        1 => "1",
        2 => "2",
        3 => "3",
        4 => "4",
        5 => "5",
        6 => "6",
        7 => "7",
        8 => "8",
        _ => "9",
    }
}

fn push_dec(n: u32, out: &mut String)
    ensures
        final(out)@ == old(out)@ + dec_nat(n as int),
    decreases n,
{
    if n < 10 {
        out.append(digit_str(n));
    } else {
        push_dec(n / 10, out);
        out.append(digit_str(n % 10));
        proof {
            assert(old(out)@ + dec_nat(n as int) =~= (old(out)@ + dec_nat(n as int / 10)) + seq![
                digit_char(n as int % 10),
            ]);
        }
    }
}

/// Decimal rendering of an `i32`, as `Display` for `i32` gives it.
pub fn i32_to_string(n: i32) -> (r: String)
    ensures
        r@ == dec_int(n as int),
{
    let mut s = String::new();
    if n >= 0 {
        push_dec(n as u32, &mut s);
    } else {
        proof {
            reveal_strlit("-");
        }
        s.append("-");
        let m: u32 = (-(n as i64)) as u32;
        push_dec(m, &mut s);
        proof {
            assert(dec_int(n as int) =~= seq!['-'] + dec_nat(m as int));
        }
    }
    s
}

} // verus!
