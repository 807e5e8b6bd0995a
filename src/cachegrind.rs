//! Reading the instruction count out of the profiler's output file.

use crate::runner::isize_of_text;
use vstd::prelude::*;
use vstd::string::*;

verus! {

/// The text that opens the summary line: `summary: `.
pub open spec fn summary_tag() -> Seq<u8> {
    seq![115u8, 117, 109, 109, 97, 114, 121, 58, 32]
}

/// A whitespace character of one byte: tab, line feed, vertical tab, form
/// feed, carriage return, space.
pub open spec fn space1(x: u8) -> bool {
    x == 32 || (9 <= x && x <= 13)
}

/// A whitespace character of two bytes: U+0085, U+00A0.
pub open spec fn space2(x: u8, y: u8) -> bool {
    x == 0xC2 && (y == 0x85 || y == 0xA0)
}

/// A whitespace character of three bytes: U+1680, U+2000 to U+200A, U+2028,
/// U+2029, U+202F, U+205F, U+3000.
pub open spec fn space3(x: u8, y: u8, z: u8) -> bool {
    ||| x == 0xE1 && y == 0x9A && z == 0x80
    ||| x == 0xE2 && y == 0x80 && ((0x80 <= z && z <= 0x8A) || z == 0xA8 || z == 0xA9 || z == 0xAF)
    ||| x == 0xE2 && y == 0x81 && z == 0x9F
    ||| x == 0xE3 && y == 0x80 && z == 0x80
}

/// `w` is the UTF-8 encoding of a character with the Unicode `White_Space`
/// property, the whitespace that `str::trim` removes.
pub open spec fn is_space_encoding(w: Seq<u8>) -> bool {
    ||| w.len() == 1 && space1(w[0])
    ||| w.len() == 2 && space2(w[0], w[1])
    ||| w.len() == 3 && space3(w[0], w[1], w[2])
}

/// The length of the whitespace character that opens `s`, or 0.
pub open spec fn leading_space(s: Seq<u8>) -> int {
    if s.len() >= 1 && is_space_encoding(s.subrange(0, 1)) {
        1
    } else if s.len() >= 2 && is_space_encoding(s.subrange(0, 2)) {
        2
    } else if s.len() >= 3 && is_space_encoding(s.subrange(0, 3)) {
        3
    } else {
        0
    }
}

/// The length of the whitespace character that closes `s`, or 0.
pub open spec fn trailing_space(s: Seq<u8>) -> int {
    let n = s.len() as int;
    if n >= 1 && is_space_encoding(s.subrange(n - 1, n)) {
        1
    } else if n >= 2 && is_space_encoding(s.subrange(n - 2, n)) {
        2
    } else if n >= 3 && is_space_encoding(s.subrange(n - 3, n)) {
        3
    } else {
        0
    }
}

pub open spec fn is_digit(b: u8) -> bool {
    48 <= b && b <= 57
}

/// `s` without its leading whitespace.
pub open spec fn trim_start(s: Seq<u8>) -> Seq<u8>
    decreases s.len(),
{
    let k = leading_space(s);
    if k > 0 {
        trim_start(s.subrange(k, s.len() as int))
    } else {
        s
    }
}

/// `s` without its trailing whitespace.
pub open spec fn trim_end(s: Seq<u8>) -> Seq<u8>
    decreases s.len(),
{
    let k = trailing_space(s);
    if k > 0 {
        trim_end(s.subrange(0, s.len() - k))
    } else {
        s
    }
}

/// `s` without the whitespace at either end, as `str::trim` leaves it.
pub open spec fn trimmed(s: Seq<u8>) -> Seq<u8> {
    trim_end(trim_start(s))
}

/// The number that a sequence of decimal digits denotes.
pub open spec fn digits_value(d: Seq<u8>) -> nat
    decreases d.len(),
{
    if d.len() == 0 {
        0
    } else {
        digits_value(d.drop_last()) * 10 + (d.last() - 48) as nat
    }
}

pub open spec fn all_digits(d: Seq<u8>) -> bool {
    forall|i: int| 0 <= i < d.len() ==> is_digit(#[trigger] d[i])
}

/// `t` without the `+` that may open it.
pub open spec fn unsigned_digits(t: Seq<u8>) -> Seq<u8> {
    if t.len() > 0 && t[0] == 43 {
        t.drop_first()
    } else {
        t
    }
}

/// The unsigned decimal number that `t` spells: an optional `+`, then at least
/// one digit, with a value that fits in 64 bits.
pub open spec fn u64_of_text(t: Seq<u8>) -> Option<u64> {
    let d = unsigned_digits(t);
    if d.len() > 0 && all_digits(d) && digits_value(d) <= u64::MAX {
        Some(digits_value(d) as u64)
    } else {
        None
    }
}

/// A line of `s` begins at `p`.
pub open spec fn is_line_start(s: Seq<u8>, p: int) -> bool {
    p == 0 || (0 < p <= s.len() && s[p - 1] == 10)
}

/// The position of the first line feed at or after `p`, or the end of `s`.
pub open spec fn line_end(s: Seq<u8>, p: int) -> int
    decreases s.len() - p,
{
    if p < 0 || p >= s.len() {
        s.len() as int
    } else if s[p] == 10 {
        p
    } else {
        line_end(s, p + 1)
    }
}

/// A summary line begins at `p`.
pub open spec fn summary_line_at(s: Seq<u8>, p: int) -> bool {
    &&& is_line_start(s, p)
    &&& p + summary_tag().len() <= s.len()
    &&& s.subrange(p, p + summary_tag().len()) == summary_tag()
}

/// The first summary line begins at `p`.
pub open spec fn first_summary_line_at(s: Seq<u8>, p: int) -> bool {
    summary_line_at(s, p) && forall|q: int| 0 <= q < p ==> !#[trigger] summary_line_at(s, q)
}

/// The instruction count of a profiler output: the number on its first
/// summary line, with the surrounding whitespace trimmed; `None` where there is
/// no summary line or its number cannot be read.
pub open spec fn summary_count(s: Seq<u8>) -> Option<u64> {
    if exists|p: int| summary_line_at(s, p) {
        let p = choose|p: int| first_summary_line_at(s, p);
        let start = p + summary_tag().len();
        u64_of_text(trimmed(s.subrange(start, line_end(s, start))))
    } else {
        None
    }
}

proof fn lemma_summary_tag_len()
    ensures
        summary_tag().len() == 9,
{
}

proof fn lemma_digits_prefix_monotone(d: Seq<u8>, j: int, k: int)
    requires
        0 <= j <= k <= d.len(),
        all_digits(d),
    ensures
        digits_value(d.subrange(0, j)) <= digits_value(d.subrange(0, k)),
    decreases k - j,
{
    if j < k {
        lemma_digits_prefix_monotone(d, j, k - 1);
        assert(d.subrange(0, k).drop_last() =~= d.subrange(0, k - 1));
    }
}

/// The position of the first line feed at or after `p`, or the end of `s`.
fn find_line_end(s: &[u8], p: usize) -> (e: usize)
    requires
        p <= s@.len(),
    ensures
        e == line_end(s@, p as int),
        p <= e <= s@.len(),
        forall|k: int| p <= k < e ==> s@[k] != 10,
        e < s@.len() ==> s@[e as int] == 10,
{
    let mut e = p;
    while e < s.len() && s[e] != 10
        invariant
            p <= e <= s@.len(),
            line_end(s@, e as int) == line_end(s@, p as int),
            forall|k: int| p <= k < e ==> s@[k] != 10,
        decreases s@.len() - e,
    {
        e = e + 1;
    }
    e
}

/// Whether a summary line begins at `p`, where a line begins.
fn has_summary_tag(s: &[u8], p: usize) -> (r: bool)
    requires
        p <= s@.len(),
    ensures
        r == (p + summary_tag().len() <= s@.len() && s@.subrange(p as int, p + summary_tag().len())
            == summary_tag()),
{
    let tag: [u8; 9] = [115u8, 117, 109, 109, 97, 114, 121, 58, 32];
    assert(tag@ == summary_tag());
    if s.len() - p < 9 {
        return false;
    }
    let n = s.len();
    let mut i: usize = 0;
    while i < 9
        invariant
            i <= 9,
            n == s@.len(),
            p + 9 <= s@.len(),
            tag@ == summary_tag(),
            forall|k: int| 0 <= k < i ==> s@[p + k] == summary_tag()[k],
        decreases 9 - i,
    {
        if s[p + i] != tag[i] {
            assert(s@.subrange(p as int, p + 9)[i as int] != summary_tag()[i as int]);
            return false;
        }
        i = i + 1;
    }
    assert(s@.subrange(p as int, p + 9) =~= summary_tag());
    true
}

proof fn lemma_digits_step(s: Seq<u8>, a: int, i: int)
    requires
        0 <= a <= i < s.len(),
    ensures
        digits_value(s.subrange(a, i + 1)) == digits_value(s.subrange(a, i)) * 10 + (s[i] - 48) as nat,
{
    assert(s.subrange(a, i + 1).drop_last() =~= s.subrange(a, i));
}

/// Reads the digits `s[a..e]` as a decimal number that fits in 64 bits.
fn parse_digits(s: &[u8], a: usize, e: usize) -> (r: Option<u64>)
    requires
        a <= e <= s@.len(),
    ensures
        ({
            let d = s@.subrange(a as int, e as int);
            r == if all_digits(d) && digits_value(d) <= u64::MAX {
                Some(digits_value(d) as u64)
            } else {
                None
            }
        }),
{
    let ghost d = s@.subrange(a as int, e as int);
    let mut i = a;
    let mut acc: u64 = 0;
    while i < e
        invariant
            a <= i <= e <= s@.len(),
            d == s@.subrange(a as int, e as int),
            forall|k: int| a <= k < i ==> is_digit(#[trigger] s@[k]),
            acc == digits_value(s@.subrange(a as int, i as int)),
        decreases e - i,
    {
        let b = s[i];
        if b < 48 || b > 57 {
            assert(!is_digit(d[i - a]));
            return None;
        }
        let digit = (b - 48) as u64;
        proof {
            lemma_digits_step(s@, a as int, i as int);
        }
        if acc > (u64::MAX - digit) / 10 {
            proof {
                assert(acc * 10 + digit > u64::MAX) by (nonlinear_arith)
                    requires
                        acc > (u64::MAX - digit) / 10,
                        digit <= 9,
                ;
                if all_digits(d) {
                    assert(d.subrange(0, i + 1 - a) =~= s@.subrange(a as int, i + 1));
                    assert(d.subrange(0, d.len() as int) =~= d);
                    lemma_digits_prefix_monotone(d, i + 1 - a, d.len() as int);
                }
            }
            return None;
        }
        proof {
            assert(acc * 10 + digit <= u64::MAX) by (nonlinear_arith)
                requires
                    acc <= (u64::MAX - digit) / 10,
                    digit <= 9,
            ;
        }
        acc = acc * 10 + digit;
        i = i + 1;
    }
    assert(forall|k: int| 0 <= k < d.len() ==> #[trigger] d[k] == s@[a + k]);
    Some(acc)
}

/// Reads the unsigned decimal number that `s[a..e]` spells.
fn parse_u64(s: &[u8], a: usize, e: usize) -> (r: Option<u64>)
    requires
        a <= e <= s@.len(),
    ensures
        r == u64_of_text(s@.subrange(a as int, e as int)),
{
    let ghost t = s@.subrange(a as int, e as int);
    let mut i = a;
    if i < e && s[i] == 43 {
        i = i + 1;
    }
    assert(s@.subrange(i as int, e as int) =~= unsigned_digits(t));
    if i == e {
        return None;
    }
    parse_digits(s, i, e)
}

fn is_space1(x: u8) -> (r: bool)
    ensures
        r == space1(x),
{
    x == 32 || (9 <= x && x <= 13)
}

fn is_space2(x: u8, y: u8) -> (r: bool)
    ensures
        r == space2(x, y),
{
    x == 0xC2 && (y == 0x85 || y == 0xA0)
}

fn is_space3(x: u8, y: u8, z: u8) -> (r: bool)
    ensures
        r == space3(x, y, z),
{
    (x == 0xE1 && y == 0x9A && z == 0x80) || (x == 0xE2 && y == 0x80 && ((0x80 <= z && z <= 0x8A)
        || z == 0xA8 || z == 0xA9 || z == 0xAF)) || (x == 0xE2 && y == 0x81 && z == 0x9F) || (x
        == 0xE3 && y == 0x80 && z == 0x80)
}

/// The length of the whitespace character that opens `s[a..b]`, or 0.
fn leading_space_len(s: &[u8], a: usize, b: usize) -> (k: usize)
    requires
        a <= b <= s@.len(),
    ensures
        k == leading_space(s@.subrange(a as int, b as int)),
        k <= b - a,
{
    let ghost t = s@.subrange(a as int, b as int);
    let n = b - a;
    if n >= 1 && is_space1(s[a]) {
        assert(t.subrange(0, 1) =~= seq![s@[a as int]]);
        return 1;
    }
    if n >= 1 {
        assert(t.subrange(0, 1) =~= seq![s@[a as int]]);
    }
    if n >= 2 && is_space2(s[a], s[a + 1]) {
        assert(t.subrange(0, 2) =~= seq![s@[a as int], s@[a + 1]]);
        return 2;
    }
    if n >= 2 {
        assert(t.subrange(0, 2) =~= seq![s@[a as int], s@[a + 1]]);
    }
    if n >= 3 && is_space3(s[a], s[a + 1], s[a + 2]) {
        assert(t.subrange(0, 3) =~= seq![s@[a as int], s@[a + 1], s@[a + 2]]);
        return 3;
    }
    if n >= 3 {
        assert(t.subrange(0, 3) =~= seq![s@[a as int], s@[a + 1], s@[a + 2]]);
    }
    0
}

/// The length of the whitespace character that closes `s[a..b]`, or 0.
fn trailing_space_len(s: &[u8], a: usize, b: usize) -> (k: usize)
    requires
        a <= b <= s@.len(),
    ensures
        k == trailing_space(s@.subrange(a as int, b as int)),
        k <= b - a,
{
    let ghost t = s@.subrange(a as int, b as int);
    let n = b - a;
    if n >= 1 && is_space1(s[b - 1]) {
        assert(t.subrange(n - 1, n as int) =~= seq![s@[b - 1]]);
        return 1;
    }
    if n >= 1 {
        assert(t.subrange(n - 1, n as int) =~= seq![s@[b - 1]]);
    }
    if n >= 2 && is_space2(s[b - 2], s[b - 1]) {
        assert(t.subrange(n - 2, n as int) =~= seq![s@[b - 2], s@[b - 1]]);
        return 2;
    }
    if n >= 2 {
        assert(t.subrange(n - 2, n as int) =~= seq![s@[b - 2], s@[b - 1]]);
    }
    if n >= 3 && is_space3(s[b - 3], s[b - 2], s[b - 1]) {
        assert(t.subrange(n - 3, n as int) =~= seq![s@[b - 3], s@[b - 2], s@[b - 1]]);
        return 3;
    }
    if n >= 3 {
        assert(t.subrange(n - 3, n as int) =~= seq![s@[b - 3], s@[b - 2], s@[b - 1]]);
    }
    0
}

/// Reads the instruction count from the contents of a profiler output file
/// (UTF-8 text): the number on the first line that starts with `summary: `,
/// with the whitespace around it trimmed.
pub fn parse_cachegrind_output(content: &[u8]) -> (r: Option<u64>)
    ensures
        r == summary_count(content@),
{
    let ghost s = content@;
    let n = content.len();
    let mut p: usize = 0;
    loop
        invariant
            p <= s.len(),
            n == s.len(),
            s == content@,
            is_line_start(s, p as int),
            forall|q: int| 0 <= q < p ==> !#[trigger] summary_line_at(s, q),
        decreases s.len() - p,
    {
        if has_summary_tag(content, p) {
            proof {
                lemma_summary_tag_len();
                assert(first_summary_line_at(s, p as int));
                let c = choose|c: int| first_summary_line_at(s, c);
                assert(c == p);
            }
            let start = p + 9;
            let end = find_line_end(content, start);
            let mut a = start;
            let mut b = end;
            let mut k = leading_space_len(content, a, b);
            while k > 0
                invariant
                    start <= a <= b <= s.len(),
                    s == content@,
                    b == end,
                    k == leading_space(s.subrange(a as int, b as int)),
                    trim_start(s.subrange(start as int, b as int)) == trim_start(s.subrange(a as int, b as int)),
                decreases b - a,
            {
                assert(s.subrange(a as int, b as int).subrange(k as int, b - a) =~= s.subrange(a + k, b as int));
                a = a + k;
                k = leading_space_len(content, a, b);
            }
            assert(trim_start(s.subrange(start as int, end as int)) == s.subrange(a as int, b as int));
            k = trailing_space_len(content, a, b);
            while k > 0
                invariant
                    start <= a <= b <= end <= s.len(),
                    s == content@,
                    k == trailing_space(s.subrange(a as int, b as int)),
                    trimmed(s.subrange(start as int, end as int)) == trim_end(s.subrange(a as int, b as int)),
                decreases b - a,
            {
                assert(s.subrange(a as int, b as int).subrange(0, b - a - k) =~= s.subrange(a as int, b - k));
                b = b - k;
                k = trailing_space_len(content, a, b);
            }
            assert(trimmed(s.subrange(start as int, end as int)) == s.subrange(a as int, b as int));
            return parse_u64(content, a, b);
        }
        let e = find_line_end(content, p);
        if e == content.len() {
            proof {
                assert forall|q: int| !summary_line_at(s, q) by {
                    if summary_line_at(s, q) && q > p {
                        assert(s[q - 1] == 10);
                    }
                }
            }
            return None;
        }
        proof {
            assert forall|q: int| 0 <= q < e + 1 implies !#[trigger] summary_line_at(s, q) by {
                if q > p && summary_line_at(s, q) {
                    assert(s[q - 1] == 10);
                }
            }
        }
        p = e + 1;
    }
}

/// The decimal digits of `n`, without leading zeros.
pub open spec fn decimal_text(n: nat) -> Seq<char>
    decreases n,
{
    let last = (('0' as int) + (n % 10) as int) as char;
    if n < 10 {
        seq![last]
    } else {
        decimal_text(n / 10).push(last)
    }
}

/// How an index is written on a child's command line: its decimal digits,
/// after a `-` where it is negative.
pub open spec fn index_text(i: isize) -> Seq<char> {
    if i < 0 {
        seq!['-'] + decimal_text((-i) as nat)
    } else {
        decimal_text(i as nat)
    }
}

/// Relies on the `Display` of `isize` (through `ToString`): decimal digits
/// without leading zeros, after a `-` for a negative number.
#[verifier::external_body]
fn write_index(i: isize) -> (r: String)
    ensures
        r@ == index_text(i),
{
    i.to_string()
}

proof fn lemma_decimal_text(n: nat)
    ensures
        decimal_text(n).len() > 0,
        crate::runner::all_char_digits(decimal_text(n)),
        crate::runner::char_digits_value(decimal_text(n)) == n,
        decimal_text(n)[0] != '+' && decimal_text(n)[0] != '-',
    decreases n,
{
    let last = (('0' as int) + (n % 10) as int) as char;
    assert(last as int == '0' as int + n % 10);
    assert(n == (n / 10) * 10 + n % 10);
    if n < 10 {
        let t = decimal_text(n);
        assert(t.drop_last() =~= Seq::<char>::empty());
        assert(t.last() == last);
        assert(crate::runner::char_digits_value(t) == crate::runner::char_digits_value(t.drop_last()) * 10
            + (t.last() as int - '0' as int) as nat);
    } else {
        lemma_decimal_text(n / 10);
        let t = decimal_text(n);
        assert(t.drop_last() =~= decimal_text(n / 10));
        assert(t[0] == decimal_text(n / 10)[0]);
        assert(t.last() == last);
        assert(crate::runner::char_digits_value(t) == crate::runner::char_digits_value(t.drop_last()) * 10
            + (t.last() as int - '0' as int) as nat);
    }
}

/// A child reads back exactly the index that its command line was written with.
pub proof fn index_text_round_trip(i: isize)
    ensures
        isize_of_text(index_text(i)) == Some(i),
{
    let t = index_text(i);
    if i < 0 {
        let n = (-i) as nat;
        lemma_decimal_text(n);
        assert(t.drop_first() =~= decimal_text(n));
        assert(t[0] == '-');
    } else {
        lemma_decimal_text(i as nat);
    }
}

/// Where the profiler writes its output for the measurement called `name`.
pub open spec fn output_path(name: Seq<char>) -> Seq<char> {
    "target/cachegrind/cachegrind.out."@ + name
}

/// The output file of the measurement called `name`; one file per name, so
/// measurements that run side by side never share a file.
pub fn output_file(name: &str) -> (r: String)
    ensures
        r@ == output_path(name@),
{
    let mut r = String::from_str("target/cachegrind/cachegrind.out.");
    r.append(name);
    r
}

/// The arguments of `setarch` that run `executable --bench-run <index>` under
/// cachegrind: address space randomisation off, cache simulation off, output
/// to the measurement's own file.
pub open spec fn profiler_command(
    arch: Seq<char>,
    executable: Seq<char>,
    index: isize,
    name: Seq<char>,
) -> Seq<Seq<char>> {
    seq![
        arch,
        "-R"@,
        "valgrind"@,
        "--tool=cachegrind"@,
        "--cache-sim=no"@,
        "--cachegrind-out-file="@ + output_path(name),
        executable,
        "--bench-run"@,
        index_text(index),
    ]
}

/// The arguments of `setarch` for the measurement of child `index`, called `name`.
pub fn profiler_args(arch: &str, executable: &str, index: isize, name: &str) -> (r: Vec<String>)
    ensures
        r@.map_values(|s: String| s@) == profiler_command(arch@, executable@, index, name@),
{
    let mut out_arg = String::from_str("--cachegrind-out-file=");
    let path = output_file(name);
    out_arg.append(path.as_str());
    let r = vec![
        String::from_str(arch),
        String::from_str("-R"),
        String::from_str("valgrind"),
        String::from_str("--tool=cachegrind"),
        String::from_str("--cache-sim=no"),
        out_arg,
        String::from_str(executable),
        String::from_str("--bench-run"),
        write_index(index),
    ];
    assert(r@.map_values(|s: String| s@) =~= profiler_command(arch@, executable@, index, name@));
    r
}

} // verus!
