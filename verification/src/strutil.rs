//! Verified string utilities: lexicographic comparison by code point,
//! decimal rendering and parsing, quote stripping, and path-extension
//! classification.

use vstd::prelude::*;
use vstd::string::StrSliceExecFns;
use vstd::string::StringExecFns;

verus! {

/// Lexicographic order on character sequences by code point; the order the
/// byte-wise comparison of UTF-8 encoded strings realizes.
pub open spec fn lex_le(a: Seq<char>, b: Seq<char>) -> bool
    decreases a.len(),
{
    if a.len() == 0 {
        true
    } else if b.len() == 0 {
        false
    } else if (a[0] as u32) == (b[0] as u32) {
        lex_le(a.drop_first(), b.drop_first())
    } else {
        (a[0] as u32) < (b[0] as u32)
    }
}

/// `lex_le` is total.
pub proof fn lemma_lex_le_total(a: Seq<char>, b: Seq<char>)
    ensures
        lex_le(a, b) || lex_le(b, a),
    decreases a.len(),
{
    if a.len() == 0 {
        assert(lex_le(a, b));
    } else if b.len() == 0 {
        assert(lex_le(b, a));
    } else if (a[0] as u32) != (b[0] as u32) {
        assert(lex_le(a, b) || lex_le(b, a));
    } else {
        lemma_lex_le_total(a.drop_first(), b.drop_first());
        assert(lex_le(a.drop_first(), b.drop_first()) ==> lex_le(a, b));
        assert(lex_le(b.drop_first(), a.drop_first()) ==> lex_le(b, a));
    }
}

/// `lex_le` is transitive.
pub proof fn lemma_lex_le_trans(a: Seq<char>, b: Seq<char>, c: Seq<char>)
    requires
        lex_le(a, b),
        lex_le(b, c),
    ensures
        lex_le(a, c),
    decreases a.len(),
{
    if a.len() == 0 {
        assert(lex_le(a, c));
    } else if b.len() == 0 || c.len() == 0 {
    } else if (a[0] as u32) == (b[0] as u32) && (b[0] as u32) == (c[0] as u32) {
        assert(lex_le(a.drop_first(), b.drop_first()));
        assert(lex_le(b.drop_first(), c.drop_first()));
        lemma_lex_le_trans(a.drop_first(), b.drop_first(), c.drop_first());
        assert(lex_le(a, c));
    } else {
        assert(lex_le(a, c));
    }
}

/// Distinct characters have distinct code points.
proof fn lemma_char_cast_injective(a: char, b: char)
    ensures
        (a as u32) == (b as u32) ==> a == b,
{
}

/// `lex_le` is antisymmetric.
pub proof fn lemma_lex_le_antisym(a: Seq<char>, b: Seq<char>)
    requires
        lex_le(a, b),
        lex_le(b, a),
    ensures
        a == b,
    decreases a.len(),
{
    if a.len() == 0 {
        assert(b.len() == 0);
        assert(a =~= b);
    } else {
        assert(b.len() > 0);
        assert((a[0] as u32) == (b[0] as u32));
        lemma_char_cast_injective(a[0], b[0]);
        assert(lex_le(a.drop_first(), b.drop_first()));
        assert(lex_le(b.drop_first(), a.drop_first()));
        lemma_lex_le_antisym(a.drop_first(), b.drop_first());
        assert(a =~= seq![a[0]] + a.drop_first());
        assert(b =~= seq![b[0]] + b.drop_first());
    }
}

/// Compares two strings in the order given by [`lex_le`].
pub fn str_lex_le(a: &str, b: &str) -> (r: bool)
    ensures
        r == lex_le(a@, b@),
{
    let a_len = a.unicode_len();
    let b_len = b.unicode_len();
    let mut i: usize = 0;
    proof {
        assert(a@.skip(0) =~= a@);
        assert(b@.skip(0) =~= b@);
    }
    loop
        invariant
            i <= a_len,
            i <= b_len,
            a_len == a@.len(),
            b_len == b@.len(),
            lex_le(a@, b@) == lex_le(a@.skip(i as int), b@.skip(i as int)),
        decreases a_len - i,
    {
        if i == a_len {
            return true;
        }
        if i == b_len {
            return false;
        }
        let ca = a.get_char(i);
        let cb = b.get_char(i);
        proof {
            assert(a@.skip(i as int)[0] == a@[i as int]);
            assert(b@.skip(i as int)[0] == b@[i as int]);
        }
        let cau = ca as u32;
        let cbu = cb as u32;
        if cau != cbu {
            return cau < cbu;
        }
        proof {
            assert(a@.skip(i as int).drop_first() =~= a@.skip(i + 1));
            assert(b@.skip(i as int).drop_first() =~= b@.skip(i + 1));
        }
        i = i + 1;
    }
}

/// The character of a single decimal digit.
pub open spec fn dec_digit_char(d: nat) -> char {
    if d == 0 {
        '0'
    } else if d == 1 {
        '1'
    } else if d == 2 {
        '2'
    } else if d == 3 {
        '3'
    } else if d == 4 {
        '4'
    } else if d == 5 {
        '5'
    } else if d == 6 {
        '6'
    } else if d == 7 {
        '7'
    } else if d == 8 {
        '8'
    } else {
        '9'
    }
}

/// The decimal rendering of `n`, without leading zeros (except for `0`).
pub open spec fn dec_str_of(n: nat) -> Seq<char>
    decreases n,
{
    if n < 10 {
        seq![dec_digit_char(n)]
    } else {
        dec_str_of(n / 10).push(dec_digit_char(n % 10))
    }
}

/// Appends the decimal rendering of `n` to `out`.
pub fn push_decimal(out: &mut String, n: usize)
    ensures
        final(out)@ == old(out)@ + dec_str_of(n as nat),
    decreases n,
{
    if n >= 10 {
        push_decimal(out, n / 10);
    }
    let d = n % 10;
    let piece = if d == 0 {
        "0"
    } else if d == 1 {
        "1"
    } else if d == 2 {
        "2"
    } else if d == 3 {
        "3"
    } else if d == 4 {
        "4"
    } else if d == 5 {
        "5"
    } else if d == 6 {
        "6"
    } else if d == 7 {
        "7"
    } else if d == 8 {
        "8"
    } else {
        "9"
    };
    proof {
        reveal_strlit("0");
        reveal_strlit("1");
        reveal_strlit("2");
        reveal_strlit("3");
        reveal_strlit("4");
        reveal_strlit("5");
        reveal_strlit("6");
        reveal_strlit("7");
        reveal_strlit("8");
        reveal_strlit("9");
        assert(piece@ =~= seq![dec_digit_char((n % 10) as nat)]);
    }
    out.append(piece);
    proof {
        if n < 10 {
            assert(dec_str_of(n as nat) =~= seq![dec_digit_char(n as nat)]);
            assert(out@ =~= old(out)@ + dec_str_of(n as nat));
        } else {
            assert(out@ =~= old(out)@ + dec_str_of((n / 10) as nat).push(
                dec_digit_char((n % 10) as nat),
            ));
        }
    }
}

/// Whether `c` is a decimal digit.
pub open spec fn is_dec_digit(c: char) -> bool {
    48 <= (c as u32) <= 57
}

/// The numeric value of a decimal digit character.
pub open spec fn digit_val(c: char) -> nat {
    ((c as u32) - 48) as nat
}

/// Whether every character of `s` is a decimal digit.
pub open spec fn all_dec_digits(s: Seq<char>) -> bool {
    forall|i: int| 0 <= i < s.len() ==> is_dec_digit(#[trigger] s[i])
}

/// The numeric value of a digit sequence.
pub open spec fn dec_val(s: Seq<char>) -> nat
    decreases s.len(),
{
    if s.len() == 0 {
        0
    } else {
        dec_val(s.drop_last()) * 10 + digit_val(s.last())
    }
}

/// The value of a bare digit string, when it is non-empty, all digits, and
/// fits in 64 bits.
pub open spec fn parse_digits_spec(t: Seq<char>) -> Option<u64> {
    if t.len() == 0 || !all_dec_digits(t) || dec_val(t) > u64::MAX {
        None
    } else {
        Some(dec_val(t) as u64)
    }
}

/// What `str::parse::<u64>` accepts: an optional leading `+`, then at least
/// one decimal digit, with a value that fits in 64 bits.
pub open spec fn parse_u64_spec(s: Seq<char>) -> Option<u64> {
    if s.len() > 0 && s[0] == '+' {
        parse_digits_spec(s.drop_first())
    } else {
        parse_digits_spec(s)
    }
}

/// A digit string's value grows (weakly) with every appended digit.
proof fn lemma_dec_val_take_le(s: Seq<char>, i: int, j: int)
    requires
        0 <= i <= j <= s.len(),
    ensures
        dec_val(s.take(i)) <= dec_val(s.take(j)),
    decreases j - i,
{
    if i < j {
        lemma_dec_val_take_le(s, i, j - 1);
        assert(s.take(j).drop_last() =~= s.take(j - 1));
        assert(dec_val(s.take(j)) == dec_val(s.take(j - 1)) * 10 + digit_val(s.take(j).last()));
        assert(dec_val(s.take(j - 1)) * 10 >= dec_val(s.take(j - 1)));
    }
}

/// Parses a decimal `u64` as `str::parse::<u64>` does.
pub fn parse_u64(s: &str) -> (r: Option<u64>)
    ensures
        r == parse_u64_spec(s@),
{
    let n = s.unicode_len();
    if n == 0 {
        return None;
    }
    let start: usize = if s.get_char(0) == '+' {
        1
    } else {
        0
    };
    let ghost t = if s@[0] == '+' {
        s@.drop_first()
    } else {
        s@
    };
    proof {
        assert(t =~= s@.skip(start as int));
        assert(parse_u64_spec(s@) == parse_digits_spec(t));
    }
    if n == start {
        return None;
    }
    let mut acc: u64 = 0;
    let mut i: usize = start;
    while i < n
        invariant
            start <= i <= n,
            n == s@.len(),
            t == s@.skip(start as int),
            start == 0 || start == 1,
            parse_u64_spec(s@) == parse_digits_spec(t),
            all_dec_digits(t.take(i - start)),
            acc == dec_val(t.take(i - start)),
        decreases n - i,
    {
        let c = s.get_char(i);
        let cv = c as u32;
        if cv < 48 || cv > 57 {
            proof {
                assert(t[i - start] == s@[i as int]);
                assert(!is_dec_digit(t[i - start]));
                assert(!all_dec_digits(t));
                assert(parse_digits_spec(t) is None);
            }
            return None;
        }
        let d = (cv - 48) as u64;
        proof {
            assert(t.take(i - start + 1).drop_last() =~= t.take(i - start));
            assert(t.take(i - start + 1).last() == s@[i as int]);
        }
        if acc > (u64::MAX - d) / 10 {
            proof {
                assert(dec_val(t.take(i - start + 1)) == acc * 10 + d);
                assert(acc * 10 + d > u64::MAX) by (nonlinear_arith)
                    requires
                        acc > (u64::MAX - d) / 10,
                        0 <= d <= 9,
                ;
                lemma_dec_val_take_le(t, i - start + 1, t.len() as int);
                assert(t.take(t.len() as int) =~= t);
                assert(dec_val(t) > u64::MAX);
                assert(parse_digits_spec(t) is None);
            }
            return None;
        }
        proof {
            assert(acc * 10 + d <= u64::MAX) by (nonlinear_arith)
                requires
                    acc <= (u64::MAX - d) / 10,
                    0 <= d <= 9,
            ;
        }
        acc = acc * 10 + d;
        i = i + 1;
    }
    proof {
        assert(t.take(n - start) =~= t);
    }
    Some(acc)
}


/// A quote character, as stripped from configured paths.
pub open spec fn is_quote_char(c: char) -> bool {
    c == '\'' || c == '"'
}

/// The characters of `s` that are not quote characters, in order.
pub open spec fn without_quotes(s: Seq<char>) -> Seq<char>
    decreases s.len(),
{
    if s.len() == 0 {
        s
    } else if is_quote_char(s.last()) {
        without_quotes(s.drop_last())
    } else {
        without_quotes(s.drop_last()).push(s.last())
    }
}

/// Keeps the characters of `s` that are not quote characters.
pub fn remove_quotes(s: &str) -> (r: String)
    ensures
        r@ == without_quotes(s@),
{
    let n = s.unicode_len();
    let mut out = String::new();
    proof {
        assert(s@.take(0) =~= Seq::<char>::empty());
    }
    for i in 0..n
        invariant
            n == s@.len(),
            out@ == without_quotes(s@.take(i as int)),
    {
        let c = s.get_char(i);
        proof {
            assert(s@.take(i + 1).drop_last() =~= s@.take(i as int));
            assert(s@.take(i + 1).last() == s@[i as int]);
        }
        if !(c == '\'' || c == '"') {
            let piece = s.substring_char(i, i + 1);
            proof {
                assert(piece@ =~= seq![s@[i as int]]);
            }
            out.append(piece);
        }
    }
    proof {
        assert(s@.take(n as int) =~= s@);
    }
    out
}

/// The final path segment of `s`: the suffix after the last `/`, empty for
/// a name that ends in `/` (a directory name).
pub open spec fn file_part(s: Seq<char>) -> Seq<char>
    decreases s.len(),
{
    if s.len() == 0 {
        s
    } else if s.last() == '/' {
        Seq::empty()
    } else {
        file_part(s.drop_last()).push(s.last())
    }
}

/// The index of the last `.` of `c`, or `-1` when there is none.
pub open spec fn last_dot_index(c: Seq<char>) -> int
    decreases c.len(),
{
    if c.len() == 0 {
        -1
    } else if c.last() == '.' {
        c.len() - 1
    } else {
        last_dot_index(c.drop_last())
    }
}

/// The extension of a path: the part of the final segment after its last
/// dot, unless the segment has no dot or starts with its only dot.
pub open spec fn extension_of(name: Seq<char>) -> Option<Seq<char>> {
    let c = file_part(name);
    let k = last_dot_index(c);
    if k <= 0 {
        None
    } else {
        Some(c.skip(k + 1))
    }
}

/// A suffix with no `/`, beginning at the start or right after a `/`, is the
/// final path segment.
proof fn lemma_file_part_from_scan(s: Seq<char>, j: int)
    requires
        0 <= j <= s.len(),
        forall|t: int| j <= t < s.len() ==> s[t] != '/',
        j == 0 || s[j - 1] == '/',
    ensures
        file_part(s) == s.skip(j),
    decreases s.len(),
{
    if s.len() == 0 {
        assert(s.skip(0) =~= s);
    } else if s.last() == '/' {
        assert(j == s.len());
        assert(s.skip(j) =~= Seq::<char>::empty());
    } else {
        assert(j < s.len());
        assert(forall|t: int| j <= t < s.drop_last().len() ==> s.drop_last()[t] != '/');
        lemma_file_part_from_scan(s.drop_last(), j);
        assert(s.skip(j) =~= s.drop_last().skip(j).push(s.last()));
    }
}

/// A scan that saw the last dot at `d` (or none, for `d == -1`) determines
/// `last_dot_index`.
proof fn lemma_last_dot_from_scan(c: Seq<char>, d: int)
    requires
        -1 <= d < c.len(),
        d == -1 ==> forall|t: int| 0 <= t < c.len() ==> c[t] != '.',
        d >= 0 ==> c[d] == '.' && (forall|t: int| d < t < c.len() ==> c[t] != '.'),
    ensures
        last_dot_index(c) == d,
    decreases c.len(),
{
    if c.len() == 0 {
    } else if c.last() == '.' {
        assert(d == c.len() - 1);
    } else {
        assert(d < c.len() - 1);
        assert(forall|t: int| 0 <= t < c.drop_last().len() ==> c.drop_last()[t] == c[t]);
        lemma_last_dot_from_scan(c.drop_last(), d);
    }
}

/// Whether the path `name` has exactly the extension `ext`, under the same
/// reading of extensions as [`extension_of`].
pub fn has_extension(name: &str, ext: &str) -> (r: bool)
    ensures
        r == (extension_of(name@) == Some(ext@)),
{
    let n = name.unicode_len();
    let mut component_start: usize = 0;
    let mut last_dot: Option<usize> = None;
    for i in 0..n
        invariant
            n == name@.len(),
            component_start <= i,
            component_start == 0 || name@[component_start - 1] == '/',
            forall|t: int| component_start <= t < i ==> name@[t] != '/',
            last_dot matches Some(d) ==> d < i && name@[d as int] == '.' && (forall|t: int|
                d < t < i ==> name@[t] != '.'),
            last_dot is None ==> forall|t: int| 0 <= t < i ==> name@[t] != '.',
    {
        let c = name.get_char(i);
        if c == '/' {
            component_start = i + 1;
        }
        if c == '.' {
            last_dot = Some(i);
        }
    }
    proof {
        lemma_file_part_from_scan(name@, component_start as int);
    }
    let ghost comp = name@.skip(component_start as int);
    match last_dot {
        None => {
            proof {
                assert(forall|t: int| 0 <= t < comp.len() ==> comp[t] != '.');
                lemma_last_dot_from_scan(comp, -1);
            }
            false
        },
        Some(d) => {
            if d < component_start {
                proof {
                    assert(forall|t: int| 0 <= t < comp.len() ==> comp[t] != '.');
                    lemma_last_dot_from_scan(comp, -1);
                }
                false
            } else {
                proof {
                    assert(comp[d - component_start] == name@[d as int]);
                    assert(forall|t: int|
                        d - component_start < t < comp.len() ==> comp[t] != '.');
                    lemma_last_dot_from_scan(comp, d - component_start);
                }
                if d == component_start {
                    false
                } else {
                    let tail = name.substring_char(d + 1, n);
                    proof {
                        assert(tail@ =~= comp.skip(d - component_start + 1));
                    }
                    let r = String::from_str(tail) == String::from_str(ext);
                    proof {
                        if tail@ == ext@ {
                            assert(extension_of(name@) == Some(ext@));
                        } else {
                            assert(extension_of(name@) matches Some(e) && e != ext@);
                        }
                    }
                    r
                }
            }
        },
    }
}

} // verus!
