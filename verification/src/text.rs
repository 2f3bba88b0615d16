//! Character-sequence utilities shared by the lexer, printer and builtins.
use vstd::prelude::*;

verus! {

/// Structural equality of two character vectors.
pub fn chars_eq(a: &Vec<char>, b: &Vec<char>) -> (r: bool)
    ensures
        r == (a@ == b@),
{
    if a.len() != b.len() {
        return false;
    }
    let n = a.len();
    let mut i: usize = 0;
    while i < n
        invariant
            n == a.len() == b.len(),
            i <= n,
            forall|j: int| 0 <= j < i ==> a@[j] == b@[j],
        decreases n - i,
    {
        if a[i] != b[i] {
            return false;
        }
        i += 1;
    }
    proof {
        assert(a@ =~= b@);
    }
    true
}

} // verus!

verus! {

/// The characters of a string slice, in order.
pub fn str_to_chars(s: &str) -> (r: Vec<char>)
    ensures
        r@ == s@,
{
    let n = s.unicode_len();
    let mut out: Vec<char> = Vec::new();
    let mut i: usize = 0;
    while i < n
        invariant
            n == s@.len(),
            i <= n,
            out@ == s@.take(i as int),
        decreases n - i,
    {
        let c = s.get_char(i);
        out.push(c);
        proof {
            assert(s@.take(i + 1 as int) =~= s@.take(i as int).push(s@[i as int]));
        }
        i += 1;
    }
    proof {
        assert(s@.take(n as int) =~= s@);
    }
    out
}

} // verus!

verus! {

/// True of a decimal digit.
pub open spec fn spec_is_digit(c: char) -> bool {
    '0' <= c && c <= '9'
}

/// The numeric value of a decimal digit.
pub open spec fn spec_digit_val(c: char) -> int {
    (c as int) - ('0' as int)
}

/// True when every character of `s` is a decimal digit.
pub open spec fn all_digits(s: Seq<char>) -> bool
    decreases s,
{
    s.len() == 0 || (all_digits(s.drop_last()) && spec_is_digit(s.last()))
}

/// The value of a digit string read in base ten.
pub open spec fn digits_val(s: Seq<char>) -> int
    decreases s,
{
    if s.len() == 0 {
        0
    } else {
        digits_val(s.drop_last()) * 10 + spec_digit_val(s.last())
    }
}

/// The integer denoted by `s`: an optional leading minus sign, then at
/// least one decimal digit and nothing else.
pub open spec fn spec_parse_int(s: Seq<char>) -> Option<int> {
    if s.len() > 0 && s[0] == '-' {
        if s.len() > 1 && all_digits(s.skip(1)) {
            Option::Some(-digits_val(s.skip(1)))
        } else {
            Option::None
        }
    } else if s.len() > 0 && all_digits(s) {
        Option::Some(digits_val(s))
    } else {
        Option::None
    }
}

/// A digit string's value is never negative.
pub proof fn lemma_digits_val_nonneg(s: Seq<char>)
    requires
        all_digits(s),
    ensures
        digits_val(s) >= 0,
    decreases s,
{
    if s.len() > 0 {
        lemma_digits_val_nonneg(s.drop_last());
    }
}

/// Step lemma: reading one more digit multiplies by ten and adds it.
pub proof fn lemma_digits_val_step(s: Seq<char>, i: int)
    requires
        0 <= i < s.len(),
    ensures
        digits_val(s.take(i + 1)) == digits_val(s.take(i)) * 10 + spec_digit_val(s[i]),
        all_digits(s.take(i + 1)) == (all_digits(s.take(i)) && spec_is_digit(s[i])),
{
    assert(s.take(i + 1).drop_last() =~= s.take(i));
    assert(s.take(i + 1).last() == s[i]);
}

/// A prefix of a digit string never exceeds the whole string's value.
pub proof fn lemma_digits_val_prefix(s: Seq<char>, i: int)
    requires
        0 <= i <= s.len(),
        all_digits(s),
    ensures
        all_digits(s.take(i)),
        digits_val(s.take(i)) <= digits_val(s),
    decreases s.len() - i,
{
    if i == s.len() {
        assert(s.take(i) =~= s);
    } else {
        lemma_digits_val_prefix(s, i + 1);
        lemma_digits_val_step(s, i);
        lemma_digits_val_nonneg(s.take(i));
    }
}

/// The number denoted by the characters, when there is one whose magnitude
/// is at most `i64::MAX`.
pub open spec fn spec_to_num(s: Seq<char>) -> Option<i64> {
    match spec_parse_int(s) {
        Option::Some(v) => if -i64::MAX <= v <= i64::MAX {
            Option::Some(v as i64)
        } else {
            Option::None
        },
        Option::None => Option::None,
    }
}

/// Reads a decimal integer, rejecting anything else and magnitudes above
/// `i64::MAX`.
#[verifier::loop_isolation(false)]
pub fn to_num(s: &Vec<char>) -> (r: Option<i64>)
    ensures
        r == spec_to_num(s@),
{
    let n = s.len();
    if n == 0 {
        return None;
    }
    let neg = s[0] == '-';
    let start: usize = if neg {
        1
    } else {
        0
    };
    if n == start {
        return None;
    }
    let ghost digits = if neg {
        s@.skip(1)
    } else {
        s@
    };
    proof {
        if neg {
            assert(digits =~= s@.skip(1));
        }
    }
    let mut acc: i64 = 0;
    let mut i: usize = start;
    while i < n
        invariant
            start <= i <= n,
            digits.len() == n - start,
            forall|j: int| start <= j < n ==> digits[j - start] == s@[j],
            all_digits(digits.take(i - start)),
            0 <= acc == digits_val(digits.take(i - start)),
        decreases n - i,
    {
        let c = s[i];
        if !('0' <= c && c <= '9') {
            proof {
                lemma_digits_val_step(digits, i - start);
                if all_digits(digits) {
                    lemma_digits_val_prefix(digits, i - start + 1);
                }
            }
            return None;
        }
        let d = (c as u32) - ('0' as u32);
        proof {
            lemma_digits_val_step(digits, i - start);
        }
        let next = match acc.checked_mul(10) {
            Some(m) => m.checked_add(d as i64),
            None => None,
        };
        match next {
            Some(v) => {
                acc = v;
            },
            None => {
                // the prefix already exceeds `i64::MAX`, so the whole string does
                proof {
                    if all_digits(digits) {
                        lemma_digits_val_prefix(digits, i - start + 1);
                        lemma_digits_val_nonneg(digits.take(i - start));
                    }
                }
                return None;
            },
        }
        i += 1;
    }
    proof {
        assert(digits.take(n - start) =~= digits);
    }
    if neg {
        Some(-acc)
    } else {
        Some(acc)
    }
}

/// The decimal digits of a non-negative number.
pub open spec fn spec_digits(n: int) -> Seq<char>
    decreases n,
{
    if n < 10 {
        seq![spec_digit_char(if n < 0 { 0 } else { n })]
    } else {
        spec_digits(n / 10).push(spec_digit_char(n % 10))
    }
}

/// The character of a digit value.
pub open spec fn spec_digit_char(d: int) -> char {
    ((('0' as int) + d) as u8) as char
}

/// The decimal text of an integer: a minus sign for negative values, then
/// the digits of the magnitude.
pub open spec fn spec_int_text(v: int) -> Seq<char> {
    if v < 0 {
        seq!['-'] + spec_digits(-v)
    } else {
        spec_digits(v)
    }
}

/// The digits of a non-negative number, as characters.
pub fn digit_chars(n: u64) -> (r: Vec<char>)
    ensures
        r@ == spec_digits(n as int),
    decreases n,
{
    if n < 10 {
        let mut out: Vec<char> = Vec::new();
        let c = ((('0' as u32) + (n as u32)) as u8) as char;
        out.push(c);
        proof {
            assert(out@ =~= seq![spec_digit_char(n as int)]);
        }
        out
    } else {
        let mut out = digit_chars(n / 10);
        let d = n % 10;
        let c = ((('0' as u32) + (d as u32)) as u8) as char;
        out.push(c);
        out
    }
}

/// The decimal text of an integer.
pub fn int_to_chars(v: i64) -> (r: Vec<char>)
    ensures
        r@ == spec_int_text(v as int),
{
    if v >= 0 {
        digit_chars(v as u64)
    } else {
        let mag: u64 = (-(v as i128)) as u64;
        let mut out: Vec<char> = Vec::new();
        out.push('-');
        let mut digits = digit_chars(mag);
        out.append(&mut digits);
        proof {
            assert(out@ =~= seq!['-'] + spec_digits(mag as int));
        }
        out
    }
}

/// The textual form of a boolean.
pub open spec fn spec_bool_text(b: bool) -> Seq<char> {
    if b {
        seq!['t', 'r', 'u', 'e']
    } else {
        seq!['f', 'a', 'l', 's', 'e']
    }
}

/// The characters `true` or `false`.
pub fn bool_chars(b: bool) -> (r: Vec<char>)
    ensures
        r@ == spec_bool_text(b),
{
    let mut out: Vec<char> = Vec::new();
    if b {
        out.push('t');
        out.push('r');
        out.push('u');
        out.push('e');
        proof {
            assert(out@ =~= spec_bool_text(b));
        }
    } else {
        out.push('f');
        out.push('a');
        out.push('l');
        out.push('s');
        out.push('e');
        proof {
            assert(out@ =~= spec_bool_text(b));
        }
    }
    out
}

} // verus!

verus! {

/// Builds a `String` holding exactly the given characters.
#[verifier::loop_isolation(false)]
pub fn chars_to_string(s: &Vec<char>) -> (r: String)
    ensures
        r@ == s@,
{
    let mut out = String::new();
    let n = s.len();
    let mut i: usize = 0;
    while i < n
        invariant
            i <= n,
            out@ == s@.take(i as int),
        decreases n - i,
    {
        crate::sys::push_char(&mut out, s[i]);
        proof {
            assert(s@.take(i + 1 as int) =~= s@.take(i as int).push(s@[i as int]));
        }
        i += 1;
    }
    proof {
        assert(s@.take(n as int) =~= s@);
    }
    out
}

/// Compares a character vector with a string slice.
pub fn chars_eq_str(v: &Vec<char>, s: &str) -> (r: bool)
    ensures
        r == (v@ == s@),
{
    let sc = str_to_chars(s);
    chars_eq(v, &sc)
}

/// Copies every word of a word vector.
#[verifier::loop_isolation(false)]
pub fn clone_words(ws: &Vec<Vec<char>>) -> (r: Vec<Vec<char>>)
    ensures
        r@.len() == ws@.len(),
        forall|i: int| 0 <= i < ws@.len() ==> r@[i]@ == #[trigger] ws@[i]@,
{
    let mut out: Vec<Vec<char>> = Vec::new();
    let n = ws.len();
    let mut i: usize = 0;
    while i < n
        invariant
            i <= n,
            out@.len() == i,
            forall|j: int| 0 <= j < i ==> out@[j]@ == #[trigger] ws@[j]@,
        decreases n - i,
    {
        out.push(crate::clone_chars(&ws[i]));
        i += 1;
    }
    out
}

/// The position of the first newline at or after `from`, or the length.
pub open spec fn find_nl(s: Seq<char>, from: int) -> int
    decreases s.len() - from,
{
    if from < 0 || from >= s.len() {
        s.len() as int
    } else if s[from] == '\n' {
        from
    } else {
        find_nl(s, from + 1)
    }
}

/// A line with a trailing carriage return loses it.
pub open spec fn strip_cr(s: Seq<char>) -> Seq<char> {
    if s.len() > 0 && s.last() == '\r' {
        s.drop_last()
    } else {
        s
    }
}

/// The lines of a text: split at each newline, a carriage return before a
/// newline dropped, and no empty final line for a text ending in a newline.
pub open spec fn spec_lines(s: Seq<char>) -> Seq<Seq<char>>
    decreases s.len(),
{
    if s.len() == 0 {
        Seq::empty()
    } else {
        let k = find_nl(s, 0);
        if 0 <= k && k < s.len() {
            seq![strip_cr(s.take(k))] + spec_lines(s.skip(k + 1))
        } else {
            seq![strip_cr(s)]
        }
    }
}

/// `find_nl` stays in bounds and marks the first newline.
pub proof fn lemma_find_nl(s: Seq<char>, from: int)
    requires
        0 <= from <= s.len(),
    ensures
        from <= find_nl(s, from) <= s.len(),
        find_nl(s, from) < s.len() ==> s[find_nl(s, from)] == '\n',
        forall|j: int| from <= j < find_nl(s, from) ==> s[j] != '\n',
    decreases s.len() - from,
{
    if from < s.len() && s[from] != '\n' {
        lemma_find_nl(s, from + 1);
    }
}

/// Splits a text into its lines.
#[verifier::loop_isolation(false)]
pub fn split_lines(s: &Vec<char>) -> (r: Vec<Vec<char>>)
    ensures
        r@.len() == spec_lines(s@).len(),
        forall|i: int| 0 <= i < r@.len() ==> r@[i]@ == spec_lines(s@)[i],
{
    let mut out: Vec<Vec<char>> = Vec::new();
    let mut line: Vec<char> = Vec::new();
    let n = s.len();
    let mut start: usize = 0;
    let mut i: usize = 0;
    proof {
        assert(s@.skip(0) =~= s@);
        assert(line@ =~= s@.subrange(0, 0));
        assert(Seq::new(0, |k: int| out@[k]@) + spec_lines(s@) =~= spec_lines(s@));
    }
    while i < n
        invariant
            start <= i <= n,
            line@ == s@.subrange(start as int, i as int),
            spec_lines(s@) == Seq::new(out@.len(), |k: int| out@[k]@) + spec_lines(
                s@.skip(start as int),
            ),
            forall|j: int| start <= j < i ==> s@[j] != '\n',
            start == i || start < n,
        decreases n - i,
    {
        let c = s[i];
        if c == '\n' {
            proof {
                lemma_find_nl(s@.skip(start as int), 0);
                assert forall|j: int|
                    0 <= j < i - start implies s@.skip(start as int)[j] != '\n' by {
                    assert(s@.skip(start as int)[j] == s@[start + j]);
                }
                assert(s@.skip(start as int)[i - start] == '\n');
                assert(find_nl(s@.skip(start as int), 0) == i - start);
                assert(s@.skip(start as int).take(i - start) =~= s@.subrange(
                    start as int,
                    i as int,
                ));
                assert(s@.skip(start as int).skip(i - start + 1) =~= s@.skip(i + 1));
            }
            let stripped = if line.len() > 0 && line[line.len() - 1] == '\r' {
                let mut l2 = line;
                l2.pop();
                proof {
                    assert(l2@ =~= strip_cr(s@.subrange(start as int, i as int)));
                }
                l2
            } else {
                line
            };
            proof {
                let lines_so_far = Seq::new(out@.len(), |k: int| out@[k]@);
                assert(spec_lines(s@.skip(start as int)) == seq![strip_cr(
                    s@.subrange(start as int, i as int),
                )] + spec_lines(s@.skip(i + 1)));
                assert((lines_so_far + spec_lines(s@.skip(start as int))) =~= (lines_so_far.push(
                    strip_cr(s@.subrange(start as int, i as int)),
                ) + spec_lines(s@.skip(i + 1))));
            }
            let ghost out0 = out@;
            out.push(stripped);
            proof {
                assert(Seq::new(out@.len(), |k: int| out@[k]@) =~= Seq::new(
                    out0.len(),
                    |k: int| out0[k]@,
                ).push(strip_cr(s@.subrange(start as int, i as int))));
            }
            line = Vec::new();
            start = i + 1;
            proof {
                assert(line@ =~= s@.subrange(start as int, start as int));
            }
        } else {
            line.push(c);
            proof {
                assert(line@ =~= s@.subrange(start as int, i + 1 as int));
            }
        }
        i += 1;
    }
    if start < n {
        proof {
            lemma_find_nl(s@.skip(start as int), 0);
            assert forall|j: int| 0 <= j < n - start implies s@.skip(start as int)[j] != '\n' by {
                assert(s@.skip(start as int)[j] == s@[start + j]);
            }
            assert(find_nl(s@.skip(start as int), 0) == n - start);
            assert(s@.skip(start as int).len() > 0);
        }
        let stripped = if line.len() > 0 && line[line.len() - 1] == '\r' {
            let mut l2 = line;
            l2.pop();
            proof {
                assert(l2@ =~= strip_cr(s@.subrange(start as int, n as int)));
            }
            l2
        } else {
            line
        };
        proof {
            assert(s@.skip(start as int) =~= s@.subrange(start as int, n as int));
            let lines_so_far = Seq::new(out@.len(), |k: int| out@[k]@);
            assert(spec_lines(s@.skip(start as int)) =~= seq![strip_cr(
                s@.subrange(start as int, n as int),
            )]);
        }
        let ghost out0 = out@;
        out.push(stripped);
        proof {
            assert(Seq::new(out@.len(), |k: int| out@[k]@) =~= Seq::new(
                out0.len(),
                |k: int| out0[k]@,
            ).push(strip_cr(s@.subrange(start as int, n as int))));
            assert(spec_lines(s@) =~= Seq::new(out@.len(), |k: int| out@[k]@));
        }
    } else {
        proof {
            assert(s@.skip(start as int) =~= Seq::<char>::empty());
            assert(spec_lines(s@) =~= Seq::new(out@.len(), |k: int| out@[k]@));
        }
    }
    proof {
        assert forall|i2: int| 0 <= i2 < out@.len() implies out@[i2]@ == spec_lines(s@)[i2] by {
            assert(spec_lines(s@)[i2] == Seq::new(out@.len(), |k: int| out@[k]@)[i2]);
        }
    }
    out
}

} // verus!

verus! {

/// Joins two character runs.
pub fn concat_chars(a: &Vec<char>, b: &Vec<char>) -> (r: Vec<char>)
    ensures
        r@ == a@ + b@,
{
    let mut out = crate::clone_chars(a);
    let mut tail = crate::clone_chars(b);
    out.append(&mut tail);
    out
}

/// The position of the first `sep` at or after `from`, or the length.
pub open spec fn find_sep(s: Seq<char>, sep: char, from: int) -> int
    decreases s.len() - from,
{
    if from < 0 || from >= s.len() {
        s.len() as int
    } else if s[from] == sep {
        from
    } else {
        find_sep(s, sep, from + 1)
    }
}

/// The pieces of a text split at every `sep`, separators dropped; one piece
/// more than there are separators.
pub open spec fn spec_split(s: Seq<char>, sep: char) -> Seq<Seq<char>>
    decreases s.len(),
{
    let k = find_sep(s, sep, 0);
    if 0 <= k && k < s.len() {
        seq![s.take(k)] + spec_split(s.skip(k + 1), sep)
    } else {
        seq![s]
    }
}

/// `find_sep` stays in bounds and marks the first separator.
pub proof fn lemma_find_sep(s: Seq<char>, sep: char, from: int)
    requires
        0 <= from <= s.len(),
    ensures
        from <= find_sep(s, sep, from) <= s.len(),
        find_sep(s, sep, from) < s.len() ==> s[find_sep(s, sep, from)] == sep,
        forall|j: int| from <= j < find_sep(s, sep, from) ==> s[j] != sep,
    decreases s.len() - from,
{
    if from < s.len() && s[from] != sep {
        lemma_find_sep(s, sep, from + 1);
    }
}

/// Splits a character run at every occurrence of `sep`; the separators are
/// dropped.
#[verifier::loop_isolation(false)]
pub fn split_chars(s: &Vec<char>, sep: char) -> (r: Vec<Vec<char>>)
    ensures
        r@.len() == spec_split(s@, sep).len(),
        forall|i: int| 0 <= i < r@.len() ==> r@[i]@ == spec_split(s@, sep)[i],
{
    let mut out: Vec<Vec<char>> = Vec::new();
    let mut piece: Vec<char> = Vec::new();
    let n = s.len();
    let mut start: usize = 0;
    let mut i: usize = 0;
    proof {
        assert(s@.skip(0) =~= s@);
        assert(piece@ =~= s@.subrange(0, 0));
        assert(Seq::new(0, |k: int| out@[k]@) + spec_split(s@, sep) =~= spec_split(s@, sep));
    }
    while i < n
        invariant
            start <= i <= n,
            piece@ == s@.subrange(start as int, i as int),
            spec_split(s@, sep) == Seq::new(out@.len(), |k: int| out@[k]@) + spec_split(
                s@.skip(start as int),
                sep,
            ),
            forall|j: int| start <= j < i ==> s@[j] != sep,
        decreases n - i,
    {
        let c = s[i];
        if c == sep {
            proof {
                lemma_find_sep(s@.skip(start as int), sep, 0);
                assert forall|j: int|
                    0 <= j < i - start implies s@.skip(start as int)[j] != sep by {
                    assert(s@.skip(start as int)[j] == s@[start + j]);
                }
                assert(s@.skip(start as int)[i - start] == sep);
                assert(find_sep(s@.skip(start as int), sep, 0) == i - start);
                assert(s@.skip(start as int).take(i - start) =~= s@.subrange(
                    start as int,
                    i as int,
                ));
                assert(s@.skip(start as int).skip(i - start + 1) =~= s@.skip(i + 1));
                let pieces_so_far = Seq::new(out@.len(), |k: int| out@[k]@);
                assert(spec_split(s@.skip(start as int), sep) == seq![
                    s@.subrange(start as int, i as int),
                ] + spec_split(s@.skip(i + 1), sep));
                assert((pieces_so_far + spec_split(s@.skip(start as int), sep)) =~= (
                pieces_so_far.push(s@.subrange(start as int, i as int)) + spec_split(
                    s@.skip(i + 1),
                    sep,
                )));
            }
            let ghost out0 = out@;
            out.push(piece);
            proof {
                assert(Seq::new(out@.len(), |k: int| out@[k]@) =~= Seq::new(
                    out0.len(),
                    |k: int| out0[k]@,
                ).push(s@.subrange(start as int, i as int)));
            }
            piece = Vec::new();
            start = i + 1;
            proof {
                assert(piece@ =~= s@.subrange(start as int, start as int));
            }
        } else {
            piece.push(c);
            proof {
                assert(piece@ =~= s@.subrange(start as int, i + 1 as int));
            }
        }
        i += 1;
    }
    proof {
        lemma_find_sep(s@.skip(start as int), sep, 0);
        assert forall|j: int| 0 <= j < n - start implies s@.skip(start as int)[j] != sep by {
            assert(s@.skip(start as int)[j] == s@[start + j]);
        }
        assert(find_sep(s@.skip(start as int), sep, 0) == n - start);
        assert(s@.skip(start as int) =~= s@.subrange(start as int, n as int));
        assert(spec_split(s@.skip(start as int), sep) =~= seq![s@.subrange(start as int, n as int)]);
        let pieces_so_far = Seq::new(out@.len(), |k: int| out@[k]@);
        assert((pieces_so_far + spec_split(s@.skip(start as int), sep)) =~= pieces_so_far.push(
            s@.subrange(start as int, n as int),
        ));
    }
    let ghost out0 = out@;
    out.push(piece);
    proof {
        assert(Seq::new(out@.len(), |k: int| out@[k]@) =~= Seq::new(
            out0.len(),
            |k: int| out0[k]@,
        ).push(s@.subrange(start as int, n as int)));
        assert(spec_split(s@, sep) =~= Seq::new(out@.len(), |k: int| out@[k]@));
        assert forall|i2: int| 0 <= i2 < out@.len() implies out@[i2]@ == spec_split(s@, sep)[i2] by {
            assert(spec_split(s@, sep)[i2] == Seq::new(out@.len(), |k: int| out@[k]@)[i2]);
        }
    }
    out
}

} // verus!

verus! {

/// The digits of a number are decimal digits, at least one of them, and
/// they read back as the number.
pub proof fn lemma_spec_digits(n: int)
    requires
        n >= 0,
    ensures
        spec_digits(n).len() >= 1,
        all_digits(spec_digits(n)),
        digits_val(spec_digits(n)) == n,
    decreases n,
{
    assert(all_digits(Seq::<char>::empty()));
    assert(digits_val(Seq::<char>::empty()) == 0);
    if n < 10 {
        assert(spec_digits(n) =~= seq![spec_digit_char(n)]);
        assert(spec_digits(n).drop_last() =~= Seq::<char>::empty());
        assert(all_digits(spec_digits(n)));
        assert(digits_val(spec_digits(n)) == digits_val(Seq::<char>::empty()) * 10
            + spec_digit_val(spec_digit_char(n)));
    } else {
        lemma_spec_digits(n / 10);
        assert(spec_digits(n).drop_last() =~= spec_digits(n / 10));
        assert(spec_digits(n).last() == spec_digit_char(n % 10));
        assert(spec_digit_val(spec_digit_char(n % 10)) == n % 10);
        assert(n == (n / 10) * 10 + n % 10);
        assert(digits_val(spec_digits(n)) == digits_val(spec_digits(n / 10)) * 10 + spec_digit_val(
            spec_digit_char(n % 10),
        ));
    }
}

/// Two different numbers never share their digit text.
pub proof fn lemma_spec_digits_injective(a: int, b: int)
    requires
        a >= 0,
        b >= 0,
        spec_digits(a) == spec_digits(b),
    ensures
        a == b,
{
    lemma_spec_digits(a);
    lemma_spec_digits(b);
}

} // verus!

verus! {

/// Every character of an all-digit string is a digit.
pub proof fn lemma_all_digits_index(s: Seq<char>, j: int)
    requires
        all_digits(s),
        0 <= j < s.len(),
    ensures
        spec_is_digit(s[j]),
    decreases s,
{
    if j < s.len() - 1 {
        lemma_all_digits_index(s.drop_last(), j);
        assert(s.drop_last()[j] == s[j]);
    } else {
        assert(s.last() == s[j]);
    }
}

} // verus!

verus! {

/// Division truncating toward zero, as the machine divides.
pub open spec fn spec_div_trunc(x: int, d: int) -> int
    recommends
        d != 0,
{
    if x == 0 {
        0
    } else if x > 0 && d > 0 {
        x / d
    } else if x < 0 && d < 0 {
        (x * -1) / (d * -1)
    } else if x < 0 {
        ((x * -1) / d) * -1
    } else {
        (x / (d * -1)) * -1
    }
}

/// The remainder matching truncating division: it takes the dividend's
/// sign.
pub open spec fn spec_rem_trunc(x: int, d: int) -> int
    recommends
        d != 0,
{
    if x == 0 {
        0
    } else if x > 0 && d > 0 {
        x % d
    } else if x < 0 && d < 0 {
        ((x * -1) % (d * -1)) * -1
    } else if x < 0 {
        ((x * -1) % d) * -1
    } else {
        x % (d * -1)
    }
}

} // verus!
