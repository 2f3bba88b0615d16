//! Word extraction and escaping helpers used by tab completion: finding the
//! word under the cursor, removing escape characters, and escaping break
//! characters in produced candidates.
use vstd::prelude::*;

verus! {

/// Kind of quote surrounding the word being completed.
#[derive(Clone, Copy, Debug, Eq, PartialEq)]
pub enum Quote {
    /// Double quote: `"`
    Double,
    /// Single quote: `'`
    Single,
    /// No quote at all
    Bare,
}

/// Which break-character set applies.
#[derive(Clone, Copy, Debug, Eq, PartialEq)]
pub enum BreakSet {
    /// The characters that end an unquoted word.
    Default,
    /// The characters that stay special inside double quotes.
    DoubleQuotes,
}

/// The characters that end an unquoted word.
pub open spec fn spec_default_break_char(c: char) -> bool {
    c == ' ' || c == '\t' || c == '\n' || c == '"' || c == '\\' || c == '(' || c == ')'
}

/// The characters that stay special inside double quotes.
pub open spec fn spec_double_quotes_special_char(c: char) -> bool {
    c == '"' || c == '$' || c == '\\' || c == '`'
}

/// Break test for unquoted words.
pub fn default_break_chars(c: char) -> (r: bool)
    ensures
        r == spec_default_break_char(c),
{
    c == ' ' || c == '\t' || c == '\n' || c == '"' || c == '\\' || c == '(' || c == ')'
}

/// Break test inside double quotes.
pub fn double_quotes_special_chars(c: char) -> (r: bool)
    ensures
        r == spec_double_quotes_special_char(c),
{
    c == '"' || c == '$' || c == '\\' || c == '`'
}

/// The break test a set names.
pub open spec fn spec_is_break(set: BreakSet, c: char) -> bool {
    match set {
        BreakSet::Default => spec_default_break_char(c),
        BreakSet::DoubleQuotes => spec_double_quotes_special_char(c),
    }
}

/// Break test matching `spec_is_break`.
pub fn is_break(set: BreakSet, c: char) -> (r: bool)
    ensures
        r == spec_is_break(set, c),
{
    match set {
        BreakSet::Default => default_break_chars(c),
        BreakSet::DoubleQuotes => double_quotes_special_chars(c),
    }
}

/// A text with its escape characters removed: an escape takes the next
/// character literally; a trailing escape disappears.
pub open spec fn spec_unescape(s: Seq<char>, e: char) -> Seq<char>
    decreases s.len(),
{
    if s.len() == 0 {
        Seq::empty()
    } else if s[0] == e {
        if s.len() >= 2 {
            seq![s[1]] + spec_unescape(s.skip(2), e)
        } else {
            Seq::empty()
        }
    } else {
        seq![s[0]] + spec_unescape(s.skip(1), e)
    }
}

/// Removes the escape character: each escaped character stands for itself.
#[verifier::loop_isolation(false)]
pub fn unescape(input: &Vec<char>, esc_char: Option<char>) -> (r: Vec<char>)
    ensures
        match esc_char {
            Some(e) => r@ == spec_unescape(input@, e),
            None => r@ == input@,
        },
{
    let e = match esc_char {
        Some(e) => e,
        None => {
            return crate::clone_chars(input);
        },
    };
    let n = input.len();
    let mut out: Vec<char> = Vec::new();
    let mut i: usize = 0;
    proof {
        assert(input@.skip(0) =~= input@);
    }
    while i < n
        invariant
            i <= n,
            spec_unescape(input@, e) == out@ + spec_unescape(input@.skip(i as int), e),
        decreases n - i,
    {
        let ghost rem = input@.skip(i as int);
        proof {
            assert(rem[0] == input@[i as int]);
            assert(rem.skip(1) =~= input@.skip(i as int + 1));
            if i + 1 < n {
                assert(rem[1] == input@[i as int + 1]);
                assert(rem.skip(2) =~= input@.skip(i as int + 2));
            }
        }
        let c = input[i];
        if c == e {
            if i + 1 < n {
                out.push(input[i + 1]);
                proof {
                    assert(out@ + spec_unescape(input@.skip(i as int + 2), e) =~= (out@.drop_last()
                        + (seq![input@[i as int + 1]] + spec_unescape(
                        input@.skip(i as int + 2),
                        e,
                    ))));
                }
                i += 2;
            } else {
                proof {
                    assert(rem.len() == 1);
                    assert(out@ + spec_unescape(rem, e) =~= out@ + Seq::<char>::empty());
                }
                i += 1;
            }
        } else {
            out.push(c);
            proof {
                assert(out@ + spec_unescape(input@.skip(i as int + 1), e) =~= (out@.drop_last() + (
                seq![input@[i as int]] + spec_unescape(input@.skip(i as int + 1), e))));
            }
            i += 1;
        }
    }
    proof {
        assert(input@.skip(n as int) =~= Seq::<char>::empty());
        assert(out@ + Seq::<char>::empty() =~= out@);
    }
    out
}

/// A text with every break character preceded by the escape character.
pub open spec fn spec_escape(s: Seq<char>, e: char, set: BreakSet) -> Seq<char>
    decreases s.len(),
{
    if s.len() == 0 {
        Seq::empty()
    } else if spec_is_break(set, s[0]) {
        seq![e, s[0]] + spec_escape(s.skip(1), e, set)
    } else {
        seq![s[0]] + spec_escape(s.skip(1), e, set)
    }
}

/// Escapes every break character, unless the word stands in single quotes
/// or no escape character is given.
#[verifier::loop_isolation(false)]
pub fn escape(input: Vec<char>, esc_char: Option<char>, set: BreakSet, quote: Quote) -> (r: Vec<
    char,
>)
    ensures
        quote == Quote::Single ==> r@ == input@,
        quote != Quote::Single ==> match esc_char {
            Some(e) => r@ == spec_escape(input@, e, set),
            None => r@ == input@,
        },
{
    if matches!(quote, Quote::Single) {
        return input;
    }
    let e = match esc_char {
        Some(e) => e,
        None => {
            return input;
        },
    };
    let n = input.len();
    let mut out: Vec<char> = Vec::new();
    let mut i: usize = 0;
    proof {
        assert(input@.skip(0) =~= input@);
    }
    while i < n
        invariant
            i <= n,
            spec_escape(input@, e, set) == out@ + spec_escape(input@.skip(i as int), e, set),
        decreases n - i,
    {
        let ghost rem = input@.skip(i as int);
        proof {
            assert(rem[0] == input@[i as int]);
            assert(rem.skip(1) =~= input@.skip(i as int + 1));
        }
        let c = input[i];
        if is_break(set, c) {
            out.push(e);
            out.push(c);
            proof {
                assert(out@ + spec_escape(input@.skip(i as int + 1), e, set) =~= (out@.drop_last()
                    .drop_last() + (seq![e, input@[i as int]] + spec_escape(
                    input@.skip(i as int + 1),
                    e,
                    set,
                ))));
            }
        } else {
            out.push(c);
            proof {
                assert(out@ + spec_escape(input@.skip(i as int + 1), e, set) =~= (out@.drop_last()
                    + (seq![input@[i as int]] + spec_escape(input@.skip(i as int + 1), e, set))));
            }
        }
        i += 1;
    }
    proof {
        assert(input@.skip(n as int) =~= Seq::<char>::empty());
        assert(out@ + Seq::<char>::empty() =~= out@);
    }
    out
}

/// Finds backward from the cursor the start of the word being completed,
/// taking escaped break characters as part of the word. The returned text
/// is exactly the line between the start and the cursor.
#[verifier::loop_isolation(false)]
pub fn extract_word(line: &Vec<char>, pos: usize, esc_char: Option<char>, set: BreakSet) -> (r: (
    usize,
    Vec<char>,
))
    requires
        pos <= line@.len(),
    ensures
        r.0 <= pos,
        r.1@ == line@.subrange(r.0 as int, pos as int),
        (forall|j: int|
            0 <= j < pos ==> !spec_is_break(set, #[trigger] line@[j]) && (esc_char matches Some(e)
                ==> line@[j] != e)) ==> r.0 == 0,
{
    if pos == 0 {
        let empty: Vec<char> = Vec::new();
        proof {
            assert(empty@ =~= line@.subrange(0, 0));
        }
        return (0, empty);
    }
    let mut start: Option<usize> = None;
    let mut i: usize = pos;
    while i > 0
        invariant
            i <= pos,
            pos <= line@.len(),
            match start {
                Some(st) => st <= pos,
                None => true,
            },
            (forall|j: int|
                0 <= j < pos ==> !spec_is_break(set, #[trigger] line@[j]) && (esc_char matches Some(
                    e,
                ) ==> line@[j] != e)) ==> start is None,
        decreases i,
    {
        i -= 1;
        let c = line[i];
        if let Some(e) = esc_char {
            if start.is_some() {
                if e == c {
                    start = None;
                    continue ;
                }
                break ;
            }
        }
        if is_break(set, c) {
            start = Some(i + 1);
            if esc_char.is_none() {
                break ;
            }
        }
    }
    let st: usize = match start {
        Some(st) => st,
        None => 0,
    };
    let mut word: Vec<char> = Vec::new();
    let mut k: usize = st;
    while k < pos
        invariant
            st <= k <= pos,
            word@ == line@.subrange(st as int, k as int),
        decreases pos - k,
    {
        word.push(line[k]);
        proof {
            assert(line@.subrange(st as int, k + 1 as int) =~= line@.subrange(
                st as int,
                k as int,
            ).push(line@[k as int]));
        }
        k += 1;
    }
    (st, word)
}

/// The scanner's mode while looking for an unclosed quote.
pub enum ScanMode {
    Normal,
    DoubleQuote,
    Escape,
    EscapeInDoubleQuote,
    SingleQuote,
}

/// One scanning step: how a character changes the mode, and where an
/// opening quote is remembered.
pub open spec fn scan_step(mode: ScanMode, qidx: int, c: char, i: int) -> (ScanMode, int) {
    match mode {
        ScanMode::DoubleQuote => {
            if c == '"' {
                (ScanMode::Normal, qidx)
            } else if c == '\\' {
                (ScanMode::EscapeInDoubleQuote, qidx)
            } else {
                (ScanMode::DoubleQuote, qidx)
            }
        },
        ScanMode::Escape => (ScanMode::Normal, qidx),
        ScanMode::EscapeInDoubleQuote => (ScanMode::DoubleQuote, qidx),
        ScanMode::Normal => {
            if c == '"' {
                (ScanMode::DoubleQuote, i)
            } else if c == '\\' {
                (ScanMode::Escape, qidx)
            } else if c == '\'' {
                (ScanMode::SingleQuote, i)
            } else {
                (ScanMode::Normal, qidx)
            }
        },
        ScanMode::SingleQuote => {
            if c == '\'' {
                (ScanMode::Normal, qidx)
            } else {
                (ScanMode::SingleQuote, qidx)
            }
        },
    }
}

/// The unclosed quote the scan ends on, from position `i` in the given
/// mode: its opening position and kind, or nothing when every quote is
/// closed.
pub open spec fn scan_from(s: Seq<char>, i: int, mode: ScanMode, qidx: int) -> Option<(int, Quote)>
    decreases s.len() - i,
{
    if i < 0 || i >= s.len() {
        match mode {
            ScanMode::DoubleQuote => Option::Some((qidx, Quote::Double)),
            ScanMode::EscapeInDoubleQuote => Option::Some((qidx, Quote::Double)),
            ScanMode::SingleQuote => Option::Some((qidx, Quote::Single)),
            _ => Option::None,
        }
    } else {
        let next = scan_step(mode, qidx, s[i], i);
        scan_from(s, i + 1, next.0, next.1)
    }
}

/// Finds an unclosed single or double quote: its opening position and its
/// kind, escapes respected.
#[verifier::loop_isolation(false)]
pub fn find_unclosed_quote(s: &Vec<char>) -> (r: Option<(usize, Quote)>)
    ensures
        match r {
            Some(p) => scan_from(s@, 0, ScanMode::Normal, 0) == Option::Some(
                (p.0 as int, p.1),
            ) && p.0 < s@.len(),
            None => scan_from(s@, 0, ScanMode::Normal, 0) is None,
        },
{
    let n = s.len();
    let mut mode = ScanMode::Normal;
    let mut quote_index: usize = 0;
    let mut i: usize = 0;
    while i < n
        invariant
            i <= n,
            quote_index <= i,
            matches!(mode, ScanMode::Normal) || quote_index < i,
            scan_from(s@, 0, ScanMode::Normal, 0) == scan_from(
                s@,
                i as int,
                mode,
                quote_index as int,
            ),
        decreases n - i,
    {
        let c = s[i];
        match mode {
            ScanMode::DoubleQuote => {
                if c == '"' {
                    mode = ScanMode::Normal;
                } else if c == '\\' {
                    mode = ScanMode::EscapeInDoubleQuote;
                }
            },
            ScanMode::Escape => {
                mode = ScanMode::Normal;
            },
            ScanMode::EscapeInDoubleQuote => {
                mode = ScanMode::DoubleQuote;
            },
            ScanMode::Normal => {
                if c == '"' {
                    mode = ScanMode::DoubleQuote;
                    quote_index = i;
                } else if c == '\\' {
                    mode = ScanMode::Escape;
                } else if c == '\'' {
                    mode = ScanMode::SingleQuote;
                    quote_index = i;
                }
            },
            ScanMode::SingleQuote => {
                if c == '\'' {
                    mode = ScanMode::Normal;
                }
            },
        }
        i += 1;
    }
    match mode {
        ScanMode::DoubleQuote => Some((quote_index, Quote::Double)),
        ScanMode::EscapeInDoubleQuote => Some((quote_index, Quote::Double)),
        ScanMode::SingleQuote => Some((quote_index, Quote::Single)),
        _ => None,
    }
}

} // verus!
