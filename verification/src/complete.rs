//! Tab-completion candidates: the word under the cursor is matched as a
//! path prefix against the entries of the named directory.
use vstd::prelude::*;
use crate::text::{chars_to_string, str_to_chars, concat_chars};

verus! {

/// Where the word under the cursor starts, scanning back from the cursor to
/// a space or an opening parenthesis.
pub open spec fn spec_word_start(chars: Seq<char>, from: int) -> int
    decreases if from >= 0 { from + 1 } else { 0 },
{
    if from <= 0 {
        0
    } else if chars[from] == ' ' || chars[from] == '(' {
        from
    } else {
        spec_word_start(chars, from - 1)
    }
}

/// The bounds of the word under the cursor: one past the separator the
/// backward scan stops on, and the cursor itself.
pub fn curr_word(buf: &str, cursor: usize) -> (r: (usize, usize))
    requires
        cursor < buf@.len(),
    ensures
        r.0 == spec_word_start(buf@, cursor as int) + 1,
        r.1 == cursor,
{
    let chars = crate::text::str_to_chars(buf);
    let mut start: usize = cursor;
    while start != 0 && chars[start] != ' ' && chars[start] != '('
        invariant
            start <= cursor,
            cursor < chars@.len(),
            chars@ == buf@,
            spec_word_start(buf@, cursor as int) == spec_word_start(buf@, start as int),
        decreases start,
    {
        start -= 1;
    }
    (start + 1, cursor)
}

/// True when `s` starts with `prefix`.
#[verifier::loop_isolation(false)]
pub fn chars_starts_with(s: &Vec<char>, prefix: &Vec<char>) -> (r: bool)
    ensures
        r == (prefix@.len() <= s@.len() && s@.take(prefix@.len() as int) == prefix@),
{
    if prefix.len() > s.len() {
        return false;
    }
    let n = prefix.len();
    let mut i: usize = 0;
    while i < n
        invariant
            i <= n,
            forall|j: int| 0 <= j < i ==> s@[j] == prefix@[j],
        decreases n - i,
    {
        if s[i] != prefix[i] {
            proof {
                assert(s@.take(n as int)[i as int] != prefix@[i as int]);
            }
            return false;
        }
        i += 1;
    }
    proof {
        assert(s@.take(n as int) =~= prefix@);
    }
    true
}

/// True when some character is whitespace.
pub open spec fn spec_has_whitespace(s: Seq<char>) -> bool {
    exists|j: int| 0 <= j < s.len() && crate::lexer::spec_is_space(s[j])
}

/// True when some character of `s` is whitespace.
#[verifier::loop_isolation(false)]
pub fn has_whitespace(s: &Vec<char>) -> (r: bool)
    ensures
        r == spec_has_whitespace(s@),
{
    let n = s.len();
    let mut i: usize = 0;
    while i < n
        invariant
            i <= n,
            forall|j: int| 0 <= j < i ==> !crate::lexer::spec_is_space(s@[j]),
        decreases n - i,
    {
        if crate::lexer::is_space(s[i]) {
            return true;
        }
        i += 1;
    }
    proof {
        assert(!spec_has_whitespace(s@));
    }
    false
}

/// The candidate a single directory entry offers for a prefix, when it
/// offers one: the name joined onto the base path, a directory marked with
/// a trailing slash, a leading `./` dropped, and whitespace forcing double
/// quotes.
pub open spec fn spec_candidate(
    name: Seq<char>,
    is_dir: bool,
    base: Seq<char>,
    prefix: Seq<char>,
) -> Option<Seq<char>> {
    if prefix.len() <= name.len() && name.take(prefix.len() as int) == prefix {
        let joined = if is_dir {
            base + name + seq!['/']
        } else {
            base + name
        };
        let stripped = if joined.len() >= 2 && joined[0] == '.' && joined[1] == '/' {
            joined.skip(2)
        } else {
            joined
        };
        if spec_has_whitespace(stripped) {
            Option::Some(seq!['"'] + stripped + seq!['"'])
        } else {
            Option::Some(stripped)
        }
    } else {
        Option::None
    }
}

/// The candidates a run of entries offers, in order.
pub open spec fn spec_candidates(
    entries: Seq<(String, bool)>,
    base: Seq<char>,
    prefix: Seq<char>,
) -> Seq<Seq<char>>
    decreases entries.len(),
{
    if entries.len() == 0 {
        Seq::empty()
    } else {
        let head = spec_candidate(entries[0].0@, entries[0].1, base, prefix);
        let tail = spec_candidates(entries.skip(1), base, prefix);
        match head {
            Option::Some(c) => seq![c] + tail,
            Option::None => tail,
        }
    }
}

/// The candidates that the directory offers for a prefix: each entry whose
/// name starts with the prefix, joined onto the base path, directories
/// marked with a trailing slash, and any candidate holding whitespace
/// wrapped in double quotes.
#[verifier::loop_isolation(false)]
pub fn filter_candidates(
    entries: &Vec<(String, bool)>,
    base: &Vec<char>,
    prefix: &Vec<char>,
) -> (r: Vec<String>)
    ensures
        r@.len() == spec_candidates(entries@, base@, prefix@).len(),
        forall|t: int| 0 <= t < r@.len() ==> (#[trigger] r@[t])@ == spec_candidates(
            entries@,
            base@,
            prefix@,
        )[t],
{
    let ghost all = spec_candidates(entries@, base@, prefix@);
    let mut out: Vec<String> = Vec::new();
    let n = entries.len();
    let mut i: usize = 0;
    proof {
        assert(entries@.skip(0) =~= entries@);
    }
    while i < n
        invariant
            i <= n,
            all == spec_candidates(entries@, base@, prefix@),
            all =~= Seq::new(out@.len(), |t: int| out@[t]@) + spec_candidates(
                entries@.skip(i as int),
                base@,
                prefix@,
            ),
        decreases n - i,
    {
        proof {
            assert(entries@.skip(i as int)[0] == entries@[i as int]);
            assert(entries@.skip(i as int).skip(1) =~= entries@.skip(i as int + 1));
        }
        let name = crate::text::str_to_chars(entries[i].0.as_str());
        let is_dir = entries[i].1;
        let ghost this_cand = spec_candidate(name@, is_dir, base@, prefix@);
        if chars_starts_with(&name, prefix) {
            let mut cand = concat_chars(base, &name);
            if is_dir {
                cand.push('/');
                proof {
                    assert(cand@ =~= base@ + name@ + seq!['/']);
                }
            }
            let ghost joined_v = cand@;
            proof {
                assert(joined_v == if is_dir {
                    base@ + name@ + seq!['/']
                } else {
                    base@ + name@
                });
            }
            // a leading `./` from the implicit current directory is dropped
            let stripped: Vec<char> = if cand.len() >= 2 && cand[0] == '.' && cand[1] == '/' {
                let mut c2: Vec<char> = Vec::new();
                let mut k: usize = 2;
                while k < cand.len()
                    invariant
                        2 <= k <= cand@.len(),
                        c2@ == cand@.subrange(2, k as int),
                    decreases cand@.len() - k,
                {
                    c2.push(cand[k]);
                    proof {
                        assert(cand@.subrange(2, k + 1 as int) =~= cand@.subrange(
                            2,
                            k as int,
                        ).push(cand@[k as int]));
                    }
                    k += 1;
                }
                proof {
                    assert(c2@ =~= cand@.skip(2));
                }
                c2
            } else {
                cand
            };
            let ghost stripped_v = stripped@;
            proof {
                assert(stripped_v == if joined_v.len() >= 2 && joined_v[0] == '.' && joined_v[1]
                    == '/' {
                    joined_v.skip(2)
                } else {
                    joined_v
                });
            }
            let quoted: Vec<char> = if has_whitespace(&stripped) {
                let mut q: Vec<char> = Vec::new();
                q.push('"');
                let mut mid = stripped;
                q.append(&mut mid);
                q.push('"');
                proof {
                    assert(q@ =~= seq!['"'] + stripped_v + seq!['"']);
                }
                q
            } else {
                stripped
            };
            let ghost out0 = out@;
            out.push(chars_to_string(&quoted));
            proof {
                assert(this_cand is Some);
                let j2 = if is_dir {
                    base@ + name@ + seq!['/']
                } else {
                    base@ + name@
                };
                assert(j2 == joined_v);
                let s2 = if j2.len() >= 2 && j2[0] == '.' && j2[1] == '/' {
                    j2.skip(2)
                } else {
                    j2
                };
                assert(s2 == stripped_v);
                if spec_has_whitespace(s2) {
                    assert(quoted@ =~= seq!['"'] + s2 + seq!['"']);
                } else {
                    assert(quoted@ =~= s2);
                }
                assert(this_cand->Some_0 =~= quoted@);
                assert(this_cand == Option::Some(quoted@));
                assert(Seq::new(out@.len(), |t: int| out@[t]@) =~= Seq::new(
                    out0.len(),
                    |t: int| out0[t]@,
                ).push(quoted@));
            }
        } else {
            proof {
                assert(this_cand is None);
            }
        }
        i += 1;
    }
    proof {
        assert(entries@.skip(n as int) =~= Seq::<(String, bool)>::empty());
        assert forall|t: int| 0 <= t < out@.len() implies (#[trigger] out@[t])@ == all[t] by {
            assert(all[t] == Seq::new(out@.len(), |t2: int| out@[t2]@)[t]);
        }
    }
    out
}

/// Splits a path prefix into the directory to list and the name prefix to
/// match: the text after the last slash is the name, what is before it is
/// the directory (the current directory when there is none).
#[verifier::loop_isolation(false)]
pub fn split_base(prefix: &Vec<char>) -> (r: (Vec<char>, Vec<char>)) {
    let n = prefix.len();
    let mut last_slash: Option<usize> = None;
    let mut i: usize = 0;
    while i < n
        invariant
            i <= n,
            match last_slash {
                Some(p) => p < n,
                None => true,
            },
        decreases n - i,
    {
        if prefix[i] == '/' {
            last_slash = Some(i);
        }
        i += 1;
    }
    match last_slash {
        None => (str_to_chars("./"), crate::clone_chars(prefix)),
        Some(p) => {
            let mut base: Vec<char> = Vec::new();
            let mut k: usize = 0;
            while k <= p
                invariant
                    k <= p + 1,
                    p < n,
                decreases p + 1 - k,
            {
                base.push(prefix[k]);
                k += 1;
            }
            let mut name: Vec<char> = Vec::new();
            let mut k2: usize = p + 1;
            while k2 < n
                invariant
                    p < k2 <= n,
                decreases n - k2,
            {
                name.push(prefix[k2]);
                k2 += 1;
            }
            (base, name)
        },
    }
}

/// The completion candidates for the word under the cursor, drawn from the
/// directory the word names.
pub fn complete(buf: &str, cursor: usize) -> (r: Vec<String>)
    requires
        cursor < buf@.len(),
        spec_word_start(buf@, cursor as int) + 1 <= cursor,
{
    let (start, end) = curr_word(buf, cursor);
    let chars = crate::text::str_to_chars(buf);
    let mut prefix: Vec<char> = Vec::new();
    let mut k: usize = start;
    while k < end
        invariant
            start <= k <= end,
            end <= chars@.len(),
        decreases end - k,
    {
        prefix.push(chars[k]);
        k += 1;
    }
    let (base, name_prefix) = split_base(&prefix);
    let base_s = chars_to_string(&base);
    match crate::sys::list_dir(&base_s) {
        Some(entries) => filter_candidates(&entries, &base, &name_prefix),
        None => Vec::new(),
    }
}

} // verus!
