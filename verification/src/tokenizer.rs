//! The quote-aware command tokenizer: one left-to-right scan that splits a
//! raw input line into tokens, grouping quoted stretches into one token.

use vstd::prelude::*;

use crate::text::string_from_chars;

verus! {

/// One scanning step at a time: `s` is the input still to read, `in_quotes`
/// the quoting flag, `cur` the buffer accumulated for the current token, and
/// `acc` the tokens already emitted.
///
/// A double quote toggles the flag and is never part of any token.  A space
/// outside quotes flushes a non-empty buffer; every other character is
/// appended to the buffer.  At the end of the input a non-empty buffer is
/// flushed as a final token, also when a quote is still open.
pub open spec fn spec_tokenize_rec(
    s: Seq<char>,
    in_quotes: bool,
    cur: Seq<char>,
    acc: Seq<Seq<char>>,
) -> Seq<Seq<char>>
    decreases s.len(),
{
    if s.len() == 0 {
        if cur.len() > 0 {
            acc.push(cur)
        } else {
            acc
        }
    } else {
        let c = s[0];
        let rest = s.drop_first();
        if c == '"' {
            spec_tokenize_rec(rest, !in_quotes, cur, acc)
        } else if c == ' ' && !in_quotes {
            spec_tokenize_rec(
                rest,
                in_quotes,
                Seq::empty(),
                if cur.len() > 0 {
                    acc.push(cur)
                } else {
                    acc
                },
            )
        } else {
            spec_tokenize_rec(rest, in_quotes, cur.push(c), acc)
        }
    }
}

/// The token sequence of a whole input line.
pub open spec fn spec_tokenize(s: Seq<char>) -> Seq<Seq<char>> {
    spec_tokenize_rec(s, false, Seq::empty(), Seq::empty())
}

/// Splits an input line into tokens, keeping quoted stretches together.
pub fn true_input_parse(string: &String) -> (r: Vec<String>)
    ensures
        r.deep_view() == spec_tokenize(string@),
{
    let s = string.as_str();
    let n = s.unicode_len();
    let mut result: Vec<String> = Vec::new();
    let mut cur: Vec<char> = Vec::new();
    let mut in_quotes: bool = false;
    let mut i: usize = 0;
    proof {
        assert(s@.skip(0) =~= s@);
        assert(result.deep_view() =~= Seq::<Seq<char>>::empty());
        assert(cur@ =~= Seq::<char>::empty());
    }
    while i < n
        invariant
            0 <= i <= n == s@.len(),
            s@ == string@,
            spec_tokenize(string@) == spec_tokenize_rec(
                s@.skip(i as int),
                in_quotes,
                cur@,
                result.deep_view(),
            ),
        decreases n - i,
    {
        let c = s.get_char(i);
        let ghost pending = s@.skip(i as int);
        let ghost cur0 = cur@;
        let ghost acc0 = result.deep_view();
        let ghost inq0 = in_quotes;
        proof {
            assert(pending[0] == s@[i as int]);
            assert(pending.drop_first() =~= s@.skip(i as int + 1));
        }
        if c == '"' {
            in_quotes = !in_quotes;
            proof {
                assert(spec_tokenize_rec(pending, inq0, cur0, acc0) == spec_tokenize_rec(
                    s@.skip(i as int + 1),
                    in_quotes,
                    cur@,
                    result.deep_view(),
                ));
            }
        } else if c == ' ' && !in_quotes {
            if cur.len() > 0 {
                let token = string_from_chars(&cur);
                result.push(token);
                cur.clear();
                proof {
                    assert(result.deep_view() =~= acc0.push(token@));
                    assert(cur@ =~= Seq::<char>::empty());
                }
            }
            proof {
                if cur0.len() == 0 {
                    assert(cur0 =~= Seq::<char>::empty());
                }
                assert(spec_tokenize_rec(pending, inq0, cur0, acc0) == spec_tokenize_rec(
                    s@.skip(i as int + 1),
                    in_quotes,
                    cur@,
                    result.deep_view(),
                ));
            }
        } else {
            cur.push(c);
            proof {
                assert(spec_tokenize_rec(pending, inq0, cur0, acc0) == spec_tokenize_rec(
                    s@.skip(i as int + 1),
                    in_quotes,
                    cur@,
                    result.deep_view(),
                ));
            }
        }
        i += 1;
    }
    proof {
        assert(s@.skip(n as int) =~= Seq::<char>::empty());
    }
    if cur.len() > 0 {
        let ghost old_dv = result.deep_view();
        let token = string_from_chars(&cur);
        result.push(token);
        proof {
            assert(result.deep_view() =~= old_dv.push(token@));
        }
    }
    result
}

} // verus!
