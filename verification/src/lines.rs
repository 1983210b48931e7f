//! Splitting a buffer's text into lines.

use crate::diff::lines_view;
use vstd::prelude::*;
use vstd::string::{StrSliceExecFns, StringExecFns};

verus! {

/// The position of the first newline in `s`, or -1 if there is none.
pub open spec fn find_nl(s: Seq<char>) -> int
    decreases s.len(),
{
    if s.len() == 0 {
        -1
    } else if s[0] == '\n' {
        0
    } else {
        let r = find_nl(s.drop_first());
        if r < 0 {
            -1
        } else {
            r + 1
        }
    }
}

/// The first newline lies inside the text, when there is one.
pub proof fn lemma_find_nl_bound(s: Seq<char>)
    ensures
        -1 <= find_nl(s) < s.len(),
    decreases s.len(),
{
    if s.len() == 0 {
    } else if s[0] == '\n' {
    } else {
        lemma_find_nl_bound(s.drop_first());
    }
}

/// If no newline stands before position `k` and one stands at `k` (or `k`
/// is the end), then `k` is where the first newline search ends.
pub proof fn lemma_find_nl_at(s: Seq<char>, k: int)
    requires
        0 <= k <= s.len(),
        forall|t: int| 0 <= t < k ==> s[t] != '\n',
        k < s.len() ==> s[k] == '\n',
    ensures
        find_nl(s) == if k == s.len() {
            -1int
        } else {
            k
        },
    decreases s.len(),
{
    if s.len() == 0 {
    } else if k == 0 {
    } else {
        assert(s[0] != '\n');
        assert forall|t: int| 0 <= t < k - 1 implies s.drop_first()[t] != '\n' by {
            assert(s.drop_first()[t] == s[t + 1]);
        }
        lemma_find_nl_at(s.drop_first(), k - 1);
    }
}

/// The lines of a text: its maximal newline-free runs, one per newline,
/// plus a final unterminated run if the text does not end in a newline.
/// The empty text has no lines.
pub open spec fn spec_lines(s: Seq<char>) -> Seq<Seq<char>>
    decreases s.len(),
    via spec_lines_dec
{
    if s.len() == 0 {
        Seq::empty()
    } else {
        let k = find_nl(s);
        if k < 0 {
            seq![s]
        } else {
            seq![s.take(k)] + spec_lines(s.skip(k + 1))
        }
    }
}

#[via_fn]
proof fn spec_lines_dec(s: Seq<char>) {
    lemma_find_nl_bound(s);
}

/// Splits a text into its lines: one entry per newline-terminated run,
/// plus a final entry for a nonempty unterminated tail.
pub fn split_lines(text: &str) -> (lines: Vec<String>)
    ensures
        lines_view(lines@) == spec_lines(text@),
{
    let len = text.unicode_len();
    let mut lines: Vec<String> = Vec::new();
    let mut start: usize = 0;
    let mut i: usize = 0;
    proof {
        assert(text@.skip(0) =~= text@);
        assert(lines_view(lines@) =~= Seq::<Seq<char>>::empty());
        assert(lines_view(lines@) + spec_lines(text@) =~= spec_lines(text@));
    }
    while i < len
        invariant
            start <= i <= len,
            len == text@.len(),
            forall|t: int| start <= t < i ==> text@[t] != '\n',
            spec_lines(text@) =~= lines_view(lines@) + spec_lines(text@.skip(start as int)),
        decreases len - i,
    {
        let c = text.get_char(i);
        if c == '\n' {
            let line = text.substring_char(start, i);
            let owned = String::from_str(line);
            proof {
                let sk = text@.skip(start as int);
                assert forall|t: int| 0 <= t < i - start implies sk[t] != '\n' by {
                    assert(sk[t] == text@[start + t]);
                }
                assert(sk[i - start] == text@[i as int]);
                lemma_find_nl_at(sk, i - start);
                assert(sk.take(i - start) =~= text@.subrange(start as int, i as int));
                assert(sk.skip(i - start + 1) =~= text@.skip(i as int + 1));
                assert(lines_view(lines@.push(owned)) =~= lines_view(lines@).push(owned@));
                assert(spec_lines(text@) =~= lines_view(lines@.push(owned)) + spec_lines(
                    text@.skip(i as int + 1),
                ));
            }
            lines.push(owned);
            start = i + 1;
        }
        i += 1;
    }
    if start < len {
        let line = text.substring_char(start, len);
        let owned = String::from_str(line);
        proof {
            let sk = text@.skip(start as int);
            assert forall|t: int| 0 <= t < sk.len() implies sk[t] != '\n' by {
                assert(sk[t] == text@[start + t]);
            }
            lemma_find_nl_at(sk, sk.len() as int);
            assert(sk =~= text@.subrange(start as int, len as int));
            assert(spec_lines(sk) =~= seq![sk]);
            assert(lines_view(lines@.push(owned)) =~= lines_view(lines@).push(owned@));
            assert(spec_lines(text@) =~= lines_view(lines@.push(owned)));
        }
        lines.push(owned);
    } else {
        proof {
            let sk = text@.skip(start as int);
            assert(sk.len() == 0);
            assert(spec_lines(text@) =~= lines_view(lines@));
        }
    }
    lines
}

} // verus!
