use vstd::prelude::*;

use crate::reflog::{decimal, is_digit, lemma_decimal_grows};

verus! {

/// How a request for a list index resolved.
#[derive(Clone, Copy, Debug, PartialEq, Eq, Structural)]
pub enum Selection {
    /// An index of the list.
    Chosen(usize),
    /// Nothing was chosen: no input, or an empty reply to an empty list.
    Nothing,
    /// A number that is not an index of the list.
    OutOfRange(usize),
    /// A reply that is not a number.
    NotANumber,
}

/// The digits of a decimal number, after an optional leading `+`.
pub open spec fn unsigned_digits(s: Seq<char>) -> Seq<char> {
    if s.len() > 0 && s[0] == '+' {
        s.skip(1)
    } else {
        s
    }
}

/// The value of `s` read as an unsigned decimal number that fits in a `usize`:
/// an optional `+`, then one or more digits.
pub open spec fn usize_value(s: Seq<char>) -> Option<int> {
    let d = unsigned_digits(s);
    if d.len() > 0 && (forall|i: int| 0 <= i < d.len() ==> is_digit(#[trigger] d[i])) && decimal(d)
        <= usize::MAX {
        Some(decimal(d))
    } else {
        None
    }
}

/// What a reply to the index prompt selects in a list of `num_refs` entries.
pub open spec fn reply_selection(reply: Option<Seq<char>>, num_refs: int) -> Selection {
    match reply {
        None => Selection::Nothing,
        Some(s) => if s.len() == 0 {
            if num_refs > 0 {
                Selection::Chosen(0)
            } else {
                Selection::Nothing
            }
        } else {
            match usize_value(s) {
                Some(v) => if v < num_refs {
                    Selection::Chosen(v as usize)
                } else {
                    Selection::OutOfRange(v as usize)
                },
                None => Selection::NotANumber,
            }
        },
    }
}

proof fn lemma_decimal_step(ds: Seq<char>, i: int)
    requires
        0 <= i < ds.len(),
    ensures
        decimal(ds.subrange(0, i + 1)) == decimal(ds.subrange(0, i)) * 10 + (ds[i] as int) - (
        '0' as int),
{
    assert(ds.subrange(0, i + 1).drop_last() =~= ds.subrange(0, i));
}

/// Reads a reply as an unsigned decimal number, as `str::parse::<usize>` does.
pub fn parse_usize(s: &str) -> (r: Option<usize>)
    ensures
        match r {
            Some(v) => usize_value(s@) == Some(v as int),
            None => usize_value(s@).is_none(),
        },
{
    let n = s.unicode_len();
    let start: usize = if n > 0 && s.get_char(0) == '+' {
        1
    } else {
        0
    };
    let ghost d = unsigned_digits(s@);
    assert(d =~= s@.subrange(start as int, n as int));
    if start >= n {
        return None;
    }
    let mut acc: usize = 0;
    let mut i = start;
    while i < n
        invariant
            n as int == s@.len(),
            start <= i <= n,
            start < n,
            d == s@.subrange(start as int, n as int),
            d == unsigned_digits(s@),
            forall|k: int| 0 <= k < i - start ==> is_digit(#[trigger] d[k]),
            acc as int == decimal(d.subrange(0, i - start)),
        decreases n - i,
    {
        let c = s.get_char(i);
        assert(d[i - start] == s@[i as int]);
        if !('0' <= c && c <= '9') {
            assert(!is_digit(d[i - start]));
            return None;
        }
        let v = ((c as u32) - ('0' as u32)) as usize;
        proof {
            lemma_decimal_step(d, i - start);
        }
        if acc > (usize::MAX - v) / 10 {
            proof {
                if forall|q: int| 0 <= q < d.len() ==> is_digit(#[trigger] d[q]) {
                    lemma_decimal_grows(d, i + 1 - start, d.len() as int);
                    assert(d.subrange(0, d.len() as int) =~= d);
                }
            }
            return None;
        }
        acc = acc * 10 + v;
        i = i + 1;
    }
    assert(d.subrange(0, n - start) =~= d);
    Some(acc)
}

/// Resolves an index given on the command line: it must be an index of the list.
pub fn explicit_selection(index: usize, num_refs: usize) -> (r: Selection)
    ensures
        r == (if index < num_refs {
            Selection::Chosen(index)
        } else {
            Selection::OutOfRange(index)
        }),
{
    if index < num_refs {
        Selection::Chosen(index)
    } else {
        Selection::OutOfRange(index)
    }
}

/// Resolves a reply to the index prompt: `None` where no line could be read,
/// an empty line for the first entry of a non-empty list, else a number that
/// must be an index of the list.
pub fn reply_to_selection(reply: &Option<String>, num_refs: usize) -> (r: Selection)
    ensures
        r == reply_selection(
            match reply {
                Some(s) => Some(s@),
                None => None,
            },
            num_refs as int,
        ),
{
    match reply {
        None => Selection::Nothing,
        Some(line) => {
            let text = line.as_str();
            if text.unicode_len() == 0 {
                if num_refs > 0 {
                    Selection::Chosen(0)
                } else {
                    Selection::Nothing
                }
            } else {
                match parse_usize(text) {
                    Some(v) => if v < num_refs {
                        Selection::Chosen(v)
                    } else {
                        Selection::OutOfRange(v)
                    },
                    None => Selection::NotANumber,
                }
            }
        },
    }
}

} // verus!
