//! Verified text helpers: splitting a command line into whitespace-delimited
//! tokens, and comparing string slices by their character sequences.

use vstd::prelude::*;

verus! {

/// The characters treated as token separators in a command line.
pub open spec fn is_space_char(c: char) -> bool {
    c == ' ' || c == '\t' || c == '\n' || c == '\r'
}

/// Runtime twin of [`is_space_char`].
pub fn space_char(c: char) -> (r: bool)
    ensures
        r == is_space_char(c),
{
    c == ' ' || c == '\t' || c == '\n' || c == '\r'
}

/// The views of a sequence of owned strings.
pub open spec fn str_views(v: Seq<String>) -> Seq<Seq<char>> {
    v.map_values(|s: String| s@)
}

/// The tokens of `s` from position `i` on, given that the characters of the
/// current, still open token are `cur`. A token is a maximal run of
/// non-separator characters; no token is empty.
pub open spec fn tokens_acc(s: Seq<char>, i: int, cur: Seq<char>) -> Seq<Seq<char>>
    decreases s.len() - i,
{
    if i < 0 || i >= s.len() {
        if cur.len() == 0 {
            Seq::empty()
        } else {
            seq![cur]
        }
    } else if is_space_char(s[i]) {
        if cur.len() == 0 {
            tokens_acc(s, i + 1, Seq::empty())
        } else {
            seq![cur] + tokens_acc(s, i + 1, Seq::empty())
        }
    } else {
        tokens_acc(s, i + 1, cur.push(s[i]))
    }
}

/// The whitespace-delimited tokens of a command line, in order. Leading,
/// trailing and repeated separators contribute no tokens.
pub open spec fn tokens_of(s: Seq<char>) -> Seq<Seq<char>> {
    tokens_acc(s, 0, Seq::empty())
}

/// Whether two string slices hold the same characters.
pub fn str_eq(a: &str, b: &str) -> (r: bool)
    ensures
        r == (a@ == b@),
{
    let na = a.unicode_len();
    let nb = b.unicode_len();
    if na != nb {
        return false;
    }
    let mut i: usize = 0;
    while i < na
        invariant
            na == a@.len(),
            na == b@.len(),
            i <= na,
            forall|k: int| 0 <= k < i ==> a@[k] == b@[k],
        decreases na - i,
    {
        if a.get_char(i) != b.get_char(i) {
            return false;
        }
        i = i + 1;
    }
    proof {
        assert(a@ =~= b@);
    }
    true
}

/// Whether a `String` holds the same characters as a string slice.
pub fn string_eq_str(a: &String, b: &str) -> (r: bool)
    ensures
        r == (a@ == b@),
{
    str_eq(a.as_str(), b)
}

/// Splits a command line into its whitespace-delimited tokens.
pub fn tokenize(line: &str) -> (toks: Vec<String>)
    ensures
        str_views(toks@) == tokens_of(line@),
{
    let n = line.unicode_len();
    let mut toks: Vec<String> = Vec::new();
    let mut i: usize = 0;
    let mut start: usize = 0;
    let mut in_tok: bool = false;
    proof {
        assert(str_views(toks@) =~= Seq::<Seq<char>>::empty());
    }
    while i < n
        invariant
            n == line@.len(),
            i <= n,
            in_tok ==> start < i,
            str_views(toks@) + tokens_acc(
                line@,
                i as int,
                if in_tok {
                    line@.subrange(start as int, i as int)
                } else {
                    Seq::empty()
                },
            ) =~= tokens_of(line@),
        decreases n - i,
    {
        let ghost cur: Seq<char> = if in_tok {
            line@.subrange(start as int, i as int)
        } else {
            Seq::empty()
        };
        let c = line.get_char(i);
        if space_char(c) {
            if in_tok {
                let t = line.substring_char(start, i).to_owned();
                proof {
                    assert(str_views(toks@.push(t)) =~= str_views(toks@).push(cur));
                }
                toks.push(t);
                in_tok = false;
            }
        } else {
            if !in_tok {
                start = i;
                in_tok = true;
            }
            proof {
                assert(line@.subrange(start as int, i + 1) =~= cur.push(line@[i as int]));
            }
        }
        i = i + 1;
    }
    if in_tok {
        let ghost cur: Seq<char> = line@.subrange(start as int, i as int);
        let t = line.substring_char(start, n).to_owned();
        proof {
            assert(str_views(toks@.push(t)) =~= str_views(toks@).push(cur));
        }
        toks.push(t);
    }
    toks
}

} // verus!
