//! Executable string utilities, each proved against the corresponding
//! splitting or joining function of the model.
use vstd::prelude::*;

use crate::model::concat_from;
use crate::model::is_space_char;
use crate::model::join_cc_from;
use crate::model::lex_lt;
use crate::model::lines_from;
use crate::model::lines_of;
use crate::model::plain_split;
use crate::model::plain_split_from;
use crate::model::slash_split;
use crate::model::slash_split_from;
use crate::model::strip_cr;
use crate::model::tokens_from;
use crate::model::tokens_of;

verus! {

/// Compares two strings character by character.
pub fn str_eq(a: &str, b: &str) -> (r: bool)
    ensures
        r == (a@ == b@),
{
    let na = a.unicode_len();
    let nb = b.unicode_len();
    if na != nb {
        assert(a@ != b@) by {
            assert(a@.len() != b@.len());
        }
        return false;
    }
    let mut i: usize = 0;
    while i < na
        invariant
            na == a@.len(),
            nb == b@.len(),
            na == nb,
            i <= na,
            forall|j: int| 0 <= j < i ==> a@[j] == b@[j],
        decreases na - i,
    {
        if a.get_char(i) != b.get_char(i) {
            return false;
        }
        i += 1;
    }
    proof {
        assert(a@ =~= b@);
    }
    true
}

/// Decides the lexicographic order of the model on two strings.
pub fn str_lt(a: &str, b: &str) -> (r: bool)
    ensures
        r == lex_lt(a@, b@),
{
    let na = a.unicode_len();
    let nb = b.unicode_len();
    let mut i: usize = 0;
    proof {
        assert(a@.skip(0) =~= a@);
        assert(b@.skip(0) =~= b@);
    }
    loop
        invariant
            na == a@.len(),
            nb == b@.len(),
            i <= na,
            i <= nb,
            lex_lt(a@, b@) == lex_lt(a@.skip(i as int), b@.skip(i as int)),
        decreases na - i,
    {
        if i == nb {
            proof {
                assert(b@.skip(i as int).len() == 0);
            }
            return false;
        }
        if i == na {
            proof {
                assert(a@.skip(i as int).len() == 0);
                assert(b@.skip(i as int).len() > 0);
            }
            return true;
        }
        let ca = a.get_char(i);
        let cb = b.get_char(i);
        proof {
            let sa = a@.skip(i as int);
            let sb = b@.skip(i as int);
            assert(sa[0] == a@[i as int]);
            assert(sb[0] == b@[i as int]);
            assert(sa.drop_first() =~= a@.skip(i as int + 1));
            assert(sb.drop_first() =~= b@.skip(i as int + 1));
        }
        if ca == cb {
            i += 1;
        } else {
            return (ca as u32) < (cb as u32);
        }
    }
}

/// Splits text into lines as the model does.
pub fn split_lines(s: &str) -> (r: Vec<String>)
    ensures
        r.deep_view() == lines_of(s@),
{
    let n = s.unicode_len();
    let mut out: Vec<String> = Vec::new();
    let mut start: usize = 0;
    let mut i: usize = 0;
    proof {
        assert(s@.subrange(0, 0) =~= Seq::<char>::empty());
        assert(out.deep_view() =~= Seq::<Seq<char>>::empty());
        assert(out.deep_view() + lines_from(s@, 0, Seq::empty()) =~= lines_of(s@));
    }
    while i < n
        invariant
            n == s@.len(),
            start <= i <= n,
            lines_of(s@) == out.deep_view() + lines_from(s@, i as int, s@.subrange(start as int, i as int)),
        decreases n - i,
    {
        let c = s.get_char(i);
        proof {
            let cur = s@.subrange(start as int, i as int);
            if c == '\n' {
                assert(lines_from(s@, i as int, cur) == seq![strip_cr(cur)] + lines_from(
                    s@,
                    i as int + 1,
                    Seq::empty(),
                ));
            } else {
                assert(cur.push(s@[i as int]) =~= s@.subrange(start as int, i as int + 1));
            }
        }
        if c == '\n' {
            let line: String;
            if i > start && s.get_char(i - 1) == '\r' {
                line = s.substring_char(start, i - 1).to_owned();
                proof {
                    let cur = s@.subrange(start as int, i as int);
                    assert(cur.len() > 0 && cur.last() == '\r');
                    assert(cur.drop_last() =~= s@.subrange(start as int, i as int - 1));
                }
            } else {
                line = s.substring_char(start, i).to_owned();
                proof {
                    let cur = s@.subrange(start as int, i as int);
                    if cur.len() > 0 {
                        assert(cur.last() == s@[i as int - 1]);
                    }
                    assert(strip_cr(cur) == cur);
                }
            }
            let ghost old_out = out.deep_view();
            out.push(line);
            proof {
                assert(out.deep_view() =~= old_out + seq![line@]);
                assert(s@.subrange(i as int + 1, i as int + 1) =~= Seq::<char>::empty());
                assert(out.deep_view() + lines_from(s@, i as int + 1, Seq::empty()) =~= lines_of(
                    s@,
                ));
            }
            start = i + 1;
        }
        i += 1;
    }
    if start < n {
        let line = s.substring_char(start, n).to_owned();
        let ghost old_out = out.deep_view();
        out.push(line);
        proof {
            let cur = s@.subrange(start as int, n as int);
            assert(lines_from(s@, n as int, cur) == seq![cur]);
            assert(out.deep_view() =~= old_out + seq![cur]);
        }
    } else {
        proof {
            let cur = s@.subrange(start as int, n as int);
            assert(cur.len() == 0);
            assert(lines_from(s@, n as int, cur) =~= Seq::<Seq<char>>::empty());
            assert(out.deep_view() + Seq::<Seq<char>>::empty() =~= out.deep_view());
        }
    }
    proof {
        assert(out.deep_view() =~= lines_of(s@));
    }
    out
}

/// Splits a line into whitespace-separated tokens as the model does.
pub fn split_tokens(s: &str) -> (r: Vec<String>)
    ensures
        r.deep_view() == tokens_of(s@),
{
    let n = s.unicode_len();
    let mut out: Vec<String> = Vec::new();
    let mut start: usize = 0;
    let mut i: usize = 0;
    proof {
        assert(s@.subrange(0, 0) =~= Seq::<char>::empty());
        assert(out.deep_view() =~= Seq::<Seq<char>>::empty());
        assert(out.deep_view() + tokens_from(s@, 0, Seq::empty()) =~= tokens_of(s@));
    }
    while i < n
        invariant
            n == s@.len(),
            start <= i <= n,
            tokens_of(s@) == out.deep_view() + tokens_from(s@, i as int, s@.subrange(start as int, i as int)),
        decreases n - i,
    {
        let c = s.get_char(i);
        let space = c == ' ' || c == '\t' || c == '\r';
        proof {
            let cur = s@.subrange(start as int, i as int);
            assert(space == is_space_char(s@[i as int]));
            if !space {
                assert(cur.push(s@[i as int]) =~= s@.subrange(start as int, i as int + 1));
            }
        }
        if space {
            if i > start {
                let tok = s.substring_char(start, i).to_owned();
                let ghost old_out = out.deep_view();
                out.push(tok);
                proof {
                    let cur = s@.subrange(start as int, i as int);
                    assert(out.deep_view() =~= old_out + seq![cur]);
                    assert(s@.subrange(i as int + 1, i as int + 1) =~= Seq::<char>::empty());
                    assert(out.deep_view() + tokens_from(s@, i as int + 1, Seq::empty())
                        =~= tokens_of(s@));
                }
            } else {
                proof {
                    assert(s@.subrange(i as int + 1, i as int + 1) =~= Seq::<char>::empty());
                    assert(s@.subrange(start as int, i as int).len() == 0);
                }
            }
            start = i + 1;
        }
        i += 1;
    }
    if start < n {
        let tok = s.substring_char(start, n).to_owned();
        let ghost old_out = out.deep_view();
        out.push(tok);
        proof {
            let cur = s@.subrange(start as int, n as int);
            assert(tokens_from(s@, n as int, cur) == seq![cur]);
            assert(out.deep_view() =~= old_out + seq![cur]);
        }
    } else {
        proof {
            let cur = s@.subrange(start as int, n as int);
            assert(cur.len() == 0);
            assert(tokens_from(s@, n as int, cur) =~= Seq::<Seq<char>>::empty());
        }
    }
    proof {
        assert(out.deep_view() =~= tokens_of(s@));
    }
    out
}

/// Concatenates the tokens `ts[from..]` without separators, as the model
/// does when joining an import statement.
pub fn concat_tokens(ts: &Vec<String>, from: usize) -> (r: String)
    ensures
        r@ == concat_from(ts.deep_view(), from as int),
{
    let mut r = String::new();
    let mut k = from;
    if k > ts.len() {
        proof {
            assert(concat_from(ts.deep_view(), from as int) =~= Seq::<char>::empty());
        }
        return r;
    }
    while k < ts.len()
        invariant
            from <= k <= ts.len(),
            concat_from(ts.deep_view(), from as int) == r@ + concat_from(
                ts.deep_view(),
                k as int,
            ),
        decreases ts.len() - k,
    {
        proof {
            assert(ts.deep_view()[k as int] == ts@[k as int]@);
        }
        r.append(ts[k].as_str());
        k += 1;
    }
    proof {
        assert(concat_from(ts.deep_view(), ts.len() as int) =~= Seq::<char>::empty());
        assert(r@ + Seq::<char>::empty() =~= r@);
    }
    r
}

/// Joins path segments with `::`, as the model does for a canonical path.
pub fn join_path(segs: &Vec<String>) -> (r: String)
    ensures
        r@ == join_cc_from(segs.deep_view(), 0),
{
    join_path_from(segs, 0)
}

/// Joins the segments `segs[from..]` with `::`.
pub fn join_path_from(segs: &Vec<String>, from: usize) -> (r: String)
    ensures
        r@ == join_cc_from(segs.deep_view(), from as int),
    decreases segs.len() - from,
{
    proof {
        assert(from < segs.len() ==> segs.deep_view()[from as int] == segs@[from as int]@);
    }
    if from >= segs.len() {
        String::new()
    } else if from == segs.len() - 1 {
        segs[from].clone()
    } else {
        let mut r = segs[from].clone();
        r.append("::");
        let tail = join_path_from(segs, from + 1);
        r.append(tail.as_str());
        r
    }
}

/// Splits a canonical path at every `::`, as the model does for the
/// wildcard-subsumption walk.
pub fn split_plain(s: &str) -> (r: Vec<String>)
    ensures
        r.deep_view() == plain_split(s@),
{
    let n = s.unicode_len();
    let mut out: Vec<String> = Vec::new();
    let mut start: usize = 0;
    let mut i: usize = 0;
    proof {
        assert(s@.subrange(0, 0) =~= Seq::<char>::empty());
        assert(out.deep_view() =~= Seq::<Seq<char>>::empty());
        assert(out.deep_view() + plain_split_from(s@, 0, Seq::empty()) =~= plain_split(s@));
    }
    loop
        invariant
            n == s@.len(),
            start <= i <= n,
            plain_split(s@) == out.deep_view() + plain_split_from(
                s@,
                i as int,
                s@.subrange(start as int, i as int),
            ),
        decreases n - i,
    {
        if i >= n {
            let tok = s.substring_char(start, n).to_owned();
            let ghost old_out = out.deep_view();
            out.push(tok);
            proof {
                let cur = s@.subrange(start as int, n as int);
                assert(plain_split_from(s@, n as int, cur) == seq![cur]);
                assert(out.deep_view() =~= old_out + seq![cur]);
                assert(out.deep_view() =~= plain_split(s@));
            }
            return out;
        }
        let c = s.get_char(i);
        let is_sep = c == ':' && i + 1 < n && s.get_char(i + 1) == ':';
        proof {
            let cur = s@.subrange(start as int, i as int);
            if !is_sep {
                assert(cur.push(s@[i as int]) =~= s@.subrange(start as int, i as int + 1));
            }
        }
        if is_sep {
            let tok = s.substring_char(start, i).to_owned();
            let ghost old_out = out.deep_view();
            out.push(tok);
            proof {
                let cur = s@.subrange(start as int, i as int);
                assert(out.deep_view() =~= old_out + seq![cur]);
                assert(s@.subrange(i as int + 2, i as int + 2) =~= Seq::<char>::empty());
            }
            start = i + 2;
            i += 2;
        } else {
            i += 1;
        }
    }
}

/// Splits a directory path at every `/` into its segments.
pub fn path_segments(s: &str) -> (r: Vec<String>)
    ensures
        r.deep_view() == slash_split(s@),
{
    let n = s.unicode_len();
    let mut out: Vec<String> = Vec::new();
    let mut start: usize = 0;
    let mut i: usize = 0;
    proof {
        assert(s@.subrange(0, 0) =~= Seq::<char>::empty());
        assert(out.deep_view() =~= Seq::<Seq<char>>::empty());
        assert(out.deep_view() + slash_split_from(s@, 0, Seq::empty()) =~= slash_split(s@));
    }
    loop
        invariant
            n == s@.len(),
            start <= i <= n,
            slash_split(s@) == out.deep_view() + slash_split_from(
                s@,
                i as int,
                s@.subrange(start as int, i as int),
            ),
        decreases n - i,
    {
        if i >= n {
            let tok = s.substring_char(start, n).to_owned();
            let ghost old_out = out.deep_view();
            out.push(tok);
            proof {
                let cur = s@.subrange(start as int, n as int);
                assert(slash_split_from(s@, n as int, cur) == seq![cur]);
                assert(out.deep_view() =~= old_out + seq![cur]);
                assert(out.deep_view() =~= slash_split(s@));
            }
            return out;
        }
        let c = s.get_char(i);
        proof {
            let cur = s@.subrange(start as int, i as int);
            if c != '/' {
                assert(cur.push(s@[i as int]) =~= s@.subrange(start as int, i as int + 1));
            }
        }
        if c == '/' {
            let tok = s.substring_char(start, i).to_owned();
            let ghost old_out = out.deep_view();
            out.push(tok);
            proof {
                let cur = s@.subrange(start as int, i as int);
                assert(out.deep_view() =~= old_out + seq![cur]);
                assert(s@.subrange(i as int + 1, i as int + 1) =~= Seq::<char>::empty());
            }
            start = i + 1;
            i += 1;
        } else {
            i += 1;
        }
    }
}

} // verus!
